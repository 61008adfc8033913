# rustboot

The machine-level core of a small i686 kernel, written in Verus with its
behaviour proved.

- `src/runtime.rs`: `memset`, `memcpy`, `memmove` and the word-sized fills,
  on memory modelled as a vector of bytes; the string instructions
  (`rep stos`, `rep movs`, with the direction flag) as verified loops.
- `src/page.rs`: page-table entries and their flags.
- `src/mmu.rs`: two-level page tables in physical memory modelled as 32-bit
  words, with `CR3`/`CR0`, the list of free frames and the log of processor
  operations asked for (TLB invalidations, control-register loads, handler
  installation) in `Machine`; `init`, `set_page`, `map`, `clone`, and the
  address translation they establish.
- `src/idt.rs`: interrupt-descriptor-table entries.
- `src/exception.rs`: exception numbers, names, and what the handler does.
- `src/smp.rs`: the search for the multiprocessor configuration table.
- `src/util.rs`: `range` and `to_str_bytes`.
- `app/lib.rs`: the hardware edge: carrying out the logged processor
  operations, the descriptor-table register, `hlt`, `CR2`, the body of the
  exception handler, and console text.
