use vstd::prelude::*;

verus! {

/// The processor exceptions, by vector number.
#[derive(Clone, Copy, Debug, PartialEq, Eq, Structural)]
pub enum Fault {
    DivideError,
    NMI,
    Breakpoint,
    Overflow,
    BoundExceeded,
    InvalidOpcode,
    NoMathCoprocessor,
    DoubleFault,
    CoprocessorSegmentOverun,
    InvalidTss,
    SegmentNotPresent,
    StackSegmentFault,
    GeneralProtection,
    PageFault,
    FloatingPointError,
    AlignmentCheck,
    MachineCheck,
    SimdFpException,
}

/// The vector number of each exception.
pub open spec fn fault_code(f: Fault) -> u8 {
    match f {
        Fault::DivideError => 0,
        Fault::NMI => 2,
        Fault::Breakpoint => 3,
        Fault::Overflow => 4,
        Fault::BoundExceeded => 5,
        Fault::InvalidOpcode => 6,
        Fault::NoMathCoprocessor => 7,
        Fault::DoubleFault => 8,
        Fault::CoprocessorSegmentOverun => 9,
        Fault::InvalidTss => 10,
        Fault::SegmentNotPresent => 11,
        Fault::StackSegmentFault => 12,
        Fault::GeneralProtection => 13,
        Fault::PageFault => 14,
        Fault::FloatingPointError => 16,
        Fault::AlignmentCheck => 17,
        Fault::MachineCheck => 18,
        Fault::SimdFpException => 19,
    }
}

impl Fault {
    /// The exception's vector number.
    pub fn code(self) -> (c: u8)
        ensures
            c == fault_code(self),
    {
        match self {
            Fault::DivideError => 0,
            Fault::NMI => 2,
            Fault::Breakpoint => 3,
            Fault::Overflow => 4,
            Fault::BoundExceeded => 5,
            Fault::InvalidOpcode => 6,
            Fault::NoMathCoprocessor => 7,
            Fault::DoubleFault => 8,
            Fault::CoprocessorSegmentOverun => 9,
            Fault::InvalidTss => 10,
            Fault::SegmentNotPresent => 11,
            Fault::StackSegmentFault => 12,
            Fault::GeneralProtection => 13,
            Fault::PageFault => 14,
            Fault::FloatingPointError => 16,
            Fault::AlignmentCheck => 17,
            Fault::MachineCheck => 18,
            Fault::SimdFpException => 19,
        }
    }

    /// The exception with vector number `c`, if it is one of these.
    pub fn from_code(c: u8) -> (f: Option<Fault>)
        ensures
            f matches Some(g) ==> fault_code(g) == c,
            f is None <==> forall|g: Fault| fault_code(g) != c,
    {
        let r = match c {
            0 => Some(Fault::DivideError),
            2 => Some(Fault::NMI),
            3 => Some(Fault::Breakpoint),
            4 => Some(Fault::Overflow),
            5 => Some(Fault::BoundExceeded),
            6 => Some(Fault::InvalidOpcode),
            7 => Some(Fault::NoMathCoprocessor),
            8 => Some(Fault::DoubleFault),
            9 => Some(Fault::CoprocessorSegmentOverun),
            10 => Some(Fault::InvalidTss),
            11 => Some(Fault::SegmentNotPresent),
            12 => Some(Fault::StackSegmentFault),
            13 => Some(Fault::GeneralProtection),
            14 => Some(Fault::PageFault),
            16 => Some(Fault::FloatingPointError),
            17 => Some(Fault::AlignmentCheck),
            18 => Some(Fault::MachineCheck),
            19 => Some(Fault::SimdFpException),
            _ => None,
        };
        proof {
            if r is None {
                assert(forall|g: Fault| fault_code(g) != c);
            } else {
                assert(fault_code(r->0) == c);
            }
        }
        r
    }
}

/// Distinct exceptions have distinct vector numbers, and each vector number
/// names back its exception.
pub proof fn lemma_code_round_trip(f: Fault, g: Fault)
    ensures
        fault_code(f) == fault_code(g) ==> f == g,
{
}

/// The number of names in the exception table.
pub const EXCEPTION_NAMES: u32 = 21;

/// The name of the exception with vector number `n`, as the blue screen
/// shows it.
pub open spec fn exception_name_spec(n: u32) -> Seq<char> {
    if n == 0 {
        "Divide-by-zero Error"@
    } else if n == 1 {
        "Debug"@
    } else if n == 2 {
        "Non-maskable Interrupt"@
    } else if n == 3 {
        "Breakpoint"@
    } else if n == 4 {
        "Overflow"@
    } else if n == 5 {
        "Bound Range Exceeded"@
    } else if n == 6 {
        "Invalid Opcode"@
    } else if n == 7 {
        "Device Not Available"@
    } else if n == 8 {
        "Double Fault"@
    } else if n == 9 {
        "Coprocessor Segment Overrun"@
    } else if n == 10 {
        "Invalid TSS"@
    } else if n == 11 {
        "Segment Not Present"@
    } else if n == 12 {
        "Stack-Segment Fault"@
    } else if n == 13 {
        "General Protection Fault"@
    } else if n == 14 {
        "Page Fault"@
    } else if n == 15 {
        "Reserved"@
    } else if n == 16 {
        "x87 Floating-Point Exception"@
    } else if n == 17 {
        "Alignment Check"@
    } else if n == 18 {
        "Machine Check"@
    } else if n == 19 {
        "SIMD Floating-Point Exception"@
    } else {
        "Virtualization Exception"@
    }
}

/// The blue screen names each exception after the architecture's table of
/// exception vectors: vector 0 is the divide error, 6 the invalid opcode, 7
/// the missing coprocessor, 14 the page fault, and so on up to 20, the
/// virtualization exception.
pub proof fn lemma_exception_names()
    ensures
        exception_name_spec(0) == "Divide-by-zero Error"@,
        exception_name_spec(1) == "Debug"@,
        exception_name_spec(2) == "Non-maskable Interrupt"@,
        exception_name_spec(3) == "Breakpoint"@,
        exception_name_spec(4) == "Overflow"@,
        exception_name_spec(5) == "Bound Range Exceeded"@,
        exception_name_spec(6) == "Invalid Opcode"@,
        exception_name_spec(7) == "Device Not Available"@,
        exception_name_spec(8) == "Double Fault"@,
        exception_name_spec(9) == "Coprocessor Segment Overrun"@,
        exception_name_spec(10) == "Invalid TSS"@,
        exception_name_spec(11) == "Segment Not Present"@,
        exception_name_spec(12) == "Stack-Segment Fault"@,
        exception_name_spec(13) == "General Protection Fault"@,
        exception_name_spec(14) == "Page Fault"@,
        exception_name_spec(15) == "Reserved"@,
        exception_name_spec(16) == "x87 Floating-Point Exception"@,
        exception_name_spec(17) == "Alignment Check"@,
        exception_name_spec(18) == "Machine Check"@,
        exception_name_spec(19) == "SIMD Floating-Point Exception"@,
        exception_name_spec(20) == "Virtualization Exception"@,
{
}

/// The name of the exception with vector number `n`.
pub fn exception_name(n: u32) -> (s: &'static str)
    requires
        n < EXCEPTION_NAMES,
    ensures
        s@ == exception_name_spec(n),
{
    if n == 0 {
        "Divide-by-zero Error"
    } else if n == 1 {
        "Debug"
    } else if n == 2 {
        "Non-maskable Interrupt"
    } else if n == 3 {
        "Breakpoint"
    } else if n == 4 {
        "Overflow"
    } else if n == 5 {
        "Bound Range Exceeded"
    } else if n == 6 {
        "Invalid Opcode"
    } else if n == 7 {
        "Device Not Available"
    } else if n == 8 {
        "Double Fault"
    } else if n == 9 {
        "Coprocessor Segment Overrun"
    } else if n == 10 {
        "Invalid TSS"
    } else if n == 11 {
        "Segment Not Present"
    } else if n == 12 {
        "Stack-Segment Fault"
    } else if n == 13 {
        "General Protection Fault"
    } else if n == 14 {
        "Page Fault"
    } else if n == 15 {
        "Reserved"
    } else if n == 16 {
        "x87 Floating-Point Exception"
    } else if n == 17 {
        "Alignment Check"
    } else if n == 18 {
        "Machine Check"
    } else if n == 19 {
        "SIMD Floating-Point Exception"
    } else {
        "Virtualization Exception"
    }
}

/// What the exception handler does for an exception.
pub struct ExceptionReport {
    /// For a page fault: the faulting address shifted right by 8 (from `CR2`)
    /// and the faulting instruction's address, printed in hexadecimal.
    pub page_fault: Option<(u32, u32)>,
    /// Unless the exception is a breakpoint: the name to print after
    /// "Exception " before the processor halts.
    pub blue_screen: Option<&'static str>,
}

/// What the exception handler prints first, before it looks at anything
/// else: for a page fault (the low byte of `int_no` is 14), `cr2 >> 8` and
/// `eip`; for any other exception, nothing.
pub fn page_fault_report(int_no: u32, cr2: u32, eip: u32) -> (r: Option<(u32, u32)>)
    ensures
        (int_no as u8) == fault_code(Fault::PageFault) ==> r == Some((cr2 >> 8u32, eip)),
        (int_no as u8) != fault_code(Fault::PageFault) ==> r is None,
{
    if (int_no as u8) == Fault::PageFault.code() {
        Some((cr2 >> 8u32, eip))
    } else {
        None
    }
}

/// The decisions of the exception handler for the exception with vector
/// number `int_no` (its low byte is compared with the exception numbers), the
/// faulting address `cr2` and the faulting instruction `eip`: a page fault
/// reports `cr2 >> 8` and `eip`; a breakpoint returns to the debugger; any
/// other exception shows its name on the blue screen and halts.
pub fn exception_handler(int_no: u32, cr2: u32, eip: u32) -> (r: ExceptionReport)
    requires
        (int_no as u8) != fault_code(Fault::Breakpoint) ==> int_no < EXCEPTION_NAMES,
    ensures
        (int_no as u8) == fault_code(Fault::PageFault) ==> r.page_fault == Some((cr2 >> 8u32, eip)),
        (int_no as u8) != fault_code(Fault::PageFault) ==> r.page_fault is None,
        (int_no as u8) == fault_code(Fault::Breakpoint) ==> r.blue_screen is None,
        (int_no as u8) != fault_code(Fault::Breakpoint) ==> (r.blue_screen matches Some(name)
            && name@ == exception_name_spec(int_no)),
{
    let code: u8 = int_no as u8;
    let page_fault = page_fault_report(int_no, cr2, eip);
    let blue_screen = if code == Fault::Breakpoint.code() {
        None
    } else {
        Some(exception_name(int_no))
    };
    ExceptionReport { page_fault, blue_screen }
}

} // verus!
