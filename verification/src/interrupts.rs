//! Interrupt vectors: what each stands for, what a fatal one prints, and how
//! a device interrupt is acknowledged.
use vstd::prelude::*;

use crate::text::{hex, push_hex};

verus! {

/// What the processor or a device raised.
#[derive(Clone, Copy, Debug, PartialEq, Eq, Structural)]
pub enum Source {
    DivideError,
    Debug,
    Nmi,
    Breakpoint,
    Overflow,
    BoundRange,
    InvalidOpcode,
    DeviceNotAvailable,
    DoubleFault,
    InvalidTss,
    SegmentNotPresent,
    StackSegment,
    GeneralProtection,
    PageFault,
    X87,
    AlignmentCheck,
    MachineCheck,
    Simd,
    Virtualization,
    Security,
    /// The uptime clock.
    Pit,
    Keyboard,
    Mouse,
    /// The preemption clock.
    LapicTimer,
    /// Another CPU has made a task ready.
    Reschedule,
    Spurious,
}

/// The source behind a vector; `None` where no handler is installed.
pub open spec fn source(vector: u8) -> Option<Source> {
    if vector == 0 {
        Some(Source::DivideError)
    } else if vector == 1 {
        Some(Source::Debug)
    } else if vector == 2 {
        Some(Source::Nmi)
    } else if vector == 3 {
        Some(Source::Breakpoint)
    } else if vector == 4 {
        Some(Source::Overflow)
    } else if vector == 5 {
        Some(Source::BoundRange)
    } else if vector == 6 {
        Some(Source::InvalidOpcode)
    } else if vector == 7 {
        Some(Source::DeviceNotAvailable)
    } else if vector == 8 {
        Some(Source::DoubleFault)
    } else if vector == 10 {
        Some(Source::InvalidTss)
    } else if vector == 11 {
        Some(Source::SegmentNotPresent)
    } else if vector == 12 {
        Some(Source::StackSegment)
    } else if vector == 13 {
        Some(Source::GeneralProtection)
    } else if vector == 14 {
        Some(Source::PageFault)
    } else if vector == 16 {
        Some(Source::X87)
    } else if vector == 17 {
        Some(Source::AlignmentCheck)
    } else if vector == 18 {
        Some(Source::MachineCheck)
    } else if vector == 19 {
        Some(Source::Simd)
    } else if vector == 20 {
        Some(Source::Virtualization)
    } else if vector == 30 {
        Some(Source::Security)
    } else if vector == 0x20 {
        Some(Source::Pit)
    } else if vector == 0x21 {
        Some(Source::Keyboard)
    } else if vector == 0x2C {
        Some(Source::Mouse)
    } else if vector == 0x30 {
        Some(Source::LapicTimer)
    } else if vector == 0x31 {
        Some(Source::Reschedule)
    } else if vector == 0xFF {
        Some(Source::Spurious)
    } else {
        None
    }
}

/// The source of the interrupt with this vector.
pub fn source_of(vector: u8) -> (r: Option<Source>)
    ensures
        r == source(vector),
{
    match vector {
        0 => Some(Source::DivideError),
        1 => Some(Source::Debug),
        2 => Some(Source::Nmi),
        3 => Some(Source::Breakpoint),
        4 => Some(Source::Overflow),
        5 => Some(Source::BoundRange),
        6 => Some(Source::InvalidOpcode),
        7 => Some(Source::DeviceNotAvailable),
        8 => Some(Source::DoubleFault),
        10 => Some(Source::InvalidTss),
        11 => Some(Source::SegmentNotPresent),
        12 => Some(Source::StackSegment),
        13 => Some(Source::GeneralProtection),
        14 => Some(Source::PageFault),
        16 => Some(Source::X87),
        17 => Some(Source::AlignmentCheck),
        18 => Some(Source::MachineCheck),
        19 => Some(Source::Simd),
        20 => Some(Source::Virtualization),
        30 => Some(Source::Security),
        0x20 => Some(Source::Pit),
        0x21 => Some(Source::Keyboard),
        0x2C => Some(Source::Mouse),
        0x30 => Some(Source::LapicTimer),
        0x31 => Some(Source::Reschedule),
        0xFF => Some(Source::Spurious),
        _ => None,
    }
}

/// Whether the source is an exception of the processor.
pub open spec fn is_exception(s: Source) -> bool {
    !(s == Source::Pit || s == Source::Keyboard || s == Source::Mouse || s == Source::LapicTimer || s
        == Source::Reschedule || s == Source::Spurious)
}

/// Whether the machine halts on it: on every exception but a breakpoint.
pub fn is_fatal(s: Source) -> (r: bool)
    ensures
        r == (is_exception(s) && s != Source::Breakpoint),
{
    match s {
        Source::Pit => false,
        Source::Keyboard => false,
        Source::Mouse => false,
        Source::LapicTimer => false,
        Source::Reschedule => false,
        Source::Spurious => false,
        Source::Breakpoint => false,
        _ => true,
    }
}

/// How an interrupt is acknowledged.
#[derive(Clone, Copy, Debug, PartialEq, Eq, Structural)]
pub enum Eoi {
    /// With a write to the local controller.
    Lapic,
    /// At the legacy controllers, for this vector.
    Pic(u8),
    /// Not at all.
    Quiet,
}

/// The acknowledgement that a source is owed: exceptions and spurious
/// interrupts none, the preemption clock and a reschedule request the local
/// controller, and a device whichever controller delivers its interrupts.
pub fn device_eoi(s: Source, apic_active: bool) -> (r: Eoi)
    ensures
        r == (if s == Source::LapicTimer || s == Source::Reschedule {
            Eoi::Lapic
        } else if s == Source::Pit || s == Source::Keyboard || s == Source::Mouse {
            if apic_active {
                Eoi::Lapic
            } else {
                Eoi::Pic(
                    if s == Source::Pit {
                        0x20u8
                    } else if s == Source::Keyboard {
                        0x21u8
                    } else {
                        0x2Cu8
                    },
                )
            }
        } else {
            Eoi::Quiet
        }),
{
    match s {
        Source::LapicTimer => Eoi::Lapic,
        Source::Reschedule => Eoi::Lapic,
        Source::Pit => if apic_active { Eoi::Lapic } else { Eoi::Pic(0x20) },
        Source::Keyboard => if apic_active { Eoi::Lapic } else { Eoi::Pic(0x21) },
        Source::Mouse => if apic_active { Eoi::Lapic } else { Eoi::Pic(0x2C) },
        _ => Eoi::Quiet,
    }
}

/// A device that the legacy controllers acknowledge is acknowledged under the
/// vector it came in on.
pub proof fn law_eoi_names_the_vector(vector: u8)
    requires
        source(vector) matches Some(s) && (s == Source::Pit || s == Source::Keyboard || s == Source::Mouse),
    ensures
        vector == 0x20 || vector == 0x21 || vector == 0x2C,
        source(vector) == Some(Source::Pit) ==> vector == 0x20,
        source(vector) == Some(Source::Keyboard) ==> vector == 0x21,
        source(vector) == Some(Source::Mouse) ==> vector == 0x2C,
{
}

/// What an exception is called.
pub open spec fn exception_name(s: Source) -> Seq<char> {
    match s {
        Source::DivideError => "Divide Error (#DE)"@,
        Source::Debug => "Debug (#DB)"@,
        Source::Nmi => "Non-Maskable Interrupt (NMI)"@,
        Source::Breakpoint => "Breakpoint (#BP)"@,
        Source::Overflow => "Overflow (#OF)"@,
        Source::BoundRange => "Bound Range Exceeded (#BR)"@,
        Source::InvalidOpcode => "Invalid Opcode (#UD)"@,
        Source::DeviceNotAvailable => "Device Not Available (#NM)"@,
        Source::DoubleFault => "Double Fault (#DF)"@,
        Source::InvalidTss => "Invalid TSS (#TS)"@,
        Source::SegmentNotPresent => "Segment Not Present (#NP)"@,
        Source::StackSegment => "Stack-Segment Fault (#SS)"@,
        Source::GeneralProtection => "General Protection Fault (#GP)"@,
        Source::PageFault => "Page Fault (#PF)"@,
        Source::X87 => "x87 FPU (#MF)"@,
        Source::AlignmentCheck => "Alignment Check (#AC)"@,
        Source::MachineCheck => "Machine Check (#MC)"@,
        Source::Simd => "SIMD Floating-Point (#XM)"@,
        Source::Virtualization => "Virtualization (#VC)"@,
        Source::Security => "Security Exception (#SX)"@,
        _ => ""@,
    }
}

/// Whether the line of an exception tells where it happened.
pub open spec fn tells_rip(s: Source) -> bool {
    s == Source::Breakpoint || s == Source::InvalidOpcode || s == Source::DeviceNotAvailable || s
        == Source::DoubleFault || s == Source::GeneralProtection || s == Source::PageFault
}

/// The line that an exception prints. A protection fault and a page fault
/// tell their error code.
pub open spec fn exception_text(s: Source, code: Seq<char>, rip: u64) -> Seq<char> {
    "EXCEPTION: "@ + exception_name(s) + (if s == Source::GeneralProtection || s == Source::PageFault {
        " err="@ + code
    } else {
        ""@
    }) + (if tells_rip(s) { " at RIP=0x"@ + hex(rip as nat) } else { ""@ }) + (if s == Source::DeviceNotAvailable {
        " \u{2014} FPU state was not carried across the switch (scheduler bug)"@
    } else {
        ""@
    })
}

fn name_of(s: Source) -> (r: &'static str)
    ensures
        r@ == exception_name(s),
{
    match s {
        Source::DivideError => "Divide Error (#DE)",
        Source::Debug => "Debug (#DB)",
        Source::Nmi => "Non-Maskable Interrupt (NMI)",
        Source::Breakpoint => "Breakpoint (#BP)",
        Source::Overflow => "Overflow (#OF)",
        Source::BoundRange => "Bound Range Exceeded (#BR)",
        Source::InvalidOpcode => "Invalid Opcode (#UD)",
        Source::DeviceNotAvailable => "Device Not Available (#NM)",
        Source::DoubleFault => "Double Fault (#DF)",
        Source::InvalidTss => "Invalid TSS (#TS)",
        Source::SegmentNotPresent => "Segment Not Present (#NP)",
        Source::StackSegment => "Stack-Segment Fault (#SS)",
        Source::GeneralProtection => "General Protection Fault (#GP)",
        Source::PageFault => "Page Fault (#PF)",
        Source::X87 => "x87 FPU (#MF)",
        Source::AlignmentCheck => "Alignment Check (#AC)",
        Source::MachineCheck => "Machine Check (#MC)",
        Source::Simd => "SIMD Floating-Point (#XM)",
        Source::Virtualization => "Virtualization (#VC)",
        Source::Security => "Security Exception (#SX)",
        _ => "",
    }
}

/// The line for an exception; `code` is its error code as text.
pub fn exception_line(s: Source, code: &str, rip: u64) -> (r: String)
    ensures
        r@ == exception_text(s, code@, rip),
{
    let mut t = String::from_str("EXCEPTION: ");
    t.append(name_of(s));
    if s == Source::GeneralProtection || s == Source::PageFault {
        t.append(" err=");
        t.append(code);
    } else {
        t.append("");
    }
    if s == Source::Breakpoint || s == Source::InvalidOpcode || s == Source::DeviceNotAvailable || s
        == Source::DoubleFault || s == Source::GeneralProtection || s == Source::PageFault {
        t.append(" at RIP=0x");
        push_hex(&mut t, rip);
    } else {
        t.append("");
    }
    if s == Source::DeviceNotAvailable {
        t.append(" \u{2014} FPU state was not carried across the switch (scheduler bug)");
    } else {
        t.append("");
    }
    assert(t@ =~= exception_text(s, code@, rip));
    t
}

} // verus!
