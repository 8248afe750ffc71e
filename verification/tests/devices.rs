//! Device logic: ACPI tables, interrupt controllers, timers, PCI, the RTC.
use onyxos::acpi;
use onyxos::apic;
use onyxos::interrupts::{device_eoi, exception_line, is_fatal, source_of, Eoi, Source};
use onyxos::pci;
use onyxos::pic;
use onyxos::pit;
use onyxos::rtc;

fn put32(m: &mut [u8], at: usize, v: u32) {
    m[at..at + 4].copy_from_slice(&v.to_le_bytes());
}

fn put64(m: &mut [u8], at: usize, v: u64) {
    m[at..at + 8].copy_from_slice(&v.to_le_bytes());
}

/// Set the checksum byte so that `len` bytes from `at` on sum to zero.
fn balance(m: &mut [u8], at: usize, len: usize, sum_at: usize) {
    m[sum_at] = 0;
    let s = m[at..at + len].iter().fold(0u8, |a, b| a.wrapping_add(*b));
    m[sum_at] = 0u8.wrapping_sub(s);
}

const RSDP: usize = 0xE0010;
const XSDT: usize = 0x1000;
const RSDT: usize = 0x1100;
const MADT: usize = 0x2001;

/// A memory image with an RSDP, an XSDT, an RSDT and a MADT with `cpus`
/// processors.
fn acpi_image(cpus: usize) -> Vec<u8> {
    let mut m = vec![0u8; 0x100000];
    m[RSDP..RSDP + 8].copy_from_slice(b"RSD PTR ");
    m[RSDP + 15] = 2;
    put32(&mut m, RSDP + 16, RSDT as u32);
    put64(&mut m, RSDP + 24, XSDT as u64);
    balance(&mut m, RSDP, 20, RSDP + 8);
    m[XSDT..XSDT + 4].copy_from_slice(b"XSDT");
    put32(&mut m, XSDT + 4, 36 + 8);
    put64(&mut m, XSDT + 36, MADT as u64);
    balance(&mut m, XSDT, 44, XSDT + 9);
    m[RSDT..RSDT + 4].copy_from_slice(b"RSDT");
    put32(&mut m, RSDT + 4, 36 + 4);
    put32(&mut m, RSDT + 36, MADT as u32);
    balance(&mut m, RSDT, 40, RSDT + 9);
    let len = 44 + 8 * cpus + 12 + 10;
    m[MADT..MADT + 4].copy_from_slice(b"APIC");
    put32(&mut m, MADT + 4, len as u32);
    let mut at = MADT + 44;
    for i in 0..cpus {
        m[at] = 0;
        m[at + 1] = 8;
        m[at + 3] = 2 * i as u8;
        // The second processor is not enabled.
        put32(&mut m, at + 4, if i == 1 { 0 } else { 1 });
        at += 8;
    }
    m[at] = 1;
    m[at + 1] = 12;
    put32(&mut m, at + 4, 0xFEC0_0000);
    put32(&mut m, at + 8, 0);
    at += 12;
    m[at] = 2;
    m[at + 1] = 10;
    balance(&mut m, MADT, len, MADT + 9);
    m
}

#[test]
fn acpi_tables_are_found_by_scanning() {
    let m = acpi_image(3);
    assert_eq!(acpi::find_rsdp(&m, None), Some(RSDP as u64));
    assert_eq!(acpi::parse_rsdp(&m, RSDP as u64), (2, XSDT as u64));
    let (st, check) = acpi::init(&m, None);
    assert!(acpi::available(&st));
    assert_eq!(acpi::ioapic_info(&st), Some((0xFEC0_0000, 0)));
    assert_eq!(acpi::lapic_ids(&st), ([0, 4, 0, 0, 0, 0, 0, 0], 2));
    assert_eq!(check, acpi::CrossCheck::Matches);
}

#[test]
fn acpi_falls_back_to_the_32_bit_directory() {
    let mut m = acpi_image(3);
    m[XSDT + 9] ^= 1;
    let (st, check) = acpi::init(&m, Some(RSDP as u64));
    assert!(acpi::available(&st));
    assert_eq!(check, acpi::CrossCheck::Matches);
}

#[test]
fn acpi_refuses_broken_tables() {
    let mut m = acpi_image(3);
    assert_eq!(acpi::table_header_ok(&m, MADT as u64), Some(44 + 24 + 22));
    m[MADT + 50] ^= 0x40;
    assert!(!acpi::checksum_ok(&m, MADT as u64, 90));
    assert_eq!(acpi::table_header_ok(&m, MADT as u64), None);
    let (st, check) = acpi::init(&m, None);
    assert_eq!(acpi::ioapic_info(&st), None);
    assert_eq!(check, acpi::CrossCheck::NoIoApic);
    let empty = vec![0u8; 0x100000];
    assert_eq!(acpi::find_rsdp(&empty, Some(0x1234)), None);
    let (none, _) = acpi::init(&empty, None);
    assert!(!acpi::available(&none));
    assert_eq!(acpi::lapic_ids(&none).1, 0);
}

#[test]
fn acpi_another_io_apic_is_reported() {
    let mut m = acpi_image(1);
    let at = MADT + 44 + 8;
    put32(&mut m, at + 4, 0xFEC1_0000);
    balance(&mut m, MADT, 44 + 8 + 22, MADT + 9);
    assert_eq!(acpi::init(&m, None).1, acpi::CrossCheck::Differs(0xFEC1_0000));
}

#[test]
fn acpi_keeps_the_first_eight_processors() {
    let m = acpi_image(12);
    let (st, _) = acpi::init(&m, None);
    assert_eq!(acpi::lapic_ids(&st), ([0, 4, 6, 8, 10, 12, 14, 16], 8));
}

#[test]
fn acpi_table_kinds() {
    let m = acpi_image(2);
    let mut st = acpi::Acpi::new();
    let k = acpi::decode_table(&mut st, &m, MADT as u64, 44 + 16 + 22);
    assert_eq!(k, acpi::TableKind::Madt(Some(acpi::MadtCounts { lapics: 2, ioapics: 1, overrides: 1 })));
    let mut f = vec![0u8; 64];
    f[0..4].copy_from_slice(b"FACP");
    put32(&mut f, 4, 40);
    assert_eq!(acpi::decode_table(&mut st, &f, 0, 40), acpi::TableKind::Facp);
    f[0..4].copy_from_slice(b"WAET");
    assert_eq!(acpi::decode_table(&mut st, &f, 0, 40), acpi::TableKind::Other((b'W', b'A', b'E', b'T')));
    assert_eq!(acpi::parse_madt(&mut st, &f, 0, 43), None);
}

#[test]
fn apic_window_and_its_refusals() {
    assert_eq!(apic::locate(0xFEE0_0900, Some(0x1000_0000_0000)), Ok((0x1000_FEE0_0000, 0x1000_FEC0_0000)));
    assert_eq!(apic::locate(0xFEE0_0100, Some(0)), Err(apic::ApicOff::GloballyDisabled));
    assert_eq!(apic::locate(0xFEE0_0900, None), Err(apic::ApicOff::NoWindow));
    assert_eq!(apic::locate(0xFEE0_0900, Some(u64::MAX - 5)), Err(apic::ApicOff::LapicOverflow));
    assert_eq!(apic::locate(0x800, Some(u64::MAX - 5)), Err(apic::ApicOff::IoApicOverflow));
}

#[test]
fn apic_timer_calibration() {
    // 31,250,000 counts in half a second.
    assert_eq!(apic::calibrate(0xFFFF_FFFF - 31_250_000), Ok(62_500));
    assert_eq!(apic::calibrate(0xFFFF_FFFF - 1000), Err(apic::ApicOff::BogusTimer(2000)));
    assert_eq!(apic::correct_interval(62_500, 500), 62_500);
    assert_eq!(apic::correct_interval(62_500, 1000), 125_000);
    assert_eq!(apic::correct_interval(62_500, 50), 6_250);
    assert_eq!(apic::correct_interval(62_500, 3), 62_500);
    assert_eq!(apic::correct_interval(16, 11), 16);
}

#[test]
fn apic_routing_and_ticks() {
    assert_eq!(apic::route_gsi(12, 0x2C, 0x0312_3456), ((0x28, 0x2C), (0x29, 0x0300_0000)));
    assert_eq!(apic::routed_lines()[3], (12, 0x2C));
    let mut a = apic::Apic { live: true, ms: 498, lapic_virt: 1, ioapic_virt: 2 };
    assert_eq!(apic::tick_ms(&mut a), None);
    assert_eq!(apic::tick_ms(&mut a), Some(500));
    assert_eq!(apic::ms_since_boot(&a), 500);
    assert!(apic::active(&a));
}

#[test]
fn pic_masks() {
    assert_eq!(pic::mask_all(), (0xFF, 0xFF));
    assert_eq!(pic::enable_irq((0xFF, 0xFF), 1), (0xFD, 0xFF));
    assert_eq!(pic::enable_irq((0xFB, 0xFF), 12), (0xFB, 0xEF));
    assert_eq!(pic::disable_irq((0x00, 0x00), 0), (0x01, 0x00));
    assert_eq!(pic::disable_irq(pic::enable_irq((0xFF, 0xFF), 9), 9), (0xFF, 0xFF));
}

#[test]
fn pit_divisor_and_ticks() {
    // 1193182 / 100 = 11931 = 0x2E9B.
    assert_eq!(pit::init(), (0x36, 0x9B, 0x2E));
    let mut p = pit::Pit { count: 41 };
    pit::tick(&mut p);
    assert_eq!(pit::ticks(&p), 42);
}

#[test]
fn vectors_and_their_acknowledgement() {
    assert_eq!(source_of(14), Some(Source::PageFault));
    assert_eq!(source_of(0x20), Some(Source::Pit));
    assert_eq!(source_of(0x2C), Some(Source::Mouse));
    assert_eq!(source_of(0x30), Some(Source::LapicTimer));
    assert_eq!(source_of(0x31), Some(Source::Reschedule));
    assert_eq!(source_of(0xFF), Some(Source::Spurious));
    assert_eq!(source_of(0x77), None);
    assert!(is_fatal(Source::DoubleFault));
    assert!(!is_fatal(Source::Breakpoint));
    assert!(!is_fatal(Source::Reschedule));
    assert_eq!(device_eoi(Source::Reschedule, true), Eoi::Lapic);
    assert_eq!(device_eoi(Source::Keyboard, true), Eoi::Lapic);
    assert_eq!(device_eoi(Source::Keyboard, false), Eoi::Pic(0x21));
    assert_eq!(device_eoi(Source::Spurious, true), Eoi::Quiet);
    assert!(exception_line(Source::InvalidOpcode, "", 0x40_1000).contains("401000"));
}

fn function(id: u32, class: u32, header: u32, bars: [u32; 6], masks: [u32; 6]) -> pci::FunctionRegs {
    let mut words = vec![0u32; 16];
    words[0] = id;
    words[2] = class;
    words[3] = header;
    words[4..10].copy_from_slice(&bars);
    pci::FunctionRegs { words, masks: masks.to_vec() }
}

/// A host bridge, a multi-function south bridge and a display.
fn bus() -> Vec<pci::DeviceRegs> {
    let none = || function(0xFFFF_FFFF, 0, 0, [0; 6], [0; 6]);
    let mut south = vec![
        function(0x7000_8086, 0x0601_0000, 0x0080_0000, [0; 6], [0; 6]),
        function(0x7010_8086, 0x0101_8000, 0, [0, 0, 0, 0, 0xC041, 0], [0; 6]),
    ];
    while south.len() < 8 {
        south.push(none());
    }
    vec![
        pci::DeviceRegs { bus: 0, device: 0, functions: vec![function(0x1237_8086, 0x0600_0002, 0, [0; 6], [0; 6])] },
        pci::DeviceRegs { bus: 0, device: 1, functions: south },
        pci::DeviceRegs {
            bus: 0,
            device: 2,
            functions: vec![function(
                0x1111_1234,
                0x0300_0002,
                0,
                [0xFD00_0008, 0, 0xFEBF_0000, 0, 0, 0],
                [0xFF00_0008, 0, 0xFFFF_F000, 0, 0, 0],
            )],
        },
    ]
}

#[test]
fn pci_functions_and_lines() {
    let (fs, lines, tail) = pci::init(&bus());
    assert_eq!(fs.len(), 4);
    assert_eq!(tail, "[pci] 4 functions found");
    assert_eq!(lines[0], "[pci] 00:00.0 8086:1237 (440fx-host-bridge) class=0600(bridge)");
    assert_eq!(lines[2], "[pci] 00:01.1 8086:7010 (piix3-ide) class=0101(storage) bar4=io: 0000c000/?");
    assert_eq!(
        lines[3],
        "[pci] 00:02.0 1234:1111 (qemu-std-vga) class=0300(display) bar0=mem: fd000000/16M bar2=mem: febf0000/4096B"
    );
    assert_eq!(fs[1].slot(), "00:01.0");
    assert_eq!(fs[1].class_name(), "bridge");
    assert_eq!(fs[3].identify(), "1234:1111 (qemu-std-vga)");
}

#[test]
fn pci_display_and_its_framebuffer() {
    let fs = pci::enumerate(&bus());
    let d = pci::find_display(&fs).unwrap();
    assert_eq!((d.vendor_id, d.device_id), (0x1234, 0x1111));
    assert_eq!(pci::framebuffer_bar(&d), Some((0, 0xFD00_0000, 0x100_0000)));
    assert_eq!(pci::framebuffer_bar(&fs[0]), None);
    assert!(pci::find_display(&vec![fs[0]]).is_none());
}

#[test]
fn pci_registers() {
    assert_eq!(pci::config_addr(0, 2, 0, 0x10), 0x8000_1010);
    assert_eq!(pci::config_addr(1, 31, 7, 0xFF), 0x8001_FFFC);
    assert_eq!(pci::config_byte(0x1122_3344, 2), 0x22);
    assert_eq!(pci::config_word(0x1122_3344, 2), 0x1122);
    assert_eq!(pci::size_bar(0xFF00_0008), 0x100_0000);
    assert_eq!(pci::size_bar(0), 0);
    assert!(pci::should_size(3, 0xFD00_0008, false));
    assert!(!pci::should_size(3, 0xFD00_0008, true));
    assert!(!pci::should_size(3, 0xC001, false));
    assert!(!pci::should_size(2, 0xFD00_0000, false));
    assert_eq!(pci::device_functions(0x7000_8086, 0x0080_0000), 8);
    assert_eq!(pci::device_functions(0x7000_8086, 0), 1);
    assert_eq!(pci::device_functions(0xFFFF_FFFF, 0), 0);
    assert_eq!(pci::size_str(0x100_0000), "16 MiB");
    assert_eq!(pci::size_str(4096), "4 KiB");
    assert_eq!(pci::size_str(16), "16 B");
    assert_eq!(pci::config_or_u16(0x0010_0003, 0x0004), 0x0010_0007);
}

#[test]
fn rtc_registers_decode() {
    // 12:59:58 PM, binary-coded, twelve hours, 31 Dec 2025.
    let raw = [0x58, 0x59, 0x92, 0x31, 0x12, 0x25, 0x20];
    let d = rtc::decode(raw, 0x00);
    assert_eq!(d, rtc::DateTime { second: 58, minute: 59, hour: 12, day: 31, month: 12, year: 2025 });
    assert_eq!(d.secs_of_day(), 12 * 3600 + 59 * 60 + 58);
    // 12 AM is midnight.
    assert_eq!(rtc::decode([0, 0, 0x12, 1, 1, 0x24, 0], 0x00).hour, 0);
    // Binary, 24 hours, no century register.
    assert_eq!(rtc::decode([1, 2, 23, 4, 5, 26, 0], 0x06).year, 2026);
    assert_eq!(rtc::decode([1, 2, 23, 4, 5, 26, 0], 0x06).hour, 23);
}

#[test]
fn rtc_waits_for_two_equal_reads() {
    let a = [1, 2, 3, 4, 5, 6, 20];
    let b = [2, 2, 3, 4, 5, 6, 20];
    let mut pairs = vec![(a, b); 10];
    assert_eq!(rtc::read_datetime_stable(&pairs, 0x06), None);
    pairs[7] = (b, b);
    assert_eq!(rtc::read_datetime_stable(&pairs, 0x06).unwrap().second, 2);
}

#[test]
fn rtc_calendar() {
    let d = |y, m, dd| rtc::DateTime { second: 0, minute: 0, hour: 0, day: dd, month: m, year: y };
    assert_eq!(rtc::next_day(d(2024, 2, 28)), d(2024, 2, 29));
    assert_eq!(rtc::next_day(d(2023, 2, 28)), d(2023, 3, 1));
    assert_eq!(rtc::next_day(d(2000, 2, 28)), d(2000, 2, 29));
    assert_eq!(rtc::next_day(d(1900, 2, 28)), d(1900, 3, 1));
    assert_eq!(rtc::next_day(d(2025, 12, 31)), d(2026, 1, 1));
    assert_eq!(rtc::prev_day(d(2026, 1, 1)), d(2025, 12, 31));
    assert_eq!(rtc::prev_day(rtc::next_day(d(2024, 2, 29))), d(2024, 2, 29));
}

#[test]
fn rtc_local_time() {
    let utc = rtc::DateTime { second: 30, minute: 45, hour: 20, day: 31, month: 12, year: 2025 };
    let ist = rtc::to_local(utc, rtc::DEFAULT_TZ);
    assert_eq!(ist, rtc::DateTime { second: 30, minute: 15, hour: 2, day: 1, month: 1, year: 2026 });
    let west = rtc::to_local(ist, -rtc::DEFAULT_TZ);
    assert_eq!(west, utc);
    let mut c = rtc::Rtc::new();
    assert!(!rtc::available(&c));
    // A clock that was not set counts from the zero date.
    let zero = rtc::DateTime { second: 0, minute: 0, hour: 0, day: 0, month: 0, year: 0 };
    assert_eq!(rtc::now_utc(&c, 100), rtc::DateTime { second: 1, ..zero });
    assert_eq!(rtc::now_utc(&c, 8_640_000), rtc::DateTime { day: 1, ..zero });
    assert_eq!(rtc::now_utc(&c, 31 * 8_640_000), rtc::DateTime { day: 1, month: 1, ..zero });
    assert_eq!(rtc::now(&c, 0), rtc::DateTime { hour: 5, minute: 30, ..zero });
    assert_eq!(rtc::now_secs_of_day(&c, 100), 1);
    assert!(!rtc::init(&mut c, None));
    assert!(!rtc::init(&mut c, Some(rtc::DateTime { month: 13, ..utc })));
    assert!(rtc::init(&mut c, Some(utc)));
    assert!(rtc::available(&c));
    assert_eq!(rtc::boot_datetime_utc(&c), utc);
    // 100 ticks are a second.
    assert_eq!(rtc::now_utc(&c, 3_000).minute, 46);
    assert_eq!(rtc::now(&c, 0), ist);
    rtc::set_tz_offset_secs(&mut c, 0);
    assert_eq!(rtc::now_secs_of_day(&c, 0), 20 * 3600 + 45 * 60 + 30);
    assert_eq!(rtc::format_hms(3_661), "01:01:01");
}
