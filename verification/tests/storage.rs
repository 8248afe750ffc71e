//! The drive, its cache, partition tables and the boot image.
use onyxos::ata::{
    bytes_to_words, identify, prepare_lba28, wait_data_ready, wait_not_busy, words_to_bytes, AtaDrive, AtaError,
    ProbeReplies, LBA28_MAX,
};
use onyxos::blkcache::{self, Cache};
use onyxos::block::{
    self, crc32, fmt_guid, gpt_selftest_line, guid_kind, has_signature, header_crc_ok, parse_entries,
    rewrite_sector, scan_gpt, scan_mbr, unit, validate_gpt_geometry, write_verify, BlockInit, GptNote, Layout,
};
use onyxos::image::{place, put_entry, KIND_FAT32, KIND_LINUX};
use onyxos::sectors::SectorMap;

fn ident() -> Vec<u16> {
    let mut id = vec![0u16; 256];
    id[60] = 0x1000;
    id[61] = 0x0001;
    let model = b"QEMU HARDDISK                           ";
    for w in 0..20 {
        id[27 + w] = (model[2 * w] as u16) << 8 | model[2 * w + 1] as u16;
    }
    id
}

fn replies() -> ProbeReplies {
    ProbeReplies { selected: true, first_status: 0x50, command_done: true, second_status: 0x58, data: Ok(()) }
}

/// Sector `l` of the test drive.
fn pattern(l: u32) -> Vec<u8> {
    (0..512u32).map(|k| (l.wrapping_mul(31).wrapping_add(k)) as u8).collect()
}

fn drive(from: u32, to: u32) -> AtaDrive {
    let mut d = AtaDrive::empty();
    for l in from..to {
        d.stage(l, pattern(l));
    }
    d
}

#[test]
fn the_drive_identifies_itself() {
    let info = identify(&ident());
    assert_eq!(info.total_sectors, 0x1_1000);
    assert_eq!(info.model, "QEMU HARDDISK");
    let mut big = ident();
    big[83] = 1 << 10;
    big[100] = 5;
    big[102] = 1;
    assert_eq!(identify(&big).total_sectors, 0x1_0000_0005);
    big[100] = 0;
    big[102] = 0;
    assert_eq!(identify(&big).total_sectors, 0x1_1000);
}

#[test]
fn the_probe_judges_each_reply() {
    let bad = |p: ProbeReplies| AtaDrive::new_primary_master(p, &ident()).err();
    assert_eq!(bad(ProbeReplies { selected: false, ..replies() }), Some(AtaError::Timeout));
    assert_eq!(bad(ProbeReplies { first_status: 0, ..replies() }), Some(AtaError::NoDrive));
    assert_eq!(bad(ProbeReplies { command_done: false, ..replies() }), Some(AtaError::Timeout));
    assert_eq!(bad(ProbeReplies { second_status: 0x51, ..replies() }), Some(AtaError::NoDrive));
    assert_eq!(bad(ProbeReplies { data: Err(AtaError::CommandFailed), ..replies() }), Some(AtaError::CommandFailed));
    assert_eq!(AtaDrive::new_primary_master(replies(), &ident()).ok().unwrap().1.model, "QEMU HARDDISK");
}

#[test]
fn status_polls() {
    assert_eq!(wait_data_ready(0x58), Some(Ok(())));
    assert_eq!(wait_data_ready(0x50), None);
    assert_eq!(wait_data_ready(0xD8), None);
    assert_eq!(wait_data_ready(0x51), Some(Err(AtaError::CommandFailed)));
    assert_eq!(wait_data_ready(0x70), Some(Err(AtaError::CommandFailed)));
    assert!(wait_not_busy(0x50));
    assert!(!wait_not_busy(0x80));
}

#[test]
fn task_file_and_words() {
    let t = prepare_lba28(0x0A12_3456, 7);
    assert_eq!((t.drive, t.seccount, t.lba_lo, t.lba_mid, t.lba_hi), (0xEA, 7, 0x56, 0x34, 0x12));
    let b = words_to_bytes(&vec![0x1234, 0xABCD]);
    assert_eq!(b, vec![0x34, 0x12, 0xCD, 0xAB]);
    assert_eq!(bytes_to_words(&b), vec![0x1234, 0xABCD]);
}

#[test]
fn raw_reads_give_back_raw_writes() {
    let mut d = drive(10, 14);
    let data: Vec<u8> = (0..1024).map(|k| (k % 251) as u8).collect();
    assert_eq!(d.write_sectors_raw(11, 2, &data), Ok(()));
    let mut back = vec![0u8; 2048];
    assert_eq!(d.read_sectors_raw(10, 4, &mut back, 0), Ok(()));
    assert_eq!(&back[..512], &pattern(10)[..]);
    assert_eq!(&back[512..1536], &data[..]);
    assert_eq!(&back[1536..], &pattern(13)[..]);
    assert_eq!(d.take_written(), vec![11, 12]);
    assert!(d.take_written().is_empty());
    assert_eq!(d.sector(12).unwrap(), &data[512..]);
    assert_eq!(d.sector(99), None);
}

#[test]
fn raw_reads_refuse_what_is_not_there() {
    let mut d = drive(10, 12);
    let mut b = vec![0u8; 2048];
    assert_eq!(d.read_sectors_raw(11, 2, &mut b, 0), Err(AtaError::Pending(12)));
    assert_eq!(d.read_sectors_raw(LBA28_MAX, 2, &mut b, 0), Err(AtaError::OutOfRange));
    assert_eq!(d.write_sectors_raw(LBA28_MAX, 2, &b), Err(AtaError::OutOfRange));
}

#[test]
fn sector_map_holds_what_was_put() {
    let mut m = SectorMap::new();
    assert!(!m.has(3));
    m.put(3, pattern(3));
    m.put(3, pattern(4));
    assert!(m.has(3));
    assert_eq!(m.get(3).unwrap(), pattern(4));
    assert_eq!(m.get(4), None);
}

#[test]
fn cached_reads_hit_the_second_time() {
    let d = drive(100, 120);
    let mut c = Cache::new();
    let mut b = vec![0u8; 512 * 4];
    assert_eq!(blkcache::read(&d, &mut c, 100, 4, &mut b), Ok(()));
    assert_eq!(&b[512..1024], &pattern(101)[..]);
    assert_eq!(blkcache::stats(&c), (0, 4));
    assert_eq!(blkcache::read(&d, &mut c, 100, 4, &mut b), Ok(()));
    assert_eq!(blkcache::stats(&c), (4, 4));
    assert_eq!(blkcache::last_seq_end(&c), Some(104));
    blkcache::reset_stats(&mut c);
    assert_eq!(blkcache::stats(&c), (0, 0));
    blkcache::flush(&mut c);
    assert!(!blkcache::is_cached(&c, 100));
}

#[test]
fn sequential_reads_read_ahead() {
    let d = drive(100, 120);
    let mut c = Cache::new();
    let mut b = vec![0u8; 512 * 4];
    assert_eq!(d.read_sectors(&mut c, 100, 4, &mut b), Ok(()));
    assert!(!blkcache::is_cached(&c, 108));
    assert_eq!(d.read_sectors(&mut c, 104, 4, &mut b), Ok(()));
    assert!(blkcache::is_cached(&c, 108) && blkcache::is_cached(&c, 111));
    assert!(!blkcache::is_cached(&c, 112));
    assert_eq!(&b[..512], &pattern(104)[..]);
}

#[test]
fn cached_reads_ask_for_missing_sectors() {
    let d = drive(100, 102);
    let mut c = Cache::new();
    let mut b = vec![0u8; 512 * 4];
    assert_eq!(blkcache::read(&d, &mut c, 100, 4, &mut b), Err(AtaError::Pending(102)));
    assert_eq!(blkcache::read(&d, &mut c, LBA28_MAX, 2, &mut b), Err(AtaError::OutOfRange));
}

#[test]
fn only_what_was_read_and_the_four_after_are_cached() {
    let d = drive(8000, 9000);
    let mut c = Cache::new();
    let mut b = vec![0u8; 512 * 4];
    assert_eq!(blkcache::read(&d, &mut c, 8192, 4, &mut b), Ok(()));
    assert_eq!(blkcache::read(&d, &mut c, 8196, 4, &mut b), Ok(()));
    assert_eq!(blkcache::stats(&c), (0, 8));
    assert!(!blkcache::is_cached(&c, 8191) && !blkcache::is_cached(&c, 8204));
    assert!((8192..8204).all(|l| blkcache::is_cached(&c, l)));
    assert_eq!(blkcache::read(&d, &mut c, 8202, 4, &mut b), Ok(()));
    assert_eq!(blkcache::stats(&c), (2, 10));
    assert_eq!(blkcache::last_seq_end(&c), Some(8206));
    blkcache::flush(&mut c);
    assert_eq!(blkcache::last_seq_end(&c), None);
}

#[test]
fn a_stored_sector_is_found_and_none_leaves_while_there_is_room() {
    let mut c = Cache::new();
    for l in 0..2048u32 {
        c.insert(l, pattern(l));
    }
    assert!((0..2048).all(|l| blkcache::is_cached(&c, l)));
    c.insert(7, pattern(8));
    assert_eq!(c.find(7), Some(pattern(8)));
    c.insert(5000, pattern(5000));
    assert_eq!(c.find(5000), Some(pattern(5000)));
    assert_eq!((0..2048).filter(|l| !blkcache::is_cached(&c, *l)).count(), 1);
    assert_eq!(c.find(6000), None);
}

#[test]
fn writes_go_through_the_cache() {
    let mut d = drive(100, 104);
    let mut c = Cache::new();
    let mut b = vec![0u8; 512];
    assert_eq!(blkcache::read(&d, &mut c, 101, 1, &mut b), Ok(()));
    let new = vec![0x5Au8; 512];
    assert_eq!(d.write_sectors(&mut c, 101, 1, &new), Ok(()));
    assert_eq!(d.sector(101).unwrap(), new);
    assert_eq!(blkcache::read(&d, &mut c, 101, 1, &mut b), Ok(()));
    assert_eq!(b, new);
    blkcache::flush(&mut c);
    assert_eq!(blkcache::read(&d, &mut c, 101, 1, &mut b), Ok(()));
    assert_eq!(b, new);
}

#[test]
fn the_cache_stays_right_when_it_overflows() {
    let d = drive(0, 3000);
    let mut c = Cache::new();
    let mut b = vec![0u8; 512 * 100];
    for k in 0..30u32 {
        assert_eq!(blkcache::read(&d, &mut c, 100 * k, 100, &mut b), Ok(()));
        assert_eq!(&b[512 * 99..], &pattern(100 * k + 99)[..]);
    }
    assert_eq!(blkcache::read(&d, &mut c, 0, 100, &mut b), Ok(()));
    assert_eq!(&b[..512], &pattern(0)[..]);
}

#[test]
fn any_sector_number_can_be_cached() {
    let mut c = Cache::new();
    c.insert(u32::MAX, vec![9u8; 512]);
    c.insert(3, vec![4u8; 512]);
    assert_eq!(c.find(u32::MAX), Some(vec![9u8; 512]));
    assert_eq!(c.find(3), Some(vec![4u8; 512]));
    assert_eq!(c.find(4), None);
    blkcache::flush(&mut c);
    assert_eq!(c.find(u32::MAX), None);
}

#[test]
fn cache_self_test() {
    let mut d = drive(0, 200);
    let mut c = Cache::new();
    let r = blkcache::blk_test(&mut d, &mut c, 8, 64, 190, &vec![7u8; 512], 100);
    assert!(r.data_equal && r.write_through && r.read_ahead);
    assert_eq!((r.hits, r.misses), (64, 64));
    assert_eq!(d.sector(190).unwrap(), vec![7u8; 512]);
    // It leaves what its last two reads fetched, and their counts.
    for l in 0..200 {
        assert_eq!(blkcache::is_cached(&c, l), (100..112).contains(&l));
    }
    assert_eq!(blkcache::stats(&c), (0, 8));
    assert_eq!(blkcache::last_seq_end(&c), Some(108));
}

fn boot_sector() -> Vec<u8> {
    let mut m = vec![0u8; 512];
    put_entry(&mut m, 0, 0x20, 1, 2000);
    put_entry(&mut m, 1, KIND_FAT32, 2048, 65536);
    put_entry(&mut m, 2, KIND_LINUX, 70000, 8192);
    m[510] = 0x55;
    m[511] = 0xAA;
    m
}

#[test]
fn partitions_of_a_boot_sector() {
    let ps = scan_mbr(&boot_sector());
    assert_eq!(ps.len(), 3);
    assert_eq!(ps[0].kind, "type=0x20 (bootloader (stage-2/kernel))");
    assert_eq!((ps[1].start_lba, ps[1].sectors), (2048, 65536));
    assert_eq!(ps[1].kind, "type=0x0c (FAT32 (LBA))");
    assert_eq!(ps[2].kind, "type=0x83 (Linux)");
    assert_eq!(ps[2].name, None);
    let mut m = boot_sector();
    put_entry(&mut m, 1, 0xEE, 1, 1);
    assert_eq!(scan_mbr(&m).len(), 2);
}

#[test]
fn image_placement() {
    let p = place(1_000, 600);
    assert_eq!((p.offset, p.start_sector, p.sectors, p.new_len), (1024, 2, 2, 1624));
    let q = place(1024, 512);
    assert_eq!((q.offset, q.start_sector, q.sectors, q.new_len), (1024, 2, 1, 1536));
}

#[test]
fn crc_and_guids() {
    assert_eq!(crc32(b"123456789"), 0xCBF4_3926);
    assert_eq!(crc32(b""), 0);
    let esp = [0x28, 0x73, 0x2A, 0xC1, 0x1F, 0xF8, 0xD2, 0x11, 0xBA, 0x4B, 0x00, 0xA0, 0xC9, 0x3E, 0xC9, 0x3B];
    assert_eq!(fmt_guid(&esp), "C12A7328-F81F-11D2-BA4B-00A0C93EC93B");
    assert_eq!(guid_kind(&esp), "EFI System");
    assert_eq!(guid_kind(&[0xFF; 16]), "GUID FFFFFFFF-FFFF-FFFF-FFFF-FFFFFFFFFFFF");
    assert_eq!(unit(0x41), 'A');
    assert_eq!(unit(0xD801), '?');
}

#[test]
fn gpt_geometry() {
    assert_eq!(validate_gpt_geometry(128, 128), Ok(()));
    assert_eq!(validate_gpt_geometry(64, 128), Err("GPT entry size 64 below minimum 128".to_string()));
    assert_eq!(validate_gpt_geometry(8192, 128), Err("GPT entry size 8192 above maximum 4096".to_string()));
    assert_eq!(validate_gpt_geometry(128, 5000), Err("GPT entry count 5000 above maximum 4096".to_string()));
    assert_eq!(block::gpt_selftest(), (4, true));
    assert_eq!(
        gpt_selftest_line(4),
        "M5: gpt-selftest PASS (4 corrupt geometries rejected, kernel healthy)"
    );
    assert_eq!(gpt_selftest_line(3), "M5: gpt-selftest FAILED (3 rejected)");
}

/// An entry array with one partition, "EFI", and its header.
fn gpt() -> (Vec<u8>, Vec<u8>) {
    let mut t = vec![0u8; 512];
    t[128..144].copy_from_slice(&[
        0x28, 0x73, 0x2A, 0xC1, 0x1F, 0xF8, 0xD2, 0x11, 0xBA, 0x4B, 0x00, 0xA0, 0xC9, 0x3E, 0xC9, 0x3B,
    ]);
    t[128 + 32..128 + 40].copy_from_slice(&34u64.to_le_bytes());
    t[128 + 40..128 + 48].copy_from_slice(&2081u64.to_le_bytes());
    for (k, u) in "EFI".bytes().enumerate() {
        t[128 + 56 + 2 * k] = u;
    }
    let mut h = vec![0u8; 512];
    h[..8].copy_from_slice(b"EFI PART");
    h[12..16].copy_from_slice(&92u32.to_le_bytes());
    h[56..72].copy_from_slice(&[0x11; 16]);
    h[72..80].copy_from_slice(&2u64.to_le_bytes());
    h[80..84].copy_from_slice(&4u32.to_le_bytes());
    h[84..88].copy_from_slice(&128u32.to_le_bytes());
    let sum = crc32(&h[..92]);
    h[16..20].copy_from_slice(&sum.to_le_bytes());
    (h, t)
}

#[test]
fn gpt_partitions() {
    let (h, t) = gpt();
    assert!(has_signature(&h) && header_crc_ok(&h));
    let mut bad = h.clone();
    bad[60] ^= 1;
    assert!(!header_crc_ok(&bad));
    let ps = parse_entries(&t, 128, 4);
    assert_eq!(ps.len(), 1);
    assert_eq!((ps[0].start_lba, ps[0].sectors), (34, 2048));
    assert_eq!(ps[0].name, Some("EFI".to_string()));
    assert_eq!(ps[0].kind, "EFI System");
}

#[test]
fn gpt_scan_of_a_drive() {
    let (h, t) = gpt();
    let mut d = AtaDrive::empty();
    let lba0 = boot_sector();
    let mut c = Cache::new();
    let none = Vec::new();
    assert_eq!(scan_gpt(&d, &mut c, &lba0, &none).err(), Some(1));
    d.stage(1, h);
    assert_eq!(scan_gpt(&d, &mut c, &lba0, &none).err(), Some(2));
    d.stage(2, t);
    let s = scan_gpt(&d, &mut c, &lba0, &none).ok().unwrap();
    assert_eq!(s.layout, Layout::Gpt);
    assert_eq!(s.disk_guid, "11111111-1111-1111-1111-111111111111");
    assert_eq!(s.partitions.len(), 4);
    assert_eq!(s.partitions[0].kind, "EFI System");
    assert!(matches!(s.note, GptNote::Table { crc_ok: true, hybrid: 3 }));
}

#[test]
fn gpt_scan_of_a_drive_with_unreadable_sectors() {
    let (h, t) = gpt();
    let lba0 = boot_sector();
    let mut c = Cache::new();
    let mut d = AtaDrive::empty();
    let s = scan_gpt(&d, &mut c, &lba0, &vec![1]).ok().unwrap();
    assert_eq!(s.layout, Layout::Mbr);
    assert!(s.partitions.is_empty() && matches!(s.note, GptNote::NoHeader));
    d.stage(1, h.clone());
    let s = scan_gpt(&d, &mut c, &lba0, &vec![2]).ok().unwrap();
    assert_eq!(s.layout, Layout::Gpt);
    assert!(s.partitions.is_empty() && matches!(s.note, GptNote::NoArray { crc_ok: true }));
    assert_eq!(scan_gpt(&d, &mut c, &lba0, &vec![3]).err(), Some(2));
    d.stage(2, t);
    let mut small = h;
    small[84] = 64;
    let mut d2 = AtaDrive::empty();
    d2.stage(1, small);
    match scan_gpt(&d2, &mut Cache::new(), &lba0, &Vec::new()).ok().unwrap().note {
        GptNote::Corrupt(why) => assert_eq!(why, "GPT entry size 64 below minimum 128"),
        _ => panic!("the geometry is impossible"),
    }
}

#[test]
fn block_layer_bring_up() {
    let probe = || AtaDrive::new_primary_master(replies(), &ident()).ok().unwrap();
    let mut c = Cache::new();
    let mbr = boot_sector();
    let other = pattern(5);
    let none = Vec::new();
    let (d, info) = probe();
    assert!(matches!(block::init(d, info, &mut c, &mbr, &other, &none), BlockInit::Unstable));
    let (d, info) = probe();
    let blank = vec![0u8; 512];
    assert!(matches!(block::init(d, info, &mut c, &blank, &blank, &none), BlockInit::NoPartitionTable));
    let (d, info) = probe();
    match block::init(d, info, &mut c, &mbr, &mbr, &none) {
        BlockInit::Ready(disk, note) => {
            assert!(note.is_none());
            assert_eq!(disk.layout, Layout::Mbr);
            assert_eq!(disk.partitions.len(), 3);
            assert_eq!(disk.disk_guid, "");
        },
        _ => panic!("the disk is ready"),
    }
    let mut protective = boot_sector();
    put_entry(&mut protective, 0, 0xEE, 1, 1);
    let (d, info) = probe();
    match block::init(d, info, &mut c, &protective, &protective, &none) {
        BlockInit::Fetch(d, info, l) => {
            assert_eq!(l, 1);
            match block::init(d, info, &mut c, &protective, &protective, &vec![1]) {
                BlockInit::Ready(disk, Some(GptNote::NoHeader)) => assert!(disk.partitions.is_empty()),
                _ => panic!("a disk without a header has no partitions"),
            }
        },
        _ => panic!("the header is to be fetched"),
    }
}

#[test]
fn the_write_path_is_checked_on_the_last_sector() {
    assert_eq!(rewrite_sector(1000), Some(999));
    assert_eq!(rewrite_sector(u64::MAX), Some(LBA28_MAX));
    assert_eq!(rewrite_sector(0), None);
    let s = Some(pattern(999));
    assert!(write_verify(&s, true, &s));
    assert!(!write_verify(&s, false, &s));
    assert!(!write_verify(&None, true, &s));
    assert!(!write_verify(&s, true, &None));
    assert!(!write_verify(&s, true, &Some(pattern(998))));
}
