//! FAT32 and ext2 on a small drive in memory.
use onyxos::ata::{AtaDrive, AtaError};
use onyxos::block::Partition;
use onyxos::ext2::{self, Check, Ext2, InitFault};
use onyxos::fat::{make_short_name, Fat32};
use onyxos::vfs::{chars_of, dots, fetch, names_match, piece, split_path, store, text_of, FileStat, FsError};

fn put16(b: &mut [u8], at: usize, v: u16) {
    b[at..at + 2].copy_from_slice(&v.to_le_bytes());
}

fn put32(b: &mut [u8], at: usize, v: u32) {
    b[at..at + 4].copy_from_slice(&v.to_le_bytes());
}

fn bytes(n: usize, seed: usize) -> Vec<u8> {
    (0..n).map(|k| (k * 7 + k / 251 + seed) as u8).collect()
}

// FAT32: partition at 64, 32 reserved sectors, two FATs of four sectors,
// clusters of two sectors, 400 of them.
const FAT_AT: u32 = 64;

fn fat_drive() -> (AtaDrive, Fat32) {
    let mut d = AtaDrive::empty();
    for l in 0..32 + 8 + 800 {
        d.stage(FAT_AT + l, vec![0u8; 512]);
    }
    let mut s = vec![0u8; 512];
    put16(&mut s, 11, 512);
    s[13] = 2;
    put16(&mut s, 14, 32);
    s[16] = 2;
    put32(&mut s, 32, 840);
    put32(&mut s, 36, 4);
    put32(&mut s, 44, 2);
    d.stage(FAT_AT, s);
    let mut f = vec![0u8; 512];
    put32(&mut f, 0, 0x0FFF_FFF8);
    put32(&mut f, 4, 0x0FFF_FFFF);
    put32(&mut f, 8, 0x0FFF_FFFF);
    d.stage(FAT_AT + 32, f.clone());
    d.stage(FAT_AT + 36, f);
    let fs = Fat32::mount(&d, FAT_AT).unwrap();
    (d, fs)
}

/// FAT copy `k`.
fn table(d: &AtaDrive, k: u32) -> Vec<u8> {
    let mut out = Vec::new();
    for l in 0..4 {
        out.extend(d.sector(FAT_AT + 32 + 4 * k + l).unwrap());
    }
    out
}

fn used_clusters(d: &AtaDrive) -> usize {
    table(d, 0).chunks(4).filter(|e| *e != [0, 0, 0, 0]).count()
}

#[test]
fn fat_mounts_and_refuses() {
    let (mut d, fs) = fat_drive();
    assert_eq!(fs.total_clusters, 400);
    assert_eq!(fs.summary(), "cluster=1KiB FATs=2x4sectors root_cluster=2");
    assert_eq!(Fat32::mount(&d, 5000), Err(FsError::Io(AtaError::Pending(5000))));
    d.stage(FAT_AT, vec![0u8; 512]);
    assert_eq!(Fat32::mount(&d, FAT_AT), Err(FsError::BadFs));
}

#[test]
fn fat_reads_give_back_writes() {
    let (mut d, fs) = fat_drive();
    let data = bytes(5000, 3);
    assert_eq!(fs.write_at(&mut d, "/DATA.BIN", 0, &data), Ok(5000));
    assert_eq!(fs.stat(&d, "/DATA.BIN"), Ok(FileStat { size: 5000, is_dir: false }));
    let mut back = vec![0u8; 6000];
    assert_eq!(fs.read_at(&d, "/DATA.BIN", 0, &mut back), Ok(5000));
    assert_eq!(&back[..5000], &data[..]);
    assert_eq!(fs.read_at(&d, "/data.bin", 4990, &mut back), Ok(10));
    assert_eq!(&back[..10], &data[4990..]);
    assert_eq!(fs.read_at(&d, "/DATA.BIN", 5000, &mut back), Ok(0));
    // Across a cluster boundary, at the end, growing the file.
    let more = bytes(300, 9);
    assert_eq!(fs.write_at(&mut d, "/DATA.BIN", 4900, &more), Ok(300));
    assert_eq!(fs.stat(&d, "/DATA.BIN").unwrap().size, 5200);
    assert_eq!(fs.read_at(&d, "/DATA.BIN", 4890, &mut back), Ok(310));
    assert_eq!(&back[..10], &data[4890..4900]);
    assert_eq!(&back[10..310], &more[..]);
    assert_eq!(table(&d, 0), table(&d, 1));
    assert_eq!(used_clusters(&d), 3 + 6);
}

#[test]
fn fat_lists_directories() {
    let (mut d, fs) = fat_drive();
    assert_eq!(fs.mkdir(&mut d, "/SUB"), Ok(()));
    assert_eq!(fs.stat(&d, "/SUB"), Ok(FileStat { size: 0, is_dir: true }));
    assert_eq!(fs.list(&d, "/SUB").unwrap().len(), 0);
    assert_eq!(fs.mkdir(&mut d, "/SUB"), Err(FsError::Exists));
    assert_eq!(fs.write_at(&mut d, "/SUB/A.TXT", 0, b"abc"), Ok(3));
    assert_eq!(fs.write_at(&mut d, "/TOP", 0, b"x"), Ok(1));
    let root = fs.list(&d, "/").unwrap();
    let names: Vec<(&str, u64, bool)> = root.iter().map(|e| (e.name.as_str(), e.size, e.is_dir)).collect();
    assert_eq!(names, vec![("SUB", 0, true), ("TOP", 1, false)]);
    let sub = fs.list(&d, "/SUB").unwrap();
    assert_eq!(sub.len(), 1);
    assert_eq!((sub[0].name.as_str(), sub[0].size), ("A.TXT", 3));
    assert_eq!(fs.open(&d, "/SUB/A.TXT"), Ok(()));
    assert_eq!(fs.open(&d, "/SUB/B.TXT"), Err(FsError::NotFound));
    assert_eq!(fs.list(&d, "/TOP").err(), Some(FsError::NotSupported));
    assert_eq!(fs.read_at(&d, "/SUB", 0, &mut [0u8; 8]), Err(FsError::NotSupported));
    assert_eq!(fs.stat(&d, "/"), Ok(FileStat { size: 0, is_dir: true }));
}

#[test]
fn fat_many_files_grow_the_directory() {
    let (mut d, fs) = fat_drive();
    for k in 0..70 {
        let name = format!("/F{}.DAT", k);
        assert_eq!(fs.write_at(&mut d, &name, 0, &bytes(20, k)), Ok(20));
    }
    assert_eq!(fs.list(&d, "/").unwrap().len(), 70);
    let mut b = [0u8; 20];
    assert_eq!(fs.read_at(&d, "/F69.DAT", 0, &mut b), Ok(20));
    assert_eq!(b.to_vec(), bytes(20, 69));
}

#[test]
fn fat_unlink_frees_and_rename_keeps() {
    let (mut d, fs) = fat_drive();
    assert_eq!(fs.write_at(&mut d, "/OLD.TXT", 0, &bytes(3000, 1)), Ok(3000));
    assert_eq!(used_clusters(&d), 3 + 3);
    assert_eq!(fs.rename(&mut d, "/OLD.TXT", "/NEW.TXT"), Ok(()));
    assert_eq!(fs.open(&d, "/OLD.TXT"), Err(FsError::NotFound));
    let mut b = vec![0u8; 3000];
    assert_eq!(fs.read_at(&d, "/NEW.TXT", 0, &mut b), Ok(3000));
    assert_eq!(b, bytes(3000, 1));
    assert_eq!(fs.stat(&d, "/NEW.TXT"), Ok(FileStat { size: 3000, is_dir: false }));
    assert_eq!(fs.list(&d, "/").unwrap().len(), 1);
    assert_eq!(fs.mkdir(&mut d, "/DIR"), Ok(()));
    assert_eq!(fs.rename(&mut d, "/NEW.TXT", "/DIR/NEW.TXT"), Err(FsError::NotSupported));
    assert_eq!(fs.rename(&mut d, "/NEW.TXT", "/DIR"), Err(FsError::Exists));
    assert_eq!(fs.rename(&mut d, "/NONE", "/X"), Err(FsError::NotFound));
    assert_eq!(fs.unlink(&mut d, "/DIR"), Err(FsError::IsDir));
    assert_eq!(fs.unlink(&mut d, "/"), Err(FsError::NotSupported));
    assert_eq!(fs.unlink(&mut d, "/NEW.TXT"), Ok(()));
    assert_eq!(fs.unlink(&mut d, "/NEW.TXT"), Err(FsError::NotFound));
    assert_eq!(used_clusters(&d), 3 + 1);
}

#[test]
fn fat_writes_spare_other_files() {
    let (mut d, fs) = fat_drive();
    assert_eq!(fs.write_at(&mut d, "/ONE.BIN", 0, &bytes(2500, 1)), Ok(2500));
    assert_eq!(fs.write_at(&mut d, "/TWO.BIN", 0, &bytes(1500, 2)), Ok(1500));
    assert_eq!(fs.write_at(&mut d, "/ONE.BIN", 100, &bytes(4000, 3)), Ok(4000));
    assert_eq!(fs.stat(&d, "/TWO.BIN"), Ok(FileStat { size: 1500, is_dir: false }));
    let mut b = vec![0u8; 1500];
    assert_eq!(fs.read_at(&d, "/TWO.BIN", 0, &mut b), Ok(1500));
    assert_eq!(b, bytes(1500, 2));
}

#[test]
fn fat_names_spare_other_files() {
    let (mut d, fs) = fat_drive();
    assert_eq!(fs.mkdir(&mut d, "/DIR"), Ok(()));
    assert_eq!(fs.write_at(&mut d, "/A.TXT", 0, b"first"), Ok(5));
    assert_eq!(fs.write_at(&mut d, "/KEEP.BIN", 0, &bytes(1500, 2)), Ok(1500));
    assert_eq!(fs.write_at(&mut d, "/DIR/KEEP.BIN", 0, &bytes(700, 3)), Ok(700));
    let kept = |d: &AtaDrive| {
        for (path, n, seed) in [("/KEEP.BIN", 1500, 2), ("/DIR/KEEP.BIN", 700, 3)] {
            assert_eq!(fs.stat(d, path), Ok(FileStat { size: n as u64, is_dir: false }));
            let mut b = vec![0u8; n];
            assert_eq!(fs.read_at(d, path, 0, &mut b), Ok(n));
            assert_eq!(b, bytes(n, seed));
        }
        assert_eq!(fs.stat(d, "/NONE"), Err(FsError::NotFound));
    };
    assert_eq!(fs.rename(&mut d, "/A.TXT", "/B.TXT"), Ok(()));
    kept(&d);
    assert_eq!(fs.unlink(&mut d, "/B.TXT"), Ok(()));
    kept(&d);
    // A new file and a new directory, the first in the slot that got free.
    assert_eq!(fs.write_at(&mut d, "/C.TXT", 0, &bytes(3000, 4)), Ok(3000));
    kept(&d);
    assert_eq!(fs.mkdir(&mut d, "/DIR/SUB"), Ok(()));
    kept(&d);
}

#[test]
fn fat_runs_out_of_space() {
    let (mut d, fs) = fat_drive();
    assert_eq!(fs.write_at(&mut d, "/BIG.BIN", 0, &bytes(1024 * 401, 0)), Err(FsError::NoSpace));
}

#[test]
fn fat_long_names_are_read() {
    let (mut d, fs) = fat_drive();
    assert_eq!(fs.write_at(&mut d, "/LONGNA~1.TXT", 0, b"hello"), Ok(5));
    // Put the long name "Long name.text" before the short one.
    let root = FAT_AT + 40;
    let mut s = d.sector(root).unwrap();
    let short = s[..32].to_vec();
    let units: Vec<u16> = "Long name.text".encode_utf16().chain(std::iter::once(0)).collect();
    let places = [1, 3, 5, 7, 9, 14, 16, 18, 20, 22, 24, 28, 30];
    for (slot, ord) in [(0usize, 2u8), (1, 1)] {
        let e = &mut s[32 * slot..32 * slot + 32];
        e.fill(0);
        e[0] = ord | if ord == 2 { 0x40 } else { 0 };
        e[11] = 0x0F;
        for (k, at) in places.iter().enumerate() {
            let u = units.get(13 * (ord as usize - 1) + k).copied().unwrap_or(0xFFFF);
            e[*at..*at + 2].copy_from_slice(&u.to_le_bytes());
        }
    }
    s[64..96].copy_from_slice(&short);
    d.stage(root, s);
    let ls = fs.list(&d, "/").unwrap();
    assert_eq!(ls[0].name, "Long name.text");
    let mut b = [0u8; 5];
    assert_eq!(fs.read_at(&d, "/Long name.text", 0, &mut b), Ok(5));
    assert_eq!(&b, b"hello");
    assert_eq!(fs.open(&d, "/LONGNA~1.TXT"), Ok(()));
}

#[test]
fn fat_short_names() {
    let short = |s: &str| make_short_name(&chars_of(s));
    assert_eq!(short("a.txt").unwrap(), b"A       TXT");
    assert_eq!(short("KERNEL").unwrap(), b"KERNEL     ");
    assert_eq!(short("toolongname.txt"), Err(FsError::NotSupported));
    assert_eq!(short("a.html"), Err(FsError::NotSupported));
    let (mut d, fs) = fat_drive();
    assert_eq!(fs.write_at(&mut d, "/toolongname.txt", 0, b"x"), Err(FsError::NotSupported));
}

#[test]
fn fat_waits_for_sectors() {
    let (d, fs) = fat_drive();
    let mut half = AtaDrive::empty();
    half.stage(FAT_AT, d.sector(FAT_AT).unwrap());
    assert!(matches!(fs.open(&half, "/X"), Err(FsError::Io(AtaError::Pending(_)))));
}

// ext2: partition at 2000, 512 blocks, 64 inodes.
const EXT_AT: u32 = 2000;

fn put_block(d: &mut AtaDrive, b: u32, data: &[u8]) {
    d.stage(EXT_AT + 2 * b, data[..512].to_vec());
    d.stage(EXT_AT + 2 * b + 1, data[512..].to_vec());
}

fn get_block(d: &AtaDrive, b: u32) -> Vec<u8> {
    let mut v = d.sector(EXT_AT + 2 * b).unwrap();
    v.extend(d.sector(EXT_AT + 2 * b + 1).unwrap());
    v
}

fn ext_drive() -> (AtaDrive, Ext2) {
    let mut d = AtaDrive::empty();
    for b in 0..512 {
        put_block(&mut d, b, &[0u8; 1024]);
    }
    let mut sb = vec![0u8; 1024];
    put32(&mut sb, 0, 64);
    put32(&mut sb, 4, 512);
    put32(&mut sb, 12, 512 - 14);
    put32(&mut sb, 16, 64 - 10);
    put32(&mut sb, 20, 1);
    put32(&mut sb, 32, 8192);
    put32(&mut sb, 40, 64);
    put16(&mut sb, 56, 0xEF53);
    put_block(&mut d, 1, &sb);
    let mut gd = vec![0u8; 1024];
    put32(&mut gd, 0, 3);
    put32(&mut gd, 4, 4);
    put32(&mut gd, 8, 5);
    put_block(&mut d, 2, &gd);
    // Blocks 1 to 13 are taken, and what lies beyond the volume.
    let mut bits = vec![0u8; 1024];
    for k in (0..13).chain(511..8192) {
        bits[k / 8] |= 1 << (k % 8);
    }
    put_block(&mut d, 3, &bits);
    let mut ibits = vec![0u8; 1024];
    for k in (0..10).chain(64..8192) {
        ibits[k / 8] |= 1 << (k % 8);
    }
    put_block(&mut d, 4, &ibits);
    let mut it = vec![0u8; 1024];
    put16(&mut it, 128, 0x41ED);
    put32(&mut it, 128 + 4, 1024);
    put32(&mut it, 128 + 28, 2);
    put32(&mut it, 128 + 40, 13);
    put_block(&mut d, 5, &it);
    let mut root = vec![0u8; 1024];
    put32(&mut root, 0, 2);
    put16(&mut root, 4, 12);
    root[6] = 1;
    root[8] = b'.';
    put32(&mut root, 12, 2);
    put16(&mut root, 16, 1012);
    root[18] = 2;
    root[20] = b'.';
    root[21] = b'.';
    put_block(&mut d, 13, &root);
    let fs = Ext2::mount(&d, EXT_AT).unwrap();
    (d, fs)
}

fn marked(d: &AtaDrive, bitmap: u32) -> u32 {
    get_block(d, bitmap).iter().map(|b| b.count_ones()).sum()
}

#[test]
fn ext2_mounts_and_refuses() {
    let (mut d, fs) = ext_drive();
    assert_eq!(fs.summary(), "blocks=512 (free 498) inodes=64 (free 54)");
    let mut sb = get_block(&d, 1);
    put32(&mut sb, 24, 1);
    put_block(&mut d, 1, &sb);
    assert_eq!(Ext2::mount(&d, EXT_AT), Err(FsError::NotSupported));
    put16(&mut sb, 56, 0);
    put_block(&mut d, 1, &sb);
    assert_eq!(Ext2::mount(&d, EXT_AT), Err(FsError::BadFs));
    assert!(matches!(Ext2::mount(&d, 100), Err(FsError::Io(AtaError::Pending(_)))));
}

#[test]
fn ext2_reads_give_back_writes() {
    let (mut d, mut fs) = ext_drive();
    // Direct, indirect and double indirect blocks, in two writes.
    let data = bytes(300 * 1024, 5);
    assert_eq!(fs.write_at(&mut d, "/big.bin", 0, &data[..20_000]), Ok(20_000));
    assert_eq!(fs.write_at(&mut d, "/big.bin", 20_000, &data[20_000..]), Ok(data.len() - 20_000));
    assert_eq!(fs.stat(&d, "/big.bin"), Ok(FileStat { size: data.len() as u64, is_dir: false }));
    let mut back = vec![0u8; data.len()];
    assert_eq!(fs.read_at_path(&d, "/big.bin", 0, &mut back), Ok(data.len()));
    assert_eq!(back, data);
    // An overwrite in the middle changes nothing else.
    assert_eq!(fs.write_at(&mut d, "/big.bin", 100_000, b"MIDDLE"), Ok(6));
    assert_eq!(fs.read_at_path(&d, "/big.bin", 99_998, &mut back[..10]), Ok(10));
    assert_eq!(&back[..2], &data[99_998..100_000]);
    assert_eq!(&back[2..8], b"MIDDLE");
    assert_eq!(fs.stat(&d, "/big.bin").unwrap().size, data.len() as u64);
    // A hole reads as zeros.
    assert_eq!(fs.write_at(&mut d, "/hole", 5000, b"end"), Ok(3));
    let mut h = vec![9u8; 5003];
    assert_eq!(fs.read_at_path(&d, "/hole", 0, &mut h), Ok(5003));
    assert!(h[..5000].iter().all(|b| *b == 0));
    assert_eq!(&h[5000..], b"end");
}

#[test]
fn ext2_writes_spare_other_files() {
    let (mut d, mut fs) = ext_drive();
    assert_eq!(fs.write_at(&mut d, "/one", 0, &bytes(2500, 1)), Ok(2500));
    assert_eq!(fs.write_at(&mut d, "/two", 0, &bytes(1500, 2)), Ok(1500));
    assert_eq!(fs.write_at(&mut d, "/one", 100, &bytes(20_000, 3)), Ok(20_000));
    assert_eq!(fs.stat(&d, "/two"), Ok(FileStat { size: 1500, is_dir: false }));
    let mut b = vec![0u8; 1500];
    assert_eq!(fs.read_at_path(&d, "/two", 0, &mut b), Ok(1500));
    assert_eq!(b, bytes(1500, 2));
}

fn ext2_keeps(fs: &Ext2, d: &AtaDrive) {
    for (path, n, seed) in [("/keep", 1500, 2), ("/dir/keep", 700, 3)] {
        assert_eq!(fs.stat(d, path), Ok(FileStat { size: n as u64, is_dir: false }));
        let mut b = vec![0u8; n];
        assert_eq!(fs.read_at_path(d, path, 0, &mut b), Ok(n));
        assert_eq!(b, bytes(n, seed));
    }
    assert_eq!(fs.stat(d, "/none"), Err(FsError::NotFound));
}

#[test]
fn ext2_names_spare_other_files() {
    let (mut d, mut fs) = ext_drive();
    assert_eq!(fs.mkdir(&mut d, "/dir"), Ok(()));
    assert_eq!(fs.write_at(&mut d, "/a", 0, b"first"), Ok(5));
    assert_eq!(fs.write_at(&mut d, "/keep", 0, &bytes(1500, 2)), Ok(1500));
    assert_eq!(fs.write_at(&mut d, "/dir/keep", 0, &bytes(700, 3)), Ok(700));
    assert_eq!(fs.rename(&mut d, "/a", "/b"), Ok(()));
    ext2_keeps(&fs, &d);
    assert_eq!(fs.unlink(&mut d, "/b"), Ok(()));
    ext2_keeps(&fs, &d);
    assert_eq!(fs.write_at(&mut d, "/c", 0, &bytes(3000, 4)), Ok(3000));
    ext2_keeps(&fs, &d);
    assert_eq!(fs.mkdir(&mut d, "/dir/sub"), Ok(()));
    ext2_keeps(&fs, &d);
}

#[test]
fn ext2_counts_stay_right() {
    let (mut d, mut fs) = ext_drive();
    let before = marked(&d, 3);
    assert_eq!(fs.write_at(&mut d, "/f", 0, &bytes(13 * 1024, 1)), Ok(13 * 1024));
    // Thirteen data blocks and the indirect table.
    assert_eq!(marked(&d, 3), before + 14);
    assert_eq!((fs.free_blocks, fs.free_inodes), (498 - 14, 53));
    let sb = get_block(&d, 1);
    assert_eq!(u32::from_le_bytes([sb[12], sb[13], sb[14], sb[15]]), 498 - 14);
    let gd = get_block(&d, 2);
    assert_eq!(u16::from_le_bytes([gd[12], gd[13]]), 498 - 14);
    assert_eq!(u16::from_le_bytes([gd[14], gd[15]]), 53);
    // A mount finds the volume as it is in memory.
    assert_eq!(Ext2::mount(&d, EXT_AT), Ok(fs));
    assert_eq!(fs.unlink(&mut d, "/f"), Ok(()));
    assert_eq!(marked(&d, 3), before);
    assert_eq!((fs.free_blocks, fs.free_inodes), (498, 54));
    assert_eq!(fs.open_path(&d, "/f"), Err(FsError::NotFound));
    assert_eq!(Ext2::mount(&d, EXT_AT), Ok(fs));
}

#[test]
fn ext2_sync_writes_the_counts_alone() {
    let (mut d, mut fs) = ext_drive();
    let blocks = fs.blocks_count;
    let before: Vec<Vec<u8>> = (0..blocks).map(|b| get_block(&d, b)).collect();
    fs.free_blocks = 0x1_2345;
    fs.free_inodes = 77;
    // Where the bitmaps and the table lie is of no account.
    fs.block_bitmap = 1;
    fs.inode_table = 2;
    assert_eq!(fs.sync_free_counts(&mut d), Ok(()));
    for b in 0..blocks {
        let mut want = before[b as usize].clone();
        if b == 1 {
            put32(&mut want, 12, 0x1_2345);
            put32(&mut want, 16, 77);
        }
        if b == 2 {
            put16(&mut want, 12, 0x2345);
            put16(&mut want, 14, 77);
        }
        assert_eq!(get_block(&d, b), want);
    }
}

#[test]
fn ext2_directories() {
    let (mut d, mut fs) = ext_drive();
    assert_eq!(fs.mkdir(&mut d, "/SUB"), Ok(()));
    assert_eq!(fs.stat(&d, "/SUB").unwrap(), FileStat { size: 1024, is_dir: true });
    assert_eq!(fs.list_path(&d, "/SUB").unwrap().len(), 0);
    assert_eq!(fs.mkdir(&mut d, "/SUB"), Err(FsError::Exists));
    assert_eq!(fs.mkdir(&mut d, "/SUB/DEEP"), Ok(()));
    assert_eq!(fs.write_at(&mut d, "/SUB/DEEP/D.TXT", 0, b"two levels down\n"), Ok(16));
    for k in 0..40 {
        let name = format!("/SUB/file-with-a-longer-name-{}", k);
        assert_eq!(fs.write_at(&mut d, &name, 0, &[]), Ok(0));
    }
    let ls = fs.list_path(&d, "/SUB").unwrap();
    assert_eq!(ls.len(), 41);
    assert!(ls[0].is_dir && ls[0].name == "DEEP");
    assert_eq!(fs.stat(&d, "/SUB").unwrap(), FileStat { size: 2048, is_dir: true });
    assert_eq!(fs.stat(&d, "/SUB/DEEP/D.TXT").unwrap().size, 16);
    assert_eq!(fs.write_at(&mut d, "/SUB", 0, b"x"), Err(FsError::NotSupported));
    assert_eq!(fs.unlink(&mut d, "/SUB"), Err(FsError::IsDir));
    assert_eq!(fs.read_at_path(&d, "/SUB/DEEP/D.TXT/x", 0, &mut [0u8; 4]), Err(FsError::BadFs));
    assert_eq!(fs.list_path(&d, "/SUB/DEEP/D.TXT").err(), Some(FsError::NotSupported));
}

#[test]
fn ext2_renames_in_place() {
    let (mut d, mut fs) = ext_drive();
    assert_eq!(fs.write_at(&mut d, "/old", 0, b"same"), Ok(4));
    assert_eq!(fs.mkdir(&mut d, "/dir"), Ok(()));
    assert_eq!(fs.rename(&mut d, "/old", "/dir/old"), Err(FsError::NotSupported));
    assert_eq!(fs.rename(&mut d, "/old", "/dir"), Err(FsError::Exists));
    assert_eq!(fs.rename(&mut d, "/none", "/x"), Err(FsError::NotFound));
    assert_eq!(fs.rename(&mut d, "/old", "/new"), Ok(()));
    assert_eq!(fs.open_path(&d, "/old"), Err(FsError::NotFound));
    let mut b = [0u8; 4];
    assert_eq!(fs.read_at_path(&d, "/new", 0, &mut b), Ok(4));
    assert_eq!(&b, b"same");
    assert_eq!(fs.stat(&d, "/new").unwrap(), FileStat { size: 4, is_dir: false });
    assert_eq!(fs.write_at(&mut d, "/dir/in", 0, b"x"), Ok(1));
    assert_eq!(fs.rename(&mut d, "/dir", "/box"), Ok(()));
    let ls = fs.list_path(&d, "/box").unwrap();
    assert_eq!((ls.len(), ls[0].name.as_str()), (1, "in"));
    assert_eq!(fs.stat(&d, "/dir").err(), Some(FsError::NotFound));
}

#[test]
fn ext2_refuses_what_does_not_fit() {
    let (mut d, mut fs) = ext_drive();
    assert_eq!(fs.write_at(&mut d, "/x", 67_383_296, b"x"), Err(FsError::NotSupported));
    assert_eq!(fs.write_at(&mut d, "/y", 0, &bytes(1024 * 520, 0)), Err(FsError::NoSpace));
    let long = format!("/{}", "n".repeat(256));
    assert_eq!(fs.mkdir(&mut d, &long), Err(FsError::NotSupported));
}

#[test]
fn ext2_names_that_are_not_utf8_are_shown_with_marks() {
    let (mut d, mut fs) = ext_drive();
    assert_eq!(fs.write_at(&mut d, "/ab", 0, b"1"), Ok(1));
    let mut root = get_block(&d, 13);
    let at = root.windows(2).position(|w| w == b"ab").unwrap();
    root[at] = 0xFF;
    put_block(&mut d, 13, &root);
    assert_eq!(fs.list_path(&d, "/").unwrap()[0].name, "\u{FFFD}b");
}

#[test]
fn ext2_self_test() {
    let (mut d, mut fs) = ext_drive();
    assert_eq!(fs.write_at(&mut d, "/HELLO.TXT", 0, b"hello from ext2!\n"), Ok(17));
    assert_eq!(fs.write_at(&mut d, "/README.TXT", 0, b"OnyxOS M7 ext2 test volume\n"), Ok(27));
    let r = ext2::self_test(&mut fs, &mut d).unwrap();
    assert_eq!(r.root, Ok(2));
    assert_eq!(r.hello, Some(Check::Match(17)));
    assert_eq!(r.readme, Some(Check::Match(27)));
    assert_eq!(r.big, Some(Ok(13312)));
    assert_eq!((r.readback, r.overwrite), (Some(true), Some(true)));
    assert_eq!(r.mkdir, Some(Ok(())));
    assert_eq!(r.note, Some(Ok(32)));
    assert_eq!(r.note_back, Some(Check::Match(32)));
    assert_eq!(r.nested, Some(true));
    let mut half = AtaDrive::empty();
    assert!(ext2::self_test(&mut fs, &mut half).is_err());
}

#[test]
fn ext2_finds_its_partition() {
    let (d, fs) = ext_drive();
    let part = |kind: &str, start: u64, sectors: u64| Partition { start_lba: start, sectors, kind: kind.to_string(), name: None };
    let parts = vec![part("type=0x0c (FAT32 (LBA))", 64, 9000), part("type=0x83 (Linux)", 9, 100), part("type=0x83 (Linux)", 2000, 4096)];
    assert_eq!(ext2::init(&d, &parts), Ok((2000, fs)));
    assert_eq!(ext2::init(&d, &Vec::new()), Err(InitFault::NoPartition));
    let odd = vec![part("Linux filesystem", 2001, 4096)];
    assert_eq!(ext2::init(&d, &odd), Err(InitFault::Mount(FsError::BadFs)));
}

#[test]
fn paths_and_names() {
    let words = |p: &str| split_path(p).map(|v| v.iter().map(text_of).collect::<Vec<String>>());
    assert_eq!(words("/a//b.txt/"), Some(vec!["a".to_string(), "b.txt".to_string()]));
    assert_eq!(words("/"), Some(Vec::new()));
    assert_eq!(words("a/b"), None);
    assert_eq!(words("/a/../b"), None);
    assert!(dots(&chars_of("..")) && !dots(&chars_of("...")));
    assert!(names_match(&chars_of("HeLLo.txt"), &chars_of("hEllO.TXT")));
    assert!(!names_match(&chars_of("a"), &chars_of("ab")));
    assert_eq!(text_of(&piece(&chars_of("onyx"), 1, 3)), "ny");
}

#[test]
fn sectors_are_fetched_and_stored() {
    let mut d = AtaDrive::empty();
    assert_eq!(store(&mut d, 7, 2, &vec![3u8; 1024]), Ok(()));
    assert_eq!(fetch(&d, 7, 2), Ok(vec![3u8; 1024]));
    assert_eq!(fetch(&d, 8, 2), Err(FsError::Io(AtaError::Pending(9))));
    assert_eq!(fetch(&d, 1 << 40, 1), Err(FsError::Io(AtaError::OutOfRange)));
    assert_eq!(store(&mut d, 1 << 40, 1, &vec![0u8; 512]), Err(FsError::Io(AtaError::OutOfRange)));
}
