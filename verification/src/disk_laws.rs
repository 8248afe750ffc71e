//! What stands where on a disk and in a drive's registers: partition tables byte by byte, and
//! the words a drive is addressed and answers in.
use vstd::prelude::*;

use crate::ata::{
    busy, failed, identified_sectors, in_range, model_bytes, probe_error, requests_data,
    sector_bytes, task_file_lba, with_sectors, words_as_bytes, AtaError, ProbeReplies, TaskFile,
};
use crate::block::{
    array_named, checked_bytes, crc_register, crc_shift, entry_count_of, entry_size_of, gpt_scan,
    gpt_unused, gpt_views, guid_text, has_boot_signature, hex2, last_sector, mbr_views, name_from,
    table_lba, table_sectors, unit_char, upper_digit, views, GptScan,
};
use crate::bytes::{le16, le32, le64};

verus! {

/// The number in the `n` bytes from `at` on, the least significant first.
pub open spec fn number_at(s: Seq<u8>, at: int, n: int) -> int
    decreases n,
{
    if n <= 0 {
        0
    } else {
        s[at] as int + 256 * number_at(s, at + 1, n - 1)
    }
}

/// The numbers that the on-disk structures hold are read least significant byte first.
pub proof fn law_numbers(s: Seq<u8>, at: int)
    ensures
        le16(s, at) == number_at(s, at, 2),
        le32(s, at) == number_at(s, at, 4),
        le64(s, at) == number_at(s, at, 8),
{
    reveal_with_fuel(number_at, 9);
}

/// How many of the first `n` slots of a master boot record are in use: those of any type but
/// nought and the mark of a table elsewhere.
pub open spec fn slots_used(mbr: Seq<u8>, n: int) -> int
    decreases n,
{
    if n <= 0 {
        0
    } else {
        slots_used(mbr, n - 1) + if mbr[446 + 16 * (n - 1) + 4] == 0 || mbr[446 + 16 * (n - 1) + 4] == 0xEE {
            0int
        } else {
            1
        }
    }
}

/// A master boot record holds four slots of sixteen bytes from byte 446 on. A slot in use
/// names a partition: its type in byte 4, its first sector in the four bytes from 8 on, its
/// length in the next four. The partitions are told in the order of their slots.
pub proof fn law_boot_record(mbr: Seq<u8>, n: int, i: int)
    requires
        0 <= i < n <= 4,
    ensures
        mbr_views(mbr, n).len() == slots_used(mbr, n),
        mbr[446 + 16 * i + 4] != 0 && mbr[446 + 16 * i + 4] != 0xEE ==> {
            let k = slots_used(mbr, i);
            &&& 0 <= k < mbr_views(mbr, n).len()
            &&& mbr_views(mbr, n)[k].start_lba == number_at(mbr, 446 + 16 * i + 8, 4)
            &&& mbr_views(mbr, n)[k].sectors == number_at(mbr, 446 + 16 * i + 12, 4)
            &&& mbr_views(mbr, n)[k].name is None
        },
    decreases n,
{
    law_numbers(mbr, 446 + 16 * i + 8);
    law_numbers(mbr, 446 + 16 * i + 12);
    lemma_slots(mbr, i);
    lemma_slots(mbr, n - 1);
    if i < n - 1 {
        law_boot_record(mbr, n - 1, i);
    }
}

proof fn lemma_slots(mbr: Seq<u8>, n: int)
    requires
        0 <= n <= 4,
    ensures
        mbr_views(mbr, n).len() == slots_used(mbr, n),
    decreases n,
{
    if n > 0 {
        lemma_slots(mbr, n - 1);
    }
}

/// A sector is a boot record where its last two bytes are 55 and AA.
pub proof fn law_boot_signature(s: Seq<u8>)
    requires
        s.len() == 512,
    ensures
        has_boot_signature(s) <==> s[510] == 85 && s[511] == 170,
{
}

/// Whether a slot of a partition table lies within it and has a type.
pub open spec fn entry_used(t: Seq<u8>, size: int, k: int) -> bool {
    k * size + size <= t.len() && exists|j: int| k * size <= j < k * size + 16 && #[trigger] t[j] != 0
}

/// How many of the first `n` slots of a partition table are in use.
pub open spec fn entries_used(t: Seq<u8>, size: int, n: int) -> int
    decreases n,
{
    if n <= 0 {
        0
    } else {
        entries_used(t, size, n - 1) + if entry_used(t, size, n - 1) {
            1int
        } else {
            0
        }
    }
}

proof fn lemma_entry_used(t: Seq<u8>, size: int, k: int)
    requires
        size >= 128,
        k >= 0,
    ensures
        entry_used(t, size, k) <==> k * size + size <= t.len() && !gpt_unused(t, k * size),
{
    let off = k * size;
    assert(off >= 0) by (nonlinear_arith)
        requires
            off == k * size,
            size >= 128,
            k >= 0,
    ;
    if off + size <= t.len() {
        let g = t.subrange(off, off + 16);
        if entry_used(t, size, k) {
            let j = choose|j: int| off <= j < off + 16 && #[trigger] t[j] != 0;
            assert(g[j - off] != 0);
            assert(Seq::new(16, |i: int| 0u8)[j - off] == 0);
        } else if !gpt_unused(t, off) {
            assert forall|i: int| 0 <= i < 16 implies g[i] == 0 by {
                assert(t[off + i] == 0);
            }
            assert(g =~= Seq::new(16, |i: int| 0u8));
        }
    }
}

proof fn lemma_entries(t: Seq<u8>, size: int, n: int)
    requires
        size >= 128,
        n >= 0,
    ensures
        gpt_views(t, size, n).len() == entries_used(t, size, n),
    decreases n,
{
    if n > 0 {
        lemma_entries(t, size, n - 1);
        lemma_entry_used(t, size, n - 1);
    }
}

/// A slot of a partition table is in use where its first sixteen bytes, the type, are not all
/// nought. It names the first sector of its partition in the eight bytes from 32 on and the
/// last one in the next eight, so that a partition holds both. The partitions are told in the
/// order of their slots.
#[verifier::spinoff_prover]
#[verifier::rlimit(60)]
pub proof fn law_partition_table(t: Seq<u8>, size: int, n: int, i: int)
    requires
        size >= 128,
        0 <= i < n,
    ensures
        gpt_views(t, size, n).len() == entries_used(t, size, n),
        entry_used(t, size, i) ==> {
            let k = entries_used(t, size, i);
            let first = number_at(t, i * size + 32, 8);
            let last = number_at(t, i * size + 40, 8);
            &&& 0 <= k < gpt_views(t, size, n).len()
            &&& gpt_views(t, size, n)[k].start_lba == first
            &&& first <= last && last - first < u64::MAX ==> first + gpt_views(t, size, n)[k].sectors
                == last + 1
            &&& last < first ==> gpt_views(t, size, n)[k].sectors == 1
        },
    decreases n,
{
    law_numbers(t, i * size + 32);
    law_numbers(t, i * size + 40);
    lemma_entries(t, size, i);
    lemma_entries(t, size, n - 1);
    lemma_entry_used(t, size, i);
    lemma_entry_used(t, size, n - 1);
    if i < n - 1 {
        law_partition_table(t, size, n - 1, i);
    }
}

/// Whether the two bytes at `at` are told as `c`: as the character they number, or as a
/// question mark where they are half of a pair.
pub open spec fn told_as(t: Seq<u8>, at: int, c: char) -> bool {
    let u = number_at(t, at, 2);
    &&& u != 0
    &&& 0xD800 <= u < 0xE000 ==> c == '?'
    &&& !(0xD800 <= u < 0xE000) ==> c as int == u
}

/// A partition's name stands from byte 56 of its slot on, two bytes a character, thirty-six
/// at most; the first nought ends it.
pub proof fn law_partition_name(t: Seq<u8>, off: int, k: int)
    requires
        0 <= k <= 36,
    ensures
        name_from(t, off, k).len() <= 36 - k,
        forall|j: int|
            0 <= j < name_from(t, off, k).len() ==> told_as(
                t,
                off + 56 + 2 * (k + j),
                #[trigger] name_from(t, off, k)[j],
            ),
        name_from(t, off, k).len() < 36 - k ==> number_at(
            t,
            off + 56 + 2 * (k + name_from(t, off, k).len() as int),
            2,
        ) == 0,
    decreases 36 - k,
{
    law_numbers(t, off + 56 + 2 * k);
    let s = name_from(t, off, k);
    if k < 36 && le16(t, off + 56 + 2 * k) != 0 {
        law_partition_name(t, off, k + 1);
        let r = name_from(t, off, k + 1);
        let u = le16(t, off + 56 + 2 * k);
        assert(s == seq![unit_char(u)] + r);
        assert(0 <= u < 0x1_0000);
        assert forall|j: int| 0 <= j < s.len() implies told_as(t, off + 56 + 2 * (k + j), #[trigger] s[j]) by {
            if j > 0 {
                assert(s[j] == r[j - 1]);
                assert(k + j == (k + 1) + (j - 1));
            }
        }
        assert(k + s.len() == (k + 1) + r.len());
    }
}

/// The header tells the table's first sector from byte 72 on, the number of slots from 80 on
/// and the size of one from 84 on. The table takes as many sectors as its bytes fill, 4096 at
/// most.
#[verifier::spinoff_prover]
#[verifier::rlimit(60)]
pub proof fn law_table_header(hdr: Seq<u8>)
    requires
        hdr.len() == 512,
    ensures
        table_lba(hdr) == number_at(hdr, 72, 4),
        entry_count_of(hdr) == number_at(hdr, 80, 4),
        entry_size_of(hdr) == number_at(hdr, 84, 4),
        array_named(hdr) ==> {
            &&& hdr[0] == 'E' as u8 && hdr[1] == 'F' as u8 && hdr[2] == 'I' as u8 && hdr[3] == ' ' as u8
            &&& hdr[4] == 'P' as u8 && hdr[5] == 'A' as u8 && hdr[6] == 'R' as u8 && hdr[7] == 'T' as u8
            &&& 128 <= number_at(hdr, 84, 4) <= 4096
            &&& number_at(hdr, 80, 4) <= 4096
        },
{
    law_numbers(hdr, 72);
    law_numbers(hdr, 80);
    law_numbers(hdr, 84);
    reveal_with_fuel(number_at, 9);
    let hi = number_at(hdr, 76, 4);
    assert(number_at(hdr, 72, 8) == number_at(hdr, 72, 4) + 0x1_0000_0000 * hi);
    if array_named(hdr) {
        let s = hdr.subrange(0, 8);
        assert(s[0] == hdr[0] && s[1] == hdr[1] && s[2] == hdr[2] && s[3] == hdr[3]);
        assert(s[4] == hdr[4] && s[5] == hdr[5] && s[6] == hdr[6] && s[7] == hdr[7]);
    }
}

/// The sectors of a table hold all of its slots and none is for nothing, up to the limit.
pub proof fn law_table_sectors(size: int, count: int)
    requires
        size >= 0,
        count >= 0,
    ensures
        table_sectors(size, count) <= 4096,
        count * size <= 512 * 4096 ==> 512 * table_sectors(size, count) >= count * size && 512 * (
        table_sectors(size, count) - 1) < count * size,
        count * size > 512 * 4096 ==> table_sectors(size, count) == 4096,
{
}

/// The checksum of a header covers as many bytes as the header says it has, a sector at most,
/// with its own four bytes taken as nought.
pub proof fn law_checked_bytes(hdr: Seq<u8>, i: int)
    requires
        hdr.len() == 512,
        0 <= i < checked_bytes(hdr).len(),
    ensures
        number_at(hdr, 12, 4) <= 512 ==> checked_bytes(hdr).len() == number_at(hdr, 12, 4),
        number_at(hdr, 12, 4) > 512 ==> checked_bytes(hdr).len() == 512,
        16 <= i < 20 ==> checked_bytes(hdr)[i] == 0,
        !(16 <= i < 20) ==> checked_bytes(hdr)[i] == hdr[i],
{
    law_numbers(hdr, 12);
}

/// The divisor x^32 + x^26 + x^23 + x^22 + x^16 + x^12 + x^11 + x^10 + x^8 + x^7 + x^5 + x^4 + x^2 + x
/// + 1 of the checksum, less its first term; the register holds x^0 in its top bit.
pub open spec fn divisor() -> u32 {
    (1u32 << 31) | (1u32 << 30) | (1u32 << 29) | (1u32 << 27) | (1u32 << 26) | (1u32 << 24) | (1u32 << 23) | (
    1u32 << 21) | (1u32 << 20) | (1u32 << 19) | (1u32 << 15) | (1u32 << 9) | (1u32 << 8) | (1u32 << 5)
}

/// One step of the checksum divides the register by x: it moves down by a bit, and the bit
/// that falls out brings the divisor in.
pub proof fn law_checksum_step(c: u32)
    ensures
        c % 2 == 0 ==> crc_shift(c, 1) == c / 2,
        c % 2 == 1 ==> crc_shift(c, 1) == (c / 2) ^ divisor(),
{
    reveal_with_fuel(crc_shift, 2);
    assert(c & 1 == c % 2 && c >> 1 == c / 2) by (bit_vector);
    assert(divisor() == 0xEDB8_8320) by (bit_vector);
}

/// The checksum starts from all ones and takes in a byte at a time, eight steps each, the
/// lowest bit first.
pub proof fn law_checksum(data: Seq<u8>, b: u8)
    ensures
        crc_register(Seq::empty()) == u32::MAX,
        crc_register(data.push(b)) == crc_shift(crc_register(data) ^ (b as u32), 8),
{
    assert(data.push(b).drop_last() =~= data);
}

/// The byte that a pair of characters of an identifier's text shows: the first three groups
/// are numbers, shown most significant byte first; the rest stands in order.
pub open spec fn shown_byte(k: int) -> int {
    if k < 4 {
        3 - k
    } else if k < 6 {
        9 - k
    } else if k < 8 {
        13 - k
    } else {
        k
    }
}

/// Where the pair of characters for the byte shown `k`-th starts, after the dashes before it.
pub open spec fn shown_at(k: int) -> int {
    2 * k + if k < 4 {
        0int
    } else if k < 6 {
        1
    } else if k < 8 {
        2
    } else if k < 10 {
        3
    } else {
        4
    }
}

/// The value of a hexadecimal digit.
pub open spec fn digit_value(c: char) -> int {
    if '0' <= c && c <= '9' {
        c as int - '0' as int
    } else {
        c as int - 'A' as int + 10
    }
}

/// An identifier is told in thirty-six characters, eight, four, four, four and twelve of
/// them, with dashes between.
#[verifier::spinoff_prover]
#[verifier::rlimit(60)]
pub proof fn law_identifier_text(b: Seq<u8>, k: int)
    requires
        b.len() == 16,
        0 <= k < 16,
    ensures
        guid_text(b).len() == 36,
        guid_text(b)[8] == '-',
        guid_text(b)[13] == '-',
        guid_text(b)[18] == '-',
        guid_text(b)[23] == '-',
        16 * digit_value(guid_text(b)[shown_at(k)]) + digit_value(guid_text(b)[shown_at(k) + 1])
            == b[shown_byte(k)],
{
    reveal_strlit("-");
    let v = b[shown_byte(k)];
    assert(guid_text(b)[shown_at(k)] == hex2(v)[0]);
    assert(guid_text(b)[shown_at(k) + 1] == hex2(v)[1]);
    lemma_digit(v as int / 16);
    lemma_digit(v as int % 16);
}

proof fn lemma_digit(d: int)
    requires
        0 <= d < 16,
    ensures
        digit_value(upper_digit(d)) == d,
{
}

/// The sector that a write is tried on is the last one that can be addressed.
pub proof fn law_last_sector(total: u64)
    requires
        total > 0,
    ensures
        last_sector(total) < total,
        last_sector(total) < 0x1000_0000,
        last_sector(total) + 1 == total || last_sector(total) + 1 == 0x1000_0000,
{
}

/// A drive tells its sectors in words 60 and 61, or, where word 83 says that it has the longer
/// numbers and they are not nought, in words 100 to 103.
pub proof fn law_drive_size(id: Seq<u16>)
    requires
        id.len() == 256,
    ensures
        ({
            let wide = id[100] + 65536 * (id[101] + 65536 * (id[102] + 65536 * id[103]));
            &&& (id[83] / 1024) % 2 == 0 || wide == 0 ==> identified_sectors(id) == id[60] + 65536 * id[61]
            &&& (id[83] / 1024) % 2 == 1 && wide != 0 ==> identified_sectors(id) == wide
        }),
{
}

/// The words from 27 to 46 spell the model, the first character of each pair in the upper
/// half of its word.
pub proof fn law_drive_model(id: Seq<u16>, w: int)
    requires
        id.len() == 256,
        27 <= w < 47,
    ensures
        model_bytes(id).len() == 40,
        256 * model_bytes(id)[2 * (w - 27)] + model_bytes(id)[2 * (w - 27) + 1] == id[w],
{
    let k = 2 * (w - 27);
    assert(27 + k / 2 == w);
    assert(27 + (k + 1) / 2 == w);
    assert(k % 2 == 0);
    assert((k + 1) % 2 == 1);
}

/// A sector passes the data port as words, the earlier byte of each in the lower half.
pub proof fn law_words_on_the_wire(ws: Seq<u16>, i: int)
    requires
        0 <= i < ws.len(),
    ensures
        words_as_bytes(ws).len() == 2 * ws.len(),
        words_as_bytes(ws)[2 * i] + 256 * words_as_bytes(ws)[2 * i + 1] == ws[i],
{
    assert((2 * i) / 2 == i);
    assert((2 * i + 1) / 2 == i);
    assert((2 * i) % 2 == 0);
    assert((2 * i + 1) % 2 == 1);
}

/// In a drive's status bit 7 says that it is busy, bit 3 that it asks for data, and bits 0 and
/// 5 that the command or the device failed.
pub proof fn law_drive_status(st: u8)
    ensures
        busy(st) <==> (st / 128) % 2 == 1,
        requests_data(st) <==> (st / 8) % 2 == 1,
        failed(st) <==> st % 2 == 1 || (st / 32) % 2 == 1,
{
}

/// The registers carry the sector number least significant byte first, its top four bits in
/// the drive register.
#[verifier::spinoff_prover]
#[verifier::rlimit(60)]
pub proof fn law_sector_address(t: TaskFile)
    ensures
        task_file_lba(t) % 256 == t.lba_lo,
        task_file_lba(t) / 256 % 256 == t.lba_mid,
        task_file_lba(t) / 65536 % 256 == t.lba_hi,
        task_file_lba(t) / 16777216 == t.drive % 16,
{
}

/// A transfer is in range where its last sector has a number of twenty-eight bits.
pub proof fn law_transfer_range(lba: u32, count: u8)
    requires
        count > 0,
    ensures
        in_range(lba, count) <==> forall|l: int| lba <= l < lba + count ==> #[trigger] (l / 0x1000_0000) == 0,
{
    if !in_range(lba, count) {
        let l = lba + count - 1;
        assert(l / 0x1000_0000 != 0);
    }
}

/// The bytes of a transfer are the bytes of its sectors one after the other.
pub proof fn law_transfer_bytes(m: Map<u32, Seq<u8>>, lba: u32, n: nat, s: int, b: int)
    requires
        0 <= s < n,
        0 <= b < 512,
        lba + n <= 0x1_0000_0000,
    ensures
        sector_bytes(m, lba, n)[512 * s + b] == m[(lba + s) as u32][b],
{
    assert((512 * s + b) / 512 == s);
    assert((512 * s + b) % 512 == b);
}

/// A write changes the sectors it names, each to its part of the data, and no other.
pub proof fn law_written_sectors(m: Map<u32, Seq<u8>>, lba: u32, n: nat, data: Seq<u8>, l: u32, b: int)
    requires
        512 * n <= data.len(),
        0 <= b < 512,
    ensures
        lba <= l < lba + n ==> with_sectors(m, lba, n, data).contains_key(l) && with_sectors(m, lba, n, data)[l][b]
            == data[512 * (l - lba) + b],
        !(lba <= l < lba + n) && m.contains_key(l) ==> with_sectors(m, lba, n, data)[l] == m[l],
{
}

/// A drive is there where it could be selected, its status was not nought, and the command to
/// identify itself was taken, did not fail and brought its data.
pub proof fn law_drive_is_there(p: ProbeReplies)
    ensures
        probe_error(p) is None <==> p.selected && p.first_status != 0 && p.command_done && !failed(p.second_status)
            && p.data is Ok,
        p.selected && p.first_status == 0 ==> probe_error(p) == Some(AtaError::NoDrive),
        !p.selected ==> probe_error(p) == Some(AtaError::Timeout),
{
}

/// A table behind a protective record is taken where its header has its mark, sound sizes and a
/// place in reach. The partitions are its own, then those that the record names besides.
pub proof fn law_table_is_taken(hdr: Seq<u8>, table: Seq<u8>, lba0: Seq<u8>, s: GptScan)
    requires
        hdr.len() == 512,
        gpt_scan(hdr, table, lba0, s),
    ensures
        s.note is Table ==> {
            &&& array_named(hdr)
            &&& views(s.partitions@) == gpt_views(table, number_at(hdr, 84, 4), number_at(hdr, 80, 4)) + mbr_views(
                lba0,
                4,
            )
            &&& s.disk_guid@ == guid_text(hdr.subrange(56, 72))
        },
        array_named(hdr) ==> s.note is Table,
        hdr[0] != 'E' as u8 ==> s.note is NoHeader && s.partitions@.len() == 0,
{
    law_table_header(hdr);
    assert(hdr.subrange(0, 8)[0] == hdr[0]);
    if s.note is Table {
        assert(hdr.subrange(0, 8) == crate::block::efi_part());
    }
}

} // verus!
