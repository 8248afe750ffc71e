//! What a program finds when it starts: the words above its stack pointer, and where its
//! memory lies.
use vstd::prelude::*;

use crate::bytes::{le64_bytes, splice};
use crate::disk_laws::{law_numbers, number_at};
use crate::elf::ElfLoadInfo;
use crate::userspace::{
    bytes_at, entry_sp, glibc_marker, is_linux, lemma_strings_len, lemma_word_reads_back,
    lemma_words_put, linux_marker, mem_at, mem_of, mixed, random_bytes, stack_fits, stack_top,
    start_stack, start_words, string_at, strings_from, two_words_bytes, wrapping_sum, LinuxMem,
};

verus! {

/// The eight bytes at an address of a stack that ends at `top`, as a number.
pub open spec fn word_on(s: Seq<u8>, top: int, address: int) -> int {
    number_at(s, address - (top - s.len()), 8)
}

/// Above its stack pointer a program finds the count of its arguments, a pointer to each, a
/// nought, a nought for the environment, and pairs of a tag and a value: 3 the program
/// headers, 4 the size of one, 5 their number, 6 the size of a page, 7 where it was moved to,
/// 9 its entry, 25 sixteen random bytes, 31 its name, and two noughts at the end. The random
/// bytes end the stack, the texts lie below them, and the block as high below those as its
/// alignment lets it.
#[verifier::spinoff_prover]
#[verifier::rlimit(60)]
pub proof fn law_start_block(mem: Seq<u8>, top: int, argv: Seq<Vec<u8>>, info: ElfLoadInfo, random: Seq<u8>, i: int)
    requires
        mem.len() == 65536,
        65536 <= top <= u64::MAX,
        random.len() == 16,
        stack_fits(argv),
        0 <= i < 16,
    ensures
        ({
            let s = start_stack(mem, top, argv, info, random);
            let sp = entry_sp(top, argv);
            let n = argv.len() as int;
            let aux = sp + 8 * (3 + n);
            &&& s.len() == 65536
            &&& sp % 16 == 0
            &&& top - 65536 <= sp && aux + 144 <= top
            &&& word_on(s, top, sp) == n
            &&& word_on(s, top, sp + 8 * (1 + n)) == 0
            &&& word_on(s, top, sp + 8 * (2 + n)) == 0
            &&& word_on(s, top, aux) == 3
            &&& word_on(s, top, aux + 8) == match info.phdr_vaddr {
                Some(a) => a as int,
                None => 0,
            }
            &&& word_on(s, top, aux + 16) == 4
            &&& word_on(s, top, aux + 24) == 56
            &&& word_on(s, top, aux + 32) == 5
            &&& word_on(s, top, aux + 40) == info.phnum
            &&& word_on(s, top, aux + 48) == 6
            &&& word_on(s, top, aux + 56) == 4096
            &&& word_on(s, top, aux + 64) == 7
            &&& word_on(s, top, aux + 72) == info.at_base
            &&& word_on(s, top, aux + 80) == 9
            &&& word_on(s, top, aux + 88) == info.entry
            &&& word_on(s, top, aux + 96) == 25
            &&& word_on(s, top, aux + 104) == top - top % 16 - 16
            &&& s[word_on(s, top, aux + 104) - (top - 65536) + i] == random[i]
            &&& word_on(s, top, aux + 112) == 31
            &&& n > 0 ==> word_on(s, top, aux + 120) == word_on(s, top, sp + 8)
            &&& n == 0 ==> word_on(s, top, aux + 120) == 0
            &&& n > 0 ==> 0 <= word_on(s, top, sp + 8) - (aux + 144) < 16
            &&& n == 0 ==> 0 <= word_on(s, top, aux + 104) - (aux + 144) < 16
            &&& word_on(s, top, aux + 128) == 0
            &&& word_on(s, top, aux + 136) == 0
        }),
{
    let s = start_stack(mem, top, argv, info, random);
    let sp = entry_sp(top, argv);
    let n = argv.len() as int;
    let low = top - 65536;
    let ws = start_words(top, argv, info);
    let first = string_at(top, argv, 0) - low;
    lemma_strings_len(argv, 0);
    assert(ws.len() == n + 21);
    assert(sp % 16 == 0 && sp + 8 * (21 + n) <= string_at(top, argv, 0));
    assert(low <= sp);
    assert forall|k: int| 0 <= k < n + 21 implies #[trigger] word_on(s, top, sp + 8 * k) == ws[k] by {
        lemma_start_word(mem, top, argv, info, random, k);
    }
    assert(word_on(s, top, sp + 8 * 0) == ws[0]);
    assert(word_on(s, top, sp + 8 * (1 + n)) == ws[1 + n]);
    assert(word_on(s, top, sp + 8 * (2 + n)) == ws[2 + n]);
    let aux = sp + 8 * (3 + n);
    assert forall|k: int| 0 <= k < 18 implies #[trigger] word_on(s, top, aux + 8 * k) == ws[3 + n + k] by {
        assert(word_on(s, top, sp + 8 * (3 + n + k)) == ws[3 + n + k]);
        assert(sp + 8 * (3 + n + k) == aux + 8 * k);
    }
    assert(word_on(s, top, aux + 8 * 0) == 3);
    assert(word_on(s, top, aux + 8 * 1) == ws[4 + n]);
    assert(word_on(s, top, aux + 8 * 2) == 4);
    assert(word_on(s, top, aux + 8 * 3) == 56);
    assert(word_on(s, top, aux + 8 * 4) == 5);
    assert(word_on(s, top, aux + 8 * 5) == info.phnum);
    assert(word_on(s, top, aux + 8 * 6) == 6);
    assert(word_on(s, top, aux + 8 * 7) == 4096);
    assert(word_on(s, top, aux + 8 * 8) == 7);
    assert(word_on(s, top, aux + 8 * 9) == info.at_base);
    assert(word_on(s, top, aux + 8 * 10) == 9);
    assert(word_on(s, top, aux + 8 * 11) == info.entry);
    assert(word_on(s, top, aux + 8 * 12) == 25);
    assert(word_on(s, top, aux + 8 * 13) == ws[16 + n]);
    assert(word_on(s, top, aux + 8 * 14) == 31);
    assert(word_on(s, top, aux + 8 * 15) == ws[18 + n]);
    assert(word_on(s, top, aux + 8 * 16) == 0);
    assert(word_on(s, top, aux + 8 * 17) == 0);
    if n > 0 {
        assert(word_on(s, top, sp + 8 * 1) == ws[1]);
        assert(ws[18 + n] == ws[1]);
    }
    let area = strings_from(argv, 0) + random;
    let base = splice(mem, first, area);
    lemma_words_put(base, sp - low, ws, ws.len() as int);
    let r = ws[16 + n] as int - low;
    assert(r == first + strings_from(argv, 0).len());
    assert(base[r + i] == area[strings_from(argv, 0).len() + i]);
}

proof fn lemma_start_word(mem: Seq<u8>, top: int, argv: Seq<Vec<u8>>, info: ElfLoadInfo, random: Seq<u8>, k: int)
    requires
        mem.len() == 65536,
        65536 <= top <= u64::MAX,
        random.len() == 16,
        stack_fits(argv),
        0 <= k < argv.len() + 21,
    ensures
        word_on(start_stack(mem, top, argv, info, random), top, entry_sp(top, argv) + 8 * k) == start_words(
            top,
            argv,
            info,
        )[k],
{
    let low = top - 65536;
    let ws = start_words(top, argv, info);
    let at = entry_sp(top, argv) - low;
    let first = string_at(top, argv, 0) - low;
    lemma_strings_len(argv, 0);
    let base = splice(mem, first, strings_from(argv, 0) + random);
    assert(ws.len() == argv.len() + 21);
    assert(at + 8 * ws.len() <= first);
    lemma_words_put(base, at, ws, ws.len() as int);
    lemma_word_reads_back(base, at, ws, ws.len() as int, k);
    law_numbers(start_stack(mem, top, argv, info, random), at + 8 * k);
}

/// The random bytes of a program are two successive values of one generator.
pub proof fn law_random_bytes(tsc: u64)
    ensures
        random_bytes(tsc).len() == 16,
        random_bytes(tsc).subrange(8, 16) == random_bytes(
            ((tsc + 0x9E37_79B9_7F4A_7C15) % 0x1_0000_0000_0000_0000) as u64,
        ).subrange(0, 8),
{
    reveal(two_words_bytes);
    let s = wrapping_sum(tsc, 0x9E37_79B9_7F4A_7C15);
    let t = wrapping_sum(s, 0x9E37_79B9_7F4A_7C15);
    assert(random_bytes(tsc).subrange(8, 16) =~= le64_bytes(mixed(t) as int));
    assert(random_bytes(s).subrange(0, 8) =~= le64_bytes(mixed(t) as int));
}

/// The first stack ends at one gibibyte, and each further one a quarter of that higher.
pub proof fn law_stacks(slot: int)
    ensures
        stack_top(0) == 1024 * 1024 * 1024,
        stack_top(slot + 1) == stack_top(slot) + 256 * 1024 * 1024,
{
}

/// A program starts with an empty heap at 64 mebibytes and no mappings at 128.
pub proof fn law_fresh_memory(ms: Seq<LinuxMem>, pid: u64)
    requires
        forall|i: int| 0 <= i < ms.len() ==> (#[trigger] ms[i]).pid != pid,
    ensures
        mem_of(ms, pid).brk == 64 * 1024 * 1024,
        mem_of(ms, pid).mmap == 128 * 1024 * 1024,
        mem_of(ms, pid).pid == pid,
{
    lemma_no_memory(ms, pid, 0);
}

proof fn lemma_no_memory(ms: Seq<LinuxMem>, pid: u64, k: int)
    requires
        0 <= k <= ms.len(),
        forall|i: int| 0 <= i < ms.len() ==> (#[trigger] ms[i]).pid != pid,
    ensures
        mem_at(ms, pid, k) is None,
    decreases ms.len() - k,
{
    if k < ms.len() {
        lemma_no_memory(ms, pid, k + 1);
    }
}

/// A program is taken for one of the other system where it holds the brand that this system's
/// builds of such programs carry, or the version of their library.
pub proof fn law_brands(elf: Seq<u8>, i: int)
    requires
        0 <= i,
    ensures
        i + 8 <= elf.len() && elf[i] == 'O' as u8 && elf[i + 1] == 'N' as u8 && elf[i + 2] == 'Y' as u8
            && elf[i + 3] == 'X' as u8 && elf[i + 4] == 'L' as u8 && elf[i + 5] == 'N' as u8 && elf[i + 6]
            == 'X' as u8 && elf[i + 7] == 0 ==> is_linux(elf),
        i + 7 <= elf.len() && elf[i] == 'G' as u8 && elf[i + 1] == 'L' as u8 && elf[i + 2] == 'I' as u8
            && elf[i + 3] == 'B' as u8 && elf[i + 4] == 'C' as u8 && elf[i + 5] == '_' as u8 && elf[i + 6]
            == '2' as u8 ==> is_linux(elf),
{
    let a = linux_marker();
    let b = glibc_marker();
    if i + 8 <= elf.len() && elf.subrange(i, i + 8) =~= a {
        assert(bytes_at(elf, a, i));
    }
    if i + 7 <= elf.len() && elf.subrange(i, i + 7) =~= b {
        assert(bytes_at(elf, b, i));
    }
}

/// A program that holds neither mark is one of this system.
pub proof fn law_own_programs(elf: Seq<u8>)
    requires
        forall|i: int| 0 <= i < elf.len() ==> (#[trigger] elf[i]) != 'X' as u8 && elf[i] != '_' as u8,
    ensures
        !is_linux(elf),
{
    let a = linux_marker();
    let b = glibc_marker();
    assert forall|i: int| 0 <= i implies !#[trigger] bytes_at(elf, a, i) by {
        if i + a.len() <= elf.len() {
            assert(elf.subrange(i, i + a.len())[3] == elf[i + 3]);
        }
    }
    assert forall|i: int| 0 <= i implies !#[trigger] bytes_at(elf, b, i) by {
        if i + b.len() <= elf.len() {
            assert(elf.subrange(i, i + b.len())[5] == elf[i + 5]);
        }
    }
}

} // verus!
