//! How the slots of a directory spell a long name.
use vstd::prelude::*;

use crate::block::unit_char;
use crate::disk_laws::{law_numbers, number_at, told_as};
use crate::fat::{
    inserted, lfn_from, lfn_units, long_name, ordered, scan_slot, short_of, unit_of, Part, Scan,
};

verus! {

/// Where the character `j` of the thirteen in a slot of a long name stands.
pub open spec fn letter_at(j: int) -> int {
    if j < 5 {
        1 + 2 * j
    } else if j < 11 {
        14 + 2 * (j - 5)
    } else {
        28 + 2 * (j - 11)
    }
}

/// A slot of a long name holds thirteen characters of two bytes: five from byte 1 on, six from
/// byte 14 on and two from byte 28 on.
pub proof fn law_long_name_slot(slot: Seq<u8>, j: int)
    requires
        slot.len() == 32,
        0 <= j < 13,
    ensures
        lfn_units(slot).len() == 26,
        number_at(lfn_units(slot), 2 * j, 2) == number_at(slot, letter_at(j), 2),
{
    let u = lfn_units(slot);
    let p = letter_at(j);
    assert(u[2 * j] == slot[p] && u[2 * j + 1] == slot[p + 1]);
    reveal_with_fuel(number_at, 3);
}

/// What the slots before an entry spell is collected, each with the number in the lowest five
/// bits of its first byte. A deleted slot or a label breaks the collection off; an entry takes it
/// as its name, and is told under its short name where there is none.
pub proof fn law_names_are_collected(st: Scan, slot: Seq<u8>, index: int, dir: u32)
    requires
        slot.len() == 32,
        !st.done,
    ensures
        slot[0] == 0xE5 ==> scan_slot(st, slot, index, dir).lfn.len() == 0,
        slot[0] != 0 && slot[0] != 0xE5 && slot[11] == 15 ==> {
            let n = scan_slot(st, slot, index, dir);
            &&& n.lfn.len() == st.lfn.len() + 1
            &&& n.lfn.drop_last() =~= st.lfn
            &&& n.lfn.last().0 == slot[0] % 32
            &&& n.lfn.last().1 == lfn_units(slot)
            &&& n.out == st.out
        },
        slot[0] != 0 && slot[0] != 0xE5 && slot[11] != 15 ==> scan_slot(st, slot, index, dir).lfn.len() == 0,
        slot[0] != 0 && slot[0] != 0xE5 && slot[11] as int / 8 % 2 == 0 ==> {
            let n = scan_slot(st, slot, index, dir);
            &&& n.out.len() == st.out.len() + 1
            &&& st.lfn.len() > 0 ==> n.out.last().name == long_name(st.lfn)
            &&& st.lfn.len() == 0 ==> n.out.last().name == short_of(slot)
            &&& n.out.last().short == short_of(slot)
        },
{
}

proof fn lemma_inserted(s: Seq<Part>, p: Part)
    requires
        forall|i: int, j: int| 0 <= i < j < s.len() ==> (#[trigger] s[i]).0 <= (#[trigger] s[j]).0,
    ensures
        inserted(s, p).len() == s.len() + 1,
        inserted(s, p).to_multiset() =~= s.to_multiset().insert(p),
        forall|i: int, j: int|
            0 <= i < j < inserted(s, p).len() ==> (#[trigger] inserted(s, p)[i]).0 <= (#[trigger] inserted(
                s,
                p,
            )[j]).0,
        inserted(s, p).last().0 == p.0 || (s.len() > 0 && inserted(s, p).last() == s.last()),
    decreases s.len(),
{
    broadcast use vstd::seq_lib::group_to_multiset_ensures;

    let r = inserted(s, p);
    if s.len() == 0 || s.last().0 <= p.0 {
        assert forall|i: int, j: int| 0 <= i < j < r.len() implies (#[trigger] r[i]).0 <= (#[trigger] r[j]).0 by {
            if j == s.len() {
                assert(s[i].0 <= s.last().0);
            } else {
                assert(s[i].0 <= s[j].0);
            }
        }
    } else {
        let f = s.drop_last();
        lemma_inserted(f, p);
        let q = inserted(f, p);
        assert(r == q.push(s.last()));
        assert(s =~= f.push(s.last()));
        assert(q.to_multiset() == f.to_multiset().insert(p));
        assert(r.to_multiset() =~= s.to_multiset().insert(p));
        assert forall|i: int, j: int| 0 <= i < j < r.len() implies (#[trigger] r[i]).0 <= (#[trigger] r[j]).0 by {
            if j < q.len() {
                assert(q[i].0 <= q[j].0);
            } else {
                assert(q[i].0 <= q.last().0) by {
                    if i < q.len() - 1 {
                        assert(q[i].0 <= q[q.len() - 1].0);
                    }
                }
                if f.len() > 0 {
                    assert(s[f.len() - 1].0 <= s[s.len() - 1].0);
                }
            }
        }
    }
}

/// The slots of a long name are put in the order of their numbers, whatever order they stand in;
/// none is lost.
pub proof fn law_parts_in_order(s: Seq<Part>)
    ensures
        ordered(s).len() == s.len(),
        ordered(s).to_multiset() =~= s.to_multiset(),
        forall|i: int, j: int|
            0 <= i < j < ordered(s).len() ==> (#[trigger] ordered(s)[i]).0 <= (#[trigger] ordered(s)[j]).0,
    decreases s.len(),
{
    broadcast use vstd::seq_lib::group_to_multiset_ensures;

    if s.len() > 0 {
        law_parts_in_order(s.drop_last());
        lemma_inserted(ordered(s.drop_last()), s.last());
        assert(s =~= s.drop_last().push(s.last()));
        assert(ordered(s) == inserted(ordered(s.drop_last()), s.last()));
    }
}

/// Where character `j` of a long name stands: thirteen in each part.
pub open spec fn unit_at(s: Seq<Part>, j: int) -> int {
    number_at(s[j / 13].1, 2 * (j % 13), 2)
}

/// A long name runs through the characters of its parts, thirteen each, up to the first that is
/// nought or all ones.
pub proof fn law_long_name_text(s: Seq<Part>, j: int)
    requires
        0 <= j <= 13 * s.len(),
    ensures
        lfn_from(s, j).len() <= 13 * s.len() - j,
        forall|k: int|
            0 <= k < lfn_from(s, j).len() ==> told_as(
                s[(j + k) / 13].1,
                2 * ((j + k) % 13),
                #[trigger] lfn_from(s, j)[k],
            ) && unit_at(s, j + k) != 0xFFFF,
        lfn_from(s, j).len() < 13 * s.len() - j ==> unit_at(s, j + lfn_from(s, j).len()) == 0 || unit_at(
            s,
            j + lfn_from(s, j).len(),
        ) == 0xFFFF,
    decreases 13 * s.len() - j,
{
    let t = lfn_from(s, j);
    law_numbers(s[j / 13].1, 2 * (j % 13));
    assert(unit_of(s, j) == unit_at(s, j));
    if j < 13 * s.len() && unit_of(s, j) != 0 && unit_of(s, j) != 0xFFFF {
        law_long_name_text(s, j + 1);
        let r = lfn_from(s, j + 1);
        let u = unit_of(s, j);
        assert(t == seq![unit_char(u)] + r);
        assert(0 <= u < 0x1_0000);
        assert forall|k: int| 0 <= k < t.len() implies told_as(s[(j + k) / 13].1, 2 * ((j + k) % 13), #[trigger] t[k])
            && unit_at(s, j + k) != 0xFFFF by {
            if k > 0 {
                assert(t[k] == r[k - 1]);
                assert(j + k == (j + 1) + (k - 1));
            }
        }
        assert(j + t.len() == (j + 1) + r.len());
    }
}

/// Whether the parts spell the name.
pub open spec fn spelled(o: Seq<Part>, name: Seq<char>) -> bool {
    &&& name.len() <= 13 * o.len()
    &&& forall|k: int|
        0 <= k < name.len() ==> told_as(o[k / 13].1, 2 * (k % 13), #[trigger] name[k]) && unit_at(o, k) != 0xFFFF
    &&& name.len() < 13 * o.len() ==> unit_at(o, name.len() as int) == 0 || unit_at(o, name.len() as int) == 0xFFFF
}

/// Whether the parts stand in the order of their numbers.
pub open spec fn in_order(o: Seq<Part>) -> bool {
    forall|i: int, j: int| 0 <= i < j < o.len() ==> (#[trigger] o[i]).0 <= (#[trigger] o[j]).0
}

/// The name of an entry is what its parts spell in the order of their numbers.
pub proof fn law_long_name(s: Seq<Part>)
    ensures
        exists|o: Seq<Part>| #[trigger] spelled(o, long_name(s)) && in_order(o) && o.to_multiset() =~= s.to_multiset(),
{
    law_parts_in_order(s);
    let o = ordered(s);
    law_long_name_text(o, 0);
    let name = long_name(s);
    assert forall|k: int| 0 <= k < name.len() implies told_as(o[k / 13].1, 2 * (k % 13), #[trigger] name[k])
        && unit_at(o, k) != 0xFFFF by {
        assert(told_as(o[(0 + k) / 13].1, 2 * ((0 + k) % 13), lfn_from(o, 0)[k]));
    }
    assert(spelled(o, name));
}

} // verus!
