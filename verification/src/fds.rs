//! Open files: every task has its own descriptors, from 3 upwards. The lower
//! ones are the console.
use vstd::prelude::*;

use crate::errno::{err, EBADF, EMFILE};

verus! {

/// End of the descriptor numbers.
pub const MAX_FDS: u64 = 8;

/// An open file of a task: its path and the position of the next access.
pub struct OpenFile {
    pub task: u64,
    pub fd: u64,
    pub name: String,
    pub pos: u64,
}

/// The open files of all tasks.
pub struct Fds {
    pub files: Vec<OpenFile>,
}

/// A task and its descriptor.
pub type Key = (u64, u64);

/// What a descriptor stands for.
pub struct File {
    pub name: Seq<char>,
    pub pos: u64,
}

/// Entry `i` is the descriptor `k`.
pub open spec fn keyed(fs: Seq<OpenFile>, i: int, k: Key) -> bool {
    0 <= i < fs.len() && fs[i].task == k.0 && fs[i].fd == k.1
}

/// The descriptor is open.
pub open spec fn has_key(fs: Seq<OpenFile>, k: Key) -> bool {
    exists|i: int| keyed(fs, i, k)
}

/// Where the descriptor is in the list.
pub open spec fn place_of(fs: Seq<OpenFile>, k: Key) -> int {
    choose|i: int| keyed(fs, i, k)
}

impl Fds {
    /// The open descriptors and what they stand for.
    pub open spec fn view(&self) -> Map<Key, File> {
        Map::new(
            |k: Key| has_key(self.files@, k),
            |k: Key|
                File {
                    name: self.files@[place_of(self.files@, k)].name@,
                    pos: self.files@[place_of(self.files@, k)].pos,
                },
        )
    }

    /// No descriptor is listed twice, and all are in range.
    pub open spec fn wf(&self) -> bool {
        &&& forall|i: int, j: int|
            0 <= i < j < self.files@.len() ==> !((#[trigger] self.files@[i]).task == (
            #[trigger] self.files@[j]).task && self.files@[i].fd == self.files@[j].fd)
        &&& forall|i: int|
            0 <= i < self.files@.len() ==> 3 <= (#[trigger] self.files@[i]).fd < MAX_FDS
    }
}

proof fn lemma_entry(f: Fds, i: int)
    requires
        f.wf(),
        0 <= i < f.files@.len(),
    ensures
        ({
            let e = f.files@[i];
            f@.contains_key((e.task, e.fd)) && f@[(e.task, e.fd)] == (File {
                name: e.name@,
                pos: e.pos,
            })
        }),
{
    let e = f.files@[i];
    let k = (e.task, e.fd);
    assert(keyed(f.files@, i, k));
    let j = place_of(f.files@, k);
    assert(keyed(f.files@, j, k));
    assert(i == j) by {
        if i < j {
            assert(f.files@[i].task == f.files@[j].task);
        } else if j < i {
            assert(f.files@[j].task == f.files@[i].task);
        }
    }
}

/// No open files.
pub fn new_fds() -> (f: Fds)
    ensures
        f.wf(),
        f@ == Map::<Key, File>::empty(),
{
    let f = Fds { files: Vec::new() };
    assert(f@ =~= Map::<Key, File>::empty());
    f
}

/// Where a task's descriptor is in the list.
fn find(f: &Fds, task: u64, fd: u64) -> (r: Option<usize>)
    requires
        f.wf(),
    ensures
        match r {
            Some(i) => keyed(f.files@, i as int, (task, fd)) && f@.contains_key((task, fd))
                && f@[(task, fd)] == (File {
                name: f.files@[i as int].name@,
                pos: f.files@[i as int].pos,
            }),
            None => !f@.contains_key((task, fd)),
        },
{
    let mut i: usize = 0;
    while i < f.files.len()
        invariant
            f.wf(),
            i <= f.files@.len(),
            forall|j: int| 0 <= j < i ==> !#[trigger] keyed(f.files@, j, (task, fd)),
        decreases f.files@.len() - i,
    {
        if f.files[i].task == task && f.files[i].fd == fd {
            proof {
                lemma_entry(*f, i as int);
            }
            return Some(i);
        }
        i += 1;
    }
    None
}

/// The lowest free descriptor of a task from `fd` on.
pub open spec fn lowest_free(m: Map<Key, File>, task: u64, fd: int) -> Option<u64>
    decreases MAX_FDS - fd,
{
    if fd >= MAX_FDS {
        None
    } else if !m.contains_key((task, fd as u64)) {
        Some(fd as u64)
    } else {
        lowest_free(m, task, fd + 1)
    }
}

/// Give a task a descriptor for `name`, the lowest that it has free; `-EMFILE`
/// where it has none.
pub fn open_fd(f: &mut Fds, task: u64, name: String) -> (r: u64)
    requires
        old(f).wf(),
    ensures
        final(f).wf(),
        match lowest_free(old(f)@, task, 3) {
            None => r == err(EMFILE) && *final(f) == *old(f),
            Some(fd) => r == fd && final(f)@ == old(f)@.insert(
                (task, fd),
                File { name: name@, pos: 0 },
            ),
        },
{
    let mut fd: u64 = 3;
    while fd < MAX_FDS
        invariant
            f.wf(),
            *f == *old(f),
            3 <= fd <= MAX_FDS,
            lowest_free(f@, task, 3) == lowest_free(f@, task, fd as int),
        decreases MAX_FDS - fd,
    {
        if find(f, task, fd).is_none() {
            let ghost before = *f;
            let ghost text = name@;
            proof {
                assert forall|i: int| 0 <= i < f.files@.len() implies !((
                #[trigger] f.files@[i]).task == task && f.files@[i].fd == fd) by {
                    lemma_entry(*f, i);
                }
            }
            f.files.push(OpenFile { task, fd, name, pos: 0 });
            proof {
                assert(f.files@.drop_last() =~= before.files@);
                lemma_pushed(before, *f, task, fd, text);
            }
            return fd;
        }
        fd += 1;
    }
    err(EMFILE)
}

proof fn lemma_pushed(a: Fds, b: Fds, task: u64, fd: u64, name: Seq<char>)
    requires
        a.wf(),
        b.wf(),
        b.files@.len() == a.files@.len() + 1,
        b.files@.drop_last() == a.files@,
        b.files@.last().task == task,
        b.files@.last().fd == fd,
        b.files@.last().name@ == name,
        b.files@.last().pos == 0,
    ensures
        b@ == a@.insert((task, fd), File { name, pos: 0 }),
{
    let n = a.files@.len() as int;
    lemma_entry(b, n);
    let want = a@.insert((task, fd), File { name, pos: 0 });
    assert forall|k: Key| b@.contains_key(k) == want.contains_key(k) by {
        if b@.contains_key(k) {
            let i = place_of(b.files@, k);
            assert(keyed(b.files@, i, k));
            if i < n {
                assert(b.files@.drop_last()[i] == b.files@[i]);
                assert(keyed(a.files@, i, k));
            }
        }
        if a@.contains_key(k) {
            let i = place_of(a.files@, k);
            assert(keyed(a.files@, i, k));
            assert(b.files@.drop_last()[i] == b.files@[i]);
            assert(keyed(b.files@, i, k));
        }
    }
    assert forall|k: Key| want.contains_key(k) implies b@[k] == want[k] by {
        if k != (task, fd) {
            let i = place_of(a.files@, k);
            assert(keyed(a.files@, i, k));
            assert(b.files@.drop_last()[i] == b.files@[i]);
            lemma_entry(a, i);
            lemma_entry(b, i);
        }
    }
    assert(b@ =~= want);
}

proof fn lemma_removed(a: Fds, b: Fds, i: int)
    requires
        a.wf(),
        b.wf(),
        0 <= i < a.files@.len(),
        b.files@ == a.files@.remove(i),
    ensures
        b@ == a@.remove((a.files@[i].task, a.files@[i].fd)),
{
    let key = (a.files@[i].task, a.files@[i].fd);
    let want = a@.remove(key);
    assert forall|k: Key| b@.contains_key(k) == want.contains_key(k) by {
        if b@.contains_key(k) {
            let j = place_of(b.files@, k);
            assert(keyed(b.files@, j, k));
            let p = if j < i {
                j
            } else {
                j + 1
            };
            assert(b.files@[j] == a.files@[p]);
            assert(keyed(a.files@, p, k));
            assert(k != key) by {
                if p < i {
                    assert(a.files@[p].task == k.0);
                } else {
                    assert(a.files@[i].task == key.0 && a.files@[p].task == k.0);
                }
            }
        }
        if want.contains_key(k) {
            let p = place_of(a.files@, k);
            assert(keyed(a.files@, p, k));
            assert(p != i);
            let j = if p < i {
                p
            } else {
                p - 1
            };
            assert(b.files@[j] == a.files@[p]);
            assert(keyed(b.files@, j, k));
        }
    }
    assert forall|k: Key| want.contains_key(k) implies b@[k] == want[k] by {
        let p = place_of(a.files@, k);
        assert(keyed(a.files@, p, k));
        let j = if p < i {
            p
        } else {
            p - 1
        };
        assert(b.files@[j] == a.files@[p]);
        lemma_entry(a, p);
        lemma_entry(b, j);
    }
    assert(b@ =~= want);
}

/// Close a task's descriptor.
pub fn close_fd(f: &mut Fds, task: u64, fd: u64) -> (r: u64)
    requires
        old(f).wf(),
    ensures
        final(f).wf(),
        if old(f)@.contains_key((task, fd)) {
            r == 0 && final(f)@ == old(f)@.remove((task, fd))
        } else {
            r == err(EBADF) && *final(f) == *old(f)
        },
{
    match find(f, task, fd) {
        None => err(EBADF),
        Some(i) => {
            let ghost before = *f;
            let _gone = f.files.remove(i);
            proof {
                assert(f.files@ =~= before.files@.remove(i as int));
                lemma_removed(before, *f, i as int);
            }
            0
        },
    }
}

/// The path and position behind a task's descriptor.
pub fn file_of(f: &Fds, task: u64, fd: u64) -> (r: Option<(String, u64)>)
    requires
        f.wf(),
    ensures
        match r {
            None => !f@.contains_key((task, fd)),
            Some(p) => f@.contains_key((task, fd)) && f@[(task, fd)] == (File {
                name: p.0@,
                pos: p.1,
            }),
        },
{
    match find(f, task, fd) {
        None => None,
        Some(i) => Some((f.files[i].name.clone(), f.files[i].pos)),
    }
}

/// Move a task's descriptor to `pos`.
pub fn set_pos(f: &mut Fds, task: u64, fd: u64, pos: u64)
    requires
        old(f).wf(),
    ensures
        final(f).wf(),
        final(f)@ == if old(f)@.contains_key((task, fd)) {
            old(f)@.insert((task, fd), File { pos, ..old(f)@[(task, fd)] })
        } else {
            old(f)@
        },
{
    match find(f, task, fd) {
        None => {},
        Some(i) => {
            let ghost before = *f;
            f.files[i].pos = pos;
            proof {
                let k = (task, fd);
                let want = before@.insert(k, File { pos, ..before@[k] });
                assert forall|q: Key| f@.contains_key(q) == want.contains_key(q) by {
                    if f@.contains_key(q) {
                        let j = place_of(f.files@, q);
                        assert(keyed(f.files@, j, q));
                        assert(keyed(before.files@, j, q));
                    }
                    if before@.contains_key(q) {
                        let j = place_of(before.files@, q);
                        assert(keyed(before.files@, j, q));
                        assert(keyed(f.files@, j, q));
                    }
                }
                assert forall|q: Key| want.contains_key(q) implies f@[q] == want[q] by {
                    let j = place_of(before.files@, q);
                    assert(keyed(before.files@, j, q));
                    lemma_entry(before, j);
                    lemma_entry(*f, j);
                    lemma_entry(before, i as int);
                    lemma_entry(*f, i as int);
                }
                assert(f@ =~= want);
            }
        },
    }
}

/// The descriptors of the other tasks.
pub open spec fn others(m: Map<Key, File>, task: u64) -> Map<Key, File> {
    Map::new(|k: Key| m.contains_key(k) && k.0 != task, |k: Key| m[k])
}

/// Close every descriptor of a task: it exits or was killed.
pub fn drop_task(f: &mut Fds, task: u64)
    requires
        old(f).wf(),
    ensures
        final(f).wf(),
        final(f)@ == others(old(f)@, task),
{
    let mut i: usize = 0;
    assert(others(f@, task) == others(old(f)@, task));
    while i < f.files.len()
        invariant
            f.wf(),
            i <= f.files@.len(),
            others(f@, task) == others(old(f)@, task),
            forall|j: int| 0 <= j < i ==> (#[trigger] f.files@[j]).task != task,
        decreases f.files@.len() - i,
    {
        if f.files[i].task == task {
            let ghost before = *f;
            let _gone = f.files.remove(i);
            proof {
                assert(f.files@ =~= before.files@.remove(i as int));
                lemma_removed(before, *f, i as int);
                assert(others(f@, task) =~= others(before@, task));
            }
        } else {
            i += 1;
        }
    }
    proof {
        assert forall|k: Key| f@.contains_key(k) implies k.0 != task by {
            let j = place_of(f.files@, k);
            assert(keyed(f.files@, j, k));
        }
        assert(f@ =~= others(f@, task));
    }
}

/// A descriptor that was just handed out is the task's own: what the others
/// have open stays as it was.
pub proof fn law_descriptors_are_private(m: Map<Key, File>, task: u64, name: Seq<char>, other: u64, fd: u64)
    requires
        other != task,
        lowest_free(m, task, 3) is Some,
    ensures
        ({
            let n = m.insert((task, lowest_free(m, task, 3)->0), File { name, pos: 0 });
            &&& !m.contains_key((task, lowest_free(m, task, 3)->0))
            &&& n.contains_key((other, fd)) == m.contains_key((other, fd))
            &&& m.contains_key((other, fd)) ==> n[(other, fd)] == m[(other, fd)]
            &&& others(m, task) == others(n, task)
        }),
{
    lemma_lowest(m, task, 3);
    let n = m.insert((task, lowest_free(m, task, 3)->0), File { name, pos: 0 });
    assert(others(m, task) =~= others(n, task));
}

proof fn lemma_lowest(m: Map<Key, File>, task: u64, fd: int)
    requires
        3 <= fd,
    ensures
        lowest_free(m, task, fd) matches Some(x) ==> !m.contains_key((task, x)) && fd <= x < MAX_FDS,
    decreases MAX_FDS - fd,
{
    if fd < MAX_FDS && m.contains_key((task, fd as u64)) {
        lemma_lowest(m, task, fd + 1);
    }
}

} // verus!
