//! The directories of a volume form a tree.
use crate::bfs::image::Brute;
use crate::bfs::sound::{same_inode, sound, start_of, ROOT_AT};
use crate::error::Fault;
use crate::xhfs::op_laws::lemma_position;
use crate::xhfs::tree::{entry_position, Entries};
use vstd::prelude::*;

verus! {

/// The inode at `a` is a known directory whose entries can be read.
pub open spec fn listed(m: Brute, known: Set<u64>, a: u64) -> bool {
    &&& known.contains(a)
    &&& m.inode(a)->Ok_0.kind is Directory
    &&& m.dir(start_of(m, a)) is Ok
}

/// The entries of the directory at `a`.
pub open spec fn entries_of(m: Brute, a: u64) -> Entries {
    m.dir(start_of(m, a))->Ok_0
}

/// No two entries have the same name or lead to the same inode, and none leads to the root.
pub open spec fn tidy(e: Entries) -> bool {
    &&& forall|i: int| 0 <= i < e.len() ==> (#[trigger] e[i]).1 != ROOT_AT
    &&& forall|i: int, j: int|
        0 <= i < j < e.len() ==> (#[trigger] e[i]).0 != (#[trigger] e[j]).0 && e[i].1 != e[j].1
}

/// No entry of the one leads where an entry of the other leads.
pub open spec fn unrelated(e: Entries, f: Entries) -> bool {
    forall|i: int, j: int|
        0 <= i < e.len() && 0 <= j < f.len() ==> (#[trigger] e[i]).1 != (#[trigger] f[j]).1
}

/// All entries lead to inodes that are known.
pub open spec fn closed(e: Entries, known: Set<u64>) -> bool {
    forall|i: int| 0 <= i < e.len() ==> known.contains((#[trigger] e[i]).1)
}

/// All entries lead to known inodes, and every inode but the root is reached by at most one entry
/// of one directory.
pub open spec fn neat(m: Brute, known: Set<u64>) -> bool {
    &&& forall|a: u64| #[trigger]
        listed(m, known, a) ==> tidy(entries_of(m, a)) && closed(entries_of(m, a), known)
    &&& forall|a: u64, b: u64|
        #[trigger] listed(m, known, a) && #[trigger] listed(m, known, b) && a != b ==> unrelated(
            entries_of(m, a),
            entries_of(m, b),
        )
}

/// A sound volume with nothing loose, whose directories form a tree.
#[verifier::opaque]
pub open spec fn brute_grounded(m: Brute, known: Set<u64>) -> bool {
    &&& sound(m, known, Set::empty())
    &&& neat(m, known)
}

/// The entries of one directory change; inodes that come to be known have no entries.
pub proof fn lemma_neat_step(
    m: Brute,
    m2: Brute,
    known: Set<u64>,
    known2: Set<u64>,
    a: u64,
    f: Entries,
)
    requires
        neat(m, known),
        forall|k: u64| #[trigger] known2.contains(k) && known.contains(k) && k != a ==> same_inode(
            m,
            m2,
            k,
        ),
        forall|k: u64| #[trigger]
            known2.contains(k) && !known.contains(k) && k != a && listed(m2, known2, k)
                ==> entries_of(m2, k).len() == 0,
        m2.dir(start_of(m2, a)) == Ok::<_, Fault>(f),
        tidy(f),
        closed(f, known2),
        forall|b: u64| #[trigger]
            listed(m, known, b) && b != a ==> unrelated(f, entries_of(m, b)) && closed(
                entries_of(m, b),
                known2,
            ),
    ensures
        neat(m2, known2),
{
    assert forall|k: u64| #[trigger] listed(m2, known2, k) implies tidy(entries_of(m2, k))
        && closed(entries_of(m2, k), known2) by {
        if k != a && known.contains(k) {
            assert(same_inode(m, m2, k));
            assert(listed(m, known, k));
        }
    }
    assert forall|k: u64, l: u64|
        #[trigger] listed(m2, known2, k) && #[trigger] listed(m2, known2, l) && k
            != l implies unrelated(entries_of(m2, k), entries_of(m2, l)) by {
        if k != a && known.contains(k) {
            assert(same_inode(m, m2, k));
            assert(listed(m, known, k));
        }
        if l != a && known.contains(l) {
            assert(same_inode(m, m2, l));
            assert(listed(m, known, l));
        }
        if k == a {
            if known.contains(l) {
                assert(unrelated(f, entries_of(m, l)));
            }
        } else if l == a {
            if known.contains(k) {
                assert(unrelated(f, entries_of(m, k)));
            }
        }
    }
}

/// Directories stay as they are.
pub proof fn lemma_neat_file(m: Brute, m2: Brute, known: Set<u64>, a: u64)
    requires
        neat(m, known),
        !(m2.inode(a)->Ok_0.kind is Directory),
        forall|k: u64| #[trigger] known.contains(k) && k != a ==> same_inode(m, m2, k),
    ensures
        neat(m2, known),
{
    assert forall|k: u64| #[trigger] listed(m2, known, k) implies listed(m, known, k) && entries_of(
        m2,
        k,
    ) == entries_of(m, k) by {
        assert(same_inode(m, m2, k));
    }
}

/// An entry for an inode that was not known is added to a directory.
pub proof fn lemma_neat_push(
    m: Brute,
    m2: Brute,
    known: Set<u64>,
    a: u64,
    name: Seq<char>,
    id: u64,
)
    requires
        known.contains(ROOT_AT),
        neat(m, known),
        listed(m, known, a),
        !known.contains(id),
        entry_position(entries_of(m, a), name) is None,
        forall|k: u64| #[trigger] known.contains(k) && k != a ==> same_inode(m, m2, k),
        m2.inode(id)->Ok_0.kind is Directory ==> m2.dir(start_of(m2, id)) == Ok::<Entries, Fault>(
            Seq::empty(),
        ),
        m2.dir(start_of(m2, a)) == Ok::<_, Fault>(entries_of(m, a).push((name, id))),
    ensures
        neat(m2, known.insert(id)),
{
    let e = entries_of(m, a);
    let f = e.push((name, id));
    lemma_position(e, name);
    assert(tidy(f)) by {
        assert forall|i: int| 0 <= i < f.len() implies (#[trigger] f[i]).1 != ROOT_AT by {
            if i < e.len() {
                assert(f[i] == e[i]);
            }
        }
        assert forall|i: int, j: int| 0 <= i < j < f.len() implies (#[trigger] f[i]).0 != (
        #[trigger] f[j]).0 && f[i].1 != f[j].1 by {
            assert(f[i] == e[i]);
            if j < e.len() {
                assert(f[j] == e[j]);
            } else {
                assert(known.contains(e[i].1));
            }
        }
    }
    assert forall|b: u64| #[trigger] listed(m, known, b) && b != a implies unrelated(
        f,
        entries_of(m, b),
    ) && closed(entries_of(m, b), known.insert(id)) by {
        assert(unrelated(e, entries_of(m, b)));
        assert forall|i: int, j: int|
            0 <= i < f.len() && 0 <= j < entries_of(m, b).len() implies (#[trigger] f[i]).1 != (
        #[trigger] entries_of(m, b)[j]).1 by {
            if i < e.len() {
                assert(f[i] == e[i]);
            } else {
                assert(known.contains(entries_of(m, b)[j].1));
            }
        }
    }
    lemma_neat_step(m, m2, known, known.insert(id), a, f);
}

} // verus!
