//! What making directories promises.
use crate::addr::maybe;
use crate::bfs::image::Brute;
use crate::bfs::op_laws::{
    carries_on, lemma_entries_replaced, lemma_walk_carries, lemma_walk_known,
};
use crate::bfs::records::{inode_round_trip, node_bytes, INode, INodeKind, INODE_SIZE};
use crate::bfs::sound::{
    in_content, in_inode, inode_fine, lemma_put_frame, lemma_put_inode, lemma_sound_adopt,
    lemma_sound_less, lemma_sound_put, lemma_sound_take, owned, same_inode, seal, sound, start_of,
    stretch,
};
use crate::bfs::tree_laws::{brute_grounded, lemma_neat_push, listed};
use crate::error::Fault;
use crate::utils::components;
use crate::xhfs::op_laws::{entries_extend, lemma_entries_push};
use crate::xhfs::tree::{entry_position, Entries};
use vstd::prelude::*;

verus! {

/// The inode of an empty directory.
pub open spec fn empty_directory(now: u64) -> INode {
    INode {
        kind: INodeKind::Directory,
        total_file_size: 0,
        extent_addr: maybe(0),
        mtime: now,
        ctime: now,
    }
}

/// A directory without an extent is empty.
proof fn lemma_empty_directory(m: Brute)
    ensures
        m.content(maybe(0)) == Ok::<_, Fault>(Seq::<u8>::empty()),
        m.dir(maybe(0)) == Ok::<Entries, Fault>(Seq::empty()),
        forall|x: int| !#[trigger] in_content(m, maybe(0), x),
{
}

/// A new inode for an empty directory.
pub proof fn lemma_directory_added(m: Brute, known: Set<u64>, now: u64)
    requires
        sound(m, known, Set::empty()),
        m.new_inode(empty_directory(now)).1 is Ok,
    ensures
        ({
            let (m2, r) = m.new_inode(empty_directory(now));
            let id = r->Ok_0;
            &&& !known.contains(id)
            &&& sound(m2, known.insert(id), Set::empty())
            &&& m2.inode(id) == Ok::<_, Fault>(empty_directory(now))
            &&& m2.disk.len() == m.disk.len()
            &&& seal(m2) == seal(m)
            &&& forall|k: u64| #[trigger] known.contains(k) ==> same_inode(m, m2, k)
        }),
{
    let n = empty_directory(now);
    let none = Set::<int>::empty();
    let (m1, r1) = m.allocate(INODE_SIZE as usize);
    let id = r1->Ok_0;
    let got = stretch(id as int, 33);
    lemma_sound_take(m, known, none, INODE_SIZE as usize);
    let all = none.union(got);
    inode_round_trip(n);
    let bytes = node_bytes(n);
    assert forall|x: int| id <= x < id + bytes.len() implies #[trigger] all.contains(x) by {
        assert(got.contains(x));
    }
    lemma_sound_put(m1, known, all, id, bytes);
    lemma_put_frame(m1, id as int, bytes);
    let m2 = m.new_inode(n).0;
    lemma_put_inode(m1, id, n);
    lemma_empty_directory(m2);
    if known.contains(id) {
        assert(in_inode(id, id as int));
        assert(all.contains(id as int));
        assert(owned(m2, id, id as int));
    }
    assert(inode_fine(m2, id));
    assert forall|x: int| #[trigger] owned(m2, id, x) implies all.contains(x) by {
        assert(in_inode(id, x));
        assert(got.contains(x));
    }
    lemma_sound_adopt(m2, known, all, id);
    lemma_sound_less(
        m2,
        known.insert(id),
        all.difference(Set::new(|x: int| owned(m2, id, x))),
        none,
    );
    assert forall|k: u64| #[trigger] known.contains(k) implies same_inode(m, m2, k) by {
        assert(same_inode(m, m1, k));
        assert(same_inode(m1, m2, k));
    }
}

/// What carries on over two steps carries on over both.
proof fn lemma_carries_trans(a: Brute, b: Brute, c: Brute, known: Set<u64>, more: Set<u64>)
    requires
        carries_on(a, b, known),
        carries_on(b, c, more),
        known.subset_of(more),
    ensures
        carries_on(a, c, known),
{
    assert forall|n: u64| #[trigger] known.contains(n) implies ({
        &&& c.inode(n) is Ok
        &&& c.inode(n)->Ok_0.kind == a.inode(n)->Ok_0.kind
        &&& a.inode(n)->Ok_0.kind is Directory && a.dir(start_of(a, n)) is Ok ==> c.dir(
            start_of(c, n),
        ) is Ok && entries_extend(a.dir(start_of(a, n))->Ok_0, c.dir(start_of(c, n))->Ok_0)
    }) by {
        assert(more.contains(n));
    }
}

/// Inodes that are no directories are as they were, with their contents.
pub open spec fn brute_files_kept(m: Brute, m2: Brute, known: Set<u64>) -> bool {
    forall|n: u64|
        #[trigger] known.contains(n) && !(m.inode(n)->Ok_0.kind is Directory) ==> same_inode(
            m,
            m2,
            n,
        )
}

/// Inodes keep what they hold but for the address of the content and the time of the last change,
/// which is the former one or `now`.
pub open spec fn brute_lasting(m: Brute, m2: Brute, known: Set<u64>, now: u64) -> bool {
    forall|n: u64| #[trigger] known.contains(n) ==> {
        let old = m.inode(n)->Ok_0;
        let new = m2.inode(n)->Ok_0;
        &&& new == INode { extent_addr: new.extent_addr, mtime: new.mtime, ..old }
        &&& new.mtime == old.mtime || new.mtime == now
    }
}

/// One directory is made in another.
proof fn lemma_directory_made(
    m: Brute,
    known: Set<u64>,
    at: u64,
    n: INode,
    e: Entries,
    name: Seq<char>,
    now: u64,
)
    requires
        brute_grounded(m, known),
        known.contains(at),
        m.inode(at) == Ok::<_, Fault>(n),
        n.kind is Directory,
        m.dir(n.extent_addr) == Ok::<_, Fault>(e),
        entry_position(e, name) is None,
        m.new_inode(empty_directory(now)).1 is Ok,
        ({
            let (m1, r) = m.new_inode(empty_directory(now));
            m1.replace_entries(at, n, e.push((name, r->Ok_0)), now).1 is Ok
        }),
    ensures
        ({
            let (m1, r) = m.new_inode(empty_directory(now));
            let id = r->Ok_0;
            let m2 = m1.replace_entries(at, n, e.push((name, id)), now).0;
            &&& !known.contains(id)
            &&& brute_grounded(m2, known.insert(id))
            &&& carries_on(m, m2, known)
            &&& brute_files_kept(m, m2, known)
            &&& brute_lasting(m, m2, known, now)
            &&& m2.disk.len() == m.disk.len()
            &&& seal(m2) == seal(m)
            &&& m2.inode(id) == Ok::<_, Fault>(empty_directory(now))
            &&& m2.dir(start_of(m2, at)) == Ok::<_, Fault>(e.push((name, id)))
        }),
{
    reveal(brute_grounded);
    lemma_directory_added(m, known, now);
    let (m1, r) = m.new_inode(empty_directory(now));
    let id = r->Ok_0;
    let all = known.insert(id);
    let f = e.push((name, id));
    let m2 = m1.replace_entries(at, n, f, now).0;
    assert(same_inode(m, m1, at));
    lemma_entries_replaced(m1, all, at, n, f, now);
    assert(all.contains(id));
    assert(same_inode(m1, m2, id));
    lemma_empty_directory(m2);
    lemma_entries_push(e, name, id);
    assert forall|k: u64| #[trigger] known.contains(k) && k != at implies same_inode(m, m2, k) by {
        assert(same_inode(m, m1, k));
        assert(all.contains(k));
        assert(same_inode(m1, m2, k));
    }
    assert forall|k: u64| #[trigger] known.contains(k) implies ({
        &&& m2.inode(k) is Ok
        &&& m2.inode(k)->Ok_0.kind == m.inode(k)->Ok_0.kind
        &&& m.inode(k)->Ok_0.kind is Directory && m.dir(start_of(m, k)) is Ok ==> m2.dir(
            start_of(m2, k),
        ) is Ok && entries_extend(m.dir(start_of(m, k))->Ok_0, m2.dir(start_of(m2, k))->Ok_0)
    }) by {
        assert(inode_fine(m, k));
        if k != at {
            assert(same_inode(m, m2, k));
        }
    }
    assert(brute_lasting(m, m2, known, now)) by {
        assert forall|k: u64| #[trigger] known.contains(k) && k != at implies m2.inode(k)
            == m.inode(k) by {
            assert(same_inode(m, m2, k));
        }
    }
    assert(listed(m, known, at));
    lemma_neat_push(m, m2, known, at, name, id);
}

/// A way that is blocked stays blocked further on.
proof fn lemma_walk_blocked(m: Brute, parts: Seq<Seq<char>>, j: nat, k: nat)
    requires
        j <= k,
        m.walk(parts, j) is Err,
    ensures
        m.walk(parts, k) is Err,
    decreases k,
{
    if j < k {
        lemma_walk_blocked(m, parts, j, (k - 1) as nat);
    }
}

/// Making the directories of a path from component `k` on.
proof fn lemma_mkdir_from(
    m: Brute,
    known: Set<u64>,
    parts: Seq<Seq<char>>,
    k: int,
    at: u64,
    n: INode,
    created: bool,
    recursive: bool,
    now: u64,
) -> (all: Set<u64>)
    requires
        brute_grounded(m, known),
        0 <= k <= parts.len(),
        m.walk(parts, k as nat) == Ok::<_, Fault>((at, n)),
        created ==> n == empty_directory(now),
        m.mkdir_from(parts, k, at, n, created, recursive, now).1 is Ok,
    ensures
        ({
            let (m2, r) = m.mkdir_from(parts, k, at, n, created, recursive, now);
            &&& known.subset_of(all)
            &&& brute_grounded(m2, all)
            &&& carries_on(m, m2, known)
            &&& brute_files_kept(m, m2, known)
            &&& brute_lasting(m, m2, known, now)
            &&& m2.disk.len() == m.disk.len()
            &&& seal(m2) == seal(m)
            &&& m2.walk(parts, parts.len()) is Ok
            &&& r->Ok_0 == (created || m.walk(parts, parts.len()) is Err)
            &&& r->Ok_0 ==> m2.walk(parts, parts.len())->Ok_0.1 == empty_directory(now)
            &&& !r->Ok_0 ==> m2 == m
        }),
    decreases parts.len() - k,
{
    assert(known.contains(at) && m.inode(at) == Ok::<_, Fault>(n)) by {
        lemma_walk_known(m, known, parts, k as nat);
    }
    assert(carries_on(m, m, known)) by {
        reveal(brute_grounded);
        assert forall|a: u64| #[trigger] known.contains(a) implies m.inode(a) is Ok by {
            assert(inode_fine(m, a));
        }
    }
    if k >= parts.len() {
        known
    } else {
        let e = m.dir(n.extent_addr)->Ok_0;
        match entry_position(e, parts[k]) {
            Some(i) => {
                let next = m.inode(e[i].1)->Ok_0;
                assert(m.walk(parts, (k + 1) as nat) == Ok::<_, Fault>((e[i].1, next)));
                lemma_mkdir_from(m, known, parts, k + 1, e[i].1, next, created, recursive, now)
            },
            None => {
                let name = parts[k];
                lemma_directory_made(m, known, at, n, e, name, now);
                let (m1, r) = m.new_inode(empty_directory(now));
                let id = r->Ok_0;
                let m2 = m1.replace_entries(at, n, e.push((name, id)), now).0;
                let more = known.insert(id);
                assert(m.walk(parts, (k + 1) as nat) is Err);
                lemma_walk_blocked(m, parts, (k + 1) as nat, parts.len());
                assert(m2.walk(parts, k as nat) == Ok::<_, Fault>((at, m2.inode(at)->Ok_0))) by {
                    lemma_walk_carries(m, m2, known, parts, k as nat);
                }
                lemma_entries_push(e, name, id);
                lemma_empty_directory(m2);
                let new = empty_directory(now);
                assert(m2.walk(parts, (k + 1) as nat) == Ok::<_, Fault>((id, new)));
                let all = lemma_mkdir_from(m2, more, parts, k + 1, id, new, true, recursive, now);
                let m3 = m.mkdir_from(parts, k, at, n, created, recursive, now).0;
                lemma_carries_trans(m, m2, m3, known, more);
                assert forall|a: u64|
                    #[trigger] known.contains(a) && !(m.inode(a)->Ok_0.kind
                        is Directory) implies same_inode(m, m3, a) by {
                    assert(more.contains(a));
                    assert(same_inode(m, m2, a));
                    assert(same_inode(m2, m3, a));
                }
                assert forall|a: u64| #[trigger] known.contains(a) implies more.contains(a) by {}
                all
            },
        }
    }
}

/// A directory that was missing is made: it is there, new and empty. One that is there is left, and
/// then nothing changes. Every path still leads where it led, files keep their contents, and other
/// directories change only by a new entry.
pub proof fn brute_made_directory_is_there(
    m: Brute,
    known: Set<u64>,
    path: Seq<char>,
    recursive: bool,
    now: u64,
) -> (all: Set<u64>)
    requires
        brute_grounded(m, known),
        m.mkdir(path, recursive, now).1 is Ok,
    ensures
        ({
            let (m2, r) = m.mkdir(path, recursive, now);
            &&& known.subset_of(all)
            &&& brute_grounded(m2, all)
            &&& carries_on(m, m2, known)
            &&& brute_files_kept(m, m2, known)
            &&& brute_lasting(m, m2, known, now)
            &&& seal(m2) == seal(m)
            &&& m2.lookup(path) is Ok
            &&& r->Ok_0 == (m.lookup(path) is Err)
            &&& r->Ok_0 ==> {
                let n = m2.lookup(path)->Ok_0.1;
                &&& n.kind is Directory
                &&& n.total_file_size == 0
                &&& n.mtime == now
                &&& n.ctime == now
                &&& m2.list(path) == Ok::<Entries, Fault>(Seq::empty())
            }
            &&& !r->Ok_0 ==> m2 == m
        }),
{
    let (at, n) = m.root()->Ok_0;
    let m2 = m.mkdir(path, recursive, now).0;
    lemma_empty_directory(m2);
    lemma_mkdir_from(m, known, components(path), 0, at, n, false, recursive, now)
}

/// Without the wish for it no directory is made for a path of several parts.
proof fn lemma_mkdir_refused(
    m: Brute,
    parts: Seq<Seq<char>>,
    k: int,
    at: u64,
    n: INode,
    now: u64,
)
    requires
        parts.len() > 1,
        0 <= k <= parts.len(),
        m.walk(parts, k as nat) == Ok::<_, Fault>((at, n)),
        m.walk(parts, parts.len()) is Err,
    ensures
        m.mkdir_from(parts, k, at, n, false, false, now).0 == m,
        m.mkdir_from(parts, k, at, n, false, false, now).1 is Err,
    decreases parts.len() - k,
{
    if k < parts.len() && n.kind is Directory && m.dir(n.extent_addr) is Ok {
        let e = m.dir(n.extent_addr)->Ok_0;
        match entry_position(e, parts[k]) {
            Some(i) => {
                if m.inode(e[i].1) is Ok {
                    let next = m.inode(e[i].1)->Ok_0;
                    assert(m.walk(parts, (k + 1) as nat) == Ok::<_, Fault>((e[i].1, next)));
                    lemma_mkdir_refused(m, parts, k + 1, e[i].1, next, now);
                }
            },
            None => {},
        }
    }
}

/// A path of several parts of which one is missing is made only if that is asked for.
pub proof fn brute_mkdir_of_several_parts_is_refused(m: Brute, path: Seq<char>, now: u64)
    requires
        components(path).len() > 1,
        m.lookup(path) is Err,
    ensures
        m.mkdir(path, false, now).0 == m,
        m.mkdir(path, false, now).1 is Err,
{
    if m.root() is Ok {
        let (at, n) = m.root()->Ok_0;
        lemma_mkdir_refused(m, components(path), 0, at, n, now);
    }
}

/// Directories that are there are passed by.
pub proof fn lemma_mkdir_walks(m: Brute, parts: Seq<Seq<char>>, k: nat, recursive: bool, now: u64)
    requires
        k <= parts.len(),
        m.walk(parts, k) is Ok,
    ensures
        m.root() is Ok,
        ({
            let (ra, rn) = m.root()->Ok_0;
            let (at, n) = m.walk(parts, k)->Ok_0;
            m.mkdir_from(parts, 0, ra, rn, false, recursive, now) == m.mkdir_from(
                parts,
                k as int,
                at,
                n,
                false,
                recursive,
                now,
            )
        }),
    decreases k,
{
    if k > 0 {
        lemma_mkdir_walks(m, parts, (k - 1) as nat, recursive, now);
    }
}

/// No directory is made below a file.
pub proof fn brute_mkdir_below_a_file_is_refused(
    m: Brute,
    path: Seq<char>,
    k: nat,
    recursive: bool,
    now: u64,
)
    requires
        k < components(path).len(),
        m.walk(components(path), k) is Ok,
        !(m.walk(components(path), k)->Ok_0.1.kind is Directory),
    ensures
        m.mkdir(path, recursive, now).0 == m,
        m.mkdir(path, recursive, now).1 == Err::<bool, _>(Fault::NotADirectory),
{
    lemma_mkdir_walks(m, components(path), k, recursive, now);
}

} // verus!
