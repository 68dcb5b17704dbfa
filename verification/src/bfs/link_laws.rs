//! What symbolic links and reads of a part promise.
use crate::addr::MaybeU64;
use crate::bfs::image::{Brute, WriteOption};
use crate::bfs::op_laws::{lemma_walk_carries, lemma_walk_known, lemma_written};
use crate::bfs::sound::{same_inode, seal};
use crate::bfs::tree_laws::brute_grounded;
use crate::error::Fault;
use crate::path_laws::{components_are_plain, no_parents, normalizing_keeps_components};
use crate::utils::{absolute, components, full_parts, normalized, same_path, slashed};
use crate::xhfs::extent::cut;
use crate::xhfs::laws::lemma_cut_join;
use crate::xhfs::link_laws::between;
use vstd::prelude::*;
use vstd::utf8::*;

verus! {

/// Reading from `start` to `end` reads that part of the extents.
proof fn lemma_seek(m: Brute, addr: MaybeU64, at: int, start: int, end: int, fuel: nat)
    requires
        0 <= at,
        0 <= start,
        m.chain(addr, fuel) is Ok,
        at + m.chain(addr, fuel)->Ok_0.len() <= u64::MAX,
    ensures
        m.seek(addr, at, start, end, fuel) == Ok::<_, Fault>(
            cut(m.chain(addr, fuel)->Ok_0, at, start, end),
        ),
    decreases fuel,
{
    if addr.raw != 0 {
        let c = m.extent(addr.raw)->Ok_0;
        let rest = m.chain(c.next, (fuel - 1) as nat)->Ok_0;
        let size = c.data.len() as int;
        lemma_cut_join(c.data, rest, at, start, end);
        lemma_seek(m, c.next, at + size, start, end, (fuel - 1) as nat);
        if at + size <= start {
            assert(cut(c.data, at, start, end) =~= Seq::empty());
            assert(Seq::<u8>::empty() + cut(rest, at + size, start, end) =~= cut(
                rest,
                at + size,
                start,
                end,
            ));
        } else if at >= end {
            assert(cut(c.data, at, start, end) =~= Seq::empty());
            assert(cut(rest, at + size, start, end) =~= Seq::empty());
            assert(Seq::<u8>::empty() + Seq::<u8>::empty() =~= Seq::<u8>::empty());
        }
    } else {
        assert(cut(Seq::empty(), at, start, end) =~= Seq::empty());
    }
}

/// Reading a file from `start` to `end` gives that part of what reading all of it gives, also
/// through links.
pub proof fn brute_seek_reads_part_of_file(m: Brute, path: Seq<char>, start: u64, end: u64)
    requires
        m.fread(path) is Ok,
        m.fread(path)->Ok_0.len() <= u64::MAX,
    ensures
        m.fseek(path, start, end) == Ok::<_, Fault>(between(m.fread(path)->Ok_0, start, end)),
{
    let n = m.target(path, m.disk.len())->Ok_0;
    let c = m.fread(path)->Ok_0;
    lemma_seek(m, n.extent_addr, 0, start as int, end as int, m.disk.len());
    assert(cut(c, 0, start as int, end as int) =~= between(c, start, end));
}

/// Paths of which one leads somewhere and the other nowhere are not the same.
proof fn lemma_other_path(m: Brute, target: Seq<char>, path: Seq<char>)
    requires
        no_parents(components(target)),
        m.lookup(target) is Ok,
        m.lookup(path) is Err,
    ensures
        !same_path(absolute(components(target)), path),
        m.lookup(absolute(components(target))) == m.lookup(target),
{
    let link = absolute(components(target));
    normalizing_keeps_components(target);
    assert(link[0] == '/' && link.len() > 0) by {
        let n = normalized(components(target));
        if n.len() > 0 {
            lemma_slash_first(n);
        }
    }
    if same_path(link, path) {
        let a = full_parts(link);
        let b = full_parts(path);
        assert(a[0] == seq!['/']);
        assert(a.drop_first() =~= components(link));
        if path.len() > 0 && path[0] == '/' {
            assert(b.drop_first() =~= components(path));
        } else {
            components_are_plain(path);
            assert(seq!['/'][0] == '/');
            assert(seq!['.'][0] == '.');
            assert(b[0] == seq!['/']);
            assert(b[0][0] == '/');
        }
    }
}

proof fn lemma_slash_first(parts: Seq<Seq<char>>)
    requires
        parts.len() > 0,
    ensures
        slashed(parts).len() > 0,
        slashed(parts)[0] == '/',
    decreases parts.len(),
{
    let d = parts.drop_last();
    if d.len() > 0 {
        lemma_slash_first(d);
    } else {
        assert(slashed(d) =~= Seq::empty());
    }
    assert(slashed(parts)[0] == slashed(d).push('/')[0]);
}

/// A symbolic link that was made to a file reads as the file, and leaves the file as it is.
pub proof fn brute_symlink_reads_as_its_target(
    m: Brute,
    known: Set<u64>,
    path: Seq<char>,
    target: Seq<char>,
    opt: WriteOption,
    now: u64,
)
    requires
        brute_grounded(m, known),
        m.parent(path) is Ok ==> m.parent(path)->Ok_0.0.1.kind is Directory,
        m.lookup(path) is Err,
        no_parents(components(target)),
        m.lookup(target) is Ok,
        m.lookup(target)->Ok_0.1.kind is File,
        m.link(path, target, opt, now).1 is Ok,
    ensures
        ({
            let m2 = m.link(path, target, opt, now).0;
            &&& exists|id: u64| #[trigger] brute_grounded(m2, known.insert(id))
            &&& seal(m2) == seal(m)
            &&& m2.lookup(path)->Ok_0.1.kind is Symlink
            &&& m2.fread(path) == m.fread(target)
            &&& m2.fread(target) == m.fread(target)
        }),
{
    let link = absolute(components(target));
    let data = encode_utf8(link);
    let m2 = m.link(path, target, opt, now).0;
    encode_utf8_valid_utf8(link);
    encode_utf8_decode_utf8(link);
    lemma_other_path(m, target, path);
    let id = lemma_written(m, known, path, data, true, opt, now);
    assert(brute_grounded(m2, known.insert(id)));
    let parts = components(target);
    lemma_walk_known(m, known, parts, parts.len());
    lemma_walk_carries(m, m2, known, parts, parts.len());
    let (at, n) = m.lookup(target)->Ok_0;
    assert(known.contains(at));
    assert(same_inode(m, m2, at));
    let fuel = m.disk.len();
    normalizing_keeps_components(target);
    assert(m2.lookup(link) == m2.lookup(target));
    assert(fuel > 0) by {
        reveal(brute_grounded);
    }
    assert(m.target(target, fuel) == Ok::<_, Fault>(n));
    assert(m2.target(target, fuel) == Ok::<_, Fault>(n));
    assert(m2.target(link, (fuel - 1) as nat) == Ok::<_, Fault>(n));
    assert(m2.target(path, fuel) == Ok::<_, Fault>(n));
}

/// A symbolic link that was made to a directory lists as the directory. It holds the absolute path
/// of what it leads to.
pub proof fn brute_symlink_lists_as_its_target(
    m: Brute,
    known: Set<u64>,
    path: Seq<char>,
    target: Seq<char>,
    opt: WriteOption,
    now: u64,
)
    requires
        brute_grounded(m, known),
        m.parent(path) is Ok ==> m.parent(path)->Ok_0.0.1.kind is Directory,
        m.lookup(path) is Err,
        no_parents(components(target)),
        m.lookup(target) is Ok,
        m.lookup(target)->Ok_0.1.kind is Directory,
        m.link(path, target, opt, now).1 is Ok,
    ensures
        ({
            let m2 = m.link(path, target, opt, now).0;
            let n = m2.lookup(path)->Ok_0.1;
            &&& m2.lookup(path) is Ok
            &&& n.kind is Symlink
            &&& m2.content(n.extent_addr) == Ok::<_, Fault>(
                encode_utf8(absolute(components(target))),
            )
            &&& m2.list(path) == m2.list(target)
        }),
{
    let link = absolute(components(target));
    let data = encode_utf8(link);
    let m2 = m.link(path, target, opt, now).0;
    encode_utf8_valid_utf8(link);
    encode_utf8_decode_utf8(link);
    lemma_other_path(m, target, path);
    let id = lemma_written(m, known, path, data, true, opt, now);
    let parts = components(target);
    lemma_walk_known(m, known, parts, parts.len());
    lemma_walk_carries(m, m2, known, parts, parts.len());
    let at = m.lookup(target)->Ok_0.0;
    assert(known.contains(at));
    let n2 = m2.lookup(target)->Ok_0.1;
    assert(n2.kind is Directory);
    let fuel = m.disk.len();
    normalizing_keeps_components(target);
    assert(m2.lookup(link) == m2.lookup(target));
    assert(fuel > 0) by {
        reveal(brute_grounded);
    }
    assert(m2.target(target, fuel) == Ok::<_, Fault>(n2));
    assert(m2.target(link, (fuel - 1) as nat) == Ok::<_, Fault>(n2));
    assert(m2.target(path, fuel) == Ok::<_, Fault>(n2));
}

} // verus!
