//! When making a directory makes one, when it is refused, and when it succeeds.
use crate::addr::{maybe, MaybeU64};
use crate::codec::lemma_le64;
use crate::error::XHFSError;
use crate::utils::components;
use crate::xhfs::block_laws::{is_block, taken};
use crate::xhfs::chain_laws::{sound_content, stored_data_reads_back};
use crate::xhfs::dir_laws::{
    files_kept, lemma_extends_trans, lemma_make_dir, made_directory_is_there,
};
use crate::xhfs::ds::{
    dir_bytes, entry_rows, lemma_entry_rows_len, name_slot, INodeKind, Node,
};
use crate::xhfs::extent::lemma_aligned;
use crate::xhfs::failure_laws::lemma_replace_content_succeeds;
use crate::xhfs::free_laws::freed_blocks_are_free;
use crate::xhfs::image::{blocks_for, Image};
use crate::xhfs::inode_laws::{
    is_inode, lemma_inode_place, live, new_inode_reads_back, node_of, registered_inode_reads_back,
};
use crate::xhfs::laws::same_volume;
use crate::xhfs::op_laws::{
    extends, grounded, lemma_entries_push, lemma_node_ok, lemma_position, lemma_replace_entries,
    lemma_walk_extends, lemma_walk_live,
};
use crate::xhfs::room_laws::{
    blocks_reach, free_blocks, free_place, inode_is_made_where_one_is_free,
    lemma_store_leaves_stretch, reaches, tables_reach,
};
use crate::xhfs::sound::{
    ext, lemma_inodes_keep, lemma_sound_new_inode, lemma_sound_point, lemma_sound_store, node_ok,
    same_content, sound,
};
use crate::xhfs::tree::{entry_position, Entries};
use crate::xhfs::unlink_laws::lemma_sound_zero;
use crate::xhfs::volume::lemma_format;
use vstd::prelude::*;

verus! {

/// Where every step of a path leads somewhere, nothing is made.
proof fn lemma_mkdir_there(
    m: Image,
    parts: Seq<Seq<char>>,
    k: int,
    created: bool,
    recursive: bool,
    now: u64,
)
    requires
        0 <= k <= parts.len(),
        m.walk(parts, parts.len()) is Ok,
    ensures
        m.walk(parts, k as nat) is Ok,
        m.mkdir_from(parts, k, m.walk(parts, k as nat)->Ok_0, created, recursive, now) == (
            m,
            Ok::<bool, XHFSError>(created),
        ),
    decreases parts.len() - k,
{
    if k < parts.len() {
        lemma_mkdir_there(m, parts, k + 1, created, recursive, now);
        assert(m.walk(parts, (k + 1) as nat) is Ok);
    }
}

/// Making a directory where something is makes none and changes nothing. The root is always there.
pub proof fn mkdir_of_what_is_there_changes_nothing(
    m: Image,
    path: Seq<char>,
    recursive: bool,
    now: u64,
)
    requires
        m.lookup(path) is Ok,
    ensures
        m.mkdir(path, recursive, now) == (m, Ok::<bool, XHFSError>(false)),
{
    lemma_mkdir_there(m, components(path), 0, false, recursive, now);
}

/// Every way along which a path leads somewhere leads through directories.
proof fn lemma_way_of_directories(m: Image, parts: Seq<Seq<char>>, j: nat, k: nat)
    requires
        j < k,
        m.walk(parts, k) is Ok,
    ensures
        m.walk(parts, j) is Ok,
        m.walk(parts, j)->Ok_0.kind is Directory,
    decreases k,
{
    if j + 1 < k {
        lemma_way_of_directories(m, parts, j, (k - 1) as nat);
    }
}

/// A directory is made if and only if nothing was at the path. Afterwards every shorter path leads
/// to a directory, and making the directory again makes none and changes nothing.
///
/// Where something is at the path this holds of every volume, damaged or not. Where something has
/// to be made the volume must be sound: if the entries of a directory on the way lie in a block that
/// is marked free, those of the next one can be stored over them, and the path then leads nowhere.
pub proof fn mkdir_twice_makes_one(
    m: Image,
    path: Seq<char>,
    recursive: bool,
    now: u64,
    again: bool,
    later: u64,
)
    requires
        grounded(m) || m.lookup(path) is Ok,
        m.mkdir(path, recursive, now).1 is Ok,
    ensures
        ({
            let (m2, r) = m.mkdir(path, recursive, now);
            let parts = components(path);
            &&& r->Ok_0 == (m.lookup(path) is Err)
            &&& m2.mkdir(path, again, later) == (m2, Ok::<bool, XHFSError>(false))
            &&& forall|j: nat|
                j < parts.len() ==> (#[trigger] m2.walk(parts, j)) is Ok && m2.walk(
                    parts,
                    j,
                )->Ok_0.kind is Directory
            &&& r->Ok_0 ==> m2.lookup(path)->Ok_0.kind is Directory
        }),
{
    let (m2, r) = m.mkdir(path, recursive, now);
    let parts = components(path);
    if m.lookup(path) is Ok {
        mkdir_of_what_is_there_changes_nothing(m, path, recursive, now);
    } else {
        made_directory_is_there(m, path, recursive, now);
    }
    mkdir_of_what_is_there_changes_nothing(m2, path, again, later);
    assert forall|j: nat| j < parts.len() implies (#[trigger] m2.walk(parts, j)) is Ok && m2.walk(
        parts,
        j,
    )->Ok_0.kind is Directory by {
        lemma_way_of_directories(m2, parts, j, parts.len());
    }
}

/// Without leave to make more than one directory, a path of several parts is refused as soon as
/// one is missing.
proof fn lemma_mkdir_refused(m: Image, parts: Seq<Seq<char>>, k: int, now: u64)
    requires
        0 <= k <= parts.len(),
        parts.len() > 1,
        m.walk(parts, k as nat) is Ok,
        m.walk(parts, parts.len()) is Err,
    ensures
        m.mkdir_from(parts, k, m.walk(parts, k as nat)->Ok_0, false, false, now).0 == m,
        m.mkdir_from(parts, k, m.walk(parts, k as nat)->Ok_0, false, false, now).1 is Err,
    decreases parts.len() - k,
{
    if k < parts.len() && m.walk(parts, (k + 1) as nat) is Ok {
        lemma_mkdir_refused(m, parts, k + 1, now);
    }
}

/// A path of two or more parts that leads nowhere is refused unless the directories that lead to
/// it may be made too. Nothing is made.
pub proof fn mkdir_of_several_parts_is_refused(m: Image, path: Seq<char>, now: u64)
    requires
        components(path).len() > 1,
        m.lookup(path) is Err,
    ensures
        m.mkdir(path, false, now).0 == m,
        m.mkdir(path, false, now).1 is Err,
{
    if m.root() is Ok {
        lemma_mkdir_refused(m, components(path), 0, now);
    }
}

/// Parts that lead somewhere are walked without making anything.
proof fn lemma_mkdir_down(
    m: Image,
    parts: Seq<Seq<char>>,
    j: nat,
    k: nat,
    recursive: bool,
    now: u64,
)
    requires
        j <= k <= parts.len(),
        m.walk(parts, k) is Ok,
    ensures
        m.walk(parts, j) is Ok,
        m.mkdir_from(parts, j as int, m.walk(parts, j)->Ok_0, false, recursive, now)
            == m.mkdir_from(parts, k as int, m.walk(parts, k)->Ok_0, false, recursive, now),
    decreases k - j,
{
    if j < k {
        lemma_mkdir_down(m, parts, j + 1, k, recursive, now);
        lemma_way_of_directories(m, parts, j, k);
        assert(m.walk(parts, j + 1) is Ok);
    }
}

/// The bytes that a directory with `n` entries takes, with the head of its extent.
pub open spec fn dir_size(n: nat) -> int {
    24 + 264 * n as int
}

/// Entries with one more take the bytes of as many.
pub proof fn lemma_dir_size(e: Entries, name: Seq<char>, id: u64)
    requires
        dir_bytes(e.push((name, 0))) is Ok,
    ensures
        dir_bytes(e.push((name, id))) is Ok,
        16 + dir_bytes(e.push((name, id)))->Ok_0.len() == dir_size(e.len() + 1),
{
    let x = e.push((name, 0u64));
    let y = e.push((name, id));
    assert(x.drop_last() =~= y.drop_last());
    lemma_entry_rows_len(y);
    lemma_le64(y.len() as u64);
}

/// Part `j` is the first part of a path that is missing: `node` is the directory that the parts
/// before lead to, and `e` are its entries.
pub open spec fn first_missing(m: Image, path: Seq<char>, j: nat, node: Node, e: Entries) -> bool {
    let parts = components(path);
    &&& j < parts.len()
    &&& m.walk(parts, j) == Ok::<_, XHFSError>(node)
    &&& node.kind is Directory
    &&& m.dir(node.extent_addr) == Ok::<_, XHFSError>(e)
    &&& entry_position(e, parts[j as int]) is None
}

/// Numbers of inodes that are not taken, none of them twice.
pub open spec fn spare_inodes(m: Image, s: Seq<u64>) -> bool {
    &&& s.no_duplicates()
    &&& forall|i: int|
        0 <= i < s.len() ==> is_inode(m, #[trigger] s[i]) && m.inode(s[i]) == Ok::<_, XHFSError>(
            None::<Node>,
        )
}

/// A directory with `n` entries fits into one extent, wherever blocks for it are free.
pub open spec fn entries_fit(m: Image, n: nat) -> bool {
    &&& dir_size(n) <= m.format.data_size()
    &&& blocks_reach(
        m,
        blocks_for(dir_size(n), m.format.block_size_bytes as int),
        dir_size(n),
    )
}

/// The blocks for the entries of `missing` directories that are made one in the other: those of the
/// first parent, which has `n` entries then, and those of each further one, which has one.
pub open spec fn blocks_to_make(m: Image, n: nat, missing: nat) -> int {
    let bs = m.format.block_size_bytes as int;
    blocks_for(dir_size(n), bs) + (missing - 1) * blocks_for(dir_size(1), bs)
}

/// The same format, cipher and length of the disk: what can be reached stays within reach.
pub proof fn lemma_still_reaches(a: Image, b: Image, n: int, size: int)
    requires
        a.format == b.format,
        a.cipher == b.cipher,
        a.disk.len() == b.disk.len(),
    ensures
        tables_reach(a) ==> tables_reach(b),
        blocks_reach(a, n, size) ==> blocks_reach(b, n, size),
{
    if tables_reach(a) {
        assert forall|g: int| 0 <= g < b.format.group_count implies reaches(
            b,
            #[trigger] b.group_at(g) + b.format.data_at(),
        ) by {
            assert(reaches(a, a.group_at(g) + a.format.data_at()));
        }
    }
    if blocks_reach(a, n, size) {
        assert forall|g: int, c: int|
            0 <= g < b.format.group_count && 0 <= c && c + n
                <= b.format.param_data_block_count_per_group implies reaches(
            b,
            #[trigger] b.block_at(g, c) + size,
        ) by {
            assert(reaches(a, a.block_at(g, c) + size));
        }
    }
}

/// Taking over new entries frees blocks and takes none.
pub proof fn lemma_take_over(
    m: Image,
    node: Node,
    addr: MaybeU64,
    now: u64,
    h: int,
    b: int,
    len: int,
)
    requires
        sound(m, seq![addr]),
        live(m, node.inumber),
        node == node_of(m, node.inumber),
        free_blocks(m, h, b, len),
    ensures
        m.replace_content(node, addr, now).1 is Ok,
        free_blocks(m.replace_content(node, addr, now).0, h, b, len),
        m.replace_content(node, addr, now).0.cipher == m.cipher,
{
    let none = Seq::<MaybeU64>::empty();
    let all = seq![addr];
    assert(none.push(addr) =~= all);
    assert(node_ok(m, node.inumber));
    lemma_replace_content_succeeds(m, none, node, addr, now);
    let new = Node { extent_addr: addr, mtime: now, ..node };
    let (m1, r1) = m.register(new, true);
    assert(all[0] == addr);
    lemma_sound_point(m, all, 0, new);
    registered_inode_reads_back(m, new, true);
    lemma_inodes_keep(m, m1);
    let left = all.update(0, ext(m, node.inumber));
    assert(left[0] == node.extent_addr);
    assert(sound_content(m1, left[0]));
    freed_blocks_are_free(m1, node.extent_addr);
    let m2 = m1.free(node.extent_addr).0;
    assert forall|c: int| b <= c < b + len implies !#[trigger] m2.data_bits(h)->Ok_0.get(c) by {
        assert(!m.data_bits(h)->Ok_0.get(c));
        assert(m1.data_bits(h) == m.data_bits(h));
        assert(is_block(m1, h, c));
        assert(!taken(m1, h, c));
        assert(!taken(m2, h, c));
        assert(m2.data_bits(h) is Ok);
    }
}

/// One directory is made where there is room, and takes no more than its own of it.
proof fn lemma_make_one(
    m: Image,
    node: Node,
    e: Entries,
    name: Seq<char>,
    now: u64,
    spare: Seq<u64>,
    h: int,
    b: int,
    len: int,
) -> (r: (Seq<u64>, int))
    requires
        grounded(m),
        live(m, node.inumber),
        node == node_of(m, node.inumber),
        node.kind is Directory,
        m.dir(node.extent_addr) == Ok::<_, XHFSError>(e),
        entry_position(e, name) is None,
        dir_bytes(e.push((name, 0))) is Ok,
        tables_reach(m),
        spare.len() > 0,
        spare_inodes(m, spare),
        entries_fit(m, e.len() + 1),
        free_blocks(m, h, b, len),
        blocks_for(dir_size(e.len() + 1), m.format.block_size_bytes as int) <= len,
    ensures
        ({
            let (m1, r1) = m.new_inode(node.inumber, 0, maybe(0), INodeKind::Directory, now);
            let (m2, r2) = m1.replace_entries(node, e.push((name, r1->Ok_0.inumber)), now);
            &&& r1 is Ok
            &&& r2 is Ok
            &&& m2.cipher == m.cipher
            &&& m2.disk.len() == m.disk.len()
            &&& m2.format == m.format
            &&& r.0.len() == spare.len() - 1
            &&& spare_inodes(m2, r.0)
            &&& free_blocks(
                m2,
                h,
                r.1,
                len - blocks_for(dir_size(e.len() + 1), m.format.block_size_bytes as int),
            )
        }),
{
    let none = Seq::<MaybeU64>::empty();
    let p = node.inumber;
    let n = blocks_for(dir_size(e.len() + 1), m.format.block_size_bytes as int);
    reveal(grounded);
    let (g, i) = (m.inode_group(spare[0]), m.inode_index(spare[0]));
    assert(free_place(m, g, i)) by {
        reveal(Image::inode);
        assert(is_inode(m, spare[0]));
        lemma_inode_place(m, spare[0]);
        assert(m.inode_bits(g) is Ok);
    }
    inode_is_made_where_one_is_free(m, p, 0, maybe(0), INodeKind::Directory, now, g, i);
    let (m1, r1) = m.new_inode(p, 0, maybe(0), INodeKind::Directory, now);
    let id = r1->Ok_0.inumber;
    lemma_sound_zero(m);
    lemma_sound_new_inode(m, none, p, 0, maybe(0), INodeKind::Directory, now);
    new_inode_reads_back(m, p, 0, maybe(0), INodeKind::Directory, now);
    lemma_inodes_keep(m, m1);
    assert(m1.inode(p) == m.inode(p));
    let f = e.push((name, id));
    lemma_dir_size(e, name, id);
    let data = dir_bytes(f)->Ok_0;
    assert(free_blocks(m1, h, b, len)) by {
        assert(m1.data_bits(h) == m.data_bits(h));
        assert forall|c: int| b <= c < b + len implies !#[trigger] m1.data_bits(h)->Ok_0.get(c) by {
            assert(!m.data_bits(h)->Ok_0.get(c));
        }
    }
    lemma_still_reaches(m, m1, n, dir_size(e.len() + 1));
    let c = lemma_store_leaves_stretch(m1, data, h, b, len);
    lemma_sound_store(m1, none, data);
    stored_data_reads_back(m1, data);
    let (m2, r2) = m1.store(data);
    assert(m2.inode(p) == m1.inode(p));
    assert(none.push(r2->Ok_0) =~= seq![r2->Ok_0]);
    lemma_take_over(m2, node, r2->Ok_0, now, h, c, len - n);
    let m3 = m1.replace_entries(node, f, now).0;
    lemma_replace_entries(m1, none, node, f, now);
    let at = if spare.contains(id) {
        spare.index_of(id)
    } else {
        0
    };
    let rest = spare.remove(at);
    assert(spare_inodes(m3, rest)) by {
        assert forall|x: int| 0 <= x < rest.len() implies is_inode(m3, #[trigger] rest[x])
            && m3.inode(rest[x]) == Ok::<_, XHFSError>(None::<Node>) by {
            let y = if x < at {
                x
            } else {
                x + 1
            };
            assert(rest[x] == spare[y]);
            assert(is_inode(m, spare[y]));
            assert(spare[y] != id) by {
                if spare[y] == id {
                    assert(spare.contains(id));
                    assert(spare[at] == id);
                }
            }
            assert(spare[y] != p);
            assert(m1.inode(spare[y]) == m.inode(spare[y]));
            assert(is_inode(m1, spare[y]));
            assert(m3.inode(spare[y]) == m1.inode(spare[y]));
        }
        assert(rest.no_duplicates()) by {
            assert forall|x: int, y: int|
                0 <= x < rest.len() && 0 <= y < rest.len() && x != y implies rest[x] != rest[y] by {
                assert(rest[x] == spare[if x < at {
                    x
                } else {
                    x + 1
                }]);
                assert(rest[y] == spare[if y < at {
                    y
                } else {
                    y + 1
                }]);
            }
        }
    }
    (rest, c)
}

/// Making the directories of a path from its first missing part on.
proof fn lemma_mkdir_rest(
    m: Image,
    path: Seq<char>,
    created: bool,
    recursive: bool,
    now: u64,
    j: nat,
    node: Node,
    e: Entries,
    spare: Seq<u64>,
    h: int,
    b: int,
)
    requires
        grounded(m),
        recursive || components(path).len() == 1,
        first_missing(m, path, j, node, e),
        dir_bytes(e.push((components(path)[j as int], 0))) is Ok,
        forall|k: int|
            j < k < components(path).len() ==> name_slot(#[trigger] components(path)[k]) is Ok,
        tables_reach(m),
        entries_fit(m, e.len() + 1),
        j + 1 < components(path).len() ==> entries_fit(m, 1),
        spare.len() == components(path).len() - j,
        spare_inodes(m, spare),
        free_blocks(m, h, b, blocks_to_make(m, e.len() + 1, spare.len())),
    ensures
        m.mkdir_from(components(path), j as int, node, created, recursive, now).1 == Ok::<
            bool,
            XHFSError,
        >(true),
    decreases components(path).len() - j,
{
    let parts = components(path);
    let name = parts[j as int];
    let bs = m.format.block_size_bytes as int;
    let more = (spare.len() - 1) as int;
    let one = blocks_for(dir_size(1), bs);
    let n = blocks_for(dir_size(e.len() + 1), bs);
    lemma_walk_live(m, parts, j);
    assert(bs > 0) by {
        reveal(grounded);
        lemma_format(m);
    }
    lemma_aligned(dir_size(1), bs);
    assert(more * one >= 0) by (nonlinear_arith)
        requires
            more >= 0,
            one >= 0,
    ;
    let r = lemma_make_one(m, node, e, name, now, spare, h, b, n + more * one);
    let (m1, r1) = m.new_inode(node.inumber, 0, maybe(0), INodeKind::Directory, now);
    let new = r1->Ok_0;
    let m2 = m1.replace_entries(node, e.push((name, new.inumber)), now).0;
    let id = lemma_make_dir(m, node, name, now);
    if j + 1 < parts.len() {
        let empty: Entries = Seq::empty();
        let next = parts[j as int + 1];
        lemma_walk_extends(m, m2, parts, j);
        lemma_entries_push(e, name, id);
        assert(m2.walk(parts, j + 1) == Ok::<_, XHFSError>(new));
        lemma_still_reaches(m, m2, one, dir_size(1));
        assert(dir_bytes(empty.push((next, 0))) is Ok) by {
            assert(name_slot(parts[j as int + 1]) is Ok);
            assert(empty.push((next, 0u64)).drop_last() =~= empty);
            reveal_with_fuel(entry_rows, 2);
        }
        assert(more * one == one + (more - 1) * one) by (nonlinear_arith);
        lemma_mkdir_rest(m2, path, true, recursive, now, j + 1, new, empty, r.0, h, r.1);
    }
    assert(m2.mkdir_from(parts, j as int + 1, new, true, recursive, now).1 == Ok::<
        bool,
        XHFSError,
    >(true));
}

/// A directory is made, with those that lead to it if that is allowed, where the names can be
/// stored and there is room: as many inodes are not taken as parts are missing, and enough blocks
/// are free next to one another.
///
/// This is said of sound volumes. On a damaged one it fails though there is room where the bitmap
/// of an earlier group cannot be read: the search for room ends there.
pub proof fn mkdir_succeeds_with_room(
    m: Image,
    path: Seq<char>,
    recursive: bool,
    now: u64,
    j: nat,
    node: Node,
    e: Entries,
    spare: Seq<u64>,
    h: int,
    b: int,
)
    requires
        grounded(m),
        recursive || components(path).len() == 1,
        first_missing(m, path, j, node, e),
        dir_bytes(e.push((components(path)[j as int], 0))) is Ok,
        forall|k: int|
            j < k < components(path).len() ==> name_slot(#[trigger] components(path)[k]) is Ok,
        tables_reach(m),
        entries_fit(m, e.len() + 1),
        j + 1 < components(path).len() ==> entries_fit(m, 1),
        spare.len() == components(path).len() - j,
        spare_inodes(m, spare),
        free_blocks(m, h, b, blocks_to_make(m, e.len() + 1, spare.len())),
    ensures
        m.mkdir(path, recursive, now).1 == Ok::<bool, XHFSError>(true),
{
    lemma_mkdir_down(m, components(path), 0, j, recursive, now);
    lemma_mkdir_rest(m, path, false, recursive, now, j, node, e, spare, h, b);
    assert(m.walk(components(path), 0) == m.root());
}

/// Part `k` of a path cannot be walked or made: what the parts before lead to is no directory, or
/// cannot be read, or has no room for it.
pub open spec fn stuck(m: Image, parts: Seq<Seq<char>>, k: nat, now: u64) -> bool {
    &&& m.walk(parts, k) is Ok
    &&& {
        let node = m.walk(parts, k)->Ok_0;
        ||| !(node.kind is Directory)
        ||| m.dir(node.extent_addr) is Err
        ||| {
            let e = m.dir(node.extent_addr)->Ok_0;
            match entry_position(e, parts[k as int]) {
                Some(i) => m.entry_inode(e[i].1) is Err,
                None => {
                    let (m1, r1) = m.new_inode(
                        node.inumber,
                        0,
                        maybe(0),
                        INodeKind::Directory,
                        now,
                    );
                    ||| r1 is Err
                    ||| m1.store_entries(e.push((parts[k as int], r1->Ok_0.inumber))).1 is Err
                },
            }
        }
    }
}

/// Making directories from part `k` on stops where it is stuck.
proof fn lemma_mkdir_stuck(
    m: Image,
    parts: Seq<Seq<char>>,
    k: int,
    node: Node,
    created: bool,
    recursive: bool,
    now: u64,
) -> (r: (Image, nat))
    requires
        grounded(m),
        recursive || parts.len() <= 1,
        0 <= k <= parts.len(),
        m.walk(parts, k as nat) == Ok::<_, XHFSError>(node),
        m.mkdir_from(parts, k, node, created, recursive, now).1 is Err,
    ensures
        grounded(r.0),
        same_volume(m, r.0),
        extends(m, r.0),
        files_kept(m, r.0),
        r.1 < parts.len(),
        stuck(r.0, parts, r.1, now),
    decreases parts.len() - k,
{
    lemma_walk_live(m, parts, k as nat);
    lemma_kept_self(m);
    if stuck(m, parts, k as nat, now) {
        (m, k as nat)
    } else {
        let p = node.inumber;
        let e = m.dir(node.extent_addr)->Ok_0;
        let name = parts[k];
        lemma_position(e, name);
        match entry_position(e, name) {
            Some(i) => {
                let next = m.entry_inode(e[i].1)->Ok_0;
                assert(m.walk(parts, (k + 1) as nat) == Ok::<_, XHFSError>(next));
                lemma_mkdir_stuck(m, parts, k + 1, next, created, recursive, now)
            },
            None => {
                let (m1, r1) = m.new_inode(p, 0, maybe(0), INodeKind::Directory, now);
                let new = r1->Ok_0;
                let f = e.push((name, new.inumber));
                let none = Seq::<MaybeU64>::empty();
                assert(m1.replace_entries(node, f, now).1 is Ok) by {
                    reveal(grounded);
                    lemma_sound_zero(m);
                    lemma_sound_new_inode(m, none, p, 0, maybe(0), INodeKind::Directory, now);
                    let data = dir_bytes(f)->Ok_0;
                    lemma_sound_store(m1, none, data);
                    let (m2, r2) = m1.store(data);
                    assert(m1.inode(p) == m.inode(p));
                    assert(m2.inode(p) == m1.inode(p));
                    lemma_replace_content_succeeds(m2, none, node, r2->Ok_0, now);
                }
                let m2 = m1.replace_entries(node, f, now).0;
                let id = lemma_make_dir(m, node, name, now);
                lemma_walk_extends(m, m2, parts, k as nat);
                lemma_entries_push(e, name, id);
                assert(m2.walk(parts, (k + 1) as nat) == Ok::<_, XHFSError>(new));
                let r = lemma_mkdir_stuck(m2, parts, k + 1, new, true, recursive, now);
                lemma_extends_trans(m, m2, r.0);
                assert forall|n: u64| #[trigger]
                    live(m, n) && !(node_of(m, n).kind is Directory) implies live(r.0, n)
                    && node_of(r.0, n) == node_of(m, n) && same_content(m, r.0, ext(m, n)) by {
                    assert(live(m2, n) && node_of(m2, n) == node_of(m, n));
                    assert(same_content(m, m2, ext(m, n)));
                    assert(same_content(m2, r.0, ext(m2, n)));
                }
                r
            },
        }
    }
}

proof fn lemma_kept_self(m: Image)
    requires
        grounded(m),
    ensures
        extends(m, m),
        files_kept(m, m),
{
    reveal(extends);
    assert forall|n: u64| #[trigger] live(m, n) implies same_content(m, m, ext(m, n)) by {
        lemma_node_ok(m, n);
    }
}

/// Making a directory and those that lead to it fails for no other cause than these: a part on the
/// way is no directory or cannot be read, a name cannot be stored, or inodes or blocks ran out. So
/// it succeeds where every part that is there is a directory and there is room enough.
///
/// A damaged volume adds a cause: if a block that the entries of a directory on the way lie in is
/// marked free, a directory that is made can overwrite them, and the next step is lost.
pub proof fn mkdir_fails_only_where_it_is_stuck(
    m: Image,
    path: Seq<char>,
    recursive: bool,
    now: u64,
) -> (r: (Image, nat))
    requires
        grounded(m),
        m.root() is Ok,
        recursive || components(path).len() <= 1,
        m.mkdir(path, recursive, now).1 is Err,
    ensures
        grounded(r.0),
        same_volume(m, r.0),
        extends(m, r.0),
        files_kept(m, r.0),
        r.1 < components(path).len(),
        stuck(r.0, components(path), r.1, now),
{
    lemma_mkdir_stuck(m, components(path), 0, m.root()->Ok_0, false, recursive, now)
}

} // verus!
