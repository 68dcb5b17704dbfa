//! Removing entries, seen through paths.
use crate::addr::{maybe, MaybeU64};
use crate::error::{Fault, XHFSError};
use crate::utils::components;
use crate::xhfs::chain_laws::{owned, places, sound_content, uses};
use crate::xhfs::ds::Node;
use crate::xhfs::image::Image;
use crate::xhfs::inode_laws::{is_inode, live, node_of};
use crate::xhfs::laws::{head, same_volume};
use crate::xhfs::op_laws::{
    good_entries, grounded, lemma_good, lemma_lookup_again, lemma_lookup_split, lemma_node_ok,
    lemma_position, lemma_position_unique, lemma_replace_entries, lemma_walk_live,
};
use crate::xhfs::sound::{
    ext, lemma_sound_drop_link, lemma_sound_replace, node_ok, same_content, sound,
};
use crate::xhfs::tree::{entry_position, Entries};
use vstd::prelude::*;

verus! {

/// Every number of the stack belongs to an inode.
pub open spec fn stack_ok(m: Image, stack: Seq<u64>) -> bool {
    forall|k: int| 0 <= k < stack.len() ==> is_inode(m, #[trigger] stack[k])
}

/// Inodes outside of `gone` are as before, with their contents; those in it are gone or differ
/// in their link count only.
pub open spec fn dropped(m: Image, m2: Image, gone: Seq<u64>) -> bool {
    &&& m2.format == m.format
    &&& m2.disk.len() == m.disk.len()
    &&& head(m2) == head(m)
    &&& forall|n: u64| is_inode(m, n) && !gone.contains(n) ==> #[trigger] m2.inode(n) == m.inode(n)
    &&& forall|n: u64|
        #[trigger] live(m2, n) ==> live(m, n) && node_of(m2, n) == (Node {
            nlink: node_of(m2, n).nlink,
            ..node_of(m, n)
        }) && same_content(m, m2, ext(m, n))
}

/// The inode and the inodes that it stands for as a hard link.
pub open spec fn removed_with(m: Image, id: u64) -> Seq<u64> {
    m.link_chain(seq![id], id, m.disk.len())->Ok_0
}

pub proof fn lemma_drop_links(m: Image, stack: Seq<u64>)
    requires
        sound(m, Seq::empty()),
        stack_ok(m, stack),
        m.drop_links(stack).1 is Ok,
    ensures
        sound(m.drop_links(stack).0, Seq::empty()),
        dropped(m, m.drop_links(stack).0, stack),
    decreases stack.len(),
{
    if stack.len() > 0 {
        let top = stack.last();
        let rest = stack.drop_last();
        assert(is_inode(m, stack[stack.len() - 1]));
        lemma_sound_drop_link(m, top);
        let m1 = m.drop_link(top).0;
        assert forall|k: int| 0 <= k < rest.len() implies is_inode(m1, #[trigger] rest[k]) by {
            assert(is_inode(m, stack[k]));
        }
        lemma_drop_links(m1, rest);
        let m2 = m.drop_links(stack).0;
        assert forall|n: u64| is_inode(m, n) && !stack.contains(n) implies #[trigger] m2.inode(n)
            == m.inode(n) by {
            assert(n != top) by {
                assert(stack[stack.len() - 1] == top);
            }
            assert(!rest.contains(n)) by {
                if rest.contains(n) {
                    let k = choose|k: int| 0 <= k < rest.len() && rest[k] == n;
                    assert(stack[k] == n);
                }
            }
            assert(is_inode(m1, n));
            assert(m1.inode(n) == m.inode(n));
        }
        assert forall|n: u64| #[trigger] live(m2, n) implies live(m, n) && node_of(m2, n) == (Node {
            nlink: node_of(m2, n).nlink,
            ..node_of(m, n)
        }) && same_content(m, m2, ext(m, n)) by {
            assert(live(m1, n));
            assert(is_inode(m, n));
            if n != top {
                assert(m1.inode(n) == m.inode(n));
            }
            assert(live(m, n));
            assert(same_content(m, m1, ext(m, n)));
            assert(same_content(m1, m2, ext(m1, n)));
        }
    } else {
        assert forall|n: u64| #[trigger] live(m, n) implies same_content(m, m, ext(m, n)) by {
            assert(node_ok(m, n));
        }
    }
}

/// Each inode of a stack loses one link: one that has more keeps the rest, with its content, and
/// any other is gone.
pub open spec fn one_link_less(m: Image, m2: Image, gone: Seq<u64>) -> bool {
    &&& forall|n: u64|
        #[trigger] gone.contains(n) ==> m2.inode(n) == Ok::<_, XHFSError>(
            if live(m, n) && node_of(m, n).nlink > 1 {
                Some(Node { nlink: (node_of(m, n).nlink - 1) as u64, ..node_of(m, n) })
            } else {
                None::<Node>
            },
        )
    &&& forall|n: u64|
        #[trigger] live(m, n) && (!gone.contains(n) || node_of(m, n).nlink > 1) ==> same_content(
            m,
            m2,
            ext(m, n),
        )
}

proof fn lemma_drop_each(m: Image, stack: Seq<u64>)
    requires
        sound(m, Seq::empty()),
        stack_ok(m, stack),
        stack.no_duplicates(),
        m.drop_links(stack).1 is Ok,
    ensures
        one_link_less(m, m.drop_links(stack).0, stack),
    decreases stack.len(),
{
    if stack.len() > 0 {
        let top = stack.last();
        let rest = stack.drop_last();
        assert(is_inode(m, stack[stack.len() - 1]));
        lemma_sound_drop_link(m, top);
        let m1 = m.drop_link(top).0;
        assert forall|k: int| 0 <= k < rest.len() implies is_inode(m1, #[trigger] rest[k]) by {
            assert(is_inode(m, stack[k]));
        }
        assert(!rest.contains(top)) by {
            if rest.contains(top) {
                let k = choose|k: int| 0 <= k < rest.len() && rest[k] == top;
                assert(stack[k] == stack[stack.len() - 1]);
            }
        }
        lemma_drop_links(m1, rest);
        lemma_drop_each(m1, rest);
        let m2 = m.drop_links(stack).0;
        assert forall|n: u64| stack.contains(n) && n != top implies rest.contains(n) by {
            let k = choose|k: int| 0 <= k < stack.len() && stack[k] == n;
            assert(rest[k] == n);
        }
        assert forall|n: u64| rest.contains(n) implies stack.contains(n) by {
            let k = choose|k: int| 0 <= k < rest.len() && rest[k] == n;
            assert(stack[k] == n);
        }
        assert(stack.contains(top)) by {
            assert(stack[stack.len() - 1] == top);
        }
        assert forall|n: u64| #[trigger] stack.contains(n) implies m2.inode(n) == Ok::<
            _,
            XHFSError,
        >(
            if live(m, n) && node_of(m, n).nlink > 1 {
                Some(Node { nlink: (node_of(m, n).nlink - 1) as u64, ..node_of(m, n) })
            } else {
                None::<Node>
            },
        ) by {
            let k = choose|k: int| 0 <= k < stack.len() && stack[k] == n;
            assert(is_inode(m, stack[k]));
            assert(is_inode(m1, n));
            if n != top {
                assert(rest.contains(n));
                assert(m1.inode(n) == m.inode(n));
            } else {
                assert(m2.inode(n) == m1.inode(n));
            }
        }
        assert forall|n: u64|
            #[trigger] live(m, n) && (!stack.contains(n) || node_of(m, n).nlink
                > 1) implies same_content(m, m2, ext(m, n)) by {
            assert(same_content(m, m1, ext(m, n)));
            if n != top {
                assert(m1.inode(n) == m.inode(n));
            }
            assert(live(m1, n));
            assert(ext(m1, n) == ext(m, n));
            if rest.contains(n) {
                assert(node_of(m1, n).nlink > 1);
            }
            assert(same_content(m1, m2, ext(m1, n)));
        }
    } else {
        assert forall|n: u64| #[trigger] live(m, n) implies same_content(m, m, ext(m, n)) by {
            assert(node_ok(m, n));
        }
    }
}

/// No inode is twice in a chain of hard links.
proof fn lemma_chain_once(m: Image, stack: Seq<u64>, cur: u64, fuel: nat)
    requires
        stack.no_duplicates(),
        m.link_chain(stack, cur, fuel) is Ok,
    ensures
        m.link_chain(stack, cur, fuel)->Ok_0.no_duplicates(),
    decreases fuel,
{
    if m.inode(cur)->Ok_0 is Some && m.inode(cur)->Ok_0->0.kind is Hardlink {
        let target = m.follow(m.inode(cur)->Ok_0->0)->Ok_0;
        let next = stack.push(target.inumber);
        assert forall|i: int, j: int|
            0 <= i < next.len() && 0 <= j < next.len() && i != j implies next[i] != next[j] by {
            if i < stack.len() && j == stack.len() {
                assert(stack.contains(next[i]));
            }
            if j < stack.len() && i == stack.len() {
                assert(stack.contains(next[j]));
            }
        }
        lemma_chain_once(m, next, target.inumber, (fuel - 1) as nat);
    }
}

/// Step `j` of a walk leads from one inode to the next on the second disk too.
pub open spec fn step_kept(m: Image, m2: Image, parts: Seq<Seq<char>>, j: int) -> bool {
    m2.child(node_of(m2, m.walk(parts, j as nat)->Ok_0.inumber), parts[j], j) == Ok::<_, XHFSError>(
        node_of(m2, m.walk(parts, (j + 1) as nat)->Ok_0.inumber),
    )
}

/// Each step of a walk leads from one inode to the next.
pub open spec fn steps(m: Image, m2: Image, parts: Seq<Seq<char>>, k: nat) -> bool {
    &&& live(m2, 1)
    &&& forall|j: int| 0 <= j < k ==> #[trigger] step_kept(m, m2, parts, j)
}

/// A walk that can be made step by step can be made.
pub proof fn lemma_steps(m: Image, m2: Image, parts: Seq<Seq<char>>, k: nat)
    requires
        grounded(m),
        m.walk(parts, k) is Ok,
        steps(m, m2, parts, k),
    ensures
        m2.walk(parts, k) == Ok::<_, XHFSError>(node_of(m2, m.walk(parts, k)->Ok_0.inumber)),
    decreases k,
{
    lemma_walk_live(m, parts, k);
    if k > 0 {
        lemma_steps(m, m2, parts, (k - 1) as nat);
        assert(step_kept(m, m2, parts, k - 1));
    }
}

/// The entries that are left when one is taken out.
pub proof fn lemma_removed(m: Image, e: Entries, i: int)
    requires
        good_entries(m, e),
        0 <= i < e.len(),
    ensures
        good_entries(m, e.remove(i)),
        entry_position(e.remove(i), e[i].0) is None,
        forall|x: Seq<char>|
            x != e[i].0 && (#[trigger] entry_position(e, x)) is Some ==> entry_position(
                e.remove(i),
                x,
            ) is Some && e.remove(i)[entry_position(e.remove(i), x)->0].1 == e[entry_position(
                e,
                x,
            )->0].1,
{
    let r = e.remove(i);
    assert forall|a: int| 0 <= a < r.len() implies (#[trigger] r[a]) == e[if a < i {
        a
    } else {
        a + 1
    }] by {}
    lemma_position(r, e[i].0);
    assert forall|a: int, b: int| 0 <= a < r.len() && 0 <= b < r.len() && a != b implies (
    #[trigger] r[a]).0 != (#[trigger] r[b]).0 by {
        let x = if a < i {
            a
        } else {
            a + 1
        };
        let y = if b < i {
            b
        } else {
            b + 1
        };
        assert(e[x].0 != e[y].0);
    }
    assert forall|a: int| 0 <= a < r.len() implies is_inode(m, (#[trigger] r[a]).1) by {
        let x = if a < i {
            a
        } else {
            a + 1
        };
        assert(is_inode(m, e[x].1));
    }
    if entry_position(r, e[i].0) is Some {
        let a = entry_position(r, e[i].0)->0;
        let x = if a < i {
            a
        } else {
            a + 1
        };
        assert(r[a] == e[x]);
        assert(e[x].0 != e[i].0);
    }
    assert forall|x: Seq<char>|
        x != e[i].0 && (#[trigger] entry_position(e, x)) is Some implies entry_position(r, x) is Some
        && r[entry_position(r, x)->0].1 == e[entry_position(e, x)->0].1 by {
        lemma_position(e, x);
        lemma_position(r, x);
        let j = entry_position(e, x)->0;
        let a = if j < i {
            j
        } else {
            j - 1
        };
        assert(j != i);
        assert(r[a] == e[j]);
        let b = entry_position(r, x)->0;
        let y = if b < i {
            b
        } else {
            b + 1
        };
        assert(r[b] == e[y]);
        if y != j {
            assert(e[y].0 != e[j].0);
        }
    }
}

/// The inodes that an entry stands for can be removed: they have numbers of inodes, and a hard
/// link does not stand for a directory.
pub open spec fn removable_links(m: Image, n: u64) -> bool {
    let s = m.link_chain(seq![n], n, m.disk.len());
    s is Ok ==> stack_ok(m, s->Ok_0) && s->Ok_0.contains(n) && forall|k: int|
        0 <= k < s->Ok_0.len() && (#[trigger] s->Ok_0[k]) != n && live(m, s->Ok_0[k]) ==> !(
        node_of(m, s->Ok_0[k]).kind is Directory)
}

/// What an inode that is removed leaves behind.
pub proof fn lemma_unlink_entry(m: Image, parent: Node, e: Entries, i: int, now: u64)
    requires
        grounded(m),
        live(m, parent.inumber),
        parent == node_of(m, parent.inumber),
        parent.kind is Directory,
        m.dir(parent.extent_addr) == Ok::<_, XHFSError>(e),
        0 <= i < e.len(),
        live(m, e[i].1),
        removable_links(m, e[i].1),
        m.unlink_entry(parent, e.remove(i), node_of(m, e[i].1), now).1 is Ok,
    ensures
        ({
            let m2 = m.unlink_entry(parent, e.remove(i), node_of(m, e[i].1), now).0;
            let p = parent.inumber;
            &&& grounded(m2)
            &&& same_volume(m, m2)
            &&& live(m2, p)
            &&& p != e[i].1
            &&& forall|n: u64|
                #[trigger] live(m, n) && n != p && !removed_with(m, e[i].1).contains(n) ==> live(
                    m2,
                    n,
                ) && node_of(m2, n) == node_of(m, n) && same_content(m, m2, ext(m, n))
            &&& node_of(m2, p).kind is Directory
            &&& node_of(m2, p) == (Node { extent_addr: ext(m2, p), mtime: now, ..parent })
            &&& forall|n: u64|
                #[trigger] removed_with(m, e[i].1).contains(n) ==> m2.inode(n) == Ok::<
                    _,
                    XHFSError,
                >(
                    if live(m, n) && node_of(m, n).nlink > 1 {
                        Some(Node { nlink: (node_of(m, n).nlink - 1) as u64, ..node_of(m, n) })
                    } else {
                        None::<Node>
                    },
                )
            &&& forall|n: u64|
                #[trigger] removed_with(m, e[i].1).contains(n) && live(m, n) && node_of(m, n).nlink
                    > 1 ==> same_content(m, m2, ext(m, n))
            &&& !removed_with(m, e[i].1).contains(p)
            &&& m2.dir(ext(m2, p)) == Ok::<_, XHFSError>(e.remove(i))
            &&& node_of(m, e[i].1).kind is Directory ==> m.dir(ext(m, e[i].1)) == Ok::<
                Entries,
                XHFSError,
            >(Seq::empty())
            &&& forall|n: u64|
                #[trigger] live(m, n) && n != p && n != e[i].1 && node_of(m, n).kind is Directory
                    ==> live(m2, n) && node_of(m2, n) == node_of(m, n) && same_content(
                    m,
                    m2,
                    ext(m, n),
                )
        }),
{
    reveal(Image::content);
    let p = parent.inumber;
    let id = e[i].1;
    let rest = e.remove(i);
    let node = node_of(m, id);
    let none = Seq::<MaybeU64>::empty();
    lemma_node_ok(m, id);
    lemma_node_ok(m, p);
    lemma_good(m, p);
    lemma_removed(m, e, i);
    if node.kind is Directory {
        let d = m.dir(ext(m, id))->Ok_0;
        assert(d.len() == 0);
        assert(d =~= Seq::empty());
    }
    assert(p != id);
    let stack = m.link_chain(seq![id], id, m.disk.len())->Ok_0;
    reveal(grounded);
    lemma_drop_links(m, stack);
    lemma_chain_once(m, seq![id], id, m.disk.len());
    lemma_drop_each(m, stack);
    let m1 = m.drop_links(stack).0;
    assert(!stack.contains(p)) by {
        if stack.contains(p) {
            let k = choose|k: int| 0 <= k < stack.len() && stack[k] == p;
            assert(stack[k] != id);
        }
    }
    assert(m1.inode(p) == m.inode(p));
    assert(live(m1, p));
    let m2 = m.unlink_entry(parent, rest, node, now).0;
    if rest.len() == 0 {
        assert(rest =~= Seq::empty());
        assert(sound(m1, none.push(maybe(0)))) by {
            lemma_sound_zero(m1);
        }
        lemma_sound_replace(m1, none, parent, maybe(0), now);
    } else {
        lemma_replace_entries(m1, none, parent, rest, now);
    }
    assert forall|n: u64| #[trigger] stack.contains(n) implies m2.inode(n) == Ok::<_, XHFSError>(
        if live(m, n) && node_of(m, n).nlink > 1 {
            Some(Node { nlink: (node_of(m, n).nlink - 1) as u64, ..node_of(m, n) })
        } else {
            None::<Node>
        },
    ) by {
        let k = choose|k: int| 0 <= k < stack.len() && stack[k] == n;
        assert(is_inode(m, stack[k]));
        assert(is_inode(m1, n));
        assert(n != p);
        assert(m2.inode(n) == m1.inode(n));
    }
    assert forall|n: u64|
        #[trigger] stack.contains(n) && live(m, n) && node_of(m, n).nlink > 1 implies same_content(
        m,
        m2,
        ext(m, n),
    ) by {
        assert(live(m, n));
        assert(same_content(m, m1, ext(m, n)));
        assert(live(m1, n));
        assert(ext(m1, n) == ext(m, n));
        assert(n != p);
        assert(same_content(m1, m2, ext(m1, n)));
    }
    assert forall|n: u64| #[trigger] live(m, n) && n != p && !stack.contains(n) implies live(m2, n)
        && node_of(m2, n) == node_of(m, n) && same_content(m, m2, ext(m, n)) by {
        assert(m1.inode(n) == m.inode(n));
        assert(live(m1, n));
        assert(same_content(m, m1, ext(m, n)));
        assert(m2.inode(n) == m1.inode(n));
        assert(same_content(m1, m2, ext(m1, n)));
    }
    assert forall|n: u64|
        #[trigger] live(m, n) && n != p && n != id && node_of(m, n).kind is Directory implies live(
        m2,
        n,
    ) && node_of(m2, n) == node_of(m, n) && same_content(m, m2, ext(m, n)) by {
        assert(!stack.contains(n)) by {
            if stack.contains(n) {
                let k = choose|k: int| 0 <= k < stack.len() && stack[k] == n;
                assert(stack[k] != id);
            }
        }
    }
    assert forall|n: u64|
        #[trigger] live(m2, n) && node_of(m2, n).kind is Directory && m2.dir(
            ext(m2, n),
        ) is Ok implies good_entries(m2, m2.dir(ext(m2, n))->Ok_0) by {
        if n != p {
            assert(is_inode(m1, n));
            assert(m2.inode(n) == m1.inode(n));
            assert(live(m1, n));
            assert(same_content(m1, m2, ext(m1, n)));
            assert(live(m, n));
            assert(same_content(m, m1, ext(m, n)));
            assert(good_entries(m, m.dir(ext(m, n))->Ok_0));
        }
        let d = m2.dir(ext(m2, n))->Ok_0;
        assert(good_entries(m, d));
        assert forall|a: int| 0 <= a < d.len() implies is_inode(m2, (#[trigger] d[a]).1) by {
            assert(is_inode(m, d[a].1));
        }
    }
}

/// No content at all is sound and shares no block with anything.
pub proof fn lemma_sound_zero(m: Image)
    requires
        sound(m, Seq::empty()),
    ensures
        sound(m, Seq::<MaybeU64>::empty().push(maybe(0))),
{
    reveal(Image::content);
    let all = Seq::<MaybeU64>::empty().push(maybe(0));
    let none = places(m, maybe(0));
    assert(none =~= Seq::empty());
    assert forall|g: int, b: int| !(#[trigger] uses(m, none, g, b)) by {}
    assert(owned(m, none));
    assert(sound_content(m, all[0]));
}

/// A path that was removed leads nowhere. Files and links are as before, with their contents, but
/// for what was at the path and what that stood for as a hard link.
pub proof fn unlinked_path_is_gone(m: Image, path: Seq<char>, now: u64)
    requires
        grounded(m),
        m.unlink(path, now).1 is Ok,
        m.parent(path)->Ok_0.0.kind is Directory,
        m.lookup(path) is Ok ==> removable_links(m, m.lookup(path)->Ok_0.inumber),
    ensures
        m.lookup(path) is Ok,
        m.unlink(path, now).0.lookup(path) == Err::<Node, _>(
            XHFSError::Error { err: Fault::PathMissing { depth: components(path).len() as u64 } },
        ),
        grounded(m.unlink(path, now).0),
        same_volume(m, m.unlink(path, now).0),
        forall|n: u64|
            #[trigger] live(m, n) && !(node_of(m, n).kind is Directory) && !removed_with(
                m,
                m.lookup(path)->Ok_0.inumber,
            ).contains(n) ==> live(m.unlink(path, now).0, n) && node_of(m.unlink(path, now).0, n)
                == node_of(m, n) && same_content(m, m.unlink(path, now).0, ext(m, n)),
{
    lemma_lookup_split(m, path);
    let parts = components(path);
    let k = (parts.len() - 1) as nat;
    let (parent, name) = m.parent(path)->Ok_0;
    let p = parent.inumber;
    lemma_walk_live(m, parts, k);
    let e = m.dir(parent.extent_addr)->Ok_0;
    lemma_position(e, name);
    lemma_good(m, p);
    let i = entry_position(e, name)->0;
    let id = e[i].1;
    assert(is_inode(m, id));
    assert(live(m, id));
    lemma_node_ok(m, id);
    lemma_lookup_again(m, path, parent);
    let m2 = m.unlink(path, now).0;
    lemma_unlink_entry(m, parent, e, i, now);
    lemma_removed(m, e, i);
    lemma_unlink_steps(m, m2, parts, k, parent, e, i);
    lemma_steps(m, m2, parts, k);
    lemma_lookup_again(m2, path, node_of(m2, p));
}

proof fn lemma_unlink_steps(
    m: Image,
    m2: Image,
    parts: Seq<Seq<char>>,
    k: nat,
    parent: Node,
    e: Entries,
    i: int,
)
    requires
        grounded(m),
        grounded(m2),
        m.walk(parts, k) == Ok::<_, XHFSError>(parent),
        parent.kind is Directory,
        m.dir(parent.extent_addr) == Ok::<_, XHFSError>(e),
        0 <= i < e.len(),
        live(m2, parent.inumber),
        parent.inumber != e[i].1,
        node_of(m2, parent.inumber).kind is Directory,
        m2.dir(ext(m2, parent.inumber)) == Ok::<_, XHFSError>(e.remove(i)),
        live(m, e[i].1),
        node_of(m, e[i].1).kind is Directory ==> m.dir(ext(m, e[i].1)) == Ok::<Entries, XHFSError>(
            Seq::empty(),
        ),
        forall|n: u64|
            #[trigger] live(m, n) && n != parent.inumber && n != e[i].1 && node_of(
                m,
                n,
            ).kind is Directory ==> live(m2, n) && node_of(m2, n) == node_of(m, n) && same_content(
                m,
                m2,
                ext(m, n),
            ),
    ensures
        steps(m, m2, parts, k),
{
    let p = parent.inumber;
    let id = e[i].1;
    lemma_walk_live(m, parts, k);
    lemma_good(m, p);
    lemma_removed(m, e, i);
    assert forall|j: int| 0 <= j < k implies #[trigger] step_kept(m, m2, parts, j) by {
        lemma_walk_down(m, parts, j as nat, k);
        lemma_walk_live(m, parts, j as nat);
        lemma_walk_down(m, parts, (j + 1) as nat, k);
        lemma_walk_live(m, parts, (j + 1) as nat);
        let n = m.walk(parts, j as nat)->Ok_0.inumber;
        let next = m.walk(parts, (j + 1) as nat)->Ok_0.inumber;
        lemma_on_the_way(m, m2, parts, k, parent, e, i, j);
        lemma_on_the_way(m, m2, parts, k, parent, e, i, j + 1);
        let d = m.dir(ext(m, n))->Ok_0;
        lemma_position(d, parts[j]);
        lemma_good(m, n);
        let x = entry_position(d, parts[j])->0;
        assert(is_inode(m, d[x].1));
        assert(live(m, d[x].1));
        lemma_node_ok(m, d[x].1);
        assert(d[x].1 == next);
        if n == p {
            assert(d == e);
            assert(parts[j] != e[i].0) by {
                if parts[j] == e[i].0 {
                    lemma_position_unique(m, e, i);
                }
            }
        }
    }
    lemma_walk_down(m, parts, 0, k);
    lemma_walk_live(m, parts, 0);
    lemma_on_the_way(m, m2, parts, k, parent, e, i, 0);
}

/// An inode on the way to the parent is a directory that is still there.
proof fn lemma_on_the_way(
    m: Image,
    m2: Image,
    parts: Seq<Seq<char>>,
    k: nat,
    parent: Node,
    e: Entries,
    i: int,
    j: int,
)
    requires
        grounded(m),
        m.walk(parts, k) == Ok::<_, XHFSError>(parent),
        parent.kind is Directory,
        m.dir(parent.extent_addr) == Ok::<_, XHFSError>(e),
        0 <= i < e.len(),
        0 <= j <= k,
        live(m2, parent.inumber),
        parent.inumber != e[i].1,
        node_of(m2, parent.inumber).kind is Directory,
        live(m, e[i].1),
        node_of(m, e[i].1).kind is Directory ==> m.dir(ext(m, e[i].1)) == Ok::<Entries, XHFSError>(
            Seq::empty(),
        ),
        forall|n: u64|
            #[trigger] live(m, n) && n != parent.inumber && n != e[i].1 && node_of(
                m,
                n,
            ).kind is Directory ==> live(m2, n) && node_of(m2, n) == node_of(m, n) && same_content(
                m,
                m2,
                ext(m, n),
            ),
    ensures
        ({
            let n = m.walk(parts, j as nat)->Ok_0.inumber;
            &&& m.walk(parts, j as nat) is Ok
            &&& live(m, n)
            &&& node_of(m, n) == m.walk(parts, j as nat)->Ok_0
            &&& node_of(m, n).kind is Directory
            &&& n != e[i].1
            &&& live(m2, n)
            &&& node_of(m2, n).kind is Directory
        }),
{
    lemma_walk_down(m, parts, j as nat, k);
    lemma_walk_live(m, parts, j as nat);
    let n = m.walk(parts, j as nat)->Ok_0.inumber;
    if j < k {
        let d = m.dir(ext(m, n))->Ok_0;
        lemma_position(d, parts[j]);
        assert(d.len() > 0);
    }
    assert(live(m, n));
}

/// A walk passes all its shorter walks.
pub proof fn lemma_walk_down(m: Image, parts: Seq<Seq<char>>, j: nat, k: nat)
    requires
        j <= k,
        m.walk(parts, k) is Ok,
    ensures
        m.walk(parts, j) is Ok,
        j < k ==> m.walk(parts, j)->Ok_0.kind is Directory && m.dir(
            m.walk(parts, j)->Ok_0.extent_addr,
        ) is Ok && entry_position(
            m.dir(m.walk(parts, j)->Ok_0.extent_addr)->Ok_0,
            parts[j as int],
        ) is Some,
    decreases k,
{
    if j < k {
        lemma_walk_down(m, parts, j, (k - 1) as nat);
    }
}

} // verus!
