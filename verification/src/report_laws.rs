//! What reports and messages say.
use crate::bfs::report::{brute_text, first_lines, last_lines};
use crate::error::Fault;
use crate::messages::{fault_text, fault_text_at, lack};
use crate::report::{bytesize_display, inode_text, kind_text, region_text, volume_text};
use crate::text::{decimal, hex8, right_aligned};
use crate::utils::{absolute, components};
use crate::xhfs::ds::Node;
use crate::xhfs::image::Image;
use crate::xhfs::layout::{AddressSlot, RegionSlot};
use vstd::prelude::*;
use vstd::string::*;

verus! {

/// The text holds the part.
pub open spec fn says(text: Seq<char>, part: Seq<char>) -> bool {
    exists|i: int|
        0 <= i && i + part.len() <= text.len() && #[trigger] text.subrange(i, i + part.len())
            == part
}

/// The text holds the part behind a label.
pub open spec fn tells(text: Seq<char>, label: Seq<char>, part: Seq<char>) -> bool {
    says(text, label + part)
}

proof fn lemma_told(before: Seq<char>, label: Seq<char>, part: Seq<char>)
    ensures
        tells(before + label + part, label, part),
{
    let t = before + label + part;
    let p = label + part;
    let i = before.len() as int;
    assert(t.subrange(i, i + p.len()) =~= p);
}

proof fn lemma_still_told(text: Seq<char>, more: Seq<char>, label: Seq<char>, part: Seq<char>)
    requires
        tells(text, label, part),
    ensures
        tells(text + more, label, part),
{
    let p = label + part;
    let i = choose|i: int|
        0 <= i && i + p.len() <= text.len() && #[trigger] text.subrange(i, i + p.len()) == p;
    let t = text + more;
    assert(t.subrange(i, i + p.len()) =~= text.subrange(i, i + p.len()));
}

/// What is told before a rest is told by the whole.
pub proof fn lemma_told_by(
    text: Seq<char>,
    before: Seq<char>,
    label: Seq<char>,
    part: Seq<char>,
    rest: Seq<char>,
)
    requires
        text == before + label + part + rest,
    ensures
        tells(text, label, part),
{
    lemma_told(before, label, part);
    lemma_still_told(before + label + part, rest, label, part);
}

/// The first text is the start of the second.
spec fn starts(h: Seq<char>, t: Seq<char>) -> bool {
    h.len() <= t.len() && t.subrange(0, h.len() as int) == h
}

/// What starts with more starts with less.
proof fn lemma_less(h: Seq<char>, x: Seq<char>, t: Seq<char>)
    requires
        starts(h + x, t),
    ensures
        starts(h, t),
{
    let l = h + x;
    assert(l.subrange(0, h.len() as int) =~= h);
    assert(t.subrange(0, h.len() as int) =~= l.subrange(0, h.len() as int));
}

proof fn lemma_starts(h: Seq<char>, rest: Seq<char>)
    ensures
        starts(h + rest, h + rest),
        starts(h, h + rest),
{
    let t = h + rest;
    assert(t.subrange(0, t.len() as int) =~= t);
    assert(t.subrange(0, h.len() as int) =~= h);
}

/// What the start of a text tells is told by the text.
proof fn lemma_told_at_start(before: Seq<char>, label: Seq<char>, part: Seq<char>, t: Seq<char>)
    requires
        starts(before + label + part, t),
    ensures
        tells(t, label, part),
        starts(before + label, t),
        starts(before, t),
{
    let h = before + label + part;
    lemma_told(before, label, part);
    lemma_less(before + label, part, t);
    lemma_less(before, label, t);
    let rest = t.subrange(h.len() as int, t.len() as int);
    lemma_still_told(h, rest, label, part);
    assert(t =~= h + rest);
}

/// With what is missing there is just enough: the size and one byte more.
pub proof fn what_is_missing_is_enough(size: u64, remaining: u64)
    ensures
        size >= remaining && size - remaining < u64::MAX ==> remaining + lack(size, remaining)
            == size + 1,
        size < remaining ==> lack(size, remaining) == 1,
        lack(size, remaining) > 0,
{
}

/// A refusal for want of space tells the size, what remains and what is missing.
pub proof fn refusal_tells_what_is_missing(size: u64, remaining: u64)
    ensures
        ({
            let t = fault_text(Fault::InsufficientSpace { size, remaining });
            &&& tells(t, "input size is "@, bytesize_display(size))
            &&& tells(t, "remaining "@, bytesize_display(remaining))
            &&& tells(t, "requires "@, bytesize_display(lack(size, remaining)))
        }),
{
    let t = fault_text(Fault::InsufficientSpace { size, remaining });
    let a = bytesize_display(size);
    let b = bytesize_display(remaining);
    let c = bytesize_display(lack(size, remaining));
    reveal_strlit("Insufficient space, input size is ");
    reveal_strlit("Insufficient space, ");
    reveal_strlit("input size is ");
    reveal_strlit(", remaining ");
    reveal_strlit(", ");
    reveal_strlit("remaining ");
    reveal_strlit(", operation requires ");
    reveal_strlit(", operation ");
    reveal_strlit("requires ");
    let r3 = " more"@;
    let r2 = ", operation requires "@ + c + r3;
    let r1 = ", remaining "@ + b + r2;
    assert("Insufficient space, input size is "@ =~= "Insufficient space, "@ + "input size is "@);
    assert(", remaining "@ =~= ", "@ + "remaining "@);
    assert(", operation requires "@ =~= ", operation "@ + "requires "@);
    let h1 = "Insufficient space, input size is "@ + a;
    let h2 = h1 + ", remaining "@ + b;
    assert(t =~= "Insufficient space, "@ + "input size is "@ + a + r1);
    lemma_told_by(t, "Insufficient space, "@, "input size is "@, a, r1);
    assert(t =~= (h1 + ", "@) + "remaining "@ + b + r2);
    lemma_told_by(t, h1 + ", "@, "remaining "@, b, r2);
    assert(t =~= (h2 + ", operation "@) + "requires "@ + c + r3);
    lemma_told_by(t, h2 + ", operation "@, "requires "@, c, r3);
}

/// A message on a path that is missing names the path up to the part that is missing, and one on a
/// file that exists names the file.
pub proof fn message_names_the_path(path: Seq<char>, depth: u64)
    requires
        0 < depth <= components(path).len(),
    ensures
        ({
            let parts = components(path);
            &&& tells(
                fault_text_at(Fault::PathMissing { depth }, path),
                "Path '"@,
                absolute(parts.subrange(0, depth as int)),
            )
            &&& tells(
                fault_text_at(Fault::DirectoryMissing { depth }, path),
                "Directory '"@,
                parts[depth - 1],
            )
            &&& tells(fault_text_at(Fault::FileExists, path), "File '"@, parts.last())
            &&& tells(fault_text_at(Fault::NotAFile, path), "Path '"@, parts.last())
        }),
{
    let parts = components(path);
    assert(parts.subrange(0, parts.len() as int) =~= parts);
    let none = Seq::<char>::empty();
    let a = absolute(parts.subrange(0, depth as int));
    assert(fault_text_at(Fault::PathMissing { depth }, path) =~= none + "Path '"@ + a
        + "' does not exist"@);
    lemma_told_by(
        fault_text_at(Fault::PathMissing { depth }, path),
        none,
        "Path '"@,
        a,
        "' does not exist"@,
    );
    assert(fault_text_at(Fault::DirectoryMissing { depth }, path) =~= none + "Directory '"@
        + parts[depth - 1] + "' does not exist"@);
    lemma_told_by(
        fault_text_at(Fault::DirectoryMissing { depth }, path),
        none,
        "Directory '"@,
        parts[depth - 1],
        "' does not exist"@,
    );
    assert(fault_text_at(Fault::FileExists, path) =~= none + "File '"@ + parts.last()
        + "' already exists"@);
    lemma_told_by(
        fault_text_at(Fault::FileExists, path),
        none,
        "File '"@,
        parts.last(),
        "' already exists"@,
    );
    assert(fault_text_at(Fault::NotAFile, path) =~= none + "Path '"@ + parts.last()
        + "' is not file"@);
    lemma_told_by(
        fault_text_at(Fault::NotAFile, path),
        none,
        "Path '"@,
        parts.last(),
        "' is not file"@,
    );
}

/// The report on a volume tells its version, its capacity and what remains of it.
pub proof fn volume_report_tells(m: Image, version: u8, remaining: usize)
    ensures
        ({
            let t = volume_text(m, version, remaining);
            &&& tells(t, "XHFS version: "@, decimal(version as nat))
            &&& tells(t, "\nCapacity:  "@, right_aligned(decimal(m.disk.len()), 10, ' '))
            &&& tells(t, " B\nRemaining: "@, right_aligned(decimal(remaining as nat), 10, ' '))
        }),
{
    let t = volume_text(m, version, remaining);
    let none = Seq::<char>::empty();
    let v = decimal(version as nat);
    let c = right_aligned(decimal(m.disk.len()), 10, ' ');
    let r = right_aligned(decimal(remaining as nat), 10, ' ');
    let h1 = "XHFS version: "@ + v;
    let h2 = h1 + "\nCapacity:  "@ + c;
    let h3 = h2 + " B\nRemaining: "@ + r;
    let r3 = t.subrange(h3.len() as int, t.len() as int);
    assert(t =~= h3 + r3);
    let r2 = " B\nRemaining: "@ + r + r3;
    let r1 = "\nCapacity:  "@ + c + r2;
    assert(t =~= none + "XHFS version: "@ + v + r1);
    lemma_told_by(t, none, "XHFS version: "@, v, r1);
    assert(t =~= h1 + "\nCapacity:  "@ + c + r2);
    lemma_told_by(t, h1, "\nCapacity:  "@, c, r2);
    lemma_told_by(t, h2, " B\nRemaining: "@, r, r3);
}

/// The text of an inode tells its number, its links, its kind, the size of what is no directory,
/// and its times.
pub proof fn inode_text_tells(n: Node, created: Seq<char>, modified: Seq<char>)
    ensures
        ({
            let t = inode_text(n, created, modified);
            &&& tells(t, "INode #"@, decimal(n.inumber as nat))
            &&& tells(t, "\n- Number of Links: "@, decimal(n.nlink as nat))
            &&& n.kind is File ==> tells(t, "\n- Kind: "@, "File"@)
            &&& n.kind is Directory ==> tells(t, "\n- Kind: "@, "Directory"@)
            &&& n.kind is Symlink ==> tells(t, "\n- Kind: "@, "Symlink"@)
            &&& n.kind is Hardlink ==> tells(t, "\n- Kind: "@, "Hardlink"@)
            &&& !(n.kind is Directory) ==> tells(t, "- Size: "@, decimal(n.total_file_size as nat))
            &&& tells(t, "- Creation time: "@, created)
            &&& tells(t, "\n- Modification time: "@, modified)
        }),
{
    let t = inode_text(n, created, modified);
    let none = Seq::<char>::empty();
    let addr = n.extent_addr.raw as nat;
    let number = decimal(n.inumber as nat);
    let links = decimal(n.nlink as nat);
    let kind = kind_text(n.kind);
    let size = decimal(n.total_file_size as nat);
    let h1 = "INode #"@ + number;
    let h2 = h1 + "\n- Number of Links: "@ + links;
    let h3 = h2 + "\n- Kind: "@ + kind;
    let h4 = h3 + "\n"@;
    let sized = if n.kind is Directory {
        none
    } else {
        "- Size: "@ + size + " B\n"@
    };
    let h5 = h4 + sized;
    let h6 = h5 + "- Creation time: "@ + created;
    let h7 = h6 + "\n- Modification time: "@ + modified;
    let h8 = h7 + "\n- Immediate Extent address: "@ + decimal(addr);
    let h9 = h8 + " (0x"@ + hex8(addr);
    assert(t == h9 + ")\n"@);
    lemma_starts(h9, ")\n"@);
    lemma_told_at_start(h8, " (0x"@, hex8(addr), t);
    lemma_told_at_start(h7, "\n- Immediate Extent address: "@, decimal(addr), t);
    lemma_told_at_start(h6, "\n- Modification time: "@, modified, t);
    lemma_told_at_start(h5, "- Creation time: "@, created, t);
    lemma_sized(h4, size, sized, t, n.kind is Directory);
    lemma_less(h3, "\n"@, t);
    lemma_told_at_start(h2, "\n- Kind: "@, kind, t);
    lemma_told_at_start(h1, "\n- Number of Links: "@, links, t);
    assert(none + "INode #"@ =~= "INode #"@);
    lemma_told_at_start(none, "INode #"@, number, t);
}

/// The size that is told of what is no directory.
proof fn lemma_sized(h: Seq<char>, size: Seq<char>, sized: Seq<char>, t: Seq<char>, none: bool)
    requires
        starts(h + sized, t),
        !none ==> sized == "- Size: "@ + size + " B\n"@,
    ensures
        !none ==> tells(t, "- Size: "@, size),
        starts(h, t),
{
    lemma_less(h, sized, t);
    if !none {
        assert(h + sized =~= h + "- Size: "@ + size + " B\n"@);
        lemma_less(h + "- Size: "@ + size, " B\n"@, t);
        lemma_told_at_start(h, "- Size: "@, size, t);
    }
}

/// The text of a region tells its first and its last address and the number of bytes from the one
/// to the other.
pub proof fn region_text_tells(r: RegionSlot)
    requires
        r.start.raw <= r.end.raw,
    ensures
        ({
            let t = region_text(r);
            let n = (r.end.raw - r.start.raw + 1) as nat;
            &&& tells(t, "0x"@, hex8(r.start.raw as nat))
            &&& tells(t, " -- 0x"@, hex8(r.end.raw as nat))
            &&& tells(t, " ("@, right_aligned(decimal(n), 10, ' '))
        }),
{
    let t = region_text(r);
    let none = Seq::<char>::empty();
    let a = hex8(r.start.raw as nat);
    let b = hex8(r.end.raw as nat);
    let n = right_aligned(decimal((r.end.raw - r.start.raw + 1) as nat), 10, ' ');
    let h1 = "0x"@ + a;
    let h2 = h1 + " -- 0x"@ + b;
    let r3 = " B)"@;
    let r2 = " ("@ + n + r3;
    let r1 = " -- 0x"@ + b + r2;
    assert(t =~= none + "0x"@ + a + r1);
    lemma_told_by(t, none, "0x"@, a, r1);
    assert(t =~= h1 + " -- 0x"@ + b + r2);
    lemma_told_by(t, h1, " -- 0x"@, b, r2);
    lemma_told_by(t, h2, " ("@, n, r3);
}

/// The report on a volume of the simpler file system tells its version, where the part begins that
/// was never used, how many stretches are free again, and its capacity.
pub proof fn brute_report_tells(
    version: u8,
    offset: u64,
    used: Seq<AddressSlot>,
    capacity: nat,
    root: u64,
    inode: Seq<char>,
)
    ensures
        ({
            let t = brute_text(version, offset, used, capacity, root, inode);
            &&& tells(t, "brutefs version: "@, decimal(version as nat))
            &&& tells(t, "\n- Current global offset: "@, decimal(offset as nat))
            &&& tells(t, ")\n- Total known fragments: "@, decimal(used.len()))
            &&& tells(t, "Capacity: "@, right_aligned(decimal(capacity), 10, ' '))
            &&& tells(t, " B\nRoot inode offset "@, decimal(root as nat))
            &&& says(t, inode)
        }),
{
    let t = brute_text(version, offset, used, capacity, root, inode);
    let none = Seq::<char>::empty();
    let v = decimal(version as nat);
    let o = decimal(offset as nat);
    let u = decimal(used.len());
    let c = right_aligned(decimal(capacity), 10, ' ');
    let n = decimal(root as nat);
    let h1 = "brutefs version: "@ + v;
    let h2 = h1 + "\n- Current global offset: "@ + o;
    let h3 = h2 + " (0x"@ + hex8(offset as nat);
    let h4 = h3 + ")\n- Total known fragments: "@ + u;
    let h5 = h4 + "\nTop 3 smallest:\n"@ + first_lines(used, 3);
    let h6 = h5 + "Top 3 biggest:\n"@ + last_lines(used, 3);
    let h7 = h6 + "Capacity: "@ + c;
    let h8 = h7 + " B\nRoot inode offset "@ + n;
    let h9 = h8 + " (0x"@ + hex8(root as nat);
    let h10 = h9 + ")\n"@;
    assert(t == h10 + inode);
    lemma_starts(h10, inode);
    lemma_less(h9, ")\n"@, t);
    lemma_told_at_start(h8, " (0x"@, hex8(root as nat), t);
    lemma_told_at_start(h7, " B\nRoot inode offset "@, n, t);
    lemma_told_at_start(h6, "Capacity: "@, c, t);
    lemma_told_at_start(h5, "Top 3 biggest:\n"@, last_lines(used, 3), t);
    lemma_told_at_start(h4, "\nTop 3 smallest:\n"@, first_lines(used, 3), t);
    lemma_told_at_start(h3, ")\n- Total known fragments: "@, u, t);
    lemma_told_at_start(h2, " (0x"@, hex8(offset as nat), t);
    lemma_told_at_start(h1, "\n- Current global offset: "@, o, t);
    assert(none + "brutefs version: "@ =~= "brutefs version: "@);
    lemma_told_at_start(none, "brutefs version: "@, v, t);
    let i = t.len() - inode.len();
    assert(t.subrange(i, i + inode.len()) =~= inode);
}

} // verus!
