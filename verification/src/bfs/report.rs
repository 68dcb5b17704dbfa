//! What a volume and its parts look like as text.
use crate::bfs::image::BRUTE_HEADER_SIZE;
use crate::bfs::records::{INode, INodeKind};
use crate::bfs::space::used_slots;
use crate::bfs::BruteFS;
use crate::device::Device;
use crate::error::Fault;
use crate::text::{decimal, hex8, push_aligned, push_decimal, push_hex8, right_aligned};
use crate::utils::{chrono_display, opt_string, u64_to_utc_datetime};
use crate::xhfs::layout::AddressSlot;
use vstd::prelude::*;
use vstd::string::*;

verus! {

/// A freed stretch as a line of text. A stretch that would end beyond the last address is cut
/// off there.
pub open spec fn stretch_line(s: AddressSlot) -> Seq<char> {
    let end = if s.addr.raw + s.capacity <= u64::MAX {
        s.addr.raw + s.capacity
    } else {
        u64::MAX as int
    };
    "  - 0x"@ + hex8(s.addr.raw as nat) + " -- 0x"@ + hex8(end as nat) + " ("@ + right_aligned(
        decimal((end - s.addr.raw) as nat),
        10,
        ' ',
    ) + " B)\n"@
}

/// The first `n` of the stretches as lines.
pub open spec fn first_lines(s: Seq<AddressSlot>, n: nat) -> Seq<char>
    decreases n,
{
    if n == 0 {
        Seq::empty()
    } else if n > s.len() {
        first_lines(s, (n - 1) as nat)
    } else {
        first_lines(s, (n - 1) as nat) + stretch_line(s[n - 1])
    }
}

/// The last `n` of the stretches as lines, the last one first.
pub open spec fn last_lines(s: Seq<AddressSlot>, n: nat) -> Seq<char>
    decreases n,
{
    if n == 0 {
        Seq::empty()
    } else if n > s.len() {
        last_lines(s, (n - 1) as nat)
    } else {
        last_lines(s, (n - 1) as nat) + stretch_line(s[s.len() - n])
    }
}

/// The name of a kind of inode.
pub open spec fn brute_kind_text(k: INodeKind) -> Seq<char> {
    match k {
        INodeKind::File => "File"@,
        INodeKind::Directory => "Directory"@,
        INodeKind::Symlink => "Symlink"@,
    }
}

/// An inode as text, for given texts of its times.
pub open spec fn brute_inode_text(n: INode, created: Seq<char>, modified: Seq<char>) -> Seq<char> {
    "- Kind: "@ + brute_kind_text(n.kind) + "\n"@ + (if n.kind is Directory {
        Seq::empty()
    } else {
        "- Size: "@ + decimal(n.total_file_size as nat) + " B\n"@
    }) + "- Creation time: "@ + created + "\n- Modification time: "@ + modified
        + "\n- Immediate Extent address: "@ + decimal(n.extent_addr.raw as nat) + " (0x"@ + hex8(
        n.extent_addr.raw as nat,
    ) + ")\n"@
}

/// What is known of a volume as a whole as text, for the text of its root inode.
pub open spec fn brute_text(
    version: u8,
    global_offset: u64,
    used: Seq<AddressSlot>,
    capacity: nat,
    root: u64,
    inode: Seq<char>,
) -> Seq<char> {
    "brutefs version: "@ + decimal(version as nat) + "\n- Current global offset: "@ + decimal(
        global_offset as nat,
    ) + " (0x"@ + hex8(global_offset as nat) + ")\n- Total known fragments: "@ + decimal(used.len())
        + "\nTop 3 smallest:\n"@ + first_lines(used, 3) + "Top 3 biggest:\n"@ + last_lines(used, 3)
        + "Capacity: "@ + right_aligned(decimal(capacity), 10, ' ') + " B\nRoot inode offset "@
        + decimal(root as nat) + " (0x"@ + hex8(root as nat) + ")\n"@ + inode
}

/// Appends a freed stretch as a line of text.
fn push_stretch(out: &mut String, s: &AddressSlot)
    ensures
        final(out)@ == old(out)@ + stretch_line(*s),
{
    let ghost before = out@;
    let start: u64 = s.addr.get();
    let end: u64 = start.saturating_add(s.capacity as u64);
    out.append("  - 0x");
    push_hex8(out, start);
    out.append(" -- 0x");
    push_hex8(out, end);
    out.append(" (");
    push_aligned(out, end - start, 10);
    out.append(" B)\n");
    assert(out@ =~= before + stretch_line(*s));
}

/// Appends the first three stretches, then the last three.
fn push_extremes(out: &mut String, used: &Vec<AddressSlot>)
    ensures
        final(out)@ == old(out)@ + "\nTop 3 smallest:\n"@ + first_lines(used@, 3)
            + "Top 3 biggest:\n"@ + last_lines(used@, 3),
{
    out.append("\nTop 3 smallest:\n");
    let ghost head = out@;
    let n: usize = used.len();
    let mut i: usize = 0;
    assert(out@ =~= head + first_lines(used@, 0));
    while i < 3
        invariant
            i <= 3,
            n == used@.len(),
            out@ == head + first_lines(used@, i as nat),
        decreases 3 - i,
    {
        if i < n {
            let ghost had = first_lines(used@, i as nat);
            push_stretch(out, &used[i]);
            assert(out@ =~= head + (had + stretch_line(used@[i as int])));
        }
        i = i + 1;
    }
    out.append("Top 3 biggest:\n");
    let ghost middle = out@;
    let mut j: usize = 0;
    assert(out@ =~= middle + last_lines(used@, 0));
    while j < 3
        invariant
            j <= 3,
            n == used@.len(),
            out@ == middle + last_lines(used@, j as nat),
        decreases 3 - j,
    {
        if j < n {
            let ghost had = last_lines(used@, j as nat);
            push_stretch(out, &used[n - 1 - j]);
            assert(out@ =~= middle + (had + stretch_line(used@[n - 1 - j])));
        }
        j = j + 1;
    }
}

impl INode {
    /// This inode as text, with its times as given texts.
    pub fn describe_with(&self, created: &str, modified: &str) -> (r: String)
        ensures
            r@ == brute_inode_text(*self, created@, modified@),
    {
        let mut out: String = "- Kind: ".to_owned();
        match self.kind {
            INodeKind::File => {
                out.append("File");
            },
            INodeKind::Directory => {
                out.append("Directory");
            },
            INodeKind::Symlink => {
                out.append("Symlink");
            },
        }
        out.append("\n");
        let ghost head = out@;
        if !matches!(self.kind, INodeKind::Directory) {
            out.append("- Size: ");
            push_decimal(&mut out, self.total_file_size);
            out.append(" B\n");
            assert(out@ =~= head + ("- Size: "@ + decimal(self.total_file_size as nat) + " B\n"@));
        } else {
            assert(out@ =~= head + Seq::<char>::empty());
        }
        out.append("- Creation time: ");
        out.append(created);
        out.append("\n- Modification time: ");
        out.append(modified);
        out.append("\n- Immediate Extent address: ");
        push_decimal(&mut out, self.extent_addr.get());
        out.append(" (0x");
        push_hex8(&mut out, self.extent_addr.get());
        out.append(")\n");
        out
    }

    /// This inode as text, unless one of its times cannot be shown.
    pub fn describe(&self) -> (r: Option<String>)
        ensures
            opt_string(r) == match (chrono_display(self.ctime as i64), chrono_display(
                self.mtime as i64,
            )) {
                (Some(c), Some(m)) => Some(brute_inode_text(*self, c, m)),
                _ => None,
            },
    {
        match (u64_to_utc_datetime(self.ctime), u64_to_utc_datetime(self.mtime)) {
            (Some(c), Some(m)) => Some(self.describe_with(c.as_str(), m.as_str())),
            _ => None,
        }
    }
}

impl<D: Device> BruteFS<D> {
    /// What is known of this volume as a whole as text, for the text of its root inode.
    pub fn headers_report_with(&self, root: &str) -> (r: Result<String, Fault>)
        requires
            self.wf(),
        ensures
            self.tells(r is Ok) ==> match self.image().header() {
                Err(e) => r == Err::<String, Fault>(e),
                Ok(h) => if self.ctrl.devices().len() == 0 {
                    r == Err::<String, Fault>(Fault::NotReady)
                } else {
                    r is Ok && r->Ok_0@ == brute_text(
                        h.version,
                        h.freed.global_offset,
                        used_slots(h.freed.items),
                        self.image().disk.len(),
                        BRUTE_HEADER_SIZE,
                        root@,
                    )
                },
            },
    {
        let header = match self.get_header() {
            Ok(h) => h,
            Err(e) => return Err(e),
        };
        let offset: u64 = header.extent_freed.global_offset;
        let used = match self.reusable_regions() {
            Ok(v) => v,
            Err(e) => return Err(e),
        };
        let capacity: usize = match self.total_capacity() {
            Ok(n) => n,
            Err(e) => return Err(e),
        };
        let mut out: String = "brutefs version: ".to_owned();
        push_decimal(&mut out, header.version as u64);
        out.append("\n- Current global offset: ");
        push_decimal(&mut out, offset);
        out.append(" (0x");
        push_hex8(&mut out, offset);
        out.append(")\n- Total known fragments: ");
        push_decimal(&mut out, used.len() as u64);
        push_extremes(&mut out, &used);
        out.append("Capacity: ");
        push_aligned(&mut out, capacity as u64, 10);
        out.append(" B\nRoot inode offset ");
        push_decimal(&mut out, self.header_size as u64);
        out.append(" (0x");
        push_hex8(&mut out, self.header_size as u64);
        out.append(")\n");
        out.append(root);
        Ok(out)
    }

    /// What is known of this volume as a whole as text, unless a time of its root inode cannot
    /// be shown.
    pub fn format_headers_report(&self) -> (r: Result<Option<String>, Fault>)
        requires
            self.wf(),
        ensures
            self.tells(r is Ok) && self.ctrl.devices().len() > 0 ==> match (
                self.image().header(),
                self.image().root(),
            ) {
                (Err(e), _) => r == Err::<Option<String>, Fault>(e),
                (Ok(_), Err(e)) => r == Err::<Option<String>, Fault>(e),
                (Ok(h), Ok((at, n))) => r is Ok && opt_string(r->Ok_0) == match (
                    chrono_display(n.ctime as i64),
                    chrono_display(n.mtime as i64),
                ) {
                    (Some(c), Some(m)) => Some(
                        brute_text(
                            h.version,
                            h.freed.global_offset,
                            used_slots(h.freed.items),
                            self.image().disk.len(),
                            at,
                            brute_inode_text(n, c, m),
                        ),
                    ),
                    _ => None,
                },
            },
            self.tells(r is Ok) && self.ctrl.devices().len() == 0 ==> r is Err,
    {
        match self.get_header() {
            Ok(_) => {},
            Err(e) => return Err(e),
        }
        match self.total_capacity() {
            Ok(_) => {},
            Err(e) => return Err(e),
        }
        let inode = match self.get_root_inode() {
            Ok((_, n)) => n,
            Err(e) => return Err(e),
        };
        match inode.describe() {
            Some(text) => match self.headers_report_with(text.as_str()) {
                Ok(t) => Ok(Some(t)),
                Err(e) => Err(e),
            },
            None => Ok(None),
        }
    }

    /// Fails where the report on this volume would.
    pub fn ensure_headers(&self) -> (r: Result<(), Fault>)
        requires
            self.wf(),
        ensures
            self.tells(r is Ok) && self.ctrl.devices().len() > 0 ==> r == match (
                self.image().header(),
                self.image().root(),
            ) {
                (Err(e), _) => Err::<(), Fault>(e),
                (Ok(_), Err(e)) => Err(e),
                (Ok(_), Ok(_)) => Ok(()),
            },
            self.tells(r is Ok) && self.ctrl.devices().len() == 0 ==> r is Err,
    {
        match self.format_headers_report() {
            Ok(_) => Ok(()),
            Err(e) => Err(e),
        }
    }
}

} // verus!
