//! What the commands do to a volume, and what they print.
use crate::error::{Fault, XHFSError};
use crate::interface::cli::{
    cut_pieces, destination, joined_path, kind_upper, kind_word, list_line, size_word, tree_info,
    tree_line, CommandFault, CopyCommand, FsCommands, FsSubcommands, LinkCommand, LsCommand,
    MoveCommand, PathCommand, UploadCommand,
};
use crate::interface::laws::{pieces_hold_the_data, uploaded_file_reads_back};
use crate::interface::main_command::{
    Commands, DownloadCommand, Input, Left, MainFault, ReadCommand, Source,
};
use crate::interface::number_laws::filling_keeps_the_text;
use crate::path_laws::no_parents;
use crate::report::bytesize_display;
use crate::text::{left_aligned, right_aligned};
use crate::utils::{absolute, chrono_plain, components, is_dot_dot, opt_string};
use crate::xhfs::dir_laws::{files_kept, made_directory_is_there};
use crate::xhfs::dirs::names_of;
use crate::xhfs::ds::INodeKind;
use crate::xhfs::entry_laws::symlink_leads_to_its_target;
use crate::xhfs::file_laws::hardlink_reads_as_its_target;
use crate::xhfs::image::Image;
use crate::xhfs::link_laws::symlink_reads_as_its_target;
use crate::xhfs::mkdir_laws::mkdir_twice_makes_one;
use crate::xhfs::move_laws::{moved_entry_is_found, way_without};
use crate::xhfs::node_laws::overwriting_keeps_the_inode;
use crate::xhfs::op_laws::{copied_file_has_same_content, grounded, lemma_lookup_split, writable};
use crate::xhfs::refusal_laws::existing_file_is_not_replaced_unasked;
use crate::xhfs::stream::stream_reads_the_file;
use crate::xhfs::stream_laws::written_pieces_keep_the_inode;
use crate::xhfs::tree::{Entries, WriteOption};
use crate::xhfs::unlink_laws::{removable_links, unlinked_path_is_gone};
use vstd::prelude::*;
use vstd::string::*;
use vstd::utf8::*;

verus! {

/// Looking at a volume changes nothing: neither downloading nor reading nor the reports, the lists
/// and the inspection of its parts do.
pub proof fn looking_changes_nothing(m: Image, c: Commands, input: Input, has_devices: bool)
    requires
        c is Download || c is Read || c is Format || c is Info || c is Inspect || (c is X
            && (c->X_0.command is Ls || c->X_0.command is Stats)),
    ensures
        m.main_command(c, input, has_devices).0 == m,
{
}

/// A copy that the command makes has the content of the file that is copied.
pub proof fn cp_copies_the_content(m: Image, c: CopyCommand, now: u64)
    requires
        grounded(m),
        writable(m, c.dest@),
        m.command(FsSubcommands::Cp(c), now).1 is Ok,
    ensures
        m.fread(c.src@) is Ok,
        m.command(FsSubcommands::Cp(c), now).0.fread(c.dest@) == m.fread(c.src@),
        m.command(FsSubcommands::Cp(c), now).1->Ok_0.len() == 0,
{
    copied_file_has_same_content(
        m,
        c.src@,
        c.dest@,
        WriteOption { overwrite: c.overwrite, modified: None },
        now,
    );
}

/// A copy does not replace a file unless that is asked for, and then it does: the file keeps its
/// number and its links.
pub proof fn cp_replaces_only_if_asked(m: Image, c: CopyCommand, now: u64)
    requires
        grounded(m),
        m.fread(c.src@) is Ok,
        m.remaining() is Ok,
        m.fread(c.src@)->Ok_0.len() < m.remaining()->Ok_0,
        m.parent(c.dest@) is Ok,
        m.lookup(c.dest@) is Ok,
        m.lookup(c.dest@)->Ok_0.kind is File,
    ensures
        !c.overwrite ==> m.command(FsSubcommands::Cp(c), now) == (
            m,
            Err::<Seq<Seq<char>>, _>(
                CommandFault::Volume { err: XHFSError::Error { err: Fault::FileExists } },
            ),
        ),
        c.overwrite && m.command(FsSubcommands::Cp(c), now).1 is Ok ==> {
            let new = m.command(FsSubcommands::Cp(c), now).0.lookup(c.dest@);
            &&& new is Ok
            &&& new->Ok_0.inumber == m.lookup(c.dest@)->Ok_0.inumber
            &&& new->Ok_0.nlink == m.lookup(c.dest@)->Ok_0.nlink
            &&& new->Ok_0.mtime == now
            &&& new->Ok_0.total_file_size == m.fread(c.src@)->Ok_0.len()
        },
{
    let opt = WriteOption { overwrite: c.overwrite, modified: None };
    let data = m.fread(c.src@)->Ok_0;
    if !c.overwrite {
        existing_file_is_not_replaced_unasked(m, c.dest@, data, INodeKind::File, opt, now);
    } else if m.command(FsSubcommands::Cp(c), now).1 is Ok {
        overwriting_keeps_the_inode(m, c.dest@, data, INodeKind::File, opt, now);
    }
}

/// What the command moves is found at its destination and no longer at its source.
pub proof fn mv_moves_the_entry(m: Image, c: MoveCommand, now: u64)
    requires
        grounded(m),
        m.command(FsSubcommands::Mv(c), now).1 is Ok,
        m.parent(c.src@)->Ok_0.0.kind is Directory,
        m.parent(c.dest@)->Ok_0.0.kind is Directory,
        way_without(
            m,
            components(c.src@),
            (components(c.src@).len() - 1) as nat,
            m.parent(c.src@)->Ok_0.0.inumber,
            m.parent(c.src@)->Ok_0.1,
        ),
        way_without(
            m,
            components(c.dest@),
            (components(c.dest@).len() - 1) as nat,
            m.parent(c.src@)->Ok_0.0.inumber,
            m.parent(c.src@)->Ok_0.1,
        ),
        m.lookup(c.src@) is Ok,
    ensures
        ({
            let m2 = m.command(FsSubcommands::Mv(c), now).0;
            &&& m2.lookup(c.dest@) is Ok
            &&& m2.lookup(c.dest@)->Ok_0.inumber == m.lookup(c.src@)->Ok_0.inumber
            &&& m2.lookup(c.src@) is Err
            &&& files_kept(m, m2)
        }),
{
    moved_entry_is_found(m, c.src@, c.dest@, now);
}

/// What the command removes is gone. Removing all that lies below a path is refused, and nothing
/// is removed.
pub proof fn rm_removes_the_entry(m: Image, c: PathCommand, now: u64)
    ensures
        c.recursive ==> m.command(FsSubcommands::Rm(c), now) == (
            m,
            Err::<Seq<Seq<char>>, _>(CommandFault::Unsupported),
        ),
        !c.recursive && grounded(m) && m.lookup(c.path@) is Ok && removable_links(
            m,
            m.lookup(c.path@)->Ok_0.inumber,
        ) && m.command(FsSubcommands::Rm(c), now).1 is Ok ==> m.command(
            FsSubcommands::Rm(c),
            now,
        ).0.lookup(c.path@) is Err,
{
    if !c.recursive && grounded(m) && m.lookup(c.path@) is Ok && removable_links(
        m,
        m.lookup(c.path@)->Ok_0.inumber,
    ) && m.command(FsSubcommands::Rm(c), now).1 is Ok {
        lemma_lookup_split(m, c.path@);
        unlinked_path_is_gone(m, c.path@, now);
    }
}

/// After the command to make a directory there is something at the path, and running the command
/// again changes nothing.
pub proof fn mkdir_makes_the_directory(m: Image, c: PathCommand, now: u64, later: u64)
    requires
        grounded(m),
        m.command(FsSubcommands::Mkdir(c), now).1 is Ok,
    ensures
        ({
            let m2 = m.command(FsSubcommands::Mkdir(c), now).0;
            &&& m2.lookup(c.path@) is Ok
            &&& m.lookup(c.path@) is Err ==> m2.lookup(c.path@)->Ok_0.kind is Directory
            &&& m.lookup(c.path@) is Ok ==> m2 == m
            &&& m2.command(FsSubcommands::Mkdir(c), later) == (
                m2,
                Ok::<Seq<Seq<char>>, CommandFault>(Seq::empty()),
            )
        }),
{
    mkdir_twice_makes_one(m, c.path@, c.recursive, now, c.recursive, later);
    made_directory_is_there(m, c.path@, c.recursive, now);
}

/// The link that the command makes at its destination is of the wished sort and reads as its
/// source. A hard link is counted in the file; a symbolic link is not.
pub proof fn ln_makes_the_wished_link(m: Image, c: LinkCommand, now: u64)
    requires
        grounded(m),
        m.parent(c.dest_path@) is Ok ==> m.parent(c.dest_path@)->Ok_0.0.kind is Directory,
        m.lookup(c.dest_path@) is Err,
        no_parents(components(c.src_path@)),
        m.lookup(c.src_path@) is Ok,
        m.lookup(c.src_path@)->Ok_0.kind is File,
        m.command(FsSubcommands::Ln(c), now).1 is Ok,
    ensures
        ({
            let m2 = m.command(FsSubcommands::Ln(c), now).0;
            let file = m.lookup(c.src_path@)->Ok_0;
            &&& m2.lookup(c.dest_path@) is Ok
            &&& m2.lookup(c.src_path@) is Ok
            &&& c.symlink ==> m2.lookup(c.dest_path@)->Ok_0.kind is Symlink && m2.lookup(
                c.src_path@,
            )->Ok_0.nlink == file.nlink
            &&& !c.symlink ==> m2.lookup(c.dest_path@)->Ok_0.kind is Hardlink && m2.lookup(
                c.src_path@,
            )->Ok_0.nlink == file.nlink + 1
            &&& m2.fread(c.dest_path@) == m.fread(c.src_path@)
            &&& m2.fread(c.src_path@) == m.fread(c.src_path@)
        }),
{
    let opt = WriteOption { overwrite: c.overwrite, modified: None };
    if c.symlink {
        symlink_reads_as_its_target(m, c.dest_path@, c.src_path@, opt, now);
        symlink_leads_to_its_target(m, c.dest_path@, c.src_path@, opt, now);
    } else {
        hardlink_reads_as_its_target(m, c.dest_path@, c.src_path@, opt, now);
    }
}

/// A link that is there is not replaced unless that is asked for.
pub proof fn ln_replaces_only_if_asked(m: Image, c: LinkCommand, now: u64)
    requires
        c.symlink,
        !c.overwrite,
        m.parent(c.src_path@) is Ok,
        m.parent(c.dest_path@) is Ok,
        m.lookup(c.dest_path@) is Ok,
        m.lookup(c.dest_path@)->Ok_0.kind is File || m.lookup(c.dest_path@)->Ok_0.kind is Symlink,
        m.remaining() is Ok,
        encode_utf8(absolute(components(c.src_path@))).len() < m.remaining()->Ok_0,
    ensures
        m.command(FsSubcommands::Ln(c), now) == (
            m,
            Err::<Seq<Seq<char>>, _>(
                CommandFault::Volume { err: XHFSError::Error { err: Fault::FileExists } },
            ),
        ),
{
    let opt = WriteOption { overwrite: false, modified: None };
    existing_file_is_not_replaced_unasked(
        m,
        c.dest_path@,
        encode_utf8(absolute(components(c.src_path@))),
        INodeKind::Symlink,
        opt,
        now,
    );
}

proof fn lemma_ls_names(m: Image, c: LsCommand, names: Seq<Seq<char>>, n: nat)
    requires
        !c.verbose,
        n <= names.len(),
    ensures
        m.ls_lines(c, names, n) == Ok::<_, CommandFault>(names.subrange(0, n as int)),
    decreases n,
{
    if n > 0 {
        lemma_ls_names(m, c, names, (n - 1) as nat);
        assert(names.subrange(0, n as int) =~= names.subrange(0, n - 1).push(names[n - 1]));
    } else {
        assert(names.subrange(0, 0) =~= Seq::empty());
    }
}

/// A plain list of a directory is the names of its entries, one on each line, in their order.
pub proof fn ls_prints_the_names(m: Image, c: LsCommand, e: Entries, now: u64)
    requires
        !c.tree,
        !c.verbose,
        m.lookup(c.path@) is Ok,
        m.lookup(c.path@)->Ok_0.kind is Directory,
        m.dir(m.lookup(c.path@)->Ok_0.extent_addr) == Ok::<_, XHFSError>(e),
    ensures
        ({
            let r = m.command(FsSubcommands::Ls(c), now).1;
            &&& r is Ok
            &&& r->Ok_0.len() == e.len()
            &&& forall|i: int| 0 <= i < e.len() ==> #[trigger] r->Ok_0[i] == e[i].0
        }),
{
    let names = names_of(e);
    lemma_ls_names(m, c, names, e.len());
    assert(names.subrange(0, e.len() as int) =~= names);
}

proof fn lemma_ls_details(m: Image, c: LsCommand, names: Seq<Seq<char>>, n: nat)
    requires
        c.verbose,
        n <= names.len(),
        m.ls_lines(c, names, n) is Ok,
    ensures
        m.ls_lines(c, names, n)->Ok_0.len() == n,
        forall|i: int|
            0 <= i < n ==> m.ls_line(c, names[i], i) == Ok::<_, CommandFault>(
                #[trigger] m.ls_lines(c, names, n)->Ok_0[i],
            ),
    decreases n,
{
    if n > 0 {
        lemma_ls_details(m, c, names, (n - 1) as nat);
    }
}

/// A line of a detailed list: of what kind an entry is, when it was made, how large it is, and its
/// name.
pub open spec fn details_of(m: Image, c: LsCommand, name: Seq<char>, line: Seq<char>) -> bool {
    let r = m.stats(joined_path(c.path@, name), c.recursive);
    let s = r->Ok_0->0;
    &&& r is Ok
    &&& r->Ok_0 is Some
    &&& chrono_plain(s.ctime as i64) is Some
    &&& line == list_line(s.kind, chrono_plain(s.ctime as i64)->0, size_word(s), name)
}

/// A detailed list of a directory has a line for each entry, in their order. A hard link is
/// followed for it if and only if the list is to go further than the directory.
pub proof fn ls_prints_the_details(m: Image, c: LsCommand, e: Entries, now: u64)
    requires
        !c.tree,
        c.verbose,
        m.lookup(c.path@) is Ok,
        m.lookup(c.path@)->Ok_0.kind is Directory,
        m.dir(m.lookup(c.path@)->Ok_0.extent_addr) == Ok::<_, XHFSError>(e),
        m.command(FsSubcommands::Ls(c), now).1 is Ok,
    ensures
        m.command(FsSubcommands::Ls(c), now).1->Ok_0.len() == e.len(),
        forall|i: int|
            0 <= i < e.len() ==> details_of(
                m,
                c,
                (#[trigger] e[i]).0,
                m.command(FsSubcommands::Ls(c), now).1->Ok_0[i],
            ),
{
    let names = names_of(e);
    lemma_ls_details(m, c, names, e.len());
    let r = m.command(FsSubcommands::Ls(c), now).1->Ok_0;
    assert forall|i: int| 0 <= i < e.len() implies details_of(
        m,
        c,
        (#[trigger] e[i]).0,
        m.command(FsSubcommands::Ls(c), now).1->Ok_0[i],
    ) by {
        assert(names[i] == e[i].0);
        assert(m.ls_line(c, names[i], i) == Ok::<_, CommandFault>(
            m.ls_lines(c, names, e.len())->Ok_0[i],
        ));
    }
}

proof fn lemma_tree_flat(
    m: Image,
    c: LsCommand,
    path: Seq<char>,
    prefix: Seq<char>,
    names: Seq<Seq<char>>,
    n: nat,
    fuel: nat,
)
    requires
        !c.verbose,
        n <= names.len(),
        forall|i: int|
            0 <= i < names.len() ==> {
                let s = m.stats(joined_path(path, #[trigger] names[i]), c.recursive);
                s is Ok && (s->Ok_0 is Some ==> !(s->Ok_0->0.kind is Directory))
            },
    ensures
        m.tree_rows(c, path, prefix, names, n, fuel) is Ok,
        m.tree_rows(c, path, prefix, names, n, fuel)->Ok_0.len() == n,
        forall|i: int|
            0 <= i < n ==> #[trigger] m.tree_rows(c, path, prefix, names, n, fuel)->Ok_0[i]
                == prefix + (if i == names.len() - 1 {
                "└── "@
            } else {
                "├── "@
            }) + names[i],
    decreases n,
{
    if n > 0 {
        lemma_tree_flat(m, c, path, prefix, names, (n - 1) as nat, fuel);
        assert(m.stats(joined_path(path, names[n - 1]), c.recursive) is Ok);
        let stat = m.stats(joined_path(path, names[n - 1]), c.recursive)->Ok_0;
        let line = tree_line(c, prefix, n == names.len(), names[n - 1], stat);
        assert(line =~= prefix + (if n == names.len() {
            "└── "@
        } else {
            "├── "@
        }) + names[n - 1]);
    }
}

/// The tree of a directory without directories in it is the names of its entries in their order,
/// each behind a branch; the last branch ends the tree.
pub proof fn tree_of_files_prints_the_names(m: Image, c: LsCommand, e: Entries, now: u64)
    requires
        c.tree,
        !c.verbose,
        m.lookup(c.path@) is Ok,
        m.lookup(c.path@)->Ok_0.kind is Directory,
        m.dir(m.lookup(c.path@)->Ok_0.extent_addr) == Ok::<_, XHFSError>(e),
        forall|i: int|
            0 <= i < e.len() ==> {
                let s = m.stats(joined_path(c.path@, (#[trigger] e[i]).0), c.recursive);
                s is Ok && (s->Ok_0 is Some ==> !(s->Ok_0->0.kind is Directory))
            },
    ensures
        ({
            let r = m.command(FsSubcommands::Ls(c), now).1;
            &&& r is Ok
            &&& r->Ok_0.len() == e.len()
            &&& forall|i: int|
                0 <= i < e.len() ==> #[trigger] r->Ok_0[i] == (if i == e.len() - 1 {
                    "└── "@
                } else {
                    "├── "@
                }) + e[i].0
        }),
{
    let names = names_of(e);
    assert forall|i: int| 0 <= i < names.len() implies {
        let s = m.stats(joined_path(c.path@, #[trigger] names[i]), c.recursive);
        s is Ok && (s->Ok_0 is Some ==> !(s->Ok_0->0.kind is Directory))
    } by {
        assert(names[i] == e[i].0);
    }
    lemma_tree_flat(m, c, c.path@, Seq::empty(), names, e.len(), m.disk.len());
    let r = m.command(FsSubcommands::Ls(c), now).1;
    assert forall|i: int| 0 <= i < e.len() implies #[trigger] r->Ok_0[i] == (if i == e.len() - 1 {
        "└── "@
    } else {
        "├── "@
    }) + e[i].0 by {
        assert(names[i] == e[i].0);
        assert(Seq::<char>::empty() + (if i == e.len() - 1 {
            "└── "@
        } else {
            "├── "@
        }) =~= (if i == e.len() - 1 {
            "└── "@
        } else {
            "├── "@
        }));
    }
}

/// What is printed of an entry is what holds of it: its kind, its size, and when it was made and
/// last changed. Of a path that leads nowhere it is printed that it does not exist.
pub proof fn stats_prints_what_holds(m: Image, c: PathCommand, now: u64)
    requires
        components(c.path@).len() > 0,
    ensures
        m.lookup(c.path@) is Err ==> m.command(FsSubcommands::Stats(c), now).1 == Ok::<
            _,
            CommandFault,
        >(seq!["Path "@ + absolute(components(c.path@)) + " does not exist"@]),
        m.lookup(c.path@) is Ok && !(c.recursive && m.lookup(c.path@)->Ok_0.kind is Hardlink)
            && m.command(FsSubcommands::Stats(c), now).1 is Ok ==> {
            let n = m.lookup(c.path@)->Ok_0;
            let lines = m.command(FsSubcommands::Stats(c), now).1->Ok_0;
            &&& lines.len() == 5
            &&& lines[0] == "Path: "@ + absolute(components(c.path@))
            &&& lines[1] == "Type: "@ + (match n.kind {
                INodeKind::File => "FILE"@,
                INodeKind::Directory => "DIR"@,
                INodeKind::Symlink => "LINK"@,
                INodeKind::Hardlink => "HARDLINK"@,
            })
            &&& lines[2] == "Size: "@ + (if n.kind is Directory {
                "-"@
            } else {
                bytesize_display(n.total_file_size as usize as u64)
            })
            &&& chrono_plain(n.ctime as i64) is Some
            &&& chrono_plain(n.mtime as i64) is Some
            &&& lines[3] == " Created Time: "@ + chrono_plain(n.ctime as i64)->0
            &&& lines[4] == " Modified Time: "@ + chrono_plain(n.mtime as i64)->0
        },
{
}

/// A copy goes to the wished path, or to the name of its source where none is wished. A source
/// without a name has none to go to.
pub proof fn copies_go_where_wished(src: Seq<char>, wished: Option<Seq<char>>)
    ensures
        wished is Some ==> destination(src, wished) == Ok::<_, CommandFault>(wished->0),
        wished is None && components(src).len() > 0 && !is_dot_dot(components(src).last())
            ==> destination(src, wished) == Ok::<_, CommandFault>(components(src).last()),
        wished is None && (components(src).len() == 0 || is_dot_dot(components(src).last()))
            ==> destination(src, wished) == Err::<Seq<char>, _>(CommandFault::NoDestination),
{
}

/// The pieces that data is cut into are of the wished size but for the last, and none is empty.
pub proof fn pieces_have_the_wished_size(data: Seq<u8>, size: int, i: int)
    requires
        size > 0,
        0 <= i < cut_pieces(data, size).len(),
    ensures
        0 < cut_pieces(data, size)[i].len() <= size,
        i < cut_pieces(data, size).len() - 1 ==> cut_pieces(data, size)[i].len() == size,
    decreases data.len(),
{
    if data.len() > size {
        let tail = data.subrange(size, data.len() as int);
        if i > 0 {
            assert(cut_pieces(data, size)[i] == cut_pieces(tail, size)[i - 1]);
            pieces_have_the_wished_size(tail, size, i - 1);
        }
        assert(cut_pieces(tail, size).len() > 0);
    }
}

/// An upload does not replace a file unless that is asked for.
pub proof fn upload_replaces_only_if_asked(
    m: Image,
    c: UploadCommand,
    data: Seq<u8>,
    modified: Option<u64>,
    now: u64,
    dest: Seq<char>,
)
    requires
        !c.overwrite,
        destination(c.src_path@, opt_string(c.dest_path)) == Ok::<_, CommandFault>(dest),
        m.remaining() is Ok,
        0 < m.remaining()->Ok_0,
        c.single_block ==> data.len() < m.remaining()->Ok_0,
        m.parent(dest) is Ok,
        m.lookup(dest) is Ok,
        m.lookup(dest)->Ok_0.kind is File,
    ensures
        m.upload(c, data, modified, now).0 == m,
        m.upload(c, data, modified, now).1 is Err,
        c.single_block ==> m.upload(c, data, modified, now).1 == Err::<(), _>(
            CommandFault::Volume { err: XHFSError::Error { err: Fault::FileExists } },
        ),
{
    let opt = WriteOption { overwrite: false, modified };
    if c.single_block {
        existing_file_is_not_replaced_unasked(m, dest, data, INodeKind::File, opt, now);
    } else {
        existing_file_is_not_replaced_unasked(m, dest, Seq::empty(), INodeKind::File, opt, now);
    }
}

/// A file that was uploaded has the size of the data. One that was there keeps its number and its
/// links, and was changed at the wished time, or at the present if none is wished.
pub proof fn uploaded_file_keeps_its_inode(
    m: Image,
    c: UploadCommand,
    data: Seq<u8>,
    modified: Option<u64>,
    now: u64,
    dest: Seq<char>,
)
    requires
        grounded(m),
        c.single_block || c.block_size > 0,
        destination(c.src_path@, opt_string(c.dest_path)) == Ok::<_, CommandFault>(dest),
        m.upload(c, data, modified, now).1 is Ok,
        writable(m, dest),
        m.lookup(dest) is Ok,
        data.len() > 0,
    ensures
        ({
            let new = m.upload(c, data, modified, now).0.lookup(dest);
            let old = m.lookup(dest)->Ok_0;
            &&& new is Ok
            &&& new->Ok_0.total_file_size == data.len()
            &&& new->Ok_0.nlink == old.nlink
            &&& new->Ok_0.inumber == old.inumber
            &&& new->Ok_0.ctime == old.ctime
            &&& new->Ok_0.mtime == if modified is Some {
                modified->0
            } else {
                now
            }
        }),
{
    let opt = WriteOption { overwrite: c.overwrite, modified };
    if c.single_block {
        overwriting_keeps_the_inode(m, dest, data, INodeKind::File, opt, now);
    } else {
        let pieces = cut_pieces(data, c.block_size as int);
        pieces_hold_the_data(data, c.block_size as int);
        written_pieces_keep_the_inode(m, dest, pieces, opt, now);
    }
}

/// What is read at once is the content of the file, and so is what is downloaded at once. A local
/// file that is there is not replaced unless that is asked for.
pub proof fn reading_hands_out_the_file(
    m: Image,
    path: Seq<char>,
    block_size: usize,
    c: DownloadCommand,
    there: bool,
)
    ensures
        m.fread(path) is Ok ==> m.source(path, true, block_size) == Ok::<_, MainFault>(
            Source::Whole(m.fread(path)->Ok_0),
        ),
        m.fread(path) is Err ==> m.source(path, true, block_size) == Err::<Source, _>(
            MainFault::Command { err: CommandFault::Volume { err: m.fread(path)->Err_0 } },
        ),
        m.source(path, false, block_size) is Ok ==> m.source(path, false, block_size)->Ok_0
            is Pieces && m.pending(m.source(path, false, block_size)->Ok_0->Pieces_0) == m.fread(
            path,
        ),
        m.fread(path) is Ok ==> m.source(path, false, block_size) is Ok,
        there && !c.overwrite && destination(c.src_path@, opt_string(c.dest_path)) is Ok
            ==> m.download(c, there) == Err::<Left, _>(
            MainFault::Command { err: CommandFault::FileExists },
        ),
        (!there || c.overwrite) && destination(c.src_path@, opt_string(c.dest_path)) is Ok
            && m.source(c.src_path@, c.single_block, c.block_size) is Ok ==> m.download(c, there)
            == Ok::<_, MainFault>(
            Left::File {
                dest: destination(c.src_path@, opt_string(c.dest_path))->Ok_0,
                content: m.source(c.src_path@, c.single_block, c.block_size)->Ok_0,
            },
        ),
{
    stream_reads_the_file(m, path, block_size as nat);
}

/// The bytes that a source gives.
pub open spec fn given_bytes(m: Image, s: Source) -> Result<Seq<u8>, XHFSError> {
    match s {
        Source::Whole(data) => Ok(data),
        Source::Pieces(p) => m.pending(p),
    }
}

/// What was uploaded is what a download of it writes to the local file and what reading it prints,
/// whether each of them goes at once or piece by piece.
pub proof fn uploaded_file_is_downloaded(
    m: Image,
    u: UploadCommand,
    input: Input,
    d: DownloadCommand,
    r: ReadCommand,
    later: Input,
    has_devices: bool,
)
    requires
        grounded(m),
        u.single_block || u.block_size > 0,
        m.main_command(Commands::Upload(u), input, has_devices).1 is Ok,
        writable(m, destination(u.src_path@, opt_string(u.dest_path))->Ok_0),
        d.src_path@ == destination(u.src_path@, opt_string(u.dest_path))->Ok_0,
        destination(d.src_path@, opt_string(d.dest_path)) is Ok,
        !later.there || d.overwrite,
        r.src_path@ == d.src_path@,
    ensures
        ({
            let m2 = m.main_command(Commands::Upload(u), input, has_devices).0;
            let (m3, down) = m2.main_command(Commands::Download(d), later, has_devices);
            let (m4, out) = m2.main_command(Commands::Read(r), later, has_devices);
            &&& m3 == m2
            &&& m4 == m2
            &&& down is Ok
            &&& down->Ok_0 is File
            &&& down->Ok_0->File_dest == destination(d.src_path@, opt_string(d.dest_path))->Ok_0
            &&& given_bytes(m2, down->Ok_0->File_content) == Ok::<_, XHFSError>(input.data@)
            &&& out is Ok
            &&& out->Ok_0 is Print
            &&& given_bytes(m2, out->Ok_0->Print_0) == Ok::<_, XHFSError>(input.data@)
        }),
{
    uploaded_file_reads_back(m, u, input.data@, input.modified, input.now);
    let m2 = m.main_command(Commands::Upload(u), input, has_devices).0;
    stream_reads_the_file(m2, d.src_path@, d.block_size as nat);
    stream_reads_the_file(m2, r.src_path@, r.block_size as nat);
}

/// After formatting the number of bytes of the disk is told; a volume without devices has none. A
/// command on the volume prints its lines, and its fault is the fault of the program.
pub proof fn program_tells_what_was_done(
    m: Image,
    input: Input,
    c: FsCommands,
    u: UploadCommand,
    has_devices: bool,
)
    ensures
        has_devices ==> m.main_command(Commands::Format, input, has_devices).1 == Ok::<
            _,
            MainFault,
        >(Left::Formatted { capacity: m.disk.len() as int }),
        !has_devices ==> m.main_command(Commands::Format, input, has_devices).1 is Err,
        m.main_command(Commands::X(c), input, has_devices).0 == m.command(c.command, input.now).0,
        m.command(c.command, input.now).1 is Ok ==> m.main_command(
            Commands::X(c),
            input,
            has_devices,
        ).1 == Ok::<_, MainFault>(Left::Lines(m.command(c.command, input.now).1->Ok_0)),
        m.command(c.command, input.now).1 is Err ==> m.main_command(
            Commands::X(c),
            input,
            has_devices,
        ).1 == Err::<Left, _>(
            MainFault::Command { err: m.command(c.command, input.now).1->Err_0 },
        ),
        m.upload(u, input.data@, input.modified, input.now).1 is Ok ==> m.main_command(
            Commands::Upload(u),
            input,
            has_devices,
        ).1 == Ok::<_, MainFault>(Left::Nothing),
{
}

/// A line of a list starts with the kind; the time starts behind it, the size ends in a column of
/// its own, and the name of the entry comes last.
pub proof fn list_line_has_columns(
    kind: INodeKind,
    time: Seq<char>,
    size: Seq<char>,
    entry: Seq<char>,
)
    requires
        time.len() <= 20,
        size.len() <= 10,
    ensures
        ({
            let line = list_line(kind, time, size, entry);
            let word = match kind {
                INodeKind::File => "FILE"@,
                INodeKind::Directory => "DIR"@,
                INodeKind::Symlink => "LINK"@,
                INodeKind::Hardlink => "HARDLINK"@,
            };
            let w = if kind is Hardlink {
                8int
            } else {
                4int
            };
            &&& line.len() == w + 33 + entry.len()
            &&& line.subrange(0, word.len() as int) == word
            &&& line.subrange(w + 1, w + 1 + time.len()) == time
            &&& line.subrange(w + 32 - size.len(), w + 32) == size
            &&& line.subrange(w + 33, w + 33 + entry.len()) == entry
        }),
{
    reveal_strlit("FILE");
    reveal_strlit("DIR");
    reveal_strlit("LINK");
    reveal_strlit("HARDLINK");
    reveal_strlit(" ");
    let word = kind_word(kind);
    let w = if kind is Hardlink {
        8int
    } else {
        4int
    };
    filling_keeps_the_text(word, 4, ' ');
    filling_keeps_the_text(time, 20, ' ');
    filling_keeps_the_text(size, 10, ' ');
    let a = left_aligned(word, 4, ' ');
    let b = left_aligned(time, 20, ' ');
    let c = right_aligned(size, 10, ' ');
    let line = list_line(kind, time, size, entry);
    assert(a.len() == w && b.len() == 20 && c.len() == 10);
    assert(line.subrange(0, word.len() as int) =~= a.subrange(0, word.len() as int));
    assert(line.subrange(w + 1, w + 1 + time.len()) =~= b.subrange(0, time.len() as int));
    assert(line.subrange(w + 32 - size.len(), w + 32) =~= c.subrange(10 - size.len(), 10));
    assert(line.subrange(w + 33, w + 33 + entry.len()) =~= entry);
}

/// What a tree says of an entry stands in brackets: the kind first, and the size at the end.
pub proof fn tree_says_kind_and_size(kind: INodeKind, size: Seq<char>)
    requires
        size.len() <= 8,
    ensures
        ({
            let t = tree_info(kind, size);
            let word = match kind {
                INodeKind::File => "FILE"@,
                INodeKind::Directory => "DIRECTORY"@,
                INodeKind::Symlink => "SYMLINK"@,
                INodeKind::Hardlink => "HARDLINK"@,
            };
            &&& t.len() == word.len() + 12
            &&& t[1] == '['
            &&& t.subrange(2, word.len() + 2int) == word
            &&& t.subrange(t.len() - 1 - size.len(), t.len() - 1) == size
            &&& t.last() == ']'
        }),
{
    reveal_strlit("FILE");
    reveal_strlit("DIRECTORY");
    reveal_strlit("SYMLINK");
    reveal_strlit("HARDLINK");
    reveal_strlit(" ");
    reveal_strlit(" [");
    reveal_strlit("]");
    let word = kind_upper(kind);
    filling_keeps_the_text(word, 4, ' ');
    filling_keeps_the_text(size, 8, ' ');
    let c = right_aligned(size, 8, ' ');
    let t = tree_info(kind, size);
    assert(t.subrange(2, word.len() + 2int) =~= word);
    assert(t.subrange(t.len() - 1 - size.len(), t.len() - 1) =~= c.subrange(8 - size.len(), 8));
}

} // verus!
