//! Commands on a volume, and the lines that they print.
use crate::codec::copy_range;
use crate::device::Device;
use crate::error::{seen, XHFSError};
use crate::interface::number::{confirms, is_yes};
use crate::report::{byte_size_text, bytesize_display};
use crate::text::{align_left, align_right, left_aligned, right_aligned};
use crate::utils::{
    absolute, chars_of, chrono_plain, components, is_dot_dot, is_parent_name, normalize_path,
    opt_string, path_to_string_list, texts, u64_to_plain_datetime,
};
use crate::xhfs::dirs::names_of;
use crate::xhfs::ds::INodeKind;
use crate::xhfs::image::Image;
use crate::xhfs::ops::EntryStat;
use crate::xhfs::stream::piece_views;
use crate::xhfs::tree::{Stat, WriteOption};
use crate::xhfs::XHFS;
use vstd::prelude::*;
use vstd::string::*;

verus! {

/// Reason for which a command failed.
#[derive(Debug, Clone, Copy, PartialEq, Eq, Structural)]
pub enum CommandFault {
    Volume { err: XHFSError },
    /// No name can be derived from the source.
    NoDestination,
    /// There is a local file already.
    FileExists,
    /// Directories are not removed with what they hold.
    Unsupported,
    /// An entry that is listed is not there.
    MissingStat { index: usize },
    /// A time cannot be shown.
    BadTime,
    /// Directories lie too deep in one another.
    TooDeep,
}

/// Writes a local file to a volume.
#[derive(Debug, Clone, PartialEq, Eq)]
pub struct UploadCommand {
    pub src_path: String,
    pub dest_path: Option<String>,
    pub overwrite: bool,
    pub block_size: usize,
    pub single_block: bool,
}

/// The name that a path ends with.
pub open spec fn file_name(path: Seq<char>) -> Option<Seq<char>> {
    let parts = components(path);
    if parts.len() == 0 || is_dot_dot(parts.last()) {
        None
    } else {
        Some(parts.last())
    }
}

/// Where a copy of `src` goes.
pub open spec fn destination(src: Seq<char>, dest: Option<Seq<char>>) -> Result<
    Seq<char>,
    CommandFault,
> {
    match dest {
        Some(d) => Ok(d),
        None => match file_name(src) {
            Some(n) => Ok(n),
            None => Err(CommandFault::NoDestination),
        },
    }
}

/// Where a copy of `src` goes: to the wished path, else to the name of the source.
pub fn derive_destination(src: &str, dest: &Option<String>) -> (r: Result<String, CommandFault>)
    ensures
        seen(r) == destination(src@, opt_string(*dest)),
{
    match dest {
        Some(d) => Ok(d.clone()),
        None => {
            let parts = path_to_string_list(src);
            let n: usize = parts.len();
            assert(texts(parts@).len() == n);
            if n == 0 {
                return Err(CommandFault::NoDestination);
            }
            assert(texts(parts@).last() == parts@[n - 1]@);
            if is_parent_name(parts[n - 1].as_str()) {
                return Err(CommandFault::NoDestination);
            }
            Ok(parts[n - 1].clone())
        },
    }
}

/// A local file is replaced only if that is wished.
pub fn may_replace(there: bool, overwrite: bool) -> (r: Result<(), CommandFault>)
    ensures
        r == if there && !overwrite {
            Err::<(), CommandFault>(CommandFault::FileExists)
        } else {
            Ok(())
        },
{
    if there && !overwrite {
        Err(CommandFault::FileExists)
    } else {
        Ok(())
    }
}

/// A disk is formatted if that is forced or agreed to.
pub fn may_format(force: bool, answer: &str) -> (r: bool)
    ensures
        r == (force || is_yes(answer@)),
{
    force || confirms(answer)
}

/// Data as pieces of `size` bytes, the last of which may be shorter. Pieces without room stand
/// for a source from which nothing can be read.
pub open spec fn cut_pieces(data: Seq<u8>, size: int) -> Seq<Seq<u8>>
    decreases data.len(),
{
    if size <= 0 {
        seq![Seq::empty(), data]
    } else if data.len() == 0 {
        Seq::empty()
    } else if data.len() <= size {
        seq![data]
    } else {
        seq![data.subrange(0, size)] + cut_pieces(data.subrange(size, data.len() as int), size)
    }
}

/// Data as pieces of `size` bytes.
pub fn split_pieces(data: &[u8], size: usize) -> (r: Vec<Vec<u8>>)
    ensures
        piece_views(r@) == cut_pieces(data@, size as int),
{
    let n: usize = data.len();
    let mut out: Vec<Vec<u8>> = Vec::new();
    if size == 0 {
        let none: Vec<u8> = Vec::new();
        out.push(none);
        let all = copy_range(data, 0, n);
        assert(all@ =~= data@);
        out.push(all);
        assert(piece_views(out@) =~= cut_pieces(data@, 0));
        return out;
    }
    let mut at: usize = 0;
    assert(data@.subrange(0, n as int) =~= data@);
    assert(piece_views(out@) + cut_pieces(data@, size as int) =~= cut_pieces(data@, size as int));
    while at < n
        invariant
            at <= n,
            n == data@.len(),
            size > 0,
            cut_pieces(data@, size as int) == piece_views(out@) + cut_pieces(
                data@.subrange(at as int, n as int),
                size as int,
            ),
        decreases n - at,
    {
        let ghost had = piece_views(out@);
        let ghost rest = data@.subrange(at as int, n as int);
        let step: usize = if n - at <= size {
            n - at
        } else {
            size
        };
        let piece = copy_range(data, at, step);
        out.push(piece);
        proof {
            assert(piece_views(out@) =~= had.push(piece@));
            let after = data@.subrange(at + step, n as int);
            if n - at <= size {
                assert(piece@ =~= rest);
                assert(after =~= Seq::empty());
                assert(had + seq![rest] =~= piece_views(out@) + cut_pieces(after, size as int));
            } else {
                assert(piece@ =~= rest.subrange(0, size as int));
                assert(rest.subrange(size as int, rest.len() as int) =~= after);
                assert(had + (seq![piece@] + cut_pieces(after, size as int)) =~= piece_views(out@)
                    + cut_pieces(after, size as int));
            }
        }
        at = at + step;
    }
    assert(data@.subrange(at as int, n as int) =~= Seq::empty());
    assert(piece_views(out@) + Seq::<Seq<u8>>::empty() =~= piece_views(out@));
    out
}

impl Image {
    /// What an upload of `data` does to the volume.
    pub open spec fn upload(
        self,
        c: UploadCommand,
        data: Seq<u8>,
        modified: Option<u64>,
        now: u64,
    ) -> (Image, Result<(), CommandFault>) {
        let opt = WriteOption { overwrite: c.overwrite, modified };
        match destination(c.src_path@, opt_string(c.dest_path)) {
            Err(f) => (self, Err(f)),
            Ok(dest) => if c.single_block {
                said(self.blob_write(dest, data, INodeKind::File, opt, now))
            } else {
                said(
                    self.write_pieces_checked(
                        dest,
                        cut_pieces(data, c.block_size as int),
                        opt,
                        now,
                    ),
                )
            },
        }
    }
}

impl UploadCommand {
    /// Writes the content of the source to the volume, in one piece or block by block.
    pub fn run<D: Device>(
        &self,
        xhfs: &mut XHFS<D>,
        data: Vec<u8>,
        modified: Option<u64>,
        now: u64,
    ) -> (r: Result<(), CommandFault>)
        requires
            old(xhfs).wf(),
        ensures
            XHFS::kept(old(xhfs), final(xhfs)),
            old(xhfs).obeys(r is Ok) ==> (final(xhfs).image(), r) == old(xhfs).image().upload(
                *self,
                data@,
                modified,
                now,
            ),
    {
        let dest = match derive_destination(self.src_path.as_str(), &self.dest_path) {
            Ok(d) => d,
            Err(f) => return Err(f),
        };
        let opt = WriteOption { overwrite: self.overwrite, modified };
        let written = if self.single_block {
            xhfs.fwrite_at(dest.as_str(), data, opt, now)
        } else {
            let pieces = split_pieces(data.as_slice(), self.block_size);
            xhfs.fwrite_stream(dest.as_str(), pieces, opt, now)
        };
        match written {
            Ok(()) => Ok(()),
            Err(err) => Err(CommandFault::Volume { err }),
        }
    }
}

/// A step whose error is a fault of the volume.
pub open spec fn said<T>(p: (Image, Result<T, XHFSError>)) -> (Image, Result<T, CommandFault>) {
    match p.1 {
        Ok(t) => (p.0, Ok(t)),
        Err(err) => (p.0, Err(CommandFault::Volume { err })),
    }
}

/// The path of an entry of a directory.
pub open spec fn joined_path(path: Seq<char>, entry: Seq<char>) -> Seq<char> {
    if entry.len() > 0 && entry[0] == '/' {
        entry
    } else if path.len() == 0 || path.last() == '/' {
        path + entry
    } else {
        path + "/"@ + entry
    }
}

/// The path of an entry of a directory.
pub fn join_path(path: &str, entry: &str) -> (r: String)
    ensures
        r@ == joined_path(path@, entry@),
{
    let e = chars_of(entry);
    if e.len() > 0 && e[0] == '/' {
        return entry.to_owned();
    }
    let p = chars_of(path);
    let n: usize = p.len();
    let mut out: String = path.to_owned();
    if n > 0 && p[n - 1] != '/' {
        out.append("/");
    }
    out.append(entry);
    out
}

/// The word for a kind in a list.
pub open spec fn kind_word(k: INodeKind) -> Seq<char> {
    match k {
        INodeKind::File => "FILE"@,
        INodeKind::Directory => "DIR"@,
        INodeKind::Symlink => "LINK"@,
        INodeKind::Hardlink => "HARDLINK"@,
    }
}

/// The word for a kind in a list.
fn word_of_kind(k: &INodeKind) -> (r: String)
    ensures
        r@ == kind_word(*k),
{
    match k {
        INodeKind::File => "FILE".to_owned(),
        INodeKind::Directory => "DIR".to_owned(),
        INodeKind::Symlink => "LINK".to_owned(),
        INodeKind::Hardlink => "HARDLINK".to_owned(),
    }
}

/// The word for a kind in a tree.
pub open spec fn kind_upper(k: INodeKind) -> Seq<char> {
    match k {
        INodeKind::File => "FILE"@,
        INodeKind::Directory => "DIRECTORY"@,
        INodeKind::Symlink => "SYMLINK"@,
        INodeKind::Hardlink => "HARDLINK"@,
    }
}

/// The word for a kind in a tree.
fn upper_kind(k: &INodeKind) -> (r: String)
    ensures
        r@ == kind_upper(*k),
{
    match k {
        INodeKind::File => "FILE".to_owned(),
        INodeKind::Directory => "DIRECTORY".to_owned(),
        INodeKind::Symlink => "SYMLINK".to_owned(),
        INodeKind::Hardlink => "HARDLINK".to_owned(),
    }
}

/// The size of an entry as text; directories have none.
pub open spec fn size_word(s: Stat) -> Seq<char> {
    if s.kind is Directory {
        "-"@
    } else {
        bytesize_display(
            match s.size {
                Some(n) => n as u64,
                None => 0,
            },
        )
    }
}

/// The size of an entry as text.
fn word_of_size(s: &EntryStat) -> (r: String)
    ensures
        r@ == size_word(s@),
{
    if let INodeKind::Directory = s.kind {
        "-".to_owned()
    } else {
        let n: u64 = match s.size {
            Some(n) => n as u64,
            None => 0,
        };
        byte_size_text(n)
    }
}

/// A line of a list, for given texts of the time and the size.
pub open spec fn list_line(
    kind: INodeKind,
    time: Seq<char>,
    size: Seq<char>,
    entry: Seq<char>,
) -> Seq<char> {
    left_aligned(kind_word(kind), 4, ' ') + " "@ + left_aligned(time, 20, ' ') + " "@
        + right_aligned(size, 10, ' ') + " "@ + entry
}

/// A line of a list.
pub fn format_list_line(kind: &INodeKind, time: &str, size: &str, entry: &str) -> (r: String)
    ensures
        r@ == list_line(*kind, time@, size@, entry@),
{
    let mut out = align_left(word_of_kind(kind).as_str(), 4, ' ');
    out.append(" ");
    out.append(align_left(time, 20, ' ').as_str());
    out.append(" ");
    out.append(align_right(size, 10, ' ').as_str());
    out.append(" ");
    out.append(entry);
    out
}

/// What a tree says of an entry behind its name, for a given text of its size.
pub open spec fn tree_info(kind: INodeKind, size: Seq<char>) -> Seq<char> {
    " ["@ + left_aligned(kind_upper(kind), 4, ' ') + " "@ + right_aligned(size, 8, ' ') + "]"@
}

/// What a tree says of an entry behind its name.
pub fn format_tree_info(kind: &INodeKind, size: &str) -> (r: String)
    ensures
        r@ == tree_info(*kind, size@),
{
    let mut out: String = " [".to_owned();
    out.append(align_left(upper_kind(kind).as_str(), 4, ' ').as_str());
    out.append(" ");
    out.append(align_right(size, 8, ' ').as_str());
    out.append("]");
    out
}

/// Lists a directory.
#[derive(Debug, Clone, PartialEq, Eq)]
pub struct LsCommand {
    pub path: String,
    pub tree: bool,
    pub recursive: bool,
    pub verbose: bool,
}

/// Copies a file.
#[derive(Debug, Clone, PartialEq, Eq)]
pub struct CopyCommand {
    pub src: String,
    pub dest: String,
    pub overwrite: bool,
}

/// Gives an entry another name or parent.
#[derive(Debug, Clone, PartialEq, Eq)]
pub struct MoveCommand {
    pub src: String,
    pub dest: String,
}

/// Does something with one path.
#[derive(Debug, Clone, PartialEq, Eq)]
pub struct PathCommand {
    pub path: String,
    pub recursive: bool,
}

/// Makes a link.
#[derive(Debug, Clone, PartialEq, Eq)]
pub struct LinkCommand {
    pub src_path: String,
    pub dest_path: String,
    pub symlink: bool,
    pub overwrite: bool,
}

/// What to do with a volume.
#[derive(Debug, Clone, PartialEq, Eq)]
pub enum FsSubcommands {
    Ls(LsCommand),
    Cp(CopyCommand),
    Mv(MoveCommand),
    Stats(PathCommand),
    Rm(PathCommand),
    Mkdir(PathCommand),
    Ln(LinkCommand),
}

/// A command on a volume.
#[derive(Debug, Clone, PartialEq, Eq)]
pub struct FsCommands {
    pub command: FsSubcommands,
}

/// The lines that say what is known of an entry, for given texts of its times and its size.
pub open spec fn stat_lines(
    path: Seq<char>,
    kind: INodeKind,
    size: Seq<char>,
    created: Seq<char>,
    modified: Seq<char>,
) -> Seq<Seq<char>> {
    seq![
        "Path: "@ + absolute(components(path)),
        "Type: "@ + kind_word(kind),
        "Size: "@ + size,
        " Created Time: "@ + created,
        " Modified Time: "@ + modified,
    ]
}

/// One text behind another.
fn labelled(label: &str, text: &str) -> (r: String)
    ensures
        r@ == label@ + text@,
{
    let mut out: String = label.to_owned();
    out.append(text);
    out
}

/// The lines that say what is known of an entry.
pub fn format_stat_lines(
    path: &str,
    kind: &INodeKind,
    size: &str,
    created: &str,
    modified: &str,
) -> (r: Vec<String>)
    ensures
        texts(r@) == stat_lines(path@, *kind, size@, created@, modified@),
{
    let mut out: Vec<String> = Vec::new();
    out.push(labelled("Path: ", normalize_path(path).as_str()));
    out.push(labelled("Type: ", word_of_kind(kind).as_str()));
    out.push(labelled("Size: ", size));
    out.push(labelled(" Created Time: ", created));
    out.push(labelled(" Modified Time: ", modified));
    assert(texts(out@) =~= stat_lines(path@, *kind, size@, created@, modified@));
    out
}

impl Image {
    /// The line for the entry at position `i` of a list.
    pub open spec fn ls_line(self, c: LsCommand, entry: Seq<char>, i: int) -> Result<
        Seq<char>,
        CommandFault,
    > {
        if !c.verbose {
            Ok(entry)
        } else {
            match self.stats(joined_path(c.path@, entry), c.recursive) {
                Err(err) => Err(CommandFault::Volume { err }),
                Ok(None) => Err(CommandFault::MissingStat { index: i as usize }),
                Ok(Some(s)) => match chrono_plain(s.ctime as i64) {
                    None => Err(CommandFault::BadTime),
                    Some(t) => Ok(list_line(s.kind, t, size_word(s), entry)),
                },
            }
        }
    }

    /// The lines for the first `n` entries of a list.
    pub open spec fn ls_lines(self, c: LsCommand, names: Seq<Seq<char>>, n: nat) -> Result<
        Seq<Seq<char>>,
        CommandFault,
    >
        decreases n,
    {
        if n == 0 {
            Ok(Seq::empty())
        } else {
            match self.ls_lines(c, names, (n - 1) as nat) {
                Err(f) => Err(f),
                Ok(before) => match self.ls_line(c, names[n - 1], n - 1) {
                    Err(f) => Err(f),
                    Ok(line) => Ok(before.push(line)),
                },
            }
        }
    }

    /// The lines for a directory.
    pub open spec fn ls_command(self, c: LsCommand) -> Result<Seq<Seq<char>>, CommandFault> {
        match self.list(c.path@, self.disk.len()) {
            Err(err) => Err(CommandFault::Volume { err }),
            Ok(e) => self.ls_lines(c, names_of(e), e.len()),
        }
    }

    /// The lines for a directory and all that lies in it.
    pub open spec fn tree_lines(
        self,
        c: LsCommand,
        path: Seq<char>,
        prefix: Seq<char>,
        fuel: nat,
    ) -> Result<Seq<Seq<char>>, CommandFault>
        decreases fuel, 1nat, 0nat,
    {
        match self.list(path, self.disk.len()) {
            Err(err) => Err(CommandFault::Volume { err }),
            Ok(e) => self.tree_rows(c, path, prefix, names_of(e), e.len(), fuel),
        }
    }

    /// The lines for the first `n` entries of a directory and all that lies in them.
    pub open spec fn tree_rows(
        self,
        c: LsCommand,
        path: Seq<char>,
        prefix: Seq<char>,
        names: Seq<Seq<char>>,
        n: nat,
        fuel: nat,
    ) -> Result<Seq<Seq<char>>, CommandFault>
        decreases fuel, 0nat, n,
    {
        if n == 0 {
            Ok(Seq::empty())
        } else {
            match self.tree_rows(c, path, prefix, names, (n - 1) as nat, fuel) {
                Err(f) => Err(f),
                Ok(before) => {
                    let entry = names[n - 1];
                    let last = n == names.len();
                    let full = joined_path(path, entry);
                    match self.stats(full, c.recursive) {
                        Err(err) => Err(CommandFault::Volume { err }),
                        Ok(stat) => {
                            let lines = before.push(tree_line(c, prefix, last, entry, stat));
                            if stat is Some && stat->0.kind is Directory {
                                if fuel == 0 {
                                    Err(CommandFault::TooDeep)
                                } else {
                                    match self.tree_lines(
                                        c,
                                        full,
                                        prefix + deeper(last),
                                        (fuel - 1) as nat,
                                    ) {
                                        Err(f) => Err(f),
                                        Ok(below) => Ok(lines + below),
                                    }
                                }
                            } else {
                                Ok(lines)
                            }
                        },
                    }
                },
            }
        }
    }

    /// The lines for what is known of an entry.
    pub open spec fn stats_command(self, c: PathCommand) -> Result<Seq<Seq<char>>, CommandFault> {
        match self.stats(c.path@, c.recursive) {
            Err(err) => Err(CommandFault::Volume { err }),
            Ok(None) => Ok(
                seq!["Path "@ + absolute(components(c.path@)) + " does not exist"@],
            ),
            Ok(Some(s)) => match (chrono_plain(s.ctime as i64), chrono_plain(s.mtime as i64)) {
                (Some(created), Some(modified)) => Ok(
                    stat_lines(c.path@, s.kind, size_word(s), created, modified),
                ),
                _ => Err(CommandFault::BadTime),
            },
        }
    }

    /// What a command does to the volume, and the lines that it prints.
    pub open spec fn command(self, c: FsSubcommands, now: u64) -> (
        Image,
        Result<Seq<Seq<char>>, CommandFault>,
    ) {
        match c {
            FsSubcommands::Ls(ls) => (
                self,
                if ls.tree {
                    self.tree_lines(ls, ls.path@, Seq::empty(), self.disk.len())
                } else {
                    self.ls_command(ls)
                },
            ),
            FsSubcommands::Cp(cp) => quiet(
                self.fcopy(
                    cp.src@,
                    cp.dest@,
                    WriteOption { overwrite: cp.overwrite, modified: None },
                    now,
                ),
            ),
            FsSubcommands::Mv(mv) => quiet(self.fmove(mv.src@, mv.dest@, now)),
            FsSubcommands::Stats(p) => (self, self.stats_command(p)),
            FsSubcommands::Rm(p) => if p.recursive {
                (self, Err(CommandFault::Unsupported))
            } else {
                quiet(self.unlink(p.path@, now))
            },
            FsSubcommands::Mkdir(p) => quiet(self.mkdir(p.path@, p.recursive, now)),
            FsSubcommands::Ln(ln) => {
                let opt = WriteOption { overwrite: ln.overwrite, modified: None };
                if ln.symlink {
                    quiet(self.symlink(ln.dest_path@, ln.src_path@, opt, now))
                } else {
                    quiet(self.hardlink(ln.dest_path@, ln.src_path@, opt, now))
                }
            },
        }
    }
}

/// A step that prints nothing.
pub open spec fn quiet<T>(p: (Image, Result<T, XHFSError>)) -> (
    Image,
    Result<Seq<Seq<char>>, CommandFault>,
) {
    match p.1 {
        Ok(_) => (p.0, Ok(Seq::empty())),
        Err(err) => (p.0, Err(CommandFault::Volume { err })),
    }
}

/// What the lines below an entry of a tree start with.
pub open spec fn deeper(last: bool) -> Seq<char> {
    if last {
        "    "@
    } else {
        "│   "@
    }
}

/// The line for an entry of a tree.
pub open spec fn tree_line(
    c: LsCommand,
    prefix: Seq<char>,
    last: bool,
    entry: Seq<char>,
    stat: Option<Stat>,
) -> Seq<char> {
    prefix + (if last {
        "└── "@
    } else {
        "├── "@
    }) + entry + (if c.verbose && stat is Some {
        tree_info(stat->0.kind, size_word(stat->0))
    } else {
        Seq::empty()
    })
}

/// Lists that fail early fail the same way later.
proof fn lemma_ls_err(m: Image, c: LsCommand, names: Seq<Seq<char>>, a: nat, b: nat)
    requires
        a <= b,
        m.ls_lines(c, names, a) is Err,
    ensures
        m.ls_lines(c, names, b) == m.ls_lines(c, names, a),
    decreases b,
{
    if a < b {
        lemma_ls_err(m, c, names, a, (b - 1) as nat);
    }
}

/// Trees that fail early fail the same way later.
proof fn lemma_tree_err(
    m: Image,
    c: LsCommand,
    path: Seq<char>,
    prefix: Seq<char>,
    names: Seq<Seq<char>>,
    a: nat,
    b: nat,
    fuel: nat,
)
    requires
        a <= b,
        m.tree_rows(c, path, prefix, names, a, fuel) is Err,
    ensures
        m.tree_rows(c, path, prefix, names, b, fuel) == m.tree_rows(
            c,
            path,
            prefix,
            names,
            a,
            fuel,
        ),
    decreases b,
{
    if a < b {
        lemma_tree_err(m, c, path, prefix, names, a, (b - 1) as nat, fuel);
    }
}

/// Lines with their texts taken by their views.
pub open spec fn seen_lines(r: Result<Vec<String>, CommandFault>) -> Result<
    Seq<Seq<char>>,
    CommandFault,
> {
    match r {
        Ok(v) => Ok(texts(v@)),
        Err(f) => Err(f),
    }
}

impl LsCommand {
    /// The line for the entry at position `i` of a list.
    fn line<D: Device>(&self, xhfs: &XHFS<D>, entry: &String, i: usize) -> (r: Result<
        String,
        CommandFault,
    >)
        requires
            xhfs.wf(),
        ensures
            xhfs.tells(r is Ok) ==> seen(r) == xhfs.image().ls_line(
                *self,
                entry@,
                i as int,
            ),
    {
        if !self.verbose {
            return Ok(entry.clone());
        }
        let full = join_path(self.path.as_str(), entry.as_str());
        let stat = match xhfs.stats(full.as_str(), self.recursive) {
            Ok(Some(s)) => s,
            Ok(None) => return Err(CommandFault::MissingStat { index: i }),
            Err(err) => return Err(CommandFault::Volume { err }),
        };
        match u64_to_plain_datetime(stat.ctime) {
            Some(t) => Ok(
                format_list_line(
                    &stat.kind,
                    t.as_str(),
                    word_of_size(&stat).as_str(),
                    entry.as_str(),
                ),
            ),
            None => Err(CommandFault::BadTime),
        }
    }

    /// The lines for a directory.
    pub fn ls<D: Device>(&self, xhfs: &XHFS<D>) -> (r: Result<Vec<String>, CommandFault>)
        requires
            xhfs.wf(),
        ensures
            xhfs.tells(r is Ok) ==> seen_lines(r) == xhfs.image().ls_command(*self),
    {
        let ghost m = xhfs.image();
        let names = match xhfs.ls(self.path.as_str()) {
            Ok(v) => v,
            Err(err) => return Err(CommandFault::Volume { err }),
        };
        let n: usize = names.len();
        let ghost all = texts(names@);
        let mut out: Vec<String> = Vec::new();
        let mut i: usize = 0;
        assert(all.len() == n);
        assert(texts(out@) =~= Seq::empty());
        while i < n
            invariant
                i <= n,
                n == names@.len(),
                all == texts(names@),
                xhfs.wf(),
                m == xhfs.image(),
                xhfs.tells(true) ==> m.ls_command(*self) == m.ls_lines(*self, all, n as nat),
                xhfs.tells(true) ==> m.ls_lines(*self, all, i as nat) == Ok::<_, CommandFault>(
                    texts(out@),
                ),
            decreases n - i,
        {
            let ghost had = texts(out@);
            match self.line(xhfs, &names[i], i) {
                Ok(line) => {
                    out.push(line);
                    assert(texts(out@) =~= had.push(line@));
                },
                Err(f) => {
                    proof {
                        if xhfs.tells(false) {
                            lemma_ls_err(m, *self, all, (i + 1) as nat, n as nat);
                        }
                    }
                    return Err(f);
                },
            }
            i = i + 1;
        }
        Ok(out)
    }

    /// The line for an entry of a tree.
    fn tree_entry(&self, prefix: &str, last: bool, entry: &str, stat: &Option<EntryStat>) -> (r:
        String)
        ensures
            r@ == tree_line(
                *self,
                prefix@,
                last,
                entry@,
                match *stat {
                    Some(s) => Some(s@),
                    None => None,
                },
            ),
    {
        let mut out: String = prefix.to_owned();
        if last {
            out.append("└── ");
        } else {
            out.append("├── ");
        }
        out.append(entry);
        let ghost head = out@;
        if self.verbose {
            match stat {
                Some(s) => {
                    out.append(format_tree_info(&s.kind, word_of_size(s).as_str()).as_str());
                },
                None => {
                    assert(head =~= head + Seq::<char>::empty());
                },
            }
        } else {
            assert(head =~= head + Seq::<char>::empty());
        }
        out
    }

    /// The lines for a directory and all that lies in it.
    fn print_tree<D: Device>(&self, xhfs: &XHFS<D>, path: &str, prefix: &str, fuel: u64) -> (r:
        Result<Vec<String>, CommandFault>)
        requires
            xhfs.wf(),
        ensures
            xhfs.tells(false) ==> seen_lines(r) == xhfs.image().tree_lines(
                *self,
                path@,
                prefix@,
                fuel as nat,
            ),
        decreases fuel,
    {
        let ghost m = xhfs.image();
        let names = match xhfs.ls(path) {
            Ok(v) => v,
            Err(err) => return Err(CommandFault::Volume { err }),
        };
        let n: usize = names.len();
        let ghost all = texts(names@);
        let mut out: Vec<String> = Vec::new();
        let mut i: usize = 0;
        assert(texts(out@) =~= Seq::empty());
        while i < n
            invariant
                i <= n,
                n == names@.len(),
                all == texts(names@),
                xhfs.wf(),
                m == xhfs.image(),
                xhfs.tells(false) ==> m.tree_lines(*self, path@, prefix@, fuel as nat) == m.tree_rows(
                    *self,
                    path@,
                    prefix@,
                    all,
                    n as nat,
                    fuel as nat,
                ),
                xhfs.tells(false) ==> m.tree_rows(
                    *self,
                    path@,
                    prefix@,
                    all,
                    i as nat,
                    fuel as nat,
                ) == Ok::<_, CommandFault>(texts(out@)),
            decreases n - i,
        {
            let ghost had = texts(out@);
            let last = i + 1 == n;
            let full = join_path(path, names[i].as_str());
            assert(all[i as int] == names@[i as int]@);
            proof {
                if xhfs.tells(false) && m.tree_rows(
                    *self,
                    path@,
                    prefix@,
                    all,
                    (i + 1) as nat,
                    fuel as nat,
                ) is Err {
                    lemma_tree_err(
                        m,
                        *self,
                        path@,
                        prefix@,
                        all,
                        (i + 1) as nat,
                        n as nat,
                        fuel as nat,
                    );
                }
            }
            let stat = match xhfs.stats(full.as_str(), self.recursive) {
                Ok(s) => s,
                Err(err) => return Err(CommandFault::Volume { err }),
            };
            let line = self.tree_entry(prefix, last, names[i].as_str(), &stat);
            out.push(line);
            assert(texts(out@) =~= had.push(line@));
            let is_dir = match &stat {
                Some(s) => matches!(s.kind, INodeKind::Directory),
                None => false,
            };
            if is_dir {
                if fuel == 0 {
                    return Err(CommandFault::TooDeep);
                }
                let below_prefix = labelled(
                    prefix,
                    if last {
                        "    "
                    } else {
                        "│   "
                    },
                );
                let mut below = match self.print_tree(
                    xhfs,
                    full.as_str(),
                    below_prefix.as_str(),
                    fuel - 1,
                ) {
                    Ok(v) => v,
                    Err(f) => return Err(f),
                };
                let ghost lines = texts(out@);
                let ghost more = texts(below@);
                out.append(&mut below);
                assert(texts(out@) =~= lines + more);
            }
            i = i + 1;
        }
        Ok(out)
    }

    /// The lines for a directory and all that lies in it.
    pub fn tree<D: Device>(&self, xhfs: &XHFS<D>) -> (r: Result<Vec<String>, CommandFault>)
        requires
            xhfs.wf(),
        ensures
            xhfs.tells(false) ==> seen_lines(r) == xhfs.image().tree_lines(
                *self,
                self.path@,
                Seq::empty(),
                xhfs.image().disk.len(),
            ),
    {
        let fuel: u64 = xhfs.disk_size();
        proof {
            reveal_strlit("");
            assert(""@ =~= Seq::empty());
        }
        self.print_tree(xhfs, self.path.as_str(), "", fuel)
    }
}

impl PathCommand {
    /// The lines for what is known of an entry.
    pub fn stats<D: Device>(&self, xhfs: &XHFS<D>) -> (r: Result<Vec<String>, CommandFault>)
        requires
            xhfs.wf(),
        ensures
            xhfs.tells(r is Ok && r->Ok_0@.len() > 1) ==> seen_lines(r)
                == xhfs.image().stats_command(*self),
    {
        let found = match xhfs.stats(self.path.as_str(), self.recursive) {
            Ok(s) => s,
            Err(err) => return Err(CommandFault::Volume { err }),
        };
        match found {
            Some(stat) => match (
                u64_to_plain_datetime(stat.ctime),
                u64_to_plain_datetime(stat.mtime),
            ) {
                (Some(created), Some(modified)) => Ok(
                    format_stat_lines(
                        self.path.as_str(),
                        &stat.kind,
                        word_of_size(&stat).as_str(),
                        created.as_str(),
                        modified.as_str(),
                    ),
                ),
                _ => Err(CommandFault::BadTime),
            },
            None => {
                let mut line = labelled("Path ", normalize_path(self.path.as_str()).as_str());
                line.append(" does not exist");
                let mut out: Vec<String> = Vec::new();
                out.push(line);
                assert(texts(out@) =~= seq![line@]);
                Ok(out)
            },
        }
    }

    /// Removes an entry.
    pub fn rm<D: Device>(&self, xhfs: &mut XHFS<D>, now: u64) -> (r: Result<(), CommandFault>)
        requires
            old(xhfs).wf(),
        ensures
            XHFS::kept(old(xhfs), final(xhfs)),
            old(xhfs).obeys(r is Ok) ==> (final(xhfs).image(), r) == if self.recursive {
                (old(xhfs).image(), Err(CommandFault::Unsupported))
            } else {
                said(old(xhfs).image().unlink(self.path@, now))
            },
    {
        if self.recursive {
            return Err(CommandFault::Unsupported);
        }
        match xhfs.unlink_at(self.path.as_str(), now) {
            Ok(()) => Ok(()),
            Err(err) => Err(CommandFault::Volume { err }),
        }
    }

    /// Makes a directory.
    pub fn mkdir<D: Device>(&self, xhfs: &mut XHFS<D>, now: u64) -> (r: Result<
        bool,
        CommandFault,
    >)
        requires
            old(xhfs).wf(),
        ensures
            XHFS::kept(old(xhfs), final(xhfs)),
            old(xhfs).obeys(r is Ok) ==> (final(xhfs).image(), r) == said(
                old(xhfs).image().mkdir(self.path@, self.recursive, now),
            ),
    {
        match xhfs.mkdir_at(self.path.as_str(), self.recursive, now) {
            Ok(made) => Ok(made),
            Err(err) => Err(CommandFault::Volume { err }),
        }
    }
}

impl CopyCommand {
    /// Copies the file.
    pub fn run<D: Device>(&self, xhfs: &mut XHFS<D>, now: u64) -> (r: Result<(), CommandFault>)
        requires
            old(xhfs).wf(),
        ensures
            XHFS::kept(old(xhfs), final(xhfs)),
            old(xhfs).obeys(r is Ok) ==> (final(xhfs).image(), r) == said(
                old(xhfs).image().fcopy(
                    self.src@,
                    self.dest@,
                    WriteOption { overwrite: self.overwrite, modified: None },
                    now,
                ),
            ),
    {
        let opt = WriteOption { overwrite: self.overwrite, modified: None };
        match xhfs.fcopy_at(self.src.as_str(), self.dest.as_str(), opt, now) {
            Ok(()) => Ok(()),
            Err(err) => Err(CommandFault::Volume { err }),
        }
    }
}

impl MoveCommand {
    /// Moves the entry.
    pub fn run<D: Device>(&self, xhfs: &mut XHFS<D>, now: u64) -> (r: Result<(), CommandFault>)
        requires
            old(xhfs).wf(),
        ensures
            XHFS::kept(old(xhfs), final(xhfs)),
            old(xhfs).obeys(r is Ok) ==> (final(xhfs).image(), r) == said(
                old(xhfs).image().fmove(self.src@, self.dest@, now),
            ),
    {
        match xhfs.fmove_at(self.src.as_str(), self.dest.as_str(), now) {
            Ok(()) => Ok(()),
            Err(err) => Err(CommandFault::Volume { err }),
        }
    }
}

impl LinkCommand {
    /// Makes the link: symbolic if that is wished, else hard.
    pub fn run<D: Device>(&self, xhfs: &mut XHFS<D>, now: u64) -> (r: Result<(), CommandFault>)
        requires
            old(xhfs).wf(),
        ensures
            XHFS::kept(old(xhfs), final(xhfs)),
            old(xhfs).obeys(r is Ok) ==> ({
                let opt = WriteOption { overwrite: self.overwrite, modified: None };
                (final(xhfs).image(), r) == if self.symlink {
                    said(old(xhfs).image().symlink(self.dest_path@, self.src_path@, opt, now))
                } else {
                    said(old(xhfs).image().hardlink(self.dest_path@, self.src_path@, opt, now))
                }
            }),
    {
        let opt = WriteOption { overwrite: self.overwrite, modified: None };
        let made = if self.symlink {
            xhfs.create_symlink_at(self.dest_path.as_str(), self.src_path.as_str(), opt, now)
        } else {
            xhfs.create_hardlink_at(self.dest_path.as_str(), self.src_path.as_str(), opt, now)
        };
        match made {
            Ok(()) => Ok(()),
            Err(err) => Err(CommandFault::Volume { err }),
        }
    }
}

impl FsSubcommands {
    /// What the command answers holds, given the lines that it printed if it succeeded: that of
    /// the part that it calls. An entry that cannot be read counts as not there, so what a tree
    /// leaves out, and that a path leads nowhere, is sure only where reads are.
    pub open spec fn answers<D: Device>(&self, xhfs: &XHFS<D>, lines: Option<Seq<Seq<char>>>) -> bool {
        match self {
            FsSubcommands::Ls(ls) => if ls.tree {
                xhfs.tells(false)
            } else {
                xhfs.tells(lines is Some)
            },
            FsSubcommands::Stats(_) => xhfs.tells(lines is Some && lines->0.len() > 1),
            _ => xhfs.obeys(lines is Some),
        }
    }
}

impl FsCommands {
    /// Runs the command and gives the lines that it prints.
    pub fn run<D: Device>(&self, xhfs: &mut XHFS<D>, now: u64) -> (r: Result<
        Vec<String>,
        CommandFault,
    >)
        requires
            old(xhfs).wf(),
        ensures
            XHFS::kept(old(xhfs), final(xhfs)),
            self.command.answers(
                old(xhfs),
                match seen_lines(r) {
                    Ok(lines) => Some(lines),
                    Err(_) => None,
                },
            ) ==> (final(xhfs).image(), seen_lines(r)) == old(xhfs).image().command(
                self.command,
                now,
            ),
    {
        let done = match &self.command {
            FsSubcommands::Ls(ls) => {
                return if ls.tree {
                    ls.tree(xhfs)
                } else {
                    ls.ls(xhfs)
                };
            },
            FsSubcommands::Stats(p) => return p.stats(xhfs),
            FsSubcommands::Cp(cp) => cp.run(xhfs, now),
            FsSubcommands::Mv(mv) => mv.run(xhfs, now),
            FsSubcommands::Rm(p) => p.rm(xhfs, now),
            FsSubcommands::Mkdir(p) => match p.mkdir(xhfs, now) {
                Ok(_) => Ok(()),
                Err(f) => Err(f),
            },
            FsSubcommands::Ln(ln) => ln.run(xhfs, now),
        };
        match done {
            Ok(()) => {
                let none: Vec<String> = Vec::new();
                assert(texts(none@) =~= Seq::empty());
                Ok(none)
            },
            Err(f) => Err(f),
        }
    }
}

/// The configuration file: the one that is named, else the one of the environment, else
/// `xhfs.yaml`.
pub fn resolve_config_path(named: Option<String>, environment: Option<String>) -> (r: String)
    ensures
        r@ == match (opt_string(named), opt_string(environment)) {
            (Some(n), _) => n,
            (None, Some(e)) => e,
            (None, None) => "xhfs.yaml"@,
        },
{
    match named {
        Some(n) => n,
        None => match environment {
            Some(e) => e,
            None => "xhfs.yaml".to_owned(),
        },
    }
}

/// The password: the one that was typed, else the configured one, else the one of the environment.
/// Typing nothing when asked leaves the environment out.
pub fn resolve_password(
    asked: Option<String>,
    configured: Option<String>,
    environment: Option<String>,
) -> (r: Option<String>)
    ensures
        opt_string(r) == match opt_string(asked) {
            Some(p) => if p.len() > 0 {
                Some(p)
            } else {
                opt_string(configured)
            },
            None => if configured is Some {
                opt_string(configured)
            } else {
                opt_string(environment)
            },
        },
{
    match asked {
        Some(p) => {
            if chars_of(p.as_str()).len() > 0 {
                Some(p)
            } else {
                configured
            }
        },
        None => match configured {
            Some(c) => Some(c),
            None => environment,
        },
    }
}

} // verus!
