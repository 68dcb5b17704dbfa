//! The commands of the program on a volume.
use crate::device::Device;
use crate::error::{seen, Fault, XHFSError};
use crate::interface::cli::{
    derive_destination, destination, may_replace, CommandFault, FsCommands, UploadCommand,
};
use crate::interface::inspect::{InspectFault, InspectReply, InspectSubcommands, Shown};
use crate::report::volume_text;
use crate::utils::{opt_string, texts};
use crate::xhfs::image::Image;
use crate::xhfs::stream::{ExtentStream, Pipe};
use crate::xhfs::XHFS;
use vstd::prelude::*;
use vstd::string::*;

verus! {

/// Copies a file of the volume to a local file.
#[derive(Debug, Clone, PartialEq, Eq)]
pub struct DownloadCommand {
    pub src_path: String,
    pub dest_path: Option<String>,
    pub overwrite: bool,
    pub block_size: usize,
    pub single_block: bool,
}

/// Prints a file of the volume.
#[derive(Debug, Clone, PartialEq, Eq)]
pub struct ReadCommand {
    pub src_path: String,
    pub block_size: usize,
    pub single_block: bool,
}

/// What to do with an opened volume.
#[derive(Debug, Clone, PartialEq, Eq)]
pub enum Commands {
    Upload(UploadCommand),
    Download(DownloadCommand),
    Read(ReadCommand),
    Format,
    Info,
    X(FsCommands),
    Inspect(InspectSubcommands),
}

/// One call of the program.
#[derive(Debug, Clone, PartialEq, Eq)]
pub struct MainCommand {
    pub command: Commands,
}

/// What a command takes from outside: the content and time of the local file to upload, whether
/// the local file to download to is there, and the time.
pub struct Input {
    pub data: Vec<u8>,
    pub modified: Option<u64>,
    pub there: bool,
    pub now: u64,
}

/// Reason for which a command failed.
#[derive(Debug, Clone, Copy, PartialEq, Eq, Structural)]
pub enum MainFault {
    Command { err: CommandFault },
    Inspect { err: InspectFault },
}

/// The content of a file: at once, or a stream that hands it out piece by piece.
pub enum Content {
    Whole(Vec<u8>),
    Pieces(ExtentStream),
}

/// The value of a content.
pub enum Source {
    Whole(Seq<u8>),
    Pieces(Pipe),
}

impl View for Content {
    type V = Source;

    open spec fn view(&self) -> Source {
        match self {
            Content::Whole(data) => Source::Whole(data@),
            Content::Pieces(stream) => Source::Pieces(stream@),
        }
    }
}

/// What is left to do for a command.
pub enum Outcome {
    Nothing,
    /// Say that the disk was formatted.
    Formatted { capacity: u64 },
    Lines(Vec<String>),
    Text(String),
    /// Print the content as it is.
    Print(Content),
    /// Write the content to a local file, and then note the time of the file on the volume.
    File { dest: String, content: Content },
    Shown(InspectReply),
}

/// The value of what is left to do.
pub enum Left {
    Nothing,
    Formatted { capacity: int },
    Lines(Seq<Seq<char>>),
    Text(Seq<char>),
    Print(Source),
    File { dest: Seq<char>, content: Source },
    Shown(Shown),
}

impl View for Outcome {
    type V = Left;

    open spec fn view(&self) -> Left {
        match self {
            Outcome::Nothing => Left::Nothing,
            Outcome::Formatted { capacity } => Left::Formatted { capacity: *capacity as int },
            Outcome::Lines(v) => Left::Lines(texts(v@)),
            Outcome::Text(s) => Left::Text(s@),
            Outcome::Print(c) => Left::Print(c@),
            Outcome::File { dest, content } => Left::File { dest: dest@, content: content@ },
            Outcome::Shown(r) => Left::Shown(r@),
        }
    }
}

/// The fault for an error of the volume.
pub open spec fn volume_fault(err: XHFSError) -> MainFault {
    MainFault::Command { err: CommandFault::Volume { err } }
}

/// A file can be read piece by piece only if pieces have a size.
pub open spec fn pieces_fit(single_block: bool, block_size: usize) -> bool {
    single_block || block_size > 0
}

impl Image {
    /// The content of a file, at once or as a stream.
    pub open spec fn source(self, path: Seq<char>, single_block: bool, block_size: usize) -> Result<
        Source,
        MainFault,
    > {
        if single_block {
            match self.fread(path) {
                Ok(data) => Ok(Source::Whole(data)),
                Err(e) => Err(volume_fault(e)),
            }
        } else {
            match self.opened(path, block_size as nat) {
                Ok(p) => Ok(Source::Pieces(p)),
                Err(e) => Err(volume_fault(e)),
            }
        }
    }

    /// The local file that a download makes.
    pub open spec fn download(self, c: DownloadCommand, there: bool) -> Result<Left, MainFault> {
        match destination(c.src_path@, opt_string(c.dest_path)) {
            Err(err) => Err(MainFault::Command { err }),
            Ok(dest) => if there && !c.overwrite {
                Err(MainFault::Command { err: CommandFault::FileExists })
            } else {
                match self.source(c.src_path@, c.single_block, c.block_size) {
                    Err(f) => Err(f),
                    Ok(content) => Ok(Left::File { dest, content }),
                }
            },
        }
    }

    /// The report on a volume with or without devices.
    pub open spec fn info(self, has_devices: bool) -> Result<Left, MainFault> {
        match self.header() {
            Err(e) => Err(volume_fault(e)),
            Ok(h) => if !has_devices {
                Err(volume_fault(XHFSError::Error { err: Fault::NoCapacity }))
            } else {
                match self.remaining() {
                    Err(e) => Err(volume_fault(e)),
                    Ok(n) => Ok(Left::Text(volume_text(self, h.version, n as usize))),
                }
            },
        }
    }

    /// What a command does to the volume, and what is left to do for it.
    pub open spec fn main_command(self, c: Commands, input: Input, has_devices: bool) -> (
        Image,
        Result<Left, MainFault>,
    ) {
        match c {
            Commands::Upload(u) => {
                let (m, r) = self.upload(u, input.data@, input.modified, input.now);
                match r {
                    Ok(_) => (m, Ok(Left::Nothing)),
                    Err(err) => (m, Err(MainFault::Command { err })),
                }
            },
            Commands::Download(d) => (self, self.download(d, input.there)),
            Commands::Read(r) => (
                self,
                match self.source(r.src_path@, r.single_block, r.block_size) {
                    Ok(content) => Ok(Left::Print(content)),
                    Err(f) => Err(f),
                },
            ),
            Commands::Format => (
                self,
                if has_devices {
                    Ok(Left::Formatted { capacity: self.disk.len() as int })
                } else {
                    Err(volume_fault(XHFSError::Error { err: Fault::NoCapacity }))
                },
            ),
            Commands::Info => (self, self.info(has_devices)),
            Commands::X(x) => {
                let (m, r) = self.command(x.command, input.now);
                match r {
                    Ok(lines) => (m, Ok(Left::Lines(lines))),
                    Err(err) => (m, Err(MainFault::Command { err })),
                }
            },
            Commands::Inspect(i) => (
                self,
                match self.inspect(i) {
                    Ok(s) => Ok(Left::Shown(s)),
                    Err(err) => Err(MainFault::Inspect { err }),
                },
            ),
        }
    }
}

impl<D: Device> XHFS<D> {
    /// The content of a file, at once or as a stream.
    fn open_content(&self, path: &str, single_block: bool, block_size: usize) -> (r: Result<
        Content,
        MainFault,
    >)
        requires
            self.wf(),
            pieces_fit(single_block, block_size),
        ensures
            self.tells(r is Ok) ==> seen(r) == self.image().source(path@, single_block, block_size),
    {
        if single_block {
            match self.fread(path) {
                Ok(data) => Ok(Content::Whole(data)),
                Err(err) => Err(MainFault::Command { err: CommandFault::Volume { err } }),
            }
        } else {
            match self.fread_stream(path, block_size) {
                Ok(stream) => Ok(Content::Pieces(stream)),
                Err(err) => Err(MainFault::Command { err: CommandFault::Volume { err } }),
            }
        }
    }
}

impl DownloadCommand {
    /// The local file to write.
    pub fn run<D: Device>(&self, xhfs: &XHFS<D>, there: bool) -> (r: Result<Outcome, MainFault>)
        requires
            xhfs.wf(),
            pieces_fit(self.single_block, self.block_size),
        ensures
            xhfs.tells(r is Ok) ==> seen(r) == xhfs.image().download(*self, there),
    {
        let dest = match derive_destination(self.src_path.as_str(), &self.dest_path) {
            Ok(d) => d,
            Err(err) => return Err(MainFault::Command { err }),
        };
        match may_replace(there, self.overwrite) {
            Ok(()) => {},
            Err(err) => return Err(MainFault::Command { err }),
        }
        match xhfs.open_content(self.src_path.as_str(), self.single_block, self.block_size) {
            Ok(content) => Ok(Outcome::File { dest, content }),
            Err(f) => Err(f),
        }
    }

    /// The time to note in the local file once it is written; none if the file is gone.
    pub fn modified<D: Device>(&self, xhfs: &XHFS<D>) -> (r: Result<Option<u64>, MainFault>)
        requires
            xhfs.wf(),
        ensures
            xhfs.tells(r is Ok && r->Ok_0 is Some) ==> r == match xhfs.image().stats(
                self.src_path@,
                false,
            ) {
                Err(e) => Err(volume_fault(e)),
                Ok(None) => Ok(None),
                Ok(Some(s)) => Ok(Some(s.mtime)),
            },
    {
        match xhfs.stats(self.src_path.as_str(), false) {
            Ok(Some(s)) => Ok(Some(s.mtime)),
            Ok(None) => Ok(None),
            Err(err) => Err(MainFault::Command { err: CommandFault::Volume { err } }),
        }
    }
}

impl Commands {
    /// What the command answers holds, given how it ended: that of the part that it calls.
    pub open spec fn answers<D: Device>(&self, xhfs: &XHFS<D>, r: Result<Left, MainFault>) -> bool {
        match self {
            Commands::Upload(_) => xhfs.obeys(r is Ok),
            Commands::Download(_) => xhfs.tells(r is Ok),
            Commands::Read(_) => xhfs.tells(r is Ok),
            Commands::Format => true,
            Commands::Info => xhfs.tells(r is Ok),
            Commands::X(x) => x.command.answers(
                xhfs,
                match r {
                    Ok(Left::Lines(lines)) => Some(lines),
                    _ => None,
                },
            ),
            Commands::Inspect(_) => xhfs.tells(r is Ok),
        }
    }
}

impl MainCommand {
    /// Runs the command on an opened volume, and tells what is left to do.
    pub fn run<D: Device>(&self, xhfs: &mut XHFS<D>, input: Input) -> (r: Result<
        Outcome,
        MainFault,
    >)
        requires
            old(xhfs).wf(),
            match self.command {
                Commands::Download(d) => pieces_fit(d.single_block, d.block_size),
                Commands::Read(d) => pieces_fit(d.single_block, d.block_size),
                Commands::Inspect(InspectSubcommands::View(v)) => v.columns <= usize::MAX / 3,
                _ => true,
            },
        ensures
            XHFS::kept(old(xhfs), final(xhfs)),
            self.command.answers(old(xhfs), seen(r)) ==> (final(xhfs).image(), seen(r)) == old(
                xhfs,
            ).image().main_command(self.command, input, old(xhfs).ctrl.devices().len() > 0),
    {
        match &self.command {
            Commands::Upload(u) => match u.run(xhfs, input.data, input.modified, input.now) {
                Ok(()) => Ok(Outcome::Nothing),
                Err(err) => Err(MainFault::Command { err }),
            },
            Commands::Download(d) => d.run(xhfs, input.there),
            Commands::Read(c) => match xhfs.open_content(
                c.src_path.as_str(),
                c.single_block,
                c.block_size,
            ) {
                Ok(content) => Ok(Outcome::Print(content)),
                Err(f) => Err(f),
            },
            Commands::Format => match xhfs.total_capacity() {
                Ok(n) => Ok(Outcome::Formatted { capacity: n as u64 }),
                Err(err) => Err(MainFault::Command { err: CommandFault::Volume { err } }),
            },
            Commands::Info => match xhfs.format_headers_report() {
                Ok(text) => Ok(Outcome::Text(text)),
                Err(err) => Err(MainFault::Command { err: CommandFault::Volume { err } }),
            },
            Commands::X(x) => match x.run(xhfs, input.now) {
                Ok(lines) => Ok(Outcome::Lines(lines)),
                Err(err) => Err(MainFault::Command { err }),
            },
            Commands::Inspect(i) => match i.run(xhfs) {
                Ok(reply) => Ok(Outcome::Shown(reply)),
                Err(err) => Err(MainFault::Inspect { err }),
            },
        }
    }
}

} // verus!
