//! Why a command failed, in words.
use crate::config::{device_name, device_names, logical_names, Config, ConfigFault};
use crate::device::Device;
use crate::error::{Fault, XHFSError};
use crate::interface::cli::{derive_destination, destination, CommandFault, FsSubcommands};
use crate::interface::inspect::{InspectFault, InspectSubcommands};
use crate::interface::main_command::{Commands, MainCommand, MainFault};
use crate::interface::number::InputFault;
use crate::messages::{error_text, error_text_at};
use crate::utils::{opt_string, texts};
use crate::xhfs::dirs::names_of;
use crate::xhfs::ds::{INodeKind, Symlink};
use crate::xhfs::image::Image;
use crate::xhfs::XHFS;
use vstd::prelude::*;
use vstd::string::*;
use vstd::utf8::*;

verus! {

/// Texts with a separator between them.
pub open spec fn listed(names: Seq<Seq<char>>) -> Seq<char>
    decreases names.len(),
{
    if names.len() == 0 {
        Seq::empty()
    } else if names.len() == 1 {
        names[0]
    } else {
        listed(names.drop_last()) + ", "@ + names.last()
    }
}

/// One of some texts; nothing if there is none at the index.
pub open spec fn nth(names: Seq<Seq<char>>, index: usize) -> Seq<char> {
    if index < names.len() {
        names[index as int]
    } else {
        Seq::empty()
    }
}

impl Image {
    /// The path that reading a path comes to: where symbolic links lead, as far as they do.
    pub open spec fn reached(self, path: Seq<char>, fuel: nat) -> Seq<char>
        decreases fuel,
    {
        match self.lookup(path) {
            Err(_) => path,
            Ok(node) => if !(node.kind is Symlink) || fuel == 0 {
                path
            } else {
                match self.content(node.extent_addr) {
                    Err(_) => path,
                    Ok(s) => if valid_utf8(s) {
                        self.reached(decode_utf8(s), (fuel - 1) as nat)
                    } else {
                        path
                    },
                }
            },
        }
    }

    /// The path that the error of a command speaks of.
    pub open spec fn blamed(self, c: FsSubcommands) -> Seq<char> {
        match c {
            FsSubcommands::Ls(ls) => self.reached(ls.path@, self.disk.len()),
            FsSubcommands::Cp(cp) => if self.lookup(
                self.reached(cp.src@, self.disk.len()),
            ) is Err {
                self.reached(cp.src@, self.disk.len())
            } else {
                cp.dest@
            },
            FsSubcommands::Mv(mv) => if self.parent(mv.src@) is Err {
                mv.src@
            } else {
                mv.dest@
            },
            FsSubcommands::Stats(p) => p.path@,
            FsSubcommands::Rm(p) => p.path@,
            FsSubcommands::Mkdir(p) => p.path@,
            FsSubcommands::Ln(ln) => if (if ln.symlink {
                self.parent(ln.src_path@) is Err
            } else {
                self.lookup(ln.src_path@) is Err
            }) {
                ln.src_path@
            } else {
                ln.dest_path@
            },
        }
    }

    /// The name of an entry of a list.
    pub open spec fn entry_name(self, c: FsSubcommands, index: usize) -> Seq<char> {
        match c {
            FsSubcommands::Ls(ls) => match self.list(ls.path@, self.disk.len()) {
                Ok(e) => nth(names_of(e), index),
                Err(_) => Seq::empty(),
            },
            _ => Seq::empty(),
        }
    }

    /// Why a command on the volume failed, in words.
    pub open spec fn command_text(self, c: FsSubcommands, f: CommandFault) -> Seq<char> {
        match f {
            CommandFault::Volume { err } => error_text_at(err, self.blamed(c)),
            CommandFault::MissingStat { index } => "Missing stat for "@ + self.entry_name(c, index),
            _ => plain_text(f),
        }
    }

    /// Why a command of the program failed, in words.
    pub open spec fn main_text(self, c: Commands, f: MainFault) -> Seq<char> {
        match (c, f) {
            (Commands::X(x), MainFault::Command { err }) => self.command_text(x.command, err),
            (Commands::Upload(u), MainFault::Command { err: CommandFault::Volume { err } }) => {
                match destination(u.src_path@, opt_string(u.dest_path)) {
                    Ok(dest) => error_text_at(err, dest),
                    Err(_) => error_text(err),
                }
            },
            (Commands::Upload(u), MainFault::Command { err: CommandFault::NoDestination }) => {
                "Could not derive destination path from source "@ + u.src_path@
            },
            (Commands::Download(d), MainFault::Command { err: CommandFault::Volume { err } }) => {
                error_text_at(err, self.reached(d.src_path@, self.disk.len()))
            },
            (Commands::Download(d), MainFault::Command { err: CommandFault::NoDestination }) => {
                "Could not derive destination path from source "@ + d.src_path@
            },
            (Commands::Download(d), MainFault::Command { err: CommandFault::FileExists }) => {
                match destination(d.src_path@, opt_string(d.dest_path)) {
                    Ok(dest) => "File "@ + dest + " already exists"@,
                    Err(_) => plain_text(CommandFault::FileExists),
                }
            },
            (Commands::Read(r), MainFault::Command { err: CommandFault::Volume { err } }) => {
                error_text_at(err, self.reached(r.src_path@, self.disk.len()))
            },
            (Commands::Inspect(InspectSubcommands::Inode(i)), MainFault::Inspect {
                err: InspectFault::Volume { err },
            }) => inspect_text(err, i.path@),
            (_, MainFault::Command { err }) => plain_text(err),
            (_, MainFault::Inspect { err: InspectFault::Volume { err } }) => error_text(err),
            (_, MainFault::Inspect { err: InspectFault::Input { err } }) => input_text(err),
        }
    }
}

/// The fault of a command in words, as far as they need nothing else.
pub open spec fn plain_text(f: CommandFault) -> Seq<char> {
    match f {
        CommandFault::Volume { err } => error_text(err),
        CommandFault::NoDestination => "Could not derive destination path from source"@,
        CommandFault::FileExists => "File already exists"@,
        CommandFault::Unsupported => "Recursive option not supported yet for unlink"@,
        CommandFault::MissingStat { .. } => "Missing stat"@,
        CommandFault::BadTime => "A time is out of range"@,
        CommandFault::TooDeep => "Directories lie too deep in one another"@,
    }
}

/// A fault of an input in words.
pub open spec fn input_text(f: InputFault) -> Seq<char> {
    match f {
        InputFault::InvalidHex => "Invalid hex"@,
        InputFault::InvalidNumber => "Invalid number"@,
        InputFault::NoColumns => "number of columns must be > 0"@,
    }
}

/// Why an inode cannot be shown, in words.
pub open spec fn inspect_text(e: XHFSError, path: Seq<char>) -> Seq<char> {
    match e {
        XHFSError::Error { err: Fault::NoInodeSlot { .. } } =>
            "Failed calculating group layout for INode"@,
        _ => error_text_at(e, path),
    }
}

impl CommandFault {
    /// This fault in words, as far as they need nothing else.
    pub fn describe(&self) -> (r: String)
        ensures
            r@ == plain_text(*self),
    {
        match self {
            CommandFault::Volume { err } => err.describe(),
            CommandFault::NoDestination => "Could not derive destination path from source".to_owned(),
            CommandFault::FileExists => "File already exists".to_owned(),
            CommandFault::Unsupported => "Recursive option not supported yet for unlink".to_owned(),
            CommandFault::MissingStat { .. } => "Missing stat".to_owned(),
            CommandFault::BadTime => "A time is out of range".to_owned(),
            CommandFault::TooDeep => "Directories lie too deep in one another".to_owned(),
        }
    }
}

impl InputFault {
    /// This fault in words.
    pub fn describe(&self) -> (r: String)
        ensures
            r@ == input_text(*self),
    {
        match self {
            InputFault::InvalidHex => "Invalid hex".to_owned(),
            InputFault::InvalidNumber => "Invalid number".to_owned(),
            InputFault::NoColumns => "number of columns must be > 0".to_owned(),
        }
    }
}

/// One text behind another.
fn joined(label: &str, text: &str) -> (r: String)
    ensures
        r@ == label@ + text@,
{
    let mut out: String = label.to_owned();
    out.append(text);
    out
}

impl<D: Device> XHFS<D> {
    /// The path that reading a path comes to.
    fn reached_path(&self, path: &str) -> (r: String)
        requires
            self.wf(),
        ensures
            self.tells(false) ==> r@ == self.image().reached(path@, self.image().disk.len()),
    {
        let ghost m = self.image();
        let mut fuel: u64 = self.disk_size();
        let mut current: String = path.to_owned();
        loop
            invariant
                self.wf(),
                m == self.image(),
                self.tells(false) ==> m.reached(path@, m.disk.len()) == m.reached(
                    current@,
                    fuel as nat,
                ),
            decreases fuel,
        {
            let inode = match self.resolve_path(current.as_str()) {
                Ok(i) => i,
                Err(_) => return current,
            };
            if !matches!(inode.kind, INodeKind::Symlink) || fuel == 0 {
                return current;
            }
            let payload = match self.read_full_data_from_extent(inode.extent_addr) {
                Ok(p) => p,
                Err(_) => return current,
            };
            let link = match Symlink::deserialize(payload.as_slice()) {
                Ok(l) => l,
                Err(_) => return current,
            };
            current = link.path;
            fuel = fuel - 1;
        }
    }
}

impl FsSubcommands {
    /// The path that the error of this command speaks of.
    fn blamed_path<D: Device>(&self, xhfs: &XHFS<D>) -> (r: String)
        requires
            xhfs.wf(),
        ensures
            xhfs.tells(false) ==> r@ == xhfs.image().blamed(*self),
    {
        match self {
            FsSubcommands::Ls(ls) => xhfs.reached_path(ls.path.as_str()),
            FsSubcommands::Cp(cp) => {
                let src = xhfs.reached_path(cp.src.as_str());
                match xhfs.resolve_path(src.as_str()) {
                    Ok(_) => cp.dest.clone(),
                    Err(_) => src,
                }
            },
            FsSubcommands::Mv(mv) => match xhfs.resolve_parent(mv.src.as_str()) {
                Ok(_) => mv.dest.clone(),
                Err(_) => mv.src.clone(),
            },
            FsSubcommands::Stats(p) => p.path.clone(),
            FsSubcommands::Rm(p) => p.path.clone(),
            FsSubcommands::Mkdir(p) => p.path.clone(),
            FsSubcommands::Ln(ln) => {
                let lost = if ln.symlink {
                    xhfs.resolve_parent(ln.src_path.as_str()).is_err()
                } else {
                    xhfs.resolve_path(ln.src_path.as_str()).is_err()
                };
                if lost {
                    ln.src_path.clone()
                } else {
                    ln.dest_path.clone()
                }
            },
        }
    }

    /// The name of an entry of a list.
    fn listed_name<D: Device>(&self, xhfs: &XHFS<D>, index: usize) -> (r: String)
        requires
            xhfs.wf(),
        ensures
            xhfs.tells(false) ==> r@ == xhfs.image().entry_name(*self, index),
    {
        let none = String::new();
        assert(none@ =~= Seq::empty());
        match self {
            FsSubcommands::Ls(ls) => match xhfs.ls(ls.path.as_str()) {
                Ok(names) => {
                    assert(texts(names@).len() == names@.len());
                    if index < names.len() {
                        names[index].clone()
                    } else {
                        none
                    }
                },
                Err(_) => none,
            },
            _ => none,
        }
    }

    /// Why this command failed, in words, as the volume is after it.
    pub fn explain<D: Device>(&self, xhfs: &XHFS<D>, f: CommandFault) -> (r: String)
        requires
            xhfs.wf(),
        ensures
            xhfs.tells(false) ==> r@ == xhfs.image().command_text(*self, f),
    {
        match f {
            CommandFault::Volume { err } => err.describe_at(self.blamed_path(xhfs).as_str()),
            CommandFault::MissingStat { index } => {
                joined("Missing stat for ", self.listed_name(xhfs, index).as_str())
            },
            _ => f.describe(),
        }
    }
}

/// Why an inode cannot be shown, in words.
fn describe_inspect(e: XHFSError, path: &str) -> (r: String)
    ensures
        r@ == inspect_text(e, path@),
{
    match e {
        XHFSError::Error { err: Fault::NoInodeSlot { .. } } => {
            "Failed calculating group layout for INode".to_owned()
        },
        _ => e.describe_at(path),
    }
}

impl MainCommand {
    /// Why this command failed, in words, as the volume is after it.
    pub fn explain<D: Device>(&self, xhfs: &XHFS<D>, f: MainFault) -> (r: String)
        requires
            xhfs.wf(),
        ensures
            xhfs.tells(false) ==> r@ == xhfs.image().main_text(self.command, f),
    {
        match (&self.command, f) {
            (Commands::X(x), MainFault::Command { err }) => x.command.explain(xhfs, err),
            (Commands::Upload(u), MainFault::Command { err: CommandFault::Volume { err } }) => {
                match derive_destination(u.src_path.as_str(), &u.dest_path) {
                    Ok(dest) => err.describe_at(dest.as_str()),
                    Err(_) => err.describe(),
                }
            },
            (Commands::Upload(u), MainFault::Command { err: CommandFault::NoDestination }) => {
                joined("Could not derive destination path from source ", u.src_path.as_str())
            },
            (Commands::Download(d), MainFault::Command { err: CommandFault::Volume { err } }) => {
                err.describe_at(xhfs.reached_path(d.src_path.as_str()).as_str())
            },
            (Commands::Download(d), MainFault::Command { err: CommandFault::NoDestination }) => {
                joined("Could not derive destination path from source ", d.src_path.as_str())
            },
            (Commands::Download(d), MainFault::Command { err: CommandFault::FileExists }) => {
                match derive_destination(d.src_path.as_str(), &d.dest_path) {
                    Ok(dest) => {
                        let mut out = joined("File ", dest.as_str());
                        out.append(" already exists");
                        out
                    },
                    Err(_) => CommandFault::FileExists.describe(),
                }
            },
            (Commands::Read(r), MainFault::Command { err: CommandFault::Volume { err } }) => {
                err.describe_at(xhfs.reached_path(r.src_path.as_str()).as_str())
            },
            (Commands::Inspect(InspectSubcommands::Inode(i)), MainFault::Inspect {
                err: InspectFault::Volume { err },
            }) => describe_inspect(err, i.path.as_str()),
            (_, MainFault::Command { err }) => err.describe(),
            (_, MainFault::Inspect { err: InspectFault::Volume { err } }) => err.describe(),
            (_, MainFault::Inspect { err: InspectFault::Input { err } }) => err.describe(),
        }
    }
}

/// The name of a device of a configuration.
pub open spec fn device_at(c: Config, index: usize) -> Seq<char> {
    nth(device_names(c.devices@), index)
}

/// The name of a logical device of a configuration.
pub open spec fn logical_at(c: Config, index: usize) -> Seq<char> {
    nth(logical_names(c.configuration.logical@), index)
}

/// The name of a device that a logical device is made of.
pub open spec fn member_at(c: Config, logical: usize, member: usize) -> Seq<char> {
    if logical < c.configuration.logical@.len() {
        nth(texts(c.configuration.logical@[logical as int].members@), member)
    } else {
        Seq::empty()
    }
}

/// Why a configuration is refused, in words.
pub open spec fn config_text(c: Config, f: ConfigFault) -> Seq<char> {
    match f {
        ConfigFault::DuplicateDevice { index } => "Duplicate device name: "@ + device_at(c, index),
        ConfigFault::PayloadUsed { index } => "Already used payload used by "@ + device_at(
            c,
            index,
        ),
        ConfigFault::DuplicateLogical { index } => "Duplicate logical device: "@ + logical_at(
            c,
            index,
        ),
        ConfigFault::UnknownDevice { logical, member } => "Logical '"@ + logical_at(c, logical)
            + "' references unknown device "@ + member_at(c, logical, member) + ", available "@
            + listed(device_names(c.devices@)),
        ConfigFault::UnknownLogical { index } => "Layout references unknown logical device "@ + nth(
            texts(c.configuration.layout@),
            index,
        ) + ", available "@ + listed(logical_names(c.configuration.logical@)),
        ConfigFault::LogicalTwice { index } => "Cannot use device "@ + nth(
            texts(c.configuration.layout@),
            index,
        ) + " more than once in the layout"@,
        ConfigFault::NoDevices => "No devices configured"@,
        ConfigFault::NoLogical => "No logical devices configured"@,
        ConfigFault::NoLayout => "Layout cannot be empty"@,
        ConfigFault::EmptySlots { logical, member } => "Slots without room on device "@ + member_at(
            c,
            logical,
            member,
        ),
        ConfigFault::SizeTooLarge { logical, member } => "Size out of range on device "@
            + member_at(c, logical, member),
        ConfigFault::NotASize => "Not a number of bytes"@,
    }
}

/// Why the volume of a configuration cannot be put together, in words.
pub open spec fn plan_text(c: Config, f: ConfigFault) -> Seq<char> {
    match f {
        ConfigFault::UnknownDevice { logical, .. } => "Could not find refered device "@
            + logical_at(c, logical),
        ConfigFault::UnknownLogical { index } =>
            "Could not find refered materialized  device instance "@ + nth(
            texts(c.configuration.layout@),
            index,
        ),
        _ => config_text(c, f),
    }
}

/// One of some texts; nothing if there is none at the index.
fn nth_text(v: &Vec<String>, index: usize) -> (r: String)
    ensures
        r@ == nth(texts(v@), index),
{
    assert(texts(v@).len() == v@.len());
    if index < v.len() {
        v[index].clone()
    } else {
        let none = String::new();
        assert(none@ =~= Seq::empty());
        none
    }
}

/// Texts with a separator between them.
fn list_texts(v: &Vec<String>) -> (r: String)
    ensures
        r@ == listed(texts(v@)),
{
    let ghost all = texts(v@);
    let n: usize = v.len();
    let mut out = String::new();
    assert(out@ =~= Seq::empty());
    let mut i: usize = 0;
    assert(all.subrange(0, 0) =~= Seq::empty());
    while i < n
        invariant
            i <= n,
            n == v@.len(),
            all == texts(v@),
            out@ == listed(all.subrange(0, i as int)),
        decreases n - i,
    {
        let ghost had = out@;
        let ghost next = all.subrange(0, i + 1);
        proof {
            assert(next.drop_last() =~= all.subrange(0, i as int));
            assert(next.last() == v@[i as int]@);
        }
        if i > 0 {
            out.append(", ");
        }
        out.append(v[i].as_str());
        proof {
            if i == 0 {
                assert(had + v@[0]@ =~= v@[0]@);
            }
        }
        i = i + 1;
    }
    assert(all.subrange(0, n as int) =~= all);
    out
}

impl Config {
    /// The names of the devices.
    fn named_devices(&self) -> (r: Vec<String>)
        ensures
            texts(r@) == device_names(self.devices@),
    {
        let n: usize = self.devices.len();
        let mut out: Vec<String> = Vec::new();
        let mut i: usize = 0;
        while i < n
            invariant
                i <= n,
                n == self.devices@.len(),
                out@.len() == i,
                forall|k: int| 0 <= k < i ==> (#[trigger] out@[k])@ == device_name(self.devices@[k]),
            decreases n - i,
        {
            out.push(self.devices[i].name());
            i = i + 1;
        }
        assert(texts(out@) =~= device_names(self.devices@));
        out
    }

    /// The names of the logical devices.
    fn named_logical(&self) -> (r: Vec<String>)
        ensures
            texts(r@) == logical_names(self.configuration.logical@),
    {
        let n: usize = self.configuration.logical.len();
        let mut out: Vec<String> = Vec::new();
        let mut i: usize = 0;
        while i < n
            invariant
                i <= n,
                n == self.configuration.logical@.len(),
                out@.len() == i,
                forall|k: int|
                    0 <= k < i ==> (#[trigger] out@[k])@ == self.configuration.logical@[k].name@,
            decreases n - i,
        {
            out.push(self.configuration.logical[i].name.clone());
            i = i + 1;
        }
        assert(texts(out@) =~= logical_names(self.configuration.logical@));
        out
    }

    /// The name of a device that a logical device is made of.
    fn named_member(&self, logical: usize, member: usize) -> (r: String)
        ensures
            r@ == member_at(*self, logical, member),
    {
        if logical < self.configuration.logical.len() {
            nth_text(&self.configuration.logical[logical].members, member)
        } else {
            let none = String::new();
            assert(none@ =~= Seq::empty());
            none
        }
    }

    /// Why this configuration is refused, in words.
    pub fn explain(&self, f: ConfigFault) -> (r: String)
        ensures
            r@ == config_text(*self, f),
    {
        match f {
            ConfigFault::DuplicateDevice { index } => {
                joined("Duplicate device name: ", nth_text(&self.named_devices(), index).as_str())
            },
            ConfigFault::PayloadUsed { index } => joined(
                "Already used payload used by ",
                nth_text(&self.named_devices(), index).as_str(),
            ),
            ConfigFault::DuplicateLogical { index } => {
                joined("Duplicate logical device: ", nth_text(&self.named_logical(), index).as_str())
            },
            ConfigFault::UnknownDevice { logical, member } => {
                let mut out = joined("Logical '", nth_text(&self.named_logical(), logical).as_str());
                out.append("' references unknown device ");
                out.append(self.named_member(logical, member).as_str());
                out.append(", available ");
                out.append(list_texts(&self.named_devices()).as_str());
                out
            },
            ConfigFault::UnknownLogical { index } => {
                let mut out = joined(
                    "Layout references unknown logical device ",
                    nth_text(&self.configuration.layout, index).as_str(),
                );
                out.append(", available ");
                out.append(list_texts(&self.named_logical()).as_str());
                out
            },
            ConfigFault::LogicalTwice { index } => {
                let mut out = joined(
                    "Cannot use device ",
                    nth_text(&self.configuration.layout, index).as_str(),
                );
                out.append(" more than once in the layout");
                out
            },
            ConfigFault::NoDevices => "No devices configured".to_owned(),
            ConfigFault::NoLogical => "No logical devices configured".to_owned(),
            ConfigFault::NoLayout => "Layout cannot be empty".to_owned(),
            ConfigFault::EmptySlots { logical, member } => joined(
                "Slots without room on device ",
                self.named_member(logical, member).as_str(),
            ),
            ConfigFault::SizeTooLarge { logical, member } => joined(
                "Size out of range on device ",
                self.named_member(logical, member).as_str(),
            ),
            ConfigFault::NotASize => "Not a number of bytes".to_owned(),
        }
    }

    /// Why the volume of this configuration cannot be put together, in words.
    pub fn explain_plan(&self, f: ConfigFault) -> (r: String)
        ensures
            r@ == plan_text(*self, f),
    {
        match f {
            ConfigFault::UnknownDevice { logical, .. } => joined(
                "Could not find refered device ",
                nth_text(&self.named_logical(), logical).as_str(),
            ),
            ConfigFault::UnknownLogical { index } => joined(
                "Could not find refered materialized  device instance ",
                nth_text(&self.configuration.layout, index).as_str(),
            ),
            _ => self.explain(f),
        }
    }
}

} // verus!
