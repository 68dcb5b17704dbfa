//! What the words on a failed command name.
use crate::config::{device_name, Config, ConfigFault};
use crate::error::{Fault, XHFSError};
use crate::interface::cli::{destination, FsCommands};
use crate::interface::explain::config_text;
use crate::interface::main_command::{Commands, DownloadCommand, Input, ReadCommand};
use crate::report_laws::{lemma_told_by, message_names_the_path, tells};
use crate::utils::{absolute, components, opt_string};
use crate::xhfs::ds::Node;
use crate::xhfs::image::Image;
use vstd::prelude::*;
use vstd::string::*;

verus! {

/// Where a path that is to be read, downloaded or listed is missing, the command fails and the
/// words name the path up to the part that is missing.
pub proof fn words_name_the_missing_path(
    m: Image,
    r: ReadCommand,
    d: DownloadCommand,
    l: FsCommands,
    input: Input,
    has_devices: bool,
    depth: u64,
)
    requires
        m.lookup(r.src_path@) == Err::<Node, _>(
            XHFSError::Error { err: Fault::PathMissing { depth } },
        ),
        0 < depth <= components(r.src_path@).len(),
        d.src_path@ == r.src_path@,
        destination(d.src_path@, opt_string(d.dest_path)) is Ok,
        !input.there || d.overwrite,
        l.command is Ls,
        l.command->Ls_0.path@ == r.src_path@,
        !l.command->Ls_0.tree,
    ensures
        ({
            let named = absolute(components(r.src_path@).subrange(0, depth as int));
            let read = m.main_command(Commands::Read(r), input, has_devices).1;
            let down = m.main_command(Commands::Download(d), input, has_devices).1;
            let list = m.main_command(Commands::X(l), input, has_devices).1;
            &&& read is Err
            &&& tells(m.main_text(Commands::Read(r), read->Err_0), "Path '"@, named)
            &&& down is Err
            &&& tells(m.main_text(Commands::Download(d), down->Err_0), "Path '"@, named)
            &&& list is Err
            &&& tells(m.main_text(Commands::X(l), list->Err_0), "Path '"@, named)
        }),
{
    message_names_the_path(r.src_path@, depth);
}

/// A download that would replace a file unasked is refused, and the words name the file.
pub proof fn words_name_the_file_that_exists(
    m: Image,
    d: DownloadCommand,
    input: Input,
    has_devices: bool,
)
    requires
        destination(d.src_path@, opt_string(d.dest_path)) is Ok,
        input.there,
        !d.overwrite,
    ensures
        ({
            let r = m.main_command(Commands::Download(d), input, has_devices).1;
            &&& r is Err
            &&& tells(
                m.main_text(Commands::Download(d), r->Err_0),
                "File "@,
                destination(d.src_path@, opt_string(d.dest_path))->Ok_0,
            )
        }),
{
    let dest = destination(d.src_path@, opt_string(d.dest_path))->Ok_0;
    let r = m.main_command(Commands::Download(d), input, has_devices).1;
    let t = m.main_text(Commands::Download(d), r->Err_0);
    let none = Seq::<char>::empty();
    assert(t =~= none + "File "@ + dest + " already exists"@);
    lemma_told_by(t, none, "File "@, dest, " already exists"@);
}

/// The words on a configuration that is refused name what is at fault.
pub proof fn words_name_what_is_at_fault(c: Config, i: usize, k: usize)
    ensures
        i < c.devices@.len() ==> {
            &&& tells(
                config_text(c, ConfigFault::DuplicateDevice { index: i }),
                "Duplicate device name: "@,
                device_name(c.devices@[i as int]),
            )
            &&& tells(
                config_text(c, ConfigFault::PayloadUsed { index: i }),
                "Already used payload used by "@,
                device_name(c.devices@[i as int]),
            )
        },
        i < c.configuration.logical@.len() ==> tells(
            config_text(c, ConfigFault::DuplicateLogical { index: i }),
            "Duplicate logical device: "@,
            c.configuration.logical@[i as int].name@,
        ),
        i < c.configuration.logical@.len() && k < c.configuration.logical@[i as int].members@.len()
            ==> tells(
            config_text(c, ConfigFault::UnknownDevice { logical: i, member: k }),
            "' references unknown device "@,
            c.configuration.logical@[i as int].members@[k as int]@,
        ),
        i < c.configuration.layout@.len() ==> {
            &&& tells(
                config_text(c, ConfigFault::UnknownLogical { index: i }),
                "Layout references unknown logical device "@,
                c.configuration.layout@[i as int]@,
            )
            &&& tells(
                config_text(c, ConfigFault::LogicalTwice { index: i }),
                "Cannot use device "@,
                c.configuration.layout@[i as int]@,
            )
        },
{
    let none = Seq::<char>::empty();
    if i < c.devices@.len() {
        let n = device_name(c.devices@[i as int]);
        let a = config_text(c, ConfigFault::DuplicateDevice { index: i });
        let b = config_text(c, ConfigFault::PayloadUsed { index: i });
        assert(a =~= none + "Duplicate device name: "@ + n + none);
        lemma_told_by(a, none, "Duplicate device name: "@, n, none);
        assert(b =~= none + "Already used payload used by "@ + n + none);
        lemma_told_by(b, none, "Already used payload used by "@, n, none);
    }
    if i < c.configuration.logical@.len() {
        let l = c.configuration.logical@[i as int];
        let n = l.name@;
        let a = config_text(c, ConfigFault::DuplicateLogical { index: i });
        assert(a =~= none + "Duplicate logical device: "@ + n + none);
        lemma_told_by(a, none, "Duplicate logical device: "@, n, none);
        if k < l.members@.len() {
            let x = l.members@[k as int]@;
            let b = config_text(c, ConfigFault::UnknownDevice { logical: i, member: k });
            let before = "Logical '"@ + n;
            let h = before + "' references unknown device "@ + x;
            let rest = b.subrange(h.len() as int, b.len() as int);
            assert(b =~= h + rest);
            lemma_told_by(b, before, "' references unknown device "@, x, rest);
        }
    }
    if i < c.configuration.layout@.len() {
        let x = c.configuration.layout@[i as int]@;
        let a = config_text(c, ConfigFault::UnknownLogical { index: i });
        let b = config_text(c, ConfigFault::LogicalTwice { index: i });
        let h = "Layout references unknown logical device "@ + x;
        let rest = a.subrange(h.len() as int, a.len() as int);
        assert(a =~= none + "Layout references unknown logical device "@ + x + rest);
        lemma_told_by(a, none, "Layout references unknown logical device "@, x, rest);
        let more = " more than once in the layout"@;
        assert(b =~= none + "Cannot use device "@ + x + more);
        lemma_told_by(b, none, "Cannot use device "@, x, more);
    }
}

} // verus!
