//! What uploads, open files and configurations promise.
use crate::config::{
    accepted_configuration_is_consistent, among, consistent, device_name, device_names,
    logical_names, Config, ConfigFault, DeviceConfig, LogicalDeviceConfig,
};
use crate::error::XHFSError;
use crate::interface::cli::{cut_pieces, destination, UploadCommand};
use crate::plan::{
    first_device, last_logical, layout_choices, member_choices, volume_choice, volume_choices,
};
use crate::servers::webdav::OpenFile;
use crate::utils::{components, opt_string, texts};
use crate::xhfs::file_laws::{appended_file_reads_back, lemma_appended};
use crate::xhfs::image::Image;
use crate::xhfs::link_laws::appended_file_grows;
use crate::xhfs::op_laws::{
    grounded, lemma_walk_extends, lemma_walk_live, writable, written_file_reads_back,
};
use crate::xhfs::stream_laws::{taken_bytes, written_pieces_read_back};
use crate::xhfs::tree::WriteOption;
use vstd::prelude::*;

verus! {

/// Pieces behind another piece are taken as they are on their own.
proof fn lemma_taken_shift(x: Seq<u8>, pieces: Seq<Seq<u8>>, k: int)
    requires
        0 <= k,
    ensures
        taken_bytes(seq![x] + pieces, k + 1) == taken_bytes(pieces, k),
    decreases pieces.len() - k,
{
    let all = seq![x] + pieces;
    if k < pieces.len() {
        assert(all[k + 1] == pieces[k]);
        lemma_taken_shift(x, pieces, k + 1);
    }
}

/// Data that is cut into pieces is all there in its pieces.
pub proof fn pieces_hold_the_data(data: Seq<u8>, size: int)
    requires
        size > 0,
    ensures
        taken_bytes(cut_pieces(data, size), 0) == data,
    decreases data.len(),
{
    let pieces = cut_pieces(data, size);
    if data.len() == 0 {
        assert(data =~= Seq::empty());
    } else if data.len() <= size {
        assert(pieces[0] == data);
        assert(taken_bytes(pieces, 1) =~= Seq::empty());
        assert(data + Seq::<u8>::empty() =~= data);
    } else {
        let head = data.subrange(0, size);
        let tail = data.subrange(size, data.len() as int);
        pieces_hold_the_data(tail, size);
        lemma_taken_shift(head, cut_pieces(tail, size), 0);
        assert(pieces[0] == head);
        assert(head + tail =~= data);
    }
}

/// A file that was uploaded reads as the data, whether it was written at once or block by block.
pub proof fn uploaded_file_reads_back(
    m: Image,
    c: UploadCommand,
    data: Seq<u8>,
    modified: Option<u64>,
    now: u64,
)
    requires
        grounded(m),
        c.single_block || c.block_size > 0,
        m.upload(c, data, modified, now).1 is Ok,
        writable(m, destination(c.src_path@, opt_string(c.dest_path))->Ok_0),
    ensures
        m.upload(c, data, modified, now).0.fread(
            destination(c.src_path@, opt_string(c.dest_path))->Ok_0,
        ) == Ok::<_, XHFSError>(data),
{
    let dest = destination(c.src_path@, opt_string(c.dest_path))->Ok_0;
    let opt = WriteOption { overwrite: c.overwrite, modified };
    if c.single_block {
        written_file_reads_back(m, dest, data, opt, now);
    } else {
        pieces_hold_the_data(data, c.block_size as int);
        written_pieces_read_back(m, dest, cut_pieces(data, c.block_size as int), opt, now);
    }
}

/// The content of an open file with what is held back behind it.
pub open spec fn promised(m: Image, f: OpenFile) -> Seq<u8> {
    m.fread(f.path)->Ok_0 + f.buffer
}

/// The volume is grounded, and the path of an open file leads to a file.
pub open spec fn ready(m: Image, f: OpenFile) -> bool {
    &&& grounded(m)
    &&& m.lookup(f.path) is Ok
    &&& m.lookup(f.path)->Ok_0.kind is File
    &&& m.fread(f.path) is Ok
}

/// Flushing an open file moves what is held back into the file.
pub proof fn flushing_keeps_what_was_written(m: Image, f: OpenFile, now: u64)
    requires
        ready(m, f),
        f.flush(m, now).2 is Ok,
    ensures
        ready(f.flush(m, now).0, f.flush(m, now).1),
        f.flush(m, now).1.buffer.len() == 0,
        f.flush(m, now).0.fread(f.path) == Ok::<_, XHFSError>(promised(m, f)),
{
    if f.buffer.len() == 0 {
        assert(m.fread(f.path)->Ok_0 + f.buffer =~= m.fread(f.path)->Ok_0);
    } else {
        appended_file_reads_back(m, f.path, f.buffer, now);
        appended_file_grows(m, f.path, f.buffer, now);
        lemma_still_file(m, f.path, f.buffer, now);
    }
}

/// A file that data was appended to is still a file.
proof fn lemma_still_file(m: Image, path: Seq<char>, data: Seq<u8>, t: u64)
    requires
        grounded(m),
        m.lookup(path) is Ok,
        m.lookup(path)->Ok_0.kind is File,
        m.fappend(path, data, t).1 is Ok,
    ensures
        m.fappend(path, data, t).0.lookup(path) is Ok,
        m.fappend(path, data, t).0.lookup(path)->Ok_0.kind is File,
{
    let parts = components(path);
    let m2 = m.fappend(path, data, t).0;
    lemma_walk_live(m, parts, parts.len());
    let node = m.lookup(path)->Ok_0;
    lemma_appended(m, node, data, t, m.disk.len());
    lemma_walk_extends(m, m2, parts, parts.len());
}

/// What is written to an open file comes behind all that was written before, be it in the file
/// already or held back.
pub proof fn writes_follow_one_another(m: Image, f: OpenFile, data: Seq<u8>, now: u64)
    requires
        ready(m, f),
        f.write(m, data, now).2 is Ok,
    ensures
        ready(f.write(m, data, now).0, f.write(m, data, now).1),
        promised(f.write(m, data, now).0, f.write(m, data, now).1) == promised(m, f) + data,
        f.write(m, data, now).1.offset == f.offset + data.len(),
{
    let g = OpenFile { buffer: f.buffer + data, ..f };
    assert(m.fread(f.path)->Ok_0 + (f.buffer + data) =~= promised(m, f) + data);
    if g.buffer.len() >= f.chunk_size {
        flushing_keeps_what_was_written(m, g, now);
        let (m2, h, r) = g.flush(m, now);
        assert(m2.fread(f.path)->Ok_0 + h.buffer =~= m2.fread(f.path)->Ok_0);
    }
}

/// A name that is among the devices is found.
proof fn lemma_device_found(v: Seq<DeviceConfig>, name: Seq<char>, k: int)
    requires
        0 <= k,
        exists|j: int| k <= j < v.len() && device_name(#[trigger] v[j]) == name,
    ensures
        first_device(v, name, k) is Some,
    decreases v.len() - k,
{
    if k < v.len() && device_name(v[k]) != name {
        lemma_device_found(v, name, k + 1);
    }
}

/// A name that is among the logical devices is found.
proof fn lemma_logical_found(v: Seq<LogicalDeviceConfig>, name: Seq<char>, n: nat)
    requires
        n <= v.len(),
        exists|j: int| 0 <= j < n && (#[trigger] v[j]).name@ == name,
    ensures
        last_logical(v, name, n) is Some,
    decreases n,
{
    if n > 0 && v[n - 1].name@ != name {
        lemma_logical_found(v, name, (n - 1) as nat);
    }
}

/// The fault is about sizes, not about names.
pub open spec fn about_sizes(f: ConfigFault) -> bool {
    f is EmptySlots || f is SizeTooLarge
}

proof fn lemma_members_found(c: Config, i: int, format_new: bool, n: nat)
    requires
        consistent(c),
        0 <= i < c.configuration.logical@.len(),
        n <= c.configuration.logical@[i].members@.len(),
    ensures
        member_choices(c, i, format_new, n) is Err ==> about_sizes(
            member_choices(c, i, format_new, n)->Err_0,
        ),
    decreases n,
{
    if n > 0 {
        lemma_members_found(c, i, format_new, (n - 1) as nat);
        let name = c.configuration.logical@[i].members@[n - 1]@;
        let known = device_names(c.devices@);
        assert(among(known, c.devices@.len() as int, name));
        let j = choose|j: int| 0 <= j < c.devices@.len() && #[trigger] known[j] == name;
        assert(device_name(c.devices@[j]) == name);
        lemma_device_found(c.devices@, name, 0);
    }
}

proof fn lemma_volume_found(c: Config, format_new: bool, n: nat)
    requires
        consistent(c),
        n <= c.configuration.logical@.len(),
    ensures
        volume_choices(c, format_new, n) is Err ==> about_sizes(
            volume_choices(c, format_new, n)->Err_0,
        ),
    decreases n,
{
    if n > 0 {
        lemma_volume_found(c, format_new, (n - 1) as nat);
        lemma_members_found(
            c,
            n - 1,
            format_new,
            c.configuration.logical@[n - 1].members@.len(),
        );
    }
}

proof fn lemma_layout_found(c: Config, n: nat)
    requires
        consistent(c),
        n <= c.configuration.layout@.len(),
    ensures
        layout_choices(c, n) is Ok,
    decreases n,
{
    if n > 0 {
        lemma_layout_found(c, (n - 1) as nat);
        let logical = c.configuration.logical@;
        let known = logical_names(logical);
        let layout = texts(c.configuration.layout@);
        let name = layout[n - 1];
        assert(among(known, logical.len() as int, name));
        let j = choose|j: int| 0 <= j < logical.len() && #[trigger] known[j] == name;
        assert(logical[j].name@ == name);
        lemma_logical_found(logical, name, logical.len());
    }
}

/// An accepted configuration can be put together, unless a size in it cannot be worked with.
pub proof fn accepted_configuration_materializes(c: Config, format_new: bool)
    requires
        c.fault() is None,
    ensures
        volume_choice(c, format_new) is Err ==> about_sizes(volume_choice(c, format_new)->Err_0),
{
    accepted_configuration_is_consistent(c);
    lemma_volume_found(c, format_new, c.configuration.logical@.len());
    lemma_layout_found(c, c.configuration.layout@.len());
}

} // verus!
