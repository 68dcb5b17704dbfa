//! What a request that is refused is answered, and that it changes nothing.
use crate::error::{Fault, XHFSError};
use crate::utils::{components, path_starts_with};
use crate::xhfs::ds::INodeKind;
use crate::xhfs::image::Image;
use crate::xhfs::op_laws::{grounded, lemma_lookup_split, lemma_walk_live};
use crate::xhfs::tree::WriteOption;
use vstd::prelude::*;

verus! {

/// Data that does not fit into the free space is not written, whatever the path.
pub proof fn write_without_room_is_refused(
    m: Image,
    path: Seq<char>,
    data: Seq<u8>,
    kind: INodeKind,
    opt: WriteOption,
    now: u64,
)
    requires
        m.remaining() is Ok,
        data.len() >= m.remaining()->Ok_0,
    ensures
        m.blob_write(path, data, kind, opt, now) == (
            m,
            Err::<(), _>(
                XHFSError::Error {
                    err: Fault::InsufficientSpace {
                        size: data.len() as u64,
                        remaining: m.remaining()->Ok_0 as u64,
                    },
                },
            ),
        ),
{
}

/// A file or link that is there is not replaced unless that was asked for.
pub proof fn existing_file_is_not_replaced_unasked(
    m: Image,
    path: Seq<char>,
    data: Seq<u8>,
    kind: INodeKind,
    opt: WriteOption,
    now: u64,
)
    requires
        m.remaining() is Ok,
        data.len() < m.remaining()->Ok_0,
        m.parent(path) is Ok,
        m.lookup(path) is Ok,
        m.lookup(path)->Ok_0.kind is File || m.lookup(path)->Ok_0.kind is Symlink,
        !opt.overwrite,
    ensures
        m.blob_write(path, data, kind, opt, now) == (
            m,
            Err::<(), _>(XHFSError::Error { err: Fault::FileExists }),
        ),
{
    lemma_lookup_split(m, path);
}

/// A directory or hard link is not written over as if it were a file, even if that was asked for.
pub proof fn directory_is_not_written_over(
    m: Image,
    path: Seq<char>,
    data: Seq<u8>,
    kind: INodeKind,
    opt: WriteOption,
    now: u64,
)
    requires
        m.remaining() is Ok,
        data.len() < m.remaining()->Ok_0,
        m.parent(path) is Ok,
        m.lookup(path) is Ok,
        !(m.lookup(path)->Ok_0.kind is File || m.lookup(path)->Ok_0.kind is Symlink),
    ensures
        m.blob_write(path, data, kind, opt, now) == (
            m,
            Err::<(), _>(XHFSError::Error { err: Fault::NotAFile }),
        ),
{
    lemma_lookup_split(m, path);
}

/// A directory is not read as a file.
pub proof fn directory_is_not_read_as_file(m: Image, path: Seq<char>)
    requires
        m.lookup(path) is Ok,
        m.lookup(path)->Ok_0.kind is Directory,
    ensures
        m.fread(path) == Err::<Seq<u8>, _>(
            XHFSError::Error { err: Fault::CannotReadDirectory },
        ),
{
}

/// Nothing is moved below itself.
pub proof fn move_into_itself_is_refused(m: Image, src: Seq<char>, dest: Seq<char>, now: u64)
    requires
        path_starts_with(dest, src),
    ensures
        m.fmove(src, dest, now) == (
            m,
            Err::<(), _>(XHFSError::Error { err: Fault::MoveIntoItself }),
        ),
{
}

/// Nothing is moved to where something is.
pub proof fn move_onto_an_entry_is_refused(m: Image, src: Seq<char>, dest: Seq<char>, now: u64)
    requires
        grounded(m),
        !path_starts_with(dest, src),
        m.parent(src) is Ok,
        m.dir(m.parent(src)->Ok_0.0.extent_addr) is Ok,
        m.parent(dest) is Ok,
        m.lookup(dest) is Ok,
    ensures
        m.fmove(src, dest, now) == (
            m,
            Err::<(), _>(XHFSError::Error { err: Fault::DestinationExists }),
        ),
{
    lemma_lookup_split(m, src);
    lemma_lookup_split(m, dest);
    let sp = components(src);
    let dp = components(dest);
    lemma_walk_live(m, sp, (sp.len() - 1) as nat);
    lemma_walk_live(m, dp, (dp.len() - 1) as nat);
}

/// A directory that has entries is not removed.
pub proof fn directory_with_entries_is_not_removed(m: Image, path: Seq<char>, now: u64)
    requires
        m.parent(path) is Ok,
        m.lookup(path) is Ok,
        m.lookup(path)->Ok_0.kind is Directory,
        m.dir(m.lookup(path)->Ok_0.extent_addr) is Ok,
        m.dir(m.lookup(path)->Ok_0.extent_addr)->Ok_0.len() > 0,
    ensures
        m.unlink(path, now) == (
            m,
            Err::<(), _>(XHFSError::Error { err: Fault::DirectoryNotEmpty }),
        ),
{
    lemma_lookup_split(m, path);
}

} // verus!
