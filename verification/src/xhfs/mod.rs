//! The file system proper: what lies on the disk and the operations on it.
use crate::device::disk::Controller;
use crate::device::Device;
use crate::xhfs::image::Image;
use crate::xhfs::layout::{Format, GeometryLayout, HEADER_SIZE};
use vstd::prelude::*;

pub mod bitmap;
pub mod block_laws;
pub mod blocks;
pub mod chain_laws;
pub mod clock;
pub mod dir_laws;
pub mod dirs;
pub mod ds;
pub mod entry_laws;
pub mod extent;
pub mod failure_laws;
pub mod file_laws;
pub mod files;
pub mod format_laws;
pub mod free_laws;
pub mod image;
pub mod inode_laws;
pub mod laws;
pub mod layout;
pub mod link_laws;
pub mod mkdir_laws;
pub mod mount;
pub mod move_laws;
pub mod name_laws;
pub mod node_laws;
pub mod op_laws;
pub mod ops;
pub mod refusal_laws;
pub mod reopen_laws;
pub mod room_laws;
pub mod sound;
pub mod space_laws;
pub mod store;
pub mod store_laws;
pub mod stream;
pub mod stream_laws;
pub mod success_laws;
pub mod tree;
pub mod unlink_laws;
pub mod volume;
pub mod volume_laws;

verus! {

/// A formatted disk.
pub struct XHFS<D> {
    pub header_size: usize,
    pub static_format: Format,
    pub geometry: GeometryLayout,
    pub ctrl: Controller<D>,
}

impl<D: Device> XHFS<D> {
    /// The format can be worked with, and the geometry is the one that it gives.
    pub open spec fn wf(&self) -> bool {
        &&& self.ctrl.wf()
        &&& self.header_size == HEADER_SIZE
        &&& self.static_format.usable()
        &&& self.geometry == self.static_format.geometry()
    }

    /// The disk that the operations speak of.
    pub open spec fn image(&self) -> Image {
        Image {
            format: self.static_format,
            cipher: self.ctrl.cipher(),
            disk: self.ctrl.disk(),
        }
    }

    /// Of every device the first copy answers.
    pub open spec fn steady(&self) -> bool {
        self.ctrl.steady()
    }

    /// What a request that only reads answers holds, given whether it succeeded.
    pub open spec fn tells(&self, ok: bool) -> bool {
        self.ctrl.tells(ok)
    }

    /// What a request that writes answers holds, given whether it succeeded.
    pub open spec fn obeys(&self, ok: bool) -> bool {
        self.ctrl.obeys(ok)
    }

    /// `after` is the same volume as `before`: at most the bytes on its disk differ. Copies that all
    /// answer and agree do so afterwards.
    pub open spec fn kept(before: &Self, after: &Self) -> bool {
        &&& after.wf()
        &&& after.static_format == before.static_format
        &&& after.ctrl.cipher() == before.ctrl.cipher()
        &&& after.ctrl.disk().len() == before.ctrl.disk().len()
        &&& before.steady() ==> after.steady()
        &&& before.ctrl.single() ==> after.ctrl.single()
        &&& before.ctrl.mirrored() ==> after.ctrl.mirrored()
    }
}

} // verus!
