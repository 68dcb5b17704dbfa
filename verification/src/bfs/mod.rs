//! A simpler file system without block groups: freed stretches are listed in the header.
use crate::bfs::image::{Brute, BRUTE_HEADER_SIZE};
use crate::device::disk::Controller;
use crate::device::Device;
use vstd::prelude::*;

pub mod append_laws;
pub mod clock;
pub mod dir_laws;
pub mod ds;
pub mod failure_laws;
pub mod files;
pub mod image;
pub mod laws;
pub mod link_laws;
pub mod move_laws;
pub mod node_laws;
pub mod op_laws;
pub mod records;
pub mod reopen_laws;
pub mod report;
pub mod sound;
pub mod space;
pub mod space_laws;
pub mod success_laws;
pub mod tree_laws;
pub mod unlink_laws;
pub mod vector;

verus! {

/// A formatted disk.
pub struct BruteFS<D> {
    pub header_size: usize,
    pub ctrl: Controller<D>,
}

impl<D: Device> BruteFS<D> {
    pub open spec fn wf(&self) -> bool {
        &&& self.ctrl.wf()
        &&& self.header_size == BRUTE_HEADER_SIZE
    }

    /// The disk that the operations speak of.
    pub open spec fn image(&self) -> Brute {
        Brute { cipher: self.ctrl.cipher(), disk: self.ctrl.disk() }
    }

    /// Of every device the first copy answers.
    pub open spec fn steady(&self) -> bool {
        self.ctrl.steady()
    }

    /// What a request that only reads answers holds, given whether it succeeded.
    pub open spec fn tells(&self, ok: bool) -> bool {
        self.ctrl.tells(ok)
    }

    /// What a request that writes answers holds, given whether it succeeded.
    pub open spec fn obeys(&self, ok: bool) -> bool {
        self.ctrl.obeys(ok)
    }

    /// `after` is the same volume as `before`: at most the bytes on its disk differ. Copies that all
    /// answer and agree do so afterwards.
    pub open spec fn kept(before: &Self, after: &Self) -> bool {
        &&& after.wf()
        &&& after.ctrl.cipher() == before.ctrl.cipher()
        &&& after.ctrl.disk().len() == before.ctrl.disk().len()
        &&& before.steady() ==> after.steady()
        &&& before.ctrl.single() ==> after.ctrl.single()
        &&& before.ctrl.mirrored() ==> after.ctrl.mirrored()
    }
}

} // verus!
