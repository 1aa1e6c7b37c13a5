//! Our state within one peer session: the choke/interest flags of both
//! sides and the last bitfield the remote was told about.

use vstd::prelude::*;
use crate::bitfield::Bitfield;

verus! {

/// Per-connection protocol state.
#[derive(Debug)]
pub struct SessionStatus {
    /// We are choked by the remote.
    pub choked: bool,
    /// We are interested in the remote.
    pub interested: bool,
    /// The remote is choked by us.
    pub peer_choked: bool,
    /// The remote is interested in us.
    pub peer_interested: bool,
    pub bitfield: Bitfield,
}

impl SessionStatus {
    /// A fresh session: both sides choked, neither interested.
    pub fn new(bitfield: Bitfield) -> (r: SessionStatus)
        ensures
            r.choked,
            !r.interested,
            r.peer_choked,
            !r.peer_interested,
            r.bitfield@ == bitfield@,
    {
        SessionStatus { choked: true, interested: false, peer_choked: true, peer_interested: false, bitfield }
    }
}

impl Clone for SessionStatus {
    /// Field-for-field copy.
    fn clone(&self) -> (r: SessionStatus)
        ensures
            r.choked == self.choked,
            r.interested == self.interested,
            r.peer_choked == self.peer_choked,
            r.peer_interested == self.peer_interested,
            r.bitfield@ == self.bitfield@,
    {
        SessionStatus {
            choked: self.choked,
            interested: self.interested,
            peer_choked: self.peer_choked,
            peer_interested: self.peer_interested,
            bitfield: self.bitfield.clone(),
        }
    }
}

} // verus!
