use vstd::prelude::*;

verus! {

/// The durable state identifying the remote endpoint and the material needed
/// to resume a connection: which data center to dial, the authorization key,
/// and the highest update sequence number already applied.
///
/// The model of a session as plain values.
pub ghost struct SessionModel {
    pub dc_id: u32,
    pub auth_key: Seq<u8>,
    pub update_seq: u64,
}

/// See [`SessionModel`]. Owned by the pool; the pool is its single writer.
#[derive(Clone, Debug)]
pub struct Session {
    pub dc_id: u32,
    pub auth_key: Vec<u8>,
    pub update_seq: u64,
}

impl View for Session {
    type V = SessionModel;

    open spec fn view(&self) -> SessionModel {
        SessionModel { dc_id: self.dc_id, auth_key: self.auth_key@, update_seq: self.update_seq }
    }
}

impl Session {
    /// A fresh, not yet authorized session for one data center.
    pub fn new(dc_id: u32) -> (s: Session)
        ensures
            s@.dc_id == dc_id,
            s@.auth_key == Seq::<u8>::empty(),
            s@.update_seq == 0,
    {
        let s = Session { dc_id, auth_key: Vec::new(), update_seq: 0 };
        proof {
            assert(s@.auth_key =~= Seq::<u8>::empty());
        }
        s
    }

    /// Restores a session from its plain parts, as read back from storage.
    pub fn restore(dc_id: u32, auth_key: Vec<u8>, update_seq: u64) -> (s: Session)
        ensures
            s@ == (SessionModel { dc_id, auth_key: auth_key@, update_seq }),
    {
        Session { dc_id, auth_key, update_seq }
    }

    /// Installs a rotated authorization key; everything else is kept.
    pub fn rotate_auth_key(&mut self, key: Vec<u8>)
        ensures
            final(self)@ == (SessionModel { auth_key: key@, ..old(self)@ }),
    {
        self.auth_key = key;
    }

    /// Records that updates up to `seq` were applied; the marker never moves
    /// backwards. Reports whether it moved.
    pub fn advance_updates(&mut self, seq: u64) -> (moved: bool)
        ensures
            moved <==> seq > old(self)@.update_seq,
            moved ==> final(self)@ == (SessionModel { update_seq: seq, ..old(self)@ }),
            !moved ==> final(self)@ == old(self)@,
    {
        if seq > self.update_seq {
            self.update_seq = seq;
            true
        } else {
            false
        }
    }
}

} // verus!
