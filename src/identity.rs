//! The server's identity: its role, its replication id and its replication
//! offset.
use vstd::prelude::*;
use vstd::string::StringSliceAdditionalSpecFns;
use crate::codec::{append_bytes, dec, push_decimal};

verus! {

/// Leader, or follower of the leader at an address (`host port`).
pub enum Role {
    Leader,
    Follower(Vec<u8>),
}

/// Created once at startup; only the offset changes afterwards.
pub struct ServerIdentity {
    pub role: Role,
    pub replication_id: Vec<u8>,
    /// Bytes of writes propagated so far.
    pub offset: u64,
}

pub open spec fn role_word(role: Role) -> Seq<u8> {
    match role {
        Role::Leader => "leader".spec_bytes(),
        Role::Follower(_) => "follower".spec_bytes(),
    }
}

/// `role:<leader|follower>:master_replid:<id>:master_repl_offset:<offset>`
pub open spec fn info_text(id: ServerIdentity) -> Seq<u8> {
    "role:".spec_bytes() + role_word(id.role) + ":master_replid:".spec_bytes() + id.replication_id@
        + ":master_repl_offset:".spec_bytes() + dec(id.offset as nat)
}

/// `FULLRESYNC <id> <offset>`
pub open spec fn fullresync_text(id: ServerIdentity) -> Seq<u8> {
    "FULLRESYNC ".spec_bytes() + id.replication_id@ + " ".spec_bytes() + dec(id.offset as nat)
}

impl ServerIdentity {
    /// The identity a server starts with: offset zero.
    pub fn new(role: Role, replication_id: Vec<u8>) -> (r: ServerIdentity)
        ensures
            r.role == role,
            r.replication_id == replication_id,
            r.offset == 0,
    {
        ServerIdentity { role, replication_id, offset: 0 }
    }

    pub fn is_leader(&self) -> (r: bool)
        ensures
            r == (self.role is Leader),
    {
        match self.role {
            Role::Leader => true,
            Role::Follower(_) => false,
        }
    }

    /// The replication section that INFO reports.
    pub fn info(&self) -> (r: Vec<u8>)
        ensures
            r@ == info_text(*self),
    {
        let mut out: Vec<u8> = Vec::new();
        append_bytes(&mut out, "role:".as_bytes());
        match self.role {
            Role::Leader => append_bytes(&mut out, "leader".as_bytes()),
            Role::Follower(_) => append_bytes(&mut out, "follower".as_bytes()),
        }
        append_bytes(&mut out, ":master_replid:".as_bytes());
        append_bytes(&mut out, self.replication_id.as_slice());
        append_bytes(&mut out, ":master_repl_offset:".as_bytes());
        push_decimal(&mut out, self.offset);
        out
    }

    /// The text of the reply to PSYNC.
    pub fn fullresync(&self) -> (r: Vec<u8>)
        ensures
            r@ == fullresync_text(*self),
    {
        let mut out: Vec<u8> = Vec::new();
        append_bytes(&mut out, "FULLRESYNC ".as_bytes());
        append_bytes(&mut out, self.replication_id.as_slice());
        append_bytes(&mut out, " ".as_bytes());
        push_decimal(&mut out, self.offset);
        out
    }

    /// Counts `n` more bytes of propagated writes (the offset stops at its
    /// largest value rather than wrap).
    pub fn advance_offset(&mut self, n: usize)
        ensures
            final(self).role == old(self).role,
            final(self).replication_id == old(self).replication_id,
            final(self).offset == if old(self).offset + n > u64::MAX {
                u64::MAX as int
            } else {
                old(self).offset + n
            },
    {
        self.offset = self.offset.saturating_add(n as u64);
    }
}

} // verus!
