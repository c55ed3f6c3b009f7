//! The snapshot that a node keeps.

use vstd::prelude::*;

use crate::control::types::LogId;
use crate::text;
use crate::text::push_decimal;

verus! {

/// What a snapshot covers, and its name.
#[derive(Debug)]
pub struct SnapshotMeta {
    pub last_log_id: Option<LogId>,
    pub snapshot_id: String,
}

/// A snapshot: what it covers, the membership at that point, and the encoded
/// state.
pub struct StoredSnapshot<M> {
    pub meta: SnapshotMeta,
    pub membership: M,
    pub data: Vec<u8>,
}

/// The name of the snapshot with the given number.
pub open spec fn snapshot_name(n: nat) -> Seq<char> {
    "snapshot-"@ + text::decimal(n)
}

/// Holds at most one snapshot, the newest.
pub struct SnapshotSlot<M> {
    current: Option<StoredSnapshot<M>>,
    built: u64,
}

impl<M> SnapshotSlot<M> {
    /// The snapshot that is held.
    pub closed spec fn held(&self) -> Option<StoredSnapshot<M>> {
        self.current
    }

    /// How many snapshots this node has built.
    pub closed spec fn count(&self) -> u64 {
        self.built
    }

    pub fn new() -> (s: Self)
        ensures
            s.held() is None,
            s.count() == 0,
    {
        SnapshotSlot { current: None, built: 0 }
    }

    /// Keeps a new snapshot of this node's own state.
    pub fn build(&mut self, last_log_id: Option<LogId>, membership: M, data: Vec<u8>)
        requires
            old(self).count() < u64::MAX,
        ensures
            final(self).count() == old(self).count() + 1,
            final(self).held() matches Some(s) && s.meta.last_log_id == last_log_id
                && s.meta.snapshot_id@ == snapshot_name(final(self).count() as nat)
                && s.membership == membership && s.data == data,
    {
        self.built = self.built + 1;
        let mut snapshot_id = "snapshot-".to_owned();
        push_decimal(&mut snapshot_id, self.built);
        self.current = Some(
            StoredSnapshot { meta: SnapshotMeta { last_log_id, snapshot_id }, membership, data },
        );
    }

    /// Keeps a snapshot that another node sent.
    pub fn install(&mut self, snapshot: StoredSnapshot<M>)
        ensures
            final(self).held() == Some(snapshot),
            final(self).count() == old(self).count(),
    {
        self.current = Some(snapshot);
    }

    /// The snapshot that is held.
    pub fn current(&self) -> (r: &Option<StoredSnapshot<M>>)
        ensures
            *r == self.held(),
    {
        &self.current
    }
}

/// Snapshots with different numbers have different names.
pub proof fn snapshot_names_differ(a: nat, b: nat)
    requires
        a != b,
    ensures
        snapshot_name(a) != snapshot_name(b),
{
    let n = "snapshot-"@.len() as int;
    assert(snapshot_name(a).skip(n) =~= text::decimal(a));
    assert(snapshot_name(b).skip(n) =~= text::decimal(b));
    text::decimal_round_trip(a);
    text::decimal_round_trip(b);
}

} // verus!
