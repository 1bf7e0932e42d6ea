//! The presence cache: per-kind sets of identifiers already known to exist
//! in storage, so an existence check round-trip is paid at most once per
//! entity.
//!
//! The cache is an optimization, never a source of truth: an identifier is
//! marked present only after its row is confirmed stored, so a hit can skip
//! the lookup, while a miss always falls through to a real check.

use crate::store::Store;
use crate::table::holds_key;
use vstd::prelude::*;

verus! {

/// The entity kinds tracked separately.
#[derive(Clone, Copy, PartialEq, Eq, Structural)]
pub enum EntityKind {
    Guild,
    Channel,
    User,
}

/// Identifiers known to be present in storage, one set per entity kind.
pub struct PresenceCache {
    guilds: Vec<u64>,
    channels: Vec<u64>,
    users: Vec<u64>,
}

impl PresenceCache {
    /// Whether `id` is marked present for `kind`.
    pub closed spec fn has(self, kind: EntityKind, id: u64) -> bool {
        match kind {
            EntityKind::Guild => self.guilds@.contains(id),
            EntityKind::Channel => self.channels@.contains(id),
            EntityKind::User => self.users@.contains(id),
        }
    }

    /// An empty cache: everything is a miss.
    pub fn new() -> (r: PresenceCache)
        ensures
            forall|kind: EntityKind, id: u64| !r.has(kind, id),
    {
        PresenceCache { guilds: Vec::new(), channels: Vec::new(), users: Vec::new() }
    }

    /// A non-blocking membership read.
    pub fn contains(&self, kind: EntityKind, id: u64) -> (r: bool)
        ensures
            r <==> self.has(kind, id),
    {
        let ids = match kind {
            EntityKind::Guild => &self.guilds,
            EntityKind::Channel => &self.channels,
            EntityKind::User => &self.users,
        };
        let mut i: usize = 0;
        while i < ids.len()
            invariant
                i <= ids@.len(),
                ids@ == match kind {
                    EntityKind::Guild => self.guilds@,
                    EntityKind::Channel => self.channels@,
                    EntityKind::User => self.users@,
                },
                forall|k: int| 0 <= k < i ==> ids@[k] != id,
            decreases ids@.len() - i,
        {
            if ids[i] == id {
                return true;
            }
            i = i + 1;
        }
        false
    }

    /// Marks `id` present for `kind`; marking twice changes nothing more.
    pub fn mark_present(&mut self, kind: EntityKind, id: u64)
        ensures
            forall|k2: EntityKind, i2: u64| #[trigger]
                final(self).has(k2, i2) <==> old(self).has(k2, i2) || (k2 == kind && i2 == id),
    {
        if !self.contains(kind, id) {
            let ids = match kind {
                EntityKind::Guild => &mut self.guilds,
                EntityKind::Channel => &mut self.channels,
                EntityKind::User => &mut self.users,
            };
            ids.push(id);
            proof {
                assert forall|k2: EntityKind, i2: u64| #[trigger]
                    self.has(k2, i2) <==> old(self).has(k2, i2) || (k2 == kind && i2 == id) by {
                    let before = match k2 {
                        EntityKind::Guild => old(self).guilds@,
                        EntityKind::Channel => old(self).channels@,
                        EntityKind::User => old(self).users@,
                    };
                    let after = match k2 {
                        EntityKind::Guild => self.guilds@,
                        EntityKind::Channel => self.channels@,
                        EntityKind::User => self.users@,
                    };
                    if k2 == kind {
                        assert(after =~= before.push(id));
                        if self.has(k2, i2) && i2 != id {
                            let w = choose|w: int| 0 <= w < after.len() && after[w] == i2;
                            assert(before[w] == i2);
                        }
                        if old(self).has(k2, i2) {
                            let w = choose|w: int| 0 <= w < before.len() && before[w] == i2;
                            assert(after[w] == i2);
                        }
                        assert(after.last() == id);
                    }
                }
            }
        }
    }
}

/// The cache never claims presence that storage cannot back: every cached
/// identifier has its row.
pub open spec fn cache_sound(cache: PresenceCache, store: Store) -> bool {
    &&& forall|id: u64|
        #[trigger] cache.has(EntityKind::Guild, id) ==> holds_key(store.guilds@, id)
    &&& forall|id: u64|
        #[trigger] cache.has(EntityKind::Channel, id) ==> holds_key(store.channels@, id)
    &&& forall|id: u64| #[trigger] cache.has(EntityKind::User, id) ==> holds_key(store.users@, id)
}

} // verus!
