//! Database status decisions: migration status from the versions on disk
//! and the applied one, the health probe record, and catalog paging.

use vstd::prelude::*;

verus! {

/// Outcome of `db status`.
#[derive(Debug, Clone, PartialEq, Eq)]
pub struct MigrationStatus {
    /// Schema version applied.
    pub applied_version: u32,
    /// Highest version on disk (0 when none).
    pub latest_on_disk: u32,
    /// On-disk versions not yet applied, in discovery order.
    pub pending: Vec<u32>,
    /// The schema is current.
    pub current: bool,
}

/// Highest of `versions`, 0 when there is none.
pub open spec fn max_version(versions: Seq<u32>) -> u32
    decreases versions.len(),
{
    if versions.len() == 0 {
        0
    } else {
        let rest = max_version(versions.drop_last());
        if versions.last() > rest {
            versions.last()
        } else {
            rest
        }
    }
}

/// The highest migration version (0 if none).
pub fn latest_version(versions: &[u32]) -> (r: u32)
    ensures
        r == max_version(versions@),
{
    let mut r: u32 = 0;
    let mut i: usize = 0;
    while i < versions.len()
        invariant
            i <= versions.len(),
            r == max_version(versions@.take(i as int)),
        decreases versions.len() - i,
    {
        assert(versions@.take(i + 1).drop_last() =~= versions@.take(i as int));
        if versions[i] > r {
            r = versions[i];
        }
        i = i + 1;
    }
    assert(versions@.take(versions.len() as int) =~= versions@);
    r
}

/// Versions above `applied`, in order.
pub open spec fn above(versions: Seq<u32>, applied: u32) -> Seq<u32> {
    versions.filter(|v: u32| v > applied)
}

/// Migration status: pending are the on-disk versions above the applied
/// one; the schema is current when the applied version reaches the latest
/// on disk, or when nothing was ever applied and nothing is on disk.
pub fn migration_status(discovered: &[u32], applied_version: u32, applied_count: i64) -> (r: MigrationStatus)
    ensures
        r.applied_version == applied_version,
        r.latest_on_disk == max_version(discovered@),
        r.pending@ == above(discovered@, applied_version),
        r.current == (applied_version >= max_version(discovered@) || (applied_count == 0
            && max_version(discovered@) == 0)),
{
    let latest = latest_version(discovered);
    proof {
        reveal(Seq::<u32>::filter);
        assert(discovered@.take(0) =~= Seq::<u32>::empty());
    }
    let mut pending: Vec<u32> = Vec::new();
    let mut i: usize = 0;
    while i < discovered.len()
        invariant
            i <= discovered.len(),
            pending@ == above(discovered@.take(i as int), applied_version),
        decreases discovered.len() - i,
    {
        proof {
            reveal(Seq::<u32>::filter);
            assert(discovered@.take(i + 1).drop_last() =~= discovered@.take(i as int));
            assert(discovered@.take(i + 1).last() == discovered@[i as int]);
        }
        if discovered[i] > applied_version {
            pending.push(discovered[i]);
        }
        i = i + 1;
    }
    assert(discovered@.take(discovered.len() as int) =~= discovered@);
    MigrationStatus {
        applied_version,
        latest_on_disk: latest,
        pending,
        current: applied_version >= latest || (applied_count == 0 && latest == 0),
    }
}

/// A read-only snapshot of database health.
#[derive(Debug, Clone)]
pub struct DbProbe {
    pub reachable: bool,
    pub error: Option<String>,
    pub schema_version: u32,
    pub integrity_ok: bool,
    pub foreign_keys_on: bool,
    pub running_jobs: i64,
    pub interrupted_jobs: i64,
    pub dead_lettered_jobs: i64,
    pub outbox_pending: i64,
    pub outbox_oldest_pending_seconds: i64,
    pub tombstones_unpropagated: i64,
    pub audit_events: i64,
    pub license_unknown_count: i64,
    pub multiple_active_versions: i64,
}

impl Default for DbProbe {
    /// Nothing probed yet: unreachable, every count zero.
    fn default() -> (r: DbProbe)
        ensures
            !r.reachable && r.error is None && r.schema_version == 0 && !r.integrity_ok
                && !r.foreign_keys_on && r.running_jobs == 0 && r.interrupted_jobs == 0
                && r.dead_lettered_jobs == 0 && r.outbox_pending == 0
                && r.outbox_oldest_pending_seconds == 0 && r.tombstones_unpropagated == 0
                && r.audit_events == 0 && r.license_unknown_count == 0
                && r.multiple_active_versions == 0,
    {
        DbProbe {
            reachable: false,
            error: None,
            schema_version: 0,
            integrity_ok: false,
            foreign_keys_on: false,
            running_jobs: 0,
            interrupted_jobs: 0,
            dead_lettered_jobs: 0,
            outbox_pending: 0,
            outbox_oldest_pending_seconds: 0,
            tombstones_unpropagated: 0,
            audit_events: 0,
            license_unknown_count: 0,
            multiple_active_versions: 0,
        }
    }
}

/// Rows a catalog listing shows.
pub const CATALOG_LIMIT: usize = 1000;

/// A catalog page: how many of `n` rows are shown, and whether some were
/// cut.
pub fn catalog_page(n: usize) -> (r: (usize, bool))
    ensures
        r.0 == (if n > CATALOG_LIMIT {
            CATALOG_LIMIT
        } else {
            n
        }),
        r.1 == (n > CATALOG_LIMIT),
{
    if n > CATALOG_LIMIT {
        (CATALOG_LIMIT, true)
    } else {
        (n, false)
    }
}

/// The highest version is at least every version, and is one of them (0
/// when there is none).
pub proof fn max_version_law(versions: Seq<u32>)
    ensures
        forall|i: int| 0 <= i < versions.len() ==> #[trigger] versions[i] <= max_version(versions),
        versions.len() == 0 ==> max_version(versions) == 0,
        versions.len() > 0 ==> versions.contains(max_version(versions)),
    decreases versions.len(),
{
    if versions.len() > 0 {
        let rest = versions.drop_last();
        max_version_law(rest);
        assert forall|i: int| 0 <= i < versions.len() implies #[trigger] versions[i] <= max_version(versions) by {
            if i < rest.len() {
                assert(versions[i] == rest[i]);
            }
        }
        if versions.last() > max_version(rest) {
            assert(versions[versions.len() - 1] == versions.last());
        } else if rest.len() > 0 {
            let j = choose|j: int| 0 <= j < rest.len() && rest[j] == max_version(rest);
            assert(versions[j] == rest[j]);
        } else {
            assert(max_version(rest) == 0);
            assert(versions[0] == versions.last());
        }
    }
}

} // verus!
