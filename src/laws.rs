//! General properties of the forest, stated over the contracts of its
//! operations.
use vstd::prelude::*;
use crate::khf::{Khf, in_ranges, runs_of};
use crate::node::Node;
use crate::roots::{positions, run_tiles, spliced, spliced_runs, lemma_tiles_order};

verus! {

/// Deriving the same identifier twice, with nothing in between, yields the
/// same key, and leaves the committed state as it was.
pub proof fn derive_is_deterministic(
    s0: Khf,
    s1: Khf,
    s2: Khf,
    x: u64,
    k1: Seq<u8>,
    k2: Seq<u8>,
)
    requires
        s0.derive_post(x, &s1, k1),
        s1.derive_post(x, &s2, k2),
    ensures
        k1 == k2,
        s2.same_committed(&s0),
{
}

/// The roots of a forest are either a single whole-domain root, or subtrees
/// that are ordered, do not overlap, and together cover exactly the
/// committed identifiers `[0, keys)`.
pub proof fn roots_partition_domain(f: Khf)
    requires
        f.wf(),
    ensures
        f.consolidated() || {
            let t = f.topology_view();
            let r = f.roots_view();
            &&& run_tiles(&t, r, 0, f.keys_view() as int)
            &&& forall|i: int, j: int|
                0 <= i < j < r.len() ==> t.pend(#[trigger] r[i].pos) <= t.pstart(#[trigger] r[j].pos)
            &&& forall|i: int|
                0 <= i < r.len() ==> 0 <= t.pstart(#[trigger] r[i].pos) < t.pend(r[i].pos) <= f.keys_view()
        },
{
    Khf::lemma_wf_roots(f);
    if !f.consolidated() {
        lemma_tiles_order(&f.topology_view(), f.roots_view(), 0, f.keys_view() as int);
    }
}

/// Updating an identifier and committing leaves the key of every other
/// identifier that was not pending an update, below the new size, as it was
/// before the update.
pub proof fn update_commit_keeps_others(
    s0: Khf,
    s1: Khf,
    s2: Khf,
    x: u64,
    y: u64,
    k: Seq<u8>,
    r: Seq<u64>,
)
    requires
        s0.update_post(x, &s1, k),
        s1.commit_post(&s2, r),
        y != x,
        !s0.updated_view().contains(y),
        y < s2.keys_view(),
    ensures
        s2.current_key(y) == s0.current_key(y),
{
}

/// Between an update and the next commit, deriving the identifier yields
/// the key it had before the update.
pub proof fn update_is_deferred(
    s0: Khf,
    s1: Khf,
    s2: Khf,
    s3: Khf,
    x: u64,
    u: Seq<u8>,
    k: Seq<u8>,
    v: Seq<u8>,
)
    requires
        s0.derive_post(x, &s1, u),
        s1.update_post(x, &s2, k),
        s2.derive_post(x, &s3, v),
    ensures
        k == u,
        v == u,
{
}

/// Truncating to `n` and committing leaves `n` keys; every key below `n`
/// that was not pending an update keeps its value; updates at or past `n`
/// are dropped.
pub proof fn truncate_then_commit(s0: Khf, s1: Khf, s2: Khf, n: u64, r: Seq<u64>)
    requires
        s0.truncate_post(n, &s1),
        s1.commit_post(&s2, r),
    ensures
        s2.keys_view() == n,
        forall|x: u64|
            x < n && !s0.updated_view().contains(x) ==> #[trigger] s2.current_key(x) == s0.current_key(x),
        forall|i: int| 0 <= i < r.len() ==> #[trigger] r[i] < n,
        s2.updated_view() == Set::<u64>::empty(),
{
    assert forall|i: int| 0 <= i < r.len() implies #[trigger] r[i] < n by {
        assert(r.to_set().contains(r[i]));
    }
}

/// Keys past the committed ones that were derived during the in-flight
/// period, and not updated, keep those values once committed.
pub proof fn commit_keeps_appended(s1: Khf, s2: Khf, r: Seq<u64>)
    requires
        s1.commit_post(&s2, r),
    ensures
        forall|x: u64|
            s1.keys_view() <= x < s1.in_flight_view() && !s1.updated_view().contains(x)
                ==> #[trigger] s2.current_key(x) == s1.current_key(x),
{
}

/// Restoring a forest from the committed parts it hands out (its topology,
/// appending root, roots and size) succeeds, and the restored forest gives
/// every identifier the same key and has the same roots.
pub proof fn restore_of_parts_is_equivalent(f: Khf, r: Option<Khf>)
    requires
        f.wf(),
        Khf::from_parts_post(f.topology_view(), f.appending_view(), f.roots_view(), f.keys_view(), r),
    ensures
        r is Some,
        r->0.roots_view() == f.roots_view(),
        r->0.keys_view() == f.keys_view(),
        forall|x: u64| #[trigger] r->0.current_key(x) == f.current_key(x),
{
    Khf::lemma_parts_valid(f);
}

/// Updating an identifier and then committing without shrinking revokes
/// it: unless every identifier below the new size was updated (which leaves
/// a single fresh root), its new key comes from a whole-domain node that the
/// commit made for the run of updates holding it.
pub proof fn update_commit_rekeys(s0: Khf, s1: Khf, s2: Khf, x: u64, k: Seq<u8>, r: Seq<u64>)
    requires
        s0.update_post(x, &s1, k),
        s1.commit_post(&s2, r),
        x < s1.in_flight_view(),
        s1.in_flight_view() >= s1.keys_view(),
        r.len() != s1.in_flight_view(),
    ensures
        exists|n: Node|
            n.pos == (0u64, 0u64) && #[trigger] n.key_at(&s2.topology_view(), s2.topology_view().leaf(x))
                == s2.current_key(x),
{
    let (runs, fresh) = choose|runs: Seq<(u64, u64)>, fresh: Seq<Node>|
        runs_of(r.to_set(), runs) && #[trigger] s2.keys_rekeyed(runs, fresh) && positions(
            s2.roots_view(),
        ) == spliced_runs(
            &s1.topology_view(),
            spliced(&s1.topology_view(), s1.grow_base(), 1, s1.keys_view(), s1.in_flight_view()),
            1,
            runs,
        );
    assert(r.to_set().contains(x));
    assert(in_ranges(runs, x));
    let j = choose|j: int| 0 <= j < runs.len() && (#[trigger] runs[j]).0 <= x < runs[j].1;
    assert(s2.current_key(x) == fresh[j].key_at(&s2.topology_view(), s2.topology_view().leaf(x)));
    assert(fresh[j].pos == (0u64, 0u64));
}

} // verus!
