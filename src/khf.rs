//! The keyed hash forest: a list of subtree roots covering the identifiers
//! `[0, keys)`, with deferred updates, appends and truncation that take
//! effect on commit.
use vstd::prelude::*;
use std::collections::BTreeSet;
use vstd::std_specs::cmp::OrdSpec;
use vstd::std_specs::iter::IteratorSpec;
use crate::crypto::Key;
use crate::node::Node;
use crate::roots::{
    find_pos, lemma_find_pos, positions, spliced, spliced_runs, find, fragment, last_affected, list_key, lookup, run_tiles, splice, lemma_coverage_keys,
    lemma_find_in, lemma_find_unique, lemma_keys_concat, lemma_piece, lemma_split_run,
    lemma_tiles_concat, lemma_tiles_order,
};
use crate::topology::{Pos, Topology, valid_fanouts};

verus! {

broadcast use vstd::std_specs::btree::group_btree_axioms, vstd::laws_cmp::group_laws_cmp;

/// The level of the roots made when the forest is mutated.
pub const DEFAULT_ROOT_LEVEL: u64 = 1;

/// The ways to consolidate a forest.
pub enum Consolidation {
    /// To a single root.
    Full,
    /// To roots of a given level.
    Leveled { level: u64 },
    /// The roots of a range of identifiers, to roots of level 1.
    Ranged { start: u64, end: u64 },
    /// The roots of a range of identifiers, to roots of a given level.
    RangedLeveled { level: u64, start: u64, end: u64 },
}

/// Every element of `s` is smaller than the next.
pub open spec fn strictly_increasing(s: Seq<u64>) -> bool {
    forall|i: int, j: int| 0 <= i < j < s.len() ==> s[i] < s[j]
}

/// One step of the binary search for the root holding leaf `x`, which is
/// `r[w]`: the root at `mid` holds `x` only if it is `r[w]`, and otherwise
/// lies wholly before or after it.
proof fn lemma_locate_step(t: &Topology, r: Seq<Node>, keys: int, w: int, mid: int, x: u64)
    requires
        t.wf(),
        run_tiles(t, r, 0, keys),
        0 <= w < r.len(),
        0 <= mid < r.len(),
        t.pstart(r[w].pos) <= x < t.pend(r[w].pos),
    ensures
        t.fits(r[mid].pos),
        t.pstart(r[mid].pos) <= x < t.pend(r[mid].pos) ==> mid == w,
        t.is_ancestor_spec(r[mid].pos, t.leaf(x)) ==> mid == w,
        t.pend(r[mid].pos) <= x ==> mid < w,
        x < t.pstart(r[mid].pos) ==> w < mid,
{
    lemma_tiles_order(t, r, 0, keys);
    assert(t.is_block(r[mid].pos));
    assert(t.pstart(t.leaf(x)) == x);
    if t.pstart(r[mid].pos) <= x < t.pend(r[mid].pos) {
        lemma_find_unique(t, r, 0, keys, mid, x as int);
        lemma_find_unique(t, r, 0, keys, w, x as int);
    }
    if mid < w {
        assert(t.pend(r[mid].pos) <= t.pstart(r[w].pos));
    }
    if w < mid {
        assert(t.pend(r[w].pos) <= t.pstart(r[mid].pos));
    }
}

/// A keyed hash forest: a family of keys indexed by `u64` identifiers that
/// can be derived, revoked (updated), grown and truncated.
#[derive(Clone)]
pub struct Khf {
    topology: Topology,
    appending_root: Node,
    in_flight_keys: u64,
    updated_keys: BTreeSet<u64>,
    roots: Vec<Node>,
    keys: u64,
}

impl Khf {
    pub closed spec fn topology_view(&self) -> Topology {
        self.topology
    }

    /// The root list.
    pub closed spec fn roots_view(&self) -> Seq<Node> {
        self.roots@
    }

    /// The committed number of keys.
    pub closed spec fn keys_view(&self) -> u64 {
        self.keys
    }

    /// The number of keys the next commit will leave.
    pub closed spec fn in_flight_view(&self) -> u64 {
        self.in_flight_keys
    }

    /// The identifiers updated since the last commit.
    pub closed spec fn updated_view(&self) -> Set<u64> {
        self.updated_keys@
    }

    /// The root that keys past the committed ones are derived from.
    pub closed spec fn appending_view(&self) -> Node {
        self.appending_root
    }

    /// A single root for the whole domain.
    pub open spec fn consolidated(&self) -> bool {
        self.roots_view().len() == 1 && self.roots_view()[0].pos == (0u64, 0u64)
    }

    pub closed spec fn wf(&self) -> bool {
        &&& self.topology.wf()
        &&& self.roots@.len() >= 1
        &&& self.appending_root.pos == (0u64, 0u64)
        &&& forall|k: u64| #[trigger] self.updated_keys@.contains(k) ==> k < u64::MAX
        &&& self.consolidated() || (self.keys >= 1 && run_tiles(
            &self.topology,
            self.roots@,
            0,
            self.keys as int,
        ))
    }

    /// The shape of a well-formed forest's roots.
    pub proof fn lemma_wf_roots(f: Khf)
        requires
            f.wf(),
        ensures
            f.topology_view().wf(),
            f.roots_view().len() >= 1,
            f.consolidated() || (f.keys_view() >= 1 && run_tiles(
                &f.topology_view(),
                f.roots_view(),
                0,
                f.keys_view() as int,
            )),
    {
    }

    /// The key that `derive(x)` returns in this state.
    pub open spec fn current_key(&self, x: u64) -> Seq<u8> {
        let t = self.topology_view();
        if x >= self.keys_view() {
            self.appending_view().key_at(&t, t.leaf(x))
        } else {
            lookup(&t, self.roots_view(), x)
        }
    }

    /// The positions a growing commit starts from: those of the roots, or,
    /// for a single whole-domain root, its minimal covering of the new size.
    pub open spec fn grow_base(&self) -> Seq<Pos> {
        if self.consolidated() {
            self.topology_view().cover_seq(1, 0, self.in_flight_view() as int)
        } else {
            positions(self.roots_view())
        }
    }

    /// The positions a shrinking commit leaves: the minimal covering of the
    /// new size by a single whole-domain root, or the roots before the one
    /// that holds the last kept leaf, followed by that root cut down to the
    /// kept leaves.
    pub open spec fn shrink_positions(&self) -> Seq<Pos> {
        let t = self.topology_view();
        let n = self.in_flight_view();
        if self.consolidated() {
            t.cover_seq(1, 0, n as int)
        } else {
            let p = positions(self.roots_view());
            let j = find_pos(&t, p, n - 1);
            p.subrange(0, j) + t.cover_seq(1, t.pstart(p[j]), n as int)
        }
    }

    /// The committed part of the state (topology, roots, committed size and
    /// appending root) is that of `other`.
    pub open spec fn same_committed(&self, other: &Khf) -> bool {
        &&& self.topology_view() == other.topology_view()
        &&& self.roots_view() == other.roots_view()
        &&& self.keys_view() == other.keys_view()
        &&& self.appending_view() == other.appending_view()
    }

    /// What `derive(x)` does: it returns the current key of `x` and, for an
    /// identifier past the committed ones, raises the in-flight size to
    /// cover it.
    pub open spec fn derive_post(&self, x: u64, next: &Khf, r: Seq<u8>) -> bool {
        &&& r == self.current_key(x)
        &&& next.same_committed(self)
        &&& next.updated_view() == self.updated_view()
        &&& next.in_flight_view() == if x >= self.keys_view() && x + 1 > self.in_flight_view() {
            (x + 1) as u64
        } else {
            self.in_flight_view()
        }
    }

    /// What `update(x)` does: `derive(x)`, and `x` is marked as updated.
    pub open spec fn update_post(&self, x: u64, next: &Khf, r: Seq<u8>) -> bool {
        &&& r == self.current_key(x)
        &&& next.same_committed(self)
        &&& next.updated_view() == self.updated_view().insert(x)
        &&& next.in_flight_view() == if x >= self.keys_view() && x + 1 > self.in_flight_view() {
            (x + 1) as u64
        } else {
            self.in_flight_view()
        }
    }

    /// What `truncate(n)` does: it only sets the in-flight size.
    pub open spec fn truncate_post(&self, n: u64, next: &Khf) -> bool {
        &&& next.same_committed(self)
        &&& next.updated_view() == self.updated_view()
        &&& next.in_flight_view() == n
    }

    /// What `commit()` does: the committed size becomes the in-flight one,
    /// no update stays pending, the pending ones below the new size are
    /// returned in increasing order, and every key below the new size that
    /// was not updated stays as it was. If every identifier below the new
    /// size was updated, a single fresh root is left. A commit that grows or
    /// keeps the size revokes the updated identifiers: each maximal run of
    /// them gets its keys from a whole-domain node of its own, drawn in this
    /// commit. A shrinking commit that does not leave a single root only cuts
    /// the roots: it does not revoke the pending updates below the new size,
    /// and every key below the new size stays as it was.
    pub open spec fn commit_post(&self, next: &Khf, r: Seq<u64>) -> bool {
        &&& next.topology_view() == self.topology_view()
        &&& next.keys_view() == self.in_flight_view()
        &&& next.in_flight_view() == self.in_flight_view()
        &&& next.updated_view() == Set::<u64>::empty()
        &&& strictly_increasing(r)
        &&& r.to_set() == self.updated_view().filter(|k: u64| k < self.in_flight_view())
        &&& forall|x: u64|
            x < self.in_flight_view() && !self.updated_view().contains(x) ==> #[trigger] next.current_key(x)
                == self.current_key(x)
        &&& r.len() == self.in_flight_view() ==> next.consolidated()
        &&& self.in_flight_view() < self.keys_view() && r.len() != self.in_flight_view() ==> forall|x: u64|
            x < self.in_flight_view() ==> #[trigger] next.current_key(x) == self.current_key(x)
        &&& self.in_flight_view() < self.keys_view() && r.len() != self.in_flight_view() ==> positions(
            next.roots_view(),
        ) == self.shrink_positions()
        &&& self.in_flight_view() >= self.keys_view() && r.len() != self.in_flight_view() ==> exists|
            runs: Seq<(u64, u64)>,
            fresh: Seq<Node>,
        | runs_of(r.to_set(), runs) && #[trigger] next.keys_rekeyed(runs, fresh) && positions(
            next.roots_view(),
        ) == spliced_runs(
            &self.topology_view(),
            spliced(&self.topology_view(), self.grow_base(), 1, self.keys_view(), self.in_flight_view()),
            1,
            runs,
        )
    }

    /// Every leaf of the `k`-th range of `runs` has the key that the
    /// whole-domain node `fresh[k]` gives it.
    pub open spec fn keys_rekeyed(&self, runs: Seq<(u64, u64)>, fresh: Seq<Node>) -> bool {
        let t = self.topology_view();
        &&& fresh.len() == runs.len()
        &&& forall|k: int| 0 <= k < fresh.len() ==> (#[trigger] fresh[k]).pos == (0u64, 0u64)
        &&& forall|k: int, x: u64|
            #![trigger runs[k], self.current_key(x)]
            0 <= k < runs.len() && runs[k].0 <= x < runs[k].1 ==> self.current_key(x) == fresh[k].key_at(
                &t,
                t.leaf(x),
            )
    }

    /// Builds a forest of the given fanouts with no keys: a single random
    /// root, and a random appending root.
    pub fn new(fanouts: &[u64], rng: &mut rand::rngs::StdRng) -> (r: Self)
        requires
            valid_fanouts(fanouts@),
        ensures
            r.wf(),
            r.topology_view().built_from(fanouts@),
            r.consolidated(),
            r.keys_view() == 0,
            r.in_flight_view() == 0,
            r.updated_view() == Set::<u64>::empty(),
    {
        let topology = Topology::new(fanouts);
        let appending_root = Node::with_rng(rng);
        let root = Node::with_rng(rng);
        let r = Self {
            topology,
            appending_root,
            in_flight_keys: 0,
            updated_keys: BTreeSet::new(),
            roots: vec![root],
            keys: 0,
        };
        proof {
        }
        r
    }

    /// The root list.
    pub fn roots(&self) -> (r: &Vec<Node>)
        ensures
            r@ == self.roots_view(),
    {
        &self.roots
    }

    /// The tree geometry.
    pub fn topology(&self) -> (r: &Topology)
        ensures
            *r == self.topology_view(),
    {
        &self.topology
    }

    /// The committed number of keys.
    pub fn keys(&self) -> (r: u64)
        ensures
            r == self.keys_view(),
    {
        self.keys
    }

    /// The number of keys the next commit will leave.
    pub fn in_flight_keys(&self) -> (r: u64)
        ensures
            r == self.in_flight_view(),
    {
        self.in_flight_keys
    }

    /// The root that keys past the committed ones are derived from.
    pub fn appending_root(&self) -> (r: &Node)
        ensures
            *r == self.appending_view(),
    {
        &self.appending_root
    }

    /// The number of roots.
    pub fn fragmentation(&self) -> (r: u64)
        ensures
            r == self.roots_view().len(),
    {
        self.roots.len() as u64
    }

    /// Whether the forest is a single root for the whole domain.
    pub fn is_consolidated(&self) -> (r: bool)
        ensures
            r == self.consolidated(),
    {
        self.roots.len() == 1 && self.roots[0].pos.0 == 0 && self.roots[0].pos.1 == 0
    }

    /// The identifiers updated since the last commit.
    pub fn updated_keys(&self) -> (r: &BTreeSet<u64>)
        ensures
            r@ == self.updated_view(),
    {
        &self.updated_keys
    }

    /// Mutable access to the identifiers updated since the last commit. The
    /// forest stays well formed as long as they stay below `u64::MAX`.
    pub fn updated_keys_mut(&mut self) -> (r: &mut BTreeSet<u64>)
        requires
            old(self).wf(),
        ensures
            r@ == old(self).updated_view(),
            final(self).same_committed(old(self)),
            final(self).in_flight_view() == old(self).in_flight_view(),
            final(self).updated_view() == final(r)@,
            (forall|k: u64| #[trigger] final(r)@.contains(k) ==> k < u64::MAX) ==> final(self).wf(),
    {
        &mut self.updated_keys
    }

    /// Sets the number of keys the next commit will leave; nothing else
    /// changes until then.
    pub fn truncate(&mut self, keys: u64)
        requires
            old(self).wf(),
        ensures
            final(self).wf(),
            old(self).truncate_post(keys, final(self)),
    {
        self.in_flight_keys = keys;
    }

    /// Index of the root that holds leaf `leaf`, by binary search on the
    /// ordered, non-overlapping roots.
    pub fn locate(&self, leaf: u64) -> (r: usize)
        requires
            self.wf(),
            leaf < self.keys_view(),
        ensures
            r < self.roots_view().len(),
            self.topology_view().is_ancestor_spec(
                self.roots_view()[r as int].pos,
                self.topology_view().leaf(leaf),
            ),
            self.consolidated() ==> r == 0,
            !self.consolidated() ==> r == find(&self.topology_view(), self.roots_view(), leaf as int),
    {
        let t = &self.topology;
        let pos = t.leaf_position(leaf);
        let n = self.roots.len();
        let ghost w = find(&self.topology_view(), self.roots_view(), leaf as int);
        proof {
            if !self.consolidated() {
                lemma_find_in(t, self.roots@, 0, self.keys as int, leaf as int);
            }
        }
        let mut lo: usize = 0;
        let mut hi: usize = n;
        while lo < hi
            invariant
                self.wf(),
                t == &self.topology,
                w == find(&self.topology_view(), self.roots_view(), leaf as int),
                pos == t.leaf(leaf),
                n == self.roots@.len(),
                leaf < self.keys,
                lo <= hi <= n,
                self.consolidated() ==> lo == 0 && hi == 1,
                !self.consolidated() ==> lo <= w < hi,
                !self.consolidated() ==> t.pstart(self.roots@[w].pos) <= leaf < t.pend(
                    self.roots@[w].pos,
                ),
            decreases hi - lo,
        {
            let mid = lo + (hi - lo) / 2;
            let root = self.roots[mid];
            proof {
                if !self.consolidated() {
                    lemma_locate_step(t, self.roots@, self.keys as int, w, mid as int, leaf);
                }
                assert(t.pstart(pos) == leaf);
            }
            if t.is_ancestor(root.pos, pos) {
                return mid;
            } else if t.end(root.pos) <= t.start(pos) {
                lo = mid + 1;
            } else {
                hi = mid;
            }
        }
        0
    }

    /// The current key of `key`, without recording anything.
    fn derive_key_immutable(&self, key: u64) -> (r: Key)
        requires
            self.wf(),
        ensures
            r@ == self.current_key(key),
    {
        let pos = self.topology.leaf_position(key);
        proof {
            assert(self.topology.pstart(pos) == key);
        }
        if key >= self.keys {
            return self.appending_root.derive(&self.topology, pos);
        }
        let index = self.locate(key);
        self.roots[index].derive(&self.topology, pos)
    }

    /// The current key of `key`. An identifier past the committed ones is
    /// derived from the appending root, and raises the in-flight size.
    fn derive_key(&mut self, key: u64) -> (r: Key)
        requires
            old(self).wf(),
            key < u64::MAX,
        ensures
            final(self).wf(),
            old(self).derive_post(key, final(self), r@),
    {
        if key >= self.keys && key + 1 > self.in_flight_keys {
            self.in_flight_keys = key + 1;
        }
        self.derive_key_immutable(key)
    }

    /// Derives the key of identifier `key`: the same bytes every time until
    /// the next commit or consolidation.
    pub fn derive(&mut self, key: u64) -> (r: Key)
        requires
            old(self).wf(),
            key < u64::MAX,
        ensures
            final(self).wf(),
            old(self).derive_post(key, final(self), r@),
    {
        self.derive_key(key)
    }

    /// Marks identifier `key` as updated and returns its current key; the
    /// key is revoked at the next commit.
    #[verifier::rlimit(40)]
    pub fn update(&mut self, key: u64) -> (r: Key)
        requires
            old(self).wf(),
            key < u64::MAX,
        ensures
            final(self).wf(),
            old(self).update_post(key, final(self), r@),
    {
        self.updated_keys.insert(key);
        self.derive_key(key)
    }
}

impl Khf {
    /// Replaces the keys of `[start, end)` by keys derived from `root`, at
    /// roots of level at least `level`; level 0 replaces the whole forest by
    /// `root`. The roots cover `[0, covered)` before (or the forest is
    /// consolidated) and `[0, max(covered, end))` after, and every key
    /// outside the range stays as it was. A consolidated forest is first
    /// expanded to `[0, max(covered, end))`, not to the in-flight size, so
    /// that the roots never cover past the committed size the caller is
    /// about to set. Every donor used here is a whole-domain node (a fresh
    /// root or the appending root), and that is all `root` may be.
    fn replace_keys(&mut self, level: u64, start: u64, end: u64, root: Node, covered: u64)
        requires
            old(self).topology.wf(),
            old(self).roots@.len() >= 1,
            level == 0 || old(self).consolidated() || (covered >= 1 && run_tiles(
                &old(self).topology,
                old(self).roots@,
                0,
                covered as int,
            )),
            level < old(self).topology.height_spec(),
            start <= end,
            start <= covered,
            root.pos == (0u64, 0u64),
        ensures
            final(self).topology == old(self).topology,
            final(self).appending_root == old(self).appending_root,
            final(self).keys == old(self).keys,
            final(self).in_flight_keys == old(self).in_flight_keys,
            final(self).updated_keys == old(self).updated_keys,
            level == 0 ==> final(self).roots@ == seq![root],
            level >= 1 && covered == 0 && end == 0 ==> final(self).roots@ == old(self).roots@,
            level >= 1 && (covered > 0 || end > 0) ==> {
                let m = if covered > end {
                    covered as int
                } else {
                    end as int
                };
                let t = &old(self).topology;
                &&& run_tiles(t, final(self).roots@, 0, m)
                &&& forall|x: u64|
                    x < m ==> #[trigger] list_key(t, final(self).roots@, x) == if start <= x < end {
                        root.key_at(t, t.leaf(x))
                    } else {
                        lookup(t, old(self).roots@, x)
                    }
            },
            level >= 1 && (covered > 0 || end > 0) ==> positions(final(self).roots@) == spliced(
                &old(self).topology,
                if old(self).consolidated() {
                    old(self).topology.cover_seq(
                        level as int,
                        0,
                        if covered > end {
                            covered as int
                        } else {
                            end as int
                        },
                    )
                } else {
                    positions(old(self).roots@)
                },
                level as int,
                start,
                end,
            ),
            level >= 1 && start == 0 && end >= covered && end > 0 ==> {
                let c = old(self).topology.cover_seq(level as int, 0, end as int);
                &&& final(self).roots@.len() == c.len()
                &&& forall|i: int| 0 <= i < c.len() ==> (#[trigger] final(self).roots@[i]).pos == c[i]
            },
    {
        if level == 0 {
            self.roots = vec![root];
            return;
        }
        let m = if covered > end {
            covered
        } else {
            end
        };
        let ghost t = self.topology;
        if self.is_consolidated() {
            if m == 0 {
                return;
            }
            let r0 = self.roots[0];
            self.roots = r0.coverage(&self.topology, level, 0, m);
            proof {
                lemma_coverage_keys(&t, r0, self.roots@, level as int, 0, m as int);
                assert(positions(self.roots@) =~= t.cover_seq(level as int, 0, m as int));
            }
        }
        let ghost e: int = if old(self).consolidated() {
            m as int
        } else {
            covered as int
        };
        let out = splice(&self.topology, &self.roots, level, start, end, root, Ghost(e));
        self.roots = out;
    }
}

/// The elements of `s` in increasing order.
fn sorted_elems(s: &BTreeSet<u64>) -> (r: Vec<u64>)
    ensures
        r@.to_set() == s@,
        strictly_increasing(r@),
{
    let ghost keys = vstd::std_specs::btree::spec_btree_keys_iter(s).remaining();
    let mut r: Vec<u64> = Vec::new();
    for x in it: s.iter()
        invariant
            it.seq() == keys,
            r@ == it.seq().subrange(0, it.index() as int).map_values(|p: &u64| *p),
    {
        r.push(*x);
    }
    proof {
        assert(r@ =~= keys.map_values(|p: &u64| *p));
        assert(keys.unref() =~= r@);
        assert(vstd::laws_cmp::obeys_cmp::<&u64>());
        vstd::std_specs::btree::axiom_increasing_seq_meaning(keys);
        assert(keys.len() == r@.len());
        assert forall|i: int, j: int| 0 <= i < j < r@.len() implies r@[i] < r@[j] by {
            let ki: &u64 = keys[i];
            let kj: &u64 = keys[j];
            assert(<&u64 as OrdSpec>::cmp_spec(&ki, &kj) is Less);
            assert(r@[i] == *keys[i] && r@[j] == *keys[j]);
        }
    }
    r
}

/// `y` is among the first `i` elements of `v`.
pub open spec fn in_prefix(v: Seq<u64>, i: int, y: u64) -> bool {
    exists|m: int| 0 <= m < i && #[trigger] v[m] == y
}

/// `y` lies in one of the half-open ranges of `r`.
pub open spec fn in_ranges(r: Seq<(u64, u64)>, y: u64) -> bool {
    exists|k: int| 0 <= k < r.len() && (#[trigger] r[k]).0 <= y < r[k].1
}

/// The ranges of `r` are non-empty, in increasing order, and no two of them
/// touch.
pub open spec fn separated_ranges(r: Seq<(u64, u64)>) -> bool {
    &&& forall|k: int| 0 <= k < r.len() ==> (#[trigger] r[k]).0 < r[k].1
    &&& forall|k: int| 0 <= k < r.len() - 1 ==> (#[trigger] r[k]).1 < r[k + 1].0
}

/// Taking in `v[i]` when it follows the end `p` of the current run
/// `[s, p]`: the run grows by one.
/// `runs` are the maximal runs of consecutive identifiers of `s`, as
/// half-open ranges in increasing order.
pub open spec fn runs_of(s: Set<u64>, runs: Seq<(u64, u64)>) -> bool {
    &&& separated_ranges(runs)
    &&& forall|y: u64| #[trigger] s.contains(y) <==> in_ranges(runs, y)
}

/// In the run `roots`, every leaf of the `k`-th range of `runs` has the key
/// that the whole-domain node `fresh[k]` gives it.
pub open spec fn runs_rekeyed(t: Topology, roots: Seq<Node>, runs: Seq<(u64, u64)>, fresh: Seq<Node>) -> bool {
    &&& fresh.len() == runs.len()
    &&& forall|k: int| 0 <= k < fresh.len() ==> (#[trigger] fresh[k]).pos == (0u64, 0u64)
    &&& forall|k: int, x: u64|
        #![trigger runs[k], list_key(&t, roots, x)]
        0 <= k < runs.len() && runs[k].0 <= x < runs[k].1 ==> list_key(&t, roots, x)
            == fresh[k].key_at(&t, t.leaf(x))
}

/// A forest whose roots give every leaf of `[a, b)` the key `node` gives
/// it has that range re-keyed from `node`.
proof fn lemma_single_run_rekeyed(f: Khf, a: u64, b: u64, node: Node)
    requires
        node.pos == (0u64, 0u64),
        b <= f.keys_view(),
        !f.consolidated(),
        forall|x: u64|
            a <= x < b ==> #[trigger] list_key(&f.topology_view(), f.roots_view(), x) == node.key_at(
                &f.topology_view(),
                f.topology_view().leaf(x),
            ),
    ensures
        f.keys_rekeyed(seq![(a, b)], seq![node]),
{
    let runs = seq![(a, b)];
    assert forall|k: int, x: u64|
        #![trigger runs[k], f.current_key(x)]
        0 <= k < runs.len() && runs[k].0 <= x < runs[k].1 implies f.current_key(x) == seq![node][k].key_at(
            &f.topology_view(),
            f.topology_view().leaf(x),
        ) by {
        assert(runs[k] == (a, b));
        assert(list_key(&f.topology_view(), f.roots_view(), x) == node.key_at(&f.topology_view(), f.topology_view().leaf(x)));
    }
}

/// Ranges that do not touch, in increasing order, lie wholly apart.
proof fn lemma_separated_order(r: Seq<(u64, u64)>, j: int, k: int)
    requires
        separated_ranges(r),
        0 <= j < k < r.len(),
    ensures
        r[j].1 < r[k].0,
    decreases k - j,
{
    if j + 1 < k {
        lemma_separated_order(r, j + 1, k);
        assert(r[j + 1].0 < r[j + 1].1);
    }
}

proof fn lemma_runs_extend(v: Seq<u64>, i: int, r: Seq<(u64, u64)>, s: u64, p: u64)
    requires
        1 <= i < v.len(),
        p == v[i - 1],
        v[i] == p + 1,
        s <= p,
        forall|y: u64| #[trigger] in_prefix(v, i, y) <==> (in_ranges(r, y) || (s <= y <= p)),
    ensures
        forall|y: u64| #[trigger] in_prefix(v, i + 1, y) <==> (in_ranges(r, y) || (s <= y <= v[i])),
{
    lemma_prefix_push(v, i);
    assert forall|y: u64| #[trigger] in_prefix(v, i + 1, y) <==> (in_ranges(r, y) || (s <= y <= v[i])) by {
        assert(in_prefix(v, i + 1, y) <==> in_prefix(v, i, y) || v[i] == y);
        assert(in_prefix(v, i, y) <==> (in_ranges(r, y) || (s <= y <= p)));
    }
}

/// Taking in `v[i]` when it does not follow the end `p` of the current run
/// `[s, p]`: that run is closed into `r` and a new one starts at `v[i]`.
proof fn lemma_runs_close(v: Seq<u64>, i: int, r: Seq<(u64, u64)>, s: u64, p: u64)
    requires
        1 <= i < v.len(),
        strictly_increasing(v),
        p == v[i - 1],
        p < u64::MAX,
        v[i] != p + 1,
        s <= p,
        separated_ranges(r),
        r.len() > 0 ==> r.last().1 < s,
        forall|y: u64| #[trigger] in_prefix(v, i, y) <==> (in_ranges(r, y) || (s <= y <= p)),
    ensures
        separated_ranges(r.push((s, (p + 1) as u64))),
        r.push((s, (p + 1) as u64)).last().1 < v[i],
        forall|y: u64|
            #[trigger] in_prefix(v, i + 1, y) <==> (in_ranges(r.push((s, (p + 1) as u64)), y) || (v[i]
                <= y <= v[i])),
{
    assert(v[i] > p);
    lemma_prefix_push(v, i);
    lemma_ranges_push(r, s, (p + 1) as u64);
    lemma_separated_push(r, s, (p + 1) as u64);
    let nr = r.push((s, (p + 1) as u64));
    assert forall|y: u64| #[trigger] in_prefix(v, i + 1, y) <==> (in_ranges(nr, y) || (v[i] <= y <= v[i])) by {
        assert(in_prefix(v, i + 1, y) <==> in_prefix(v, i, y) || v[i] == y);
        assert(in_prefix(v, i, y) <==> (in_ranges(r, y) || (s <= y <= p)));
        assert(in_ranges(nr, y) <==> in_ranges(r, y) || (s <= y < (p + 1) as u64));
    }
}

proof fn lemma_prefix_push(v: Seq<u64>, i: int)
    requires
        0 <= i < v.len(),
    ensures
        forall|y: u64| #[trigger] in_prefix(v, i + 1, y) <==> in_prefix(v, i, y) || v[i] == y,
{
    assert forall|y: u64| #[trigger] in_prefix(v, i + 1, y) <==> in_prefix(v, i, y) || v[i] == y by {
        if in_prefix(v, i + 1, y) {
            let m = choose|m: int| 0 <= m < i + 1 && #[trigger] v[m] == y;
            if m < i {
                assert(in_prefix(v, i, y));
            }
        }
        if in_prefix(v, i, y) {
            let m = choose|m: int| 0 <= m < i && #[trigger] v[m] == y;
            assert(0 <= m < i + 1 && v[m] == y);
        }
        if v[i] == y {
            assert(0 <= i < i + 1 && v[i] == y);
        }
    }
}

proof fn lemma_ranges_push(r: Seq<(u64, u64)>, a: u64, b: u64)
    ensures
        forall|y: u64| #[trigger] in_ranges(r.push((a, b)), y) <==> in_ranges(r, y) || (a <= y < b),
{
    let nr = r.push((a, b));
    assert forall|y: u64| in_ranges(nr, y) <==> in_ranges(r, y) || (a <= y < b) by {
        if in_ranges(nr, y) {
            let k = choose|k: int| 0 <= k < nr.len() && (#[trigger] nr[k]).0 <= y < nr[k].1;
            if k < r.len() {
                assert(r[k] == nr[k]);
            }
        }
        if in_ranges(r, y) {
            let k = choose|k: int| 0 <= k < r.len() && (#[trigger] r[k]).0 <= y < r[k].1;
            assert(nr[k] == r[k]);
        }
        if a <= y < b {
            assert(nr[r.len() as int] == (a, b));
        }
    }
}

proof fn lemma_separated_push(r: Seq<(u64, u64)>, a: u64, b: u64)
    requires
        separated_ranges(r),
        a < b,
        r.len() > 0 ==> r.last().1 < a,
    ensures
        separated_ranges(r.push((a, b))),
{
    let nr = r.push((a, b));
    assert forall|k: int| 0 <= k < nr.len() - 1 implies (#[trigger] nr[k]).1 < nr[k + 1].0 by {
        if k < r.len() - 1 {
            assert(nr[k] == r[k]);
            assert(nr[k + 1] == r[k + 1]);
        } else {
            assert(nr[k] == r.last());
        }
    }
    assert forall|k: int| 0 <= k < nr.len() implies (#[trigger] nr[k]).0 < nr[k].1 by {
        if k < r.len() {
            assert(nr[k] == r[k]);
        }
    }
}

proof fn lemma_increasing_is_identity(s: Seq<u64>, n: int)
    requires
        strictly_increasing(s),
        s.len() == n,
        forall|i: int| 0 <= i < s.len() ==> s[i] < n,
    ensures
        forall|x: u64| x < n ==> s.contains(x),
{
    assert forall|i: int| 0 <= i < n implies s[i] >= i by {
        lemma_increasing_lower(s, i);
    }
    assert forall|i: int| 0 <= i < n implies s[i] <= i by {
        lemma_increasing_upper(s, n, i);
    }
    assert forall|x: u64| x < n implies s.contains(x) by {
        assert(s[x as int] == x);
    }
}

proof fn lemma_increasing_lower(s: Seq<u64>, i: int)
    requires
        strictly_increasing(s),
        0 <= i < s.len(),
    ensures
        s[i] >= i,
    decreases i,
{
    if i > 0 {
        lemma_increasing_lower(s, i - 1);
    }
}

proof fn lemma_increasing_upper(s: Seq<u64>, n: int, i: int)
    requires
        strictly_increasing(s),
        s.len() == n,
        forall|k: int| 0 <= k < s.len() ==> s[k] < n,
        0 <= i < s.len(),
    ensures
        s[i] <= i,
    decreases n - i,
{
    if i < n - 1 {
        lemma_increasing_upper(s, n, i + 1);
    }
}

impl Khf {
    /// The maximal runs of consecutive updated identifiers, as half-open
    /// ranges in increasing order.
    #[verifier::rlimit(40)]
    pub fn updated_key_ranges(&self) -> (r: Vec<(u64, u64)>)
        requires
            self.wf(),
        ensures
            separated_ranges(r@),
            forall|y: u64| #[trigger] self.updated_view().contains(y) <==> in_ranges(r@, y),
    {
        let sorted = sorted_elems(&self.updated_keys);
        let ghost v = sorted@;
        let n = sorted.len();
        proof {
            assert forall|k: int| 0 <= k < v.len() implies v[k] < u64::MAX by {
                assert(v.to_set().contains(v[k]));
            }
        }
        let mut ranges: Vec<(u64, u64)> = Vec::new();
        if n == 0 {
            proof {
                assert forall|y: u64| #[trigger] self.updated_view().contains(y) <==> in_ranges(ranges@, y) by {
                    if self.updated_view().contains(y) {
                        assert(v.contains(y));
                    }
                }
            }
            return ranges;
        }
        let mut start = sorted[0];
        let mut prev = sorted[0];
        let mut i: usize = 1;
        proof {
            assert forall|y: u64| #[trigger] in_prefix(v, 1, y) <==> (in_ranges(ranges@, y) || (start <= y
                <= prev)) by {
                if y == start {
                    assert(v[0] == y);
                }
            }
        }
        while i < n
            invariant
                v == sorted@,
                n == v.len(),
                strictly_increasing(v),
                forall|k: int| 0 <= k < v.len() ==> v[k] < u64::MAX,
                1 <= i <= n,
                start <= prev,
                prev == v[i - 1],
                separated_ranges(ranges@),
                ranges@.len() > 0 ==> ranges@.last().1 < start,
                forall|y: u64| #[trigger] in_prefix(v, i as int, y) <==> (in_ranges(ranges@, y) || (start <= y
                    <= prev)),
            decreases n - i,
        {
            let leaf = sorted[i];
            if leaf == prev + 1 {
                proof {
                    lemma_runs_extend(v, i as int, ranges@, start, prev);
                }
                prev = leaf;
            } else {
                proof {
                    lemma_runs_close(v, i as int, ranges@, start, prev);
                }
                ranges.push((start, prev + 1));
                start = leaf;
                prev = leaf;
            }
            i = i + 1;
        }
        let ghost old_ranges = ranges@;
        ranges.push((start, prev + 1));
        proof {
            lemma_ranges_push(old_ranges, start, (prev + 1) as u64);
            lemma_separated_push(old_ranges, start, (prev + 1) as u64);
            assert forall|y: u64| #[trigger] self.updated_view().contains(y) <==> in_ranges(ranges@, y) by {
                assert(in_ranges(ranges@, y) <==> in_ranges(old_ranges, y) || (start <= y < prev + 1));
                assert(in_prefix(v, n as int, y) <==> (in_ranges(old_ranges, y) || (start <= y <= prev)));
                assert(self.updated_view().contains(y) <==> v.contains(y));
                if v.contains(y) {
                    let m = choose|m: int| 0 <= m < v.len() && v[m] == y;
                    assert(in_prefix(v, n as int, y));
                }
                if in_prefix(v, n as int, y) {
                    let m = choose|m: int| 0 <= m < n && #[trigger] v[m] == y;
                    assert(v.contains(y));
                }
            }
        }
        ranges
    }
}

/// A run over `[0, hi)` with `hi >= 1` is not a single whole-domain root.
proof fn lemma_run_not_consolidated(t: &Topology, s: Seq<Node>, hi: int)
    requires
        run_tiles(t, s, 0, hi),
        hi >= 1,
    ensures
        s.len() >= 1,
        s[0].pos.0 >= 1,
        forall|x: u64| #[trigger] lookup(t, s, x) == list_key(t, s, x),
{
    assert(t.is_block(s[0].pos));
}

impl Khf {
    /// Forgets the updates of identifiers in `[lo, hi)`; returns the
    /// remaining ones in increasing order.
    #[verifier::rlimit(40)]
    fn remove_updates(&mut self, lo: u64, hi: u64) -> (r: Vec<u64>)
        requires
            old(self).wf(),
        ensures
            final(self).wf(),
            final(self).same_committed(old(self)),
            final(self).in_flight_keys == old(self).in_flight_keys,
            final(self).updated_view() == r@.to_set(),
            strictly_increasing(r@),
            r@.to_set() == old(self).updated_view().filter(|k: u64| !(lo <= k < hi)),
            forall|i: int| 0 <= i < r@.len() ==> !(lo <= #[trigger] r@[i] < hi),
    {
        let sorted = sorted_elems(&self.updated_keys);
        let ghost v = sorted@;
        let n = sorted.len();
        proof {
            assert forall|k: int| 0 <= k < v.len() implies v[k] < u64::MAX by {
                assert(v.to_set().contains(v[k]));
            }
        }
        let mut kept: Vec<u64> = Vec::new();
        let mut copy: BTreeSet<u64> = BTreeSet::new();
        let mut i: usize = 0;
        while i < n
            invariant
                v == sorted@,
                n == v.len(),
                strictly_increasing(v),
                forall|k: int| 0 <= k < v.len() ==> v[k] < u64::MAX,
                i <= n,
                copy@ == kept@.to_set(),
                strictly_increasing(kept@),
                forall|k: int| 0 <= k < kept@.len() ==> !(lo <= #[trigger] kept@[k] < hi),
                forall|k: int| 0 <= k < kept@.len() ==> exists|m: int| 0 <= m < i && v[m] == #[trigger] kept@[k],
                forall|m: int| 0 <= m < i && !(lo <= v[m] < hi) ==> kept@.contains(#[trigger] v[m]),
                kept@.len() > 0 ==> exists|m: int| 0 <= m < i && v[m] == kept@.last(),
            decreases n - i,
        {
            let u = sorted[i];
            if u < lo || u >= hi {
                proof {
                    if kept@.len() > 0 {
                        let m = choose|m: int| 0 <= m < i && v[m] == kept@.last();
                        assert(kept@.last() < u);
                    }
                }
                let ghost before = kept@;
                kept.push(u);
                copy.insert(u);
                proof {
                    assert(copy@ =~= kept@.to_set()) by {
                        assert forall|y: u64| copy@.contains(y) <==> kept@.contains(y) by {
                            if y == u {
                                assert(kept@[before.len() as int] == u);
                            } else if kept@.contains(y) {
                                let k = choose|k: int| 0 <= k < kept@.len() && kept@[k] == y;
                                assert(before[k] == y);
                            } else if before.contains(y) {
                                let k = choose|k: int| 0 <= k < before.len() && before[k] == y;
                                assert(kept@[k] == y);
                            }
                        }
                    }
                }
                proof {
                    assert forall|k: int| 0 <= k < kept@.len() implies exists|m: int| 0 <= m < i + 1 && v[m] == #[trigger] kept@[k] by {
                        if k < before.len() {
                            assert(kept@[k] == before[k]);
                        } else {
                            assert(v[i as int] == kept@[k]);
                        }
                    }
                    assert forall|m: int| 0 <= m < i + 1 && !(lo <= v[m] < hi) implies kept@.contains(#[trigger] v[m]) by {
                        if m < i {
                            assert(before.contains(v[m]));
                            let k = choose|k: int| 0 <= k < before.len() && before[k] == v[m];
                            assert(kept@[k] == v[m]);
                        } else {
                            assert(kept@[before.len() as int] == v[m]);
                        }
                    }
                    assert(v[i as int] == kept@.last());
                }
            } else {
                proof {
                    assert forall|k: int| 0 <= k < kept@.len() implies exists|m: int| 0 <= m < i + 1 && v[m] == #[trigger] kept@[k] by {
                        let m = choose|m: int| 0 <= m < i && v[m] == kept@[k];
                        assert(0 <= m < i + 1 && v[m] == kept@[k]);
                    }
                    if kept@.len() > 0 {
                        let m = choose|m: int| 0 <= m < i && v[m] == kept@.last();
                        assert(0 <= m < i + 1 && v[m] == kept@.last());
                    }
                }
            }
            i = i + 1;
        }
        proof {
            assert(kept@.to_set() =~= v.to_set().filter(|k: u64| !(lo <= k < hi))) by {
                assert forall|y: u64| kept@.contains(y) <==> v.contains(y) && !(lo <= y < hi) by {
                    if kept@.contains(y) {
                        let k = choose|k: int| 0 <= k < kept@.len() && kept@[k] == y;
                        let m = choose|m: int| 0 <= m < n && v[m] == #[trigger] kept@[k];
                        assert(v[m] == y);
                    }
                    if v.contains(y) && !(lo <= y < hi) {
                        let m = choose|m: int| 0 <= m < v.len() && v[m] == y;
                        assert(kept@.contains(v[m]));
                    }
                }
            }
            assert forall|k: int| 0 <= k < kept@.len() implies kept@[k] < u64::MAX by {
                let m = choose|m: int| 0 <= m < n && v[m] == #[trigger] kept@[k];
            }
        }
        self.updated_keys = copy;
        kept
    }

    /// Appends the in-flight keys from the appending root, then gives each
    /// run of updated identifiers a fresh random root.
    #[verifier::rlimit(40)]
    fn commit_grow(&mut self, rng: &mut rand::rngs::StdRng)
        requires
            old(self).wf(),
            old(self).in_flight_keys >= old(self).keys,
            old(self).in_flight_keys >= 1,
            forall|k: u64| #[trigger] old(self).updated_view().contains(k) ==> k < old(self).in_flight_keys,
        ensures
            final(self).topology == old(self).topology,
            final(self).appending_root == old(self).appending_root,
            final(self).keys == old(self).keys,
            final(self).in_flight_keys == old(self).in_flight_keys,
            final(self).updated_keys == old(self).updated_keys,
            run_tiles(&final(self).topology, final(self).roots@, 0, final(self).in_flight_keys as int),
            forall|x: u64|
                x < old(self).in_flight_keys && !old(self).updated_view().contains(x) ==> #[trigger] list_key(
                    &final(self).topology,
                    final(self).roots@,
                    x,
                ) == old(self).current_key(x),
            exists|runs: Seq<(u64, u64)>, fresh: Seq<Node>|
                runs_of(old(self).updated_view(), runs) && #[trigger] runs_rekeyed(
                    final(self).topology,
                    final(self).roots@,
                    runs,
                    fresh,
                ) && positions(final(self).roots@) == spliced_runs(
                    &old(self).topology,
                    spliced(&old(self).topology, old(self).grow_base(), 1, old(self).keys, old(self).in_flight_keys),
                    1,
                    runs,
                ),
    {
        let target = self.in_flight_keys;
        let ghost t = self.topology;
        let appending = self.appending_root;
        let keys = self.keys;
        let ranges = self.updated_key_ranges();
        self.replace_keys(DEFAULT_ROOT_LEVEL, keys, target, appending, keys);
        proof {
            lemma_run_not_consolidated(&t, self.roots@, target as int);
            assert forall|k: int| 0 <= k < ranges@.len() implies (#[trigger] ranges@[k]).1 <= target by {
                let y = (ranges@[k].1 - 1) as u64;
                assert(in_ranges(ranges@, y));
                assert(old(self).updated_view().contains(y));
            }
        }
        let nr = ranges.len();
        let mut k: usize = 0;
        let ghost mut fresh: Seq<Node> = Seq::empty();
        let ghost p0 = positions(self.roots@);
        proof {
            assert(p0 == spliced(&t, old(self).grow_base(), 1, keys, target));
            assert(ranges@.subrange(0, 0) =~= Seq::<(u64, u64)>::empty());
        }
        while k < nr
            invariant
                t.wf(),
                self.topology == t,
                self.appending_root == old(self).appending_root,
                self.keys == old(self).keys,
                self.in_flight_keys == target,
                self.updated_keys == old(self).updated_keys,
                nr == ranges@.len(),
                k <= nr,
                separated_ranges(ranges@),
                forall|j: int| 0 <= j < ranges@.len() ==> (#[trigger] ranges@[j]).1 <= target,
                forall|y: u64| #[trigger] old(self).updated_view().contains(y) <==> in_ranges(ranges@, y),
                target >= 1,
                run_tiles(&t, self.roots@, 0, target as int),
                forall|x: u64|
                    x < target && !old(self).updated_view().contains(x) ==> #[trigger] list_key(&t, self.roots@, x)
                        == old(self).current_key(x),
                runs_rekeyed(t, self.roots@, ranges@.subrange(0, k as int), fresh),
                positions(self.roots@) == spliced_runs(&t, p0, 1, ranges@.subrange(0, k as int)),
            decreases nr - k,
        {
            let (a, b) = ranges[k];
            let node = Node::with_rng(rng);
            let ghost done = ranges@.subrange(0, k as int);
            let ghost before = self.roots@;
            proof {
                assert(ranges@[k as int] == (a, b));
                assert(a < b);
                lemma_run_not_consolidated(&t, before, target as int);
            }
            self.replace_keys(DEFAULT_ROOT_LEVEL, a, b, node, target);
            proof {
                assert forall|x: u64|
                    x < target && !old(self).updated_view().contains(x) implies #[trigger] list_key(&t, self.roots@, x)
                        == old(self).current_key(x) by {
                    if a <= x < b {
                        assert(in_ranges(ranges@, x));
                    }
                    assert(lookup(&t, before, x) == list_key(&t, before, x));
                }
                let nf = fresh.push(node);
                let nd = ranges@.subrange(0, k + 1);
                assert forall|j: int, x: u64|
                    #![trigger nd[j], list_key(&t, self.roots@, x)]
                    0 <= j < nd.len() && nd[j].0 <= x < nd[j].1 implies list_key(&t, self.roots@, x)
                        == nf[j].key_at(&t, t.leaf(x)) by {
                    assert(nd[j] == ranges@[j]);
                    if j < k {
                        lemma_separated_order(ranges@, j, k as int);
                        assert(done[j] == ranges@[j]);
                        assert(nf[j] == fresh[j]);
                        assert(list_key(&t, before, x) == fresh[j].key_at(&t, t.leaf(x)));
                        assert(lookup(&t, before, x) == list_key(&t, before, x));
                    }
                }
                assert forall|j: int| 0 <= j < nf.len() implies (#[trigger] nf[j]).pos == (0u64, 0u64) by {
                    if j < k {
                        assert(nf[j] == fresh[j]);
                    }
                }
                fresh = nf;
                assert(nd.drop_last() =~= done);
                assert(nd.last() == (a, b));
            }
            k = k + 1;
        }
        proof {
            assert(ranges@.subrange(0, nr as int) =~= ranges@);
            assert(runs_of(old(self).updated_view(), ranges@));
            assert(runs_rekeyed(self.topology, self.roots@, ranges@, fresh));
            assert(positions(self.roots@) == spliced_runs(&t, p0, 1, ranges@));
        }
    }

    /// Cuts the roots down to `[0, in_flight_keys)`, keeping every key there.
    fn commit_shrink(&mut self)
        requires
            old(self).wf(),
            old(self).in_flight_keys < old(self).keys,
            old(self).in_flight_keys >= 1,
        ensures
            final(self).topology == old(self).topology,
            final(self).appending_root == old(self).appending_root,
            final(self).keys == old(self).keys,
            final(self).in_flight_keys == old(self).in_flight_keys,
            final(self).updated_keys == old(self).updated_keys,
            run_tiles(&final(self).topology, final(self).roots@, 0, final(self).in_flight_keys as int),
            forall|x: u64|
                x < old(self).in_flight_keys ==> #[trigger] list_key(&final(self).topology, final(self).roots@, x)
                    == old(self).current_key(x),
            positions(final(self).roots@) == old(self).shrink_positions(),
    {
        let target = self.in_flight_keys;
        let ghost t = self.topology;
        let ghost r = self.roots@;
        if self.is_consolidated() {
            let r0 = self.roots[0];
            self.roots = r0.coverage(&self.topology, DEFAULT_ROOT_LEVEL, 0, target);
            proof {
                lemma_coverage_keys(&t, r0, self.roots@, 1, 0, target as int);
                assert(positions(self.roots@) =~= t.cover_seq(1, 0, target as int));
            }
            return;
        }
        let e = self.keys;
        proof {
            lemma_tiles_order(&t, r, 0, e as int);
        }
        let idx = last_affected(&self.topology, &self.roots, target, Ghost(e as int));
        proof {
            assert(t.is_block(r[idx as int].pos));
        }
        let root = self.roots[idx];
        let start = self.topology.start(root.pos);
        let mut tail = fragment(&self.topology, root, DEFAULT_ROOT_LEVEL, start, target);
        proof {
            lemma_piece(&t, r, e as int, idx as int, tail@, start, target);
            lemma_split_run(&t, r, e as int, idx as int);
            lemma_keys_concat(&t, r.subrange(0, idx as int), tail@, 0, start as int, target as int);
            lemma_tiles_concat(&t, r.subrange(0, idx as int), tail@, 0, start as int, target as int);
            lemma_run_not_consolidated(&t, r, e as int);
        }
        let ghost tail_nodes = tail@;
        self.roots.truncate(idx);
        self.roots.append(&mut tail);
        proof {
            lemma_find_pos(&t, r, target - 1);
            assert(positions(self.roots@) =~= positions(r).subrange(0, idx as int) + positions(tail_nodes));
            assert(positions(tail_nodes) =~= t.cover_seq(1, start as int, target as int));
        }
    }

    /// Makes the pending changes take effect: appended keys are materialized
    /// from the appending root, each run of updated identifiers gets keys from
    /// a fresh random root, and a truncation drops the keys past it (a
    /// truncating commit revokes nothing, unless every remaining identifier
    /// was updated). Returns the updated identifiers below the new size, in
    /// increasing order.
    #[verifier::rlimit(40)]
    pub fn commit(&mut self, rng: &mut rand::rngs::StdRng) -> (r: Vec<u64>)
        requires
            old(self).wf(),
        ensures
            final(self).wf(),
            old(self).commit_post(final(self), r@),
    {
        let target = self.in_flight_keys;
        let res = self.remove_updates(target, u64::MAX);
        let ghost t = self.topology;
        proof {
            assert forall|i: int| 0 <= i < res@.len() implies res@[i] < target by {
                assert(!(target <= #[trigger] res@[i] < u64::MAX));
                assert(res@.to_set().contains(res@[i]));
            }
            assert(old(self).updated_view().filter(|k: u64| !(target <= k < u64::MAX))
                =~= old(self).updated_view().filter(|k: u64| k < target));
            if res@.len() > 0 {
                assert(res@[0] < target);
            }
        }
        if res.len() as u64 == target {
            proof {
                lemma_increasing_is_identity(res@, target as int);
            }
            let node = Node::with_rng(rng);
            self.roots = vec![node];
        } else if target >= self.keys {
            let ghost pending = self.updated_view();
            self.commit_grow(rng);
            proof {
                lemma_run_not_consolidated(&t, self.roots@, target as int);
                assert(pending == res@.to_set());
            }
        } else {
            self.commit_shrink();
            proof {
                lemma_run_not_consolidated(&t, self.roots@, target as int);
            }
        }
        self.appending_root = Node::with_rng(rng);
        self.keys = target;
        self.updated_keys.clear();
        proof {
            assert(self.updated_keys@ =~= Set::<u64>::empty());
            assert forall|x: u64|
                x < target && !old(self).updated_view().contains(x) implies #[trigger] self.current_key(x)
                    == old(self).current_key(x) by {
                if res@.len() == target {
                    assert(res@.contains(x));
                    assert(res@.to_set().contains(x));
                }
            }
            if target >= old(self).keys && res@.len() != target {
                let (runs, fresh) = choose|runs: Seq<(u64, u64)>, fresh: Seq<Node>|
                    runs_of(res@.to_set(), runs) && #[trigger] runs_rekeyed(t, self.roots@, runs, fresh)
                        && positions(self.roots@) == spliced_runs(
                        &t,
                        spliced(&t, old(self).grow_base(), 1, old(self).keys, target),
                        1,
                        runs,
                    );
                assert forall|k: int, x: u64|
                    #![trigger runs[k], self.current_key(x)]
                    0 <= k < runs.len() && runs[k].0 <= x < runs[k].1 implies self.current_key(x)
                        == fresh[k].key_at(&t, t.leaf(x)) by {
                    assert(in_ranges(runs, x));
                    assert(res@.to_set().contains(x));
                    assert(res@.contains(x));
                    assert(list_key(&t, self.roots@, x) == fresh[k].key_at(&t, t.leaf(x)));
                }
                assert(self.keys_rekeyed(runs, fresh));
            }
        }
        res
    }
}

/// The identifiers `a, a + 1, ..., b - 1`.
pub open spec fn range_seq(a: u64, b: u64) -> Seq<u64> {
    if a < b {
        Seq::new((b - a) as nat, |i: int| (a + i) as u64)
    } else {
        Seq::empty()
    }
}

fn range_vec(a: u64, b: u64) -> (r: Vec<u64>)
    ensures
        r@ == range_seq(a, b),
{
    let mut r: Vec<u64> = Vec::new();
    let mut x: u64 = a;
    while x < b
        invariant
            a <= x <= b || (a >= b && x == a),
            a < b ==> r@ == range_seq(a, x),
            a >= b ==> r@.len() == 0,
        decreases b - x,
    {
        r.push(x);
        x = x + 1;
        proof {
            assert(r@ =~= range_seq(a, x));
        }
    }
    proof {
        if a < b {
            assert(x == b);
        } else {
            assert(r@ =~= range_seq(a, b));
        }
    }
    r
}

impl Khf {
    /// The level a mechanism consolidates to.
    pub open spec fn mechanism_level(mechanism: Consolidation) -> u64 {
        match mechanism {
            Consolidation::Full => 0,
            Consolidation::Leveled { level } => level,
            Consolidation::Ranged { start, end } => DEFAULT_ROOT_LEVEL,
            Consolidation::RangedLeveled { level, start, end } => level,
        }
    }

    /// What consolidating the whole forest to roots of level `level` does:
    /// every committed identifier is affected and no update stays pending;
    /// level 0 leaves a single root, a higher level the minimal covering of
    /// the committed identifiers by subtrees of at least that level, whose
    /// keys all come from one new whole-domain node.
    pub open spec fn whole_post(&self, level: u64, next: &Khf, r: Seq<u64>) -> bool {
        &&& r == range_seq(0, self.keys_view())
        &&& next.keys_view() == self.keys_view()
        &&& next.in_flight_view() == self.in_flight_view()
        &&& next.appending_view() == self.appending_view()
        &&& next.updated_view() == Set::<u64>::empty()
        &&& level == 0 ==> next.consolidated()
        &&& level >= 1 && self.keys_view() > 0 ==> {
            let c = self.topology_view().cover_seq(level as int, 0, self.keys_view() as int);
            &&& next.roots_view().len() == c.len()
            &&& forall|i: int| 0 <= i < c.len() ==> (#[trigger] next.roots_view()[i]).pos == c[i]
            &&& exists|fresh: Seq<Node>| #[trigger] next.keys_rekeyed(seq![(0u64, self.keys_view())], fresh)
        }
    }

    /// What consolidating `[start, end)` to roots of level `level` does: the
    /// committed size grows to cover the range, its identifiers are no longer
    /// pending updates and get keys from one new whole-domain node, and every other key
    /// stays as it was (at level 0 the forest becomes a single fresh root).
    pub open spec fn ranged_post(&self, level: u64, start: u64, end: u64, next: &Khf, r: Seq<u64>) -> bool {
        &&& r == range_seq(start, end)
        &&& next.appending_view() == self.appending_view()
        &&& start >= end ==> {
            &&& next.same_committed(self)
            &&& next.updated_view() == self.updated_view()
            &&& next.in_flight_view() == self.in_flight_view()
        }
        &&& start < end ==> {
            &&& next.keys_view() == if end > self.keys_view() {
                end
            } else {
                self.keys_view()
            }
            &&& next.in_flight_view() == if end > self.keys_view() && end > self.in_flight_view() {
                end
            } else {
                self.in_flight_view()
            }
            &&& next.updated_view() == self.updated_view().filter(|k: u64| !(start <= k < end))
            &&& level == 0 ==> next.consolidated()
            &&& level >= 1 ==> forall|x: u64|
                !(start <= x < end) ==> #[trigger] next.current_key(x) == self.current_key(x)
            &&& level >= 1 ==> exists|fresh: Seq<Node>| #[trigger] next.keys_rekeyed(seq![(start, end)], fresh)
        }
    }

    /// Consolidates the forest as `mechanism` says and returns the affected
    /// identifiers.
    pub fn consolidate(&mut self, mechanism: Consolidation, rng: &mut rand::rngs::StdRng) -> (r: Vec<u64>)
        requires
            old(self).wf(),
            Self::mechanism_level(mechanism) < old(self).topology_view().height_spec(),
        ensures
            final(self).wf(),
            final(self).topology_view() == old(self).topology_view(),
            match mechanism {
                Consolidation::Full => old(self).whole_post(0, final(self), r@),
                Consolidation::Leveled { level } => old(self).whole_post(level, final(self), r@),
                Consolidation::Ranged { start, end } => old(self).ranged_post(DEFAULT_ROOT_LEVEL, start, end, final(self), r@),
                Consolidation::RangedLeveled { level, start, end } => old(self).ranged_post(level, start, end, final(self), r@),
            },
    {
        match mechanism {
            Consolidation::Full => self.consolidate_full(rng),
            Consolidation::Leveled { level } => self.consolidate_leveled(level, rng),
            Consolidation::Ranged { start, end } => self.consolidate_ranged(start, end, rng),
            Consolidation::RangedLeveled { level, start, end } => {
                self.consolidate_ranged_leveled(level, start, end, rng)
            },
        }
    }

    fn consolidate_full(&mut self, rng: &mut rand::rngs::StdRng) -> (r: Vec<u64>)
        requires
            old(self).wf(),
        ensures
            final(self).wf(),
            final(self).topology_view() == old(self).topology_view(),
            old(self).whole_post(0, final(self), r@),
    {
        self.consolidate_leveled(0, rng)
    }

    fn consolidate_leveled(&mut self, level: u64, rng: &mut rand::rngs::StdRng) -> (r: Vec<u64>)
        requires
            old(self).wf(),
            level < old(self).topology_view().height_spec(),
        ensures
            final(self).wf(),
            final(self).topology_view() == old(self).topology_view(),
            old(self).whole_post(level, final(self), r@),
    {
        let keys = self.keys;
        let affected = range_vec(0, keys);
        let node = Node::with_rng(rng);
        self.replace_keys(level, 0, keys, node, keys);
        self.updated_keys.clear();
        proof {
            assert(self.updated_keys@ =~= Set::<u64>::empty());
            if level >= 1 && keys > 0 {
                lemma_run_not_consolidated(&self.topology, self.roots@, keys as int);
                lemma_single_run_rekeyed(*self, 0, keys, node);
            }
        }
        affected
    }

    fn consolidate_ranged(&mut self, start: u64, end: u64, rng: &mut rand::rngs::StdRng) -> (r: Vec<u64>)
        requires
            old(self).wf(),
        ensures
            final(self).wf(),
            final(self).topology_view() == old(self).topology_view(),
            old(self).ranged_post(DEFAULT_ROOT_LEVEL, start, end, final(self), r@),
    {
        self.consolidate_ranged_leveled(DEFAULT_ROOT_LEVEL, start, end, rng)
    }

    #[verifier::rlimit(40)]
    fn consolidate_ranged_leveled(
        &mut self,
        level: u64,
        start: u64,
        end: u64,
        rng: &mut rand::rngs::StdRng,
    ) -> (r: Vec<u64>)
        requires
            old(self).wf(),
            level < old(self).topology_view().height_spec(),
        ensures
            final(self).wf(),
            final(self).topology_view() == old(self).topology_view(),
            old(self).ranged_post(level, start, end, final(self), r@),
    {
        let affected = range_vec(start, end);
        if start >= end {
            return affected;
        }
        let ghost t = self.topology;
        let ghost s0 = *self;
        if end > self.keys {
            if level >= 1 {
                let appending = self.appending_root;
                let keys = self.keys;
                self.replace_keys(DEFAULT_ROOT_LEVEL, keys, end, appending, keys);
            }
            self.keys = end;
            if self.in_flight_keys < end {
                self.in_flight_keys = end;
            }
        }
        let ghost s1 = *self;
        proof {
            if level >= 1 && end > s0.keys {
                lemma_run_not_consolidated(&t, s1.roots@, end as int);
                assert forall|x: u64| x < end implies #[trigger] lookup(&t, s1.roots@, x) == s0.current_key(x) by {
                }
            }
        }
        let node = Node::with_rng(rng);
        let covered = self.keys;
        self.replace_keys(level, start, end, node, covered);
        let _kept = self.remove_updates(start, end);
        proof {
            if level >= 1 {
                lemma_run_not_consolidated(&t, self.roots@, covered as int);
                lemma_single_run_rekeyed(*self, start, end, node);
                assert forall|x: u64| !(start <= x < end) implies #[trigger] self.current_key(x) == s0.current_key(x) by {
                    if x < covered {
                        assert(lookup(&t, self.roots@, x) == list_key(&t, self.roots@, x));
                        if end <= s0.keys {
                            assert(s1.roots@ == s0.roots@);
                        }
                    }
                }
            }
        }
        affected
    }
}

/// Parts from which a forest can be restored: a well-formed topology, a
/// whole-domain appending root, and either a single whole-domain root or
/// roots lying end to end over `[0, keys)`.
pub open spec fn parts_valid(t: Topology, appending_root: Node, roots: Seq<Node>, keys: u64) -> bool {
    &&& t.wf()
    &&& appending_root.pos == (0u64, 0u64)
    &&& roots.len() >= 1
    &&& (roots.len() == 1 && roots[0].pos == (0u64, 0u64)) || (keys >= 1 && run_tiles(
        &t,
        roots,
        0,
        keys as int,
    ))
}

/// Whether `roots` lie end to end over `[0, keys)`.
#[verifier::rlimit(40)]
fn check_run(t: &Topology, roots: &Vec<Node>, keys: u64) -> (r: bool)
    requires
        t.wf(),
    ensures
        r == run_tiles(t, roots@, 0, keys as int),
{
    let ghost s = roots@;
    let n = roots.len();
    let h = t.height();
    let mut cur: u64 = 0;
    let mut k: usize = 0;
    while k < n
        invariant
            t.wf(),
            s == roots@,
            n == s.len(),
            h == t.height_spec(),
            k <= n,
            forall|i: int| 0 <= i < k ==> #[trigger] t.is_block(s[i].pos),
            forall|i: int| 0 <= i < k - 1 ==> #[trigger] t.pend(s[i].pos) == t.pstart(s[i + 1].pos),
            k > 0 ==> t.pstart(s[0].pos) == 0,
            cur == if k == 0 {
                0
            } else {
                t.pend(s[k - 1].pos)
            },
        decreases n - k,
    {
        let p = roots[k].pos;
        if p.0 == 0 || p.0 >= h {
            proof {
                assert(!t.is_block(s[k as int].pos));
            }
            return false;
        }
        let d = t.descendants(p.0);
        proof {
            assert(t.desc(p.0 as int) >= 1);
        }
        if p.1 > (u64::MAX - d) / d {
            proof {
                assert(!t.is_block(s[k as int].pos)) by {
                    if t.pend(p) <= u64::MAX {
                        assert(p.1 * d <= u64::MAX - d);
                        vstd::arithmetic::div_mod::lemma_div_is_ordered(p.1 * d as int, (u64::MAX - d) as int, d as int);
                        vstd::arithmetic::div_mod::lemma_div_multiples_vanish(p.1 as int, d as int);
                        assert(p.1 * d as int == d as int * p.1);
                    }
                }
            }
            return false;
        }
        proof {
            vstd::arithmetic::div_mod::lemma_fundamental_div_mod((u64::MAX - d) as int, d as int);
            assert(p.1 * d <= u64::MAX - d) by (nonlinear_arith)
                requires
                    p.1 <= (u64::MAX - d) as int / d as int,
                    d >= 1,
                    (u64::MAX - d) as int == d * ((u64::MAX - d) as int / d as int) + (u64::MAX - d) as int % d as int,
                    (u64::MAX - d) as int % d as int >= 0,
            ;
        }
        let start = p.1 * d;
        if start != cur {
            proof {
                if k > 0 {
                    assert(!(t.pend(s[k - 1].pos) == t.pstart(s[k as int].pos)));
                }
            }
            return false;
        }
        cur = start + d;
        k = k + 1;
    }
    if n == 0 {
        return keys == 0;
    }
    proof {
        assert(t.is_block(s[n - 1].pos));
    }
    cur == keys
}

impl Khf {
    /// What `from_parts` returns: a forest with exactly those parts and no
    /// pending change when they are valid, else nothing.
    pub open spec fn from_parts_post(
        t: Topology,
        appending_root: Node,
        roots: Seq<Node>,
        keys: u64,
        r: Option<Khf>,
    ) -> bool {
        &&& r is Some <==> parts_valid(t, appending_root, roots, keys)
        &&& r is Some ==> {
            let f = r->0;
            &&& f.wf()
            &&& f.topology_view() == t
            &&& f.appending_view() == appending_root
            &&& f.roots_view() == roots
            &&& f.keys_view() == keys
            &&& f.in_flight_view() == keys
            &&& f.updated_view() == Set::<u64>::empty()
        }
    }

    /// Restores a forest from its committed parts, checking that they make a
    /// well-formed forest; no change is pending in the result.
    pub fn from_parts(topology: Topology, appending_root: Node, roots: Vec<Node>, keys: u64) -> (r: Option<Khf>)
        ensures
            Self::from_parts_post(topology, appending_root, roots@, keys, r),
    {
        if !topology.is_valid() || appending_root.pos.0 != 0 || appending_root.pos.1 != 0 || roots.len() == 0 {
            return None;
        }
        let whole = roots.len() == 1 && roots[0].pos.0 == 0 && roots[0].pos.1 == 0;
        if !whole && (keys == 0 || !check_run(&topology, &roots, keys)) {
            return None;
        }
        let f = Khf {
            topology,
            appending_root,
            in_flight_keys: keys,
            updated_keys: BTreeSet::new(),
            roots,
            keys,
        };
        proof {
        }
        Some(f)
    }

    /// The parts of a well-formed forest are valid.
    pub proof fn lemma_parts_valid(f: Khf)
        requires
            f.wf(),
        ensures
            parts_valid(f.topology_view(), f.appending_view(), f.roots_view(), f.keys_view()),
    {
    }
}

} // verus!
