//! Tree geometry: how many leaves sit under a node of each level, where the
//! leaf range of a position starts and ends, the path from a node down to a
//! position, and the minimal covering of a leaf range by subtrees.
use vstd::prelude::*;
use vstd::arithmetic::div_mod::*;

verus! {

/// A position in the tree: `(level, index)`. `(0, 0)` stands for the root of
/// the whole domain.
pub type Pos = (u64, u64);

/// The product of a sequence of fanouts.
pub open spec fn fanout_product(s: Seq<u64>) -> int
    decreases s.len(),
{
    if s.len() == 0 {
        1
    } else {
        s[0] as int * fanout_product(s.drop_first())
    }
}

/// Fanouts from which a topology can be built: at least one level, each
/// fanout at least two, and a leaf count that fits in a `u64`.
pub open spec fn valid_fanouts(f: Seq<u64>) -> bool {
    &&& f.len() >= 1
    &&& forall|i: int| 0 <= i < f.len() ==> f[i] >= 2
    &&& fanout_product(f) <= u64::MAX
}

proof fn lemma_product_positive(s: Seq<u64>)
    requires
        forall|i: int| 0 <= i < s.len() ==> s[i] >= 2,
    ensures
        fanout_product(s) >= 1,
        fanout_product(s) >= 2 * s.len(),
        s.len() >= 1 ==> fanout_product(s) >= 2 * fanout_product(s.drop_first()),
    decreases s.len(),
{
    if s.len() > 0 {
        lemma_product_positive(s.drop_first());
        let p = fanout_product(s.drop_first());
        assert(s[0] as int * p >= 2 * p) by (nonlinear_arith)
            requires
                s[0] >= 2,
                p >= 1,
        ;
    }
}

/// The tree geometry: `descendants[l]` is the number of leaves under a node
/// of level `l`; level 0 is the whole-domain root (recorded as 0) and the last
/// level holds the leaves (recorded as 1).
#[derive(Clone)]
pub struct Topology {
    descendants: Vec<u64>,
}

impl View for Topology {
    type V = Seq<u64>;

    closed spec fn view(&self) -> Seq<u64> {
        self.descendants@
    }
}

/// Whether `x` is a multiple of `d`, for a positive `d`.
pub open spec fn aligned(x: int, d: int) -> bool {
    x % d == 0
}

impl Topology {
    /// Number of levels, the whole-domain root included.
    pub open spec fn height_spec(&self) -> int {
        self@.len() as int
    }

    /// Number of leaves under a node of level `l`.
    pub open spec fn desc(&self, l: int) -> int {
        self@[l] as int
    }

    /// The leaf level.
    pub open spec fn leaf_level(&self) -> int {
        self.height_spec() - 1
    }

    pub open spec fn wf(&self) -> bool {
        &&& self@.len() >= 3
        &&& self@.len() <= u64::MAX
        &&& self@.len() <= usize::MAX
        &&& self.desc(0) == 0
        &&& self.desc(self.leaf_level()) == 1
        &&& forall|l: int| 1 <= l < self.height_spec() ==> #[trigger] self.desc(l) >= 1
        &&& forall|l: int|
            1 <= l < self.leaf_level() ==> #[trigger] (self.desc(l) % self.desc(l + 1)) == 0
                && self.desc(l) >= 2 * self.desc(l + 1)
    }

    /// The topology built from `fanouts`.
    pub open spec fn built_from(&self, fanouts: Seq<u64>) -> bool {
        &&& self@.len() == fanouts.len() + 2
        &&& self.desc(0) == 0
        &&& forall|l: int|
            1 <= l <= fanouts.len() + 1 ==> #[trigger] self.desc(l) == fanout_product(
                fanouts.subrange(l - 1, fanouts.len() as int),
            )
    }

    /// First leaf under `p`.
    pub open spec fn pstart(&self, p: Pos) -> int {
        if p.0 == 0 {
            0
        } else {
            p.1 * self.desc(p.0 as int)
        }
    }

    /// One past the last leaf under `p` (0 for the whole-domain root).
    pub open spec fn pend(&self, p: Pos) -> int {
        if p.0 == 0 {
            0
        } else {
            self.pstart(p) + self.desc(p.0 as int)
        }
    }

    /// `p` names a level of this tree and its leaf range fits in a `u64`.
    pub open spec fn fits(&self, p: Pos) -> bool {
        &&& p.0 < self.height_spec()
        &&& self.pend(p) <= u64::MAX
    }

    /// `p` is a proper subtree (level at least 1) of this tree whose leaf
    /// range fits in a `u64`.
    pub open spec fn is_block(&self, p: Pos) -> bool {
        &&& 1 <= p.0 < self.height_spec()
        &&& self.pend(p) <= u64::MAX
    }

    pub open spec fn is_ancestor_spec(&self, n: Pos, m: Pos) -> bool {
        m != (0u64, 0u64) && (n == (0u64, 0u64) || (self.pstart(n) <= self.pstart(m)
            && self.pend(m) <= self.pend(n)))
    }

    /// The position of leaf `x`.
    pub open spec fn leaf(&self, x: u64) -> Pos {
        (self.leaf_level() as u64, x)
    }

    /// The positions visited going down from a node of level `from` to `to`,
    /// `to` included and the starting node excluded.
    pub open spec fn path_seq(&self, from: int, to: Pos) -> Seq<Pos> {
        if from < to.0 {
            Seq::new(
                (to.0 - from) as nat,
                |i: int|
                    (
                        (from + 1 + i) as u64,
                        (self.pstart(to) / self.desc(from + 1 + i)) as u64,
                    ),
            )
        } else {
            Seq::empty()
        }
    }

    /// The first level from `l` down whose node at `s` starts exactly at `s`
    /// and ends by `e`; the leaf level if none above it does.
    pub open spec fn first_fit(&self, l: int, s: int, e: int) -> int
        decreases self.leaf_level() - l,
    {
        if l >= self.leaf_level() {
            self.leaf_level()
        } else if aligned(s, self.desc(l)) && s + self.desc(l) <= e {
            l
        } else {
            self.first_fit(l + 1, s, e)
        }
    }

    /// The minimal covering of `[s, e)` by subtrees of level at least `level`:
    /// from left to right, each time the largest subtree that starts at the
    /// current leaf and ends by `e`.
    pub open spec fn cover_seq(&self, level: int, s: int, e: int) -> Seq<Pos>
        decreases e - s,
    {
        let l = self.first_fit(level, s, e);
        if s < e && 1 <= level && 0 <= l < self.height_spec() && 0 < self.desc(l) <= e - s {
            seq![(l as u64, (s / self.desc(l)) as u64)] + self.cover_seq(
                level,
                s + self.desc(l),
                e,
            )
        } else {
            Seq::empty()
        }
    }

    /// `s` is a run of subtrees that lie end to end over `[lo, hi)`.
    pub open spec fn tiles(&self, s: Seq<Pos>, lo: int, hi: int) -> bool {
        &&& s.len() == 0 ==> lo == hi
        &&& s.len() > 0 ==> self.pstart(s[0]) == lo && self.pend(s.last()) == hi
        &&& forall|i: int| 0 <= i < s.len() ==> #[trigger] self.is_block(s[i])
        &&& forall|i: int|
            0 <= i < s.len() - 1 ==> #[trigger] self.pend(s[i]) == self.pstart(s[i + 1])
    }
}

proof fn lemma_mod_transitive(x: int, a: int, b: int)
    requires
        a > 0,
        b > 0,
        x % a == 0,
        a % b == 0,
    ensures
        x % b == 0,
{
    lemma_fundamental_div_mod(x, a);
    lemma_fundamental_div_mod(a, b);
    let q = x / a;
    let c = a / b;
    assert(x == (q * c) * b) by (nonlinear_arith)
        requires
            x == a * q,
            a == b * c,
    ;
    lemma_mod_multiples_basic(q * c, b);
}

proof fn lemma_suffix_product(s: Seq<u64>, i: int)
    requires
        forall|k: int| 0 <= k < s.len() ==> s[k] >= 2,
        0 <= i <= s.len(),
    ensures
        fanout_product(s.subrange(i, s.len() as int)) <= fanout_product(s),
        fanout_product(s.subrange(i, s.len() as int)) >= 1,
    decreases i,
{
    lemma_product_positive(s.subrange(i, s.len() as int));
    if i > 0 {
        lemma_suffix_product(s, i - 1);
        let t = s.subrange(i - 1, s.len() as int);
        assert(t.drop_first() =~= s.subrange(i, s.len() as int));
        lemma_product_positive(t);
    } else {
        assert(s.subrange(0, s.len() as int) =~= s);
    }
}

impl Topology {
    proof fn lemma_built_wf(&self, fanouts: Seq<u64>)
        requires
            valid_fanouts(fanouts),
            self.built_from(fanouts),
            self@.len() <= usize::MAX,
        ensures
            self.wf(),
    {
        let n = fanouts.len() as int;
        lemma_product_positive(fanouts);
        assert(fanouts.subrange(n, n) =~= Seq::<u64>::empty());
        assert(self.desc(n + 1) == 1);
        assert forall|l: int| 1 <= l < self.height_spec() implies #[trigger] self.desc(l) >= 1 by {
            lemma_suffix_product(fanouts, l - 1);
        }
        assert forall|l: int| 1 <= l < self.leaf_level() implies #[trigger] (self.desc(l) % self.desc(l + 1)) == 0
            && self.desc(l) >= 2 * self.desc(l + 1) by {
            let t = fanouts.subrange(l - 1, n);
            assert(t.drop_first() =~= fanouts.subrange(l, n));
            lemma_product_positive(t);
            lemma_suffix_product(fanouts, l);
            let p = fanout_product(fanouts.subrange(l, n));
            assert(self.desc(l) == (t[0] as int) * p);
            lemma_mod_multiples_basic(t[0] as int, p);
        }
        assert(self@.len() <= u64::MAX);
        assert(self.desc(0) == 0);
        assert(self.desc(self.leaf_level()) == 1);
    }

    /// Along the levels, the number of leaves under a node divides that of
    /// every node above it, and strictly shrinks going down.
    pub proof fn lemma_desc_divides(&self, l: int, m: int)
        requires
            self.wf(),
            1 <= l <= m < self.height_spec(),
        ensures
            self.desc(l) % self.desc(m) == 0,
            self.desc(l) >= self.desc(m),
            l < m ==> self.desc(l) >= 2 * self.desc(m),
        decreases m - l,
    {
        if l == m {
            lemma_mod_self_0(self.desc(l));
        } else {
            self.lemma_desc_divides(l + 1, m);
            assert(self.desc(l) % self.desc(l + 1) == 0);
            lemma_mod_transitive(self.desc(l), self.desc(l + 1), self.desc(m));
        }
    }

    /// A leaf aligned to the nodes of a level is aligned to those of every
    /// level below it.
    pub proof fn lemma_aligned_down(&self, x: int, l: int, m: int)
        requires
            self.wf(),
            1 <= l <= m < self.height_spec(),
            aligned(x, self.desc(l)),
        ensures
            aligned(x, self.desc(m)),
    {
        self.lemma_desc_divides(l, m);
        lemma_mod_transitive(x, self.desc(l), self.desc(m));
    }

    proof fn lemma_first_fit_at(&self, level: int, lv: int, s: int, e: int)
        requires
            self.wf(),
            1 <= level <= lv <= self.leaf_level(),
            forall|l: int|
                level <= l < lv ==> !(aligned(s, #[trigger] self.desc(l)) && s + self.desc(l) <= e),
            lv < self.leaf_level() ==> aligned(s, self.desc(lv)) && s + self.desc(lv) <= e,
        ensures
            self.first_fit(level, s, e) == lv,
        decreases lv - level,
    {
        if level < lv {
            self.lemma_first_fit_at(level + 1, lv, s, e);
        }
    }

    proof fn lemma_first_fit_props(&self, level: int, s: int, e: int)
        requires
            self.wf(),
            1 <= level <= self.leaf_level(),
        ensures
            level <= self.first_fit(level, s, e) <= self.leaf_level(),
            s < e ==> aligned(s, self.desc(self.first_fit(level, s, e))) && s + self.desc(
                self.first_fit(level, s, e),
            ) <= e,
        decreases self.leaf_level() - level,
    {
        if level < self.leaf_level() {
            if !(aligned(s, self.desc(level)) && s + self.desc(level) <= e) {
                self.lemma_first_fit_props(level + 1, s, e);
            }
        }
    }

    /// Two leaves within one node of level `m` lie within the same node of
    /// every level above it.
    pub proof fn lemma_same_ancestor(&self, x: int, y: int, l: int, m: int)
        requires
            self.wf(),
            1 <= l <= m < self.height_spec(),
            0 <= y <= x < y + self.desc(m),
            aligned(y, self.desc(m)),
        ensures
            x / self.desc(l) == y / self.desc(l),
    {
        let dm = self.desc(m);
        let dl = self.desc(l);
        self.lemma_desc_divides(l, m);
        lemma_fundamental_div_mod(y, dm);
        lemma_fundamental_div_mod(dl, dm);
        let q = y / dm;
        let c = dl / dm;
        assert(c > 0) by (nonlinear_arith)
            requires
                dl == dm * c + 0,
                dl >= 1,
                dm >= 1,
        ;
        lemma_fundamental_div_mod_converse_div(x, dm, q, x - y);
        lemma_fundamental_div_mod_converse_div(y, dm, q, 0);
        lemma_div_denominator(x, dm, c);
        lemma_div_denominator(y, dm, c);
        assert(dm * c == dl);
    }

    /// Going down from level `from` to `to` passes through every node in
    /// between that lies above `to`.
    pub proof fn lemma_path_split(&self, from: int, mid: Pos, to: Pos)
        requires
            self.wf(),
            0 <= from <= mid.0 <= to.0 < self.height_spec(),
            1 <= mid.0,
            self.pstart(mid) <= self.pstart(to) < self.pend(mid),
        ensures
            self.path_seq(from, to) == self.path_seq(from, mid) + self.path_seq(mid.0 as int, to),
    {
        let m = mid.0 as int;
        let ys = self.pstart(mid);
        let xs = self.pstart(to);
        lemma_mod_multiples_basic(mid.1 as int, self.desc(m));
        lemma_div_pos_is_pos(xs, 1);
        assert(xs >= 0) by (nonlinear_arith)
            requires
                xs == if to.0 == 0 { 0 } else { to.1 * self.desc(to.0 as int) },
                self.desc(to.0 as int) >= 0,
        ;
        let a = self.path_seq(from, to);
        let b = self.path_seq(from, mid) + self.path_seq(m, to);
        assert forall|i: int| 0 <= i < a.len() implies a[i] == b[i] by {
            let l = from + 1 + i;
            if l <= m {
                assert(ys >= 0) by (nonlinear_arith)
                    requires
                        ys == mid.1 * self.desc(m),
                        self.desc(m) >= 1,
                ;
                self.lemma_same_ancestor(xs, ys, l, m);
            }
        }
        assert(a =~= b);
    }

    /// The minimal covering of `[s, e)` lies end to end over exactly that
    /// range, with subtrees of level at least `level`.
    pub proof fn lemma_cover_tiles(&self, level: int, s: int, e: int)
        requires
            self.wf(),
            1 <= level <= self.leaf_level(),
            0 <= s <= e <= u64::MAX,
        ensures
            self.tiles(self.cover_seq(level, s, e), s, e),
            forall|i: int|
                0 <= i < self.cover_seq(level, s, e).len() ==> level <= #[trigger] self.cover_seq(
                    level,
                    s,
                    e,
                )[i].0,
        decreases e - s,
    {
        if s < e {
            self.lemma_first_fit_props(level, s, e);
            let l = self.first_fit(level, s, e);
            let d = self.desc(l);
            lemma_fundamental_div_mod(s, d);
            lemma_div_pos_is_pos(s, d);
            let p = (l as u64, (s / d) as u64);
            assert(self.pstart(p) == s) by (nonlinear_arith)
                requires
                    self.pstart(p) == (s / d) * d,
                    s == d * (s / d) + s % d,
                    s % d == 0,
            ;
            self.lemma_cover_tiles(level, s + d, e);
            let rest = self.cover_seq(level, s + d, e);
            let all = self.cover_seq(level, s, e);
            assert(all =~= seq![p] + rest);
            assert forall|i: int| 0 <= i < all.len() implies #[trigger] self.is_block(all[i]) && level <= all[i].0 by {
                if i > 0 {
                    assert(all[i] == rest[i - 1]);
                }
            }
            assert forall|i: int| 0 <= i < all.len() - 1 implies #[trigger] self.pend(all[i]) == self.pstart(all[i + 1]) by {
                assert(all[i + 1] == rest[i]);
                if i > 0 {
                    assert(all[i] == rest[i - 1]);
                }
            }
            if rest.len() > 0 {
                assert(all.last() == rest.last());
            }
        }
    }
}

impl Topology {
    /// Fanout of a node of level `l`: 0 for the whole-domain root, 1 for a
    /// leaf.
    pub open spec fn fanout_spec(&self, l: int) -> int {
        if l == 0 {
            0
        } else if l == self.leaf_level() {
            1
        } else {
            self.desc(l) / self.desc(l + 1)
        }
    }

    /// Builds the topology with the given fanouts, from the top level down.
    pub fn new(fanouts: &[u64]) -> (r: Self)
        requires
            valid_fanouts(fanouts@),
        ensures
            r.wf(),
            r.built_from(fanouts@),
    {
        let ghost f = fanouts@;
        let n = fanouts.len();
        let mut leaves: u64 = 1;
        let mut i: usize = n;
        proof {
            assert(f.subrange(n as int, n as int) =~= Seq::<u64>::empty());
        }
        while i > 0
            invariant
                f == fanouts@,
                n == f.len(),
                valid_fanouts(f),
                i <= n,
                leaves == fanout_product(f.subrange(i as int, n as int)),
            decreases i,
        {
            proof {
                let t = f.subrange(i - 1, n as int);
                assert(t.drop_first() =~= f.subrange(i as int, n as int));
                lemma_suffix_product(f, i - 1);
            }
            leaves = fanouts[i - 1] * leaves;
            i = i - 1;
        }
        let mut descendants: Vec<u64> = Vec::new();
        descendants.push(0);
        let mut j: usize = 0;
        while j < n
            invariant
                f == fanouts@,
                n == f.len(),
                valid_fanouts(f),
                j <= n,
                leaves == fanout_product(f.subrange(j as int, n as int)),
                descendants@.len() == j + 1,
                descendants@[0] == 0,
                forall|l: int|
                    1 <= l <= j ==> #[trigger] descendants@[l] == fanout_product(
                        f.subrange(l - 1, n as int),
                    ),
            decreases n - j,
        {
            descendants.push(leaves);
            proof {
                let t = f.subrange(j as int, n as int);
                assert(t.drop_first() =~= f.subrange(j + 1, n as int));
                lemma_suffix_product(f, j + 1);
                lemma_div_multiples_vanish(fanout_product(t.drop_first()), f[j as int] as int);
            }
            leaves = leaves / fanouts[j];
            j = j + 1;
        }
        proof {
            assert(f.subrange(n as int, n as int) =~= Seq::<u64>::empty());
        }
        descendants.push(1);
        let levels = descendants.len();
        assert(levels == n + 2);
        let r = Topology { descendants };
        proof {
            r.lemma_built_wf(f);
        }
        r
    }

    /// Number of levels, the whole-domain root included.
    pub fn height(&self) -> (r: u64)
        requires
            self.wf(),
        ensures
            r == self.height_spec(),
    {
        self.descendants.len() as u64
    }

    /// Number of children of a node of level `level`.
    pub fn fanout(&self, level: u64) -> (r: u64)
        requires
            self.wf(),
            level < self.height_spec(),
        ensures
            r == self.fanout_spec(level as int),
    {
        if level == 0 {
            0
        } else if level == self.height() - 1 {
            1
        } else {
            proof {
                assert(self.desc(level + 1) >= 1);
            }
            self.descendants[level as usize] / self.descendants[(level as usize) + 1]
        }
    }

    /// Number of leaves under a node of level `level`.
    pub fn descendants(&self, level: u64) -> (r: u64)
        requires
            self.wf(),
            level < self.height_spec(),
        ensures
            r == self.desc(level as int),
    {
        self.descendants[level as usize]
    }

    /// First leaf under `node`.
    pub fn start(&self, node: Pos) -> (r: u64)
        requires
            self.wf(),
            node.0 < self.height_spec(),
            self.pstart(node) <= u64::MAX,
        ensures
            r == self.pstart(node),
    {
        if node.0 == 0 {
            0
        } else {
            node.1 * self.descendants[node.0 as usize]
        }
    }

    /// One past the last leaf under `node` (0 for the whole-domain root).
    pub fn end(&self, node: Pos) -> (r: u64)
        requires
            self.wf(),
            self.fits(node),
        ensures
            r == self.pend(node),
    {
        if node.0 == 0 {
            0
        } else {
            self.start(node) + self.descendants[node.0 as usize]
        }
    }

    /// The leaf range `(start, end)` of `node`.
    pub fn range(&self, node: Pos) -> (r: Pos)
        requires
            self.wf(),
            self.fits(node),
        ensures
            r == (self.pstart(node) as u64, self.pend(node) as u64),
    {
        (self.start(node), self.end(node))
    }

    /// Index, within level `level`, of the node above leaf `leaf`.
    pub fn offset(&self, leaf: u64, level: u64) -> (r: u64)
        requires
            self.wf(),
            level < self.height_spec(),
        ensures
            r == if level == 0 {
                0
            } else {
                leaf as int / self.desc(level as int)
            },
    {
        if level == 0 {
            0
        } else {
            proof {
                assert(self.desc(level as int) >= 1);
            }
            leaf / self.descendants[level as usize]
        }
    }

    /// Whether the leaf range of `m` lies within that of `n`; everything
    /// lies within the whole-domain root, which lies within nothing.
    pub fn is_ancestor(&self, n: Pos, m: Pos) -> (r: bool)
        requires
            self.wf(),
            self.fits(n),
            self.fits(m),
        ensures
            r == self.is_ancestor_spec(n, m),
    {
        let (n_start, n_end) = self.range(n);
        let (m_start, m_end) = self.range(m);
        (m.0 != 0 || m.1 != 0) && ((n.0 == 0 && n.1 == 0) || (n_start <= m_start && m_end <= n_end))
    }

    /// The position of leaf `leaf`.
    pub fn leaf_position(&self, leaf: u64) -> (r: Pos)
        requires
            self.wf(),
        ensures
            r == self.leaf(leaf),
    {
        (self.height() - 1, leaf)
    }

    /// The positions from just below `from` down to `to`.
    pub fn path(&self, from: Pos, to: Pos) -> (r: Path<'_>)
        requires
            self.wf(),
            to.0 < self.height_spec(),
            self.pstart(to) <= u64::MAX,
        ensures
            r.wf(),
            r.topology() == self,
            r.remaining() == self.path_seq(from.0 as int, to),
    {
        Path::new(self, from, to)
    }

    /// The minimal covering of `[start, end)` by subtrees of level at least 1.
    pub fn coverage(&self, start: u64, end: u64) -> (r: Coverage<'_>)
        requires
            self.wf(),
        ensures
            r.wf(),
            r.topology() == self,
            r.remaining() == self.cover_seq(1, start as int, end as int),
    {
        Coverage::new(self, start, end)
    }

    /// The minimal covering of `[start, end)` by subtrees of level at least
    /// `level`.
    pub fn leveled_coverage(&self, level: u64, start: u64, end: u64) -> (r: LeveledCoverage<'_>)
        requires
            self.wf(),
            1 <= level < self.height_spec(),
        ensures
            r.wf(),
            r.topology() == self,
            r.remaining() == self.cover_seq(level as int, start as int, end as int),
    {
        LeveledCoverage::new(level, start, end, self)
    }
}

impl Default for Topology {
    /// Four levels below the root, each of fanout four.
    fn default() -> (r: Self)
        ensures
            r.wf(),
            r.built_from(seq![4u64, 4u64, 4u64, 4u64]),
    {
        let fanouts: Vec<u64> = vec![4, 4, 4, 4];
        proof {
            assert(fanouts@ =~= seq![4u64, 4u64, 4u64, 4u64]);
            let s1 = seq![4u64];
            let s2 = seq![4u64, 4u64];
            let s3 = seq![4u64, 4u64, 4u64];
            assert(s1.drop_first() =~= Seq::<u64>::empty());
            assert(s2.drop_first() =~= s1);
            assert(s3.drop_first() =~= s2);
            assert(fanouts@.drop_first() =~= s3);
            assert(fanout_product(Seq::<u64>::empty()) == 1);
            assert(fanout_product(s1) == 4);
            assert(fanout_product(s2) == 16);
            assert(fanout_product(s3) == 64);
            assert(fanout_product(fanouts@) == 256);
        }
        Self::new(fanouts.as_slice())
    }
}

/// The positions on the way down from one node to another.
pub struct Path<'a> {
    from: Pos,
    to: Pos,
    topology: &'a Topology,
}

impl<'a> Path<'a> {
    pub closed spec fn topology(&self) -> &'a Topology {
        self.topology
    }

    pub closed spec fn wf(&self) -> bool {
        &&& self.topology.wf()
        &&& self.to.0 < self.topology.height_spec()
        &&& self.topology.pstart(self.to) <= u64::MAX
    }

    /// The positions still to be visited.
    pub closed spec fn remaining(&self) -> Seq<Pos> {
        self.topology.path_seq(self.from.0 as int, self.to)
    }

    pub fn new(topology: &'a Topology, from: Pos, to: Pos) -> (r: Self)
        requires
            topology.wf(),
            to.0 < topology.height_spec(),
            topology.pstart(to) <= u64::MAX,
        ensures
            r.wf(),
            r.topology() == topology,
            r.remaining() == topology.path_seq(from.0 as int, to),
    {
        Self { topology, from, to }
    }

    /// The next position down, if any.
    pub fn next(&mut self) -> (r: Option<Pos>)
        requires
            old(self).wf(),
        ensures
            final(self).wf(),
            final(self).topology() == old(self).topology(),
            old(self).remaining().len() == 0 ==> r is None,
            old(self).remaining().len() == 0 ==> final(self).remaining() == old(self).remaining(),
            old(self).remaining().len() > 0 ==> r == Some(old(self).remaining()[0]),
            old(self).remaining().len() > 0 ==> final(self).remaining() == old(self).remaining().drop_first(),
    {
        if self.from.0 < self.to.0 {
            let leaf = self.topology.start(self.to);
            let level = self.from.0 + 1;
            let offset = self.topology.offset(leaf, level);
            let ghost prev = self.remaining();
            self.from = (level, offset);
            proof {
                assert(self.remaining() =~= prev.drop_first());
            }
            Some(self.from)
        } else {
            None
        }
    }
}

enum State {
    Pre(u64),
    Intra,
    Post(u64),
}

/// The minimal covering of a leaf range by subtrees of level at least a given
/// one, produced left to right: first single subtrees climbing up to the
/// alignment of larger ones, then whole subtrees of the given level, then
/// subtrees descending to the end of the range.
pub struct LeveledCoverage<'a> {
    level: u64,
    start: u64,
    end: u64,
    state: State,
    topology: &'a Topology,
    align: Ghost<int>,
}

impl<'a> LeveledCoverage<'a> {
    pub closed spec fn topology(&self) -> &'a Topology {
        self.topology
    }

    pub closed spec fn remaining(&self) -> Seq<Pos> {
        self.topology.cover_seq(self.level as int, self.start as int, self.end as int)
    }

    spec fn span_ok(&self, a: int, lv: int) -> bool {
        a <= lv || self.end - self.start < self.topology.desc(a)
    }

    pub closed spec fn wf(&self) -> bool {
        let t = self.topology;
        let a = self.align@;
        &&& t.wf()
        &&& 1 <= self.level < t.height_spec()
        &&& self.start <= self.end ==> {
            &&& 1 <= a < t.height_spec()
            &&& aligned(self.start as int, t.desc(a))
            &&& match self.state {
                State::Pre(lv) => self.level <= lv < t.height_spec() && self.span_ok(a, lv as int),
                State::Intra => self.span_ok(a, self.level as int),
                State::Post(lv) => {
                    &&& self.level + 1 <= lv <= t.height_spec()
                    &&& self.end - self.start < t.desc(lv - 1)
                    &&& self.span_ok(a, lv as int)
                },
            }
        }
    }

    spec fn rank(&self) -> int {
        let h = self.topology.height_spec();
        match self.state {
            State::Pre(lv) => h + 1 + lv,
            State::Intra => h,
            State::Post(lv) => h - lv,
        }
    }

    pub fn new(level: u64, start: u64, end: u64, topology: &'a Topology) -> (r: Self)
        requires
            topology.wf(),
            1 <= level < topology.height_spec(),
        ensures
            r.wf(),
            r.topology() == topology,
            r.remaining() == topology.cover_seq(level as int, start as int, end as int),
    {
        let r = Self {
            level,
            start,
            end,
            state: State::Pre(topology.height() - 1),
            topology,
            align: Ghost(topology.leaf_level()),
        };
        proof {
            assert(aligned(start as int, 1)) by (nonlinear_arith);
        }
        r
    }

    proof fn lemma_emit(&self, lv: int)
        requires
            self.topology.wf(),
            1 <= self.level as int <= lv < self.topology.height_spec(),
            forall|l: int|
                self.level <= l < lv ==> !(aligned(self.start as int, #[trigger] self.topology.desc(l))
                    && self.start + self.topology.desc(l) <= self.end),
            aligned(self.start as int, self.topology.desc(lv)),
            self.start + self.topology.desc(lv) <= self.end,
        ensures
            self.remaining().len() > 0,
            self.remaining()[0] == (lv as u64, (self.start as int / self.topology.desc(lv)) as u64),
            self.remaining().drop_first() == self.topology.cover_seq(
                self.level as int,
                self.start + self.topology.desc(lv),
                self.end as int,
            ),
    {
        let t = self.topology;
        t.lemma_first_fit_at(self.level as int, lv, self.start as int, self.end as int);
        let rest = t.cover_seq(self.level as int, self.start + t.desc(lv), self.end as int);
        assert(self.remaining() == seq![(lv as u64, (self.start as int / t.desc(lv)) as u64)] + rest);
        assert(self.remaining().drop_first() =~= rest);
    }

    /// The next subtree of the covering, if any.
    #[verifier::rlimit(40)]
    pub fn next(&mut self) -> (r: Option<Pos>)
        requires
            old(self).wf(),
        ensures
            final(self).wf(),
            final(self).topology() == old(self).topology(),
            old(self).remaining().len() == 0 ==> r is None,
            old(self).remaining().len() == 0 ==> final(self).remaining() == old(self).remaining(),
            old(self).remaining().len() > 0 ==> r == Some(old(self).remaining()[0]),
            old(self).remaining().len() > 0 ==> final(self).remaining() == old(self).remaining().drop_first(),
    {
        if self.start > self.end {
            return None;
        }
        let ghost first = self.remaining();
        let ghost t = self.topology;
        loop
            invariant
                self.wf(),
                self.topology == t,
                self.start <= self.end,
                self.remaining() == first,
                first == old(self).remaining(),
                self.topology() == old(self).topology(),
            decreases self.rank(),
        {
            let ghost a = self.align@;
            match self.state {
                State::Pre(level) => {
                    if level < self.level + 1 {
                        self.state = State::Intra;
                    } else if self.start % self.topology.descendants(level - 1) != 0
                        && self.topology.descendants(level) <= self.end - self.start {
                        proof {
                            if a > level {
                                t.lemma_desc_divides(level as int, a);
                            } else {
                                t.lemma_aligned_down(self.start as int, a, level as int);
                            }
                            assert forall|l: int|
                                self.level <= l < level implies !(aligned(self.start as int, #[trigger] t.desc(l))
                                && self.start + t.desc(l) <= self.end) by {
                                if aligned(self.start as int, t.desc(l)) {
                                    t.lemma_aligned_down(self.start as int, l, level - 1);
                                }
                            }
                            self.lemma_emit(level as int);
                        }
                        let node = (level, self.topology.offset(self.start, level));
                        self.start = self.start + self.topology.descendants(level);
                        proof {
                            lemma_mod_adds(self.start - t.desc(level as int), t.desc(level as int), t.desc(level as int));
                            lemma_mod_self_0(t.desc(level as int));
                        }
                        self.align = Ghost(level as int);
                        return Some(node);
                    } else {
                        if self.start % self.topology.descendants(level - 1) == 0 {
                            self.align = Ghost(level - 1);
                        } else {
                            proof {
                                if a == level {
                                    assert(self.end - self.start < t.desc(level as int));
                                } else if a > level {
                                    t.lemma_desc_divides(level as int, a);
                                }
                            }
                        }
                        self.state = State::Pre(level - 1);
                    }
                },
                State::Intra => {
                    let lv = self.level;
                    if self.topology.descendants(lv) <= self.end - self.start {
                        proof {
                            if a > lv {
                                t.lemma_desc_divides(lv as int, a);
                            } else {
                                t.lemma_aligned_down(self.start as int, a, lv as int);
                            }
                            self.lemma_emit(lv as int);
                        }
                        let node = (lv, self.topology.offset(self.start, lv));
                        self.start = self.start + self.topology.descendants(lv);
                        proof {
                            lemma_mod_adds(self.start - t.desc(lv as int), t.desc(lv as int), t.desc(lv as int));
                            lemma_mod_self_0(t.desc(lv as int));
                        }
                        self.align = Ghost(lv as int);
                        return Some(node);
                    } else {
                        self.state = State::Post(lv + 1);
                    }
                },
                State::Post(level) => {
                    if level >= self.topology.height() {
                        proof {
                            assert(self.start == self.end);
                        }
                        return None;
                    } else if self.topology.descendants(level) <= self.end - self.start {
                        proof {
                            if a > level {
                                t.lemma_desc_divides(level as int, a);
                            } else {
                                t.lemma_aligned_down(self.start as int, a, level as int);
                            }
                            assert forall|l: int|
                                self.level <= l < level implies !(aligned(self.start as int, #[trigger] t.desc(l))
                                && self.start + t.desc(l) <= self.end) by {
                                t.lemma_desc_divides(l, level - 1);
                            }
                            self.lemma_emit(level as int);
                        }
                        let node = (level, self.topology.offset(self.start, level));
                        self.start = self.start + self.topology.descendants(level);
                        proof {
                            lemma_mod_adds(self.start - t.desc(level as int), t.desc(level as int), t.desc(level as int));
                            lemma_mod_self_0(t.desc(level as int));
                        }
                        self.align = Ghost(level as int);
                        return Some(node);
                    } else {
                        proof {
                            if a > level + 1 {
                                t.lemma_desc_divides(level + 1, a);
                            }
                        }
                        self.state = State::Post(level + 1);
                    }
                },
            }
        }
    }
}

/// The minimal covering of a leaf range by subtrees of any level from 1 down.
pub struct Coverage<'a> {
    inner: LeveledCoverage<'a>,
}

impl<'a> Coverage<'a> {
    pub closed spec fn topology(&self) -> &'a Topology {
        self.inner.topology()
    }

    pub closed spec fn remaining(&self) -> Seq<Pos> {
        self.inner.remaining()
    }

    pub closed spec fn wf(&self) -> bool {
        self.inner.wf()
    }

    pub fn new(topology: &'a Topology, start: u64, end: u64) -> (r: Self)
        requires
            topology.wf(),
        ensures
            r.wf(),
            r.topology() == topology,
            r.remaining() == topology.cover_seq(1, start as int, end as int),
    {
        Self { inner: LeveledCoverage::new(1, start, end, topology) }
    }

    /// The next subtree of the covering, if any.
    pub fn next(&mut self) -> (r: Option<Pos>)
        requires
            old(self).wf(),
        ensures
            final(self).wf(),
            final(self).topology() == old(self).topology(),
            old(self).remaining().len() == 0 ==> r is None,
            old(self).remaining().len() == 0 ==> final(self).remaining() == old(self).remaining(),
            old(self).remaining().len() > 0 ==> r == Some(old(self).remaining()[0]),
            old(self).remaining().len() > 0 ==> final(self).remaining() == old(self).remaining().drop_first(),
    {
        self.inner.next()
    }
}

/// The count of level `l` is a multiple, at least twice, of that of level
/// `l + 1`.
pub open spec fn level_step_ok(d: Seq<u64>, l: int) -> bool {
    d[l] % d[l + 1] == 0 && d[l] >= 2 * d[l + 1]
}

/// Leaf counts per level that make a topology: at least three levels, 0 for
/// the whole-domain root, 1 for a leaf, and each level's count a multiple,
/// at least twice, of the next one's.
pub open spec fn valid_levels(d: Seq<u64>) -> bool {
    &&& d.len() >= 3
    &&& d.len() <= u64::MAX
    &&& d.len() <= usize::MAX
    &&& d[0] == 0
    &&& d[d.len() - 1] == 1
    &&& forall|l: int| 1 <= l < d.len() ==> #[trigger] d[l] >= 1
    &&& forall|l: int|
        1 <= l < d.len() - 1 ==> #[trigger] level_step_ok(d, l)
}

/// Whether `d` holds valid leaf counts per level.
fn check_levels(descendants: &Vec<u64>) -> (r: bool)
    ensures
        r == valid_levels(descendants@),
{
    let ghost d = descendants@;
    let n = descendants.len();
    if n < 3 || descendants[0] != 0 || descendants[n - 1] != 1 {
        assert(!valid_levels(d));
        return false;
    }
    let mut l: usize = 1;
    while l < n
        invariant
            d == descendants@,
            n == d.len(),
            n >= 3,
            d[0] == 0,
            d[n - 1] == 1,
            1 <= l <= n,
            forall|k: int| 1 <= k < l ==> #[trigger] d[k] >= 1,
            forall|k: int|
                1 <= k < l && k < n - 1 ==> #[trigger] level_step_ok(d, k),
        decreases n - l,
    {
        if descendants[l] == 0 {
            proof {
                assert(!(d[l as int] >= 1));
            }
            return false;
        }
        if l + 1 < n {
            if descendants[l + 1] == 0 || descendants[l] % descendants[l + 1] != 0
                || descendants[l] / 2 < descendants[l + 1] {
                proof {
                    assert(!valid_levels(d)) by {
                        if valid_levels(d) {
                            assert(d[l + 1 as int] >= 1);
                            assert(level_step_ok(d, l as int));
                            lemma_fundamental_div_mod(d[l as int] as int, 2);
                        }
                    }
                }
                return false;
            }
            proof {
                lemma_fundamental_div_mod(d[l as int] as int, 2);
                assert(level_step_ok(d, l as int));
            }
        }
        proof {
            assert forall|k: int|
                1 <= k < l + 1 && k < n - 1 implies #[trigger] level_step_ok(d, k) by {
                if k < l {
                    assert(1 <= k < l && k < n - 1);
                }
            }
        }
        l = l + 1;
    }
    assert forall|k: int| 1 <= k < d.len() - 1 implies #[trigger] level_step_ok(d, k) by {
        assert(1 <= k < l && k < n - 1);
    }
    assert(n as int <= u64::MAX);
    assert(d.len() <= u64::MAX);
    assert(forall|k: int| 1 <= k < d.len() ==> #[trigger] d[k] >= 1);
    assert(valid_levels(d));
    true
}

impl Topology {
    /// The number of leaves under a node of each level, from the top.
    pub fn levels(&self) -> (r: &Vec<u64>)
        ensures
            r@ == self@,
    {
        &self.descendants
    }

    /// The topology with the given leaf counts per level, if they make one.
    pub fn from_levels(descendants: Vec<u64>) -> (r: Option<Topology>)
        ensures
            r is Some <==> valid_levels(descendants@),
            r is Some ==> r->0.wf() && r->0@ == descendants@,
    {
        if !check_levels(&descendants) {
            return None;
        }
        let r = Topology { descendants };
        proof {
            r.lemma_levels_wf();
        }
        Some(r)
    }

    /// Whether this topology is well formed.
    pub fn is_valid(&self) -> (r: bool)
        ensures
            r == self.wf(),
    {
        let r = check_levels(&self.descendants);
        proof {
            if r {
                self.lemma_levels_wf();
            } else if self.wf() {
                self.lemma_wf_levels();
            }
        }
        r
    }

    proof fn lemma_levels_wf(&self)
        requires
            valid_levels(self@),
        ensures
            self.wf(),
    {
        let d = self@;
        assert forall|k: int| 1 <= k < self.height_spec() implies #[trigger] self.desc(k) >= 1 by {
            assert(d[k] >= 1);
        }
        assert forall|k: int| 1 <= k < self.leaf_level() implies #[trigger] (self.desc(k) % self.desc(k + 1)) == 0
            && self.desc(k) >= 2 * self.desc(k + 1) by {
            assert(1 <= k < d.len() - 1);
            assert(level_step_ok(d, k));
            assert(d[k] >= 2 * d[k + 1]);
        }
    }

    /// A well-formed topology has valid leaf counts.
    pub proof fn lemma_wf_levels(&self)
        requires
            self.wf(),
        ensures
            valid_levels(self@),
    {
        assert forall|l: int| 1 <= l < self@.len() implies #[trigger] self@[l] >= 1 by {
            assert(self.desc(l) >= 1);
        }
        assert forall|l: int| 1 <= l < self@.len() - 1 implies #[trigger] level_step_ok(self@, l) by {
            assert(1 <= l < self.leaf_level());
            assert((self.desc(l) % self.desc(l + 1)) == 0);
            assert(self.desc(l) >= 2 * self.desc(l + 1));
        }
    }
}

} // verus!
