//! Runs of nodes laid end to end over a leaf range, the key each run gives
//! a leaf (that of the one node whose range holds it), and the splicing of a
//! fresh stretch of keys into a run.
use vstd::prelude::*;
use crate::node::{Node, lemma_chain_append};
use crate::topology::{Pos, Topology};

verus! {

/// The nodes of `s` are subtrees lying end to end over `[lo, hi)`.
pub open spec fn run_tiles(t: &Topology, s: Seq<Node>, lo: int, hi: int) -> bool {
    &&& s.len() == 0 ==> lo == hi
    &&& s.len() > 0 ==> t.pstart(s[0].pos) == lo && t.pend(s.last().pos) == hi
    &&& forall|i: int| 0 <= i < s.len() ==> #[trigger] t.is_block(s[i].pos)
    &&& forall|i: int|
        0 <= i < s.len() - 1 ==> #[trigger] t.pend(s[i].pos) == t.pstart(s[i + 1].pos)
}

/// Index of the first node of `s` that ends after leaf `x`.
pub open spec fn find(t: &Topology, s: Seq<Node>, x: int) -> int
    decreases s.len(),
{
    if s.len() == 0 {
        0
    } else if x < t.pend(s[0].pos) {
        0
    } else {
        1 + find(t, s.drop_first(), x)
    }
}

/// The key that the run `s` gives leaf `x`.
pub open spec fn list_key(t: &Topology, s: Seq<Node>, x: u64) -> Seq<u8> {
    s[find(t, s, x as int)].key_at(t, t.leaf(x))
}

/// The key that a root list gives leaf `x`: a single whole-domain root
/// gives every leaf the key derived from it; a run gives the key of the node
/// that holds the leaf.
pub open spec fn lookup(t: &Topology, s: Seq<Node>, x: u64) -> Seq<u8> {
    if s.len() == 1 && s[0].pos == (0u64, 0u64) {
        s[0].key_at(t, t.leaf(x))
    } else {
        list_key(t, s, x)
    }
}

/// The positions of the nodes of `s`.
pub open spec fn positions(s: Seq<Node>) -> Seq<Pos> {
    s.map_values(|n: Node| n.pos)
}

/// Index of the first position of `p` that ends after leaf `x`.
pub open spec fn find_pos(t: &Topology, p: Seq<Pos>, x: int) -> int
    decreases p.len(),
{
    if p.len() == 0 {
        0
    } else if x < t.pend(p[0]) {
        0
    } else {
        1 + find_pos(t, p.drop_first(), x)
    }
}

/// The positions of a root list `p` after `[start, end)` is replaced by the
/// minimal covering at level `level`: the roots before the first one that
/// ends after `start` stay, that root is cut down to its part before
/// `start`, the range itself is covered, the root that holds `end` keeps its
/// part from `end` on, and the roots after it stay.
pub open spec fn spliced(t: &Topology, p: Seq<Pos>, level: int, start: u64, end: u64) -> Seq<Pos> {
    let n = p.len() as int;
    let f = find_pos(t, p, start as int);
    let i = if f < n {
        f
    } else {
        n - 1
    };
    let head = p.subrange(0, i) + t.cover_seq(level, t.pstart(p[i]), start as int) + t.cover_seq(
        level,
        start as int,
        end as int,
    );
    if end < t.pend(p[n - 1]) {
        let j = find_pos(t, p, end - 1);
        head + t.cover_seq(level, end as int, t.pend(p[j])) + p.subrange(j + 1, n)
    } else {
        head
    }
}

/// The positions of a root list `p` after each range of `runs`, in order,
/// is replaced at level `level`.
pub open spec fn spliced_runs(t: &Topology, p: Seq<Pos>, level: int, runs: Seq<(u64, u64)>) -> Seq<Pos>
    decreases runs.len(),
{
    if runs.len() == 0 {
        p
    } else {
        spliced(t, spliced_runs(t, p, level, runs.drop_last()), level, runs.last().0, runs.last().1)
    }
}

pub proof fn lemma_find_pos(t: &Topology, s: Seq<Node>, x: int)
    ensures
        find(t, s, x) == find_pos(t, positions(s), x),
    decreases s.len(),
{
    if s.len() > 0 {
        assert(positions(s).drop_first() =~= positions(s.drop_first()));
        lemma_find_pos(t, s.drop_first(), x);
    }
}

/// `find` picks the first node that ends after `x`.
pub proof fn lemma_find_first(t: &Topology, s: Seq<Node>, x: int, i: int)
    requires
        0 <= i <= s.len(),
        forall|k: int| 0 <= k < i ==> t.pend(#[trigger] s[k].pos) <= x,
        i < s.len() ==> x < t.pend(s[i].pos),
    ensures
        find(t, s, x) == i,
    decreases i,
{
    if i > 0 {
        let r = s.drop_first();
        assert forall|k: int| 0 <= k < i - 1 implies t.pend(#[trigger] r[k].pos) <= x by {
            assert(r[k] == s[k + 1]);
        }
        if i < s.len() {
            assert(r[i - 1] == s[i]);
        }
        assert(t.pend(s[0].pos) <= x);
        lemma_find_first(t, r, x, i - 1);
    }
}

/// Where the `k`-th node of a run over `[lo, ..)` starts.
pub open spec fn boundary(t: &Topology, s: Seq<Node>, lo: int, k: int) -> int {
    if k == 0 {
        lo
    } else {
        t.pend(s[k - 1].pos)
    }
}

pub proof fn lemma_block_nonempty(t: &Topology, p: crate::topology::Pos)
    requires
        t.wf(),
        t.is_block(p),
    ensures
        t.pstart(p) < t.pend(p),
        t.pend(p) - t.pstart(p) == t.desc(p.0 as int),
        t.pstart(p) >= 0,
{
    assert(t.desc(p.0 as int) >= 1);
    assert(t.pstart(p) >= 0) by (nonlinear_arith)
        requires
            t.pstart(p) == p.1 * t.desc(p.0 as int),
            t.desc(p.0 as int) >= 1,
    ;
}

pub proof fn lemma_tiles_drop_first(t: &Topology, s: Seq<Node>, lo: int, hi: int)
    requires
        run_tiles(t, s, lo, hi),
        s.len() > 0,
    ensures
        run_tiles(t, s.drop_first(), t.pend(s[0].pos), hi),
{
    let r = s.drop_first();
    assert forall|i: int| 0 <= i < r.len() implies #[trigger] t.is_block(r[i].pos) by {
        assert(r[i] == s[i + 1]);
    }
    assert forall|i: int| 0 <= i < r.len() - 1 implies #[trigger] t.pend(r[i].pos) == t.pstart(
        r[i + 1].pos,
    ) by {
        assert(r[i] == s[i + 1]);
        assert(r[i + 1] == s[i + 2]);
    }
    if r.len() > 0 {
        assert(t.pend(s[0].pos) == t.pstart(s[1].pos));
    }
}

/// Within a run the nodes are ordered, non-empty and inside the range.
pub proof fn lemma_tiles_order(t: &Topology, s: Seq<Node>, lo: int, hi: int)
    requires
        t.wf(),
        run_tiles(t, s, lo, hi),
    ensures
        lo <= hi,
        forall|i: int|
            0 <= i < s.len() ==> lo <= t.pstart(#[trigger] s[i].pos) < t.pend(s[i].pos) <= hi,
        forall|i: int, j: int|
            0 <= i < j < s.len() ==> t.pend(#[trigger] s[i].pos) <= t.pstart(#[trigger] s[j].pos),
    decreases s.len(),
{
    if s.len() > 0 {
        lemma_block_nonempty(t, s[0].pos);
        lemma_tiles_drop_first(t, s, lo, hi);
        let r = s.drop_first();
        lemma_tiles_order(t, r, t.pend(s[0].pos), hi);
        assert forall|i: int| 0 <= i < s.len() implies lo <= t.pstart(#[trigger] s[i].pos) < t.pend(
            s[i].pos,
        ) <= hi by {
            if i > 0 {
                assert(s[i] == r[i - 1]);
            }
        }
        assert forall|i: int, j: int| 0 <= i < j < s.len() implies t.pend(#[trigger] s[i].pos)
            <= t.pstart(#[trigger] s[j].pos) by {
            assert(s[j] == r[j - 1]);
            if i > 0 {
                assert(s[i] == r[i - 1]);
            }
        }
    }
}

/// The node that holds leaf `x` is the one `find` picks.
pub proof fn lemma_find_unique(t: &Topology, s: Seq<Node>, lo: int, hi: int, i: int, x: int)
    requires
        t.wf(),
        run_tiles(t, s, lo, hi),
        0 <= i < s.len(),
        t.pstart(s[i].pos) <= x < t.pend(s[i].pos),
    ensures
        find(t, s, x) == i,
    decreases i,
{
    lemma_tiles_order(t, s, lo, hi);
    if i > 0 {
        lemma_tiles_drop_first(t, s, lo, hi);
        assert(s.drop_first()[i - 1] == s[i]);
        lemma_find_unique(t, s.drop_first(), t.pend(s[0].pos), hi, i - 1, x);
    }
}

/// Every leaf of the range lies in the node that `find` picks.
pub proof fn lemma_find_in(t: &Topology, s: Seq<Node>, lo: int, hi: int, x: int)
    requires
        t.wf(),
        run_tiles(t, s, lo, hi),
        lo <= x < hi,
    ensures
        0 <= find(t, s, x) < s.len(),
        t.pstart(s[find(t, s, x)].pos) <= x < t.pend(s[find(t, s, x)].pos),
    decreases s.len(),
{
    lemma_tiles_order(t, s, lo, hi);
    if x >= t.pend(s[0].pos) {
        lemma_tiles_drop_first(t, s, lo, hi);
        lemma_find_in(t, s.drop_first(), t.pend(s[0].pos), hi, x);
        assert(s.drop_first()[find(t, s.drop_first(), x)] == s[find(t, s, x)]);
    }
}

/// Two runs that meet make one run.
pub proof fn lemma_tiles_concat(t: &Topology, s1: Seq<Node>, s2: Seq<Node>, a: int, b: int, c: int)
    requires
        run_tiles(t, s1, a, b),
        run_tiles(t, s2, b, c),
    ensures
        run_tiles(t, s1 + s2, a, c),
{
    let s = s1 + s2;
    assert forall|i: int| 0 <= i < s.len() implies #[trigger] t.is_block(s[i].pos) by {
        if i >= s1.len() {
            assert(s[i] == s2[i - s1.len()]);
        }
    }
    assert forall|i: int| 0 <= i < s.len() - 1 implies #[trigger] t.pend(s[i].pos) == t.pstart(
        s[i + 1].pos,
    ) by {
        if i + 1 < s1.len() {
        } else if i + 1 == s1.len() {
            assert(s[i + 1] == s2[0]);
        } else {
            assert(s[i] == s2[i - s1.len()]);
            assert(s[i + 1] == s2[i + 1 - s1.len()]);
        }
    }
    if s2.len() > 0 {
        assert(s.last() == s2.last());
    }
    if s1.len() == 0 && s2.len() > 0 {
        assert(s[0] == s2[0]);
    }
    if s1.len() == 0 {
        assert(s =~= s2);
    }
    if s2.len() == 0 {
        assert(s =~= s1);
    }
}

/// A stretch of a run is a run over its own range.
pub proof fn lemma_tiles_sub(t: &Topology, s: Seq<Node>, lo: int, hi: int, i: int, j: int)
    requires
        run_tiles(t, s, lo, hi),
        0 <= i <= j <= s.len(),
    ensures
        run_tiles(t, s.subrange(i, j), boundary(t, s, lo, i), boundary(t, s, lo, j)),
        j == s.len() ==> boundary(t, s, lo, j) == hi,
        i < s.len() ==> boundary(t, s, lo, i) == t.pstart(s[i].pos),
{
    let r = s.subrange(i, j);
    assert forall|k: int| 0 <= k < r.len() implies #[trigger] t.is_block(r[k].pos) by {
        assert(r[k] == s[i + k]);
    }
    assert forall|k: int| 0 <= k < r.len() - 1 implies #[trigger] t.pend(r[k].pos) == t.pstart(
        r[k + 1].pos,
    ) by {
        assert(r[k] == s[i + k]);
        assert(r[k + 1] == s[i + k + 1]);
    }
    if i < s.len() && i > 0 {
        assert(t.pend(s[i - 1].pos) == t.pstart(s[i].pos));
    }
    if r.len() > 0 {
        assert(r[0] == s[i]);
        assert(r.last() == s[j - 1]);
    }
}

/// In a joined run, each leaf keeps the key that its own part gave it.
pub proof fn lemma_keys_concat(t: &Topology, s1: Seq<Node>, s2: Seq<Node>, a: int, b: int, c: int)
    requires
        t.wf(),
        run_tiles(t, s1, a, b),
        run_tiles(t, s2, b, c),
    ensures
        forall|x: u64| a <= x < b ==> #[trigger] list_key(t, s1 + s2, x) == list_key(t, s1, x),
        forall|x: u64| b <= x < c ==> #[trigger] list_key(t, s1 + s2, x) == list_key(t, s2, x),
{
    lemma_tiles_concat(t, s1, s2, a, b, c);
    let s = s1 + s2;
    assert forall|x: u64| a <= x < b implies #[trigger] list_key(t, s, x) == list_key(t, s1, x) by {
        lemma_find_in(t, s1, a, b, x as int);
        let k = find(t, s1, x as int);
        assert(s[k] == s1[k]);
        lemma_find_unique(t, s, a, c, k, x as int);
    }
    assert forall|x: u64| b <= x < c implies #[trigger] list_key(t, s, x) == list_key(t, s2, x) by {
        lemma_find_in(t, s2, b, c, x as int);
        let k = find(t, s2, x as int);
        assert(s[s1.len() + k] == s2[k]);
        lemma_find_unique(t, s, a, c, s1.len() + k, x as int);
    }
}

/// A node whose key is derived from `r` gives each leaf below it the key
/// that `r` gives that leaf.
pub proof fn lemma_derive_through(t: &Topology, r: Node, n: Node, x: u64)
    requires
        t.wf(),
        n.key@ == r.key_at(t, n.pos),
        r.pos.0 <= n.pos.0,
        t.is_block(n.pos),
        t.pstart(n.pos) <= x < t.pend(n.pos),
    ensures
        n.key_at(t, t.leaf(x)) == r.key_at(t, t.leaf(x)),
{
    let leaf = t.leaf(x);
    assert(t.pstart(leaf) == x);
    t.lemma_path_split(r.pos.0 as int, n.pos, leaf);
    lemma_chain_append(
        r.key@,
        t.path_seq(r.pos.0 as int, n.pos),
        t.path_seq(n.pos.0 as int, leaf),
    );
}

/// The nodes of a covering derived from `node` make a run over the covered
/// range, and give every leaf there the key that `node` gives it.
pub proof fn lemma_coverage_keys(
    t: &Topology,
    node: Node,
    nodes: Seq<Node>,
    level: int,
    s: int,
    e: int,
)
    requires
        t.wf(),
        1 <= level < t.height_spec(),
        0 <= s <= e <= u64::MAX,
        nodes.len() == t.cover_seq(level, s, e).len(),
        forall|i: int|
            0 <= i < nodes.len() ==> (#[trigger] nodes[i]).pos == t.cover_seq(level, s, e)[i]
                && nodes[i].key@ == node.key_at(t, nodes[i].pos),
        node.pos.0 == 0 || (t.is_block(node.pos) && t.pstart(node.pos) <= s && e <= t.pend(
            node.pos,
        )),
    ensures
        run_tiles(t, nodes, s, e),
        forall|x: u64| s <= x < e ==> #[trigger] list_key(t, nodes, x) == node.key_at(t, t.leaf(x)),
{
    t.lemma_cover_tiles(level, s, e);
    let c = t.cover_seq(level, s, e);
    assert forall|i: int| 0 <= i < nodes.len() - 1 implies #[trigger] t.pend(nodes[i].pos)
        == t.pstart(nodes[i + 1].pos) by {
        assert(nodes[i + 1].pos == c[i + 1]);
    }
    if nodes.len() > 0 {
        assert(nodes.last().pos == c.last());
    }
    assert(run_tiles(t, nodes, s, e));
    assert forall|x: u64| s <= x < e implies #[trigger] list_key(t, nodes, x) == node.key_at(
        t,
        t.leaf(x),
    ) by {
        lemma_find_in(t, nodes, s, e, x as int);
        let k = find(t, nodes, x as int);
        let n = nodes[k];
        if node.pos.0 != 0 && n.pos.0 < node.pos.0 {
            lemma_tiles_order(t, nodes, s, e);
            lemma_block_nonempty(t, n.pos);
            lemma_block_nonempty(t, node.pos);
            t.lemma_desc_divides(n.pos.0 as int, node.pos.0 as int);
        }
        lemma_derive_through(t, node, n, x);
    }
}

/// Five runs laid end to end make one run; the leaves of the middle one get
/// the keys `root` gives them, the others those of `r`.
pub(crate) proof fn lemma_join(
    t: &Topology,
    r: Seq<Node>,
    root: Node,
    a: Seq<Node>,
    l: Seq<Node>,
    d: Seq<Node>,
    rr: Seq<Node>,
    b: Seq<Node>,
    l_start: int,
    d_start: int,
    r_start: int,
    b_start: int,
    hi: int,
)
    requires
        t.wf(),
        run_tiles(t, a, 0, l_start),
        run_tiles(t, l, l_start, d_start),
        run_tiles(t, d, d_start, r_start),
        run_tiles(t, rr, r_start, b_start),
        run_tiles(t, b, b_start, hi),
        forall|x: u64| 0 <= x < l_start ==> #[trigger] list_key(t, a, x) == list_key(t, r, x),
        forall|x: u64| l_start <= x < d_start ==> #[trigger] list_key(t, l, x) == list_key(t, r, x),
        forall|x: u64| d_start <= x < r_start ==> #[trigger] list_key(t, d, x) == root.key_at(t, t.leaf(x)),
        forall|x: u64| r_start <= x < b_start ==> #[trigger] list_key(t, rr, x) == list_key(t, r, x),
        forall|x: u64| b_start <= x < hi ==> #[trigger] list_key(t, b, x) == list_key(t, r, x),
    ensures
        run_tiles(t, a + l + d + rr + b, 0, hi),
        forall|x: u64|
            0 <= x < hi ==> #[trigger] list_key(t, a + l + d + rr + b, x) == if d_start <= x < r_start {
                root.key_at(t, t.leaf(x))
            } else {
                list_key(t, r, x)
            },
{
    lemma_keys_concat(t, a, l, 0, l_start, d_start);
    lemma_tiles_concat(t, a, l, 0, l_start, d_start);
    let s1 = a + l;
    lemma_keys_concat(t, s1, d, 0, d_start, r_start);
    lemma_tiles_concat(t, s1, d, 0, d_start, r_start);
    let s2 = s1 + d;
    lemma_keys_concat(t, s2, rr, 0, r_start, b_start);
    lemma_tiles_concat(t, s2, rr, 0, r_start, b_start);
    let s3 = s2 + rr;
    lemma_keys_concat(t, s3, b, 0, b_start, hi);
    lemma_tiles_concat(t, s3, b, 0, b_start, hi);
    lemma_tiles_order(t, a, 0, l_start);
    lemma_tiles_order(t, l, l_start, d_start);
    lemma_tiles_order(t, d, d_start, r_start);
    lemma_tiles_order(t, rr, r_start, b_start);
    lemma_tiles_order(t, b, b_start, hi);
}

/// Appends the nodes `src[a..b)` to `out`.
pub(crate) fn copy_nodes(out: &mut Vec<Node>, src: &Vec<Node>, a: usize, b: usize)
    requires
        a <= b <= src@.len(),
    ensures
        final(out)@ == old(out)@ + src@.subrange(a as int, b as int),
{
    let ghost start = out@;
    let mut k: usize = a;
    while k < b
        invariant
            a <= k <= b <= src@.len(),
            out@ == start + src@.subrange(a as int, k as int),
        decreases b - k,
    {
        out.push(src[k]);
        k = k + 1;
        proof {
            assert(out@ =~= start + src@.subrange(a as int, k as int));
        }
    }
}

/// The nodes of `node` covering `[s, e)` at level at least `level`, with
/// their keys; none if the range is empty.
pub(crate) fn fragment(t: &Topology, node: Node, level: u64, s: u64, e: u64) -> (r: Vec<Node>)
    requires
        t.wf(),
        1 <= level < t.height_spec(),
        s <= e,
        node.pos.0 == 0 || (t.is_block(node.pos) && t.pstart(node.pos) <= s && e <= t.pend(
            node.pos,
        )),
    ensures
        run_tiles(t, r@, s as int, e as int),
        forall|x: u64| s <= x < e ==> #[trigger] list_key(t, r@, x) == node.key_at(t, t.leaf(x)),
        r@.len() == t.cover_seq(level as int, s as int, e as int).len(),
        forall|i: int| 0 <= i < r@.len() ==> (#[trigger] r@[i]).pos == t.cover_seq(level as int, s as int, e as int)[i],
{
    if s == e {
        return Vec::new();
    }
    let r = node.coverage(t, level, s, e);
    proof {
        lemma_coverage_keys(t, node, r@, level as int, s as int, e as int);
    }
    r
}

/// Index of the first root that ends after `start`, or of the last root.
pub(crate) fn first_affected(t: &Topology, roots: &Vec<Node>, start: u64, Ghost(e): Ghost<int>) -> (i: usize)
    requires
        t.wf(),
        roots@.len() >= 1,
        run_tiles(t, roots@, 0, e),
        start <= e,
    ensures
        i < roots@.len(),
        t.pstart(roots@[i as int].pos) <= start <= t.pend(roots@[i as int].pos),
        forall|k: int| 0 <= k < i ==> t.pend(#[trigger] roots@[k].pos) <= start,
        i == if find(t, roots@, start as int) < roots@.len() {
            find(t, roots@, start as int)
        } else {
            roots@.len() - 1
        },
{
    let ghost r = roots@;
    let n = roots.len();
    proof {
        lemma_tiles_order(t, r, 0, e);
        assert forall|k: int| 0 <= k < r.len() implies #[trigger] t.fits(r[k].pos) by {
            assert(t.is_block(r[k].pos));
        }
    }
    let mut i: usize = 0;
    while i + 1 < n && t.end(roots[i].pos) <= start
        invariant
            t.wf(),
            roots@ == r,
            n == r.len(),
            n >= 1,
            i < n,
            forall|k: int| 0 <= k < i ==> t.pend(#[trigger] r[k].pos) <= start,
            forall|k: int| 0 <= k < n ==> #[trigger] t.fits(r[k].pos),
        decreases n - i,
    {
        i = i + 1;
    }
    proof {
        if i > 0 {
            assert(t.pend(r[i - 1].pos) == t.pstart(r[i as int].pos));
        }
        if start < t.pend(r[i as int].pos) {
            lemma_find_first(t, r, start as int, i as int);
        } else {
            lemma_find_first(t, r, start as int, n as int);
        }
    }
    i
}

/// Index of the first root that ends at or after `end`.
pub(crate) fn last_affected(t: &Topology, roots: &Vec<Node>, end: u64, Ghost(e): Ghost<int>) -> (j: usize)
    requires
        t.wf(),
        roots@.len() >= 1,
        run_tiles(t, roots@, 0, e),
        end < e,
    ensures
        j < roots@.len(),
        t.pstart(roots@[j as int].pos) <= end <= t.pend(roots@[j as int].pos),
        forall|k: int| 0 <= k < j ==> t.pend(#[trigger] roots@[k].pos) < end,
        j == find(t, roots@, end - 1),
{
    let ghost r = roots@;
    let n = roots.len();
    proof {
        lemma_tiles_order(t, r, 0, e);
        assert forall|k: int| 0 <= k < r.len() implies #[trigger] t.fits(r[k].pos) by {
            assert(t.is_block(r[k].pos));
        }
    }
    let mut j: usize = 0;
    while t.end(roots[j].pos) < end
        invariant
            t.wf(),
            roots@ == r,
            n == r.len(),
            j < n,
            end < t.pend(r[n - 1].pos),
            forall|k: int| 0 <= k < j ==> t.pend(#[trigger] r[k].pos) < end,
            forall|k: int| 0 <= k < n ==> #[trigger] t.fits(r[k].pos),
        decreases n - j,
    {
        j = j + 1;
    }
    proof {
        if j > 0 {
            assert(t.pend(r[j - 1].pos) == t.pstart(r[j as int].pos));
        }
        lemma_find_first(t, r, end - 1, j as int);
    }
    j
}

/// A run split in two: each part is a run, and gives its leaves the keys
/// the whole run gives them.
pub(crate) proof fn lemma_split_run(t: &Topology, r: Seq<Node>, e: int, i: int)
    requires
        t.wf(),
        run_tiles(t, r, 0, e),
        0 <= i <= r.len(),
    ensures
        run_tiles(t, r.subrange(0, i), 0, boundary(t, r, 0, i)),
        run_tiles(t, r.subrange(i, r.len() as int), boundary(t, r, 0, i), e),
        i < r.len() ==> boundary(t, r, 0, i) == t.pstart(r[i].pos),
        forall|x: u64|
            x < boundary(t, r, 0, i) ==> #[trigger] list_key(t, r.subrange(0, i), x) == list_key(
                t,
                r,
                x,
            ),
        forall|x: u64|
            boundary(t, r, 0, i) <= x < e ==> #[trigger] list_key(t, r.subrange(i, r.len() as int), x)
                == list_key(t, r, x),
{
    lemma_tiles_sub(t, r, 0, e, 0, i);
    lemma_tiles_sub(t, r, 0, e, i, r.len() as int);
    assert(r.subrange(0, r.len() as int) =~= r);
    lemma_keys_concat(t, r.subrange(0, i), r.subrange(i, r.len() as int), 0, boundary(t, r, 0, i), e);
    assert(r =~= r.subrange(0, i) + r.subrange(i, r.len() as int));
}

/// A piece cut from the `i`-th node of a run gives its leaves the keys the
/// run gives them.
pub(crate) proof fn lemma_piece(t: &Topology, r: Seq<Node>, e: int, i: int, piece: Seq<Node>, s0: u64, s1: u64)
    requires
        t.wf(),
        run_tiles(t, r, 0, e),
        0 <= i < r.len(),
        t.pstart(r[i].pos) <= s0,
        s1 <= t.pend(r[i].pos),
        forall|x: u64| s0 <= x < s1 ==> #[trigger] list_key(t, piece, x) == r[i].key_at(t, t.leaf(x)),
    ensures
        forall|x: u64| s0 <= x < s1 ==> #[trigger] list_key(t, piece, x) == list_key(t, r, x),
{
    assert forall|x: u64| s0 <= x < s1 implies #[trigger] list_key(t, piece, x) == list_key(t, r, x) by {
        lemma_find_unique(t, r, 0, e, i, x as int);
    }
}

/// The roots `roots`, covering `[0, e)`, with the keys of `[start, end)`
/// replaced by keys derived from `root`: the roots around the range are split
/// so that every other key stays as it was.
#[verifier::rlimit(40)]
pub(crate) fn splice(
    t: &Topology,
    roots: &Vec<Node>,
    level: u64,
    start: u64,
    end: u64,
    root: Node,
    Ghost(e): Ghost<int>,
) -> (out: Vec<Node>)
    requires
        t.wf(),
        1 <= level < t.height_spec(),
        roots@.len() >= 1,
        run_tiles(t, roots@, 0, e),
        start <= end,
        start <= e,
        root.pos == (0u64, 0u64),
    ensures
        run_tiles(t, out@, 0, if end < e { e } else { end as int }),
        forall|x: u64|
            x < (if end < e { e } else { end as int }) ==> #[trigger] list_key(t, out@, x) == if start
                <= x < end {
                root.key_at(t, t.leaf(x))
            } else {
                list_key(t, roots@, x)
            },
        start == 0 && end >= e ==> out@.len() == t.cover_seq(level as int, 0, end as int).len(),
        start == 0 && end >= e ==> forall|i: int|
            0 <= i < out@.len() ==> (#[trigger] out@[i]).pos == t.cover_seq(level as int, 0, end as int)[i],
        positions(out@) == spliced(t, positions(roots@), level as int, start, end),
{
    let ghost r = roots@;
    let n = roots.len();
    let i = first_affected(t, roots, start, Ghost(e));
    proof {
        assert(t.is_block(r[i as int].pos));
        assert(t.is_block(r[n - 1].pos));
    }
    let ri = roots[i];
    let ri_start = t.start(ri.pos);
    let mut out: Vec<Node> = Vec::new();
    copy_nodes(&mut out, roots, 0, i);
    let ghost seg_a = out@;
    let mut left = fragment(t, ri, level, ri_start, start);
    let ghost seg_l = left@;
    proof {
        lemma_split_run(t, r, e, i as int);
        lemma_piece(t, r, e, i as int, seg_l, ri_start, start);
    }
    out.append(&mut left);
    let mut donor = fragment(t, root, level, start, end);
    let ghost seg_d = donor@;
    out.append(&mut donor);
    let last_end = t.end(roots[n - 1].pos);
    let mut j: usize = n;
    let mut right: Vec<Node> = Vec::new();
    let ghost mut right_end: int = e;
    let ghost mut jj: int = n as int;
    if end < last_end {
        let j1 = last_affected(t, roots, end, Ghost(e));
        proof {
            assert(t.is_block(r[j1 as int].pos));
        }
        let rj = roots[j1];
        let rj_end = t.end(rj.pos);
        right = fragment(t, rj, level, end, rj_end);
        proof {
            lemma_piece(t, r, e, j1 as int, right@, end, rj_end);
            right_end = rj_end as int;
            jj = j1 as int;
        }
        j = j1 + 1;
    }
    let ghost seg_r = right@;
    out.append(&mut right);
    copy_nodes(&mut out, roots, j, n);
    proof {
        let seg_b = r.subrange(j as int, n as int);
        lemma_split_run(t, r, e, j as int);
        if end < last_end {
            lemma_join(t, r, root, seg_a, seg_l, seg_d, seg_r, seg_b, ri_start as int, start as int, end as int, right_end, e);
        } else {
            lemma_join(t, r, root, seg_a, seg_l, seg_d, seg_r, seg_b, ri_start as int, start as int, end as int, end as int, end as int);
        }
        assert(out@ =~= seg_a + seg_l + seg_d + seg_r + seg_b);
        if start == 0 && end >= e {
            if i > 0 {
                assert(t.is_block(r[0].pos));
                assert(t.pend(r[0].pos) <= 0);
            }
            assert(seg_a.len() == 0);
            assert(seg_l.len() == 0);
            assert(out@ =~= seg_d);
        }
        let p = positions(r);
        assert(positions(out@) =~= spliced(t, p, level as int, start, end)) by {
            lemma_find_pos(t, r, start as int);
            lemma_find_pos(t, r, end - 1);
            assert(positions(seg_a) =~= p.subrange(0, i as int));
            assert(positions(seg_l) =~= t.cover_seq(level as int, t.pstart(p[i as int]), start as int));
            assert(positions(seg_d) =~= t.cover_seq(level as int, start as int, end as int));
            assert(positions(seg_b) =~= p.subrange(j as int, n as int));
            if end < last_end {
                assert(positions(seg_r) =~= t.cover_seq(level as int, end as int, t.pend(p[jj])));
            } else {
                assert(positions(seg_r) =~= Seq::<Pos>::empty());
                assert(positions(seg_b) =~= Seq::<Pos>::empty());
            }
            assert(positions(seg_a + seg_l + seg_d + seg_r + seg_b) =~= positions(seg_a) + positions(seg_l)
                + positions(seg_d) + positions(seg_r) + positions(seg_b));
        }
    }
    out
}

} // verus!
