//! A node: a seed key bound to a position, standing for the whole subtree
//! below it. Every key in that subtree is a hash chain from the seed.
use vstd::prelude::*;
use crate::crypto::{Key, child_key, hash_child, random_key};
use crate::topology::{Pos, Topology};
use std::collections::HashMap;

verus! {

/// The key reached from `key` by hashing down along `path`.
pub open spec fn chain(key: Seq<u8>, path: Seq<Pos>) -> Seq<u8>
    decreases path.len(),
{
    if path.len() == 0 {
        key
    } else {
        child_key(chain(key, path.drop_last()), path.last())
    }
}

/// Hashing down two paths in turn is hashing down the joined path.
pub proof fn lemma_chain_append(key: Seq<u8>, first: Seq<Pos>, second: Seq<Pos>)
    ensures
        chain(key, first + second) == chain(chain(key, first), second),
    decreases second.len(),
{
    if second.len() == 0 {
        assert(first + second =~= first);
    } else {
        lemma_chain_append(key, first, second.drop_last());
        assert((first + second).drop_last() =~= first + second.drop_last());
        assert((first + second).last() == second.last());
    }
}

/// The cache identifier of a position: its level in the high 64 bits and
/// its index in the low ones.
pub open spec fn pos_id(p: Pos) -> u128 {
    (p.0 as int * 0x1_0000_0000_0000_0000 + p.1 as int) as u128
}

proof fn lemma_pos_id_injective(p: Pos, q: Pos)
    requires
        pos_id(p) == pos_id(q),
    ensures
        p == q,
{
    let b: int = 0x1_0000_0000_0000_0000;
    assert(p.0 as int * b + p.1 as int <= u128::MAX) by (nonlinear_arith)
        requires
            p.0 <= u64::MAX,
            p.1 <= u64::MAX,
            b == 0x1_0000_0000_0000_0000,
    ;
    assert(q.0 as int * b + q.1 as int <= u128::MAX) by (nonlinear_arith)
        requires
            q.0 <= u64::MAX,
            q.1 <= u64::MAX,
            b == 0x1_0000_0000_0000_0000,
    ;
    vstd::arithmetic::div_mod::lemma_fundamental_div_mod_converse(
        p.0 as int * b + p.1 as int,
        b,
        p.0 as int,
        p.1 as int,
    );
    vstd::arithmetic::div_mod::lemma_fundamental_div_mod_converse(
        q.0 as int * b + q.1 as int,
        b,
        q.0 as int,
        q.1 as int,
    );
}

fn pos_id_of(p: Pos) -> (r: u128)
    ensures
        r == pos_id(p),
{
    proof {
        assert(p.0 as int * 0x1_0000_0000_0000_0000 + p.1 as int <= u128::MAX) by (nonlinear_arith)
            requires
                p.0 <= u64::MAX,
                p.1 <= u64::MAX,
        ;
    }
    (p.0 as u128) * 0x1_0000_0000_0000_0000u128 + (p.1 as u128)
}

/// A seed key bound to a position.
#[derive(Clone, Copy)]
pub struct Node {
    pub pos: Pos,
    pub key: Key,
}

impl Node {
    /// The key of the descendant at `target`.
    pub open spec fn key_at(&self, t: &Topology, target: Pos) -> Seq<u8> {
        chain(self.key@, t.path_seq(self.pos.0 as int, target))
    }

    /// A node for the whole domain with the given seed.
    pub fn new(key: Key) -> (r: Self)
        ensures
            r.pos == (0u64, 0u64),
            r.key == key,
    {
        Self { pos: (0, 0), key }
    }

    /// A node for the whole domain with a random seed.
    pub fn with_rng(rng: &mut rand::rngs::StdRng) -> (r: Self)
        ensures
            r.pos == (0u64, 0u64),
    {
        Self::new(random_key(rng))
    }

    /// A node at `pos` with the given seed.
    pub fn with_pos(pos: Pos, key: Key) -> (r: Self)
        ensures
            r.pos == pos,
            r.key == key,
    {
        Self { pos, key }
    }

    /// The key of the descendant at `pos`: the seed itself at the node's own
    /// position, else the hash chain down the path to `pos`.
    pub fn derive(&self, topology: &Topology, pos: Pos) -> (r: Key)
        requires
            topology.wf(),
            pos.0 < topology.height_spec(),
            topology.pstart(pos) <= u64::MAX,
        ensures
            r@ == self.key_at(topology, pos),
    {
        if self.pos.0 == pos.0 && self.pos.1 == pos.1 {
            return self.key;
        }
        let ghost full = topology.path_seq(self.pos.0 as int, pos);
        let mut path = topology.path(self.pos, pos);
        let mut key = self.key;
        let ghost mut done: Seq<Pos> = Seq::empty();
        loop
            invariant
                topology.wf(),
                path.wf(),
                path.topology() == topology,
                done + path.remaining() == full,
                key@ == chain(self.key@, done),
            ensures
                key@ == chain(self.key@, full),
            decreases path.remaining().len(),
        {
            let ghost rem = path.remaining();
            match path.next() {
                Some(p) => {
                    proof {
                        assert(done.push(p).drop_last() =~= done);
                        assert(done.push(p) + path.remaining() =~= done + rem);
                        done = done.push(p);
                    }
                    key = hash_child(&key, p);
                },
                None => {
                    proof {
                        assert(done =~= full);
                    }
                    break ;
                },
            }
        }
        key
    }

    /// The nodes of the minimal covering of `[start, end)` by subtrees of
    /// level at least `level`, each with its key derived from this node.
    pub fn coverage(&self, topology: &Topology, level: u64, start: u64, end: u64) -> (r: Vec<Node>)
        requires
            topology.wf(),
            1 <= level < topology.height_spec(),
        ensures
            r@.len() == topology.cover_seq(level as int, start as int, end as int).len(),
            forall|i: int|
                0 <= i < r@.len() ==> (#[trigger] r@[i]).pos == topology.cover_seq(
                    level as int,
                    start as int,
                    end as int,
                )[i] && r@[i].key@ == self.key_at(topology, r@[i].pos),
    {
        let ghost full = topology.cover_seq(level as int, start as int, end as int);
        if start <= end {
            proof {
                topology.lemma_cover_tiles(level as int, start as int, end as int);
            }
        }
        let mut it = topology.leveled_coverage(level, start, end);
        let mut out: Vec<Node> = Vec::new();
        loop
            invariant
                topology.wf(),
                1 <= level < topology.height_spec(),
                it.wf(),
                it.topology() == topology,
                out@.len() + it.remaining().len() == full.len(),
                it.remaining() == full.subrange(out@.len() as int, full.len() as int),
                forall|i: int|
                    0 <= i < out@.len() ==> (#[trigger] out@[i]).pos == full[i] && out@[i].key@
                        == self.key_at(topology, out@[i].pos),
                full.len() > 0 ==> start <= end,
                start <= end ==> topology.tiles(full, start as int, end as int),
            ensures
                out@.len() == full.len(),
                forall|i: int|
                    0 <= i < out@.len() ==> (#[trigger] out@[i]).pos == full[i] && out@[i].key@
                        == self.key_at(topology, out@[i].pos),
            decreases it.remaining().len(),
        {
            let ghost rem = it.remaining();
            match it.next() {
                Some(pos) => {
                    proof {
                        let k = out@.len() as int;
                        assert(rem[0] == full[k]);
                        assert(topology.is_block(full[k]));
                        assert(it.remaining() =~= full.subrange(k + 1, full.len() as int));
                    }
                    let key = self.derive(topology, pos);
                    out.push(Node { pos, key });
                },
                None => {
                    assert(out@.len() == full.len());
                    break ;
                },
            }
        }
        out
    }

    /// Every key held in `cache` is the key this node derives for the
    /// position it is held under.
    pub open spec fn cache_sound(&self, t: &Topology, cache: Map<u128, Key>) -> bool {
        forall|p: Pos| #[trigger] cache.contains_key(pos_id(p)) ==> cache[pos_id(p)]@ == self.key_at(t, p)
    }

    /// The prefix of the path down to `pos` that ends at level `p.0` is the
    /// path down to the node `p` on it.
    proof fn lemma_path_prefix(&self, t: &Topology, pos: Pos, done: Seq<Pos>, p: Pos)
        requires
            t.wf(),
            pos.0 < t.height_spec(),
            t.pstart(pos) <= u64::MAX,
            self.pos.0 < pos.0,
            done + seq![p] + t.path_seq(p.0 as int, pos) == t.path_seq(self.pos.0 as int, pos),
            done.len() == p.0 - self.pos.0 - 1,
        ensures
            done.push(p) == t.path_seq(self.pos.0 as int, p),
    {
        let full = t.path_seq(self.pos.0 as int, pos);
        let k = done.len() as int;
        assert(full[k] == p);
        let m = p.0 as int;
        let x = t.pstart(pos);
        assert(x >= 0) by (nonlinear_arith)
            requires
                x == if pos.0 == 0 { 0 } else { pos.1 * t.desc(pos.0 as int) },
                t.desc(pos.0 as int) >= 0,
        ;
        assert(t.desc(m) >= 1);
        vstd::arithmetic::div_mod::lemma_fundamental_div_mod(x, t.desc(m));
        vstd::arithmetic::div_mod::lemma_mod_multiples_basic(p.1 as int, t.desc(m));
        let y = t.pstart(p);
        assert(y == (x / t.desc(m)) * t.desc(m));
        assert(0 <= y <= x < y + t.desc(m)) by (nonlinear_arith)
            requires
                y == (x / t.desc(m)) * t.desc(m),
                x == t.desc(m) * (x / t.desc(m)) + x % t.desc(m),
                0 <= x % t.desc(m) < t.desc(m),
                x >= 0,
        ;
        let a = done.push(p);
        let b = t.path_seq(self.pos.0 as int, p);
        assert forall|i: int| 0 <= i < a.len() implies a[i] == b[i] by {
            let l = self.pos.0 + 1 + i;
            assert(a[i] == full[i]);
            t.lemma_same_ancestor(x, y, l, m);
        }
        assert(a =~= b);
    }

    fn derive_with(&self, topology: &Topology, pos: Pos, cache: &mut HashMap<u128, Key>, store: bool) -> (r: Key)
        requires
            topology.wf(),
            pos.0 < topology.height_spec(),
            topology.pstart(pos) <= u64::MAX,
            self.cache_sound(topology, old(cache)@),
        ensures
            r@ == self.key_at(topology, pos),
            self.cache_sound(topology, final(cache)@),
            !store ==> final(cache)@ == old(cache)@,
            old(cache)@.submap_of(final(cache)@),
            forall|id: u128|
                #[trigger] final(cache)@.contains_key(id) && !old(cache)@.contains_key(id) ==> exists|i: int|
                    0 <= i < topology.path_seq(self.pos.0 as int, pos).len() && id == pos_id(
                        topology.path_seq(self.pos.0 as int, pos)[i],
                    ),
    {
        if self.pos.0 == pos.0 && self.pos.1 == pos.1 {
            return self.key;
        }
        let ghost full = topology.path_seq(self.pos.0 as int, pos);
        let mut path = topology.path(self.pos, pos);
        let mut key = self.key;
        let ghost mut done: Seq<Pos> = Seq::empty();
        loop
            invariant
                topology.wf(),
                pos.0 < topology.height_spec(),
                topology.pstart(pos) <= u64::MAX,
                path.wf(),
                path.topology() == topology,
                done + path.remaining() == full,
                full == topology.path_seq(self.pos.0 as int, pos),
                key@ == chain(self.key@, done),
                self.cache_sound(topology, cache@),
                !store ==> cache@ == old(cache)@,
                old(cache)@.submap_of(cache@),
                forall|id: u128|
                    #[trigger] cache@.contains_key(id) && !old(cache)@.contains_key(id) ==> exists|i: int|
                        0 <= i < full.len() && id == pos_id(full[i]),
            ensures
                key@ == chain(self.key@, full),
                self.cache_sound(topology, cache@),
                !store ==> cache@ == old(cache)@,
                old(cache)@.submap_of(cache@),
                forall|id: u128|
                    #[trigger] cache@.contains_key(id) && !old(cache)@.contains_key(id) ==> exists|i: int|
                        0 <= i < full.len() && id == pos_id(full[i]),
            decreases path.remaining().len(),
        {
            let ghost rem = path.remaining();
            match path.next() {
                Some(p) => {
                    proof {
                        assert(done.push(p).drop_last() =~= done);
                        assert(done.push(p) + path.remaining() =~= done + rem);
                        assert(rem =~= seq![p] + path.remaining());
                        assert(done + seq![p] + path.remaining() =~= full);
                        let k = done.len() as int;
                        assert(full[k] == rem[0]);
                        assert(p.0 == self.pos.0 + 1 + done.len());
                        assert(path.remaining() =~= full.subrange(k + 1, full.len() as int)) by {
                            assert forall|i: int| 0 <= i < path.remaining().len() implies path.remaining()[i] == full[k + 1 + i] by {
                                assert(path.remaining()[i] == rem[i + 1]);
                                assert((done + rem)[k + 1 + i] == rem[i + 1]);
                            }
                        }
                        assert(topology.path_seq(p.0 as int, pos) =~= full.subrange(k + 1, full.len() as int));
                        self.lemma_path_prefix(topology, pos, done, p);
                        done = done.push(p);
                    }
                    let id = pos_id_of(p);
                    match cache.get(&id) {
                        Some(cached) => {
                            key = *cached;
                        },
                        None => {
                            key = hash_child(&key, p);
                            if store {
                                let ghost before = cache@;
                                cache.insert(id, key);
                                proof {
                                    assert(full[done.len() - 1] == p);
                                    assert forall|j: u128|
                                        #[trigger] cache@.contains_key(j) && !old(cache)@.contains_key(j) implies exists|i: int|
                                            0 <= i < full.len() && j == pos_id(full[i]) by {
                                        if j == id {
                                            assert(0 <= done.len() - 1 < full.len() && j == pos_id(full[done.len() - 1]));
                                        } else {
                                            assert(before.contains_key(j));
                                        }
                                    }
                                    assert(old(cache)@.submap_of(cache@)) by {
                                        assert forall|j: u128| #[trigger] old(cache)@.contains_key(j) implies cache@.contains_key(j) && cache@[j] == old(cache)@[j] by {
                                            if j == id {
                                                assert(before.contains_key(j));
                                            }
                                        }
                                    }
                                    assert forall|q: Pos| #[trigger] cache@.contains_key(pos_id(q)) implies cache@[pos_id(q)]@ == self.key_at(topology, q) by {
                                        if pos_id(q) == id {
                                            lemma_pos_id_injective(q, p);
                                        }
                                    }
                                }
                            }
                        },
                    }
                },
                None => {
                    proof {
                        assert(done =~= full);
                    }
                    break ;
                },
            }
        }
        key
    }

    fn coverage_with(
        &self,
        topology: &Topology,
        level: u64,
        start: u64,
        end: u64,
        cache: &mut HashMap<u128, Key>,
        store: bool,
    ) -> (r: Vec<Node>)
        requires
            topology.wf(),
            1 <= level < topology.height_spec(),
            self.cache_sound(topology, old(cache)@),
        ensures
            self.cache_sound(topology, final(cache)@),
            !store ==> final(cache)@ == old(cache)@,
            old(cache)@.submap_of(final(cache)@),
            r@.len() == topology.cover_seq(level as int, start as int, end as int).len(),
            forall|i: int|
                0 <= i < r@.len() ==> (#[trigger] r@[i]).pos == topology.cover_seq(
                    level as int,
                    start as int,
                    end as int,
                )[i] && r@[i].key@ == self.key_at(topology, r@[i].pos),
    {
        let ghost full = topology.cover_seq(level as int, start as int, end as int);
        if start <= end {
            proof {
                topology.lemma_cover_tiles(level as int, start as int, end as int);
            }
        }
        let mut it = topology.leveled_coverage(level, start, end);
        let mut out: Vec<Node> = Vec::new();
        loop
            invariant
                topology.wf(),
                1 <= level < topology.height_spec(),
                it.wf(),
                it.topology() == topology,
                out@.len() + it.remaining().len() == full.len(),
                it.remaining() == full.subrange(out@.len() as int, full.len() as int),
                forall|i: int|
                    0 <= i < out@.len() ==> (#[trigger] out@[i]).pos == full[i] && out@[i].key@
                        == self.key_at(topology, out@[i].pos),
                full.len() > 0 ==> start <= end,
                start <= end ==> topology.tiles(full, start as int, end as int),
                self.cache_sound(topology, cache@),
                !store ==> cache@ == old(cache)@,
                old(cache)@.submap_of(cache@),
            ensures
                self.cache_sound(topology, cache@),
                !store ==> cache@ == old(cache)@,
                old(cache)@.submap_of(cache@),
                out@.len() == full.len(),
                forall|i: int|
                    0 <= i < out@.len() ==> (#[trigger] out@[i]).pos == full[i] && out@[i].key@
                        == self.key_at(topology, out@[i].pos),
            decreases it.remaining().len(),
        {
            let ghost rem = it.remaining();
            match it.next() {
                Some(pos) => {
                    proof {
                        let k = out@.len() as int;
                        assert(rem[0] == full[k]);
                        assert(topology.is_block(full[k]));
                        assert(it.remaining() =~= full.subrange(k + 1, full.len() as int));
                    }
                    let ghost c0 = cache@;
                    let key = self.derive_with(topology, pos, cache, store);
                    proof {
                        assert forall|j: u128| #[trigger] old(cache)@.contains_key(j) implies cache@.contains_key(j)
                            && cache@[j] == old(cache)@[j] by {
                            assert(c0.contains_key(j));
                        }
                        assert(old(cache)@.submap_of(cache@));
                    }
                    out.push(Node { pos, key });
                },
                None => {
                    assert(out@.len() == full.len());
                    break ;
                },
            }
        }
        out
    }

    /// The nodes of the minimal covering of `[start, end)` by subtrees of
    /// level at least `level`, each with its key derived from this node,
    /// using and filling `cache` as `derive_and_cache` does.
    pub fn coverage_and_cache(
        &self,
        topology: &Topology,
        level: u64,
        start: u64,
        end: u64,
        cache: &mut HashMap<u128, Key>,
    ) -> (r: Vec<Node>)
        requires
            topology.wf(),
            1 <= level < topology.height_spec(),
            self.cache_sound(topology, old(cache)@),
        ensures
            self.cache_sound(topology, final(cache)@),
            old(cache)@.submap_of(final(cache)@),
            r@.len() == topology.cover_seq(level as int, start as int, end as int).len(),
            forall|i: int|
                0 <= i < r@.len() ==> (#[trigger] r@[i]).pos == topology.cover_seq(
                    level as int,
                    start as int,
                    end as int,
                )[i] && r@[i].key@ == self.key_at(topology, r@[i].pos),
    {
        self.coverage_with(topology, level, start, end, cache, true)
    }

    /// The nodes of the minimal covering of `[start, end)` by subtrees of
    /// level at least `level`, each with its key derived from this node,
    /// using `cache` as `derive_cached` does.
    pub fn coverage_cached(
        &self,
        topology: &Topology,
        level: u64,
        start: u64,
        end: u64,
        cache: &HashMap<u128, Key>,
    ) -> (r: Vec<Node>)
        requires
            topology.wf(),
            1 <= level < topology.height_spec(),
            self.cache_sound(topology, cache@),
        ensures
            r@.len() == topology.cover_seq(level as int, start as int, end as int).len(),
            forall|i: int|
                0 <= i < r@.len() ==> (#[trigger] r@[i]).pos == topology.cover_seq(
                    level as int,
                    start as int,
                    end as int,
                )[i] && r@[i].key@ == self.key_at(topology, r@[i].pos),
    {
        let mut scratch = cache.clone();
        proof {
            assert(scratch@ == cache@);
        }
        self.coverage_with(topology, level, start, end, &mut scratch, false)
    }

    /// The key of the descendant at `pos`, taking from `cache` the key of any
    /// position on the way that it holds, and storing there the keys it
    /// computes.
    pub fn derive_and_cache(&self, topology: &Topology, pos: Pos, cache: &mut HashMap<u128, Key>) -> (r: Key)
        requires
            topology.wf(),
            pos.0 < topology.height_spec(),
            topology.pstart(pos) <= u64::MAX,
            self.cache_sound(topology, old(cache)@),
        ensures
            r@ == self.key_at(topology, pos),
            self.cache_sound(topology, final(cache)@),
            old(cache)@.submap_of(final(cache)@),
            forall|id: u128|
                #[trigger] final(cache)@.contains_key(id) && !old(cache)@.contains_key(id) ==> exists|i: int|
                    0 <= i < topology.path_seq(self.pos.0 as int, pos).len() && id == pos_id(
                        topology.path_seq(self.pos.0 as int, pos)[i],
                    ),
    {
        self.derive_with(topology, pos, cache, true)
    }

    /// The key of the descendant at `pos`, taking from `cache` the key of any
    /// position on the way that it holds.
    pub fn derive_cached(&self, topology: &Topology, pos: Pos, cache: &HashMap<u128, Key>) -> (r: Key)
        requires
            topology.wf(),
            pos.0 < topology.height_spec(),
            topology.pstart(pos) <= u64::MAX,
            self.cache_sound(topology, cache@),
        ensures
            r@ == self.key_at(topology, pos),
    {
        let mut scratch = cache.clone();
        proof {
            assert(scratch@ == cache@);
        }
        self.derive_with(topology, pos, &mut scratch, false)
    }
}

} // verus!
