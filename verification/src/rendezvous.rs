//! Rendezvous hashing, also called highest random weight: every node gets a
//! score from the key and from itself, and the key goes to the node with the
//! highest score.
//!
//! A score is the digest of the key's bytes followed by the node's bytes, from
//! a hasher that the selector builds for that one score. Nothing is kept
//! between calls, so taking a node away moves only the keys that were its own.
//!
//! Among nodes with the same score the one that stands first in the list wins,
//! in the choice and in the ranking alike.

use crate::hasher::{BuildStreamHasher, HashInput, StreamHasher};
use std::marker::PhantomData;
use vstd::prelude::*;

verus! {

/// The score of a node for a key, from a hasher that starts in `start`: the
/// key's bytes are written, then the node's.
pub open spec fn score_spec<H: StreamHasher>(start: H::State, key: Seq<u8>, node: Seq<u8>) -> u64 {
    H::digest(H::absorb(H::absorb(start, key), node))
}

/// The score is the hash of the key's bytes with the node's bytes behind them.
pub proof fn lemma_score_hashes_concatenation<H: StreamHasher>(
    start: H::State,
    key: Seq<u8>,
    node: Seq<u8>,
)
    ensures
        score_spec::<H>(start, key, node) == H::digest(H::absorb(start, key + node)),
{
    H::absorb_concat(start, key, node);
}

/// Node `i` comes before node `j`: its score is higher, or the scores are the
/// same and it stands earlier in the list.
pub open spec fn outranks(scores: Seq<u64>, i: int, j: int) -> bool {
    scores[i] > scores[j] || (scores[i] == scores[j] && i < j)
}

/// Node `i` comes before every other node.
pub open spec fn is_best(scores: Seq<u64>, i: int) -> bool {
    &&& 0 <= i < scores.len()
    &&& forall|j: int| 0 <= j < scores.len() && j != i ==> outranks(scores, i, j)
}

/// The node that comes before every other: the first of those with the
/// highest score. It exists wherever there is a node.
pub open spec fn best_index(scores: Seq<u64>) -> int {
    choose|i: int| is_best(scores, i)
}

/// `order` lists positions in the node list, best first: as many as there are
/// nodes, each before all that follow it.
pub open spec fn is_ranking(scores: Seq<u64>, order: Seq<int>) -> bool {
    &&& order.len() == scores.len()
    &&& forall|p: int| 0 <= p < order.len() ==> 0 <= #[trigger] order[p] < scores.len()
    &&& forall|p: int, q: int|
        0 <= p < q < order.len() ==> outranks(scores, #[trigger] order[p], #[trigger] order[q])
}

/// The positions of all nodes, by descending score, nodes with the same score
/// in the order of the list.
pub open spec fn ranking(scores: Seq<u64>) -> Seq<int> {
    choose|order: Seq<int>| is_ranking(scores, order)
}

/// The first of the nodes with the highest score among the first `upto`.
proof fn lemma_first_max(scores: Seq<u64>, upto: int) -> (i: int)
    requires
        0 < upto <= scores.len(),
    ensures
        0 <= i < upto,
        forall|j: int| 0 <= j < upto && j != i ==> outranks(scores, i, j),
    decreases upto,
{
    if upto == 1 {
        0
    } else {
        let before = lemma_first_max(scores, upto - 1);
        let i = if scores[upto - 1] > scores[before] {
            upto - 1
        } else {
            before
        };
        assert forall|j: int| 0 <= j < upto && j != i implies outranks(scores, i, j) by {
            if j < upto - 1 && j != before {
                assert(outranks(scores, before, j));
            }
        }
        i
    }
}

/// Wherever there is a node, one comes before every other, and `best_index`
/// is that one: no node has a higher score, and none with the same score
/// stands earlier.
pub proof fn lemma_best_index_is_best(scores: Seq<u64>)
    requires
        scores.len() > 0,
    ensures
        is_best(scores, best_index(scores)),
{
    let i = lemma_first_max(scores, scores.len() as int);
    assert(is_best(scores, i));
}

/// Only one node comes before every other.
pub proof fn lemma_best_is_unique(scores: Seq<u64>, i: int, j: int)
    requires
        is_best(scores, i),
        is_best(scores, j),
    ensures
        i == j,
{
    if i != j {
        assert(outranks(scores, i, j));
        assert(outranks(scores, j, i));
    }
}

/// The place that node `i` has once node `removed` has left the list.
pub open spec fn place_without(removed: int, i: int) -> int {
    if i < removed {
        i
    } else {
        i - 1
    }
}

/// Minimal disruption: where a node leaves that was not the best, the best
/// stays the best. Only the keys of the node that left go elsewhere.
pub proof fn lemma_removal_keeps_the_best(scores: Seq<u64>, removed: int)
    requires
        0 <= removed < scores.len(),
        removed != best_index(scores),
    ensures
        best_index(scores.remove(removed)) == place_without(removed, best_index(scores)),
{
    lemma_best_index_is_best(scores);
    let best = best_index(scores);
    let left = scores.remove(removed);
    let moved = place_without(removed, best);
    assert(is_best(left, moved)) by {
        assert forall|j: int| 0 <= j < left.len() && j != moved implies outranks(left, moved, j) by {
            let from = if j < removed {
                j
            } else {
                j + 1
            };
            assert(left[j] == scores[from]);
            assert(left[moved] == scores[best]);
            assert(outranks(scores, best, from));
        }
    }
    lemma_best_index_is_best(left);
    lemma_best_is_unique(left, moved, best_index(left));
}

/// Minimal disruption, the other way: where a node joins at the end of the
/// list and does not score higher than the best, the best stays the best.
pub proof fn lemma_addition_keeps_the_best(scores: Seq<u64>, added: u64)
    requires
        scores.len() > 0,
        added <= scores[best_index(scores)],
    ensures
        best_index(scores.push(added)) == best_index(scores),
{
    lemma_best_index_is_best(scores);
    let best = best_index(scores);
    let more = scores.push(added);
    assert(is_best(more, best)) by {
        assert forall|j: int| 0 <= j < more.len() && j != best implies outranks(more, best, j) by {
            if j < scores.len() {
                assert(outranks(scores, best, j));
            }
        }
    }
    lemma_best_index_is_best(more);
    lemma_best_is_unique(more, best, best_index(more));
}

/// `order` lists positions below `bound`, each before all that follow it.
spec fn is_sorted_below(scores: Seq<u64>, order: Seq<int>, bound: int) -> bool {
    &&& forall|p: int| 0 <= p < order.len() ==> 0 <= #[trigger] order[p] < bound
    &&& forall|p: int, q: int|
        0 <= p < q < order.len() ==> outranks(scores, #[trigger] order[p], #[trigger] order[q])
}

/// Where node `node` stands higher in the list than all of `order`, it has a
/// place in `order`: behind the nodes whose score is not lower than its own.
proof fn lemma_insert(scores: Seq<u64>, order: Seq<int>, node: int) -> (grown: Seq<int>)
    requires
        0 <= node < scores.len(),
        is_sorted_below(scores, order, node),
    ensures
        grown.len() == order.len() + 1,
        is_sorted_below(scores, grown, node + 1),
        forall|q: int|
            0 <= q < grown.len() ==> #[trigger] grown[q] == node || order.contains(grown[q]),
    decreases order.len(),
{
    if order.len() == 0 || scores[order.last()] >= scores[node] {
        let grown = order.push(node);
        assert forall|p: int, q: int| 0 <= p < q < grown.len() implies outranks(
            scores,
            #[trigger] grown[p],
            #[trigger] grown[q],
        ) by {
            if q == order.len() {
                assert(grown[p] == order[p]);
                if p < order.len() - 1 {
                    assert(outranks(scores, order[p], order[order.len() - 1]));
                }
            } else {
                assert(grown[p] == order[p] && grown[q] == order[q]);
            }
        }
        assert forall|q: int| 0 <= q < grown.len() implies #[trigger] grown[q] == node
            || order.contains(grown[q]) by {
            if q < order.len() {
                assert(order[q] == grown[q]);
            }
        }
        grown
    } else {
        let last = order.last();
        let front = order.drop_last();
        assert(is_sorted_below(scores, front, node)) by {
            assert forall|p: int| 0 <= p < front.len() implies 0 <= #[trigger] front[p] < node by {
                assert(front[p] == order[p]);
            }
            assert forall|p: int, q: int| 0 <= p < q < front.len() implies outranks(
                scores,
                #[trigger] front[p],
                #[trigger] front[q],
            ) by {
                assert(front[p] == order[p] && front[q] == order[q]);
            }
        }
        let inner = lemma_insert(scores, front, node);
        let grown = inner.push(last);
        assert forall|p: int| 0 <= p < grown.len() implies 0 <= #[trigger] grown[p] < node + 1 by {
            if p < inner.len() {
                assert(grown[p] == inner[p]);
            } else {
                assert(grown[p] == order[order.len() - 1]);
            }
        }
        assert forall|p: int, q: int| 0 <= p < q < grown.len() implies outranks(
            scores,
            #[trigger] grown[p],
            #[trigger] grown[q],
        ) by {
            if q == inner.len() {
                assert(grown[p] == inner[p]);
                if inner[p] != node {
                    assert(front.contains(inner[p]));
                    let k = choose|k: int| 0 <= k < front.len() && front[k] == inner[p];
                    assert(order[k] == front[k]);
                    assert(outranks(scores, order[k], order[order.len() - 1]));
                }
            } else {
                assert(grown[p] == inner[p] && grown[q] == inner[q]);
            }
        }
        assert forall|q: int| 0 <= q < grown.len() implies #[trigger] grown[q] == node
            || order.contains(grown[q]) by {
            if q < inner.len() {
                assert(grown[q] == inner[q]);
                if inner[q] != node {
                    let k = choose|k: int| 0 <= k < front.len() && front[k] == inner[q];
                    assert(order[k] == front[k]);
                }
            } else {
                assert(order[order.len() - 1] == grown[q]);
            }
        }
        grown
    }
}

/// The first `upto` nodes, ranked.
proof fn lemma_rank_first(scores: Seq<u64>, upto: int) -> (order: Seq<int>)
    requires
        0 <= upto <= scores.len(),
    ensures
        order.len() == upto,
        is_sorted_below(scores, order, upto),
    decreases upto,
{
    if upto == 0 {
        Seq::empty()
    } else {
        let before = lemma_rank_first(scores, upto - 1);
        lemma_insert(scores, before, upto - 1)
    }
}

/// Every list of nodes has a ranking, and `ranking` is one.
pub proof fn lemma_ranking_is_ranking(scores: Seq<u64>)
    ensures
        is_ranking(scores, ranking(scores)),
{
    let order = lemma_rank_first(scores, scores.len() as int);
    assert(is_ranking(scores, order));
}

/// A ranking names no node twice.
pub proof fn lemma_ranking_has_no_duplicates(scores: Seq<u64>, order: Seq<int>)
    requires
        is_ranking(scores, order),
    ensures
        order.no_duplicates(),
{
    assert forall|p: int, q: int| 0 <= p < order.len() && 0 <= q < order.len() && p != q implies order[p]
        != order[q] by {
        if p < q {
            assert(outranks(scores, order[p], order[q]));
        } else {
            assert(outranks(scores, order[q], order[p]));
        }
    }
}

/// A ranking names every node: with no node twice, as many places as nodes
/// leave none out.
pub proof fn lemma_ranking_names_every_node(scores: Seq<u64>, order: Seq<int>, node: int)
    requires
        is_ranking(scores, order),
        0 <= node < scores.len(),
    ensures
        order.contains(node),
{
    lemma_ranking_has_no_duplicates(scores, order);
    let named = order.to_set();
    let all = vstd::set_lib::set_int_range(0, scores.len() as int);
    order.unique_seq_to_set();
    vstd::set_lib::lemma_int_range(0, scores.len() as int);
    assert(named.subset_of(all)) by {
        assert forall|i: int| named.contains(i) implies all.contains(i) by {
            let p = choose|p: int| 0 <= p < order.len() && order[p] == i;
            assert(0 <= order[p] < scores.len());
        }
    }
    vstd::set_lib::lemma_len_subset(named, all);
    vstd::set_lib::lemma_subset_equality(named, all);
    assert(all.contains(node));
    assert(named.contains(node));
}

/// The nodes have one ranking only: score and place in the list settle every
/// pair.
pub proof fn lemma_ranking_is_unique(scores: Seq<u64>, a: Seq<int>, b: Seq<int>)
    requires
        is_ranking(scores, a),
        is_ranking(scores, b),
    ensures
        a == b,
{
    assert forall|p: int| 0 <= p < a.len() implies a[p] == b[p] by {
        lemma_same_place(scores, a, b, p);
    }
    assert(a =~= b);
}

/// Two rankings agree at place `p`, as they do at every place before it.
proof fn lemma_same_place(scores: Seq<u64>, a: Seq<int>, b: Seq<int>, p: int)
    requires
        is_ranking(scores, a),
        is_ranking(scores, b),
        0 <= p < a.len(),
    ensures
        a[p] == b[p],
    decreases p,
{
    assert forall|q: int| 0 <= q < p implies a[q] == b[q] by {
        lemma_same_place(scores, a, b, q);
    }
    lemma_ranking_has_no_duplicates(scores, a);
    lemma_ranking_has_no_duplicates(scores, b);
    lemma_ranking_names_every_node(scores, b, a[p]);
    lemma_ranking_names_every_node(scores, a, b[p]);
    let r = choose|r: int| 0 <= r < b.len() && b[r] == a[p];
    let s = choose|s: int| 0 <= s < a.len() && a[s] == b[p];
    if r < p {
        assert(a[r] == b[r]);
    }
    if s < p {
        assert(a[s] == b[s]);
    }
    if r > p && s > p {
        assert(outranks(scores, b[p], b[r]));
        assert(outranks(scores, a[p], a[s]));
    }
}

/// The ranking begins with the node that `best_index` names: what is chosen
/// for a key is what is ranked first for it.
pub proof fn lemma_ranking_starts_with_best(scores: Seq<u64>)
    requires
        scores.len() > 0,
    ensures
        ranking(scores)[0] == best_index(scores),
{
    lemma_ranking_is_ranking(scores);
    lemma_best_index_is_best(scores);
    let order = ranking(scores);
    assert(is_best(scores, order[0])) by {
        assert forall|j: int| 0 <= j < scores.len() && j != order[0] implies outranks(
            scores,
            order[0],
            j,
        ) by {
            lemma_ranking_names_every_node(scores, order, j);
            let q = choose|q: int| 0 <= q < order.len() && order[q] == j;
            assert(outranks(scores, order[0], order[q]));
        }
    }
    lemma_best_is_unique(scores, order[0], best_index(scores));
}

/// A selector of nodes by rendezvous hashing, over the hashers that
/// `build_hasher` makes.
#[derive(Debug)]
#[verifier::reject_recursive_types(H)]
pub struct RendezvousHasher<H, B> where H: StreamHasher, B: BuildStreamHasher<Hasher = H> {
    build_hasher: B,
    _marker: PhantomData<H>,
}

impl<H, B> RendezvousHasher<H, B> where H: StreamHasher, B: BuildStreamHasher<Hasher = H> {
    /// The maker of hashers that this selector was given.
    pub closed spec fn builder(&self) -> B {
        self.build_hasher
    }

    /// The score of `node` for `key`.
    pub open spec fn score<K: HashInput, N: HashInput>(&self, key: &K, node: &N) -> u64 {
        score_spec::<H>(self.builder().start(), key.encoding(), node.encoding())
    }

    /// The scores of `nodes` for `key`, in the order of the list.
    pub open spec fn scores<K: HashInput, N: HashInput>(&self, key: &K, nodes: Seq<N>) -> Seq<u64> {
        Seq::new(nodes.len(), |i: int| self.score(key, &nodes[i]))
    }

    /// A node's score depends on the key and on the node alone: the scores
    /// of a list without one node are the scores of the list without that
    /// node's score.
    pub proof fn lemma_scores_without_a_node<K: HashInput, N: HashInput>(
        &self,
        key: &K,
        nodes: Seq<N>,
        removed: int,
    )
        requires
            0 <= removed < nodes.len(),
        ensures
            self.scores(key, nodes.remove(removed)) == self.scores(key, nodes).remove(removed),
    {
        assert(self.scores(key, nodes.remove(removed)) =~= self.scores(key, nodes).remove(removed));
    }

    /// Minimal disruption: where a node leaves the list that `key` did not go
    /// to, `key` still goes to the node it went to before.
    pub proof fn lemma_removal_keeps_the_choice<K: HashInput, N: HashInput>(
        &self,
        key: &K,
        nodes: Seq<N>,
        removed: int,
    )
        requires
            0 <= removed < nodes.len(),
            removed != best_index(self.scores(key, nodes)),
        ensures
            nodes.remove(removed)[best_index(self.scores(key, nodes.remove(removed)))]
                == nodes[best_index(self.scores(key, nodes))],
    {
        let scores = self.scores(key, nodes);
        self.lemma_scores_without_a_node(key, nodes, removed);
        lemma_removal_keeps_the_best(scores, removed);
        lemma_best_index_is_best(scores);
    }

    /// A selector over the hashers that `build_hasher` makes.
    pub fn new(build_hasher: B) -> (selector: Self)
        ensures
            selector.builder() == build_hasher,
    {
        Self { build_hasher, _marker: PhantomData }
    }

    /// Computes the score of `node` for `key` with a hasher of its own.
    fn score_of<K: HashInput, N: HashInput>(&self, key: &K, node: &N) -> (score: u64)
        ensures
            score == self.score(key, node),
    {
        let mut hasher = self.build_hasher.build_hasher();
        key.feed(&mut hasher);
        node.feed(&mut hasher);
        hasher.finish()
    }

    /// Computes the scores of all `nodes` for `key`, in the order of the list.
    fn scores_of<K: HashInput, N: HashInput>(&self, key: &K, nodes: &[N]) -> (held: Vec<u64>)
        ensures
            held@ == self.scores(key, nodes@),
    {
        let count = nodes.len();
        let ghost scores = self.scores(key, nodes@);
        let mut held: Vec<u64> = Vec::new();
        let mut i: usize = 0;
        while i < count
            invariant
                i <= count,
                count == nodes.len(),
                scores == self.scores(key, nodes@),
                held@.len() == i,
                forall|j: int| 0 <= j < i ==> held@[j] == scores[j],
            decreases count - i,
        {
            let score = self.score_of(key, &nodes[i]);
            held.push(score);
            i += 1;
        }
        assert(held@ =~= scores);
        held
    }

    /// The position of the node that `key` goes to: the first of those with
    /// the highest score. `None` if and only if there is no node.
    pub fn select_index<K: HashInput, N: HashInput>(&self, key: &K, nodes: &[N]) -> (chosen: Option<
        usize,
    >)
        ensures
            nodes.len() == 0 ==> chosen is None,
            nodes.len() > 0 ==> chosen == Some(best_index(self.scores(key, nodes@)) as usize),
    {
        let held = self.scores_of(key, nodes);
        best_by_scores(held.as_slice())
    }

    /// The node that `key` goes to: the first of those with the highest
    /// score. `None` if and only if there is no node.
    pub fn select<'a, K: HashInput, N: HashInput>(&self, key: &K, nodes: &'a [N]) -> (chosen: Option<
        &'a N,
    >)
        ensures
            nodes.len() == 0 ==> chosen is None,
            nodes.len() > 0 ==> chosen == Some(&nodes@[best_index(self.scores(key, nodes@))]),
    {
        match self.select_index(key, nodes) {
            Some(index) => {
                proof {
                    lemma_best_index_is_best(self.scores(key, nodes@));
                }
                Some(&nodes[index])
            },
            None => None,
        }
    }

    /// The positions of all nodes by descending score for `key`, nodes with
    /// the same score in the order of the list.
    pub fn rank_indices<K: HashInput, N: HashInput>(&self, key: &K, nodes: &[N]) -> (order: Vec<
        usize,
    >)
        ensures
            order@.len() == nodes.len(),
            forall|p: int|
                0 <= p < order@.len() ==> order@[p] as int == ranking(self.scores(key, nodes@))[p],
            nodes.len() > 0 ==> order@[0] as int == best_index(self.scores(key, nodes@)),
    {
        let held = self.scores_of(key, nodes);
        let order = rank_by_scores(held.as_slice());
        proof {
            if nodes.len() > 0 {
                lemma_ranking_starts_with_best(held@);
            }
        }
        order
    }

    /// All nodes by descending score for `key`, nodes with the same score in
    /// the order of the list. The first is the node that `select` gives.
    pub fn rank<'a, K: HashInput, N: HashInput>(&self, key: &K, nodes: &'a [N]) -> (ranked: Vec<
        &'a N,
    >)
        ensures
            ranked@.len() == nodes.len(),
            forall|p: int|
                0 <= p < ranked@.len() ==> *ranked@[p] == nodes@[ranking(
                    self.scores(key, nodes@),
                )[p]],
            nodes.len() > 0 ==> *ranked@[0] == nodes@[best_index(self.scores(key, nodes@))],
    {
        let order = self.rank_indices(key, nodes);
        let ghost scores = self.scores(key, nodes@);
        let mut ranked: Vec<&'a N> = Vec::new();
        let mut p: usize = 0;
        proof {
            lemma_ranking_is_ranking(scores);
        }
        while p < order.len()
            invariant
                p <= order@.len(),
                order@.len() == nodes.len(),
                ranked@.len() == p,
                is_ranking(scores, ranking(scores)),
                scores.len() == nodes.len(),
                forall|q: int| 0 <= q < order@.len() ==> order@[q] as int == ranking(scores)[q],
                forall|q: int| 0 <= q < p ==> *ranked@[q] == nodes@[ranking(scores)[q]],
            decreases order@.len() - p,
        {
            let index = order[p];
            assert(0 <= ranking(scores)[p as int] < scores.len());
            ranked.push(&nodes[index]);
            p += 1;
        }
        proof {
            if nodes.len() > 0 {
                lemma_ranking_starts_with_best(scores);
            }
        }
        ranked
    }
}

impl<H, B> Clone for RendezvousHasher<H, B> where
    H: StreamHasher,
    B: BuildStreamHasher<Hasher = H> + Clone,
 {
    /// A selector over a clone of the maker of hashers.
    fn clone(&self) -> (copy: Self)
        ensures
            call_ensures(B::clone, (&self.builder(),), copy.builder()),
    {
        Self { build_hasher: self.build_hasher.clone(), _marker: PhantomData }
    }
}

/// The position of the highest score, the first of them where several are the
/// highest: the node that a key with these scores goes to. `None` if and only
/// if there is no score.
pub fn best_by_scores(scores: &[u64]) -> (chosen: Option<usize>)
    ensures
        scores.len() == 0 ==> chosen is None,
        scores.len() > 0 ==> chosen == Some(best_index(scores@) as usize),
{
    let count = scores.len();
    if count == 0 {
        return None;
    }
    let mut best: usize = 0;
    let mut i: usize = 1;
    while i < count
        invariant
            1 <= i <= count,
            count == scores.len(),
            best < i,
            forall|j: int| 0 <= j < i && j != best ==> outranks(scores@, best as int, j),
        decreases count - i,
    {
        if scores[i] > scores[best] {
            proof {
                assert forall|j: int| 0 <= j < i + 1 && j != i implies outranks(
                    scores@,
                    i as int,
                    j,
                ) by {
                    if j != best {
                        assert(outranks(scores@, best as int, j));
                    }
                }
            }
            best = i;
        }
        i += 1;
    }
    proof {
        assert(is_best(scores@, best as int));
        lemma_best_index_is_best(scores@);
        lemma_best_is_unique(scores@, best as int, best_index(scores@));
    }
    Some(best)
}

/// The places from `lo` up to `hi` of `order` hold nodes from `lo` up to
/// `hi`, each before all that follow it.
pub open spec fn is_run(scores: Seq<u64>, order: Seq<usize>, lo: int, hi: int) -> bool {
    &&& forall|p: int| lo <= p < hi ==> lo <= #[trigger] order[p] < hi
    &&& forall|p: int, q: int|
        lo <= p < q < hi ==> outranks(scores, #[trigger] order[p] as int, #[trigger] order[q] as int)
}

/// Merges the run from `lo` up to `mid` and the run from `mid` up to `hi`
/// into one run, by way of `buffer`. Of two nodes with the same score the one
/// from the left run goes first: it stands earlier in the list.
fn merge_runs(
    scores: &[u64],
    order: &mut Vec<usize>,
    buffer: &mut Vec<usize>,
    lo: usize,
    mid: usize,
    hi: usize,
)
    requires
        lo <= mid <= hi <= scores.len(),
        old(order)@.len() == scores.len(),
        old(buffer)@.len() == scores.len(),
        is_run(scores@, old(order)@, lo as int, mid as int),
        is_run(scores@, old(order)@, mid as int, hi as int),
    ensures
        final(order)@.len() == scores.len(),
        final(buffer)@.len() == scores.len(),
        is_run(scores@, final(order)@, lo as int, hi as int),
        forall|p: int|
            0 <= p < lo || hi <= p < scores.len() ==> final(order)@[p] == old(order)@[p],
{
    let mut i = lo;
    let mut j = mid;
    let mut k = lo;
    while k < hi
        invariant
            lo <= i <= mid <= j <= hi <= scores.len(),
            k == i + (j - mid),
            order@ == old(order)@,
            order@.len() == scores.len(),
            buffer@.len() == scores.len(),
            is_run(scores@, order@, lo as int, mid as int),
            is_run(scores@, order@, mid as int, hi as int),
            forall|p: int| lo <= p < k ==> lo <= #[trigger] buffer@[p] < hi,
            forall|p: int, q: int|
                lo <= p < q < k ==> outranks(
                    scores@,
                    #[trigger] buffer@[p] as int,
                    #[trigger] buffer@[q] as int,
                ),
            forall|p: int, q: int|
                lo <= p < k && i <= q < mid ==> outranks(
                    scores@,
                    #[trigger] buffer@[p] as int,
                    #[trigger] order@[q] as int,
                ),
            forall|p: int, q: int|
                lo <= p < k && j <= q < hi ==> outranks(
                    scores@,
                    #[trigger] buffer@[p] as int,
                    #[trigger] order@[q] as int,
                ),
        decreases hi - k,
    {
        let from_left = if i >= mid {
            false
        } else if j >= hi {
            true
        } else {
            scores[order[i]] >= scores[order[j]]
        };
        let ghost before = buffer@;
        let node = if from_left {
            order[i]
        } else {
            order[j]
        };
        buffer.set(k, node);
        proof {
            assert(forall|p: int| lo <= p < k ==> buffer@[p] == before[p]);
            if from_left {
                assert(lo <= order@[i as int] < mid);
                assert forall|q: int| j <= q < hi implies outranks(
                    scores@,
                    node as int,
                    #[trigger] order@[q] as int,
                ) by {
                    assert(mid <= order@[j as int] < hi);
                    assert(mid <= order@[q] < hi);
                    if q > j {
                        assert(outranks(scores@, order@[j as int] as int, order@[q] as int));
                    }
                }
                assert forall|q: int| i + 1 <= q < mid implies outranks(
                    scores@,
                    node as int,
                    #[trigger] order@[q] as int,
                ) by {
                    assert(outranks(scores@, order@[i as int] as int, order@[q] as int));
                }
            } else {
                assert(mid <= order@[j as int] < hi);
                assert forall|q: int| i <= q < mid implies outranks(
                    scores@,
                    node as int,
                    #[trigger] order@[q] as int,
                ) by {
                    assert(lo <= order@[i as int] < mid);
                    assert(lo <= order@[q] < mid);
                    if q > i {
                        assert(outranks(scores@, order@[i as int] as int, order@[q] as int));
                    }
                }
                assert forall|q: int| j + 1 <= q < hi implies outranks(
                    scores@,
                    node as int,
                    #[trigger] order@[q] as int,
                ) by {
                    assert(outranks(scores@, order@[j as int] as int, order@[q] as int));
                }
            }
        }
        if from_left {
            i += 1;
        } else {
            j += 1;
        }
        k += 1;
    }
    let mut c = lo;
    while c < hi
        invariant
            lo <= c <= hi <= scores.len(),
            old(order)@.len() == scores.len(),
            order@.len() == scores.len(),
            buffer@.len() == scores.len(),
            forall|p: int| lo <= p < c ==> order@[p] == buffer@[p],
            forall|p: int|
                0 <= p < lo || hi <= p < scores.len() ==> order@[p] == old(order)@[p],
        decreases hi - c,
    {
        order.set(c, buffer[c]);
        c += 1;
    }
    proof {
        assert forall|p: int| lo <= p < hi implies lo <= #[trigger] order@[p] < hi by {
            assert(order@[p] == buffer@[p]);
        }
        assert forall|p: int, q: int| lo <= p < q < hi implies outranks(
            scores@,
            #[trigger] order@[p] as int,
            #[trigger] order@[q] as int,
        ) by {
            assert(order@[p] == buffer@[p] && order@[q] == buffer@[q]);
        }
    }
}

/// Sorts the places from `lo` up to `hi` of `order`, each of which holds its
/// own position, into a run: the halves first, then their merge.
fn sort_range(
    scores: &[u64],
    order: &mut Vec<usize>,
    buffer: &mut Vec<usize>,
    lo: usize,
    hi: usize,
)
    requires
        lo <= hi <= scores.len(),
        old(order)@.len() == scores.len(),
        old(buffer)@.len() == scores.len(),
        forall|p: int| lo <= p < hi ==> old(order)@[p] == p,
    ensures
        final(order)@.len() == scores.len(),
        final(buffer)@.len() == scores.len(),
        is_run(scores@, final(order)@, lo as int, hi as int),
        forall|p: int|
            0 <= p < lo || hi <= p < scores.len() ==> final(order)@[p] == old(order)@[p],
    decreases hi - lo,
{
    if hi - lo <= 1 {
        return ;
    }
    let mid = lo + (hi - lo) / 2;
    sort_range(scores, order, buffer, lo, mid);
    let ghost left = order@;
    sort_range(scores, order, buffer, mid, hi);
    proof {
        assert forall|p: int| lo <= p < mid implies lo <= #[trigger] order@[p] < mid by {
            assert(order@[p] == left[p]);
        }
        assert forall|p: int, q: int| lo <= p < q < mid implies outranks(
            scores@,
            #[trigger] order@[p] as int,
            #[trigger] order@[q] as int,
        ) by {
            assert(order@[p] == left[p] && order@[q] == left[q]);
        }
    }
    merge_runs(scores, order, buffer, lo, mid, hi);
}

/// The positions of all scores, highest first, those of equal scores in the
/// order in which they stand: the ranking of nodes with these scores.
pub fn rank_by_scores(scores: &[u64]) -> (order: Vec<usize>)
    ensures
        order@.len() == scores.len(),
        forall|p: int| 0 <= p < order@.len() ==> order@[p] as int == ranking(scores@)[p],
{
    let count = scores.len();
    let mut order: Vec<usize> = Vec::new();
    let mut buffer: Vec<usize> = Vec::new();
    let mut i: usize = 0;
    while i < count
        invariant
            i <= count,
            order@.len() == i,
            buffer@.len() == i,
            forall|p: int| 0 <= p < i ==> order@[p] == p,
        decreases count - i,
    {
        order.push(i);
        buffer.push(i);
        i += 1;
    }
    sort_range(scores, &mut order, &mut buffer, 0, count);
    proof {
        let ranked = order@.map_values(|x: usize| x as int);
        assert(is_ranking(scores@, ranked)) by {
            assert forall|p: int| 0 <= p < ranked.len() implies 0 <= #[trigger] ranked[p]
                < scores@.len() by {
                assert(0 <= order@[p] < count);
            }
            assert forall|p: int, q: int| 0 <= p < q < ranked.len() implies outranks(
                scores@,
                #[trigger] ranked[p],
                #[trigger] ranked[q],
            ) by {
                assert(outranks(scores@, order@[p] as int, order@[q] as int));
            }
        }
        lemma_ranking_is_ranking(scores@);
        lemma_ranking_is_unique(scores@, ranked, ranking(scores@));
        assert forall|p: int| 0 <= p < order@.len() implies order@[p] as int == ranking(
            scores@,
        )[p] by {
            assert(ranked[p] == order@[p] as int);
        }
    }
    order
}

/// A selector over the hashers of the default maker of its kind.
pub fn with_default_hasher<H, B>() -> (selector: RendezvousHasher<H, B>) where
    H: StreamHasher,
    B: BuildStreamHasher<Hasher = H> + Default,

    ensures
        call_ensures(B::default, (), selector.builder()),
{
    RendezvousHasher::new(B::default())
}

} // verus!
