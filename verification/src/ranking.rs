//! The ranking of the live nodes of a snapshot under an epoch seed.
//!
//! Every node gets a key from a keyed hash of the seed and its identifier,
//! scaled down by its stake. Nodes are ranked by ascending key; equal keys
//! are ordered by identifier.

use crate::ident::{Identifier, Seed};
use crate::node::Node;
use vstd::prelude::*;

verus! {

/// Start value of the keyed hash.
pub const HASH_OFFSET: u64 = 0xcbf2_9ce4_8422_2325;

/// Multiplier of the keyed hash.
pub const HASH_PRIME: u64 = 0x0000_0100_0000_01b3;

/// First multiplier of the final mixing.
pub const MIX_FIRST: u64 = 0xff51_afd7_ed55_8ccd;

/// Second multiplier of the final mixing.
pub const MIX_SECOND: u64 = 0xc4ce_b9fe_1a85_ec53;

/// One round of the hash: fold the word `w` into the state `h`.
pub open spec fn absorb(h: u64, w: u64) -> u64 {
    (h ^ w).wrapping_mul(HASH_PRIME)
}

/// The final mixing: it spreads every bit of the state over the whole word.
pub open spec fn finish(h: u64) -> u64 {
    let a = (h ^ (h >> 33)).wrapping_mul(MIX_FIRST);
    let b = (a ^ (a >> 33)).wrapping_mul(MIX_SECOND);
    b ^ (b >> 33)
}

/// The hash of an identifier under a seed: the four words of the seed,
/// then the four words of the identifier, folded into the start value and
/// mixed.
pub open spec fn keyed_hash(seed: Seed, id: Identifier) -> u64 {
    let h0 = absorb(HASH_OFFSET, seed.w0);
    let h1 = absorb(h0, seed.w1);
    let h2 = absorb(h1, seed.w2);
    let h3 = absorb(h2, seed.w3);
    let h4 = absorb(h3, id.w0);
    let h5 = absorb(h4, id.w1);
    let h6 = absorb(h5, id.w2);
    finish(absorb(h6, id.w3))
}

/// The key by which a node is ranked: its hash divided by its stake, so
/// that a higher stake tends to a lower key. A stake of zero counts as one.
pub open spec fn rank_key(seed: Seed, node: Node) -> u64 {
    if node.weight == 0 {
        keyed_hash(seed, node.id)
    } else {
        keyed_hash(seed, node.id) / node.weight
    }
}

/// Strict ranking order: `a` is ranked before `b`.
pub open spec fn ranks_before(seed: Seed, a: Node, b: Node) -> bool {
    rank_key(seed, a) < rank_key(seed, b) || (rank_key(seed, a) == rank_key(seed, b)
        && a.id.precedes(b.id))
}

/// The first place at or after `from` whose node is ranked after `x`, or
/// the length of `ranked` when there is none.
pub open spec fn insertion_point(seed: Seed, ranked: Seq<Node>, x: Node, from: int) -> int
    decreases ranked.len() - from,
{
    if from >= ranked.len() {
        ranked.len() as int
    } else if ranks_before(seed, x, ranked[from]) {
        from
    } else {
        insertion_point(seed, ranked, x, from + 1)
    }
}

/// The live nodes of `nodes` in ranking order. Nodes that the order does not
/// tell apart keep the order in which the snapshot lists them.
pub open spec fn ranking(seed: Seed, nodes: Seq<Node>) -> Seq<Node>
    decreases nodes.len(),
{
    if nodes.len() == 0 {
        Seq::empty()
    } else {
        let rest = ranking(seed, nodes.drop_last());
        let x = nodes.last();
        if x.live {
            rest.insert(insertion_point(seed, rest, x, 0), x)
        } else {
            rest
        }
    }
}

/// The live nodes of a snapshot, in the order of the snapshot.
pub open spec fn live_nodes(nodes: Seq<Node>) -> Seq<Node> {
    nodes.filter(|n: Node| n.live)
}

/// Computes one round of the hash.
fn absorb_word(h: u64, w: u64) -> (r: u64)
    ensures
        r == absorb(h, w),
{
    (h ^ w).wrapping_mul(HASH_PRIME)
}

/// Computes the final mixing.
fn finish_hash(h: u64) -> (r: u64)
    ensures
        r == finish(h),
{
    let a: u64 = (h ^ (h >> 33)).wrapping_mul(MIX_FIRST);
    let b: u64 = (a ^ (a >> 33)).wrapping_mul(MIX_SECOND);
    b ^ (b >> 33)
}

/// Computes the hash of an identifier under a seed.
pub fn hash_identifier(seed: &Seed, id: &Identifier) -> (h: u64)
    ensures
        h == keyed_hash(*seed, *id),
{
    let h0: u64 = absorb_word(HASH_OFFSET, seed.w0);
    let h1: u64 = absorb_word(h0, seed.w1);
    let h2: u64 = absorb_word(h1, seed.w2);
    let h3: u64 = absorb_word(h2, seed.w3);
    let h4: u64 = absorb_word(h3, id.w0);
    let h5: u64 = absorb_word(h4, id.w1);
    let h6: u64 = absorb_word(h5, id.w2);
    finish_hash(absorb_word(h6, id.w3))
}

/// Computes the key by which a node is ranked.
pub fn node_rank_key(seed: &Seed, node: &Node) -> (key: u64)
    ensures
        key == rank_key(*seed, *node),
{
    let h: u64 = hash_identifier(seed, &node.id);
    if node.weight == 0 {
        h
    } else {
        h / node.weight
    }
}

/// Decides whether `a` is ranked before `b`.
pub fn is_ranked_before(seed: &Seed, a: &Node, b: &Node) -> (r: bool)
    ensures
        r == ranks_before(*seed, *a, *b),
{
    let ka: u64 = node_rank_key(seed, a);
    let kb: u64 = node_rank_key(seed, b);
    ka < kb || (ka == kb && a.id.is_before(&b.id))
}

/// Ranks the live nodes of a snapshot.
pub fn rank_nodes(seed: &Seed, nodes: &Vec<Node>) -> (ranked: Vec<Node>)
    ensures
        ranked@ == ranking(*seed, nodes@),
{
    let mut ranked: Vec<Node> = Vec::new();
    let mut i: usize = 0;
    while i < nodes.len()
        invariant
            i <= nodes@.len(),
            ranked@ == ranking(*seed, nodes@.take(i as int)),
        decreases nodes@.len() - i,
    {
        let x: Node = nodes[i];
        assert(nodes@.take(i + 1).drop_last() =~= nodes@.take(i as int));
        assert(nodes@.take(i + 1).last() == x);
        if x.live {
            let mut p: usize = 0;
            while p < ranked.len() && !is_ranked_before(seed, &x, &ranked[p])
                invariant
                    p <= ranked@.len(),
                    insertion_point(*seed, ranked@, x, 0) == insertion_point(
                        *seed,
                        ranked@,
                        x,
                        p as int,
                    ),
                decreases ranked@.len() - p,
            {
                p += 1;
            }
            ranked.insert(p, x);
        }
        i += 1;
    }
    assert(nodes@.take(i as int) =~= nodes@);
    ranked
}

/// The ranking order is a strict order that leaves no two nodes of
/// different identifiers unordered.
pub proof fn lemma_rank_order(seed: Seed, a: Node, b: Node, c: Node)
    ensures
        !ranks_before(seed, a, a),
        !(ranks_before(seed, a, b) && ranks_before(seed, b, a)),
        ranks_before(seed, a, b) && ranks_before(seed, b, c) ==> ranks_before(seed, a, c),
        ranks_before(seed, a, b) && !ranks_before(seed, c, b) ==> ranks_before(seed, a, c),
        !ranks_before(seed, b, a) && ranks_before(seed, b, c) ==> ranks_before(seed, a, c),
        a.id != b.id ==> ranks_before(seed, a, b) || ranks_before(seed, b, a),
{
}

/// Where a node is inserted: after every node that it is not ranked before,
/// and in front of one that it is ranked before.
pub proof fn lemma_insertion_point(seed: Seed, ranked: Seq<Node>, x: Node, from: int)
    requires
        0 <= from <= ranked.len(),
    ensures
        from <= insertion_point(seed, ranked, x, from) <= ranked.len(),
        forall|k: int|
            from <= k < insertion_point(seed, ranked, x, from) ==> !ranks_before(
                seed,
                x,
                #[trigger] ranked[k],
            ),
        insertion_point(seed, ranked, x, from) < ranked.len() ==> ranks_before(
            seed,
            x,
            ranked[insertion_point(seed, ranked, x, from)],
        ),
    decreases ranked.len() - from,
{
    if from < ranked.len() && !ranks_before(seed, x, ranked[from]) {
        lemma_insertion_point(seed, ranked, x, from + 1);
    }
}

/// A sequence of nodes in which no node is ranked before an earlier one.
pub open spec fn is_ranked(seed: Seed, s: Seq<Node>) -> bool {
    forall|i: int, j: int| 0 <= i < j < s.len() ==> !ranks_before(seed, s[j], s[i])
}

/// The ranking is in ranking order, and it holds exactly the live nodes of
/// the snapshot, each as often as the snapshot does.
pub proof fn lemma_ranking_sorted_permutation(seed: Seed, nodes: Seq<Node>)
    ensures
        is_ranked(seed, ranking(seed, nodes)),
        ranking(seed, nodes).to_multiset() == live_nodes(nodes).to_multiset(),
        ranking(seed, nodes).len() == live_nodes(nodes).len(),
    decreases nodes.len(),
{
    broadcast use vstd::seq_lib::to_multiset_insert;
    broadcast use vstd::seq_lib::to_multiset_build;
    broadcast use vstd::seq_lib::to_multiset_len;

    let live = |n: Node| n.live;
    if nodes.len() == 0 {
        assert(live_nodes(nodes) =~= Seq::<Node>::empty());
    } else {
        let rest = ranking(seed, nodes.drop_last());
        let x = nodes.last();
        lemma_ranking_sorted_permutation(seed, nodes.drop_last());
        assert(nodes =~= nodes.drop_last().push(x));
        Seq::lemma_filter_push(nodes.drop_last(), x, live);
        if x.live {
            let p = insertion_point(seed, rest, x, 0);
            lemma_insertion_point(seed, rest, x, 0);
            let r = rest.insert(p, x);
            assert(live_nodes(nodes) == live_nodes(nodes.drop_last()).push(x));
            assert forall|i: int, j: int| 0 <= i < j < r.len() implies !ranks_before(
                seed,
                r[j],
                r[i],
            ) by {
                if j < p {
                } else if j == p {
                } else if i < p {
                    assert(r[j] == rest[j - 1]);
                } else if i == p {
                    assert(r[j] == rest[j - 1]);
                    if j - 1 > p {
                        assert(!ranks_before(seed, rest[j - 1], rest[p]));
                    }
                    lemma_rank_order(seed, x, rest[p], rest[j - 1]);
                } else {
                    assert(r[j] == rest[j - 1]);
                    assert(r[i] == rest[i - 1]);
                }
            }
        } else {
            assert(live_nodes(nodes) == live_nodes(nodes.drop_last()));
        }
    }
}

/// No two nodes of the sequence have the same identifier.
pub open spec fn ids_distinct(s: Seq<Node>) -> bool {
    forall|i: int, j: int| 0 <= i < j < s.len() ==> s[i].id != s[j].id
}

/// Every node of the ranking is a node of the snapshot, and where the
/// snapshot names no node twice, neither does the ranking.
pub proof fn lemma_ranking_distinct(seed: Seed, nodes: Seq<Node>)
    ensures
        forall|k: int|
            0 <= k < ranking(seed, nodes).len() ==> nodes.contains(
                #[trigger] ranking(seed, nodes)[k],
            ),
        ids_distinct(nodes) ==> ids_distinct(ranking(seed, nodes)),
    decreases nodes.len(),
{
    if nodes.len() > 0 {
        let front = nodes.drop_last();
        let rest = ranking(seed, front);
        let x = nodes.last();
        let r = ranking(seed, nodes);
        lemma_ranking_distinct(seed, front);
        let p = insertion_point(seed, rest, x, 0);
        lemma_insertion_point(seed, rest, x, 0);
        assert forall|k: int| 0 <= k < rest.len() implies nodes.contains(#[trigger] rest[k]) by {
            assert(front.contains(rest[k]));
            let m = choose|m: int| 0 <= m < front.len() && front[m] == rest[k];
            assert(nodes[m] == rest[k]);
        }
        assert(nodes[nodes.len() - 1] == x);
        assert forall|k: int| 0 <= k < r.len() implies nodes.contains(#[trigger] r[k]) by {
            if x.live {
                if k < p {
                    assert(r[k] == rest[k]);
                } else if k == p {
                    assert(r[k] == x);
                } else {
                    assert(r[k] == rest[k - 1]);
                }
            }
        }
        if ids_distinct(nodes) {
            assert(ids_distinct(front));
            assert forall|k: int| 0 <= k < rest.len() implies (#[trigger] rest[k]).id != x.id by {
                assert(front.contains(rest[k]));
                let m = choose|m: int| 0 <= m < front.len() && front[m] == rest[k];
                assert(nodes[m].id != nodes[nodes.len() - 1].id);
            }
            if x.live {
                assert forall|i: int, j: int| 0 <= i < j < r.len() implies r[i].id != r[j].id by {
                    let a = if i < p {
                        i
                    } else {
                        i - 1
                    };
                    let b = if j < p {
                        j
                    } else {
                        j - 1
                    };
                    if i != p {
                        assert(r[i] == rest[a]);
                    }
                    if j != p {
                        assert(r[j] == rest[b]);
                    }
                }
            }
        }
    }
}

/// There is one ranking: two sequences in ranking order that hold the same
/// nodes, none of them twice, are equal.
pub proof fn lemma_ranked_unique(seed: Seed, a: Seq<Node>, b: Seq<Node>)
    requires
        is_ranked(seed, a),
        is_ranked(seed, b),
        ids_distinct(a),
        ids_distinct(b),
        a.to_multiset() == b.to_multiset(),
    ensures
        a == b,
    decreases a.len(),
{
    vstd::seq_lib::to_multiset_len(a);
    vstd::seq_lib::to_multiset_len(b);
    if a.len() == 0 {
        assert(a =~= b);
    } else {
        let x = a[0];
        let y = b[0];
        assert(a.contains(x));
        assert(b.contains(y));
        vstd::seq_lib::to_multiset_contains(a, x);
        vstd::seq_lib::to_multiset_contains(b, x);
        vstd::seq_lib::to_multiset_contains(a, y);
        vstd::seq_lib::to_multiset_contains(b, y);
        let k = choose|k: int| 0 <= k < b.len() && b[k] == x;
        let m = choose|m: int| 0 <= m < a.len() && a[m] == y;
        if k > 0 && m > 0 {
            assert(!ranks_before(seed, b[k], b[0]));
            assert(!ranks_before(seed, a[m], a[0]));
            assert(b[0].id != b[k].id);
            lemma_rank_order(seed, x, y, x);
        }
        assert(x == y);
        let rest_a = a.remove(0);
        let rest_b = b.remove(0);
        vstd::seq_lib::to_multiset_remove(a, 0);
        vstd::seq_lib::to_multiset_remove(b, 0);
        assert forall|i: int, j: int| 0 <= i < j < rest_a.len() implies !ranks_before(
            seed,
            rest_a[j],
            rest_a[i],
        ) && rest_a[i].id != rest_a[j].id by {
            assert(rest_a[i] == a[i + 1] && rest_a[j] == a[j + 1]);
        }
        assert forall|i: int, j: int| 0 <= i < j < rest_b.len() implies !ranks_before(
            seed,
            rest_b[j],
            rest_b[i],
        ) && rest_b[i].id != rest_b[j].id by {
            assert(rest_b[i] == b[i + 1] && rest_b[j] == b[j + 1]);
        }
        lemma_ranked_unique(seed, rest_a, rest_b);
        assert forall|i: int| 0 <= i < a.len() implies a[i] == b[i] by {
            if i > 0 {
                assert(a[i] == rest_a[i - 1]);
                assert(b[i] == rest_b[i - 1]);
            }
        }
        assert(a =~= b);
    }
}

/// The ranking depends on the live nodes alone: two snapshots that hold the
/// same live nodes, none of them twice, have the same ranking, in whatever
/// order they list the nodes and whatever dead nodes they hold.
pub proof fn lemma_ranking_of_same_live_nodes(seed: Seed, a: Seq<Node>, b: Seq<Node>)
    requires
        ids_distinct(a),
        ids_distinct(b),
        live_nodes(a).to_multiset() == live_nodes(b).to_multiset(),
    ensures
        ranking(seed, a) == ranking(seed, b),
{
    lemma_ranking_sorted_permutation(seed, a);
    lemma_ranking_sorted_permutation(seed, b);
    lemma_ranking_distinct(seed, a);
    lemma_ranking_distinct(seed, b);
    lemma_ranked_unique(seed, ranking(seed, a), ranking(seed, b));
}

} // verus!
