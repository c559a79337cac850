//! Collision chains of an encoded table: where each node starts, how a walk
//! follows the next-node links, and what the walks give on a table whose
//! nodes are laid out by bucket.

use crate::hashing::{bucket_of, name_hash};
use crate::package_table::{nodes_bytes, offset_value, NodeView, TableView};
use crate::proofs::{lemma_nodes_bytes_concat, lemma_u32_bytes};
use vstd::prelude::*;
use vstd::utf8::encode_utf8;

verus! {

/// Byte offset, from the start of the encoded table, at which node `i`
/// starts (for `i` equal to the node count: where the nodes end).
pub open spec fn node_start(t: TableView, i: int) -> int {
    (t.header.spec_bytes().len() + 4 * t.buckets.len() + nodes_bytes(t.nodes.take(i)).len()) as int
}

/// The node that starts at byte offset `off`, if one does.
#[verifier::opaque]
pub open spec fn node_at(t: TableView, off: u32) -> Option<int> {
    if exists|j: int| 0 <= j < t.nodes.len() && node_start(t, j) == off as int {
        Some(choose|j: int| 0 <= j < t.nodes.len() && node_start(t, j) == off as int)
    } else {
        None
    }
}

/// The nodes met by following links from `link`, at most `fuel` of them,
/// stopping at a "none" link or at an offset where no node starts.
pub open spec fn chain(t: TableView, link: Option<u32>, fuel: nat) -> Seq<int>
    decreases fuel,
{
    if fuel == 0 {
        Seq::empty()
    } else {
        match link {
            Some(off) => match node_at(t, off) {
                Some(j) => seq![j] + chain(t, t.nodes[j].next_offset, (fuel - 1) as nat),
                None => Seq::empty(),
            },
            None => Seq::empty(),
        }
    }
}

/// The chain of bucket `b`: the walk from its head, long enough to meet
/// every node once.
pub open spec fn bucket_chain(t: TableView, b: int) -> Seq<int> {
    chain(t, t.buckets[b], t.nodes.len())
}

/// The bucket that the hash assigns to node `i`.
pub open spec fn node_bucket(t: TableView, i: int) -> u32 {
    bucket_of(t.nodes[i].package_name, t.buckets.len() as u32)
}

/// Node `i` is the first of its bucket's run of nodes.
pub open spec fn run_head(t: TableView, i: int) -> bool {
    i == 0 || node_bucket(t, i - 1) != node_bucket(t, i)
}

/// The nodes are laid out by bucket: ordered by the bucket that the hash
/// gives them; each bucket points at the first node of its run, or is empty
/// where it has none; each node links to the next node of its run, and the
/// last one of a run links to none. All offsets fit 32 bits.
#[verifier::opaque]
pub open spec fn laid_out_by_bucket(t: TableView) -> bool {
    let n = t.nodes.len();
    &&& 0 < t.buckets.len() <= u32::MAX
    &&& node_start(t, n as int) <= u32::MAX
    &&& forall|i: int, j: int|
        0 <= i < j < n ==> #[trigger] node_bucket(t, i) <= #[trigger] node_bucket(t, j)
    &&& forall|i: int|
        0 <= i < n && #[trigger] run_head(t, i) ==> t.buckets[node_bucket(t, i) as int] == Some(
            node_start(t, i) as u32,
        )
    &&& forall|b: int|
        0 <= b < t.buckets.len() && (forall|i: int| 0 <= i < n ==> node_bucket(t, i) != b)
            ==> #[trigger] t.buckets[b] is None
    &&& forall|i: int|
        0 <= i < n ==> (#[trigger] t.nodes[i]).next_offset == if i + 1 < n && node_bucket(t, i + 1)
            == node_bucket(t, i) {
            Some(node_start(t, i + 1) as u32)
        } else {
            None
        }
}

/// A node takes at least sixteen bytes, and the next one starts right after.
proof fn lemma_node_start_step(t: TableView, i: int)
    requires
        0 <= i < t.nodes.len(),
    ensures
        node_start(t, i + 1) == node_start(t, i) + t.nodes[i].spec_bytes().len(),
        t.nodes[i].spec_bytes().len() >= 16,
{
    let x = t.nodes[i];
    assert(t.nodes.take(i + 1) =~= t.nodes.take(i) + seq![x]);
    lemma_nodes_bytes_concat(t.nodes.take(i), seq![x]);
    assert(seq![x].drop_last() =~= Seq::<NodeView>::empty());
    assert(nodes_bytes(Seq::<NodeView>::empty()) == Seq::<u8>::empty());
    assert(seq![x].last() == x);
    assert(nodes_bytes(seq![x]) =~= x.spec_bytes());
    lemma_u32_bytes(x.package_id);
    lemma_u32_bytes(x.boolean_offset);
    lemma_u32_bytes(offset_value(x.next_offset));
    lemma_u32_bytes(encode_utf8(x.package_name).len() as u32);
}

/// The bucket of a node is one of the table's buckets.
proof fn lemma_bucket_in_range(t: TableView, i: int)
    requires
        laid_out_by_bucket(t),
        0 <= i < t.nodes.len(),
    ensures
        node_bucket(t, i) < t.buckets.len(),
{
    reveal(laid_out_by_bucket);
    let nb = t.buckets.len() as u32;
    let h = name_hash(t.nodes[i].package_name);
    assert(h % (nb as u64) < nb as u64) by (nonlinear_arith)
        requires
            nb > 0,
    ;
}

/// Nodes of a table laid out by bucket are ordered by bucket.
proof fn lemma_sorted(t: TableView, i: int, j: int)
    requires
        laid_out_by_bucket(t),
        0 <= i <= j < t.nodes.len(),
    ensures
        node_bucket(t, i) <= node_bucket(t, j),
{
    reveal(laid_out_by_bucket);
    if i < j {
        assert(node_bucket(t, i) <= node_bucket(t, j));
    }
}

/// The bucket of the first node of a run points at it.
proof fn lemma_head(t: TableView, i: int)
    requires
        laid_out_by_bucket(t),
        0 <= i < t.nodes.len(),
        run_head(t, i),
    ensures
        t.buckets[node_bucket(t, i) as int] == Some(node_start(t, i) as u32),
{
    reveal(laid_out_by_bucket);
}

/// A bucket that no node hashes to is empty.
proof fn lemma_empty_bucket(t: TableView, b: int)
    requires
        laid_out_by_bucket(t),
        0 <= b < t.buckets.len(),
        forall|i: int| 0 <= i < t.nodes.len() ==> node_bucket(t, i) != b,
    ensures
        t.buckets[b] is None,
{
    reveal(laid_out_by_bucket);
}

/// The link of a node: the next node of its run, or none at a run's end.
proof fn lemma_next(t: TableView, i: int)
    requires
        laid_out_by_bucket(t),
        0 <= i < t.nodes.len(),
    ensures
        t.nodes[i].next_offset == if i + 1 < t.nodes.len() && node_bucket(t, i + 1) == node_bucket(
            t,
            i,
        ) {
            Some(node_start(t, i + 1) as u32)
        } else {
            None
        },
        0 < t.buckets.len() <= u32::MAX,
        node_start(t, t.nodes.len() as int) <= u32::MAX,
{
    reveal(laid_out_by_bucket);
}

/// Nodes start at increasing offsets.
proof fn lemma_node_start_increasing(t: TableView, i: int, j: int)
    requires
        0 <= i < j <= t.nodes.len(),
    ensures
        node_start(t, i) < node_start(t, j),
    decreases j - i,
{
    lemma_node_start_step(t, i);
    if i + 1 < j {
        lemma_node_start_increasing(t, i + 1, j);
    }
}

/// The offset at which node `i` starts leads back to node `i`.
proof fn lemma_node_at(t: TableView, i: int)
    requires
        0 <= i < t.nodes.len(),
        node_start(t, t.nodes.len() as int) <= u32::MAX,
    ensures
        node_at(t, node_start(t, i) as u32) == Some(i),
{
    reveal(node_at);
    lemma_node_start_increasing(t, i, t.nodes.len() as int);
    let off = node_start(t, i) as u32;
    assert(node_start(t, i) >= 0);
    assert(off as int == node_start(t, i));
    assert(0 <= i < t.nodes.len() && node_start(t, i) == off as int);
    let j = choose|j: int| 0 <= j < t.nodes.len() && node_start(t, j) == off as int;
    if j < i {
        lemma_node_start_increasing(t, j, i);
    } else if i < j {
        lemma_node_start_increasing(t, i, j);
    }
}

/// The walk from the first node of a run `[i, e)` of one bucket meets the
/// run's nodes in order and stops.
proof fn lemma_chain_run(t: TableView, i: int, e: int, fuel: nat)
    requires
        laid_out_by_bucket(t),
        0 <= i < e <= t.nodes.len(),
        forall|k: int| i <= k < e ==> node_bucket(t, k) == node_bucket(t, i),
        e == t.nodes.len() || node_bucket(t, e) != node_bucket(t, i),
        fuel >= e - i,
    ensures
        chain(t, Some(node_start(t, i) as u32), fuel) =~= Seq::new((e - i) as nat, |k: int| i + k),
    decreases e - i,
{
    lemma_next(t, i);
    lemma_node_at(t, i);
    let next = t.nodes[i].next_offset;
    assert(chain(t, Some(node_start(t, i) as u32), fuel) == seq![i] + chain(
        t,
        next,
        (fuel - 1) as nat,
    ));
    if i + 1 < e {
        assert(node_bucket(t, i + 1) == node_bucket(t, i));
        assert(next == Some(node_start(t, i + 1) as u32));
        lemma_chain_run(t, i + 1, e, (fuel - 1) as nat);
    } else {
        assert(next is None);
    }
}

/// The first node of the run that holds node `i`.
proof fn lemma_run_start(t: TableView, i: int) -> (s: int)
    requires
        laid_out_by_bucket(t),
        0 <= i < t.nodes.len(),
    ensures
        0 <= s <= i,
        run_head(t, s),
        forall|k: int| s <= k <= i ==> node_bucket(t, k) == node_bucket(t, i),
    decreases i,
{
    if run_head(t, i) {
        i
    } else {
        lemma_sorted(t, i - 1, i);
        let s = lemma_run_start(t, i - 1);
        s
    }
}

/// The end of the run that holds node `i`.
proof fn lemma_run_end(t: TableView, i: int) -> (e: int)
    requires
        laid_out_by_bucket(t),
        0 <= i < t.nodes.len(),
    ensures
        i < e <= t.nodes.len(),
        forall|k: int| i <= k < e ==> node_bucket(t, k) == node_bucket(t, i),
        e == t.nodes.len() || node_bucket(t, e) != node_bucket(t, i),
    decreases t.nodes.len() - i,
{
    if i + 1 == t.nodes.len() || node_bucket(t, i + 1) != node_bucket(t, i) {
        i + 1
    } else {
        let e = lemma_run_end(t, i + 1);
        e
    }
}

/// The walks of one bucket of a table laid out by bucket.
proof fn lemma_one_bucket(t: TableView, b: int)
    requires
        laid_out_by_bucket(t),
        0 <= b < t.buckets.len(),
    ensures
        forall|i: int|
            0 <= i < t.nodes.len() && node_bucket(t, i) == b ==> bucket_chain(t, b).contains(i),
        forall|k: int|
            0 <= k < bucket_chain(t, b).len() ==> 0 <= #[trigger] bucket_chain(t, b)[k]
                < t.nodes.len() && node_bucket(t, bucket_chain(t, b)[k]) == b,
        bucket_chain(t, b).no_duplicates(),
        bucket_chain(t, b).len() > 0 ==> t.nodes[bucket_chain(t, b).last()].next_offset is None,
{
    let n = t.nodes.len() as int;
    if exists|i: int| 0 <= i < n && node_bucket(t, i) == b {
        let i0 = choose|i: int| 0 <= i < n && node_bucket(t, i) == b;
        let s = lemma_run_start(t, i0);
        let e = lemma_run_end(t, i0);
        lemma_head(t, s);
        lemma_next(t, s);
        lemma_chain_run(t, s, e, t.nodes.len());
        let c = bucket_chain(t, b);
        assert(c =~= Seq::new((e - s) as nat, |k: int| s + k));
        assert(node_bucket(t, s) == b);
        assert(node_bucket(t, e - 1) == b);
        assert(s == 0 || node_bucket(t, s - 1) != b);
        assert(e == n || node_bucket(t, e) != b);
        assert forall|i: int| 0 <= i < n && node_bucket(t, i) == b implies c.contains(i) by {
            if i < s {
                lemma_sorted(t, i, s - 1);
                lemma_sorted(t, s - 1, s);
            } else if i >= e {
                lemma_sorted(t, e, i);
                lemma_sorted(t, e - 1, e);
            }
            assert(c[i - s] == i);
        }
        let last = e - 1;
        lemma_next(t, last);
        assert(t.nodes[last].next_offset is None);
    } else {
        lemma_empty_bucket(t, b);
        assert(bucket_chain(t, b) =~= Seq::<int>::empty());
    }
}

/// On a table laid out by bucket, the chains partition the nodes: the walk
/// from each bucket's head meets exactly the nodes that the hash assigns to
/// that bucket, each once, and ends at a node whose link is none. So every
/// node is met, from its own bucket and from no other, and the walks meet
/// as many nodes in all as the table holds.
pub proof fn lemma_chains_partition(t: TableView)
    requires
        laid_out_by_bucket(t),
    ensures
        forall|i: int|
            0 <= i < t.nodes.len() ==> bucket_chain(t, node_bucket(t, i) as int).contains(i),
        forall|b: int, k: int|
            0 <= b < t.buckets.len() && 0 <= k < bucket_chain(t, b).len() ==> 0
                <= #[trigger] bucket_chain(t, b)[k] < t.nodes.len() && node_bucket(
                t,
                bucket_chain(t, b)[k],
            ) == b,
        forall|b: int| 0 <= b < t.buckets.len() ==> #[trigger] bucket_chain(t, b).no_duplicates(),
        forall|b: int|
            0 <= b < t.buckets.len() && #[trigger] bucket_chain(t, b).len() > 0 ==> t.nodes[bucket_chain(
                t,
                b,
            ).last()].next_offset is None,
{
    assert forall|i: int| 0 <= i < t.nodes.len() implies bucket_chain(
        t,
        node_bucket(t, i) as int,
    ).contains(i) by {
        lemma_bucket_in_range(t, i);
        lemma_one_bucket(t, node_bucket(t, i) as int);
    }
    assert forall|b: int, k: int|
        0 <= b < t.buckets.len() && 0 <= k < bucket_chain(t, b).len() implies 0
            <= #[trigger] bucket_chain(t, b)[k] < t.nodes.len() && node_bucket(
            t,
            bucket_chain(t, b)[k],
        ) == b by {
        lemma_one_bucket(t, b);
    }
    assert forall|b: int| 0 <= b < t.buckets.len() implies #[trigger] bucket_chain(
        t,
        b,
    ).no_duplicates() by {
        lemma_one_bucket(t, b);
    }
    assert forall|b: int|
        0 <= b < t.buckets.len() && #[trigger] bucket_chain(t, b).len() > 0 implies t.nodes[bucket_chain(
            t,
            b,
        ).last()].next_offset is None by {
        lemma_one_bucket(t, b);
    }
}

} // verus!
