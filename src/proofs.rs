//! What holds of the encoders and decoders together: decoding an encoding
//! gives the value back, and no proper prefix of an encoding decodes.

use crate::bytes::{str_bytes, str_fits, take_str, u32_at, u32_bytes};
use crate::package_table::{
    buckets_bytes, nodes_bytes, offset_of, offset_storable, offset_value, parse_buckets,
    parse_header, parse_node, parse_nodes, parse_table, HeaderView, NodeView, TableView,
};
use vstd::bytes::*;
use vstd::prelude::*;
use vstd::utf8::*;

verus! {

pub(crate) proof fn lemma_u32_bytes(v: u32)
    ensures
        u32_bytes(v).len() == 4,
        spec_u32_from_le_bytes(u32_bytes(v)) == v,
{
    lemma_auto_spec_u32_to_from_le_bytes();
    assert(spec_u32_to_le_bytes(v).len() == 4);
}

/// The integer stored at `pos` is read back.
proof fn lemma_u32_at(b: Seq<u8>, pos: int, v: u32)
    requires
        0 <= pos,
        pos + 4 <= b.len(),
        b.subrange(pos, pos + 4) == u32_bytes(v),
    ensures
        u32_at(b, pos) == v,
{
    lemma_u32_bytes(v);
}

/// A stored string is read back, whatever stands around it.
proof fn lemma_take_str(pre: Seq<u8>, s: Seq<char>, rest: Seq<u8>)
    requires
        str_fits(s),
    ensures
        take_str(pre + str_bytes(s) + rest, pre.len() as int) == Some(
            (s, (pre.len() + str_bytes(s).len()) as int),
        ),
        str_bytes(s).len() == 4 + encode_utf8(s).len(),
{
    let e = encode_utf8(s);
    let b = pre + str_bytes(s) + rest;
    let pos = pre.len() as int;
    lemma_u32_bytes(e.len() as u32);
    assert(b.subrange(pos, pos + 4) =~= u32_bytes(e.len() as u32));
    lemma_u32_at(b, pos, e.len() as u32);
    assert(b.subrange(pos + 4, pos + 4 + e.len()) =~= e);
    encode_utf8_valid_utf8(s);
    encode_utf8_decode_utf8(s);
}

/// An encoded header is read back, whatever follows it.
pub proof fn lemma_header_decodes(h: HeaderView, rest: Seq<u8>)
    requires
        h.valid(),
    ensures
        parse_header(h.spec_bytes() + rest) == Some((h, h.spec_bytes().len() as int)),
        h.spec_bytes().len() == 24 + encode_utf8(h.container).len(),
{
    let b = h.spec_bytes() + rest;
    let sb = str_bytes(h.container);
    let tail = u32_bytes(h.file_size) + u32_bytes(h.num_packages) + u32_bytes(h.bucket_offset)
        + u32_bytes(h.node_offset) + rest;
    lemma_u32_bytes(h.version);
    lemma_u32_bytes(h.file_size);
    lemma_u32_bytes(h.num_packages);
    lemma_u32_bytes(h.bucket_offset);
    lemma_u32_bytes(h.node_offset);
    assert(b =~= u32_bytes(h.version) + sb + tail);
    lemma_take_str(u32_bytes(h.version), h.container, tail);
    let p = 4 + sb.len() as int;
    assert(b.subrange(0, 4) =~= u32_bytes(h.version));
    assert(b.subrange(p, p + 4) =~= u32_bytes(h.file_size));
    assert(b.subrange(p + 4, p + 8) =~= u32_bytes(h.num_packages));
    assert(b.subrange(p + 8, p + 12) =~= u32_bytes(h.bucket_offset));
    assert(b.subrange(p + 12, p + 16) =~= u32_bytes(h.node_offset));
    lemma_u32_at(b, 0, h.version);
    lemma_u32_at(b, p, h.file_size);
    lemma_u32_at(b, p + 4, h.num_packages);
    lemma_u32_at(b, p + 8, h.bucket_offset);
    lemma_u32_at(b, p + 12, h.node_offset);
}

/// Decoding an encoded header gives the header back.
pub proof fn lemma_header_round_trip(h: HeaderView)
    requires
        h.valid(),
    ensures
        parse_header(h.spec_bytes()) matches Some((d, _)) && d == h,
{
    lemma_header_decodes(h, Seq::empty());
    assert(h.spec_bytes() + Seq::<u8>::empty() =~= h.spec_bytes());
}

/// A stored optional offset is read back, unless it is the reserved zero.
proof fn lemma_offset(o: Option<u32>)
    requires
        offset_storable(o),
    ensures
        offset_of(offset_value(o)) == o,
{
}

/// An encoded node is read back, whatever stands around it.
pub proof fn lemma_node_decodes(pre: Seq<u8>, n: NodeView, rest: Seq<u8>)
    requires
        n.valid(),
    ensures
        parse_node(pre + n.spec_bytes() + rest, pre.len() as int) == Some(
            (n, (pre.len() + n.spec_bytes().len()) as int),
        ),
        n.spec_bytes().len() == 16 + encode_utf8(n.package_name).len(),
{
    let b = pre + n.spec_bytes() + rest;
    let sb = str_bytes(n.package_name);
    let next = offset_value(n.next_offset);
    let tail = u32_bytes(n.package_id) + u32_bytes(n.boolean_offset) + u32_bytes(next) + rest;
    lemma_u32_bytes(n.package_id);
    lemma_u32_bytes(n.boolean_offset);
    lemma_u32_bytes(next);
    assert(b =~= pre + sb + tail);
    lemma_take_str(pre, n.package_name, tail);
    let p = pre.len() + sb.len() as int;
    assert(b.subrange(p, p + 4) =~= u32_bytes(n.package_id));
    assert(b.subrange(p + 4, p + 8) =~= u32_bytes(n.boolean_offset));
    assert(b.subrange(p + 8, p + 12) =~= u32_bytes(next));
    lemma_u32_at(b, p, n.package_id);
    lemma_u32_at(b, p + 4, n.boolean_offset);
    lemma_u32_at(b, p + 8, next);
    lemma_offset(n.next_offset);
}

/// Decoding an encoded node gives the node back.
pub proof fn lemma_node_round_trip(n: NodeView)
    requires
        n.valid(),
    ensures
        parse_node(n.spec_bytes(), 0) matches Some((d, _)) && d == n,
{
    lemma_node_decodes(Seq::empty(), n, Seq::empty());
    assert(Seq::<u8>::empty() + n.spec_bytes() + Seq::<u8>::empty() =~= n.spec_bytes());
}

/// The link of a node survives encoding: "none" comes back as "none", not
/// as an offset of zero, and a nonzero offset comes back unchanged.
pub proof fn lemma_next_offset_round_trip(n: NodeView)
    requires
        str_fits(n.package_name),
        n.next_offset matches Some(k) ==> k > 0,
    ensures
        parse_node(n.spec_bytes(), 0) matches Some((d, _)) && d.next_offset == n.next_offset,
{
    lemma_node_round_trip(n);
}

/// The version is the first four bytes of an encoded table, little-endian.
pub proof fn lemma_version_first(t: TableView)
    ensures
        t.spec_bytes().len() >= 4,
        spec_u32_from_le_bytes(t.spec_bytes().subrange(0, 4)) == t.header.version,
{
    let b = t.spec_bytes();
    lemma_u32_bytes(t.header.version);
    assert(b =~= u32_bytes(t.header.version) + (str_bytes(t.header.container) + u32_bytes(
        t.header.file_size,
    ) + u32_bytes(t.header.num_packages) + u32_bytes(t.header.bucket_offset) + u32_bytes(
        t.header.node_offset,
    ) + buckets_bytes(t.buckets) + nodes_bytes(t.nodes)));
    assert(b.subrange(0, 4) =~= u32_bytes(t.header.version));
}

/// The encoded bucket index holds one four-byte slot per bucket, in order.
proof fn lemma_buckets_bytes(bs: Seq<Option<u32>>)
    ensures
        buckets_bytes(bs).len() == 4 * bs.len(),
        forall|i: int|
            0 <= i < bs.len() ==> #[trigger] buckets_bytes(bs).subrange(4 * i, 4 * i + 4)
                == u32_bytes(offset_value(bs[i])),
    decreases bs.len(),
{
    if bs.len() > 0 {
        let init = bs.drop_last();
        lemma_buckets_bytes(init);
        lemma_u32_bytes(offset_value(bs.last()));
        let b = buckets_bytes(bs);
        assert forall|i: int| 0 <= i < bs.len() implies #[trigger] b.subrange(4 * i, 4 * i + 4)
            == u32_bytes(offset_value(bs[i])) by {
            if i < init.len() {
                assert(b.subrange(4 * i, 4 * i + 4) =~= buckets_bytes(init).subrange(
                    4 * i,
                    4 * i + 4,
                ));
                assert(init[i] == bs[i]);
            } else {
                assert(b.subrange(4 * i, 4 * i + 4) =~= u32_bytes(offset_value(bs.last())));
            }
        }
    }
}

/// The nodes of two lists, encoded, are the two encodings one after the
/// other.
pub(crate) proof fn lemma_nodes_bytes_concat(a: Seq<NodeView>, b: Seq<NodeView>)
    ensures
        nodes_bytes(a + b) == nodes_bytes(a) + nodes_bytes(b),
    decreases b.len(),
{
    if b.len() == 0 {
        assert(a + b =~= a);
        assert(nodes_bytes(a) + Seq::<u8>::empty() =~= nodes_bytes(a));
    } else {
        assert((a + b).drop_last() =~= a + b.drop_last());
        lemma_nodes_bytes_concat(a, b.drop_last());
        assert((a + b).last() == b.last());
        assert(nodes_bytes(a + b) =~= nodes_bytes(a) + nodes_bytes(b));
    }
}

/// Encoded nodes are read back one after the other, whatever stands around
/// them.
proof fn lemma_nodes_decode(pre: Seq<u8>, ns: Seq<NodeView>, rest: Seq<u8>)
    requires
        forall|i: int| 0 <= i < ns.len() ==> (#[trigger] ns[i]).valid(),
    ensures
        parse_nodes(pre + nodes_bytes(ns) + rest, pre.len() as int, ns.len()) == Some(
            (ns, (pre.len() + nodes_bytes(ns).len()) as int),
        ),
    decreases ns.len(),
{
    if ns.len() == 0 {
        assert(ns =~= Seq::<NodeView>::empty());
    } else {
        let n = ns[0];
        let tl = ns.drop_first();
        assert(ns =~= seq![n] + tl);
        lemma_nodes_bytes_concat(seq![n], tl);
        assert(seq![n].drop_last() =~= Seq::<NodeView>::empty());
        assert(nodes_bytes(Seq::<NodeView>::empty()) == Seq::<u8>::empty());
        assert(seq![n].last() == n);
        assert(nodes_bytes(seq![n]) =~= n.spec_bytes());
        let b = pre + nodes_bytes(ns) + rest;
        assert(b =~= pre + n.spec_bytes() + (nodes_bytes(tl) + rest));
        lemma_node_decodes(pre, n, nodes_bytes(tl) + rest);
        let pre2 = pre + n.spec_bytes();
        assert(b =~= pre2 + nodes_bytes(tl) + rest);
        lemma_nodes_decode(pre2, tl, rest);
        assert(seq![n] + tl =~= ns);
    }
}

/// Reading the encoding of a valid table: the header, bucket index and
/// nodes each come back, and the nodes end where the bytes end.
proof fn lemma_table_decodes(t: TableView)
    requires
        t.valid(),
    ensures
        parse_header(t.spec_bytes()) == Some((t.header, t.header.spec_bytes().len() as int)),
        parse_buckets(
            t.spec_bytes(),
            t.header.spec_bytes().len() as int,
            t.buckets.len(),
        ) == Some(t.buckets),
        parse_nodes(
            t.spec_bytes(),
            (t.header.spec_bytes().len() + 4 * t.buckets.len()) as int,
            t.nodes.len(),
        ) == Some((t.nodes, t.spec_bytes().len() as int)),
{
    let hb = t.header.spec_bytes();
    let bb = buckets_bytes(t.buckets);
    let nb = nodes_bytes(t.nodes);
    let b = t.spec_bytes();
    lemma_header_decodes(t.header, bb + nb);
    assert(b =~= hb + (bb + nb));
    lemma_buckets_bytes(t.buckets);
    let nbk = t.buckets.len();
    let h = hb.len() as int;
    assert forall|i: int| 0 <= i < nbk implies #[trigger] offset_of(u32_at(b, h + 4 * i))
        == t.buckets[i] by {
        assert(b.subrange(h + 4 * i, h + 4 * i + 4) =~= bb.subrange(4 * i, 4 * i + 4));
        lemma_u32_at(b, h + 4 * i, offset_value(t.buckets[i]));
        lemma_offset(t.buckets[i]);
    }
    assert(Seq::new(nbk, |i: int| offset_of(u32_at(b, h + 4 * i))) =~= t.buckets);
    assert(b =~= (hb + bb) + nb + Seq::<u8>::empty());
    lemma_nodes_decode(hb + bb, t.nodes, Seq::empty());
}

/// Decoding an encoded table gives the table back.
pub proof fn lemma_table_round_trip(t: TableView)
    requires
        t.valid(),
    ensures
        parse_table(t.spec_bytes()) == Some(t),
{
    lemma_table_decodes(t);
}

/// Reading an integer from a prefix of the bytes: the same where the prefix
/// holds it.
proof fn lemma_u32_at_prefix(b: Seq<u8>, pos: int, k: int)
    requires
        0 <= pos,
        pos + 4 <= k <= b.len(),
    ensures
        u32_at(b.subrange(0, k), pos) == u32_at(b, pos),
{
    assert(b.subrange(0, k).subrange(pos, pos + 4) =~= b.subrange(pos, pos + 4));
}

/// Reading a string from the first `k` bytes: the same where they hold
/// all of it, and a failure where they do not.
proof fn lemma_take_str_prefix(b: Seq<u8>, pos: int, k: int)
    requires
        take_str(b, pos) is Some,
        0 <= k <= b.len(),
    ensures
        take_str(b.subrange(0, k), pos) == if take_str(b, pos)->Some_0.1 <= k {
            take_str(b, pos)
        } else {
            None
        },
{
    let c = b.subrange(0, k);
    if pos + 4 <= k {
        lemma_u32_at_prefix(b, pos, k);
        let start = pos + 4;
        let end = start + u32_at(b, pos);
        if end <= k {
            assert(c.subrange(start, end) =~= b.subrange(start, end));
        }
    }
}

/// Reading a header from the first `k` bytes: the same where they hold all
/// of it, and a failure where they do not.
proof fn lemma_header_prefix(b: Seq<u8>, k: int)
    requires
        parse_header(b) is Some,
        0 <= k <= b.len(),
    ensures
        parse_header(b.subrange(0, k)) == if parse_header(b)->Some_0.1 <= k {
            parse_header(b)
        } else {
            None
        },
{
    lemma_take_str_prefix(b, 4, k);
    let p = take_str(b, 4)->Some_0.1;
    if p + 16 <= k {
        lemma_u32_at_prefix(b, 0, k);
        lemma_u32_at_prefix(b, p, k);
        lemma_u32_at_prefix(b, p + 4, k);
        lemma_u32_at_prefix(b, p + 8, k);
        lemma_u32_at_prefix(b, p + 12, k);
    }
}

/// Reading a node from the first `k` bytes: the same where they hold all of
/// it, and a failure where they do not.
proof fn lemma_node_prefix(b: Seq<u8>, pos: int, k: int)
    requires
        parse_node(b, pos) is Some,
        0 <= k <= b.len(),
    ensures
        parse_node(b.subrange(0, k), pos) == if parse_node(b, pos)->Some_0.1 <= k {
            parse_node(b, pos)
        } else {
            None
        },
{
    lemma_take_str_prefix(b, pos, k);
    let p = take_str(b, pos)->Some_0.1;
    if p + 12 <= k {
        lemma_u32_at_prefix(b, p, k);
        lemma_u32_at_prefix(b, p + 4, k);
        lemma_u32_at_prefix(b, p + 8, k);
    }
}

/// Reading nodes from the first `k` bytes: the same where they hold all of
/// them, and a failure where they do not.
proof fn lemma_nodes_prefix(b: Seq<u8>, pos: int, count: nat, k: int)
    requires
        parse_nodes(b, pos, count) is Some,
        pos <= k <= b.len(),
    ensures
        parse_nodes(b.subrange(0, k), pos, count) == if parse_nodes(b, pos, count)->Some_0.1 <= k {
            parse_nodes(b, pos, count)
        } else {
            None
        },
    decreases count,
{
    if count > 0 {
        lemma_node_prefix(b, pos, k);
        let p = parse_node(b, pos)->Some_0.1;
        lemma_node_end(b, pos);
        lemma_nodes_end(b, p, (count - 1) as nat);
        if p <= k {
            lemma_nodes_prefix(b, p, (count - 1) as nat, k);
        }
    }
}

/// A node ends after where it starts.
proof fn lemma_node_end(b: Seq<u8>, pos: int)
    requires
        parse_node(b, pos) is Some,
    ensures
        pos < parse_node(b, pos)->Some_0.1 <= b.len(),
{
}

/// Nodes end no earlier than where they start.
proof fn lemma_nodes_end(b: Seq<u8>, pos: int, count: nat)
    requires
        parse_nodes(b, pos, count) is Some,
    ensures
        pos <= parse_nodes(b, pos, count)->Some_0.1,
    decreases count,
{
    if count > 0 {
        let p = parse_node(b, pos)->Some_0.1;
        lemma_nodes_end(b, p, (count - 1) as nat);
    }
}

/// Reading the bucket index from the first `k` bytes: the same where they
/// hold all of it.
proof fn lemma_buckets_prefix(b: Seq<u8>, pos: int, count: nat, k: int)
    requires
        parse_buckets(b, pos, count) is Some,
        pos + 4 * count <= k <= b.len(),
    ensures
        parse_buckets(b.subrange(0, k), pos, count) == parse_buckets(b, pos, count),
{
    assert forall|i: int| 0 <= i < count implies #[trigger] u32_at(b.subrange(0, k), pos + 4 * i)
        == u32_at(b, pos + 4 * i) by {
        lemma_u32_at_prefix(b, pos + 4 * i, k);
    }
    assert(Seq::new(count, |i: int| offset_of(u32_at(b.subrange(0, k), pos + 4 * i))) =~= Seq::new(
        count,
        |i: int| offset_of(u32_at(b, pos + 4 * i)),
    ));
}

/// A header cut short of its end does not decode.
pub proof fn lemma_header_truncated(h: HeaderView, k: int)
    requires
        h.valid(),
        0 <= k < h.spec_bytes().len(),
    ensures
        parse_header(h.spec_bytes().subrange(0, k)) is None,
{
    lemma_header_decodes(h, Seq::empty());
    assert(h.spec_bytes() + Seq::<u8>::empty() =~= h.spec_bytes());
    lemma_header_prefix(h.spec_bytes(), k);
}

/// A node cut short of its end does not decode.
pub proof fn lemma_node_truncated(n: NodeView, k: int)
    requires
        n.valid(),
        0 <= k < n.spec_bytes().len(),
    ensures
        parse_node(n.spec_bytes().subrange(0, k), 0) is None,
{
    lemma_node_decodes(Seq::empty(), n, Seq::empty());
    assert(Seq::<u8>::empty() + n.spec_bytes() + Seq::<u8>::empty() =~= n.spec_bytes());
    lemma_node_prefix(n.spec_bytes(), 0, k);
}

/// A table cut short of its end does not decode.
pub proof fn lemma_table_truncated(t: TableView, k: int)
    requires
        t.valid(),
        0 <= k < t.spec_bytes().len(),
    ensures
        parse_table(t.spec_bytes().subrange(0, k)) is None,
{
    let b = t.spec_bytes();
    let c = b.subrange(0, k);
    lemma_table_decodes(t);
    let h = t.header.spec_bytes().len() as int;
    let nb = t.buckets.len();
    lemma_header_prefix(b, k);
    if h <= k {
        if h + 4 * nb <= k {
            lemma_buckets_prefix(b, h, nb, k);
            lemma_nodes_prefix(b, h + 4 * nb, t.nodes.len(), k);
        }
    }
}

} // verus!
