//! The package table: header, bucket index and package nodes, with their
//! byte layout, encoders and decoders.

use crate::bytes::{
    push_str, push_u32, read_str_from_bytes, read_u32_from_bytes, str_bytes, str_fits, take_str,
    u32_at, u32_bytes, ParseError,
};
use crate::hashing::{bucket_of, get_bucket_index, get_table_size, table_size};
use vstd::prelude::*;

verus! {

/// Header of a package table.
#[derive(PartialEq, Debug)]
pub struct PackageTableHeader {
    pub version: u32,
    pub container: String,
    pub file_size: u32,
    pub num_packages: u32,
    pub bucket_offset: u32,
    pub node_offset: u32,
}

/// A header as a mathematical value.
pub struct HeaderView {
    pub version: u32,
    pub container: Seq<char>,
    pub file_size: u32,
    pub num_packages: u32,
    pub bucket_offset: u32,
    pub node_offset: u32,
}

impl View for PackageTableHeader {
    type V = HeaderView;

    open spec fn view(&self) -> HeaderView {
        HeaderView {
            version: self.version,
            container: self.container@,
            file_size: self.file_size,
            num_packages: self.num_packages,
            bucket_offset: self.bucket_offset,
            node_offset: self.node_offset,
        }
    }
}

impl HeaderView {
    /// The header can be written: its container name fits the length field.
    pub open spec fn valid(self) -> bool {
        str_fits(self.container)
    }

    /// The encoded header, field by field.
    pub open spec fn spec_bytes(self) -> Seq<u8> {
        u32_bytes(self.version) + str_bytes(self.container) + u32_bytes(self.file_size) + u32_bytes(
            self.num_packages,
        ) + u32_bytes(self.bucket_offset) + u32_bytes(self.node_offset)
    }
}

/// Decoding a header at the start of `b`: the header and the count of bytes
/// it took, or `None` where the bytes run out or the name is not UTF-8.
pub open spec fn parse_header(b: Seq<u8>) -> Option<(HeaderView, int)> {
    match take_str(b, 4) {
        Some((container, p)) => if p + 16 <= b.len() {
            Some(
                (
                    HeaderView {
                        version: u32_at(b, 0),
                        container,
                        file_size: u32_at(b, p),
                        num_packages: u32_at(b, p + 4),
                        bucket_offset: u32_at(b, p + 8),
                        node_offset: u32_at(b, p + 12),
                    },
                    p + 16,
                ),
            )
        } else {
            None
        },
        None => None,
    }
}

impl PackageTableHeader {
    /// Serialize to bytes.
    pub fn as_bytes(&self) -> (r: Vec<u8>)
        requires
            self@.valid(),
        ensures
            r@ == self@.spec_bytes(),
    {
        let mut result: Vec<u8> = Vec::new();
        push_u32(&mut result, self.version);
        push_str(&mut result, self.container.as_str());
        push_u32(&mut result, self.file_size);
        push_u32(&mut result, self.num_packages);
        push_u32(&mut result, self.bucket_offset);
        push_u32(&mut result, self.node_offset);
        proof {
            assert(result@ =~= self@.spec_bytes());
        }
        result
    }

    /// Deserialize from bytes: succeeds exactly where a header can be read at
    /// the start of `bytes`, and then yields that header.
    pub fn from_bytes(bytes: &[u8]) -> (r: Result<Self, ParseError>)
        ensures
            r is Ok <==> parse_header(bytes@) is Some,
            r matches Ok(h) ==> h@ == parse_header(bytes@)->Some_0.0,
    {
        let (h, _) = read_header(bytes)?;
        Ok(h)
    }
}

/// Reads a header at the start of `bytes`, with the count of bytes it took.
fn read_header(bytes: &[u8]) -> (r: Result<(PackageTableHeader, usize), ParseError>)
    ensures
        r is Ok <==> parse_header(bytes@) is Some,
        r matches Ok((h, n)) ==> (h@, n as int) == parse_header(bytes@)->Some_0,
{
    let mut head: usize = 0;
    let version = match read_u32_from_bytes(bytes, &mut head) {
        Ok(v) => v,
        Err(e) => return Err(e),
    };
    let container = match read_str_from_bytes(bytes, &mut head) {
        Ok(s) => s,
        Err(e) => return Err(e),
    };
    let file_size = match read_u32_from_bytes(bytes, &mut head) {
        Ok(v) => v,
        Err(e) => return Err(e),
    };
    let num_packages = match read_u32_from_bytes(bytes, &mut head) {
        Ok(v) => v,
        Err(e) => return Err(e),
    };
    let bucket_offset = match read_u32_from_bytes(bytes, &mut head) {
        Ok(v) => v,
        Err(e) => return Err(e),
    };
    let node_offset = match read_u32_from_bytes(bytes, &mut head) {
        Ok(v) => v,
        Err(e) => return Err(e),
    };
    let h = PackageTableHeader {
        version,
        container,
        file_size,
        num_packages,
        bucket_offset,
        node_offset,
    };
    Ok((h, head))
}

/// Node of a package table: one package and the link to the next node of
/// its bucket's chain.
#[derive(PartialEq, Debug)]
pub struct PackageTableNode {
    pub package_name: String,
    pub package_id: u32,
    /// Offset of the package's first boolean flag in the boolean value array
    /// of the flag value file.
    pub boolean_offset: u32,
    pub next_offset: Option<u32>,
}

/// A node as a mathematical value.
pub struct NodeView {
    pub package_name: Seq<char>,
    pub package_id: u32,
    pub boolean_offset: u32,
    pub next_offset: Option<u32>,
}

impl View for PackageTableNode {
    type V = NodeView;

    open spec fn view(&self) -> NodeView {
        NodeView {
            package_name: self.package_name@,
            package_id: self.package_id,
            boolean_offset: self.boolean_offset,
            next_offset: self.next_offset,
        }
    }
}

/// An optional offset as stored: zero stands for "none".
pub open spec fn offset_value(o: Option<u32>) -> u32 {
    match o {
        Some(v) => v,
        None => 0,
    }
}

/// A stored offset read back: zero is "none", anything else an offset.
pub open spec fn offset_of(v: u32) -> Option<u32> {
    if v == 0 {
        None
    } else {
        Some(v)
    }
}

/// An optional offset survives storage: it is not `Some(0)`, which zero
/// cannot tell apart from "none".
pub open spec fn offset_storable(o: Option<u32>) -> bool {
    o != Some(0u32)
}

impl NodeView {
    /// The node can be written and read back: its name fits the length field
    /// and its link is not the reserved zero.
    pub open spec fn valid(self) -> bool {
        str_fits(self.package_name) && offset_storable(self.next_offset)
    }

    /// The encoded node, field by field.
    pub open spec fn spec_bytes(self) -> Seq<u8> {
        str_bytes(self.package_name) + u32_bytes(self.package_id) + u32_bytes(self.boolean_offset)
            + u32_bytes(offset_value(self.next_offset))
    }
}

/// Decoding a node at `pos` of `b`: the node and the position after it, or
/// `None` where the bytes run out or the name is not UTF-8.
pub open spec fn parse_node(b: Seq<u8>, pos: int) -> Option<(NodeView, int)> {
    match take_str(b, pos) {
        Some((name, p)) => if p + 12 <= b.len() {
            Some(
                (
                    NodeView {
                        package_name: name,
                        package_id: u32_at(b, p),
                        boolean_offset: u32_at(b, p + 4),
                        next_offset: offset_of(u32_at(b, p + 8)),
                    },
                    p + 12,
                ),
            )
        } else {
            None
        },
        None => None,
    }
}

impl PackageTableNode {
    /// Serialize to bytes.
    pub fn as_bytes(&self) -> (r: Vec<u8>)
        requires
            str_fits(self.package_name@),
        ensures
            r@ == self@.spec_bytes(),
    {
        let mut result: Vec<u8> = Vec::new();
        self.write_to(&mut result);
        proof {
            assert(result@ =~= self@.spec_bytes());
        }
        result
    }

    /// Appends the encoded node to `out`.
    fn write_to(&self, out: &mut Vec<u8>)
        requires
            str_fits(self.package_name@),
        ensures
            final(out)@ == old(out)@ + self@.spec_bytes(),
    {
        let next = match self.next_offset {
            Some(v) => v,
            None => 0,
        };
        push_str(out, self.package_name.as_str());
        push_u32(out, self.package_id);
        push_u32(out, self.boolean_offset);
        push_u32(out, next);
        proof {
            assert(final(out)@ =~= old(out)@ + self@.spec_bytes());
        }
    }

    /// Deserialize from bytes: succeeds exactly where a node can be read at
    /// the start of `bytes`, and then yields that node.
    pub fn from_bytes(bytes: &[u8]) -> (r: Result<Self, ParseError>)
        ensures
            r is Ok <==> parse_node(bytes@, 0) is Some,
            r matches Ok(n) ==> n@ == parse_node(bytes@, 0)->Some_0.0,
    {
        let mut head: usize = 0;
        read_node(bytes, &mut head)
    }

    /// Get the bucket index for a package table node, defined here so that
    /// the side that builds the table and the side that reads it hash alike.
    pub fn find_bucket_index(package: &str, num_buckets: u32) -> (r: u32)
        requires
            num_buckets > 0,
        ensures
            r == bucket_of(package@, num_buckets),
            r < num_buckets,
    {
        get_bucket_index(package, num_buckets)
    }
}

/// Reads a node at `*head` and moves the cursor past it.
fn read_node(bytes: &[u8], head: &mut usize) -> (r: Result<PackageTableNode, ParseError>)
    ensures
        r is Ok <==> parse_node(bytes@, *old(head) as int) is Some,
        r matches Ok(n) ==> (n@, *final(head) as int) == parse_node(bytes@, *old(head) as int)->Some_0,
{
    let package_name = match read_str_from_bytes(bytes, head) {
        Ok(s) => s,
        Err(e) => return Err(e),
    };
    let package_id = match read_u32_from_bytes(bytes, head) {
        Ok(v) => v,
        Err(e) => return Err(e),
    };
    let boolean_offset = match read_u32_from_bytes(bytes, head) {
        Ok(v) => v,
        Err(e) => return Err(e),
    };
    let next = match read_u32_from_bytes(bytes, head) {
        Ok(v) => v,
        Err(e) => return Err(e),
    };
    let next_offset = if next == 0 {
        None
    } else {
        Some(next)
    };
    Ok(PackageTableNode { package_name, package_id, boolean_offset, next_offset })
}

/// A package table: header, bucket index and nodes.
#[derive(PartialEq, Debug)]
pub struct PackageTable {
    pub header: PackageTableHeader,
    pub buckets: Vec<Option<u32>>,
    pub nodes: Vec<PackageTableNode>,
}

/// A table as a mathematical value.
pub struct TableView {
    pub header: HeaderView,
    pub buckets: Seq<Option<u32>>,
    pub nodes: Seq<NodeView>,
}

/// The views of a list of nodes.
pub open spec fn node_views(nodes: Seq<PackageTableNode>) -> Seq<NodeView> {
    nodes.map_values(|n: PackageTableNode| n@)
}

impl View for PackageTable {
    type V = TableView;

    open spec fn view(&self) -> TableView {
        TableView { header: self.header@, buckets: self.buckets@, nodes: node_views(self.nodes@) }
    }
}

/// The encoded bucket index: one stored offset per bucket.
pub open spec fn buckets_bytes(buckets: Seq<Option<u32>>) -> Seq<u8>
    decreases buckets.len(),
{
    if buckets.len() == 0 {
        Seq::empty()
    } else {
        buckets_bytes(buckets.drop_last()) + u32_bytes(offset_value(buckets.last()))
    }
}

/// The encoded nodes, one after the other.
pub open spec fn nodes_bytes(nodes: Seq<NodeView>) -> Seq<u8>
    decreases nodes.len(),
{
    if nodes.len() == 0 {
        Seq::empty()
    } else {
        nodes_bytes(nodes.drop_last()) + nodes.last().spec_bytes()
    }
}

impl TableView {
    /// The table can be written: every string fits its length field.
    pub open spec fn writable(self) -> bool {
        &&& self.header.valid()
        &&& forall|i: int| 0 <= i < self.nodes.len() ==> str_fits(#[trigger] self.nodes[i].package_name)
    }

    /// The table can be written and read back as it is: the bucket index has
    /// the size that the package count asks for, there are as many nodes as
    /// the header counts, and no stored offset is the reserved zero.
    pub open spec fn valid(self) -> bool {
        &&& self.header.valid()
        &&& table_size(self.header.num_packages) matches Some(n) && self.buckets.len() == n
        &&& self.nodes.len() == self.header.num_packages
        &&& forall|i: int| 0 <= i < self.buckets.len() ==> offset_storable(#[trigger] self.buckets[i])
        &&& forall|i: int| 0 <= i < self.nodes.len() ==> (#[trigger] self.nodes[i]).valid()
    }

    /// The encoded table: header, then bucket index, then nodes.
    pub open spec fn spec_bytes(self) -> Seq<u8> {
        self.header.spec_bytes() + buckets_bytes(self.buckets) + nodes_bytes(self.nodes)
    }
}

/// Decoding `count` buckets at `pos`.
pub open spec fn parse_buckets(b: Seq<u8>, pos: int, count: nat) -> Option<Seq<Option<u32>>> {
    if 0 <= pos && pos + 4 * count <= b.len() {
        Some(Seq::new(count, |i: int| offset_of(u32_at(b, pos + 4 * i))))
    } else {
        None
    }
}

/// Decoding `count` nodes one after the other from `pos`: the nodes and the
/// position after the last.
pub open spec fn parse_nodes(b: Seq<u8>, pos: int, count: nat) -> Option<(Seq<NodeView>, int)>
    decreases count,
{
    if count == 0 {
        Some((Seq::empty(), pos))
    } else {
        match parse_node(b, pos) {
            Some((n, p)) => match parse_nodes(b, p, (count - 1) as nat) {
                Some((rest, q)) => Some((seq![n] + rest, q)),
                None => None,
            },
            None => None,
        }
    }
}

/// Decoding a table: the header; the bucket count for its package count;
/// that many buckets right after the header; then as many nodes as the
/// header counts.
pub open spec fn parse_table(b: Seq<u8>) -> Option<TableView> {
    match parse_header(b) {
        Some((header, p)) => match table_size(header.num_packages) {
            Some(num_buckets) => match parse_buckets(b, p, num_buckets as nat) {
                Some(buckets) => match parse_nodes(
                    b,
                    p + 4 * num_buckets,
                    header.num_packages as nat,
                ) {
                    Some((nodes, _)) => Some(TableView { header, buckets, nodes }),
                    None => None,
                },
                None => None,
            },
            None => None,
        },
        None => None,
    }
}

impl PackageTable {
    /// Serialize to bytes.
    pub fn as_bytes(&self) -> (r: Vec<u8>)
        requires
            self@.writable(),
        ensures
            r@ == self@.spec_bytes(),
    {
        let mut result = self.header.as_bytes();
        let ghost hb = result@;
        let mut i: usize = 0;
        while i < self.buckets.len()
            invariant
                i <= self.buckets@.len(),
                result@ == hb + buckets_bytes(self.buckets@.subrange(0, i as int)),
            decreases self.buckets@.len() - i,
        {
            let v = match self.buckets[i] {
                Some(v) => v,
                None => 0,
            };
            push_u32(&mut result, v);
            proof {
                let s = self.buckets@.subrange(0, i + 1);
                assert(s.drop_last() =~= self.buckets@.subrange(0, i as int));
                assert(result@ =~= hb + buckets_bytes(s));
            }
            i = i + 1;
        }
        assert(self.buckets@.subrange(0, i as int) =~= self.buckets@);
        let ghost hbb = result@;
        let ghost views = node_views(self.nodes@);
        let mut j: usize = 0;
        while j < self.nodes.len()
            invariant
                j <= self.nodes@.len(),
                views == node_views(self.nodes@),
                self@.writable(),
                result@ == hbb + nodes_bytes(views.subrange(0, j as int)),
            decreases self.nodes@.len() - j,
        {
            let node = &self.nodes[j];
            assert(views[j as int] == node@);
            assert(self@.nodes == views);
            assert(str_fits(self@.nodes[j as int].package_name));
            node.write_to(&mut result);
            proof {
                let s = views.subrange(0, j + 1);
                assert(s.drop_last() =~= views.subrange(0, j as int));
                assert(result@ =~= hbb + nodes_bytes(s));
            }
            j = j + 1;
        }
        assert(views.subrange(0, j as int) =~= views);
        assert(result@ =~= self@.spec_bytes());
        result
    }

    /// Deserialize from bytes: succeeds exactly where a table can be read
    /// from `bytes`, and then yields that table.
    pub fn from_bytes(bytes: &[u8]) -> (r: Result<Self, ParseError>)
        ensures
            r is Ok <==> parse_table(bytes@) is Some,
            r matches Ok(t) ==> t@ == parse_table(bytes@)->Some_0,
    {
        let (header, header_len) = match read_header(bytes) {
            Ok(x) => x,
            Err(e) => return Err(e),
        };
        let num_packages = header.num_packages;
        assert(parse_header(bytes@) == Some((header@, header_len as int)));
        let num_buckets = match get_table_size(num_packages) {
            Some(n) => n,
            None => {
                return Err(
                    ParseError { context: "too many packages for any table size".to_string() },
                );
            },
        };
        let mut head: usize = header_len;
        let mut buckets: Vec<Option<u32>> = Vec::new();
        let mut i: u32 = 0;
        while i < num_buckets
            invariant
                parse_header(bytes@) == Some((header@, header_len as int)),
                num_packages == header.num_packages,
                table_size(num_packages) == Some(num_buckets),
                i <= num_buckets,
                head == header_len + 4 * i,
                head <= bytes@.len(),
                buckets@ == Seq::new(i as nat, |k: int| offset_of(u32_at(bytes@, header_len + 4 * k))),
            decreases num_buckets - i,
        {
            let v = match read_u32_from_bytes(bytes, &mut head) {
                Ok(v) => v,
                Err(e) => {
                    assert(4 * (i as int) + 4 <= 4 * (num_buckets as int)) by (nonlinear_arith)
                        requires
                            i < num_buckets,
                    ;
                    assert(parse_buckets(bytes@, header_len as int, num_buckets as nat) is None);
                    return Err(e);
                },
            };
            buckets.push(if v == 0 {
                None
            } else {
                Some(v)
            });
            proof {
                assert(buckets@ =~= Seq::new(
                    (i + 1) as nat,
                    |k: int| offset_of(u32_at(bytes@, header_len + 4 * k)),
                ));
            }
            i = i + 1;
        }
        assert(parse_buckets(bytes@, header_len as int, num_buckets as nat) == Some(buckets@));
        let ghost node_start = head as int;
        assert(node_start == header_len + 4 * num_buckets);
        assert(table_size(header@.num_packages) == Some(num_buckets));
        let mut nodes: Vec<PackageTableNode> = Vec::new();
        let mut j: u32 = 0;
        while j < num_packages
            invariant
                parse_header(bytes@) == Some((header@, header_len as int)),
                num_packages == header.num_packages,
                table_size(num_packages) == Some(num_buckets),
                parse_buckets(bytes@, header_len as int, num_buckets as nat) is Some,
                node_start == header_len + 4 * num_buckets,
                j <= num_packages,
                head <= bytes@.len(),
                parse_nodes(bytes@, node_start, num_packages as nat) == match parse_nodes(
                    bytes@,
                    head as int,
                    (num_packages - j) as nat,
                ) {
                    Some((rest, q)) => Some((node_views(nodes@) + rest, q)),
                    None => None::<(Seq<NodeView>, int)>,
                },
            decreases num_packages - j,
        {
            let ghost before = head as int;
            let node = match read_node(bytes, &mut head) {
                Ok(n) => n,
                Err(_) => {
                    assert(parse_nodes(bytes@, before, (num_packages - j) as nat) is None);
                    return Err(
                        ParseError { context: "fail to parse package table: a node is truncated or malformed".to_string() },
                    );
                },
            };
            let ghost old_views = node_views(nodes@);
            nodes.push(node);
            proof {
                assert(node_views(nodes@) =~= old_views + seq![node@]);
                let m = (num_packages - j) as nat;
                assert(parse_nodes(bytes@, before, m) == match parse_nodes(
                    bytes@,
                    head as int,
                    (m - 1) as nat,
                ) {
                    Some((rest, q)) => Some((seq![node@] + rest, q)),
                    None => None::<(Seq<NodeView>, int)>,
                });
                match parse_nodes(bytes@, head as int, (m - 1) as nat) {
                    Some((rest, q)) => {
                        assert(old_views + (seq![node@] + rest) =~= node_views(nodes@) + rest);
                    },
                    None => {},
                }
            }
            j = j + 1;
        }
        let table = PackageTable { header, buckets, nodes };
        proof {
            assert(node_views(nodes@) + Seq::<NodeView>::empty() =~= node_views(nodes@));
        }
        Ok(table)
    }
}

} // verus!
