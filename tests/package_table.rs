use aconfig_storage_file::{
    bucket_from_hash, get_bucket_index, get_table_size, read_str_from_bytes, read_u32_from_bytes, PackageTable,
    PackageTableHeader, PackageTableNode,
};

fn create_test_package_table() -> PackageTable {
    let header = PackageTableHeader {
        version: 1234,
        container: String::from("system"),
        file_size: 208,
        num_packages: 3,
        bucket_offset: 30,
        node_offset: 58,
    };
    let buckets: Vec<Option<u32>> = vec![Some(58), None, None, Some(108), None, None, None];
    let first_node = PackageTableNode {
        package_name: String::from("com.android.aconfig.storage.test_2"),
        package_id: 1,
        boolean_offset: 3,
        next_offset: None,
    };
    let second_node = PackageTableNode {
        package_name: String::from("com.android.aconfig.storage.test_1"),
        package_id: 0,
        boolean_offset: 0,
        next_offset: Some(158),
    };
    let third_node = PackageTableNode {
        package_name: String::from("com.android.aconfig.storage.test_4"),
        package_id: 2,
        boolean_offset: 6,
        next_offset: None,
    };
    let nodes = vec![first_node, second_node, third_node];
    PackageTable { header, buckets, nodes }
}

fn node(name: &str, id: u32, offset: u32, next: Option<u32>) -> PackageTableNode {
    PackageTableNode {
        package_name: String::from(name),
        package_id: id,
        boolean_offset: offset,
        next_offset: next,
    }
}

#[test]
// this test point locks down the table serialization
fn test_serialization() {
    let package_table = create_test_package_table();
    let header: &PackageTableHeader = &package_table.header;
    let reinterpreted_header = PackageTableHeader::from_bytes(&header.as_bytes());
    assert!(reinterpreted_header.is_ok());
    assert_eq!(header, &reinterpreted_header.unwrap());

    let nodes: &Vec<PackageTableNode> = &package_table.nodes;
    for node in nodes.iter() {
        let reinterpreted_node = PackageTableNode::from_bytes(&node.as_bytes()).unwrap();
        assert_eq!(node, &reinterpreted_node);
    }

    let reinterpreted_table = PackageTable::from_bytes(&package_table.as_bytes());
    assert!(reinterpreted_table.is_ok());
    assert_eq!(&package_table, &reinterpreted_table.unwrap());
}

#[test]
// this test point locks down that version number should be at the top of serialized
// bytes
fn test_version_number() {
    let package_table = create_test_package_table();
    let bytes = &package_table.as_bytes();
    let mut head = 0;
    let version = read_u32_from_bytes(bytes, &mut head).unwrap();
    assert_eq!(version, 1234)
}

#[test]
fn encoded_layout_is_exact() {
    let table = create_test_package_table();
    let bytes = table.as_bytes();
    assert_eq!(bytes.len(), 208);
    assert_eq!(&bytes[0..4], &[0xd2, 0x04, 0, 0]);
    assert_eq!(&bytes[4..8], &[6, 0, 0, 0]);
    assert_eq!(&bytes[8..14], b"system");
    assert_eq!(&bytes[14..18], &[208, 0, 0, 0]);
    assert_eq!(&bytes[18..22], &[3, 0, 0, 0]);
    assert_eq!(&bytes[22..26], &[30, 0, 0, 0]);
    assert_eq!(&bytes[26..30], &[58, 0, 0, 0]);
    assert_eq!(&bytes[30..34], &[58, 0, 0, 0]);
    assert_eq!(&bytes[34..38], &[0, 0, 0, 0]);
    assert_eq!(&bytes[42..46], &[108, 0, 0, 0]);
    assert_eq!(&bytes[58..62], &[34, 0, 0, 0]);
    assert_eq!(&bytes[62..96], b"com.android.aconfig.storage.test_2");
    assert_eq!(&bytes[96..100], &[1, 0, 0, 0]);
    assert_eq!(&bytes[100..104], &[3, 0, 0, 0]);
    assert_eq!(&bytes[104..108], &[0, 0, 0, 0]);
    assert_eq!(&bytes[154..158], &[158, 0, 0, 0]);
}

#[test]
fn two_package_scenario() {
    let alpha = node("alpha", 1, 0, None);
    let beta = node("beta", 2, 5, None);
    let alpha_len = alpha.as_bytes().len() as u32;
    let header = PackageTableHeader {
        version: 1,
        container: String::from("system"),
        file_size: 0,
        num_packages: 2,
        bucket_offset: 30,
        node_offset: 58,
    };
    let num_buckets = get_table_size(2).unwrap();
    assert_eq!(num_buckets, 7);
    let mut buckets: Vec<Option<u32>> = vec![None; num_buckets as usize];
    buckets[0] = Some(58);
    buckets[1] = Some(58 + alpha_len);
    let table = PackageTable { header, buckets, nodes: vec![alpha, beta] };
    let decoded = PackageTable::from_bytes(&table.as_bytes()).unwrap();
    assert_eq!(decoded.nodes.len(), 2);
    assert_eq!(decoded.nodes[0], node("alpha", 1, 0, None));
    assert_eq!(decoded.nodes[1], node("beta", 2, 5, None));
    assert_eq!(decoded.nodes[0].next_offset, None);
    assert_eq!(decoded.nodes[1].next_offset, None);
    assert_eq!(decoded.buckets[1], Some(58 + alpha_len));
    assert_eq!(decoded, table);
}

#[test]
fn header_round_trip() {
    let header = PackageTableHeader {
        version: u32::MAX,
        container: String::from("vendor_é"),
        file_size: 7,
        num_packages: 0,
        bucket_offset: 1,
        node_offset: 2,
    };
    let bytes = header.as_bytes();
    assert_eq!(bytes.len(), 24 + 9);
    assert_eq!(PackageTableHeader::from_bytes(&bytes).unwrap(), header);
}

#[test]
fn sentinel_survives_encoding() {
    let none = node("a.b", 4, 9, None);
    let bytes = none.as_bytes();
    assert_eq!(&bytes[bytes.len() - 4..], &[0, 0, 0, 0]);
    assert_eq!(PackageTableNode::from_bytes(&bytes).unwrap().next_offset, None);
    let some = node("a.b", 4, 9, Some(77));
    let bytes = some.as_bytes();
    assert_eq!(PackageTableNode::from_bytes(&bytes).unwrap().next_offset, Some(77));
    let zero = node("a.b", 4, 9, Some(0));
    assert_eq!(PackageTableNode::from_bytes(&zero.as_bytes()).unwrap().next_offset, None);
}

#[test]
fn every_prefix_of_a_table_fails() {
    let bytes = create_test_package_table().as_bytes();
    for k in 0..bytes.len() {
        assert!(PackageTable::from_bytes(&bytes[..k]).is_err(), "prefix {}", k);
    }
    assert!(PackageTable::from_bytes(&bytes).is_ok());
}

#[test]
fn every_prefix_of_a_header_or_node_fails() {
    let table = create_test_package_table();
    let header = table.header.as_bytes();
    for k in 0..header.len() {
        assert!(PackageTableHeader::from_bytes(&header[..k]).is_err());
    }
    let node = table.nodes[1].as_bytes();
    for k in 0..node.len() {
        assert!(PackageTableNode::from_bytes(&node[..k]).is_err());
    }
}

#[test]
fn decode_ignores_trailing_bytes() {
    let table = create_test_package_table();
    let mut bytes = table.as_bytes();
    bytes.extend_from_slice(&[1, 2, 3]);
    assert_eq!(PackageTable::from_bytes(&bytes).unwrap(), table);
}

#[test]
fn invalid_utf8_name_is_rejected() {
    let mut bytes = vec![2, 0, 0, 0, 0xff, 0xfe];
    bytes.extend_from_slice(&[0; 12]);
    assert!(PackageTableNode::from_bytes(&bytes).is_err());
}

#[test]
fn too_many_packages_is_rejected() {
    let header = PackageTableHeader {
        version: 1,
        container: String::from("system"),
        file_size: 0,
        num_packages: u32::MAX,
        bucket_offset: 30,
        node_offset: 58,
    };
    assert!(PackageTableHeader::from_bytes(&header.as_bytes()).is_ok());
    assert!(PackageTable::from_bytes(&header.as_bytes()).is_err());
}

#[test]
fn missing_nodes_are_rejected() {
    let mut table = create_test_package_table();
    table.nodes.pop();
    assert!(PackageTable::from_bytes(&table.as_bytes()).is_err());
}

#[test]
fn table_sizes() {
    assert_eq!(get_table_size(0), Some(7));
    assert_eq!(get_table_size(3), Some(7));
    assert_eq!(get_table_size(4), Some(17));
    assert_eq!(get_table_size(9), Some(29));
    assert_eq!(get_table_size(805306370), Some(1610612741));
    assert_eq!(get_table_size(805306371), None);
    assert_eq!(get_table_size(u32::MAX), None);
}

#[test]
fn bucket_index_is_stable_and_in_range() {
    let names = ["com.android.a", "com.android.b", "com.android.c", "x", ""];
    let mut seen = Vec::new();
    for name in names.iter() {
        let b = PackageTableNode::find_bucket_index(name, 1610612741);
        assert!(b < 1610612741);
        assert_eq!(b, get_bucket_index(name, 1610612741));
        assert!(PackageTableNode::find_bucket_index(name, 7) < 7);
        seen.push(b);
    }
    seen.sort();
    seen.dedup();
    assert!(seen.len() > 1);
    assert_eq!(PackageTableNode::find_bucket_index("anything", 1), 0);
}

#[test]
fn read_helpers_move_the_cursor() {
    let bytes = vec![3, 0, 0, 0, b'a', b'b', b'c', 9, 0, 0, 1];
    let mut head = 0;
    assert_eq!(read_str_from_bytes(&bytes, &mut head).unwrap(), "abc");
    assert_eq!(head, 7);
    assert_eq!(read_u32_from_bytes(&bytes, &mut head).unwrap(), 0x0100_0009);
    assert_eq!(head, 11);
    assert!(read_u32_from_bytes(&bytes, &mut head).is_err());
    assert_eq!(head, 11);
}

#[test]
fn bucket_from_hash_values() {
    assert_eq!(bucket_from_hash(10, 7), 3);
    assert_eq!(bucket_from_hash(u64::MAX, 7), (u64::MAX % 7) as u32);
    assert_eq!(bucket_from_hash(6, 7), 6);
    assert_eq!(bucket_from_hash(123456789, 1), 0);
}

/// Lays the packages out by bucket, as a table builder does, and returns
/// the table together with each node's byte offset.
fn build_table(names: &[&str]) -> (PackageTable, Vec<u32>) {
    let num_buckets = get_table_size(names.len() as u32).unwrap();
    let mut order: Vec<(u32, usize)> = names
        .iter()
        .enumerate()
        .map(|(i, n)| (PackageTableNode::find_bucket_index(n, num_buckets), i))
        .collect();
    order.sort();
    let mut header = PackageTableHeader {
        version: 1,
        container: String::from("system"),
        file_size: 0,
        num_packages: names.len() as u32,
        bucket_offset: 0,
        node_offset: 0,
    };
    header.bucket_offset = header.as_bytes().len() as u32;
    header.node_offset = header.bucket_offset + 4 * num_buckets;
    let mut nodes = Vec::new();
    let mut offsets = Vec::new();
    let mut offset = header.node_offset;
    for (_, i) in order.iter() {
        let n = node(names[*i], *i as u32, 10 * *i as u32, None);
        offsets.push(offset);
        offset += n.as_bytes().len() as u32;
        nodes.push(n);
    }
    header.file_size = offset;
    let mut buckets = vec![None; num_buckets as usize];
    for k in 0..nodes.len() {
        let b = order[k].0;
        if k == 0 || order[k - 1].0 != b {
            buckets[b as usize] = Some(offsets[k]);
        }
        if k + 1 < nodes.len() && order[k + 1].0 == b {
            nodes[k].next_offset = Some(offsets[k + 1]);
        }
    }
    (PackageTable { header, buckets, nodes }, offsets)
}

#[test]
fn chains_reach_every_node_once_from_its_bucket() {
    let names = [
        "com.android.a", "com.android.b", "com.android.c", "com.android.d", "com.android.e",
        "com.android.f", "com.android.g", "com.android.h", "com.android.i", "com.android.j",
    ];
    let (table, offsets) = build_table(&names);
    let bytes = table.as_bytes();
    assert_eq!(bytes.len() as u32, table.header.file_size);
    let decoded = PackageTable::from_bytes(&bytes).unwrap();
    assert_eq!(decoded, table);
    let num_buckets = decoded.buckets.len() as u32;
    let mut seen = vec![0; decoded.nodes.len()];
    for (b, head) in decoded.buckets.iter().enumerate() {
        let mut link = *head;
        while let Some(off) = link {
            let k = offsets.iter().position(|o| *o == off).unwrap();
            let n = &decoded.nodes[k];
            let from_bytes = PackageTableNode::from_bytes(&bytes[off as usize..]).unwrap();
            assert_eq!(&from_bytes, n);
            assert_eq!(PackageTableNode::find_bucket_index(&n.package_name, num_buckets), b as u32);
            seen[k] += 1;
            link = n.next_offset;
        }
    }
    assert!(seen.iter().all(|c| *c == 1));
    assert_eq!(seen.iter().sum::<i32>(), names.len() as i32);
}
