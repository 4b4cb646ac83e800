use kgdb::backend::{StorageBackend, StorageError, StorageStats};
use kgdb::indexes::{decode_node, encode_node, encode_varint, IndexType, QuadIndex};
use kgdb::inmemory::InMemoryBackend;
use kgdb::keybuf::KeyBuf;
use kgdb::node::{Node, Quad};
use kgdb::observability::OperationType;
use kgdb::pattern::{NodePattern, QuadPattern};
use kgdb::quad_store::QuadStore;
use kgdb::simd::{simd_memcpy, BatchProcessor, SimdEncoder};
use kgdb::simd_encode::{encode_nodes_batch_simd, node_type_byte, prefix_compare_simd};
use kgdb::transaction::{InMemoryTransaction, Transaction};
use kgdb::varint::{decode_varint, encode_varint_to_vec, KeyError};

fn sample_quad() -> Quad {
    Quad::new(
        Node::iri("http://example.org/s"),
        Node::iri("http://example.org/p"),
        Node::literal_str("value"),
        None,
    )
}

fn encode_scalar(nodes: &[Node]) -> Vec<u8> {
    let mut out = Vec::new();
    for n in nodes {
        let mut buf = KeyBuf::new();
        encode_node(&mut buf, n);
        out.extend_from_slice(buf.as_slice());
    }
    out
}

#[test]
fn test_storage_stats_display() {
    let stats = StorageStats {
        key_count: 1000,
        total_bytes: 1024 * 1024 * 10,
        avg_key_size: 100,
        avg_value_size: 500,
        reads: 5000,
        writes: 1000,
        deletes: 100,
    };

    let display = stats.to_display_string();
    assert!(display.contains("keys: 1000"));
    assert!(display.contains("size: 10 MB"));
}

#[test]
fn stats_display_exact_text() {
    let stats = StorageStats {
        key_count: 3,
        total_bytes: 3 * 1024 * 1024 + 5,
        avg_key_size: 1,
        avg_value_size: 2,
        reads: 7,
        writes: 8,
        deletes: 9,
    };
    assert_eq!(
        stats.to_display_string(),
        "StorageStats { keys: 3, size: 3 MB, reads: 7, writes: 8, deletes: 9 }"
    );
    let zero = StorageStats::new();
    assert_eq!(zero.key_count, 0);
    assert_eq!(zero.reads, 0);
}

#[test]
fn storage_error_messages() {
    assert_eq!(StorageError::NotFound("k".to_string()).message(), "Key not found: k");
    assert_eq!(
        StorageError::Corruption("bad".to_string()).message(),
        "Database corruption: bad"
    );
    assert_eq!(StorageError::Backend("x".to_string()).message(), "Backend error: x");
    let io = StorageError::Io(std::io::Error::new(std::io::ErrorKind::Other, "disk"));
    assert_eq!(io.message(), "I/O error: disk");
}

#[test]
fn test_index_type_selection() {
    assert_eq!(IndexType::select_best(true, true, false, false), IndexType::SPOC);
    assert_eq!(IndexType::select_best(false, true, true, false), IndexType::POCS);
    assert_eq!(IndexType::select_best(false, false, true, false), IndexType::OCSP);
    assert_eq!(IndexType::select_best(false, false, false, true), IndexType::CSPO);
    assert_eq!(IndexType::select_best(false, false, false, false), IndexType::SPOC);
}

#[test]
fn index_type_all_and_quad_index() {
    let all = IndexType::all();
    assert_eq!(all.len(), 4);
    assert_eq!(all[0], IndexType::SPOC);
    assert_eq!(all[3], IndexType::CSPO);
    let idx = QuadIndex::new(IndexType::OCSP);
    assert_eq!(idx.index_type(), IndexType::OCSP);
}

#[test]
fn test_encode_key_spoc() {
    let quad = Quad::new(
        Node::iri("http://s"),
        Node::iri("http://p"),
        Node::iri("http://o"),
        None,
    );
    let key = IndexType::SPOC.encode_key(&quad);
    assert!(!key.as_slice().is_empty());
}

#[test]
fn encode_key_exact_bytes() {
    let quad = Quad::new(Node::iri("s"), Node::iri("p"), Node::iri("o"), None);
    let key = IndexType::SPOC.encode_key(&quad);
    assert_eq!(key.to_vec(), vec![0, 1, b's', 0, 1, b'p', 0, 1, b'o', 0]);
    let key = IndexType::POCS.encode_key(&quad);
    assert_eq!(key.to_vec(), vec![0, 1, b'p', 0, 1, b'o', 0, 0, 1, b's']);
}

#[test]
fn decode_key_inverts_encode_key() {
    let quad = Quad::new(
        Node::iri("http://example.org/s"),
        Node::literal_lang("Hello", "en"),
        Node::blank(42),
        Some(Node::iri("http://example.org/g")),
    );
    for t in IndexType::all() {
        let key = t.encode_key(&quad);
        let back = t.decode_key(key.as_slice()).unwrap();
        assert_eq!(back, quad);
    }
}

#[test]
fn decode_key_errors() {
    assert_eq!(IndexType::SPOC.decode_key(&[]), Err(KeyError::EmptyData));
    assert_eq!(IndexType::SPOC.decode_key(&[9, 0]), Err(KeyError::UnknownNodeType(9)));
    let r = decode_node(&[0, 5, b'a'], 0);
    assert_eq!(r, Err(KeyError::InvalidNodeEncoding));
}

#[test]
fn test_varint_encoding() {
    let mut buf = KeyBuf::new();
    encode_varint(&mut buf, 127);
    assert_eq!(buf.as_slice().len(), 1);
    assert_eq!(buf.as_slice()[0], 127);

    let mut buf = KeyBuf::new();
    encode_varint(&mut buf, 300);
    assert!(buf.as_slice().len() > 1);
}

#[test]
fn test_encode_varint_to_vec() {
    let mut output = Vec::new();
    encode_varint_to_vec(&mut output, 127);
    assert_eq!(output, vec![127]);

    output.clear();
    encode_varint_to_vec(&mut output, 300);
    assert_eq!(output.len(), 2);
    assert_eq!(output[0] & 0x80, 0x80);
    assert_eq!(output[1] & 0x80, 0);
}

#[test]
fn varint_round_trip() {
    for v in [0u64, 1, 127, 128, 300, 16384, u64::MAX] {
        let mut out = Vec::new();
        encode_varint_to_vec(&mut out, v);
        assert_eq!(decode_varint(&out), Ok((v, out.len())));
    }
    assert_eq!(decode_varint(&[0x80]), Err(KeyError::IncompleteVarint));
    let too_long = [0xffu8; 11];
    assert_eq!(decode_varint(&too_long), Err(KeyError::VarintOverflow));
}

#[test]
fn test_basic_operations() {
    let mut backend = InMemoryBackend::new();

    backend.put(b"key1", b"value1").unwrap();
    backend.put(b"key2", b"value2").unwrap();

    assert_eq!(backend.get(b"key1").unwrap(), Some(b"value1".to_vec()));
    assert_eq!(backend.get(b"key2").unwrap(), Some(b"value2".to_vec()));
    assert_eq!(backend.get(b"key3").unwrap(), None);

    assert!(backend.contains(b"key1").unwrap());
    assert!(!backend.contains(b"key3").unwrap());

    backend.delete(b"key1").unwrap();
    assert_eq!(backend.get(b"key1").unwrap(), None);

    let stats = backend.stats();
    assert_eq!(stats.key_count, 1);
    assert_eq!(stats.writes, 2);
    assert_eq!(stats.deletes, 1);
}

#[test]
fn inmemory_counts_reads() {
    let mut backend = InMemoryBackend::new();
    backend.put(b"a", b"1").unwrap();
    backend.get(b"a").unwrap();
    backend.get(b"b").unwrap();
    assert_eq!(backend.stats().reads, 2);
}

#[test]
fn test_range_scan() {
    let mut backend = InMemoryBackend::new();

    backend.put(b"a", b"1").unwrap();
    backend.put(b"b", b"2").unwrap();
    backend.put(b"c", b"3").unwrap();
    backend.put(b"d", b"4").unwrap();

    let results = backend.range_scan(b"b", b"d").unwrap();

    assert_eq!(results.len(), 2);
    assert_eq!(results[0].0, b"b");
    assert_eq!(results[1].0, b"c");
}

#[test]
fn test_prefix_scan() {
    let mut backend = InMemoryBackend::new();

    backend.put(b"prefix:1", b"value1").unwrap();
    backend.put(b"prefix:2", b"value2").unwrap();
    backend.put(b"other:1", b"value3").unwrap();

    let results = backend.prefix_scan(b"prefix:").unwrap();

    assert_eq!(results.len(), 2);
    assert!(results[0].0.starts_with(b"prefix:"));
    assert!(results[1].0.starts_with(b"prefix:"));
}

#[test]
fn scans_come_out_sorted() {
    let mut backend = InMemoryBackend::new();
    for k in [b"k3", b"k1", b"k2", b"j9", b"k0"] {
        backend.put(k, b"v").unwrap();
    }
    let keys: Vec<Vec<u8>> = backend.prefix_scan(b"k").unwrap().into_iter().map(|e| e.0).collect();
    assert_eq!(keys, vec![b"k0".to_vec(), b"k1".to_vec(), b"k2".to_vec(), b"k3".to_vec()]);
    assert!(backend.range_scan(b"z", b"a").unwrap().is_empty());
}

#[test]
fn test_clear() {
    let mut backend = InMemoryBackend::new();

    backend.put(b"key1", b"value1").unwrap();
    assert_eq!(backend.len(), 1);

    backend.clear();
    assert_eq!(backend.len(), 0);
    assert!(backend.is_empty());
}

#[test]
fn inmemory_batch_put_later_pair_wins() {
    let mut backend = InMemoryBackend::with_capacity(4);
    backend
        .batch_put(vec![
            (b"a".to_vec(), b"1".to_vec()),
            (b"b".to_vec(), b"2".to_vec()),
            (b"a".to_vec(), b"3".to_vec()),
        ])
        .unwrap();
    assert_eq!(backend.get(b"a").unwrap(), Some(b"3".to_vec()));
    assert_eq!(backend.len(), 2);
    assert_eq!(backend.stats().writes, 2);
    assert!(backend.flush().is_ok());
    assert!(backend.compact().is_ok());
}

#[test]
fn test_node_pattern_wildcard() {
    let pattern = NodePattern::Any;
    let node = Node::iri("http://example.org/test");

    assert!(pattern.matches(&node));
    assert!(pattern.is_wildcard());
    assert!(!pattern.is_concrete());
}

#[test]
fn test_node_pattern_concrete() {
    let node1 = Node::iri("http://example.org/test");
    let node2 = Node::iri("http://example.org/other");

    let pattern = NodePattern::Concrete(node1.clone());

    assert!(pattern.matches(&node1));
    assert!(!pattern.matches(&node2));
    assert!(pattern.is_concrete());
    assert!(!pattern.is_wildcard());
    assert_eq!(pattern.as_node(), Some(&node1));
}

#[test]
fn test_quad_pattern_bound_count() {
    let node = Node::iri("http://example.org/test");

    let pattern = QuadPattern::all();
    assert_eq!(pattern.bound_count(), 0);
    assert!(pattern.is_wildcard());

    let pattern = QuadPattern::new(
        NodePattern::Concrete(node.clone()),
        NodePattern::Any,
        NodePattern::Any,
        NodePattern::Any,
    );
    assert_eq!(pattern.bound_count(), 1);

    let pattern = QuadPattern::new(
        NodePattern::Concrete(node.clone()),
        NodePattern::Concrete(node.clone()),
        NodePattern::Any,
        NodePattern::Any,
    );
    assert_eq!(pattern.bound_count(), 2);

    let pattern = QuadPattern::new(
        NodePattern::Concrete(node.clone()),
        NodePattern::Concrete(node.clone()),
        NodePattern::Concrete(node.clone()),
        NodePattern::Concrete(node.clone()),
    );
    assert_eq!(pattern.bound_count(), 4);
    assert!(pattern.is_fully_bound());
}

#[test]
fn quad_pattern_matches_graph() {
    let q = sample_quad();
    let in_default = QuadPattern::new(
        NodePattern::Any,
        NodePattern::Any,
        NodePattern::Any,
        NodePattern::from_option(None),
    );
    assert!(in_default.matches(&q));
    let in_named = QuadPattern::new(
        NodePattern::Any,
        NodePattern::Any,
        NodePattern::Any,
        NodePattern::Concrete(Node::iri("http://g")),
    );
    assert!(!in_named.matches(&q));
}

#[test]
fn test_quad_store_insert() {
    let mut store = QuadStore::new_in_memory();
    let quad = sample_quad();

    store.insert(quad.clone()).unwrap();
    assert_eq!(store.len(), 1);
    assert!(store.contains(&quad).unwrap());
}

#[test]
fn test_quad_store_remove() {
    let mut store = QuadStore::new_in_memory();
    let quad = sample_quad();

    store.insert(quad.clone()).unwrap();
    assert_eq!(store.len(), 1);

    store.remove(&quad).unwrap();
    assert_eq!(store.len(), 0);
    assert!(!store.contains(&quad).unwrap());
}

#[test]
fn test_quad_store_multiple_inserts() {
    let mut store = QuadStore::new_in_memory();

    for i in 0..100 {
        let quad = Quad::new(
            Node::iri(&format!("http://example.org/s{}", i)),
            Node::iri("http://example.org/p"),
            Node::literal_str(&format!("value{}", i)),
            None,
        );
        store.insert(quad).unwrap();
    }

    assert_eq!(store.len(), 100);
}

#[test]
fn test_quad_store_clear() {
    let mut store = QuadStore::new_in_memory();
    store.insert(sample_quad()).unwrap();
    assert_eq!(store.len(), 1);

    store.clear().unwrap();
    assert_eq!(store.len(), 0);
    assert!(store.is_empty());
}

#[test]
fn quad_store_find_by_pattern() {
    let mut store = QuadStore::new_in_memory();
    let a = Quad::new(Node::iri("http://s1"), Node::iri("http://p"), Node::iri("http://o1"), None);
    let b = Quad::new(Node::iri("http://s2"), Node::iri("http://p"), Node::iri("http://o2"), None);
    let c = Quad::new(Node::iri("http://s1"), Node::iri("http://q"), Node::iri("http://o3"), None);
    store.batch_insert(vec![a.clone(), b.clone(), c.clone()]).unwrap();
    assert_eq!(store.len(), 3);

    let by_subject = QuadPattern::new(
        NodePattern::Concrete(Node::iri("http://s1")),
        NodePattern::Any,
        NodePattern::Any,
        NodePattern::Any,
    );
    let found = store.find(&by_subject);
    assert_eq!(found.len(), 2);
    assert!(found.contains(&a));
    assert!(found.contains(&c));

    let by_predicate = QuadPattern::new(
        NodePattern::Any,
        NodePattern::Concrete(Node::iri("http://p")),
        NodePattern::Any,
        NodePattern::Any,
    );
    let found = store.find(&by_predicate);
    assert_eq!(found.len(), 2);
    assert!(found.contains(&a));
    assert!(found.contains(&b));

    assert_eq!(store.find(&QuadPattern::all()).len(), 3);

    let exact = QuadPattern::new(
        NodePattern::Concrete(Node::iri("http://s2")),
        NodePattern::Concrete(Node::iri("http://p")),
        NodePattern::Concrete(Node::iri("http://o2")),
        NodePattern::Any,
    );
    assert_eq!(store.find(&exact), vec![b]);
}

#[test]
fn quad_store_insert_then_remove_restores() {
    let mut store = QuadStore::new_in_memory();
    let q = sample_quad();
    store.insert(q.clone()).unwrap();
    store.remove(&q).unwrap();
    assert!(store.find(&QuadPattern::all()).is_empty());
}

#[test]
fn test_simd_encoder_creation() {
    let _encoder = SimdEncoder::new();
}

#[test]
fn test_batch_processor_creation() {
    let processor = BatchProcessor::new();
    assert!(processor.batch_size() > 0);
    assert!(processor.num_workers() > 0);
}

#[test]
fn test_batch_processor_custom() {
    let processor = BatchProcessor::new().with_batch_size(4096).with_workers(4);

    assert_eq!(processor.batch_size(), 4096);
    assert_eq!(processor.num_workers(), 4);
}

#[test]
fn test_encode_batch() {
    let quads = vec![Quad::new(
        Node::iri("http://example.org/s"),
        Node::iri("http://example.org/p"),
        Node::iri("http://example.org/o"),
        None,
    )];

    let encoder = SimdEncoder::new();
    let encoded = encoder.encode_batch(&quads, IndexType::SPOC);

    assert_eq!(encoded.len(), 1);
    assert!(!encoded[0].as_slice().is_empty());
}

#[test]
fn test_encode_batch_parallel() {
    let quads: Vec<_> = (0..1000)
        .map(|i| {
            Quad::new(
                Node::iri(&format!("http://example.org/s{}", i)),
                Node::iri("http://example.org/p"),
                Node::iri("http://example.org/o"),
                None,
            )
        })
        .collect();

    let encoder = SimdEncoder::new();
    let encoded = encoder.encode_batch_parallel(&quads, IndexType::SPOC);

    assert_eq!(encoded.len(), 1000);
    for (q, k) in quads.iter().zip(encoded.iter()) {
        assert_eq!(k.to_vec(), IndexType::SPOC.encode_key(q).to_vec());
    }
}

#[test]
fn test_batch_processor_bulk() {
    let quads: Vec<_> = (0..5000)
        .map(|i| {
            Quad::new(
                Node::iri(&format!("http://example.org/s{}", i)),
                Node::iri("http://example.org/p"),
                Node::iri("http://example.org/o"),
                None,
            )
        })
        .collect();

    let processor = BatchProcessor::new().with_batch_size(1024);

    let results = processor.process_bulk(&quads, |chunk: &[Quad]| {
        chunk.iter().map(|q| IndexType::SPOC.encode_key(q)).collect()
    });

    assert_eq!(results.len(), 5000);
}

#[test]
fn test_node_type_byte() {
    assert_eq!(node_type_byte(&Node::iri("http://ex.org")), 0);
    assert_eq!(node_type_byte(&Node::literal_str("value")), 1);
    assert_eq!(node_type_byte(&Node::blank(123)), 2);
}

#[test]
fn test_encode_nodes_batch_simd_correctness() {
    let nodes = vec![
        Node::iri("http://example.org/subject1"),
        Node::iri("http://example.org/subject2"),
        Node::iri("http://example.org/subject3"),
        Node::iri("http://example.org/subject4"),
    ];

    let simd_result = encode_nodes_batch_simd(&nodes);
    let scalar_result = encode_scalar(&nodes);

    assert_eq!(simd_result.len(), scalar_result.len(), "Encoded length mismatch");
    assert_eq!(simd_result, scalar_result, "Encoded content mismatch");
}

#[test]
fn test_encode_nodes_batch_simd_with_literals() {
    let nodes = vec![
        Node::iri("http://example.org/s1"),
        Node::literal_str("value1"),
        Node::blank(123),
        Node::literal_typed("42", "http://www.w3.org/2001/XMLSchema#integer"),
    ];

    let simd_result = encode_nodes_batch_simd(&nodes);
    assert!(!simd_result.is_empty());
    assert_eq!(simd_result[0], 0);
}

#[test]
fn test_encode_nodes_batch_empty() {
    let nodes: Vec<Node> = vec![];
    let result = encode_nodes_batch_simd(&nodes);
    assert!(result.is_empty());
}

#[test]
fn test_encode_nodes_batch_single() {
    let nodes = vec![Node::iri("http://example.org/single")];
    let result = encode_nodes_batch_simd(&nodes);
    assert!(!result.is_empty());
}

#[test]
fn test_simd_encode_empty() {
    let nodes: Vec<Node> = vec![];
    let simd_result = encode_nodes_batch_simd(&nodes);
    assert_eq!(simd_result, encode_scalar(&nodes));
    assert!(simd_result.is_empty());
}

#[test]
fn test_simd_encode_single_iri() {
    let nodes = vec![Node::iri("http://example.org/resource")];
    assert_eq!(encode_nodes_batch_simd(&nodes), encode_scalar(&nodes));
}

#[test]
fn test_simd_encode_four_iris() {
    let nodes = vec![
        Node::iri("http://example.org/s1"),
        Node::iri("http://example.org/s2"),
        Node::iri("http://example.org/s3"),
        Node::iri("http://example.org/s4"),
    ];
    let simd_result = encode_nodes_batch_simd(&nodes);
    let scalar_result = encode_scalar(&nodes);
    assert_eq!(simd_result.len(), scalar_result.len());
    assert_eq!(simd_result, scalar_result);
}

#[test]
fn test_simd_encode_mixed_types() {
    let nodes = vec![
        Node::iri("http://example.org/subject"),
        Node::literal_str("simple literal"),
        Node::blank(42),
        Node::literal_typed("123", "http://www.w3.org/2001/XMLSchema#integer"),
    ];
    assert_eq!(encode_nodes_batch_simd(&nodes), encode_scalar(&nodes));
}

#[test]
fn test_simd_encode_non_multiple_of_four() {
    let nodes = vec![
        Node::iri("http://example.org/s1"),
        Node::iri("http://example.org/s2"),
        Node::iri("http://example.org/s3"),
    ];
    assert_eq!(encode_nodes_batch_simd(&nodes), encode_scalar(&nodes));
}

#[test]
fn test_simd_encode_large_batch() {
    let nodes: Vec<_> = (0..100)
        .map(|i| Node::iri(&format!("http://example.org/resource{}", i)))
        .collect();
    assert_eq!(encode_nodes_batch_simd(&nodes), encode_scalar(&nodes));
}

#[test]
fn test_simd_encode_blank_nodes() {
    let nodes = vec![Node::blank(0), Node::blank(1), Node::blank(12345), Node::blank(u64::MAX)];
    assert_eq!(encode_nodes_batch_simd(&nodes), encode_scalar(&nodes));
}

#[test]
fn test_simd_encode_literals_with_language() {
    let nodes = vec![
        Node::literal_lang("Hello", "en"),
        Node::literal_lang("Bonjour", "fr"),
        Node::literal_lang("Hola", "es"),
        Node::literal_lang("こんにちは", "ja"),
    ];
    assert_eq!(encode_nodes_batch_simd(&nodes), encode_scalar(&nodes));
}

#[test]
fn test_simd_encode_long_uris() {
    let long_uri = "http://www.example.org/very/long/path/to/some/resource/with/many/segments/and/query/params?foo=bar&baz=qux";
    let nodes = vec![
        Node::iri(long_uri),
        Node::iri(long_uri),
        Node::iri(long_uri),
        Node::iri(long_uri),
    ];
    assert_eq!(encode_nodes_batch_simd(&nodes), encode_scalar(&nodes));
}

#[test]
fn blank_node_is_encoded_as_decimal_text() {
    let nodes = vec![Node::blank(305)];
    assert_eq!(encode_nodes_batch_simd(&nodes), vec![2, 3, b'3', b'0', b'5']);
}

#[test]
fn test_prefix_compare_simd_exact_match() {
    let data = b"http://example.org/resource";
    let prefix = b"http://example.org/resource";
    assert!(prefix_compare_simd(data, prefix));
}

#[test]
fn test_prefix_compare_simd_prefix_match() {
    let data = b"http://example.org/resource123";
    let prefix = b"http://example.org/";
    assert!(prefix_compare_simd(data, prefix));
}

#[test]
fn test_prefix_compare_simd_no_match() {
    let data = b"http://example.org/resource";
    let prefix = b"http://other.org/";
    assert!(!prefix_compare_simd(data, prefix));
}

#[test]
fn test_prefix_compare_simd_empty_prefix() {
    let data = b"anything";
    let prefix = b"";
    assert!(prefix_compare_simd(data, prefix));
}

#[test]
fn test_prefix_compare_simd_data_too_short() {
    let data = b"short";
    let prefix = b"very_long_prefix_that_exceeds_data";
    assert!(!prefix_compare_simd(data, prefix));
}

#[test]
fn test_prefix_compare_simd_long_prefix() {
    let data = b"http://www.example.org/very/long/resource/path/name";
    let prefix = b"http://www.example.org/very/long/";
    assert!(prefix_compare_simd(data, prefix));
}

#[test]
fn test_prefix_compare_basic() {
    assert!(prefix_compare_simd(b"http://example.org/resource", b"http://example.org/"));
}

#[test]
fn test_prefix_compare_no_match() {
    assert!(!prefix_compare_simd(b"http://example.org/resource", b"http://other.org/"));
}

#[test]
fn test_prefix_compare_empty_prefix() {
    assert!(prefix_compare_simd(b"anything", b""));
}

#[test]
fn test_prefix_compare_exact_match() {
    assert!(prefix_compare_simd(b"http://example.org", b"http://example.org"));
}

#[test]
fn test_prefix_compare_long_prefix() {
    let data = b"http://www.example.org/very/long/resource/path/name/with/many/segments";
    let prefix = b"http://www.example.org/very/long/resource/path/";
    assert!(prefix_compare_simd(data, prefix));
}

#[test]
fn test_prefix_compare_data_too_short() {
    assert!(!prefix_compare_simd(b"short", b"this_is_much_longer_than_the_data"));
}

#[test]
fn prefix_compare_mismatch_in_second_chunk() {
    let data = b"0123456789abcdefXYZ";
    let prefix = b"0123456789abcdefXYQ";
    assert!(!prefix_compare_simd(data, prefix));
}

#[test]
fn test_operation_type_metrics() {
    assert_eq!(OperationType::Get.metric_name(), "storage.get");
    assert_eq!(OperationType::Put.counter_name(), "storage.put.count");
    assert_eq!(OperationType::Get.latency_name(), "storage.get.latency_ms");
    assert_eq!(OperationType::Delete.error_name(), "storage.delete.errors");
}

#[test]
fn operation_type_other_names() {
    assert_eq!(OperationType::RangeScan.metric_name(), "storage.range_scan");
    assert_eq!(OperationType::BatchPut.counter_name(), "storage.batch_put.count");
}

#[test]
fn test_transaction_buffer() {
    let mut txn = InMemoryTransaction::new();

    txn.put(b"key1", b"value1").unwrap();
    txn.put(b"key2", b"value2").unwrap();
    txn.delete(b"key3").unwrap();

    let (puts, deletes) = txn.into_changes();

    assert_eq!(puts.len(), 2);
    assert_eq!(deletes.len(), 1);
}

#[test]
fn transaction_reads_nothing_back() {
    let mut txn = InMemoryTransaction::new();
    txn.put(b"k", b"v").unwrap();
    assert_eq!(txn.get(b"k").unwrap(), None);
    let (puts, deletes) = txn.into_changes();
    assert_eq!(puts, vec![(b"k".to_vec(), b"v".to_vec())]);
    assert!(deletes.is_empty());
}

#[test]
fn test_transaction_commit() {
    let txn = Box::new(InMemoryTransaction::new());
    assert!(txn.commit().is_ok());
}

#[test]
fn test_transaction_rollback() {
    let txn = Box::new(InMemoryTransaction::new());
    assert!(txn.rollback().is_ok());
}

#[test]
fn test_rocksdb_comprehensive_placeholder() {
    assert!(true);
}

#[test]
fn test_module_compiles() {
    let _backend = InMemoryBackend::new();
}

#[test]
fn simd_memcpy_copies_prefix_and_keeps_rest() {
    let src: Vec<u8> = (0u8..40).collect();
    let mut dst = vec![0xffu8; 50];
    simd_memcpy(&mut dst, &src, 37);
    assert_eq!(&dst[..37], &src[..37]);
    assert!(dst[37..].iter().all(|b| *b == 0xff));
    let mut empty_copy = vec![7u8; 3];
    simd_memcpy(&mut empty_copy, &src, 0);
    assert_eq!(empty_copy, vec![7u8, 7, 7]);
}

fn iri_quad(s: &str, p: &str, o: &str) -> Quad {
    Quad::new(Node::iri(s), Node::iri(p), Node::iri(o), None)
}

#[test]
fn inserting_a_held_quad_keeps_the_count() {
    let mut store = QuadStore::new_in_memory();
    store.insert(iri_quad("http://s", "http://p", "http://o")).unwrap();
    store.insert(iri_quad("http://s", "http://p", "http://o")).unwrap();
    assert_eq!(store.len(), 1);
    store.insert(iri_quad("http://s", "http://p", "http://o2")).unwrap();
    assert_eq!(store.len(), 2);
}

#[test]
fn removing_an_absent_quad_keeps_the_count() {
    let mut store = QuadStore::new_in_memory();
    store.insert(iri_quad("http://s", "http://p", "http://o")).unwrap();
    store.remove(&iri_quad("http://s", "http://p", "http://other")).unwrap();
    assert_eq!(store.len(), 1);
    store.remove(&iri_quad("http://s", "http://p", "http://o")).unwrap();
    assert_eq!(store.len(), 0);
    store.remove(&iri_quad("http://s", "http://p", "http://o")).unwrap();
    assert_eq!(store.len(), 0);
}

#[test]
fn batch_insert_counts_each_new_quad_once() {
    let mut store = QuadStore::new_in_memory();
    store.insert(iri_quad("http://s", "http://p", "http://o1")).unwrap();
    store
        .batch_insert(vec![
            iri_quad("http://s", "http://p", "http://o1"),
            iri_quad("http://s", "http://p", "http://o2"),
            iri_quad("http://s", "http://p", "http://o2"),
            iri_quad("http://s", "http://p", "http://o3"),
        ])
        .unwrap();
    assert_eq!(store.len(), 3);
    assert!(store.contains(&iri_quad("http://s", "http://p", "http://o3")).unwrap());
}

#[test]
fn one_index_key_can_read_as_another_quads_key() {
    // All four indexes share one key space: the POCS key of the first quad is
    // byte for byte the SPOC key of the second.
    let first = Quad::new(Node::iri(""), Node::iri("http://x"), Node::iri("http://y"), None);
    let second = Quad::new(Node::iri("http://x"), Node::iri("http://y"), Node::iri(""), None);
    assert_eq!(
        IndexType::POCS.encode_key(&first).as_slice(),
        IndexType::SPOC.encode_key(&second).as_slice()
    );
    let mut store = QuadStore::new_in_memory();
    store.insert(first).unwrap();
    assert!(store.contains(&second).unwrap());
    store.insert(second).unwrap();
    assert_eq!(store.len(), 1);
}

#[test]
fn select_best_takes_the_longest_bound_prefix() {
    assert_eq!(IndexType::select_best(true, true, false, true), IndexType::CSPO);
    assert_eq!(IndexType::select_best(false, false, true, true), IndexType::OCSP);
    assert_eq!(IndexType::select_best(true, false, true, false), IndexType::SPOC);
    assert_eq!(IndexType::select_best(true, true, true, true), IndexType::SPOC);
    assert_eq!(IndexType::select_best(false, true, true, true), IndexType::POCS);
}
