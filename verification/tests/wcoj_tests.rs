use kgdb::leapfrog::{LeapfrogIterator, LeapfrogJoin};
use kgdb::node::{Node, Quad};
use kgdb::node_order::{compare_nodes, Relation};
use kgdb::trie::{Trie, TrieLevel, TriplePosition};

const SPO: [TriplePosition; 3] = [TriplePosition::Subject, TriplePosition::Predicate, TriplePosition::Object];

fn iri(s: &str) -> Node {
    Node::iri(s)
}

fn quad(s: &str, p: &str, o: &str) -> Quad {
    Quad::new(iri(s), iri(p), iri(o), None)
}

fn create_test_quads() -> Vec<Quad> {
    vec![
        quad("http://example.org/s1", "http://example.org/p1", "http://example.org/o1"),
        quad("http://example.org/s1", "http://example.org/p2", "http://example.org/o2"),
        quad("http://example.org/s2", "http://example.org/p1", "http://example.org/o3"),
    ]
}

fn create_star_quads() -> Vec<Quad> {
    vec![
        quad("http://example.org/s1", "http://example.org/p1", "http://example.org/o1"),
        quad("http://example.org/s1", "http://example.org/p2", "http://example.org/o2"),
        quad("http://example.org/s1", "http://example.org/p3", "http://example.org/o3"),
    ]
}

#[test]
fn test_trie_creation() {
    let trie = Trie::from_quads(create_test_quads(), &SPO);
    let root_values = trie.root_values();
    assert_eq!(root_values.len(), 2);
}

#[test]
fn test_trie_seek() {
    let mut trie = Trie::from_quads(create_test_quads(), &SPO);
    let found = trie.seek(&iri("http://example.org/s1"));
    assert!(found);
    assert_eq!(trie.current(), Some(iri("http://example.org/s1")));
}

#[test]
fn test_trie_next() {
    let mut trie = Trie::from_quads(create_test_quads(), &SPO);
    let first = trie.next();
    assert!(first.is_some());
    let second = trie.next();
    assert!(second.is_some());
    assert_ne!(first, second);
    let third = trie.next();
    assert!(third.is_none());
}

#[test]
fn test_trie_open() {
    let mut trie = Trie::from_quads(create_test_quads(), &SPO);
    trie.next();
    assert!(trie.open());
    let pred = trie.next();
    assert!(pred.is_some());
}

#[test]
fn test_trie_iteration() {
    let mut trie = Trie::from_quads(create_test_quads(), &SPO);
    let mut count = 0;
    while let Some(_subj) = trie.next() {
        count += 1;
        if trie.open() {
            while let Some(_pred) = trie.next() {
                if trie.open() {
                    while let Some(_obj) = trie.next() {
                        count += 1;
                    }
                    trie.up();
                }
            }
            trie.up();
        }
    }
    assert!(count > 0);
}

#[test]
fn trie_values_are_sorted_and_distinct() {
    let quads = vec![
        quad("http://x/c", "http://p", "http://o"),
        quad("http://x/a", "http://p", "http://o"),
        quad("http://x/b", "http://p", "http://o"),
        quad("http://x/a", "http://q", "http://o"),
    ];
    let trie = Trie::from_quads(quads, &SPO);
    assert_eq!(trie.root_values(), vec![iri("http://x/a"), iri("http://x/b"), iri("http://x/c")]);
    assert_eq!(trie.depth(), 3);
}

#[test]
fn trie_seek_lands_on_next_greater() {
    let mut trie = Trie::from_quads(create_test_quads(), &SPO);
    assert!(!trie.seek(&iri("http://example.org/s10")));
    assert_eq!(trie.current(), Some(iri("http://example.org/s2")));
    assert!(!trie.at_end());
    assert!(!trie.seek(&iri("http://example.org/z")));
    assert!(trie.at_end());
    trie.reset();
    assert!(!trie.at_end());
    assert_eq!(trie.current(), None);
}

#[test]
fn trie_open_and_up_follow_the_path() {
    let mut trie = Trie::from_quads(create_test_quads(), &SPO);
    assert!(!trie.open());
    assert!(!trie.up());
    trie.seek(&iri("http://example.org/s1"));
    assert!(trie.open());
    assert_eq!(trie.next(), Some(iri("http://example.org/p1")));
    assert_eq!(trie.next(), Some(iri("http://example.org/p2")));
    assert_eq!(trie.next(), None);
    assert!(trie.at_end());
}

#[test]
fn trie_level_insert_and_children() {
    let mut level = TrieLevel::new(false);
    assert!(level.is_empty());
    level.insert(&[iri("b"), iri("x")]);
    level.insert(&[iri("a"), iri("y")]);
    level.insert(&[iri("a"), iri("z")]);
    assert_eq!(level.len(), 2);
    assert_eq!(level.sorted_values(), vec![iri("a"), iri("b")]);
    let child = level.get_child(&iri("a")).unwrap();
    assert_eq!(child.sorted_values(), vec![iri("y"), iri("z")]);
    assert!(level.get_child(&iri("c")).is_none());
    level.insert(&[]);
    assert_eq!(level.len(), 2);
}

#[test]
fn trie_level_leaf_values_without_duplicates() {
    let mut leaf = TrieLevel::new(true);
    leaf.insert(&[iri("m")]);
    leaf.insert(&[iri("k")]);
    leaf.insert(&[iri("m")]);
    assert_eq!(leaf.sorted_values(), vec![iri("k"), iri("m")]);
    assert_eq!(leaf.len(), 2);
}

#[test]
fn node_order_ranks_kinds_then_text() {
    assert_eq!(compare_nodes(&iri("b"), &iri("a")), Relation::After);
    assert_eq!(compare_nodes(&iri("a"), &iri("ab")), Relation::Before);
    assert_eq!(compare_nodes(&iri("z"), &Node::literal_str("a")), Relation::Before);
    assert_eq!(compare_nodes(&Node::blank(3), &Node::blank(3)), Relation::Same);
    assert_eq!(
        compare_nodes(&Node::literal_str("v"), &Node::literal_lang("v", "en")),
        Relation::Before
    );
}

#[test]
fn test_leapfrog_iterator_creation() {
    let trie1 = Trie::from_quads(create_star_quads(), &SPO);
    let trie2 = Trie::from_quads(create_star_quads(), &SPO);
    let leapfrog = LeapfrogIterator::new(vec![trie1, trie2]);
    assert_eq!(leapfrog.num_tries(), 2);
    assert!(!leapfrog.at_end());
}

#[test]
fn test_leapfrog_search() {
    let trie1 = Trie::from_quads(create_star_quads(), &SPO);
    let trie2 = Trie::from_quads(create_star_quads(), &SPO);
    let mut leapfrog = LeapfrogIterator::new(vec![trie1, trie2]);
    let result = leapfrog.leapfrog_search();
    assert!(result.is_some());
    assert_eq!(result.unwrap(), iri("http://example.org/s1"));
}

#[test]
fn test_leapfrog_next() {
    let quads = create_star_quads();
    let mut quads2 = quads.clone();
    quads2.push(quad("http://example.org/s2", "http://example.org/p1", "http://example.org/o4"));
    let trie1 = Trie::from_quads(quads, &SPO);
    let trie2 = Trie::from_quads(quads2, &SPO);
    let mut leapfrog = LeapfrogIterator::new(vec![trie1, trie2]);
    let first = leapfrog.leapfrog_search();
    assert!(first.is_some());
    let next = leapfrog.leapfrog_next();
    assert!(next.is_some() || leapfrog.at_end());
}

#[test]
fn test_leapfrog_join_execute() {
    let trie1 = Trie::from_quads(create_star_quads(), &SPO);
    let trie2 = Trie::from_quads(create_star_quads(), &SPO);
    let mut join = LeapfrogJoin::new(vec![trie1, trie2]);
    let results = join.execute();
    assert!(!results.is_empty());
}

#[test]
fn test_leapfrog_empty_intersection() {
    let trie1 = Trie::from_quads(vec![quad("http://example.org/s1", "http://example.org/p", "http://example.org/o")], &SPO);
    let trie2 = Trie::from_quads(vec![quad("http://example.org/s2", "http://example.org/p", "http://example.org/o")], &SPO);
    let mut leapfrog = LeapfrogIterator::new(vec![trie1, trie2]);
    let result = leapfrog.leapfrog_search();
    assert!(result.is_none() || leapfrog.at_end());
}

#[test]
fn test_leapfrog_single_trie() {
    let trie = Trie::from_quads(create_star_quads(), &SPO);
    let mut leapfrog = LeapfrogIterator::new(vec![trie]);
    let result = leapfrog.leapfrog_search();
    assert!(result.is_some());
}

#[test]
fn test_leapfrog_reset() {
    let trie1 = Trie::from_quads(create_star_quads(), &SPO);
    let trie2 = Trie::from_quads(create_star_quads(), &SPO);
    let mut leapfrog = LeapfrogIterator::new(vec![trie1, trie2]);
    let first = leapfrog.leapfrog_search();
    assert!(first.is_some());
    leapfrog.reset();
    let second = leapfrog.leapfrog_search();
    assert_eq!(first, second);
}

#[test]
fn leapfrog_finds_every_common_root_value_in_order() {
    let a = Trie::from_quads(
        vec![quad("http://x/1", "http://p", "http://o"), quad("http://x/3", "http://p", "http://o"), quad("http://x/5", "http://p", "http://o"), quad("http://x/7", "http://p", "http://o")],
        &SPO,
    );
    let b = Trie::from_quads(
        vec![quad("http://x/2", "http://p", "http://o"), quad("http://x/3", "http://p", "http://o"), quad("http://x/7", "http://p", "http://o"), quad("http://x/9", "http://p", "http://o")],
        &SPO,
    );
    let mut it = LeapfrogIterator::new(vec![a, b]);
    assert_eq!(it.leapfrog_search(), Some(iri("http://x/3")));
    assert_eq!(it.current(), Some(iri("http://x/3")));
    assert_eq!(it.leapfrog_next(), Some(iri("http://x/7")));
    assert_eq!(it.leapfrog_next(), None);
    assert!(it.at_end());
    assert_eq!(it.leapfrog_next(), None);
}

#[test]
fn leapfrog_without_tries_is_ended() {
    let mut it = LeapfrogIterator::new(Vec::new());
    assert!(it.at_end());
    assert_eq!(it.leapfrog_search(), None);
    assert_eq!(it.current(), None);
    assert!(!it.open());
    assert!(!it.up());
}

#[test]
fn leapfrog_join_lists_every_shared_path() {
    let trie1 = Trie::from_quads(create_star_quads(), &SPO);
    let trie2 = Trie::from_quads(create_star_quads(), &SPO);
    let mut join = LeapfrogJoin::new(vec![trie1, trie2]);
    assert_eq!(join.estimate_cardinality(), 2);
    let results = join.execute();
    assert_eq!(
        results,
        vec![
            vec![iri("http://example.org/s1"), iri("http://example.org/p1"), iri("http://example.org/o1")],
            vec![iri("http://example.org/s1"), iri("http://example.org/p2"), iri("http://example.org/o2")],
            vec![iri("http://example.org/s1"), iri("http://example.org/p3"), iri("http://example.org/o3")],
        ]
    );
}

#[test]
fn leapfrog_join_over_one_level_lists_every_common_value() {
    let one = [TriplePosition::Object];
    let a = Trie::from_quads(create_test_quads(), &one);
    let b = Trie::from_quads(create_test_quads(), &one);
    let mut join = LeapfrogJoin::new(vec![a, b]);
    assert!(join.execute().is_empty());
    let two = [TriplePosition::Predicate, TriplePosition::Object];
    let a = Trie::from_quads(create_test_quads(), &two);
    let b = Trie::from_quads(vec![quad("http://q", "http://example.org/p1", "http://example.org/o3")], &two);
    let mut join = LeapfrogJoin::new(vec![a, b]);
    assert_eq!(
        join.execute(),
        vec![vec![iri("http://example.org/p1"), iri("http://example.org/o3")]]
    );
}

#[test]
fn leapfrog_join_of_nothing_is_empty() {
    let mut join = LeapfrogJoin::new(Vec::new());
    assert_eq!(join.estimate_cardinality(), 0);
    assert!(join.execute().is_empty());
}

#[test]
fn every_quad_can_be_walked_down_its_trie() {
    let quads = create_test_quads();
    let mut trie = Trie::from_quads(quads.clone(), &SPO);
    for q in &quads {
        trie.reset();
        assert!(trie.seek(&q.subject));
        assert!(trie.open());
        assert!(trie.seek(&q.predicate));
        assert!(trie.open());
        assert!(trie.seek(&q.object));
    }
}

#[test]
fn leapfrog_join_lists_the_paths_held_by_both_tries_in_order() {
    let two = [TriplePosition::Subject, TriplePosition::Object];
    let qa = vec![
        quad("http://s/1", "http://p", "http://o/2"),
        quad("http://s/1", "http://p", "http://o/1"),
        quad("http://s/1", "http://p", "http://o/3"),
        quad("http://s/2", "http://p", "http://o/1"),
        quad("http://s/3", "http://p", "http://o/9"),
    ];
    let qb = vec![
        quad("http://s/2", "http://p", "http://o/1"),
        quad("http://s/1", "http://p", "http://o/3"),
        quad("http://s/1", "http://p", "http://o/1"),
        quad("http://s/3", "http://p", "http://o/8"),
    ];
    let a = Trie::from_quads(qa, &two);
    let b = Trie::from_quads(qb, &two);
    let mut join = LeapfrogJoin::new(vec![a, b]);
    let expected = vec![
        vec![iri("http://s/1"), iri("http://o/1")],
        vec![iri("http://s/1"), iri("http://o/3")],
        vec![iri("http://s/2"), iri("http://o/1")],
    ];
    assert_eq!(join.execute(), expected);
    assert_eq!(join.execute(), expected);
}
