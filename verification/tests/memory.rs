//! Heap accounting.
use hybrid_inlining_paper::analysis::run_hybrid;
use hybrid_inlining_paper::example;
use hybrid_inlining_paper::mem::{
    header, idb_relations, idb_tuples, listing, measure, payload_of, split, totals, Block, Counting, Payload, Usage,
};

#[test]
fn the_totals_follow_allocations_and_releases() {
    let mut c = Counting::new();
    c.note_alloc(100);
    c.note_alloc(50);
    c.note_free(100);
    assert_eq!((c.live(), c.peak(), c.allocs(), c.allocated()), (50, 150, 2, 150));
    c.reset_peak();
    assert_eq!(c.peak(), 50);
    c.note_realloc(50, 80);
    assert_eq!((c.live(), c.peak(), c.allocs(), c.allocated()), (80, 80, 3, 230));
}

#[test]
fn a_measurement_is_what_lies_between_two_readings() {
    let mut c = Counting::new();
    c.note_alloc(10);
    c.reset_peak();
    let start = c;
    c.note_alloc(40);
    c.note_alloc(5);
    c.note_free(40);
    let usage = measure(&start, &c);
    assert_eq!(usage, Usage { retained: 5, peak: 45, allocs: 2 });
    c.note_free(15);
    assert_eq!(measure(&start, &c).retained, 0, "less than at the start counts as nothing");
    assert_eq!(Usage::default(), Usage { retained: 0, peak: 0, allocs: 0 });
}

#[test]
fn a_shared_allocation_counts_once() {
    let counts = 2 * std::mem::size_of::<usize>();
    assert_eq!(header(), counts);
    let (a, b) = (Block { address: 16, bytes: 3 }, Block { address: 32, bytes: 5 });
    let mut p = Payload::default();
    p.walk_all(&[(a, b), (b, a)]);
    assert_eq!(p.bytes(), 2 * counts + 8, "each with its header");
    p.restart();
    assert_eq!(p.bytes(), 0);
    p.walk_all(&[(a, 7usize, Block { address: 48, bytes: 2 })]);
    assert_eq!(p.bytes(), counts + 2, "what was walked before the restart stays counted");
    assert!(!p.allocation(48, 9));
    assert!(p.allocation(64, 9));
    assert_eq!(p.bytes(), 2 * counts + 11);
}

#[test]
fn the_relations_are_listed_with_their_sizes() {
    let h = run_hybrid(&example::figure1(), 4);
    let list = idb_relations(&h);
    assert_eq!(list.len(), 38);
    let of = |name: &str| list.iter().find(|(n, _)| *n == name).map(|(_, k)| *k);
    assert_eq!(of("edge"), Some(40));
    assert_eq!(of("points"), Some(53));
    assert_eq!(of("pub_edge"), Some(16));
    assert_eq!(of("resolve"), Some(2));
    assert_eq!(idb_tuples(&h), list.iter().map(|(_, n)| n).sum::<usize>());
}

#[test]
fn what_is_left_over_is_never_negative() {
    let usage = Usage { retained: 100, peak: 0, allocs: 0 };
    assert_eq!(split(30, 20, &usage), (30, 20, 50));
    assert_eq!(split(90, 20, &usage), (90, 20, 0));
}

#[test]
fn the_table_lists_the_relations_in_use_from_the_largest_down() {
    let rels = vec![
        ("top", 2, 64),
        ("edge", 5, 640),
        ("stuck", 0, 900),
        ("blocked", 1, 64),
        ("points", 7, 128),
    ];
    let rows = listing(rels);
    assert_eq!(
        rows,
        vec![("edge", 5, 640), ("points", 7, 128), ("blocked", 1, 64), ("top", 2, 64)]
    );
    assert_eq!(totals(&rows), (15, 896));
    assert_eq!(listing(vec![("stuck", 0, 900)]), vec![]);
    assert_eq!(totals(&vec![]), (0, 0));
    let same = listing(vec![("a", 2, 8), ("b", 1, 8), ("a", 1, 8)]);
    assert_eq!(same, vec![("a", 2, 8), ("a", 1, 8), ("b", 1, 8)], "ties keep their order");
}

#[test]
fn what_the_facts_hold_already_is_not_charged_to_what_was_derived() {
    let fact = Block { address: 16, bytes: 3 };
    let (new, shared) = (Block { address: 32, bytes: 5 }, Block { address: 16, bytes: 3 });
    let before = vec![fact];
    assert_eq!(payload_of(&before, &vec![new, shared, new]), header() + 5);
    assert_eq!(payload_of(&before, &vec![shared, shared]), 0);
    assert_eq!(payload_of(&vec![], &vec![new, shared]), 2 * header() + 8);
    assert_eq!(payload_of(&before, &vec![]), 0);
}
