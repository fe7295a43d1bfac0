use kernel::trie::WeightTrie;
use kernel::weightedsweep::{
    choice, choice_ok_exec, descend_until, next_atom, walk, ChunkedPQTraverse, PathChoice, Traverse, U64AtomHeader,
    UnitHeader,
};

#[test]
fn headers_convert() {
    assert_eq!(U64AtomHeader::from(50).0, 50);
    assert_eq!(i32::from(U64AtomHeader(42)), 42);
    assert_eq!(U64AtomHeader::default(), U64AtomHeader(0));
    assert_eq!(i32::from(UnitHeader::from(7)), 0);
    assert_eq!(UnitHeader::default(), UnitHeader);
    let _t: Traverse = Traverse::default();
}

#[test]
fn header_order_follows_weight() {
    assert!(U64AtomHeader(10) < U64AtomHeader(50));
    assert!(U64AtomHeader(-1) < U64AtomHeader(0));
}

#[test]
fn choice_takes_the_value_when_the_number_is_small() {
    let mut r = 2;
    assert!(matches!(choice(&vec![(5, b'a')], Some(3), &mut r), PathChoice::Value(())));
    assert_eq!(r, 2);
    let mut r = 3;
    assert!(matches!(choice(&vec![(5, b'a')], Some(3), &mut r), PathChoice::Path(b'a')));
    assert_eq!(r, 0);
}

#[test]
fn choice_goes_down_the_weights() {
    let params = vec![(10, b'a'), (20, b'b'), (30, b'c')];
    let mut r = 25;
    assert!(matches!(choice(&params, None, &mut r), PathChoice::Path(b'b')));
    assert_eq!(r, 15);
    let mut r = 9;
    assert!(matches!(choice(&params, None, &mut r), PathChoice::Path(b'a')));
    assert_eq!(r, 9);
    let mut r = 59;
    assert!(matches!(choice(&params, None, &mut r), PathChoice::Path(b'c')));
    assert_eq!(r, 29);
}

#[test]
fn choice_past_every_weight_takes_the_first_child() {
    let params = vec![(1, b'x'), (1, b'y')];
    let mut r = 5;
    assert!(matches!(choice(&params, Some(2), &mut r), PathChoice::Path(b'x')));
    assert_eq!(r, 1);
}

#[test]
fn queue_pops_heaviest_first() {
    let mut q = ChunkedPQTraverse::new(2);
    q.push(vec![1, 1], 10);
    q.push(vec![2, 1], 50);
    q.push(vec![3, 1], 30);
    assert_eq!(q.pop(), Some(vec![2, 1]));
    assert_eq!(q.pop(), Some(vec![3, 1]));
    assert_eq!(q.pop(), Some(vec![1, 1]));
    assert_eq!(q.pop(), None);
    assert!(q.is_empty());
}

#[test]
fn equal_scores_pop_smaller_path_first() {
    let mut q = ChunkedPQTraverse::default();
    assert_eq!(q.depth(), 3);
    q.push(vec![4, 1], 7);
    q.push(vec![3, 1], 7);
    q.push(vec![5], 7);
    assert_eq!(q.pop(), Some(vec![3, 1]));
    assert_eq!(q.pop(), Some(vec![4, 1]));
    assert_eq!(q.pop(), Some(vec![5]));
}

#[test]
fn clear_empties_the_queue() {
    let mut q = ChunkedPQTraverse::new(1);
    q.push(vec![1], 1);
    assert!(!q.is_empty());
    q.clear();
    assert!(q.is_empty());
    assert_eq!(q.depth(), 1);
}

#[test]
fn choice_ok_checks_a_step() {
    let params = vec![(10, b'a'), (20, b'b')];
    assert!(choice_ok_exec(&params, None, 29));
    assert!(choice_ok_exec(&params, None, 45));
    assert!(!choice_ok_exec(&vec![], Some(1), 5));
    assert!(!choice_ok_exec(&vec![], Some(5), 5));
    assert!(choice_ok_exec(&vec![], Some(6), 5));
    assert!(!choice_ok_exec(&vec![(-5, b'a')], None, i32::MAX));
}

fn trie(atoms: &[(&[u8], i32)]) -> WeightTrie {
    let mut t = WeightTrie::new();
    for (p, w) in atoms {
        t.set_val_at(p, *w);
    }
    t
}

#[test]
fn trie_weights_and_children() {
    let t = trie(&[(&[1, 2, 3], 10), (&[1, 2, 4], 20), (&[1, 3, 1], 30), (&[1], 5)]);
    assert!(t.fits());
    assert_eq!(t.val_count(), 4);
    assert_eq!(t.weight_under(&[]), 65);
    assert_eq!(t.weight_under(&[1]), 65);
    assert_eq!(t.weight_under(&[1, 2]), 30);
    assert_eq!(t.weight_under(&[2]), 0);
    assert_eq!(t.value_at(&[1]), Some(5));
    assert_eq!(t.value_at(&[1, 2]), None);
    assert_eq!(t.children_agg_w(&vec![1]), vec![(30, 2), (30, 3)]);
    assert_eq!(t.children_agg_w(&vec![1, 2, 3]), vec![]);
    assert!(t.has_child(&vec![1, 3], 1));
    assert!(!t.has_child(&vec![1, 3], 2));
}

#[test]
fn trie_fits_bounds_the_absolute_total() {
    let t = trie(&[(&[1], i32::MAX), (&[2], 1)]);
    assert!(!t.fits());
    let t = trie(&[(&[1], i32::MAX - 1), (&[2], -1)]);
    assert!(t.fits());
}

#[test]
fn descend_until_follows_single_children() {
    let t = trie(&[(&[1, 2, 3, 4], 1), (&[1, 2, 3, 5], 1), (&[7, 8], 2), (&[7, 8, 9], 1)]);
    assert_eq!(descend_until(&t, &vec![1]), vec![1, 2, 3]);
    assert_eq!(descend_until(&t, &vec![7]), vec![7, 8]);
    assert_eq!(descend_until(&t, &vec![]), vec![]);
}

#[test]
fn walk_follows_the_random_number() {
    let t = trie(&[(&[1, 1, 1], 10), (&[2, 2, 2], 20), (&[3, 3, 3], 50)]);
    assert_eq!(walk(&t, &vec![], 0), Some(vec![1, 1, 1]));
    assert_eq!(walk(&t, &vec![], 9), Some(vec![1, 1, 1]));
    assert_eq!(walk(&t, &vec![], 10), Some(vec![2, 2, 2]));
    assert_eq!(walk(&t, &vec![], 29), Some(vec![2, 2, 2]));
    assert_eq!(walk(&t, &vec![], 30), Some(vec![3, 3, 3]));
    assert_eq!(walk(&t, &vec![], 79), Some(vec![3, 3, 3]));
}

#[test]
fn walk_stops_at_a_value_on_the_way() {
    let t = trie(&[(&[1], 5), (&[1, 1], 10), (&[1, 2], 10)]);
    assert_eq!(walk(&t, &vec![], 0), Some(vec![1]));
    assert_eq!(walk(&t, &vec![], 4), Some(vec![1]));
    assert_eq!(walk(&t, &vec![], 5), Some(vec![1, 1]));
    assert_eq!(walk(&t, &vec![], 14), Some(vec![1, 1]));
    assert_eq!(walk(&t, &vec![], 15), Some(vec![1, 2]));
    assert_eq!(walk(&t, &vec![], 24), Some(vec![1, 2]));
}

#[test]
fn walk_counts_match_the_weights() {
    // a weight on an inner node: every number below the total reaches an atom, and
    // each atom is reached by as many numbers as it weighs
    let t = trie(&[(&[1], 50), (&[1, 2, 3], 5)]);
    let mut inner = 0;
    let mut leaf = 0;
    for r in 0..55 {
        match walk(&t, &vec![], r) {
            Some(p) if p == vec![1] => inner += 1,
            Some(p) if p == vec![1, 2, 3] => leaf += 1,
            other => panic!("unexpected {:?}", other),
        }
    }
    assert_eq!((inner, leaf), (50, 5));
}

#[test]
fn walk_past_a_leaf_value_cannot_step() {
    // past every weight the walk falls back to the first child, whose chain ends
    // at a value of 3, smaller than what is left of the number
    let t = trie(&[(&[0, 5, 5], 3), (&[1], 1)]);
    assert_eq!(walk(&t, &vec![], 40), None);
    assert_eq!(walk(&t, &vec![], 3), Some(vec![1]));
}

#[test]
fn next_atom_on_a_weightless_trie_gives_the_start() {
    assert_eq!(next_atom(&WeightTrie::new(), &vec![]), Some(vec![]));
    let t = trie(&[(&[1], 0), (&[2], 0)]);
    assert_eq!(next_atom(&t, &vec![4]), Some(vec![4]));
    let neg = trie(&[(&[1], -3)]);
    assert_eq!(next_atom(&neg, &vec![]), None);
}

#[test]
fn test_weighted_empty_pathmap() {
    let map = WeightTrie::new();
    let atom = next_atom(&map, &vec![]);
    assert_eq!(atom.is_some(), true);
}

#[test]
fn test_weighted_random_distribution_unique_path() {
    let map = trie(&[(&[1, 1, 1], 10), (&[2, 2, 2], 20), (&[3, 3, 3], 50)]);
    let mut atom_counts = std::collections::HashMap::new();
    for _ in 0..100 {
        if let Some(atom_path) = next_atom(&map, &vec![]) {
            *atom_counts.entry(atom_path.clone()).or_insert(0) += 1;
        }
    }
    for (path, count) in &atom_counts {
        let percentage = (*count as f64 / 100.0) * 100.0;
        let expected = match path {
            p if p == &[1, 1, 1] => 12.5,
            p if p == &[2, 2, 2] => 25.0,
            p if p == &[3, 3, 3] => 62.5,
            _ => 0.0,
        };
        assert!((percentage - expected).abs() < 15.0, "Path {:?} has {}%, expected {}%", path, percentage, expected);
    }
}

#[test]
fn test_weighted_random_distribution_overlapping_path() {
    let atoms: Vec<(Vec<u8>, i32)> = vec![
        (vec![1, 1, 1], 10),
        (vec![1, 1, 2], 30),
        (vec![2, 1, 1], 15),
        (vec![2, 1, 2], 2),
        (vec![2, 2, 2], 8),
        (vec![2, 2, 1], 20),
    ];
    let total_weight: u64 = atoms.iter().map(|(_, h)| *h as u64).sum();
    let mut map = WeightTrie::new();
    for (path, header) in &atoms {
        map.set_val_at(path, *header);
    }
    let mut atom_counts = std::collections::HashMap::new();
    for _ in 0..100 {
        if let Some(atom_path) = next_atom(&map, &vec![]) {
            *atom_counts.entry(atom_path.clone()).or_insert(0) += 1;
        }
    }
    for (path, count) in &atom_counts {
        let percentage = (*count as f64 / 100.0) * 100.0;
        let weight = atoms.iter().find(|(p, _)| p.as_slice() == path.as_slice()).map(|(_, h)| *h).unwrap_or(0);
        let expected = (weight as f64 / total_weight as f64) * 100.0;
        assert!((percentage - expected).abs() < 15.0, "Path {:?} has {}%, expected {}%", path, percentage, expected);
    }
}

#[test]
fn test_traversal_engine_functionality() {
    let map = trie(&[(&[1, 2, 3], 5), (&[4, 5, 6], 2)]);
    for _ in 0..10 {
        let atom = next_atom(&map, &vec![]).unwrap();
        assert!(atom == vec![1, 2, 3] || atom == vec![4, 5, 6]);
    }
}

#[test]
fn test_weight_propagation() {
    let mut map = trie(&[(&[1, 2, 3], 10), (&[1, 2, 4], 20), (&[1, 3, 1], 30)]);
    assert_eq!(map.value_at(&[1, 2, 3]), Some(10));
    map.set_val_at(&[1, 2, 3], 50);
    assert_eq!(map.value_at(&[1, 2, 3]), Some(50));
}

#[test]
fn test_performance_large_dataset() {
    let mut map = WeightTrie::new();
    for i in 0..1000 {
        let path = vec![i as u8, (i / 10) as u8, (i / 100) as u8];
        map.set_val_at(&path, (i % 50) as i32 + 1);
    }
    let mut successful_traversal = 0;
    for _ in 0..100 {
        if next_atom(&map, &vec![]).is_some() {
            successful_traversal += 1;
        }
    }
    assert_eq!(successful_traversal, 100, "Should have performed 100 successful traversals");
}

#[test]
fn test_error_handling() {
    let map = WeightTrie::new();
    let result = next_atom(&map, &vec![]);
    assert!(result.is_none() || result.as_ref().map_or(false, |p| p.is_empty()));
    assert!(map.value_at(&[9, 9, 9]).is_none());
}

#[test]
fn test_weighted_map_api() {
    let mut map = WeightTrie::new();
    let path = [1u8, 2u8, 3u8];
    map.set_val_at(&path, 42);
    assert_eq!(map.value_at(&path), Some(42));
    map.set_val_at(&path, 100);
    assert_eq!(map.value_at(&path), Some(100));
    assert_eq!(map.val_count(), 1, "Should have found exactly 1 value during iteration");
}

#[test]
fn test_basic_collection() {
    let map = trie(&[(&[1, 1], 10), (&[1, 2], 20), (&[2, 1], 30), (&[2, 2], 40)]);
    let mut traverse = ChunkedPQTraverse::new(2);
    let atom1 = traverse.next_atom(&map, &vec![]);
    let atom2 = traverse.next_atom(&map, &vec![]);
    let atom3 = traverse.next_atom(&map, &vec![]);
    let atom4 = traverse.next_atom(&map, &vec![]);
    assert_eq!(atom1.len(), 2, "Atom 1 should have length 2");
    assert_eq!(atom2.len(), 2, "Atom 2 should have length 2");
    assert_eq!(atom3.len(), 2, "Atom 3 should have length 2");
    assert_eq!(atom4.len(), 2, "Atom 4 should have length 2");
}

#[test]
fn test_priority_ordering() {
    let map = trie(&[(&[1, 1], 10), (&[2, 1], 100), (&[3, 1], 50)]);
    let mut traverse = ChunkedPQTraverse::new(2);
    let first = traverse.next_atom(&map, &vec![]);
    assert_eq!(first, vec![2, 1], "Heighest weight atoom should be returned first");
}

#[test]
fn test_empty_trie() {
    let map = WeightTrie::new();
    let mut traverse = ChunkedPQTraverse::new(2);
    let atom = traverse.next_atom(&map, &vec![]);
    assert_eq!(atom, Vec::<u8>::new(), "Empty trie should return empty path");
}

#[test]
fn test_depth_boundaries() {
    let map = trie(&[(&[1, 1, 1, 1], 10), (&[2, 2, 2, 2], 20)]);
    let mut traverse_d2 = ChunkedPQTraverse::new(2);
    let atom_d2 = traverse_d2.next_atom(&map, &vec![]);
    assert_eq!(atom_d2, Vec::<u8>::new(), "Depth 2 should return empty for atoms at depth 4");
    let mut traverse_d4 = ChunkedPQTraverse::new(4);
    let atom_d4 = traverse_d4.next_atom(&map, &vec![]);
    assert_eq!(atom_d4.len(), 4, "Depth 4 should return atoms of length 4");
}

#[test]
fn test_refresh() {
    let map = trie(&[(&[1, 1], 10), (&[2, 1], 10), (&[3, 1], 30), (&[4, 1], 40)]);
    let mut traverse = ChunkedPQTraverse::new(2);
    let _atom1 = traverse.next_atom(&map, &vec![]);
    let _atom2 = traverse.next_atom(&map, &vec![]);
    traverse.refresh(&map, &vec![]);
    let atom_new = traverse.next_atom(&map, &vec![]);
    assert!(atom_new == vec![3, 1] || atom_new == vec![4, 1]);
}

#[test]
fn test_single_atom() {
    let map = trie(&[(&[1, 1], 10)]);
    let mut traverse = ChunkedPQTraverse::new(2);
    let atom1 = traverse.next_atom(&map, &vec![]);
    let atom2 = traverse.next_atom(&map, &vec![]);
    assert_eq!(atom1, vec![1, 1]);
    assert_eq!(atom2, vec![1, 1]);
}

#[test]
fn test_same_weight() {
    let map = trie(&[(&[1, 1], 50), (&[1, 1], 50), (&[1, 1], 50)]);
    let mut traverse = ChunkedPQTraverse::new(2);
    let atoms: Vec<_> = (0..3).map(|_| traverse.next_atom(&map, &vec![])).take(5).collect();
    assert_eq!(atoms.len(), 3);
}

#[test]
fn test_wide_trie() {
    let mut map = WeightTrie::new();
    for i in 1..=10u8 {
        map.set_val_at(&[i, 1], i.into());
    }
    let mut traverse = ChunkedPQTraverse::new(2);
    let atoms: Vec<_> = (0..10).map(|_| traverse.next_atom(&map, &vec![])).take(15).collect();
    assert_eq!(atoms.len(), 10);
}

#[test]
fn test_descending_order() {
    let map = trie(&[(&[1, 1], 100), (&[2, 1], 80), (&[3, 1], 60), (&[4, 1], 40), (&[5, 1], 20)]);
    let mut traverse = ChunkedPQTraverse::new(2);
    let first = traverse.next_atom(&map, &vec![]);
    assert_eq!(first, vec![1, 1]);
    let second = traverse.next_atom(&map, &vec![]);
    assert_eq!(second, vec![2, 1]);
}

#[test]
fn collection_stops_at_leaves_above_the_depth() {
    // [5] is a leaf above depth 2, so it is a chunk of its own
    let map = trie(&[(&[5], 7), (&[6, 1], 3), (&[6, 2, 9], 4)]);
    let mut traverse = ChunkedPQTraverse::new(2);
    assert_eq!(traverse.next_atom(&map, &vec![]), vec![5]);
    assert_eq!(traverse.next_atom(&map, &vec![]), vec![6, 1]);
    // [6, 2] has no value at depth 2, so nothing below it was queued
    assert_eq!(traverse.next_atom(&map, &vec![]), vec![5]);
}

#[test]
fn queue_gives_every_chunk_once_per_cycle_heaviest_first() {
    let map = trie(&[(&[1, 1], 10), (&[2, 1], 20), (&[3, 1], 30), (&[4, 1], 40)]);
    let mut traverse = ChunkedPQTraverse::new(2);
    let first: Vec<Vec<u8>> = (0..4).map(|_| traverse.next_atom(&map, &vec![])).collect();
    assert_eq!(first, vec![vec![4, 1], vec![3, 1], vec![2, 1], vec![1, 1]]);
    let second: Vec<Vec<u8>> = (0..4).map(|_| traverse.next_atom(&map, &vec![])).collect();
    assert_eq!(second, first);
}

#[test]
fn refresh_behaves_like_a_fresh_queue() {
    let map = trie(&[(&[1, 1], 10), (&[2, 1], 10), (&[3, 1], 30), (&[4, 1], 40)]);
    let mut used = ChunkedPQTraverse::new(2);
    let _ = used.next_atom(&map, &vec![]);
    let _ = used.next_atom(&map, &vec![]);
    used.refresh(&map, &vec![]);
    let mut fresh = ChunkedPQTraverse::new(2);
    for _ in 0..4 {
        assert_eq!(used.next_atom(&map, &vec![]), fresh.next_atom(&map, &vec![]));
    }
}
