use std::collections::{HashMap, HashSet};

use reunion::UnionFind;

fn sorted_groups(uf: &mut UnionFind) -> Vec<Vec<u64>> {
    let mut groups: Vec<Vec<u64>> = uf
        .subsets()
        .into_iter()
        .map(|g| {
            let mut v: Vec<u64> = g.into_iter().collect();
            v.sort();
            v
        })
        .collect();
    groups.sort();
    groups
}

#[test]
fn chain_of_unions_joins_all_four() {
    let mut uf = UnionFind::new();
    uf.union(1, 2);
    uf.union(3, 4);
    uf.union(2, 3);
    assert_eq!(uf.find(1), uf.find(4));
    assert_eq!(uf.size(), 4);
    assert_eq!(sorted_groups(&mut uf), vec![vec![1, 2, 3, 4]]);
}

#[test]
fn find_of_unseen_element_is_itself() {
    let mut uf = UnionFind::new();
    assert_eq!(uf.find(7), 7);
    assert_eq!(uf.size(), 1);
    assert!(uf.subsets().is_empty());
}

#[test]
fn repeated_union_keeps_one_pair() {
    let mut uf = UnionFind::new();
    uf.union(1, 2);
    uf.union(1, 2);
    assert_eq!(sorted_groups(&mut uf), vec![vec![1, 2]]);
    assert_eq!(uf.size(), 2);
}

#[test]
fn find_twice_gives_same_root_and_flat_path() {
    let mut uf = UnionFind::new();
    uf.union(1, 2);
    uf.union(3, 4);
    uf.union(1, 3);
    uf.union(5, 6);
    uf.union(5, 7);
    uf.union(1, 5);
    let first = uf.find(4);
    let second = uf.find(4);
    assert_eq!(first, second);
    assert_eq!(uf.parents()[&4], first);
}

#[test]
fn union_with_itself_changes_no_group() {
    let mut uf = UnionFind::new();
    uf.union(1, 2);
    uf.union(9, 9);
    assert_eq!(sorted_groups(&mut uf), vec![vec![1, 2]]);
    assert_eq!(uf.find(9), 9);
    assert_eq!(uf.entries(), vec![1, 2, 9]);
}

#[test]
fn union_is_symmetric() {
    let mut a = UnionFind::new();
    a.union(10, 20);
    assert_eq!(a.find(10), a.find(20));
    let mut b = UnionFind::new();
    b.union(20, 10);
    assert_eq!(b.find(10), b.find(20));
    assert_eq!(sorted_groups(&mut a), sorted_groups(&mut b));
}

#[test]
fn groups_never_split() {
    let mut uf = UnionFind::new();
    uf.union(1, 2);
    let before = uf.find(1) == uf.find(2);
    uf.union(3, 4);
    uf.union(5, 1);
    uf.union(4, 6);
    assert!(before);
    assert_eq!(uf.find(1), uf.find(2));
    assert_eq!(uf.find(1), uf.find(5));
    assert_eq!(uf.find(3), uf.find(6));
    assert_eq!(sorted_groups(&mut uf), vec![vec![1, 2, 5], vec![3, 4, 6]]);
}

#[test]
fn find_of_new_element_grows_size_by_one() {
    let mut uf = UnionFind::new();
    uf.union(1, 2);
    let before = uf.size();
    assert_eq!(uf.find(42), 42);
    assert_eq!(uf.size(), before + 1);
    assert_eq!(uf.find(42), 42);
    assert_eq!(uf.size(), before + 1);
}

#[test]
fn subsets_and_singletons_cover_entries() {
    let mut uf = UnionFind::new();
    uf.union(1, 2);
    uf.find(3);
    uf.union(4, 5);
    uf.union(5, 6);
    uf.find(7);
    let entries: HashSet<u64> = uf.entries().into_iter().collect();
    let subsets = uf.subsets();
    let mut covered: HashSet<u64> = HashSet::new();
    for s in &subsets {
        assert!(s.len() >= 2);
        for x in s {
            assert!(entries.contains(x));
            assert!(covered.insert(*x));
        }
    }
    for x in &entries {
        if !covered.contains(x) {
            assert_eq!(uf.find(*x), *x);
        }
    }
    assert_eq!(covered.len(), 5);
}

#[test]
fn entries_keep_first_seen_order() {
    let mut uf = UnionFind::new();
    uf.union(5, 3);
    uf.find(9);
    uf.union(3, 1);
    uf.find(5);
    assert_eq!(uf.entries(), vec![5, 3, 9, 1]);
    assert_eq!(uf.size(), 4);
}

#[test]
fn empty_store() {
    let mut uf = UnionFind::new();
    assert_eq!(uf.size(), 0);
    assert!(uf.entries().is_empty());
    assert!(uf.subsets().is_empty());
    assert!(uf.parents().is_empty());
    assert_eq!(uf.str(), "");
}

#[test]
fn smaller_group_goes_under_larger() {
    let mut uf = UnionFind::new();
    uf.union(1, 2);
    uf.union(1, 3);
    uf.union(4, 1);
    assert_eq!(uf.find(4), 1);
    assert_eq!(uf.parents()[&4], 1);
}

#[test]
fn equal_sizes_keep_first_root() {
    let mut uf = UnionFind::new();
    uf.union(8, 9);
    assert_eq!(uf.find(9), 8);
    uf.union(3, 4);
    uf.union(4, 9);
    assert_eq!(uf.find(8), 3);
}

#[test]
fn parents_point_within_groups() {
    let mut uf = UnionFind::new();
    uf.union(1, 2);
    uf.union(3, 4);
    uf.union(2, 4);
    let parents = uf.parents();
    assert_eq!(parents.len(), 4);
    assert_eq!(parents[&1], 1);
    assert_eq!(parents[&2], 1);
    assert_eq!(parents[&3], 1);
    assert_eq!(parents[&4], 3);
    assert_eq!(uf.find(4), 1);
    assert_eq!(uf.parents()[&4], 1);
}

#[test]
fn rendering_lists_parent_links() {
    let mut uf = UnionFind::new();
    uf.union(12, 7);
    uf.find(305);
    assert_eq!(uf.str(), "12 -> 12\n7 -> 12\n305 -> 305\n");
}

#[test]
fn large_identifiers() {
    let mut uf = UnionFind::new();
    uf.union(u64::MAX, 0);
    assert_eq!(uf.find(0), u64::MAX);
    assert_eq!(uf.str(), "18446744073709551615 -> 18446744073709551615\n0 -> 18446744073709551615\n");
}

#[test]
fn restore_from_parts_keeps_groups_and_order() {
    let mut uf = UnionFind::new();
    uf.union(1, 2);
    uf.union(3, 4);
    uf.union(2, 4);
    uf.find(9);
    let mut restored = UnionFind::from_parts(uf.entries(), uf.parents()).unwrap();
    assert_eq!(restored.parents(), uf.parents());
    assert_eq!(restored.entries(), vec![1, 2, 3, 4, 9]);
    for x in [1u64, 2, 3, 4, 9] {
        assert_eq!(restored.find(x), uf.find(x));
    }
    assert_eq!(restored.size(), 5);
}

#[test]
fn restore_keeps_given_parents() {
    let parents: HashMap<u64, u64> = [(1, 1), (2, 1), (3, 2), (4, 3), (5, 5)].into_iter().collect();
    let mut uf = UnionFind::from_parts(vec![4, 3, 2, 1, 5], parents.clone()).unwrap();
    assert_eq!(uf.parents(), parents);
    assert_eq!(uf.str(), "4 -> 3\n3 -> 2\n2 -> 1\n1 -> 1\n5 -> 5\n");
    assert_eq!(uf.find(4), 1);
    assert_eq!(uf.parents()[&4], 1);
    assert_eq!(uf.parents()[&3], 1);
    assert_eq!(uf.parents()[&2], 1);
    assert_eq!(uf.find(5), 5);
    assert_eq!(sorted_groups(&mut uf), vec![vec![1, 2, 3, 4]]);
    uf.union(5, 4);
    assert_eq!(uf.find(5), 1);
}

#[test]
fn restore_rejects_bad_parts() {
    let pair: HashMap<u64, u64> = [(1, 1), (2, 1)].into_iter().collect();
    assert!(UnionFind::from_parts(vec![1, 2, 1], pair.clone()).is_none());
    assert!(UnionFind::from_parts(vec![1], pair.clone()).is_none());
    assert!(UnionFind::from_parts(vec![1, 2, 3], pair.clone()).is_none());
    let outside: HashMap<u64, u64> = [(1, 7), (2, 1)].into_iter().collect();
    assert!(UnionFind::from_parts(vec![1, 2], outside).is_none());
    let cycle: HashMap<u64, u64> = [(1, 2), (2, 1)].into_iter().collect();
    assert!(UnionFind::from_parts(vec![1, 2], cycle).is_none());
    assert!(UnionFind::from_parts(vec![], HashMap::new()).is_some());
    assert!(UnionFind::from_parts(vec![2, 1], pair).is_some());
}

#[test]
fn find_compresses_whole_path_only() {
    let parents: HashMap<u64, u64> =
        [(1, 1), (2, 1), (3, 2), (4, 3), (5, 4), (6, 3), (7, 7)].into_iter().collect();
    let mut uf = UnionFind::from_parts(vec![1, 2, 3, 4, 5, 6, 7], parents).unwrap();
    assert_eq!(uf.find(5), 1);
    let after = uf.parents();
    assert_eq!(after[&5], 1);
    assert_eq!(after[&4], 1);
    assert_eq!(after[&3], 1);
    assert_eq!(after[&2], 1);
    assert_eq!(after[&6], 3);
    assert_eq!(after[&7], 7);
}

#[test]
fn union_hangs_smaller_root_under_larger() {
    let mut uf = UnionFind::new();
    uf.union(1, 2);
    uf.union(1, 3);
    uf.union(4, 5);
    uf.union(5, 1);
    let parents = uf.parents();
    assert_eq!(parents[&4], 1);
    assert_eq!(parents[&5], 4);
    assert_eq!(parents[&1], 1);
}
