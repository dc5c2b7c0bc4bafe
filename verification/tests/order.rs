use bevy_pf_vector::order::{sort_all, sort_by_rank, sort_items, Rank};

fn rank(first: u64, second: u64, third: u64) -> Rank {
    Rank { first, second, third, fourth: 0, fifth: 0 }
}

#[test]
fn ranks_compare_from_first_to_last() {
    let base = Rank { first: 1, second: 2, third: 3, fourth: 4, fifth: 5 };
    for higher in [
        Rank { first: 2, second: 0, third: 0, fourth: 0, fifth: 0 },
        Rank { second: 3, third: 0, fourth: 0, fifth: 0, ..base },
        Rank { third: 4, fourth: 0, fifth: 0, ..base },
        Rank { fourth: 5, fifth: 0, ..base },
        Rank { fifth: 6, ..base },
    ] {
        assert!(base.less_than(&higher));
        assert!(!higher.less_than(&base));
    }
    assert!(!base.less_than(&base));
}

#[test]
fn sorting_is_stable_and_picks_only_what_is_asked() {
    let ranks = vec![rank(3, 0, 0), rank(1, 5, 0), rank(3, 0, 0), rank(1, 2, 0), rank(0, 0, 0)];
    assert_eq!(sort_by_rank(&ranks, &vec![0, 1, 2, 3]), vec![3, 1, 0, 2]);
    assert_eq!(sort_by_rank(&ranks, &vec![2, 0]), vec![0, 2]);
    assert_eq!(sort_by_rank(&ranks, &vec![]), Vec::<usize>::new());
}

#[test]
fn sorting_agrees_with_a_library_sort() {
    let ranks: Vec<Rank> =
        (0..500u64).map(|i| rank(i * 7919 % 13, i * 104729 % 5, i % 3)).collect();
    let picks: Vec<usize> = (0..ranks.len()).collect();
    let mut expected = picks.clone();
    expected.sort_by_key(|&i| (ranks[i].first, ranks[i].second, ranks[i].third));
    assert_eq!(sort_by_rank(&ranks, &picks), expected);
}

#[test]
fn all_positions_and_items_are_sorted() {
    let ranks = vec![rank(3, 0, 0), rank(1, 5, 0), rank(3, 0, 0), rank(1, 2, 0), rank(0, 0, 0)];
    assert_eq!(sort_all(&ranks), vec![4, 3, 1, 0, 2]);
    assert_eq!(sort_items(&vec!['a', 'b', 'c', 'd', 'e'], &ranks), vec!['e', 'd', 'b', 'a', 'c']);
    assert_eq!(sort_all(&vec![]), Vec::<usize>::new());
}
