use boostlss::hist::{bin_counts, occupied_bins, split_rows, BinSplit};

#[test]
fn split_rows_up_to_a_bin() {
    let rows = vec![0, 1, 2, 3, 4];
    let bins: Vec<u8> = vec![3, 1, 5, 2, 1];
    let (left, right) = split_rows(&rows, &bins, &BinSplit::UpTo(2));
    assert_eq!(left, vec![1, 3, 4]);
    assert_eq!(right, vec![0, 2]);
}

#[test]
fn split_rows_by_categories() {
    let rows = vec![4, 2, 0, 3];
    let bins: Vec<u8> = vec![3, 1, 5, 2, 1];
    let (left, right) = split_rows(&rows, &bins, &BinSplit::Categories(vec![5, 3]));
    assert_eq!(left, vec![2, 0]);
    assert_eq!(right, vec![4, 3]);
}

#[test]
fn split_rows_children_cover_the_node() {
    let rows = vec![6, 1, 5, 0, 2, 4, 3];
    let bins: Vec<u8> = vec![0, 7, 2, 2, 9, 1, 4];
    for split in [BinSplit::UpTo(2), BinSplit::UpTo(0), BinSplit::Categories(vec![2, 9])] {
        let (left, right) = split_rows(&rows, &bins, &split);
        assert_eq!(left.len() + right.len(), rows.len());
        for r in &rows {
            assert!(left.contains(r) != right.contains(r));
            assert_eq!(left.contains(r), split.goes_left(bins[*r]));
        }
    }
}

#[test]
fn goes_left_by_split_kind() {
    assert!(BinSplit::UpTo(4).goes_left(4));
    assert!(!BinSplit::UpTo(4).goes_left(5));
    assert!(BinSplit::Categories(vec![1, 7]).goes_left(7));
    assert!(!BinSplit::Categories(vec![1, 7]).goes_left(4));
    assert!(!BinSplit::Categories(vec![]).goes_left(0));
}

#[test]
fn bin_counts_of_a_node() {
    let bins: Vec<u8> = vec![3, 1, 5, 2, 1];
    assert_eq!(bin_counts(&vec![0, 2, 4], &bins, 6), vec![0, 1, 0, 1, 0, 1]);
    assert_eq!(bin_counts(&vec![1, 4, 3], &bins, 4), vec![0, 2, 1, 0]);
    assert_eq!(bin_counts(&vec![], &bins, 3), vec![0, 0, 0]);
}

#[test]
fn occupied_bins_in_order() {
    assert_eq!(occupied_bins(&vec![0, 2, 0, 1, 4], 4), vec![1, 3]);
    assert_eq!(occupied_bins(&vec![0, 2, 0, 1, 4], 5), vec![1, 3, 4]);
    assert_eq!(occupied_bins(&vec![5, 5], 0), Vec::<u8>::new());
}

#[test]
fn left_size_matches_bin_counts() {
    let rows = vec![0, 2, 3, 5, 6, 7];
    let bins: Vec<u8> = vec![4, 9, 1, 1, 0, 3, 2, 4];
    let counts = bin_counts(&rows, &bins, 10);
    assert_eq!(counts, vec![0, 2, 1, 1, 2, 0, 0, 0, 0, 0]);
    let (left, _) = split_rows(&rows, &bins, &BinSplit::UpTo(2));
    assert_eq!(left.len(), counts[0] + counts[1] + counts[2]);
    let cats: Vec<u8> = vec![4, 2];
    let (left, _) = split_rows(&rows, &bins, &BinSplit::Categories(cats.clone()));
    assert_eq!(left.len(), cats.iter().map(|&c| counts[c as usize]).sum::<usize>());
}
