use radixsort::{faster_radix_sort, radix_sort};

fn sorted_by_both(input: &[i32]) -> (Vec<i32>, Vec<i32>) {
    let mut a = input.to_vec();
    let mut b = input.to_vec();
    radix_sort(&mut a);
    faster_radix_sort(&mut b);
    (a, b)
}

#[test]
fn it_works() {
    let mut data = vec![512, 4, 3, -1, 256, 1, 6];
    radix_sort(&mut data);
    assert_eq!(data, vec![-1, 1, 3, 4, 6, 256, 512]);
}

#[test]
fn the_other_way_works() {
    let mut data = vec![512, 4, 3, -1, 256, 1, 6];
    faster_radix_sort(&mut data);
    assert_eq!(data, vec![-1, 1, 3, 4, 6, 256, 512]);
}

#[test]
fn empty_stays_empty() {
    let (a, b) = sorted_by_both(&[]);
    assert_eq!(a, Vec::<i32>::new());
    assert_eq!(b, Vec::<i32>::new());
}

#[test]
fn single_element_is_unchanged() {
    for v in [0, 7, -7, i32::MIN, i32::MAX] {
        let (a, b) = sorted_by_both(&[v]);
        assert_eq!(a, vec![v]);
        assert_eq!(b, vec![v]);
    }
}

#[test]
fn all_equal_values_are_unchanged() {
    for v in [0, -1, 0x0102_0304, i32::MIN, i32::MAX] {
        let input = vec![v; 300];
        let (a, b) = sorted_by_both(&input);
        assert_eq!(a, input);
        assert_eq!(b, input);
    }
}

#[test]
fn extremes_go_to_the_ends() {
    let input = [5, i32::MAX, -5, 0, i32::MIN, 1, i32::MAX, i32::MIN];
    let expected = vec![i32::MIN, i32::MIN, -5, 0, 1, 5, i32::MAX, i32::MAX];
    let (a, b) = sorted_by_both(&input);
    assert_eq!(a, expected);
    assert_eq!(b, expected);
    assert_eq!(a[0], i32::MIN);
    assert_eq!(a[a.len() - 1], i32::MAX);
}

#[test]
fn two_extremes_alone() {
    let (a, b) = sorted_by_both(&[i32::MAX, i32::MIN]);
    assert_eq!(a, vec![i32::MIN, i32::MAX]);
    assert_eq!(b, vec![i32::MIN, i32::MAX]);
}

#[test]
fn negatives_come_before_non_negatives() {
    // As bytes, each negative value here is larger than each positive one.
    let input = [1, -1, 0x7f00_0000, -0x7f00_0000, 255, -256, 0, -2];
    let expected = vec![-0x7f00_0000, -256, -2, -1, 0, 1, 255, 0x7f00_0000];
    let (a, b) = sorted_by_both(&input);
    assert_eq!(a, expected);
    assert_eq!(b, expected);
}

#[test]
fn negatives_form_a_prefix() {
    let input = [3, -3, 2, -2, 1, -1, 0, i32::MIN, i32::MAX, -1_000_000, 1_000_000];
    let (a, b) = sorted_by_both(&input);
    for out in [a, b] {
        let first_non_negative = out.iter().position(|v| *v >= 0).unwrap();
        assert_eq!(first_non_negative, 5);
        assert!(out[..first_non_negative].iter().all(|v| *v < 0));
        assert!(out[first_non_negative..].iter().all(|v| *v >= 0));
    }
}

#[test]
fn every_byte_position_counts() {
    let input = [
        0x0200_0000, 0x0100_0000, 0x0002_0000, 0x0001_0000, 0x0000_0200, 0x0000_0100, 0x0000_0002,
        0x0000_0001,
    ];
    let expected = vec![
        0x0000_0001, 0x0000_0002, 0x0000_0100, 0x0000_0200, 0x0001_0000, 0x0002_0000, 0x0100_0000,
        0x0200_0000,
    ];
    let (a, b) = sorted_by_both(&input);
    assert_eq!(a, expected);
    assert_eq!(b, expected);
}

#[test]
fn lower_bytes_break_ties_of_higher_bytes() {
    let input = [0x0101_0102, 0x0101_0201, 0x0102_0101, 0x0101_0101, 0x0101_0100];
    let expected = vec![0x0101_0100, 0x0101_0101, 0x0101_0102, 0x0101_0201, 0x0102_0101];
    let (a, b) = sorted_by_both(&input);
    assert_eq!(a, expected);
    assert_eq!(b, expected);
}

#[test]
fn duplicates_are_kept() {
    let input = [2, 1, 2, 1, 2, -1, -1, 0, 0, 0];
    let expected = vec![-1, -1, 0, 0, 0, 1, 1, 2, 2, 2];
    let (a, b) = sorted_by_both(&input);
    assert_eq!(a, expected);
    assert_eq!(b, expected);
}

#[test]
fn sorted_input_is_unchanged() {
    let input = [i32::MIN, -70_000, -256, -1, 0, 1, 255, 256, 65_536, i32::MAX];
    let (a, b) = sorted_by_both(&input);
    assert_eq!(a, input.to_vec());
    assert_eq!(b, input.to_vec());
}

#[test]
fn sorting_twice_changes_nothing() {
    let mut a = vec![9, -9, 300, -300, 70_000, -70_000, 0];
    radix_sort(&mut a);
    let once = a.clone();
    radix_sort(&mut a);
    assert_eq!(a, once);
    faster_radix_sort(&mut a);
    assert_eq!(a, once);
    assert_eq!(once, vec![-70_000, -300, -9, 0, 9, 300, 70_000]);
}

#[test]
fn reversed_input_is_sorted() {
    let input: Vec<i32> = (-500..500).rev().collect();
    let expected: Vec<i32> = (-500..500).collect();
    let (a, b) = sorted_by_both(&input);
    assert_eq!(a, expected);
    assert_eq!(b, expected);
}

#[test]
fn both_sorts_agree() {
    let input = [
        0x1234_5678, -0x1234_5678, 0x0000_ffff, -0x0001_0000, 0x00ff_00ff, -0x00ff_00ff, 42, -42,
        0, i32::MAX, i32::MIN, 0x7fff_ff00, -0x7fff_ff00,
    ];
    let (a, b) = sorted_by_both(&input);
    assert_eq!(a, b);
    let mut reference = input.to_vec();
    reference.sort();
    assert_eq!(a, reference);
}

#[test]
fn a_part_of_a_vector_can_be_sorted() {
    let mut data = vec![9, 8, 7, 6, 5, 4, 3, 2, 1];
    radix_sort(&mut data[2..6]);
    assert_eq!(data, vec![9, 8, 4, 5, 6, 7, 3, 2, 1]);
    faster_radix_sort(&mut data[5..]);
    assert_eq!(data, vec![9, 8, 4, 5, 6, 1, 2, 3, 7]);
}
