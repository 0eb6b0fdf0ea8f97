use radixsort::{faster_radix_sort, generate_unsorted, radix_sort};

fn check_against_comparison_sort(len: usize) {
    let input = generate_unsorted(len);
    assert_eq!(input.len(), len);

    let mut reference = input.clone();
    reference.sort();

    let mut by_buckets = input.clone();
    radix_sort(&mut by_buckets);
    let mut by_counting = input.clone();
    faster_radix_sort(&mut by_counting);

    assert!(by_buckets == by_counting);
    assert!(by_buckets == reference);
}

#[test]
fn generated_values_are_fixed() {
    assert_eq!(
        generate_unsorted(8),
        vec![
            1178250989, 1575887713, -296333756, 822092661, -1087802515, -556747080, -1053822794,
            2074290593,
        ]
    );
}

#[test]
fn generated_first_value_is_seed_times_multiplier() {
    let product = 17u64.wrapping_mul(2685821657736338717);
    assert_eq!(generate_unsorted(1), vec![product as i32]);
    assert_eq!(product as i32, 1178250989);
}

#[test]
fn generating_nothing_gives_nothing() {
    assert_eq!(generate_unsorted(0), Vec::<i32>::new());
}

#[test]
fn generated_values_repeat_from_call_to_call() {
    let short = generate_unsorted(100);
    let long = generate_unsorted(1024);
    assert_eq!(short, generate_unsorted(100));
    assert_eq!(&long[..100], &short[..]);
}

#[test]
fn generated_values_have_both_signs() {
    let values = generate_unsorted(1024);
    assert_eq!(values.iter().filter(|v| **v < 0).count(), 519);
    assert_eq!(*values.iter().min().unwrap(), -2145186471);
    assert_eq!(*values.iter().max().unwrap(), 2144124131);
}

#[test]
fn small_generated_input_is_sorted() {
    check_against_comparison_sort(1024);
}

#[test]
fn small_generated_input_has_known_ends() {
    let mut data = generate_unsorted(1024);
    faster_radix_sort(&mut data);
    assert_eq!(&data[..3], &[-2145186471, -2141592966, -2132543315]);
    assert_eq!(&data[1021..], &[2138847426, 2141726868, 2144124131]);
}

#[test]
fn big_generated_input_is_sorted() {
    check_against_comparison_sort(512 * 1024);
}

#[test]
fn lengths_around_a_bucket_count_are_sorted() {
    for len in [2, 3, 255, 256, 257, 1000] {
        check_against_comparison_sort(len);
    }
}
