use track_overlay::timeline::{bracket_time, first_at_or_after, lower_bound, search_time, Bracket};

#[test]
fn lower_bound_is_the_insertion_point_before_equals() {
    let t = [0i64, 100, 100, 100, 250, 400];
    assert_eq!(lower_bound(&t, -5), 0);
    assert_eq!(lower_bound(&t, 0), 0);
    assert_eq!(lower_bound(&t, 100), 1);
    assert_eq!(lower_bound(&t, 101), 4);
    assert_eq!(lower_bound(&t, 400), 5);
    assert_eq!(lower_bound(&t, 401), 6);
    assert_eq!(lower_bound(&[], 7), 0);
}

#[test]
fn search_finds_the_first_equal_stamp() {
    let t = [0i64, 100, 100, 100, 250, 400];
    assert_eq!(search_time(&t, 100), Ok(1));
    assert_eq!(search_time(&t, 400), Ok(5));
    assert_eq!(search_time(&t, 200), Err(4));
    assert_eq!(search_time(&t, -1), Err(0));
    assert_eq!(search_time(&t, 1000), Err(6));
}

#[test]
fn search_agrees_with_std_on_distinct_stamps() {
    let t: Vec<i64> = (0..50).map(|i| i * 37 - 400).collect();
    for x in -500i64..1500 {
        assert_eq!(search_time(&t, x), t.binary_search(&x));
    }
}

#[test]
fn first_at_or_after_scans_from_the_start() {
    let t = [5i64, 3, 9, 1];
    assert_eq!(first_at_or_after(&t, 4), Some(0));
    assert_eq!(first_at_or_after(&t, 6), Some(2));
    assert_eq!(first_at_or_after(&t, 10), None);
    assert_eq!(first_at_or_after(&[], 0), None);
}

#[test]
fn brackets_of_query_times() {
    let t = [1000i64, 2000, 3000];
    assert_eq!(bracket_time(&t, 2000), Bracket::Point(1));
    assert_eq!(bracket_time(&t, 999), Bracket::Point(0));
    assert_eq!(bracket_time(&t, 3001), Bracket::Point(2));
    assert_eq!(bracket_time(&t, 1500), Bracket::Between(1));
    assert_eq!(bracket_time(&t, 2999), Bracket::Between(2));
    assert_eq!(bracket_time(&[], 5), Bracket::Empty);
}
