use rust101::closures::offset_above_threshold;
use rust101::something_or_nothing::{main_i32, read_vec};
use rust101::sort::{sort, sort_nums};
use rust101::closures::filter_vec_by_divisor;
use rust101::counter::ConcurrentCounter;
use rust101::number_or_nothing::{abs, compute_stuff, min_i32, number_or_default, sqr, vec_sum, NumberOrNothing};
use rust101::references::{head, rust_foo, vec_inc};
use rust101::rgrep::{line_matches, output_mode_of, Line, OutputMode};
use rust101::something_or_nothing::{call_constructor, SomethingOrNothing};

#[test]
fn vec_min_of_numbers() {
    assert_eq!(rust101::number_or_nothing::vec_min(vec![18, 5, 7, 1, 9, 27]), NumberOrNothing::Number(1));
    assert_eq!(rust101::number_or_nothing::vec_min(vec![]), NumberOrNothing::Nothing);
    assert_eq!(rust101::references::vec_min(&vec![18, 5, 7, 2, 9, 27]), Some(2));
    assert_eq!(rust101::references::vec_min(&vec![]), None);
}

#[test]
fn vec_min_generic_by_value() {
    assert_eq!(
        rust101::something_or_nothing::vec_min(vec![18, 5, 7, 3, 9, 27]),
        SomethingOrNothing::Something(3)
    );
    assert_eq!(rust101::something_or_nothing::vec_min(Vec::<i32>::new()), SomethingOrNothing::Nothing);
}

#[test]
fn small_integer_helpers() {
    assert_eq!(min_i32(-3, 4), -3);
    assert_eq!(min_i32(4, 4), 4);
    assert_eq!(vec_sum(vec![1, 2, 3, -10]), -4);
    assert_eq!(vec_sum(vec![]), 0);
    assert_eq!(number_or_default(NumberOrNothing::Nothing, 7), 7);
    assert_eq!(number_or_default(NumberOrNothing::Number(2), 7), 2);
    assert_eq!(sqr(-12), 144);
    assert_eq!(abs(-12), 12);
    assert_eq!(abs(5), 5);
    assert_eq!(compute_stuff(2), 324);
}

#[test]
fn something_or_nothing_round_trip() {
    assert_eq!(SomethingOrNothing::new(Some(4)).to_option(), Some(4));
    assert_eq!(SomethingOrNothing::<i32>::new(None), SomethingOrNothing::Nothing);
    assert_eq!(call_constructor(9), SomethingOrNothing::Something(9));
}

#[test]
fn borrowed_vectors() {
    let mut v = vec![5, 4, 3, 2, 1];
    vec_inc(&mut v);
    vec_inc(&mut v);
    assert_eq!(v, vec![7, 6, 5, 4, 3]);
    assert_eq!(head(&v), Some(&7));
    assert_eq!(head::<i32>(&vec![]), None);
    assert_eq!(rust_foo(vec![8, 1]), 8);
}

#[test]
fn filter_by_divisor() {
    assert_eq!(filter_vec_by_divisor(&vec![1, 2, 3, 4, -6, 9], 3), vec![3, -6, 9]);
    assert_eq!(filter_vec_by_divisor(&vec![1, -2, i32::MIN], -2), vec![-2, i32::MIN]);
    assert_eq!(filter_vec_by_divisor(&vec![i32::MIN, 5], -1), vec![i32::MIN, 5]);
}

#[test]
fn counter_counts() {
    let c = ConcurrentCounter::new(3);
    let d = c.clone();
    d.increment(4);
    assert_eq!(c.get(), 7);
    c.compare_and_inc(6, 10);
    assert_eq!(c.get(), 7);
    c.compare_and_inc(7, 10);
    assert_eq!(d.get(), 17);
}

#[test]
fn output_mode_from_flags() {
    assert_eq!(output_mode_of(false, false), Some(OutputMode::Print));
    assert_eq!(output_mode_of(true, false), Some(OutputMode::Count));
    assert_eq!(output_mode_of(false, true), Some(OutputMode::SortAndPrint));
    assert_eq!(output_mode_of(true, true), None);
}

#[test]
fn lines_match_pattern() {
    let line = Line { data: "let x = 5;".to_string(), file: 0, line: 3 };
    assert!(line_matches(&line, "let"));
    assert!(line_matches(&line, "x = 5"));
    assert!(!line_matches(&line, "fn"));
    assert!(line_matches(&line, ""));
}

#[test]
fn offsets_above_threshold() {
    assert_eq!(offset_above_threshold(&vec![1, 5, -3, 10], 2, 4), vec![7, 12]);
    assert_eq!(offset_above_threshold(&vec![], 2, 4), Vec::<i32>::new());
}

#[test]
fn sample_minimum() {
    assert_eq!(read_vec(), vec![18, 5, 7, 3, 9, 27]);
    assert_eq!(main_i32(), SomethingOrNothing::Something(3));
}

#[test]
fn lines_compare_by_text() {
    let a = Line { data: "apple".to_string(), file: 0, line: 9 };
    let b = Line { data: "banana".to_string(), file: 1, line: 0 };
    let c = Line { data: "apple".to_string(), file: 2, line: 4 };
    assert!(a < b);
    assert!(a == c);
    assert_eq!(b.partial_cmp(&a), Some(std::cmp::Ordering::Greater));
}

#[test]
fn quicksort_sorts() {
    let mut v = vec![5, -1, 3, 3, 9, 0, -7, 2];
    sort_nums(&mut v);
    assert_eq!(v, vec![-7, -1, 0, 2, 3, 3, 5, 9]);
    let mut a = [4, 4, 1];
    sort(&mut a);
    assert_eq!(a, [1, 4, 4]);
    let mut e: Vec<i32> = vec![];
    sort_nums(&mut e);
    assert!(e.is_empty());
}

#[test]
fn lines_sort_by_text() {
    let mut lines = vec![
        Line { data: "pear".to_string(), file: 0, line: 0 },
        Line { data: "apple".to_string(), file: 0, line: 1 },
        Line { data: "fig".to_string(), file: 1, line: 0 },
        Line { data: "apple".to_string(), file: 1, line: 1 },
    ];
    sort(&mut lines[..]);
    let texts: Vec<&str> = lines.iter().map(|l| l.data.as_str()).collect();
    assert_eq!(texts, vec!["apple", "apple", "fig", "pear"]);
}
