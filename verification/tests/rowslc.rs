use std::str::FromStr;

use slices::filter::{Filter, FilterSet};
use slices::rows::RowSlicer;

const INPUT: &str = "\
REPOSITORY   TAG           IMAGE ID       CREATED         SIZE
vault        1.8.4         dc15db720d79   2 days ago      186MB
redis        6.2-alpine    6960a2858b36   3 days ago      31.3MB
postgres     14.0-alpine   ae192c4d3ada   17 months ago   152MB
traefik      2.5           72bfc37343a4   18 months ago   68.9MB";

fn filters(expressions: &[&str]) -> Vec<Filter> {
    expressions
        .iter()
        .map(|expression| Filter::from_str(expression).unwrap())
        .collect()
}

fn execute(filters: Vec<Filter>, expected: &str) {
    let mut slicer = RowSlicer::new(FilterSet::new(filters));
    assert_eq!(slicer.slice(INPUT), expected);
}

#[test]
fn rowslc_slice_exact_ok() {
    let filters = vec![Filter::from_str("1").unwrap()];
    let expected = "\
REPOSITORY   TAG           IMAGE ID       CREATED         SIZE
";

    execute(filters, expected)
}

#[test]
fn rowslc_slice_exact_multiple_ok() {
    let filters = vec![Filter::from_str("1").unwrap(), Filter::from_str("3").unwrap()];
    let mut slicer = RowSlicer::new(FilterSet::new(filters));

    let expected = "\
REPOSITORY   TAG           IMAGE ID       CREATED         SIZE
redis        6.2-alpine    6960a2858b36   3 days ago      31.3MB
";

    assert_eq!(slicer.slice(INPUT), expected);
}

#[test]
fn rowslc_slice_range_ok() {
    let filters = vec![Filter::from_str("1:3").unwrap()];
    let mut slicer = RowSlicer::new(FilterSet::new(filters));

    let expected = "\
REPOSITORY   TAG           IMAGE ID       CREATED         SIZE
vault        1.8.4         dc15db720d79   2 days ago      186MB
redis        6.2-alpine    6960a2858b36   3 days ago      31.3MB
";

    assert_eq!(slicer.slice(INPUT), expected);
}

#[test]
fn rowslc_slice_range_multiple_ok() {
    let filters = vec![Filter::from_str("1:2").unwrap(), Filter::from_str("4:5").unwrap()];
    let mut slicer = RowSlicer::new(FilterSet::new(filters));

    let expected = "\
REPOSITORY   TAG           IMAGE ID       CREATED         SIZE
vault        1.8.4         dc15db720d79   2 days ago      186MB
postgres     14.0-alpine   ae192c4d3ada   17 months ago   152MB
traefik      2.5           72bfc37343a4   18 months ago   68.9MB";

    assert_eq!(slicer.slice(INPUT), expected);
}

#[test]
fn rowslc_slice_exact_and_range_ok() {
    let filters = vec![Filter::from_str("1").unwrap(), Filter::from_str("3:4").unwrap()];
    let mut slicer = RowSlicer::new(FilterSet::new(filters));

    let expected = "\
REPOSITORY   TAG           IMAGE ID       CREATED         SIZE
redis        6.2-alpine    6960a2858b36   3 days ago      31.3MB
postgres     14.0-alpine   ae192c4d3ada   17 months ago   152MB
";

    assert_eq!(slicer.slice(INPUT), expected);
}

#[test]
fn rowslc_slice_range_start_ok() {
    let filters = vec![Filter::from_str("3:").unwrap()];
    let mut slicer = RowSlicer::new(FilterSet::new(filters));

    let expected = "\
redis        6.2-alpine    6960a2858b36   3 days ago      31.3MB
postgres     14.0-alpine   ae192c4d3ada   17 months ago   152MB
traefik      2.5           72bfc37343a4   18 months ago   68.9MB";

    assert_eq!(slicer.slice(INPUT), expected);
}

#[test]
fn rowslc_slice_range_end_ok() {
    let filters = vec![Filter::from_str(":3").unwrap()];
    let mut slicer = RowSlicer::new(FilterSet::new(filters));

    let expected = "\
REPOSITORY   TAG           IMAGE ID       CREATED         SIZE
vault        1.8.4         dc15db720d79   2 days ago      186MB
redis        6.2-alpine    6960a2858b36   3 days ago      31.3MB
";

    assert_eq!(slicer.slice(INPUT), expected);
}

#[test]
fn rowslc_slice_range_full_ok() {
    let filters = vec![Filter::from_str(":").unwrap()];
    let mut slicer = RowSlicer::new(FilterSet::new(filters));

    let expected = "\
REPOSITORY   TAG           IMAGE ID       CREATED         SIZE
vault        1.8.4         dc15db720d79   2 days ago      186MB
redis        6.2-alpine    6960a2858b36   3 days ago      31.3MB
postgres     14.0-alpine   ae192c4d3ada   17 months ago   152MB
traefik      2.5           72bfc37343a4   18 months ago   68.9MB";

    assert_eq!(slicer.slice(INPUT), expected);
}

#[test]
fn rows_without_filters_are_the_input() {
    let mut slicer = RowSlicer::new(FilterSet::new(Vec::new()));
    assert_eq!(slicer.slice(INPUT), INPUT);
}

#[test]
fn rows_of_empty_input_are_empty() {
    let mut slicer = RowSlicer::new(FilterSet::new(filters(&[":"])));
    assert_eq!(slicer.slice(""), "");
    assert!(slicer.next_row());
}

#[test]
fn rows_keep_blank_lines_and_carriage_returns() {
    let mut slicer = RowSlicer::new(FilterSet::new(filters(&["2:3"])));
    assert_eq!(slicer.slice("a\n\nb\r\nc\n"), "\nb\r\n");
}

#[test]
fn rows_overlapping_filters_emit_each_line_once() {
    let mut slicer = RowSlicer::new(FilterSet::new(filters(&["1:3", "2:4", "3"])));
    assert_eq!(slicer.slice("1\n2\n3\n4\n5\n"), "1\n2\n3\n4\n");
}

#[test]
fn rows_are_counted_across_pieces() {
    let mut slicer = RowSlicer::new(FilterSet::new(filters(&["2", "4:"])));
    assert_eq!(slicer.slice("one\ntwo\n"), "two\n");
    assert_eq!(slicer.slice("three\nfour\nfive"), "four\nfive");
}

#[test]
fn rows_one_at_a_time_agree_with_the_whole() {
    let mut slicer = RowSlicer::new(FilterSet::new(filters(&["1", "3:4"])));
    let mut output = String::new();
    for line in INPUT.split_inclusive('\n') {
        if slicer.next_row() {
            output.push_str(line);
        }
    }
    let mut whole = RowSlicer::new(FilterSet::new(filters(&["1", "3:4"])));
    assert_eq!(output, whole.slice(INPUT));
}

#[test]
fn rows_with_index_beyond_the_input_emit_nothing() {
    let mut slicer = RowSlicer::new(FilterSet::new(filters(&["6", "4294967295"])));
    assert_eq!(slicer.slice(INPUT), "");
}
