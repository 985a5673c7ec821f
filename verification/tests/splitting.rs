use extsort::lines::{IntoLine, Line};
use extsort::split::{split, SameSplitIter};

fn line(s: &str) -> Line {
    Line::new(s.to_string()).unwrap()
}

fn lines(v: &[&str]) -> Vec<Line> {
    v.iter().map(|s| line(s)).collect()
}

fn group_texts(mut g: SameSplitIter<Line>) -> Vec<String> {
    let mut out = Vec::new();
    while let Some(x) = g.next() {
        out.push(x.into_line());
    }
    out
}

#[test]
fn groups_of_equal_records() {
    let mut it = split(lines(&["a", "a", "b", "c", "c", "c"]));
    assert_eq!(group_texts(it.next().unwrap()), vec!["a", "a"]);
    assert_eq!(group_texts(it.next().unwrap()), vec!["b"]);
    assert_eq!(group_texts(it.next().unwrap()), vec!["c", "c", "c"]);
    assert!(it.next().is_none());
}

#[test]
fn empty_split_yields_nothing() {
    let mut it = split(Vec::<Line>::new());
    assert!(it.next().is_none());
}

#[test]
fn single_group_when_all_equal() {
    let mut it = split(lines(&["q", "q", "q"]));
    assert_eq!(group_texts(it.next().unwrap()), vec!["q", "q", "q"]);
    assert!(it.next().is_none());
}

#[test]
fn concatenated_groups_reproduce_input() {
    let input = ["m", "m", "k", "k", "k", "z", "m"];
    let mut it = split(lines(&input));
    let mut all = Vec::new();
    while let Some(g) = it.next() {
        all.extend(group_texts(g));
    }
    assert_eq!(all, input.to_vec());
}

#[test]
fn groups_need_not_be_consumed_in_order() {
    // A later group can be requested before an earlier one is drained.
    let mut it = split(lines(&["a", "a", "b"]));
    let first = it.next().unwrap();
    let mut second = it.next().unwrap();
    assert_eq!(second.next().unwrap().into_line(), "b");
    assert_eq!(group_texts(first), vec!["a", "a"]);
    assert!(it.next().is_none());
}
