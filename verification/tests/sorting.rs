use extsort::chunk::{sort_records, Chunker};
use extsort::lines::{IntoLine, Line};
use extsort::merge::{merge2, merge_runs};
use extsort::{run_file_name, Config, Sort, SortedIter};

fn line(s: &str) -> Line {
    Line::new(s.to_string()).unwrap()
}

fn lines(v: &[&str]) -> Vec<Line> {
    v.iter().map(|s| line(s)).collect()
}

fn texts(mut it: SortedIter<Line>) -> Vec<String> {
    let mut out = Vec::new();
    while let Some(x) = it.next() {
        out.push(x.into_line());
    }
    out
}

fn small_config() -> Config {
    Config { num_merge: 2, num_threads: 1, max_split_size: 1 }
}

#[test]
fn empty_input_yields_nothing() {
    let sorter: Sort<Line> = Sort::new(Config::default());
    let mut it = sorter.sort(Vec::new());
    assert!(it.next().is_none());
}

#[test]
fn one_chunk_per_record() {
    // A cap of one byte forces every record into a chunk of its own.
    let mut sorter: Sort<Line> = Sort::new(small_config());
    let n = sorter.split_invoke(lines(&["b", "a", "c"]));
    assert_eq!(n, 3);
    assert_eq!(sorter.num_runs(), 3);
    assert_eq!(sorter.stage(), 0);
    while sorter.num_runs() > 1 {
        sorter.merge_invoke();
    }
    // Three runs at fan-in two need two merge passes.
    assert_eq!(sorter.stage(), 2);
    assert_eq!(sorter.num_runs(), 1);
}

#[test]
fn small_input_sorted() {
    let sorter: Sort<Line> = Sort::new(small_config());
    let it = sorter.sort(lines(&["b", "a", "c"]));
    assert_eq!(texts(it), vec!["a", "b", "c"]);
}

#[test]
fn default_config_sort() {
    let sorter: Sort<Line> = Sort::new(Config::default());
    let it = sorter.sort(lines(&["3", "1", "2", "5", "4"]));
    assert_eq!(texts(it), vec!["1", "2", "3", "4", "5"]);
}

#[test]
fn thousand_equal_records() {
    let mut input = Vec::new();
    for _ in 0..1000 {
        input.push(line("x"));
    }
    let sorter: Sort<Line> = Sort::new(Config::default());
    let out = texts(sorter.sort(input));
    assert_eq!(out.len(), 1000);
    assert!(out.iter().all(|s| s == "x"));
}

#[test]
fn sorting_sorted_input_is_identity() {
    let input = ["alpha", "beta", "gamma", "gamma", "zeta"];
    let sorter: Sort<Line> = Sort::new(Config::default());
    let out = texts(sorter.sort(lines(&input)));
    assert_eq!(out, input.to_vec());
}

fn pseudo_random_strings(count: usize) -> Vec<String> {
    const ALPHABET: &[u8] = b"abcdefghijklmnopqrstuvwxyz0123456789";
    let mut state: u64 = 0x243f_6a88_85a3_08d3;
    let mut out = Vec::with_capacity(count);
    for _ in 0..count {
        let mut s = String::with_capacity(16);
        for _ in 0..16 {
            state = state
                .wrapping_mul(6364136223846793005)
                .wrapping_add(1442695040888963407);
            let idx = ((state >> 33) as usize) % ALPHABET.len();
            s.push(ALPHABET[idx] as char);
        }
        out.push(s);
    }
    out
}

fn pseudo_random_records(count: usize) -> Vec<Line> {
    pseudo_random_strings(count).into_iter().map(|s| Line::new(s).unwrap()).collect()
}

#[test]
fn large_random_input_matches_reference() {
    let config = Config { num_merge: 4, num_threads: 4, max_split_size: 4096 };
    let input = pseudo_random_records(100_000);
    let mut reference = pseudo_random_strings(100_000);
    reference.sort();
    let sorter: Sort<Line> = Sort::new(config);
    let out = texts(sorter.sort(input));
    assert_eq!(out, reference);
}

#[test]
fn large_random_input_stage_count() {
    // 100,000 records of estimated length 16 at a cap of 4096 make
    // ceil(100000 / 256) = 391 stage-zero runs; fan-in four then needs
    // five merge passes: 391, 98, 25, 7, 2, 1.
    let config = Config { num_merge: 4, num_threads: 4, max_split_size: 4096 };
    let mut sorter: Sort<Line> = Sort::new(config);
    let n = sorter.split_invoke(pseudo_random_records(100_000));
    assert_eq!(n, 391);
    while sorter.num_runs() > 1 {
        sorter.merge_invoke();
    }
    assert_eq!(sorter.stage(), 5);
}

#[test]
fn chunker_flushes_at_cap() {
    let mut chunker: Chunker<Line> = Chunker::new(5);
    assert!(chunker.push(line("aa")).is_none());
    assert!(chunker.push(line("bb")).is_none());
    // Two more bytes would exceed the cap of five: the buffer is flushed.
    let full = chunker.push(line("cc")).unwrap();
    let flushed: Vec<String> = full.into_iter().map(|l| l.into_line()).collect();
    assert_eq!(flushed, vec!["aa", "bb"]);
    let rest = chunker.finish().unwrap();
    let rest: Vec<String> = rest.into_iter().map(|l| l.into_line()).collect();
    assert_eq!(rest, vec!["cc"]);
}

#[test]
fn chunker_oversized_record_forms_singleton_chunk() {
    // The cap is soft: one record larger than the cap still becomes a
    // chunk of its own.
    let mut chunker: Chunker<Line> = Chunker::new(1);
    assert!(chunker.push(line("abcdef")).is_none());
    let full = chunker.push(line("g")).unwrap();
    assert_eq!(full.len(), 1);
    let rest = chunker.finish().unwrap();
    assert_eq!(rest.len(), 1);
}

#[test]
fn chunker_empty_finish() {
    let chunker: Chunker<Line> = Chunker::new(10);
    assert!(chunker.finish().is_none());
}

#[test]
fn merge_two_sorted_runs() {
    let a = lines(&["a", "c", "e"]);
    let b = lines(&["b", "d", "f"]);
    let merged: Vec<String> = merge2(a, b).into_iter().map(|l| l.into_line()).collect();
    assert_eq!(merged, vec!["a", "b", "c", "d", "e", "f"]);
}

#[test]
fn merge_group_of_runs() {
    let group = vec![lines(&["b", "x"]), lines(&["a", "y"]), lines(&["c", "w"])];
    let merged: Vec<String> = merge_runs(group).into_iter().map(|l| l.into_line()).collect();
    assert_eq!(merged, vec!["a", "b", "c", "w", "x", "y"]);
}

#[test]
fn sort_records_orders_a_chunk() {
    let sorted: Vec<String> = sort_records(lines(&["pear", "apple", "plum", "apple"]))
        .into_iter()
        .map(|l| l.into_line())
        .collect();
    assert_eq!(sorted, vec!["apple", "apple", "pear", "plum"]);
}

#[test]
fn spill_file_names() {
    assert_eq!(run_file_name(0, 0), "f0-0.txt");
    assert_eq!(run_file_name(3, 12), "f3-12.txt");
    assert_eq!(run_file_name(10, 507), "f10-507.txt");
}

#[test]
fn default_config_values() {
    let c = Config::default();
    assert_eq!(c.num_merge, 16);
    assert!(c.num_threads >= 1);
    assert_eq!(c.max_split_size, 10_000_000 / c.num_threads);
}
