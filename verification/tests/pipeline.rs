use root_frequency_counter::aggregate::{aggregate, count_root_frequencies};
use root_frequency_counter::corpus::Corpus;
use root_frequency_counter::matcher::count_range;
use root_frequency_counter::report::rank_entries;
use root_frequency_counter::roots::build_root_set;

fn strings(items: &[&str]) -> Vec<String> {
    items.iter().map(|s| s.to_string()).collect()
}

#[test]
fn merge_is_commutative() {
    let rs = build_root_set(&strings(&["run", "jump"]));
    let corpus = Corpus {
        words: strings(&["running", "jumps", "runner", "fly", "jumping", "rust"]),
    };
    let a = count_range(&rs, &corpus, 0, 2);
    let b = count_range(&rs, &corpus, 2, 6);
    let ab = a.merge(&b);
    let ba = b.merge(&a);
    assert_eq!(ab.counts, ba.counts);
    assert_eq!(ab.words_seen, ba.words_seen);
}

#[test]
fn aggregate_order_does_not_matter() {
    let rs = build_root_set(&strings(&["run", "jump"]));
    let corpus = Corpus {
        words: strings(&["running", "jumps", "runner", "fly", "jumping", "rust"]),
    };
    let a = count_range(&rs, &corpus, 0, 3);
    let b = count_range(&rs, &corpus, 3, 5);
    let c = count_range(&rs, &corpus, 5, 6);
    let one = aggregate(&rs, &vec![a.clone(), b.clone(), c.clone()]);
    let other = aggregate(&rs, &vec![c, a, b]);
    assert_eq!(one.counts, other.counts);
}

#[test]
fn chunk_size_does_not_change_the_table() {
    let rs = build_root_set(&strings(&["run", "running", "jump"]));
    let corpus = Corpus {
        words: strings(&["running", "runner", "jumps", "jumping", "fly", "runway", "jumped"]),
    };
    let whole = count_root_frequencies(&rs, &corpus, 7);
    let small = count_root_frequencies(&rs, &corpus, 2);
    let single = count_root_frequencies(&rs, &corpus, 1);
    let huge = count_root_frequencies(&rs, &corpus, 1_000_000);
    assert_eq!(whole.counts, small.counts);
    assert_eq!(whole.counts, single.counts);
    assert_eq!(whole.counts, huge.counts);
}

#[test]
fn every_root_is_present_and_unmatched_roots_count_zero() {
    let rs = build_root_set(&strings(&["run", "walk", "jump"]));
    let corpus = Corpus { words: strings(&["running", "jumps"]) };
    let ft = count_root_frequencies(&rs, &corpus, 100);
    assert_eq!(ft.counts.len(), 3);
    let entries = rank_entries(&rs, &ft);
    assert_eq!(entries.len(), 3);
    let walk = entries.iter().find(|e| e.root == "walk").unwrap();
    assert_eq!(walk.frequency, 0);
}

#[test]
fn output_is_sorted_by_frequency_then_root() {
    let rs = build_root_set(&strings(&["a", "b", "c", "d"]));
    let corpus = Corpus {
        words: strings(&["apple", "banana", "berry", "cherry", "cider", "apricot", "avocado"]),
    };
    let ft = count_root_frequencies(&rs, &corpus, 3);
    let entries = rank_entries(&rs, &ft);
    for pair in entries.windows(2) {
        assert!(
            pair[0].frequency > pair[1].frequency
                || (pair[0].frequency == pair[1].frequency && pair[0].root <= pair[1].root)
        );
    }
    assert_eq!(entries[0].root, "a");
    assert_eq!(entries[0].frequency, 3);
}

#[test]
fn end_to_end_example() {
    let rs = build_root_set(&strings(&["run", "running", "jump"]));
    let corpus = Corpus { words: strings(&["running", "runner", "jumps", "jumping", "fly"]) };
    let ft = count_root_frequencies(&rs, &corpus, 2);
    let entries = rank_entries(&rs, &ft);
    let got: Vec<(String, usize)> =
        entries.iter().map(|e| (e.root.clone(), e.frequency)).collect();
    assert_eq!(
        got,
        vec![
            ("jump".to_string(), 2),
            ("run".to_string(), 1),
            ("running".to_string(), 1),
        ]
    );
}

#[test]
fn empty_corpus_lists_every_root_with_zero() {
    let rs = build_root_set(&strings(&["run", "jump"]));
    let corpus = Corpus { words: Vec::new() };
    let ft = count_root_frequencies(&rs, &corpus, 10);
    assert_eq!(ft.counts, vec![0, 0]);
    let entries = rank_entries(&rs, &ft);
    let got: Vec<(String, usize)> =
        entries.iter().map(|e| (e.root.clone(), e.frequency)).collect();
    assert_eq!(got, vec![("jump".to_string(), 0), ("run".to_string(), 0)]);
}

#[test]
fn empty_root_set_gives_empty_output() {
    let rs = build_root_set(&Vec::<String>::new());
    let corpus = Corpus { words: strings(&["running", "jumps"]) };
    let ft = count_root_frequencies(&rs, &corpus, 10);
    assert_eq!(ft.counts.len(), 0);
    let entries = rank_entries(&rs, &ft);
    assert!(entries.is_empty());
}

#[test]
fn duplicate_roots_produce_one_entry() {
    let rs = build_root_set(&strings(&["run", "run", "jump"]));
    let corpus = Corpus { words: strings(&["running", "runner", "jumps"]) };
    let ft = count_root_frequencies(&rs, &corpus, 10);
    let entries = rank_entries(&rs, &ft);
    let got: Vec<(String, usize)> =
        entries.iter().map(|e| (e.root.clone(), e.frequency)).collect();
    assert_eq!(got, vec![("run".to_string(), 2), ("jump".to_string(), 1)]);
}
