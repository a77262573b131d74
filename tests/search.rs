use graph_search::search::{count_range, count_tokens, find_occurrence, partition_plan, tokenize};

const TEXT: &str =
    "Ciao mi chiamo Michele Maione e sono un informatico e sono nato a Napoli e sono bello";

fn oracle(text: &str, word: &str) -> usize {
    text.split_whitespace().filter(|t| *t == word).count()
}

#[test]
fn sono_occurs_three_times() {
    assert_eq!(find_occurrence(String::from(TEXT), String::from("sono"), 4), 3);
}

#[test]
fn napoli_occurs_once() {
    assert_eq!(find_occurrence(String::from(TEXT), String::from("Napoli"), 4), 1);
}

#[test]
fn empty_text_counts_zero() {
    assert_eq!(find_occurrence(String::new(), String::from("anything"), 8), 0);
    assert_eq!(partition_plan(0, 8), Vec::<(usize, usize)>::new());
}

#[test]
fn absent_word_counts_zero() {
    assert_eq!(find_occurrence(String::from(TEXT), String::from("Roma"), 3), 0);
}

#[test]
fn matches_sequential_scan() {
    let texts = [
        TEXT,
        "",
        "   ",
        "a",
        "a a a a a",
        "  a\tb\na  a\r\nb a  ",
        "sono, sono Sono sonoo sono",
        "x y z x y z x y z x",
    ];
    let words = ["a", "b", "sono", "x", "z", "Sono", "", "missing"];
    for t in texts.iter() {
        for w in words.iter() {
            for p in [0usize, 1, 2, 3, 5, 16] {
                assert_eq!(
                    find_occurrence(String::from(*t), String::from(*w), p),
                    oracle(t, w),
                    "text {:?} word {:?} parallelism {}",
                    t,
                    w,
                    p
                );
            }
        }
    }
}

#[test]
fn result_does_not_depend_on_parallelism() {
    let base = find_occurrence(String::from(TEXT), String::from("e"), 1);
    assert_eq!(base, 3);
    for p in [0usize, 2, 3, 7, 17, 18, 100, 1000, usize::MAX] {
        assert_eq!(find_occurrence(String::from(TEXT), String::from("e"), p), base);
    }
}

#[test]
fn comparison_is_exact() {
    let text = String::from("Sono sono, sono sonos SONO sono");
    assert_eq!(find_occurrence(text, String::from("sono"), 2), 2);
}

#[test]
fn plan_covers_every_index_once() {
    for n in 0usize..60 {
        for p in 0usize..25 {
            let parts = partition_plan(n, p);
            let mut seen = vec![0usize; n];
            for (from, to) in parts.iter() {
                assert!(from < to, "empty part for n={} p={}", n, p);
                for k in *from..*to {
                    seen[k] += 1;
                }
            }
            assert!(seen.iter().all(|c| *c == 1), "n={} p={}", n, p);
            let w = if p == 0 { 1 } else { p };
            assert!(parts.len() <= w);
            assert!(parts.len() <= n);
        }
    }
}

#[test]
fn plan_sizes_from_chunk_length() {
    assert_eq!(partition_plan(10, 4), vec![(0, 3), (3, 6), (6, 9), (9, 10)]);
    assert_eq!(partition_plan(5, 4), vec![(0, 2), (2, 4), (4, 5)]);
    assert_eq!(partition_plan(7, 1), vec![(0, 7)]);
    assert_eq!(partition_plan(7, 0), vec![(0, 7)]);
    assert_eq!(partition_plan(3, 8), vec![(0, 1), (1, 2), (2, 3)]);
    assert_eq!(partition_plan(6, 3), vec![(0, 2), (2, 4), (4, 6)]);
}

#[test]
fn fewer_tokens_than_workers() {
    let parts = partition_plan(2, 16);
    assert_eq!(parts, vec![(0, 1), (1, 2)]);
    assert_eq!(find_occurrence(String::from("sono sono"), String::from("sono"), 16), 2);
}

#[test]
fn repeated_runs_under_many_partitions() {
    let expected = oracle(TEXT, "sono");
    for round in 0..200usize {
        let p = 1000 + round;
        assert_eq!(find_occurrence(String::from(TEXT), String::from("sono"), p), expected);
    }
}

#[test]
fn tokenize_splits_on_whitespace_runs() {
    let tokens = tokenize("  uno\tdue \n tre  ");
    assert_eq!(tokens, vec![String::from("uno"), String::from("due"), String::from("tre")]);
    assert!(tokenize("").is_empty());
    assert!(tokenize(" \t\n").is_empty());
}

#[test]
fn count_range_counts_only_its_slice() {
    let tokens = tokenize("a b a c a");
    let word = String::from("a");
    assert_eq!(count_range(&tokens, &word, 0, 5), 3);
    assert_eq!(count_range(&tokens, &word, 1, 4), 1);
    assert_eq!(count_range(&tokens, &word, 2, 2), 0);
    assert_eq!(count_range(&tokens, &word, 4, 5), 1);
}

#[test]
fn count_tokens_over_given_tokens() {
    let tokens: Vec<String> = ["b", "a", "b", "b", "c", "b"].iter().map(|t| t.to_string()).collect();
    let word = String::from("b");
    for p in [0usize, 1, 2, 4, 6, 50] {
        assert_eq!(count_tokens(&tokens, &word, p), 4);
    }
    assert_eq!(count_tokens(&Vec::new(), &word, 3), 0);
    assert_eq!(count_tokens(&tokens, &String::from("z"), 3), 0);
}
