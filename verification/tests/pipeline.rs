use ngram_charts::aggregate::per_length_max;
use ngram_charts::aggregate::reference_scale;
use ngram_charts::aggregate::truncate;
use ngram_charts::aggregate::AggregateError;
use ngram_charts::aggregate::LENGTH_1_LIMIT;
use ngram_charts::aggregate::LENGTH_2_LIMIT;
use ngram_charts::aggregate::LENGTH_3_LIMIT;
use ngram_charts::aggregate::unique_counts;
use ngram_charts::aggregate::growth_ratios;
use ngram_charts::corpus::CorpusSet;
use ngram_charts::corpus::FrequencyTable;
use ngram_charts::sanitize::CustomDebugString;
use ngram_charts::series::build_length_chart;
use ngram_charts::series::build_token_chart;

fn numbered_lines(n: usize) -> String {
    let mut text = String::new();
    for i in 0..n {
        text.push_str(&format!("{} tok{}\n", n - i, i));
    }
    text
}

fn corpus_of_sizes(a: usize, b: usize, c: usize) -> CorpusSet {
    CorpusSet::from_texts(&numbered_lines(a), &numbered_lines(b), &numbered_lines(c))
}

#[test]
fn cleaned_is_identity_on_printable_text() {
    for raw in ["dog", "héllo", "a-b_c.d", "42", "émoji🙂"] {
        assert_eq!(CustomDebugString::cleaned(raw).text(), raw);
    }
}

#[test]
fn cleaned_escapes_named_characters() {
    assert_eq!(CustomDebugString::cleaned("\0").text(), "\\0");
    assert_eq!(CustomDebugString::cleaned("\u{1}").text(), "^A");
    assert_eq!(CustomDebugString::cleaned("\u{3}").text(), "^C");
    assert_eq!(CustomDebugString::cleaned("\u{8}").text(), "\\b");
    assert_eq!(CustomDebugString::cleaned("\t").text(), "\\t");
    assert_eq!(CustomDebugString::cleaned("\u{12}").text(), "^R");
    assert_eq!(CustomDebugString::cleaned("\u{14}").text(), "^T");
    assert_eq!(CustomDebugString::cleaned("\u{16}").text(), "^V");
    assert_eq!(CustomDebugString::cleaned("\u{17}").text(), "^W");
    assert_eq!(CustomDebugString::cleaned("\u{18}").text(), "^X");
    assert_eq!(CustomDebugString::cleaned("\u{1b}").text(), "\\e");
    assert_eq!(CustomDebugString::cleaned("\u{7f}").text(), "\\d");
    assert_eq!(CustomDebugString::cleaned(" ").text(), "\\s");
    assert_eq!(CustomDebugString::cleaned("\u{a0}").text(), "\\s");
    assert_eq!(CustomDebugString::cleaned("a b").text(), "a\\sb");
}

#[test]
fn cleaned_maps_other_controls_to_sentinel() {
    let bell = CustomDebugString::cleaned("\u{7}");
    assert_eq!(bell.text(), "\u{fffd}");
    assert!(bell.is_sentinel());
    let printable = CustomDebugString::cleaned("x");
    assert!(!printable.is_sentinel());
    // Two sentinels are not the single-sentinel value.
    assert!(!CustomDebugString::cleaned("\u{7}\u{7}").is_sentinel());
}

#[test]
fn token_equality_follows_sanitized_text() {
    // Different raw text, same sanitized form.
    assert!(CustomDebugString::cleaned("a b") == CustomDebugString::cleaned("a\u{a0}b"));
    assert!(CustomDebugString::cleaned("a") != CustomDebugString::cleaned("b"));
}

#[test]
fn cleaned_applied_twice_changes_nothing() {
    for raw in ["plain", "a b\tc", "\0\u{1}\u{7}", " \u{a0}\u{1b}end"] {
        let once = CustomDebugString::cleaned(raw);
        let twice = CustomDebugString::cleaned(once.text());
        assert_eq!(once.text(), twice.text());
    }
}

#[test]
fn from_text_parses_sorts_and_keeps_duplicates() {
    let table = FrequencyTable::from_text("5 cat\n10 dog\n3 cat\n");
    assert_eq!(table.len(), 3);
    assert_eq!(table.count_at(0), 10);
    assert_eq!(table.token_at(0).text(), "dog");
    assert_eq!(table.count_at(1), 5);
    assert_eq!(table.token_at(1).text(), "cat");
    assert_eq!(table.count_at(2), 3);
    assert_eq!(table.token_at(2).text(), "cat");
    assert_eq!(per_length_max(&table), Ok(10));
}

#[test]
fn from_text_drops_lines_that_do_not_parse() {
    let table = FrequencyTable::from_text("\nno-space\nx 1\n9 good\n+2 plus\n99999999999999999999 big\n");
    // Kept: "9 good" and "+2 plus"; "x 1" has no leading count, the last
    // count overflows a u64.
    assert_eq!(table.len(), 2);
    assert_eq!(table.count_at(0), 9);
    assert_eq!(table.token_at(0).text(), "good");
    assert_eq!(table.count_at(1), 2);
    assert_eq!(table.token_at(1).text(), "plus");
}

#[test]
fn from_text_keeps_token_text_after_first_space() {
    let table = FrequencyTable::from_text("4 a b\r\n2 \n");
    assert_eq!(table.len(), 2);
    assert_eq!(table.token_at(0).text(), "a\\sb");
    assert_eq!(table.token_at(1).text(), "");
}

#[test]
fn sort_is_stable_on_equal_counts() {
    let table = FrequencyTable::from_text("5 a\n7 b\n5 c\n5 d\n6 e\n");
    let got: Vec<(u64, String)> = (0..table.len())
        .map(|i| (table.count_at(i), table.token_at(i).text().to_string()))
        .collect();
    let want = vec![
        (7, "b".to_string()),
        (6, "e".to_string()),
        (5, "a".to_string()),
        (5, "c".to_string()),
        (5, "d".to_string()),
    ];
    assert_eq!(got, want);
}

#[test]
fn unique_counts_reports_table_sizes() {
    let corpus = corpus_of_sizes(80, 115, 90);
    assert_eq!(unique_counts(&corpus), vec![(1, 80), (2, 115), (3, 90)]);
}

#[test]
fn growth_ratios_start_at_one_one() {
    let corpus = corpus_of_sizes(2, 5, 7);
    assert_eq!(growth_ratios(&corpus), vec![(1, 1), (2, 2), (3, 1)]);
    let other = corpus_of_sizes(9, 3, 27);
    assert_eq!(growth_ratios(&other), vec![(1, 1), (2, 0), (3, 9)]);
}

#[test]
fn per_length_max_fails_on_an_empty_table() {
    let empty = FrequencyTable::from_text("");
    assert_eq!(per_length_max(&empty), Err(AggregateError::EmptyTable));
}

#[test]
fn reference_scale_uses_floor_division() {
    assert_eq!(reference_scale(50, 200), 4);
    assert_eq!(reference_scale(50, 249), 4);
    assert_eq!(reference_scale(7, 3), 0);
    // Every reference count up to 200 scaled by 4 stays within the subject
    // maximum of 50.
    for v in [0u64, 1, 49, 50, 199, 200] {
        assert!(v / reference_scale(50, 200) <= 50);
    }
}

#[test]
fn truncate_caps_table_sizes_and_keeps_order() {
    let corpus = corpus_of_sizes(100, 120, 30);
    let cut = truncate(&corpus, LENGTH_1_LIMIT, LENGTH_2_LIMIT, LENGTH_3_LIMIT);
    assert_eq!(unique_counts(&cut), vec![(1, 80), (2, 115), (3, 30)]);
    for length in 1..=3usize {
        let before = corpus.table(length);
        let after = cut.table(length);
        assert!(after.len() <= before.len());
        for i in 0..after.len() {
            assert_eq!(after.count_at(i), before.count_at(i));
            assert_eq!(after.token_at(i).text(), before.token_at(i).text());
        }
    }
    // The input corpus is unchanged.
    assert_eq!(unique_counts(&corpus), vec![(1, 100), (2, 120), (3, 30)]);
}

#[test]
fn length_chart_covers_subject_and_reference() {
    let corpus = corpus_of_sizes(2, 5, 7);
    let reference = corpus_of_sizes(4, 20, 10);
    let chart = build_length_chart(&corpus, Some(&reference), false);
    assert_eq!(chart.subject, vec![(1, 2), (2, 5), (3, 7)]);
    assert_eq!(chart.reference, Some(vec![(1, 4), (2, 20), (3, 10)]));
    assert_eq!(chart.y_upper, 22);

    let ratios = build_length_chart(&corpus, Some(&reference), true);
    assert_eq!(ratios.subject, vec![(1, 1), (2, 2), (3, 1)]);
    assert_eq!(ratios.reference, Some(vec![(1, 1), (2, 5), (3, 0)]));
    assert_eq!(ratios.y_upper, 5);

    let alone = build_length_chart(&corpus, None, false);
    assert_eq!(alone.subject, vec![(1, 2), (2, 5), (3, 7)]);
    assert_eq!(alone.reference, None);
    assert_eq!(alone.y_upper, 7);
}

#[test]
fn token_chart_gives_axis_headroom() {
    let table = FrequencyTable::from_text("5 cat\n10 dog\n3 cat\n");
    let chart = build_token_chart(&table, None).unwrap();
    assert_eq!(chart.y_upper, 11);
    let points: Vec<(String, u64)> =
        chart.subject.iter().map(|(t, v)| (t.text().to_string(), *v)).collect();
    let want = vec![
        ("dog".to_string(), 10),
        ("cat".to_string(), 5),
        ("cat".to_string(), 3),
    ];
    assert_eq!(points, want);
}

#[test]
fn token_chart_excludes_sentinel_tokens_from_points_only() {
    let table = FrequencyTable::from_text("7 \u{7}\n3 x\n");
    // The unrepresentable token still counts toward the table size and the
    // maximum...
    assert_eq!(table.len(), 2);
    assert_eq!(per_length_max(&table), Ok(7));
    let chart = build_token_chart(&table, None).unwrap();
    assert_eq!(chart.y_upper, 7);
    // ...but is left out of the per-token series.
    assert_eq!(chart.subject.len(), 1);
    assert_eq!(chart.subject[0].0.text(), "x");
    assert_eq!(chart.subject[0].1, 3);
}

#[test]
fn token_chart_scales_reference_counts_down() {
    let subject = FrequencyTable::from_text("50 s\n20 t\n");
    let reference = FrequencyTable::from_text("200 r\n99 q\n");
    let chart = build_token_chart(&subject, Some(&reference)).unwrap();
    let got: Vec<(String, u64)> = chart
        .reference
        .unwrap()
        .iter()
        .map(|(t, v)| (t.text().to_string(), *v))
        .collect();
    assert_eq!(got, vec![("r".to_string(), 50), ("q".to_string(), 24)]);
    assert_eq!(chart.subject.len(), 2);
    assert_eq!(chart.y_upper, 55);
}

#[test]
fn token_chart_fails_only_on_empty_tables() {
    let empty = FrequencyTable::from_text("");
    let full = FrequencyTable::from_text("5 cat\n");
    assert_eq!(
        build_token_chart(&empty, None).map(|_| ()),
        Err(AggregateError::EmptyTable)
    );
    assert_eq!(
        build_token_chart(&full, Some(&empty)).map(|_| ()),
        Err(AggregateError::EmptyTable)
    );
    assert!(build_token_chart(&full, None).is_ok());
}
