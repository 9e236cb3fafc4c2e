use chainvisor_state::metrics::{
    find_first, parse_label_value, parse_labels, parse_sample_line, parse_samples, parse_selector,
    scraping, split_label_parts, split_lines, split_selector_and_value, take_word, trim,
    trim_end, trim_start, Labels, Scraping,
};
use chainvisor_state::number::is_number;

fn label<'a>(labels: &'a Labels, key: &str) -> &'a str {
    labels.get(key).unwrap()
}

#[test]
fn test_parse_samples() {
    let samples = parse_samples(
        r#"# HELP example_total example
example_total{kind="a",escaped="quote\" newline\n"} 12.5
other 3 12345
"#,
        42,
        123,
    );

    assert_eq!(samples.len(), 2);
    assert_eq!(samples[0].name, "example_total");
    assert_eq!(label(&samples[0].labels, "kind"), "a");
    assert_eq!(label(&samples[0].labels, "escaped"), "quote\" newline\n");
    assert_eq!(samples[0].value.parse::<f64>().unwrap(), 12.5);
    assert_eq!(samples[0].offset_ms, 42);
    assert_eq!(samples[0].unix_ms, 123);
    assert_eq!(samples[1].name, "other");
    assert!(samples[1].labels.is_empty());
    assert_eq!(samples[1].value.parse::<f64>().unwrap(), 3.0);
}

#[test]
fn surrounding_white_space_is_ignored() {
    assert_eq!(trim("\u{a0} a b\t"), "a b");
    assert_eq!(trim_start("  x "), "x ");
    assert_eq!(trim_end("  x \n"), "  x");
    assert_eq!(trim(" \u{2003}"), "");
    assert_eq!(take_word("3 12345"), "3");
    assert_eq!(take_word(""), "");
    assert_eq!(find_first(&vec!['a', 'b', 'b'], 'b'), Some(1));
    assert_eq!(find_first(&vec!['a'], 'b'), None);
}

#[test]
fn lines_end_at_a_feed_with_or_without_a_return() {
    assert_eq!(split_lines("a\r\nb\n\nc"), ["a", "b", "", "c"]);
    assert_eq!(split_lines("a\n"), ["a"]);
    assert!(split_lines("").is_empty());
    assert_eq!(split_lines("a\rb\n"), ["a\rb"]);
}

#[test]
fn the_selector_ends_at_white_space_outside_quotes() {
    assert_eq!(
        split_selector_and_value("m{a=\"} \"} 7"),
        Some(("m{a=\"} \"}", "7"))
    );
    assert_eq!(split_selector_and_value("m \t 7 8"), Some(("m", "7 8")));
    assert_eq!(split_selector_and_value("m"), None);
    assert_eq!(split_selector_and_value("m  "), None);
    assert_eq!(split_selector_and_value("m{a=\"x 7"), None);
}

#[test]
fn labels_are_split_at_commas_outside_quotes() {
    assert_eq!(split_label_parts("a=\"1,2\", b=\"\\\",\""), ["a=\"1,2\"", "b=\"\\\",\""]);
    assert_eq!(split_label_parts(""), [] as [&str; 0]);
}

#[test]
fn label_values_are_quoted_and_unescaped() {
    assert_eq!(parse_label_value("\"a\\\\b\\\"c\\nd\\qe\"").unwrap(), "a\\b\"c\ndqe");
    assert_eq!(parse_label_value("a\""), None);
    assert_eq!(parse_label_value("\"a"), None);
    assert_eq!(parse_label_value("\""), None);
    assert_eq!(parse_label_value("\"a\\\""), None);
}

#[test]
fn the_last_value_of_a_repeated_label_stays() {
    let labels = parse_labels("b=\"1\",a=\"2\",b=\"3\"").unwrap();
    assert_eq!(label(&labels, "b"), "3");
    assert_eq!(label(&labels, "a"), "2");
    assert_eq!(labels.pairs.len(), 2);
    assert_eq!(labels.pairs[0].0, "a");
    assert!(labels.get("c").is_none());
    assert!(parse_labels("nonsense").is_none());
    assert!(parse_labels("").unwrap().is_empty());
}

#[test]
fn a_selector_is_a_name_with_or_without_labels() {
    let (name, labels) = parse_selector("up{job=\"n\"}").unwrap();
    assert_eq!(name, "up");
    assert_eq!(label(&labels, "job"), "n");
    let (name, labels) = parse_selector("up").unwrap();
    assert_eq!(name, "up");
    assert!(labels.is_empty());
    assert!(parse_selector("up{job}").is_none());
    assert!(parse_selector("up{job=\"n\"").is_none());
    assert!(parse_selector("up}{").is_none());
}

#[test]
fn comments_and_blank_lines_hold_no_sample() {
    assert!(parse_sample_line("# TYPE up gauge", 0, 0).is_none());
    assert!(parse_sample_line("", 0, 0).is_none());
    assert!(parse_samples("\n  \n# x\n", 0, 0).is_empty());
    assert_eq!(parse_samples("  up 1  \n", 0, 0)[0].value, "1");
}

#[test]
fn a_line_whose_value_is_no_number_holds_no_sample() {
    assert!(parse_sample_line("up one", 0, 0).is_none());
    assert!(parse_sample_line("up 0x10", 0, 0).is_none());
    assert_eq!(parse_sample_line("up +Inf 17", 0, 0).unwrap().value, "+Inf");
    assert_eq!(parse_samples("a NaN\nb ?\nc 1e-3\n", 0, 0).len(), 2);
}

#[test]
fn texts_that_a_line_feed_joins_hold_the_samples_of_both() {
    let names = |text: &str| -> Vec<String> {
        parse_samples(text, 0, 0).into_iter().map(|s| s.name).collect()
    };
    for a in ["", "a 1", "a 1\r", "a 1\nb 2\n", "# x", "\r"] {
        for b in ["", "c 3", "\nc 3\nd 4\r\n"] {
            let joined = format!("{a}\n{b}");
            assert_eq!(names(&joined), [names(a), names(b)].concat());
        }
    }
}

#[test]
fn numbers_are_the_texts_that_std_parses() {
    let texts = [
        "", "0", "12", "+1", "-1", "--1", "+", "-", ".", "1.", ".5", "-.5", "1.5", "1..5", "1.5.",
        "e5", ".e5", "1e", "1e5", "1E5", "1e+5", "1e-5", "1e+", "1e5.", "1.e5", ".5e5", "1e5e5",
        "inf", "INF", "iNf", "-inf", "infinity", "+Infinity", "infinit", "infx", "nan", "NaN",
        "-nan", "nanx", "1_000", "1 ", " 1", "0x1", "1f", "\u{664}", "9".repeat(400).as_str(),
    ]
    .map(str::to_string);
    for text in texts {
        assert_eq!(is_number(&text), text.parse::<f64>().is_ok(), "{text:?}");
    }
}

#[test]
fn labels_can_be_built_one_by_one() {
    let mut labels = Labels::new();
    labels.insert("k".to_string(), "v".to_string());
    labels.insert("j".to_string(), "w".to_string());
    assert_eq!(labels.pairs[0].0, "j");
    labels.insert("k".to_string(), "x".to_string());
    assert_eq!(label(&labels, "k"), "x");
}

#[test]
fn scraping_needs_a_place_for_its_output() {
    assert_eq!(scraping(true, true), Scraping::On);
    assert_eq!(scraping(true, false), Scraping::NoOutput);
    assert_eq!(scraping(false, true), Scraping::Off);
    assert_eq!(scraping(false, false), Scraping::Off);
}
