use product_graph::parser::{parse_lines, ProductParser};
use product_graph::text::{parse_count, trim_range, words_from};

fn lines(text: &str) -> Vec<String> {
    text.lines().map(|l| l.to_string()).collect()
}

fn chars(s: &str) -> Vec<char> {
    s.chars().collect()
}

#[test]
fn parses_records_of_a_dump() {
    let text = [
        "# header line",
        "Total items: 3",
        "",
        "Id:   0",
        "ASIN: 0771044445",
        "  discontinued product",
        "",
        "Id:   1",
        "ASIN: 0827229534",
        "  title: Patterns of Preaching: A Sermon Sampler",
        "  group: Book",
        "  similar: 5  0804215715  156101074X  0687023955  0687074231  082721619X",
        "",
        "Id:   2",
        "ASIN: 0738700797",
        "  title: Candlemas",
        "  similar: 2  0738700827  1567184960  1567182836",
    ]
    .join("\n");
    let ps = parse_lines(&lines(&text));
    assert_eq!(ps.len(), 3);
    assert_eq!(ps[0].asin, "0771044445");
    assert_eq!(ps[0].title, "");
    assert!(ps[0].similar.is_empty());
    assert_eq!(ps[1].asin, "0827229534");
    assert_eq!(ps[1].title, "Patterns of Preaching: A Sermon Sampler");
    assert_eq!(
        ps[1].similar,
        vec!["0804215715", "156101074X", "0687023955", "0687074231", "082721619X"]
    );
    assert_eq!(ps[2].title, "Candlemas");
    assert_eq!(ps[2].similar, vec!["0738700827", "1567184960"]);
}

#[test]
fn count_larger_than_list_keeps_all() {
    let ps = parse_lines(&lines("Id: 7\nASIN: X\n  similar: 9  a b\n"));
    assert_eq!(ps[0].similar, vec!["a", "b"]);
}

#[test]
fn similar_line_without_count_is_skipped() {
    let ps = parse_lines(&lines("Id: 7\nASIN: X\n  similar: 1 a\n  similar: many a\n  similar:\n"));
    assert_eq!(ps[0].similar, vec!["a"]);
}

#[test]
fn short_asin_line_gives_empty_identifier() {
    let ps = parse_lines(&lines("Id: 1\nASIN:\n"));
    assert_eq!(ps[0].asin, "");
}

#[test]
fn no_id_line_gives_no_records() {
    assert!(parse_lines(&lines("ASIN: X\n  title: T\n")).is_empty());
    assert!(parse_lines(&Vec::new()).is_empty());
}

#[test]
fn feeding_lines_one_by_one() {
    let mut parser = ProductParser::new();
    for l in ["Id: 1", "ASIN: A1", "Id: 2", "ASIN:   B2  ", "  title: Two"] {
        parser.feed(&l.to_string());
    }
    let ps = parser.finish();
    assert_eq!(ps.len(), 2);
    assert_eq!(ps[0].asin, "A1");
    assert_eq!(ps[1].asin, "B2");
    assert_eq!(ps[1].title, "Two");
}

#[test]
fn counts_parse_like_usize() {
    assert_eq!(parse_count(&"5".to_string()), Some(5));
    assert_eq!(parse_count(&"+12".to_string()), Some(12));
    assert_eq!(parse_count(&"007".to_string()), Some(7));
    assert_eq!(parse_count(&"".to_string()), None);
    assert_eq!(parse_count(&"+".to_string()), None);
    assert_eq!(parse_count(&"-1".to_string()), None);
    assert_eq!(parse_count(&"4x".to_string()), None);
    assert_eq!(parse_count(&"18446744073709551615".to_string()), Some(usize::MAX));
    assert_eq!(parse_count(&"18446744073709551616".to_string()), None);
}

#[test]
fn trims_white_space_at_both_ends() {
    let cs = chars("ab \t hello world \u{3000}");
    assert_eq!(trim_range(&cs, 2, cs.len()), "hello world");
    assert_eq!(trim_range(&cs, 0, 2), "ab");
    assert_eq!(trim_range(&cs, 2, 4), "");
}

#[test]
fn splits_words_on_white_space() {
    let cs = chars("xx  3   a\tb  c ");
    assert_eq!(words_from(&cs, 2), vec!["3", "a", "b", "c"]);
    assert_eq!(words_from(&cs, 1), vec!["x", "3", "a", "b", "c"]);
    assert!(words_from(&cs, cs.len()).is_empty());
}
