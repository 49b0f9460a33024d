use ghostnote::dates::{format_date, format_month_day, to_decimal, to_decimal_padded};
use ghostnote::text::{
    chars_of, contains_chars, count_words, extract_preview, extract_title, format_groups,
    slugify, split_lines, string_from_chars, strip_separators, sub_chars, trim_chars,
};

fn cv(s: &str) -> Vec<char> {
    chars_of(s)
}

fn sv(v: &Vec<char>) -> String {
    string_from_chars(v)
}

#[test]
fn title_from_heading_line() {
    let c = cv("intro line\n  # Not a title? yes it is\nrest\n");
    assert_eq!(sv(&extract_title(&c, &cv("stem"))), "Not a title? yes it is");
    let c = cv("no heading\nat all\n");
    assert_eq!(sv(&extract_title(&c, &cv("my-file"))), "my-file");
    let c = cv("#not a heading\n# Real\n");
    assert_eq!(sv(&extract_title(&c, &cv("x"))), "Real");
}

#[test]
fn preview_takes_two_body_lines() {
    let c = cv("# Title\n\nfirst line\nsecond line\nthird line\n");
    assert_eq!(sv(&extract_preview(&c)), "first line second line");
    let c = cv("# Only heading\n\n");
    assert_eq!(sv(&extract_preview(&c)), "");
}

#[test]
fn preview_truncates_at_cutoff() {
    let long = "x".repeat(120);
    let c = cv(&long);
    let p = sv(&extract_preview(&c));
    assert_eq!(p.len(), 103);
    assert!(p.ends_with("..."));
    assert_eq!(&p[..100], &long[..100]);
}

#[test]
fn slugify_titles() {
    assert_eq!(sv(&slugify(&cv("Shopping List"))), "shopping-list");
    assert_eq!(sv(&slugify(&cv("  Hello, World!  "))), "hello--world");
    assert_eq!(sv(&slugify(&cv("MiXeD123"))), "mixed123");
    assert_eq!(sv(&slugify(&cv("---"))), "");
    // case folding and the letter class are Unicode-wide
    assert_eq!(sv(&slugify(&cv("Crème Brûlée"))), "crème-brûlée");
    assert_eq!(sv(&slugify(&cv("ΑΘΗΝΑ"))), "αθηνα");
}

#[test]
fn word_count_counts_tokens() {
    assert_eq!(count_words(&cv("")), 0);
    assert_eq!(count_words(&cv("   ")), 0);
    assert_eq!(count_words(&cv("one")), 1);
    assert_eq!(count_words(&cv("# Title\n\ntwo words here\n")), 5);
}

#[test]
fn line_splitting_matches_rust_lines() {
    let texts = ["", "a", "a\n", "a\nb", "a\r\nb\r\n", "\n\n", "one\n\ntwo\n"];
    for t in texts {
        let got: Vec<String> = split_lines(&cv(t)).iter().map(sv).collect();
        let want: Vec<String> = t.lines().map(|l| l.to_string()).collect();
        assert_eq!(got, want, "splitting {:?}", t);
    }
}

#[test]
fn trimming_is_unicode_whitespace() {
    assert_eq!(sv(&trim_chars(&cv("  \thello world \r\n"))), "hello world");
    // U+00A0 no-break space counts as whitespace too
    assert_eq!(sv(&trim_chars(&cv("\u{00A0}padded\u{00A0}"))), "padded");
}

#[test]
fn substring_containment() {
    assert!(contains_chars(&cv("hello world"), &cv("lo wo")));
    assert!(contains_chars(&cv("abc"), &cv("")));
    assert!(!contains_chars(&cv("abc"), &cv("abcd")));
    assert!(!contains_chars(&cv("abc"), &cv("ac")));
}

#[test]
fn grouping_and_stripping() {
    assert_eq!(sv(&format_groups(&cv("ABCDEFGHIJKLMNOPQRSTUVWX"))), "ABCD-EFGH-IJKL-MNOP-QRST-UVWX");
    assert_eq!(sv(&format_groups(&cv("abc"))), "abc");
    assert_eq!(sv(&strip_separators(&cv("a-b c-d"), false)), "ab cd");
    assert_eq!(sv(&strip_separators(&cv("a-b c-d"), true)), "abcd");
}

#[test]
fn sub_chars_copies_ranges() {
    let v = cv("abcdef");
    assert_eq!(sv(&sub_chars(&v, 1, 4)), "bcd");
    assert_eq!(sv(&sub_chars(&v, 0, 0)), "");
}

#[test]
fn decimal_and_date_formatting() {
    assert_eq!(sv(&to_decimal(0)), "0");
    assert_eq!(sv(&to_decimal(907)), "907");
    assert_eq!(sv(&to_decimal_padded(5, 2)), "05");
    assert_eq!(sv(&to_decimal_padded(2026, 4)), "2026");
    assert_eq!(format_month_day(10, 5), "Oct 05");
    assert_eq!(format_month_day(1, 31), "Jan 31");
    // epoch second zero falls on the last or first day of 1969/1970
    // depending on the zone; the rendering is always month + padded day
    let d = format_date(0);
    assert!(d == "Jan 01" || d == "Dec 31");
}
