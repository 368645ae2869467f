use catalog_search::analyzer::{tokenize, AnalyzerConfig};
use catalog_search::params::{
    parse_count, parse_duration, parse_flag, parse_rating, parse_skip_take, parse_sort_dir,
    parse_sort_key, EngineError,
};
use catalog_search::pipeline::SortKey;

fn toks(s: &str, min_len: usize, stem: bool) -> Vec<String> {
    tokenize(s, &AnalyzerConfig { min_len, stem })
        .into_iter()
        .map(|t| t.into_iter().collect())
        .collect()
}

#[test]
fn punctuation_becomes_spaces_and_case_folds() {
    assert_eq!(toks("Hello, World!", 0, false), vec!["hello", "world"]);
    assert_eq!(toks("don't-stop", 0, false), vec!["don", "t", "stop"]);
    assert_eq!(toks("A1-B2", 0, false), vec!["a1", "b2"]);
}

#[test]
fn empty_tokens_are_dropped() {
    assert_eq!(toks("   ", 0, false), Vec::<String>::new());
    assert_eq!(toks("", 0, false), Vec::<String>::new());
    assert_eq!(toks("...!!!", 0, false), Vec::<String>::new());
}

#[test]
fn minimum_length_drops_short_tokens() {
    assert_eq!(toks("ab cde f ghi", 3, false), vec!["cde", "ghi"]);
    assert_eq!(toks("ab cde f ghi", 0, false), vec!["ab", "cde", "f", "ghi"]);
}

#[test]
fn stemming_reduces_english_inflections() {
    assert_eq!(toks("running jumps", 0, true), vec!["run", "jump"]);
}

#[test]
fn same_text_tokenizes_identically_for_indexing_and_querying() {
    let cfg = AnalyzerConfig { min_len: 3, stem: false };
    let a = tokenize("The Quick, Brown Fox", &cfg);
    let b = tokenize("The Quick, Brown Fox", &cfg);
    assert_eq!(a, b);
}

#[test]
fn parse_count_accepts_digits_only() {
    assert_eq!(parse_count("123"), Ok(123));
    assert_eq!(parse_count("0"), Ok(0));
    assert_eq!(parse_count(""), Err(EngineError::InvalidArgument));
    assert_eq!(parse_count("12a"), Err(EngineError::InvalidArgument));
    assert_eq!(parse_count("-1"), Err(EngineError::InvalidArgument));
    assert_eq!(parse_count("18446744073709551615"), Ok(u64::MAX));
    assert_eq!(
        parse_count("18446744073709551616"),
        Err(EngineError::InvalidArgument)
    );
}

#[test]
fn parse_skip_take_bounds() {
    assert_eq!(parse_skip_take("42"), Ok(42));
    assert_eq!(parse_skip_take("x"), Err(EngineError::InvalidArgument));
}

#[test]
fn parse_rating_rejects_values_over_255() {
    assert_eq!(parse_rating("5"), Ok(5));
    assert_eq!(parse_rating("255"), Ok(255));
    assert_eq!(parse_rating("300"), Err(EngineError::InvalidArgument));
}

#[test]
fn parse_duration_rejects_values_over_u16() {
    assert_eq!(parse_duration("90"), Ok(90));
    assert_eq!(parse_duration("65536"), Err(EngineError::InvalidArgument));
}

#[test]
fn sort_keys_are_a_closed_set_with_fallback() {
    assert_eq!(parse_sort_key("name"), Some(SortKey::Name));
    assert_eq!(parse_sort_key("alpha"), Some(SortKey::Name));
    assert_eq!(parse_sort_key("rating"), Some(SortKey::Rating));
    assert_eq!(parse_sort_key("addedOn"), Some(SortKey::AddedOn));
    assert_eq!(parse_sort_key("added_on"), Some(SortKey::AddedOn));
    assert_eq!(parse_sort_key("duration"), Some(SortKey::Duration));
    assert_eq!(parse_sort_key("resolution"), Some(SortKey::Resolution));
    assert_eq!(parse_sort_key("size"), Some(SortKey::Size));
    assert_eq!(parse_sort_key("views"), Some(SortKey::Views));
    assert_eq!(parse_sort_key("date"), Some(SortKey::Date));
    assert_eq!(parse_sort_key("popularity"), None);
    assert_eq!(parse_sort_key(""), None);
}

#[test]
fn sort_direction_and_flags() {
    assert!(parse_sort_dir("asc"));
    assert!(!parse_sort_dir("desc"));
    assert!(!parse_sort_dir(""));
    assert!(parse_flag("true"));
    assert!(!parse_flag("True"));
    assert!(!parse_flag("1"));
}
