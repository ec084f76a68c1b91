use kestrel::text::{has_prefix, has_suffix, text_order, TermMap, TextOrder};
use kestrel::tokenizer::{group_positions, is_cjk, normalize_term, tokenize_fields};

fn terms(text: &str) -> Vec<String> {
    let (tokens, _) = tokenize_fields(&[text.to_owned()]);
    tokens.into_iter().map(|token| token.term).collect()
}

#[test]
fn tokenizes_words_and_cjk_bigrams() {
    let fields = vec!["Hello, WORLD!".to_owned(), "全文检索".to_owned()];
    let (tokens, len) = tokenize_fields(&fields);
    let terms: Vec<_> = tokens.into_iter().map(|token| token.term).collect();
    assert_eq!(terms, ["hello", "world", "全文", "文检", "检索"]);
    assert_eq!(len, 5);
}

#[test]
fn positions_carry_the_column_above_the_offset() {
    let (tokens, len) = tokenize_fields(&["a b".to_owned(), "c".to_owned()]);
    let positions: Vec<_> = tokens.iter().map(|token| token.position).collect();
    assert_eq!(positions, [0, 1, 1 << 26]);
    assert_eq!(len, 3);
}

#[test]
fn columns_beyond_the_last_share_it() {
    let fields: Vec<String> = (0..66).map(|_| "x".to_owned()).collect();
    let (tokens, _) = tokenize_fields(&fields);
    assert_eq!(tokens[63].position, 63 << 26);
    assert_eq!(tokens[65].position, 63 << 26);
}

#[test]
fn a_single_ideograph_is_a_term_of_its_own() {
    assert_eq!(terms("中"), ["中"]);
    assert_eq!(terms("a中b"), ["a", "中", "b"]);
    assert_eq!(terms("snake_case and-dash"), ["snake_case", "and", "dash"]);
    assert_eq!(terms("naïve42"), ["naïve42"]);
    assert!(terms(" ,.! ").is_empty());
}

#[test]
fn scripts_are_told_apart() {
    assert!(is_cjk('中'));
    assert!(is_cjk('ひ'));
    assert!(is_cjk('한'));
    assert!(!is_cjk('a'));
    assert!(!is_cjk('!'));
}

#[test]
fn search_terms_are_folded_like_documents() {
    assert_eq!(normalize_term("StraßE"), "straße");
    assert_eq!(normalize_term("ΑΒΓ"), "αβγ");
}

#[test]
fn positions_are_grouped_by_term() {
    let (tokens, _) = tokenize_fields(&["b a b".to_owned()]);
    let grouped = group_positions(tokens);
    assert_eq!(grouped.get("a").unwrap(), &[1]);
    assert_eq!(grouped.get("b").unwrap(), &[0, 2]);
    assert!(grouped.get("c").is_none());
}

#[test]
fn texts_are_ordered_by_their_bytes() {
    assert_eq!(text_order("a", "b"), TextOrder::Before);
    assert_eq!(text_order("ab", "a"), TextOrder::After);
    assert_eq!(text_order("z", "é"), TextOrder::Before);
    assert_eq!(text_order("é", "é"), TextOrder::Same);
    assert!(has_prefix("kestrel", "kes"));
    assert!(!has_prefix("kes", "kestrel"));
    assert!(has_suffix("kestrel", "rel"));
    assert!(!has_suffix("kestrel", "res"));
    assert!(has_suffix("x", ""));
}

#[test]
fn maps_keep_their_terms_in_order() {
    let mut map: TermMap<u32> = TermMap::new();
    for (term, value) in [("m", 1), ("a", 2), ("z", 3)] {
        let (found, index) = map.search(term);
        assert!(!found);
        map.insert_at(index, term.to_owned(), value);
    }
    let order: Vec<_> = map.entries.iter().map(|entry| entry.0.as_str()).collect();
    assert_eq!(order, ["a", "m", "z"]);
    assert_eq!(map.replace_at(1, 7), 1);
    assert_eq!(map.get("m"), Some(&7));
    assert_eq!(map.remove_at(0), ("a".to_owned(), 2));
    assert_eq!(map.get("a"), None);
}
