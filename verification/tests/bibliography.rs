use mdbook_scientific::references::{seed_bibliography, seed_citations};
use mdbook_scientific::strmap::StrMap;

#[test]
fn citation_keys_get_sequential_markers() {
    let keys = vec!["alpha".to_string(), "beta".to_string(), "gamma".to_string()];
    let mut table = StrMap::new();
    seed_citations(&keys, &mut table);
    assert_eq!(table.get("alpha"), Some("[1]".to_string()));
    assert_eq!(table.get("beta"), Some("[2]".to_string()));
    assert_eq!(table.get("gamma"), Some("[3]".to_string()));
    assert_eq!(table.get("delta"), None);
}

#[test]
fn bibtex_source_seeds_the_table_in_order() {
    let src = "@misc{key1, title = {First Title}}\n\n@article{key2, author = {A. Person}, title = {Second}, journal = {J}, year = {2001}}\n";
    let mut table = StrMap::new();
    let n = seed_bibliography(src, &mut table).expect("bibliography should parse");
    assert_eq!(n, 2);
    assert_eq!(table.get("key1"), Some("[1]".to_string()));
    assert_eq!(table.get("key2"), Some("[2]".to_string()));
}

#[test]
fn self_referential_abbreviations_do_not_abort() {
    // Mutually referential @string abbreviations must not hang or crash the
    // seeding; the citation keys come back regardless.
    let src = "@string{a = b}\n@string{b = a}\n@misc{solo, title = {T}}\n";
    let mut table = StrMap::new();
    let n = seed_bibliography(src, &mut table).expect("raw entries should parse");
    assert_eq!(n, 1);
    assert_eq!(table.get("solo"), Some("[1]".to_string()));
}

#[test]
fn table_keeps_the_latest_binding() {
    let mut table = StrMap::new();
    table.insert("x".to_string(), "old".to_string());
    table.insert("x".to_string(), "new".to_string());
    assert_eq!(table.get("x"), Some("new".to_string()));
}
