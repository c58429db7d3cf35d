use mdbook_scientific::fragments::{cache_stem, BlockKind};
use mdbook_scientific::hashing::hash;

#[test]
fn hash_known_value_empty() {
    // SHA-256 of the empty string starts with e3b0c44298fc1c149afbf4c8.
    assert_eq!(hash(""), "e3b0c44298fc1c149afbf4c8");
}

#[test]
fn hash_known_value_hello() {
    // SHA-256 of "hello" starts with 2cf24dba5fb0a30e26e83b2a.
    assert_eq!(hash("hello"), "2cf24dba5fb0a30e26e83b2a");
}

#[test]
fn hash_is_24_hex_chars() {
    let h = hash("E = mc^2");
    assert_eq!(h.len(), 24);
    assert!(h.chars().all(|c| c.is_ascii_hexdigit()));
}

#[test]
fn hash_stable_across_calls() {
    let a = hash("x^2 + y^2 = z^2");
    let b = hash("x^2 + y^2 = z^2");
    assert_eq!(a, b);
}

#[test]
fn hash_differs_on_whitespace() {
    // No normalization: whitespace edits change the fingerprint.
    assert_ne!(hash("a b"), hash("a  b"));
}

#[test]
fn cache_stem_separates_kinds() {
    // Byte-identical bodies must not collide across kinds.
    let body = "plot sin(x)";
    let latex = cache_stem(BlockKind::Latex, body);
    let gnuplot = cache_stem(BlockKind::Gnuplot, body);
    let gnuplot_only = cache_stem(BlockKind::GnuplotOnly, body);
    let equation = cache_stem(BlockKind::Equation, body);
    assert_ne!(latex, gnuplot);
    assert_ne!(latex, gnuplot_only);
    assert_ne!(latex, equation);
    assert_ne!(gnuplot, gnuplot_only);
    assert_ne!(gnuplot, equation);
    assert_ne!(gnuplot_only, equation);
}

#[test]
fn cache_stem_stable() {
    assert_eq!(
        cache_stem(BlockKind::Equation, "E=mc^2\n"),
        cache_stem(BlockKind::Equation, "E=mc^2\n")
    );
}
