use mdbook_scientific::error::Error;
use mdbook_scientific::fragments::{cache_stem, BlockKind};
use mdbook_scientific::preprocess::replace_inline_blocks;
use mdbook_scientific::strmap::StrMap;

#[test]
fn text_without_delimiters_is_unchanged() {
    let refs = StrMap::new();
    let mut used = Vec::new();
    let mut jobs = Vec::new();
    let src = "no math here\njust words\n";
    let out = replace_inline_blocks(src, "1", &refs, &mut used, &mut jobs);
    assert_eq!(out, Ok(src.to_string()));
    assert!(used.is_empty());
    assert!(jobs.is_empty());
}

#[test]
fn odd_delimiter_count_fails_with_unbalanced_error() {
    let refs = StrMap::new();
    let mut used = Vec::new();
    let mut jobs = Vec::new();
    // Three delimiters on one line: unambiguous tokenization is impossible.
    let out = replace_inline_blocks("a $b$ c $ d", "1", &refs, &mut used, &mut jobs);
    assert_eq!(out, Err(Error::UnevenNumberDollar));
}

#[test]
fn missing_reference_names_label_and_line() {
    let refs = StrMap::new();
    let mut used = Vec::new();
    let mut jobs = Vec::new();
    let out = replace_inline_blocks("$ref:fig:missing$", "1", &refs, &mut used, &mut jobs);
    assert_eq!(
        out,
        Err(Error::InvalidReference(
            "could not find reference to `missing` in line 0".to_string()
        ))
    );
}

#[test]
fn missing_reference_reports_its_line_number() {
    let refs = StrMap::new();
    let mut used = Vec::new();
    let mut jobs = Vec::new();
    let out =
        replace_inline_blocks("fine\nfine\nsee $ref:equ:gone$", "1", &refs, &mut used, &mut jobs);
    assert_eq!(
        out,
        Err(Error::InvalidReference(
            "could not find reference to `gone` in line 2".to_string()
        ))
    );
}

#[test]
fn unknown_reference_type_is_rejected() {
    let refs = StrMap::new();
    let mut used = Vec::new();
    let mut jobs = Vec::new();
    let out = replace_inline_blocks("$ref:tab:t1$", "1", &refs, &mut used, &mut jobs);
    assert_eq!(
        out,
        Err(Error::InvalidReference(
            "unknown reference type of `tab` in line 0".to_string()
        ))
    );
}

#[test]
fn malformed_reference_token_renders_as_inline_equation() {
    let refs = StrMap::new();
    let mut used = Vec::new();
    let mut jobs = Vec::new();
    // Too few fields after `ref:`: not a reference token, so the segment is
    // an inline equation body.
    let out = replace_inline_blocks("$ref:fig$", "1", &refs, &mut used, &mut jobs);
    let file = format!("{}.svg", cache_stem(BlockKind::Equation, "ref:fig"));
    assert_eq!(
        out,
        Ok(format!(
            "<object class=\"equation_inline\" data=\"assets/{}\" type=\"image/svg+xml\"></object>",
            file
        ))
    );
    assert_eq!(used, vec![file]);
    assert_eq!(jobs.len(), 1);
    assert!(jobs[0].1.payload.contains("ref:fig"));
}

#[test]
fn overlong_reference_token_renders_as_inline_equation() {
    let refs = StrMap::new();
    let mut used = Vec::new();
    let mut jobs = Vec::new();
    let out = replace_inline_blocks("$ref:fig:a:b$", "1", &refs, &mut used, &mut jobs);
    let file = format!("{}.svg", cache_stem(BlockKind::Equation, "ref:fig:a:b"));
    assert_eq!(
        out,
        Ok(format!(
            "<object class=\"equation_inline\" data=\"assets/{}\" type=\"image/svg+xml\"></object>",
            file
        ))
    );
    assert_eq!(jobs.len(), 1);
}

#[test]
fn figure_reference_resolves_to_anchor() {
    let mut refs = StrMap::new();
    refs.insert("f1".to_string(), "Figure 21".to_string());
    let mut used = Vec::new();
    let mut jobs = Vec::new();
    let out = replace_inline_blocks("see $ref:fig:f1$ now", "2", &refs, &mut used, &mut jobs);
    assert_eq!(
        out,
        Ok("see <a class=\"fig_ref\" href='#f1'>Figure 21</a> now".to_string())
    );
}

#[test]
fn bibliography_reference_resolves_to_anchor() {
    let mut refs = StrMap::new();
    refs.insert("knuth".to_string(), "[3]".to_string());
    let mut used = Vec::new();
    let mut jobs = Vec::new();
    let out = replace_inline_blocks("$ref:bib:knuth$", "1", &refs, &mut used, &mut jobs);
    assert_eq!(
        out,
        Ok("<a class=\"bib_ref\" href='bibliography.html#knuth'>[3]</a>".to_string())
    );
}

#[test]
fn inline_equation_is_cached_and_recorded() {
    let refs = StrMap::new();
    let mut used = Vec::new();
    let mut jobs = Vec::new();
    let out = replace_inline_blocks("value $x+1$ here", "4", &refs, &mut used, &mut jobs);
    let file = format!("{}.svg", cache_stem(BlockKind::Equation, "x+1"));
    assert_eq!(
        out,
        Ok(format!(
            "value <object class=\"equation_inline\" data=\"assets/{}\" type=\"image/svg+xml\"></object> here",
            file
        ))
    );
    assert_eq!(used, vec![file]);
    assert_eq!(jobs.len(), 1);
    // The job is tagged with the chapter it came from.
    assert_eq!(jobs[0].0, "4");
    assert_eq!(jobs[0].1.zoom_tenths, 13);
    assert!(jobs[0].1.payload.contains("x+1"));
}

#[test]
fn effects_before_a_failure_are_kept() {
    let refs = StrMap::new();
    let mut used = Vec::new();
    let mut jobs = Vec::new();
    let out = replace_inline_blocks("$a$ then $ref:fig:nope$", "1", &refs, &mut used, &mut jobs);
    assert!(out.is_err());
    // The inline equation before the failing token was already recorded.
    assert_eq!(used.len(), 1);
    assert_eq!(jobs.len(), 1);
}
