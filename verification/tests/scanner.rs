use mdbook_scientific::fragments::{cache_stem, BlockKind};
use mdbook_scientific::preprocess::replace_blocks;
use mdbook_scientific::strmap::StrMap;

#[test]
fn plain_text_passes_through_unchanged() {
    let assets = StrMap::new();
    let mut used = Vec::new();
    let mut refs = StrMap::new();
    let mut jobs = Vec::new();
    let src = "# Title\n\nSome prose.\nMore prose.\n";
    let out = replace_blocks(src, "1", &assets, &mut used, &mut refs, &mut jobs);
    assert_eq!(out, src);
    assert!(used.is_empty());
    assert!(jobs.is_empty());
}

#[test]
fn labeled_equation_block_is_numbered_and_registered() {
    let assets = StrMap::new();
    let mut used = Vec::new();
    let mut refs = StrMap::new();
    let mut jobs = Vec::new();
    let src = "$$equation,eq1\nE=mc^2\n$$";
    let out = replace_blocks(src, "3", &assets, &mut used, &mut refs, &mut jobs);
    let stem = cache_stem(BlockKind::Equation, "E=mc^2\n");
    let file = format!("{}.svg", stem);
    let expected = format!(
        "<div id=\"eq1\" class=\"equation\"><div class=\"equation_inner\"><object data=\"assets/{}\" type=\"image/svg+xml\"></object></div><span>(31)</span></div>\n",
        file
    );
    assert_eq!(out, expected);
    assert_eq!(refs.get("eq1"), Some("31".to_string()));
    assert_eq!(used, vec![file]);
    assert_eq!(jobs.len(), 1);
    assert_eq!(jobs[0].0, "3");
    assert_eq!(jobs[0].1.zoom_tenths, 16);
}

#[test]
fn sequence_numbers_increase_and_are_chapter_scoped() {
    let assets = StrMap::new();
    let mut used = Vec::new();
    let mut refs = StrMap::new();
    let mut jobs = Vec::new();
    let src = "$$equation,first\na\n$$\ntext\n$$equ,second\nb\n$$";
    let _ = replace_blocks(src, "2", &assets, &mut used, &mut refs, &mut jobs);
    assert_eq!(refs.get("first"), Some("21".to_string()));
    assert_eq!(refs.get("second"), Some("22".to_string()));
    // A fresh chapter resets the counter to 1.
    let _ = replace_blocks("$$equation,third\nc\n$$", "5", &assets, &mut used, &mut refs, &mut jobs);
    assert_eq!(refs.get("third"), Some("51".to_string()));
}

#[test]
fn titled_latex_block_becomes_a_figure() {
    let assets = StrMap::new();
    let mut used = Vec::new();
    let mut refs = StrMap::new();
    let mut jobs = Vec::new();
    let src = "$$latex, fig1, My Picture\n\\draw;\n$$";
    let out = replace_blocks(src, "4", &assets, &mut used, &mut refs, &mut jobs);
    let file = format!("{}.svg", cache_stem(BlockKind::Latex, "\\draw;\n"));
    let expected = format!(
        "<figure id=\"fig1\" class=\"figure\"><object data=\"assets/{}\" type=\"image/svg+xml\"/></object><figcaption>Figure 41 My Picture</figcaption></figure>",
        file
    );
    assert_eq!(out, expected);
    assert_eq!(refs.get("fig1"), Some("Figure 41".to_string()));
}

#[test]
fn unlabeled_equation_is_unnumbered() {
    let assets = StrMap::new();
    let mut used = Vec::new();
    let mut refs = StrMap::new();
    let mut jobs = Vec::new();
    let src = "$$equation\nx\n$$";
    let out = replace_blocks(src, "1", &assets, &mut used, &mut refs, &mut jobs);
    let file = format!("{}.svg", cache_stem(BlockKind::Equation, "x\n"));
    let expected = format!(
        "<div class=\"equation\"><div class=\"equation_inner\"><object data=\"assets/{}\" type=\"image/svg+xml\"></object></div></div>\n",
        file
    );
    assert_eq!(out, expected);
}

#[test]
fn unrecognized_header_falls_back_to_unlabeled_equation() {
    let assets = StrMap::new();
    let mut used = Vec::new();
    let mut refs = StrMap::new();
    let mut jobs = Vec::new();
    let src = "$$mystery, a, b, c\ny\n$$";
    let out = replace_blocks(src, "1", &assets, &mut used, &mut refs, &mut jobs);
    let file = format!("{}.svg", cache_stem(BlockKind::Equation, "y\n"));
    assert!(out.contains(&file));
    assert!(out.starts_with("<div class=\"equation\">"));
    assert_eq!(refs.get("a"), None);
}

#[test]
fn empty_body_falls_back_to_external_asset() {
    let mut assets = StrMap::new();
    assets.insert("snippet".to_string(), "stored body".to_string());
    let mut used = Vec::new();
    let mut refs = StrMap::new();
    let mut jobs = Vec::new();
    let src = "$$equation,snippet$$";
    let out = replace_blocks(src, "7", &assets, &mut used, &mut refs, &mut jobs);
    let file = format!("{}.svg", cache_stem(BlockKind::Equation, "stored body"));
    assert!(out.contains(&file));
    assert_eq!(refs.get("snippet"), Some("71".to_string()));
    assert_eq!(jobs.len(), 1);
    assert!(jobs[0].1.payload.contains("stored body"));
}

#[test]
fn empty_body_without_asset_skips_the_block() {
    let assets = StrMap::new();
    let mut used = Vec::new();
    let mut refs = StrMap::new();
    let mut jobs = Vec::new();
    let src = "before\n$$equation,nosuch$$\nafter";
    let out = replace_blocks(src, "1", &assets, &mut used, &mut refs, &mut jobs);
    assert_eq!(out, "before\nafter");
    assert!(used.is_empty());
    assert!(jobs.is_empty());
    assert_eq!(refs.get("nosuch"), None);
}

#[test]
fn gnuplot_and_latex_blocks_with_same_body_use_different_artifacts() {
    let assets = StrMap::new();
    let mut used = Vec::new();
    let mut refs = StrMap::new();
    let mut jobs = Vec::new();
    let src = "$$gnuplot, g1, A plot\nbody text\n$$\n$$latex, l1, A picture\nbody text\n$$";
    let _ = replace_blocks(src, "1", &assets, &mut used, &mut refs, &mut jobs);
    assert_eq!(used.len(), 2);
    assert_ne!(used[0], used[1]);
}

#[test]
fn empty_source_yields_empty_output() {
    let assets = StrMap::new();
    let mut used = Vec::new();
    let mut refs = StrMap::new();
    let mut jobs = Vec::new();
    let out = replace_blocks("", "1", &assets, &mut used, &mut refs, &mut jobs);
    assert_eq!(out, "");
}

#[test]
fn duplicate_labels_keep_the_last_registration() {
    let assets = StrMap::new();
    let mut used = Vec::new();
    let mut refs = StrMap::new();
    let mut jobs = Vec::new();
    let src = "$$equation,dup\na\n$$\n$$equation,dup\nb\n$$";
    let _ = replace_blocks(src, "1", &assets, &mut used, &mut refs, &mut jobs);
    // Uniqueness is not enforced at insert time: the last write wins.
    assert_eq!(refs.get("dup"), Some("12".to_string()));
}

#[test]
fn a_delimiter_line_inside_a_block_closes_it() {
    let assets = StrMap::new();
    let mut used = Vec::new();
    let mut refs = StrMap::new();
    let mut jobs = Vec::new();
    // Inside an open block, any line beginning with the delimiter closes the
    // block -- even one that would be a one-line block outside.
    let src = "$$equation,a\nbody\n$$equation,b$$";
    let out = replace_blocks(src, "1", &assets, &mut used, &mut refs, &mut jobs);
    let file = format!("{}.svg", cache_stem(BlockKind::Equation, "body\n"));
    assert!(out.contains(&file));
    assert_eq!(refs.get("a"), Some("11".to_string()));
    assert_eq!(refs.get("b"), None);
    assert_eq!(jobs.len(), 1);
}

#[test]
fn body_lines_keep_their_indentation() {
    let assets = StrMap::new();
    let mut used = Vec::new();
    let mut refs = StrMap::new();
    let mut jobs = Vec::new();
    let src = "$$equation\n  indented\n$$";
    let _ = replace_blocks(src, "1", &assets, &mut used, &mut refs, &mut jobs);
    assert_eq!(jobs.len(), 1);
    assert!(jobs[0].1.payload.contains("  indented\n"));
}
