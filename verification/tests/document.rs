use mdbook_scientific::document::{process_chapters, DocChapter};
use mdbook_scientific::error::Error;
use mdbook_scientific::fragments::{cache_stem, BlockKind};
use mdbook_scientific::strmap::StrMap;

fn chapter(head: &str, content: &str) -> DocChapter {
    DocChapter { head_num: head.to_string(), content: content.to_string() }
}

#[test]
fn end_to_end_equation_and_reference() {
    // One chapter, number 3: a labeled equation block and a later reference.
    let chapters = vec![chapter("3", "$$equation,eq1$\nE=mc^2\n$$\nsee $ref:equ:eq1$")];
    let assets = StrMap::new();
    let mut refs = StrMap::new();
    let mut used = Vec::new();
    let mut jobs = Vec::new();
    let out = process_chapters(&chapters, &assets, &mut refs, &mut used, &mut jobs)
        .expect("the run should succeed");
    assert_eq!(refs.get("eq1"), Some("31".to_string()));
    let stem = cache_stem(BlockKind::Equation, "E=mc^2\n");
    let file = format!("{}.svg", stem);
    assert_eq!(out.len(), 1);
    let expected = format!(
        "<div id=\"eq1\" class=\"equation\"><div class=\"equation_inner\"><object data=\"assets/{}\" type=\"image/svg+xml\"></object></div><span>(31)</span></div>\n\nsee <a class=\"equ_ref\" href='#eq1'>Eq. (31)</a>",
        file
    );
    assert_eq!(out[0], expected);
    // Exactly one artifact was produced and recorded.
    assert_eq!(used, vec![file]);
    assert_eq!(jobs.len(), 1);
}

#[test]
fn forward_references_across_chapters_resolve() {
    // Chapter 1 refers to a label that only chapter 2 defines: the second
    // pass sees every label collected in the first.
    let chapters = vec![
        chapter("1", "see $ref:equ:later$"),
        chapter("2", "$$equation,later\nx+y\n$$"),
    ];
    let assets = StrMap::new();
    let mut refs = StrMap::new();
    let mut used = Vec::new();
    let mut jobs = Vec::new();
    let out = process_chapters(&chapters, &assets, &mut refs, &mut used, &mut jobs)
        .expect("forward references should resolve");
    assert!(out[0].contains("Eq. (21)"));
}

#[test]
fn numbering_resets_per_chapter() {
    let chapters = vec![
        chapter("1", "$$equation,a\np\n$$\n$$equation,b\nq\n$$"),
        chapter("2", "$$equation,c\nr\n$$"),
    ];
    let assets = StrMap::new();
    let mut refs = StrMap::new();
    let mut used = Vec::new();
    let mut jobs = Vec::new();
    process_chapters(&chapters, &assets, &mut refs, &mut used, &mut jobs).unwrap();
    assert_eq!(refs.get("a"), Some("11".to_string()));
    assert_eq!(refs.get("b"), Some("12".to_string()));
    assert_eq!(refs.get("c"), Some("21".to_string()));
}

#[test]
fn a_failing_chapter_aborts_with_its_heading() {
    let chapters = vec![
        chapter("1", "all fine"),
        chapter("2.1", "bad $line"),
    ];
    let assets = StrMap::new();
    let mut refs = StrMap::new();
    let mut used = Vec::new();
    let mut jobs = Vec::new();
    let err = process_chapters(&chapters, &assets, &mut refs, &mut used, &mut jobs).unwrap_err();
    assert_eq!(err.0, "2.1");
    assert_eq!(err.1, Error::UnevenNumberDollar);
}

#[test]
fn chapters_without_notation_round_trip() {
    let chapters = vec![chapter("1", "# Plain\n\ntext only\n")];
    let assets = StrMap::new();
    let mut refs = StrMap::new();
    let mut used = Vec::new();
    let mut jobs = Vec::new();
    let out = process_chapters(&chapters, &assets, &mut refs, &mut used, &mut jobs).unwrap();
    assert_eq!(out[0], "# Plain\n\ntext only\n");
    assert!(used.is_empty());
    assert!(jobs.is_empty());
}
