use mdbook_scientific::error::Error;
use mdbook_scientific::fragments::{
    bib_to_html, cache_stem, dvisvgm_outcome, invalid_math_from_log, latex_outcome, parse_equation,
    parse_gnuplot, parse_gnuplot_only, parse_latex, plan_render, Action, BlockKind,
};

#[test]
fn parse_equation_wraps_body_in_preamble() {
    let (name, job) = parse_equation("E=mc^2", 16);
    let stem = cache_stem(BlockKind::Equation, "E=mc^2");
    assert_eq!(name, format!("{}.svg", stem));
    assert_eq!(job.stem, stem);
    assert_eq!(job.zoom_tenths, 16);
    assert_eq!(
        job.payload,
        "\\documentclass[20pt, preview]{standalone}\n\\usepackage{amsmath}\\usepackage{amsfonts}\n\\begin{document}\n$$\nE=mc^2$$\n\\end{document}"
    );
}

#[test]
fn parse_latex_keeps_body_verbatim() {
    let (name, job) = parse_latex("\\begin{tikzpicture}\\end{tikzpicture}");
    let stem = cache_stem(BlockKind::Latex, "\\begin{tikzpicture}\\end{tikzpicture}");
    assert_eq!(name, format!("{}.svg", stem));
    assert_eq!(job.payload, "\\begin{tikzpicture}\\end{tikzpicture}");
    assert_eq!(job.zoom_tenths, 10);
}

#[test]
fn parse_gnuplot_builds_tex_script() {
    let (name, job) = parse_gnuplot("plot sin(x)");
    let stem = cache_stem(BlockKind::Gnuplot, "plot sin(x)");
    assert_eq!(name, format!("{}.svg", stem));
    assert_eq!(
        job.payload,
        format!(
            "set output '{}.tex'\nset terminal epslatex color standalone\nplot sin(x)",
            stem
        )
    );
}

#[test]
fn parse_gnuplot_only_builds_svg_script() {
    let (name, job) = parse_gnuplot_only("plot cos(x)");
    let stem = cache_stem(BlockKind::GnuplotOnly, "plot cos(x)");
    assert_eq!(name, format!("{}.svg", stem));
    assert_eq!(
        job.payload,
        format!(
            "set output '{}.svg'\nset terminal svg\nset encoding utf8\nplot cos(x)",
            stem
        )
    );
}

#[test]
fn plan_skips_everything_when_artifact_exists() {
    // An existing artifact means no renderer invocation at all.
    let (_, job) = parse_equation("a+b", 16);
    let plan = plan_render(&job, false, true);
    assert_eq!(plan.len(), 0);
    let plan = plan_render(&job, true, true);
    assert_eq!(plan.len(), 0);
    let (_, job) = parse_gnuplot_only("plot 1");
    assert_eq!(plan_render(&job, false, true).len(), 0);
}

#[test]
fn plan_writes_source_and_renders_when_nothing_exists() {
    let (_, job) = parse_equation("a+b", 16);
    let plan = plan_render(&job, false, false);
    assert_eq!(plan.len(), 2);
    match &plan[0] {
        Action::WriteSource { name, content } => {
            assert_eq!(*name, format!("{}.tex", job.stem));
            assert_eq!(*content, job.payload);
        }
        other => panic!("expected a source write, got {:?}", other),
    }
    match &plan[1] {
        Action::RenderLatexToSvg { stem, zoom_tenths } => {
            assert_eq!(*stem, job.stem);
            assert_eq!(*zoom_tenths, 16);
        }
        other => panic!("expected a render step, got {:?}", other),
    }
}

#[test]
fn plan_skips_source_write_when_source_exists() {
    let (_, job) = parse_latex("x");
    let plan = plan_render(&job, true, false);
    assert_eq!(plan.len(), 1);
    assert!(matches!(&plan[0], Action::RenderLatexToSvg { .. }));
}

#[test]
fn plan_for_gnuplot_pipes_script_then_renders() {
    let (_, job) = parse_gnuplot("plot sin(x)");
    let plan = plan_render(&job, false, false);
    assert_eq!(plan.len(), 2);
    match &plan[0] {
        Action::RunGnuplotToTex { script } => assert_eq!(*script, job.payload),
        other => panic!("expected a gnuplot step, got {:?}", other),
    }
    assert!(matches!(&plan[1], Action::RenderLatexToSvg { .. }));
}

#[test]
fn plan_for_gnuplot_only_is_one_step() {
    let (_, job) = parse_gnuplot_only("plot tan(x)");
    let plan = plan_render(&job, false, false);
    assert_eq!(plan.len(), 1);
    match &plan[0] {
        Action::RunGnuplotToSvg { script } => assert_eq!(*script, job.payload),
        other => panic!("expected a gnuplot step, got {:?}", other),
    }
}

#[test]
fn latex_log_distills_reason_element_and_line() {
    let log = "This is pdfTeX\n! Undefined control sequence.\nl.5 \\foo bar\nEmergency stop ! here\n";
    let e = invalid_math_from_log(log);
    assert_eq!(
        e,
        Error::InvalidMath(
            "! Undefined control sequence.".to_string(),
            "\\foo bar".to_string(),
            5
        )
    );
}

#[test]
fn latex_log_without_line_keeps_sentinel() {
    let e = invalid_math_from_log("! Missing $ inserted.\n");
    assert_eq!(
        e,
        Error::InvalidMath("! Missing $ inserted.".to_string(), String::new(), usize::MAX)
    );
}

#[test]
fn latex_outcome_maps_success_and_failure() {
    assert!(latex_outcome(true, "anything").is_ok());
    let r = latex_outcome(false, "! Bad.\nl.2 x y\n");
    assert_eq!(
        r,
        Err(Error::InvalidMath("! Bad.".to_string(), "x y".to_string(), 2))
    );
}

#[test]
fn dvisvgm_outcome_checks_status_and_diagnostics() {
    assert!(dvisvgm_outcome(true, "all fine").is_ok());
    assert_eq!(
        dvisvgm_outcome(true, "warning\nerror: bad dvi\n"),
        Err(Error::InvalidDvisvgm("warning\nerror: bad dvi\n".to_string()))
    );
    assert_eq!(
        dvisvgm_outcome(false, "crashed"),
        Err(Error::InvalidDvisvgm("crashed".to_string()))
    );
}

#[test]
fn bib_output_is_stripped_to_the_list() {
    let stdout = "header junk\n<dl class=\"bib2xhtml\">\n<dt><a name=\"k1\">[1]</a></dt>\n<dd>Entry</dd>\n</dl>\ntrailer\n";
    let r = bib_to_html(stdout, "no problems");
    assert_eq!(
        r,
        Ok("<dl class=\"bib2xhtml\"><dt><a id=\"k1\">[1]</a></dt><dd>Entry</dd>".to_string())
    );
}

#[test]
fn bib_errors_are_reported() {
    let r = bib_to_html("ignored", "2 error messages)");
    assert_eq!(
        r,
        Err(Error::InvalidBibliography("2 error messages)".to_string()))
    );
}
