//! The fragment cache: content-addressed keys for rendered artifacts, the
//! renderer source each block kind needs, and the work plan that realizes an
//! artifact on disk without redoing work that is already cached.

use crate::error::Error;
use crate::hashing::{fingerprint, hash};
use crate::text::{
    append_str, chars_contain_str, chars_eq_str, chars_have_prefix, chars_of, contains_sub,
    dec_val, has_prefix, parse_usize, parses_as_usize, replace_chars, replace_sub, split_chars,
    split_on, splitn2, splitn2_chars, string_from_chars, subvec, trim_chars, trim_ws, views,
};
use vstd::prelude::*;

verus! {

/// The kind of a scanned block, deciding which backend renders it.
#[derive(Debug, Clone, Copy, PartialEq, Eq, Structural)]
pub enum BlockKind {
    /// A bare formula, wrapped in a minimal document preamble.
    Equation,
    /// A complete LaTeX source, written verbatim.
    Latex,
    /// A gnuplot script rendered through the LaTeX backend.
    Gnuplot,
    /// A gnuplot script rendered directly to the artifact.
    GnuplotOnly,
}

/// The tag mixed into the cache key so that distinct kinds never share a key.
pub open spec fn kind_tag(kind: BlockKind) -> Seq<char> {
    match kind {
        BlockKind::Equation => "equation"@,
        BlockKind::Latex => "latex"@,
        BlockKind::Gnuplot => "gnuplot"@,
        BlockKind::GnuplotOnly => "gnuplotonly"@,
    }
}

/// The text whose fingerprint keys the cache: the kind tag, a separator, and
/// the block body.
pub open spec fn key_material(kind: BlockKind, body: Seq<char>) -> Seq<char> {
    kind_tag(kind) + seq!['\n'] + body
}

/// The cache key (and filename stem) of a block: 24 hex characters.
pub open spec fn cache_stem_of(kind: BlockKind, body: Seq<char>) -> Seq<char> {
    fingerprint(key_material(kind, body))
}

/// The artifact filename of a block.
pub open spec fn artifact_name_of(kind: BlockKind, body: Seq<char>) -> Seq<char> {
    cache_stem_of(kind, body) + ".svg"@
}

/// Distinct kinds never collide on cache-key material, byte-identical bodies
/// included: the keyed texts differ already in length, because no two kind
/// tags have the same length.
pub proof fn lemma_cache_key_kind_separated(k1: BlockKind, k2: BlockKind, body: Seq<char>)
    requires
        k1 != k2,
    ensures
        key_material(k1, body) != key_material(k2, body),
{
    reveal_strlit("equation");
    reveal_strlit("latex");
    reveal_strlit("gnuplot");
    reveal_strlit("gnuplotonly");
    assert(kind_tag(k1).len() != kind_tag(k2).len());
    assert(key_material(k1, body).len() != key_material(k2, body).len());
}

/// The cache key of a block, computed from its kind and body.
pub fn cache_stem(kind: BlockKind, content: &str) -> (r: String)
    ensures
        r@ == cache_stem_of(kind, content@),
        r@.len() == 24,
{
    let mut m: Vec<char> = Vec::new();
    match kind {
        BlockKind::Equation => append_str(&mut m, "equation"),
        BlockKind::Latex => append_str(&mut m, "latex"),
        BlockKind::Gnuplot => append_str(&mut m, "gnuplot"),
        BlockKind::GnuplotOnly => append_str(&mut m, "gnuplotonly"),
    }
    m.push('\n');
    append_str(&mut m, content);
    proof {
        assert(m@ =~= key_material(kind, content@));
    }
    let ms = string_from_chars(&m);
    hash(ms.as_str())
}

/// The renderer source text for an equation block: the body wrapped in a
/// minimal standalone document.
pub open spec fn equation_source(body: Seq<char>) -> Seq<char> {
    "\\documentclass[20pt, preview]{standalone}\n\\usepackage{amsmath}\\usepackage{amsfonts}\n\\begin{document}\n$$\n"@
        + body + "$$\n\\end{document}"@
}

/// The script piped to gnuplot when its output feeds the LaTeX backend.
pub open spec fn gnuplot_tex_script(stem: Seq<char>, body: Seq<char>) -> Seq<char> {
    "set output '"@ + stem + ".tex'\nset terminal epslatex color standalone\n"@ + body
}

/// The script piped to gnuplot when it renders the artifact directly.
pub open spec fn gnuplot_svg_script(stem: Seq<char>, body: Seq<char>) -> Seq<char> {
    "set output '"@ + stem + ".svg'\nset terminal svg\nset encoding utf8\n"@ + body
}

/// The renderer source a block of the given kind and body needs.
pub open spec fn source_payload(kind: BlockKind, body: Seq<char>) -> Seq<char> {
    match kind {
        BlockKind::Equation => equation_source(body),
        BlockKind::Latex => body,
        BlockKind::Gnuplot => gnuplot_tex_script(cache_stem_of(kind, body), body),
        BlockKind::GnuplotOnly => gnuplot_svg_script(cache_stem_of(kind, body), body),
    }
}

/// One block's pending rendering work: everything an executor needs to
/// materialize the artifact, fully determined by kind and body.
#[derive(Debug)]
pub struct RenderJob {
    /// Which backend chain renders this block.
    pub kind: BlockKind,
    /// The cache key: filename stem of the source and artifact files.
    pub stem: String,
    /// The renderer source text (written to disk or piped, by kind).
    pub payload: String,
    /// Rendering zoom, in tenths, applied by the DVI-to-SVG step.
    pub zoom_tenths: usize,
}

/// Whether `job` is exactly the rendering work for a block of the given
/// kind, body, and zoom.
pub open spec fn job_is_for(job: RenderJob, kind: BlockKind, body: Seq<char>, zoom: usize) -> bool {
    &&& job.kind == kind
    &&& job.stem@ == cache_stem_of(kind, body)
    &&& job.payload@ == source_payload(kind, body)
    &&& job.zoom_tenths == zoom
}

/// Build the render job for one block.
fn make_job(kind: BlockKind, content: &str, zoom_tenths: usize) -> (r: RenderJob)
    ensures
        job_is_for(r, kind, content@, zoom_tenths),
{
    let stem = cache_stem(kind, content);
    let mut p: Vec<char> = Vec::new();
    match kind {
        BlockKind::Equation => {
            append_str(
                &mut p,
                "\\documentclass[20pt, preview]{standalone}\n\\usepackage{amsmath}\\usepackage{amsfonts}\n\\begin{document}\n$$\n",
            );
            append_str(&mut p, content);
            append_str(&mut p, "$$\n\\end{document}");
        },
        BlockKind::Latex => {
            append_str(&mut p, content);
        },
        BlockKind::Gnuplot => {
            append_str(&mut p, "set output '");
            append_str(&mut p, stem.as_str());
            append_str(&mut p, ".tex'\nset terminal epslatex color standalone\n");
            append_str(&mut p, content);
        },
        BlockKind::GnuplotOnly => {
            append_str(&mut p, "set output '");
            append_str(&mut p, stem.as_str());
            append_str(&mut p, ".svg'\nset terminal svg\nset encoding utf8\n");
            append_str(&mut p, content);
        },
    }
    proof {
        assert(p@ =~= source_payload(kind, content@));
    }
    let payload = string_from_chars(&p);
    RenderJob { kind, stem, payload, zoom_tenths }
}

/// The artifact filename for a stem.
fn artifact_file(stem: &String) -> (r: String)
    ensures
        r@ == stem@ + ".svg"@,
{
    let mut v: Vec<char> = Vec::new();
    append_str(&mut v, stem.as_str());
    append_str(&mut v, ".svg");
    string_from_chars(&v)
}

/// Cache lookup for an equation body at the given zoom: the artifact
/// filename it maps to, and the rendering work that realizes it.
pub fn parse_equation(content: &str, zoom_tenths: usize) -> (r: (String, RenderJob))
    ensures
        r.0@ == artifact_name_of(BlockKind::Equation, content@),
        job_is_for(r.1, BlockKind::Equation, content@, zoom_tenths),
{
    let job = make_job(BlockKind::Equation, content, zoom_tenths);
    let name = artifact_file(&job.stem);
    (name, job)
}

/// Cache lookup for a verbatim LaTeX body.
pub fn parse_latex(content: &str) -> (r: (String, RenderJob))
    ensures
        r.0@ == artifact_name_of(BlockKind::Latex, content@),
        job_is_for(r.1, BlockKind::Latex, content@, 10),
{
    let job = make_job(BlockKind::Latex, content, 10);
    let name = artifact_file(&job.stem);
    (name, job)
}

/// Cache lookup for a gnuplot body rendered through the LaTeX backend.
pub fn parse_gnuplot(content: &str) -> (r: (String, RenderJob))
    ensures
        r.0@ == artifact_name_of(BlockKind::Gnuplot, content@),
        job_is_for(r.1, BlockKind::Gnuplot, content@, 10),
{
    let job = make_job(BlockKind::Gnuplot, content, 10);
    let name = artifact_file(&job.stem);
    (name, job)
}

/// Cache lookup for a gnuplot body rendered directly to the artifact.
pub fn parse_gnuplot_only(content: &str) -> (r: (String, RenderJob))
    ensures
        r.0@ == artifact_name_of(BlockKind::GnuplotOnly, content@),
        job_is_for(r.1, BlockKind::GnuplotOnly, content@, 10),
{
    let job = make_job(BlockKind::GnuplotOnly, content, 10);
    let name = artifact_file(&job.stem);
    (name, job)
}

/// One step an executor performs to realize an artifact.
#[derive(Debug)]
pub enum Action {
    /// Write the renderer source file `name` with the given content.
    WriteSource { name: String, content: String },
    /// Run the LaTeX chain on `{stem}.tex`, producing `{stem}.svg` at the
    /// given zoom.
    RenderLatexToSvg { stem: String, zoom_tenths: usize },
    /// Pipe the script to gnuplot, producing `{stem}.tex`.
    RunGnuplotToTex { script: String },
    /// Pipe the script to gnuplot, producing `{stem}.svg` directly.
    RunGnuplotToSvg { script: String },
}

/// The work plan for a job, given what already exists in the cache: the
/// source step is skipped when the source file exists, and every renderer
/// step is skipped when the artifact itself exists. An existing artifact is
/// never regenerated; removing files is the only invalidation mechanism.
pub fn plan_render(job: &RenderJob, source_exists: bool, artifact_exists: bool) -> (r: Vec<Action>)
    ensures
        artifact_exists ==> r@.len() == 0,
        !artifact_exists ==> match job.kind {
            BlockKind::Equation | BlockKind::Latex => {
                if source_exists {
                    r@.len() == 1 && (r@[0] matches Action::RenderLatexToSvg { stem, zoom_tenths }
                        && stem@ == job.stem@ && zoom_tenths == job.zoom_tenths)
                } else {
                    r@.len() == 2 && (r@[0] matches Action::WriteSource { name, content }
                        && name@ == job.stem@ + ".tex"@ && content@ == job.payload@) && (r@[1]
                        matches Action::RenderLatexToSvg { stem, zoom_tenths } && stem@ == job.stem@
                        && zoom_tenths == job.zoom_tenths)
                }
            },
            BlockKind::Gnuplot => {
                if source_exists {
                    r@.len() == 1 && (r@[0] matches Action::RenderLatexToSvg { stem, zoom_tenths }
                        && stem@ == job.stem@ && zoom_tenths == job.zoom_tenths)
                } else {
                    r@.len() == 2 && (r@[0] matches Action::RunGnuplotToTex { script } && script@
                        == job.payload@) && (r@[1] matches Action::RenderLatexToSvg {
                        stem,
                        zoom_tenths,
                    } && stem@ == job.stem@ && zoom_tenths == job.zoom_tenths)
                }
            },
            BlockKind::GnuplotOnly => {
                r@.len() == 1 && (r@[0] matches Action::RunGnuplotToSvg { script } && script@
                    == job.payload@)
            },
        },
{
    let mut r: Vec<Action> = Vec::new();
    if artifact_exists {
        return r;
    }
    match job.kind {
        BlockKind::Equation | BlockKind::Latex => {
            if !source_exists {
                let mut name_chars: Vec<char> = Vec::new();
                append_str(&mut name_chars, job.stem.as_str());
                append_str(&mut name_chars, ".tex");
                let name = string_from_chars(&name_chars);
                r.push(Action::WriteSource { name, content: job.payload.clone() });
            }
            r.push(
                Action::RenderLatexToSvg { stem: job.stem.clone(), zoom_tenths: job.zoom_tenths },
            );
        },
        BlockKind::Gnuplot => {
            if !source_exists {
                r.push(Action::RunGnuplotToTex { script: job.payload.clone() });
            }
            r.push(
                Action::RenderLatexToSvg { stem: job.stem.clone(), zoom_tenths: job.zoom_tenths },
            );
        },
        BlockKind::GnuplotOnly => {
            r.push(Action::RunGnuplotToSvg { script: job.payload.clone() });
        },
    }
    r
}

/// What a failed LaTeX run reports: the error line, the offending element,
/// and the source line number (`usize::MAX` when none was found).
pub struct MathErrorInfo {
    /// The log line naming the failure.
    pub reason: Seq<char>,
    /// The offending source snippet, when the log gives one.
    pub element: Seq<char>,
    /// The source line number, when the log gives one.
    pub line: usize,
}

/// The report before any log line has been read.
pub open spec fn initial_math_info() -> MathErrorInfo {
    MathErrorInfo { reason: Seq::<char>::empty(), element: Seq::<char>::empty(), line: usize::MAX }
}

/// How one log line updates the report: `! ` lines name the failure, `l.`
/// lines carry the source line number and the offending snippet; lines
/// mentioning the emergency stop are noise.
pub open spec fn log_line_step(acc: MathErrorInfo, l: Seq<char>) -> MathErrorInfo {
    if contains_sub(l, "Emergency stop"@) {
        acc
    } else if has_prefix(l, "! "@) {
        MathErrorInfo { reason: l, ..acc }
    } else if has_prefix(l, "l."@) {
        let ps = splitn2(l.skip(2), ' ');
        let first = trim_ws(ps[0]);
        let acc1 = if parses_as_usize(first) {
            MathErrorInfo { line: dec_val(first) as usize, ..acc }
        } else {
            acc
        };
        if ps.len() == 2 {
            MathErrorInfo { element: trim_ws(ps[1]), ..acc1 }
        } else {
            acc1
        }
    } else {
        acc
    }
}

/// The report after reading all lines, in order.
pub open spec fn log_fold(acc: MathErrorInfo, lines: Seq<Seq<char>>) -> MathErrorInfo
    decreases lines.len(),
{
    if lines.len() == 0 {
        acc
    } else {
        log_fold(log_line_step(acc, lines[0]), lines.drop_first())
    }
}

/// The failure report a LaTeX log denotes.
pub open spec fn math_error_of_log(log: Seq<char>) -> MathErrorInfo {
    log_fold(initial_math_info(), split_on(log, '\n'))
}

/// Distill a failed LaTeX run's log into the error for its block: the last
/// `! ` line as the reason, and the line number and snippet of the last
/// `l.<num> <snippet>` line.
pub fn invalid_math_from_log(log: &str) -> (e: Error)
    ensures
        ({
            let info = math_error_of_log(log@);
            e matches Error::InvalidMath(r, el, ln) && r@ == info.reason && el@ == info.element
                && ln == info.line
        }),
{
    let lv = chars_of(log);
    let lines = split_chars(&lv, '\n');
    let mut reason: Vec<char> = Vec::new();
    let mut element: Vec<char> = Vec::new();
    let mut line: usize = usize::MAX;
    let mut i: usize = 0;
    proof {
        assert(views(lines@).skip(0) =~= views(lines@));
        assert(MathErrorInfo { reason: reason@, element: element@, line }
            == initial_math_info());
    }
    while i < lines.len()
        invariant
            0 <= i <= lines@.len(),
            lines.len() == lines@.len(),
            log_fold(
                MathErrorInfo { reason: reason@, element: element@, line },
                views(lines@).skip(i as int),
            ) == math_error_of_log(log@),
        decreases lines@.len() - i,
    {
        let ghost acc0 = MathErrorInfo { reason: reason@, element: element@, line };
        let ghost rest = views(lines@).skip(i as int);
        proof {
            assert(rest[0] == lines@[i as int]@);
            assert(rest.drop_first() =~= views(lines@).skip(i + 1));
            reveal_strlit("Emergency stop");
        }
        let l = &lines[i];
        if chars_contain_str(l, "Emergency stop") {
        } else if chars_have_prefix(l, "! ") {
            reason = subvec(l, 0, l.len());
            proof {
                assert(reason@ =~= l@);
            }
        } else if chars_have_prefix(l, "l.") {
            proof {
                reveal_strlit("l.");
            }
            let restv = subvec(l, 2, l.len());
            proof {
                assert(restv@ =~= l@.skip(2));
            }
            let ps = splitn2_chars(&restv, ' ');
            let first = trim_chars(&ps[0]);
            proof {
                assert(ps@[0]@ == splitn2(l@.skip(2), ' ')[0]);
            }
            match parse_usize(&first) {
                Some(x) => {
                    line = x;
                },
                None => {},
            }
            if ps.len() == 2 {
                element = trim_chars(&ps[1]);
                proof {
                    assert(ps@[1]@ == splitn2(l@.skip(2), ' ')[1]);
                }
            }
        }
        proof {
            let acc1 = MathErrorInfo { reason: reason@, element: element@, line };
            assert(acc1 == log_line_step(acc0, lines@[i as int]@));
        }
        i = i + 1;
    }
    proof {
        assert(views(lines@).skip(lines@.len() as int) =~= Seq::<Seq<char>>::empty());
    }
    Error::InvalidMath(string_from_chars(&reason), string_from_chars(&element), line)
}

/// The outcome of a LaTeX run: success, or the failure its log reports. A
/// failed run with an empty log means the tool itself is broken; callers
/// treat that as fatal rather than as a block error, so it is excluded here.
pub fn latex_outcome(success: bool, stdout: &str) -> (r: Result<(), Error>)
    requires
        !success ==> stdout@.len() > 0,
    ensures
        r is Ok <==> success,
        !success ==> ({
            let info = math_error_of_log(stdout@);
            r matches Err(e) && (e matches Error::InvalidMath(rr, el, ln) && rr@ == info.reason
                && el@ == info.element && ln == info.line)
        }),
{
    if success {
        Ok(())
    } else {
        Err(invalid_math_from_log(stdout))
    }
}

/// The outcome of a DVI-to-SVG run: it failed exactly when the process
/// failed or its diagnostics mention an error.
pub fn dvisvgm_outcome(success: bool, stderr: &str) -> (r: Result<(), Error>)
    ensures
        r is Ok <==> (success && !contains_sub(stderr@, "error:"@)),
        r matches Err(e) ==> (e matches Error::InvalidDvisvgm(m) && m@ == stderr@),
{
    let sv = chars_of(stderr);
    proof {
        reveal_strlit("error:");
    }
    if !success || chars_contain_str(&sv, "error:") {
        Err(Error::InvalidDvisvgm(string_from_chars(&sv)))
    } else {
        Ok(())
    }
}

/// Index of the first line equal to `target`, or `lines.len()`.
pub open spec fn find_line(lines: Seq<Seq<char>>, target: Seq<char>) -> int
    decreases lines.len(),
{
    if lines.len() == 0 {
        0
    } else if lines[0] == target {
        0
    } else {
        1 + find_line(lines.drop_first(), target)
    }
}

proof fn lemma_find_line_is(lines: Seq<Seq<char>>, target: Seq<char>, j: int)
    requires
        0 <= j <= lines.len(),
        forall|k: int| 0 <= k < j ==> lines[k] != target,
        j < lines.len() ==> lines[j] == target,
    ensures
        find_line(lines, target) == j,
    decreases lines.len(),
{
    if lines.len() == 0 {
    } else if j == 0 {
    } else {
        assert(lines[0] != target);
        assert forall|k: int| 0 <= k < j - 1 implies lines.drop_first()[k] != target by {
            assert(lines[k + 1] != target);
        }
        lemma_find_line_is(lines.drop_first(), target, j - 1);
    }
}

/// The bibliography list: every line from the opening `<dl>` marker up to
/// (not including) the closing `</dl>`, each with its anchors rewritten from
/// `name` to `id` attributes, concatenated.
pub open spec fn bib_collect(lines: Seq<Seq<char>>, j: int) -> Seq<char>
    decreases lines.len() - j,
{
    if j < 0 || j >= lines.len() || lines[j] == "</dl>"@ {
        Seq::<char>::empty()
    } else {
        replace_sub(lines[j], "<a name=\""@, "<a id=\""@) + bib_collect(lines, j + 1)
    }
}

/// The HTML fragment distilled from the converter's standard output.
pub open spec fn bib_html_of(stdout: Seq<char>) -> Seq<char> {
    let lines = split_on(stdout, '\n');
    bib_collect(lines, find_line(lines, "<dl class=\"bib2xhtml\">"@))
}

/// The outcome of the bibliography converter: its diagnostics mentioning
/// error messages fail the run; otherwise the emitted list is distilled
/// from its standard output.
pub fn bib_to_html(stdout: &str, stderr: &str) -> (r: Result<String, Error>)
    ensures
        r is Err <==> contains_sub(stderr@, "error messages)"@),
        r matches Err(e) ==> (e matches Error::InvalidBibliography(m) && m@ == stderr@),
        r matches Ok(h) ==> h@ == bib_html_of(stdout@),
{
    let ev = chars_of(stderr);
    proof {
        reveal_strlit("error messages)");
    }
    if chars_contain_str(&ev, "error messages)") {
        return Err(Error::InvalidBibliography(string_from_chars(&ev)));
    }
    let ov = chars_of(stdout);
    let lines = split_chars(&ov, '\n');
    let mut start: usize = 0;
    while start < lines.len() && !chars_eq_str(&lines[start], "<dl class=\"bib2xhtml\">")
        invariant
            0 <= start <= lines@.len(),
            lines.len() == lines@.len(),
            forall|k: int| 0 <= k < start ==> views(lines@)[k] != "<dl class=\"bib2xhtml\">"@,
        decreases lines@.len() - start,
    {
        start = start + 1;
    }
    proof {
        lemma_find_line_is(views(lines@), "<dl class=\"bib2xhtml\">"@, start as int);
    }
    let mut out: Vec<char> = Vec::new();
    let mut j: usize = start;
    proof {
        assert(out@ + bib_collect(views(lines@), j as int) =~= bib_collect(
            views(lines@),
            start as int,
        ));
    }
    while j < lines.len() && !chars_eq_str(&lines[j], "</dl>")
        invariant
            start <= j <= lines@.len(),
            lines.len() == lines@.len(),
            out@ + bib_collect(views(lines@), j as int) == bib_collect(views(lines@), start as int),
        decreases lines@.len() - j,
    {
        proof {
            reveal_strlit("<a name=\"");
        }
        let rewritten = replace_chars(&lines[j], "<a name=\"", "<a id=\"");
        let ghost pre = out@;
        crate::text::append_vec(&mut out, &rewritten);
        proof {
            assert(views(lines@)[j as int] != "</dl>"@);
            assert(bib_collect(views(lines@), j as int) == replace_sub(
                views(lines@)[j as int],
                "<a name=\""@,
                "<a id=\""@,
            ) + bib_collect(views(lines@), j + 1));
            assert(out@ + bib_collect(views(lines@), j + 1) =~= pre + bib_collect(
                views(lines@),
                j as int,
            ));
        }
        j = j + 1;
    }
    proof {
        assert(bib_collect(views(lines@), j as int) == Seq::<char>::empty());
        assert(out@ + Seq::<char>::empty() =~= out@);
    }
    Ok(string_from_chars(&out))
}

} // verus!
