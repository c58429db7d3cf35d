//! The block scanner and the inline scanner: a line-oriented state machine
//! that extracts delimited blocks and rewrites each into markup referencing
//! its cached artifact, and a per-line tokenizer for inline math and
//! reference tokens.

use crate::error::Error;
use crate::fragments::{
    artifact_name_of, job_is_for, parse_equation, parse_gnuplot, parse_gnuplot_only, parse_latex,
    BlockKind, RenderJob,
};
use crate::strmap::StrMap;
use crate::text::{
    append_str, append_vec, chars_eq_str, chars_have_prefix, chars_of, dec_digits, has_prefix,
    join_chars, push_dec, split_chars, split_on, splitn3, splitn3_chars, str_views,
    string_from_chars, strip_dollars, strip_dollars_chars, subvec, trim_chars, trim_ws, views,
};
use vstd::prelude::*;

verus! {

/// The cleaned header fields: at most three comma-separated parts, each
/// trimmed and stripped of delimiter characters.
pub open spec fn header_fields(header: Seq<char>) -> Seq<Seq<char>> {
    splitn3(header, ',').map_values(|f: Seq<char>| strip_dollars(trim_ws(f)))
}

/// Clean the fields of a header line.
fn header_fields_exec(header: &Vec<char>) -> (r: Vec<Vec<char>>)
    ensures
        views(r@) == header_fields(header@),
        1 <= r@.len() <= 3,
{
    let parts = splitn3_chars(header, ',');
    let mut r: Vec<Vec<char>> = Vec::new();
    let mut i: usize = 0;
    while i < parts.len()
        invariant
            0 <= i <= parts@.len(),
            parts.len() == parts@.len(),
            r@.len() == i,
            forall|k: int|
                0 <= k < i ==> #[trigger] r@[k]@ == strip_dollars(trim_ws(views(parts@)[k])),
        decreases parts@.len() - i,
    {
        let t = trim_chars(&parts[i]);
        let s = strip_dollars_chars(&t);
        r.push(s);
        i = i + 1;
    }
    proof {
        assert(views(r@) =~= header_fields(header@));
    }
    r
}

/// What a header line announces: the block kind, its label (empty when
/// absent), and its title when the kind carries one.
pub struct HeaderInfo {
    /// The backend kind the block is dispatched to.
    pub kind: BlockKind,
    /// The reference label; empty means unlabeled.
    pub label: Seq<char>,
    /// The figure title, for the figure-like kinds.
    pub title: Option<Seq<char>>,
}

/// The fallback for unrecognized headers: an unlabeled equation. This is a
/// deliberate, permissive policy, not an error.
pub open spec fn fallback_header() -> HeaderInfo {
    HeaderInfo { kind: BlockKind::Equation, label: Seq::<char>::empty(), title: None }
}

/// Classify cleaned header fields into kind, label, and title.
pub open spec fn classify_header(fields: Seq<Seq<char>>) -> HeaderInfo {
    if fields.len() == 3 && fields[0] == "latex"@ {
        HeaderInfo { kind: BlockKind::Latex, label: fields[1], title: Some(fields[2]) }
    } else if fields.len() == 3 && fields[0] == "gnuplot"@ {
        HeaderInfo { kind: BlockKind::Gnuplot, label: fields[1], title: Some(fields[2]) }
    } else if fields.len() == 3 && fields[0] == "gnuplotonly"@ {
        HeaderInfo { kind: BlockKind::GnuplotOnly, label: fields[1], title: Some(fields[2]) }
    } else if fields.len() == 2 && (fields[0] == "equation"@ || fields[0] == "equ"@) {
        HeaderInfo { kind: BlockKind::Equation, label: fields[1], title: None }
    } else {
        fallback_header()
    }
}

/// Classify cleaned header fields.
fn classify_header_exec(fields: &Vec<Vec<char>>) -> (r: (BlockKind, Vec<char>, Option<Vec<char>>))
    ensures
        ({
            let h = classify_header(views(fields@));
            r.0 == h.kind && r.1@ == h.label && (r.2 is Some <==> h.title is Some) && (
            r.2 matches Some(t) ==> h.title == Some(t@))
        }),
{
    if fields.len() == 3 {
        let label = subvec(&fields[1], 0, fields[1].len());
        let title = subvec(&fields[2], 0, fields[2].len());
        proof {
            assert(label@ =~= views(fields@)[1]);
            assert(title@ =~= views(fields@)[2]);
        }
        if chars_eq_str(&fields[0], "latex") {
            return (BlockKind::Latex, label, Some(title));
        }
        if chars_eq_str(&fields[0], "gnuplot") {
            return (BlockKind::Gnuplot, label, Some(title));
        }
        if chars_eq_str(&fields[0], "gnuplotonly") {
            return (BlockKind::GnuplotOnly, label, Some(title));
        }
        return (BlockKind::Equation, Vec::new(), None);
    }
    if fields.len() == 2 && (chars_eq_str(&fields[0], "equation") || chars_eq_str(
        &fields[0],
        "equ",
    )) {
        let label = subvec(&fields[1], 0, fields[1].len());
        proof {
            assert(label@ =~= views(fields@)[1]);
        }
        return (BlockKind::Equation, label, None);
    }
    (BlockKind::Equation, Vec::new(), None)
}

/// The figure element emitted for a titled block.
pub open spec fn figure_markup(
    label: Seq<char>,
    file: Seq<char>,
    head: Seq<char>,
    n: nat,
    title: Seq<char>,
) -> Seq<char> {
    "<figure id=\""@ + label + "\" class=\"figure\"><object data=\"assets/"@ + file
        + "\" type=\"image/svg+xml\"/></object><figcaption>Figure "@ + head + dec_digits(n) + " "@
        + title + "</figcaption></figure>"@
}

/// The numbered equation element emitted for a labeled block.
pub open spec fn equation_markup(
    label: Seq<char>,
    file: Seq<char>,
    head: Seq<char>,
    n: nat,
) -> Seq<char> {
    "<div id=\""@ + label + "\" class=\"equation\"><div class=\"equation_inner\"><object data=\"assets/"@
        + file + "\" type=\"image/svg+xml\"></object></div><span>("@ + head + dec_digits(n)
        + ")</span></div>\n"@
}

/// The unnumbered equation element emitted for an unlabeled block.
pub open spec fn plain_equation_markup(file: Seq<char>) -> Seq<char> {
    "<div class=\"equation\"><div class=\"equation_inner\"><object data=\"assets/"@ + file
        + "\" type=\"image/svg+xml\"></object></div></div>\n"@
}

/// The display text registered for the `n`-th figure of a chapter.
pub open spec fn figure_display(head: Seq<char>, n: nat) -> Seq<char> {
    "Figure "@ + head + dec_digits(n)
}

/// The display text registered for the `n`-th numbered equation.
pub open spec fn equation_display(head: Seq<char>, n: nat) -> Seq<char> {
    head + dec_digits(n)
}

/// The zoom, in tenths, each block kind is rendered at.
pub open spec fn block_zoom(kind: BlockKind) -> usize {
    if kind == BlockKind::Equation {
        16
    } else {
        10
    }
}

/// One rendering obligation, at the level of the scanner's model: a kind, a
/// body, and a zoom determine the job completely.
pub struct JobSpec {
    /// The backend kind.
    pub kind: BlockKind,
    /// The block body handed to the backend.
    pub body: Seq<char>,
    /// The rendering zoom, in tenths.
    pub zoom: usize,
    /// The heading number of the chapter the job came from, so a rendering
    /// failure can be reported with its chapter.
    pub head: Seq<char>,
}

/// One label registration, in scan order.
pub struct RegSpec {
    /// The registered label.
    pub label: Seq<char>,
    /// The display text it resolves to.
    pub display: Seq<char>,
    /// Whether the registration came from a titled (figure-like) block.
    pub figure: bool,
}

/// Everything emitting one block produces.
pub struct EmitSpec {
    /// The markup item that replaces the block.
    pub item: Seq<char>,
    /// The resolved body (inline, or loaded from an external asset).
    pub body: Seq<char>,
    /// The backend kind.
    pub kind: BlockKind,
    /// The rendering zoom, in tenths.
    pub zoom: usize,
    /// The figure counter after this block.
    pub figs: nat,
    /// The equation counter after this block.
    pub equs: nat,
    /// The label registration, when the block is labeled or titled.
    pub reg: Option<RegSpec>,
}

/// The body a block renders: its inline body, or, when that is empty, the
/// external asset named by its second header field. `None` means the block
/// is skipped: an empty body with no matching asset is fatal for the block
/// alone, never for the chapter.
pub open spec fn resolved_body(
    body: Seq<char>,
    fields: Seq<Seq<char>>,
    assets: Map<Seq<char>, Seq<char>>,
) -> Option<Seq<char>> {
    if body.len() > 0 {
        Some(body)
    } else if fields.len() >= 2 && assets.contains_key(fields[1]) {
        Some(assets[fields[1]])
    } else {
        None
    }
}

/// What closing a block with the given header and body emits: the markup
/// replacing it, the rendering obligation, the advanced counters, and the
/// label registration, when any.
pub open spec fn block_emit(
    header: Seq<char>,
    body: Seq<char>,
    assets: Map<Seq<char>, Seq<char>>,
    head: Seq<char>,
    figs: nat,
    equs: nat,
) -> Option<EmitSpec> {
    let fields = header_fields(header);
    let h = classify_header(fields);
    match resolved_body(body, fields, assets) {
        None => None,
        Some(b) => {
            let file = artifact_name_of(h.kind, b);
            let zoom = block_zoom(h.kind);
            match h.title {
                Some(ttl) => Some(
                    EmitSpec {
                        item: figure_markup(h.label, file, head, figs + 1, ttl),
                        body: b,
                        kind: h.kind,
                        zoom,
                        figs: figs + 1,
                        equs,
                        reg: Some(
                            RegSpec {
                                label: h.label,
                                display: figure_display(head, figs + 1),
                                figure: true,
                            },
                        ),
                    },
                ),
                None => if h.label.len() > 0 {
                    Some(
                        EmitSpec {
                            item: equation_markup(h.label, file, head, equs + 1),
                            body: b,
                            kind: h.kind,
                            zoom,
                            figs,
                            equs: equs + 1,
                            reg: Some(
                                RegSpec {
                                    label: h.label,
                                    display: equation_display(head, equs + 1),
                                    figure: false,
                                },
                            ),
                        },
                    )
                } else {
                    Some(
                        EmitSpec {
                            item: plain_equation_markup(file),
                            body: b,
                            kind: h.kind,
                            zoom,
                            figs,
                            equs,
                            reg: None,
                        },
                    )
                },
            }
        },
    }
}

/// What the executable emitter hands back for one block.
struct BlockEmit {
    /// The markup item replacing the block.
    item: Vec<char>,
    /// The artifact filename the item references.
    file: String,
    /// The rendering obligation.
    job: RenderJob,
    /// The figure counter after this block.
    figs: usize,
    /// The equation counter after this block.
    equs: usize,
    /// Label and display text to register, when the block is labeled.
    reg: Option<(String, String)>,
}

/// Emit one block: resolve its body, pick its backend, and build the markup
/// that replaces it.
fn emit_block(
    header: &Vec<char>,
    body: &Vec<char>,
    head_num: &str,
    assets: &StrMap,
    figs: usize,
    equs: usize,
) -> (r: Option<BlockEmit>)
    requires
        figs < usize::MAX,
        equs < usize::MAX,
    ensures
        ({
            let es = block_emit(header@, body@, assets@, head_num@, figs as nat, equs as nat);
            match r {
                None => es is None,
                Some(b) => es matches Some(e) && b.item@ == e.item && b.file@ == artifact_name_of(
                    e.kind,
                    e.body,
                ) && job_is_for(b.job, e.kind, e.body, e.zoom) && b.figs == e.figs && b.equs
                    == e.equs && (b.reg is Some <==> e.reg is Some) && (b.reg matches Some(p) ==> (
                e.reg matches Some(rg) && p.0@ == rg.label && p.1@ == rg.display)),
            }
        }),
{
    let fields = header_fields_exec(header);
    let (kind, label, title) = classify_header_exec(&fields);
    let resolved: Vec<char>;
    if body.len() > 0 {
        resolved = subvec(body, 0, body.len());
        proof {
            assert(resolved@ =~= body@);
        }
    } else if fields.len() >= 2 {
        let key = string_from_chars(&fields[1]);
        proof {
            assert(key@ == views(fields@)[1]);
        }
        match assets.get(key.as_str()) {
            Some(content) => {
                resolved = chars_of(content.as_str());
            },
            None => {
                return None;
            },
        }
    } else {
        return None;
    }
    let content_str = string_from_chars(&resolved);
    let (file, job) = match kind {
        BlockKind::Equation => parse_equation(content_str.as_str(), 16),
        BlockKind::Latex => parse_latex(content_str.as_str()),
        BlockKind::Gnuplot => parse_gnuplot(content_str.as_str()),
        BlockKind::GnuplotOnly => parse_gnuplot_only(content_str.as_str()),
    };
    let ghost es = block_emit(header@, body@, assets@, head_num@, figs as nat, equs as nat);
    match title {
        Some(ttl) => {
            let n = figs + 1;
            let mut item: Vec<char> = Vec::new();
            append_str(&mut item, "<figure id=\"");
            append_vec(&mut item, &label);
            append_str(&mut item, "\" class=\"figure\"><object data=\"assets/");
            append_str(&mut item, file.as_str());
            append_str(&mut item, "\" type=\"image/svg+xml\"/></object><figcaption>Figure ");
            append_str(&mut item, head_num);
            push_dec(&mut item, n);
            append_str(&mut item, " ");
            append_vec(&mut item, &ttl);
            append_str(&mut item, "</figcaption></figure>");
            let mut display: Vec<char> = Vec::new();
            append_str(&mut display, "Figure ");
            append_str(&mut display, head_num);
            push_dec(&mut display, n);
            proof {
                assert(item@ =~= figure_markup(label@, file@, head_num@, n as nat, ttl@));
                assert(display@ =~= figure_display(head_num@, n as nat));
            }
            Some(
                BlockEmit {
                    item,
                    file,
                    job,
                    figs: n,
                    equs,
                    reg: Some((string_from_chars(&label), string_from_chars(&display))),
                },
            )
        },
        None => {
            if label.len() > 0 {
                let n = equs + 1;
                let mut item: Vec<char> = Vec::new();
                append_str(&mut item, "<div id=\"");
                append_vec(&mut item, &label);
                append_str(
                    &mut item,
                    "\" class=\"equation\"><div class=\"equation_inner\"><object data=\"assets/",
                );
                append_str(&mut item, file.as_str());
                append_str(&mut item, "\" type=\"image/svg+xml\"></object></div><span>(");
                append_str(&mut item, head_num);
                push_dec(&mut item, n);
                append_str(&mut item, ")</span></div>\n");
                let mut display: Vec<char> = Vec::new();
                append_str(&mut display, head_num);
                push_dec(&mut display, n);
                proof {
                    assert(item@ =~= equation_markup(label@, file@, head_num@, n as nat));
                    assert(display@ =~= equation_display(head_num@, n as nat));
                }
                Some(
                    BlockEmit {
                        item,
                        file,
                        job,
                        figs,
                        equs: n,
                        reg: Some((string_from_chars(&label), string_from_chars(&display))),
                    },
                )
            } else {
                let mut item: Vec<char> = Vec::new();
                append_str(
                    &mut item,
                    "<div class=\"equation\"><div class=\"equation_inner\"><object data=\"assets/",
                );
                append_str(&mut item, file.as_str());
                append_str(&mut item, "\" type=\"image/svg+xml\"></object></div></div>\n");
                proof {
                    assert(item@ =~= plain_equation_markup(file@));
                }
                Some(BlockEmit { item, file, job, figs, equs, reg: None })
            }
        },
    }
}

/// Whether a trimmed line begins with the block delimiter.
pub open spec fn begins_delim(s: Seq<char>) -> bool {
    s.len() >= 2 && s[0] == '$' && s[1] == '$'
}

/// Whether a trimmed line ends with the block delimiter.
pub open spec fn ends_delim(s: Seq<char>) -> bool {
    s.len() >= 2 && s[s.len() - 2] == '$' && s[s.len() - 1] == '$'
}

/// Whether a trimmed line is a one-line block: it both opens and closes on
/// the same line, so the captured body is empty.
pub open spec fn single_line_header(s: Seq<char>) -> bool {
    begins_delim(s) && ends_delim(s) && s.len() > 3
}

/// The scanner's state and accumulated effects over one chapter.
pub struct ScanState {
    /// The output items, joined by newlines at the end of the pass.
    pub items: Seq<Seq<char>>,
    /// The artifact filenames referenced so far, in order.
    pub used: Seq<Seq<char>>,
    /// The rendering obligations incurred so far, in order.
    pub jobs: Seq<JobSpec>,
    /// The reference table, shared across chapters.
    pub refs: Map<Seq<char>, Seq<char>>,
    /// The label registrations of this chapter, in scan order.
    pub regs: Seq<RegSpec>,
    /// The chapter's figure counter.
    pub figs: nat,
    /// The chapter's equation counter.
    pub equs: nat,
    /// The open block, as (header, accumulated body), when inside one.
    pub pending: Option<(Seq<char>, Seq<char>)>,
}

/// Close a block: apply everything its emission produces, or drop it when
/// its body cannot be resolved.
pub open spec fn apply_emit(
    st: ScanState,
    header: Seq<char>,
    body: Seq<char>,
    assets: Map<Seq<char>, Seq<char>>,
    head: Seq<char>,
) -> ScanState {
    match block_emit(header, body, assets, head, st.figs, st.equs) {
        None => ScanState { pending: None, ..st },
        Some(e) => ScanState {
            items: st.items.push(e.item),
            used: st.used.push(artifact_name_of(e.kind, e.body)),
            jobs: st.jobs.push(JobSpec { kind: e.kind, body: e.body, zoom: e.zoom, head }),
            refs: match e.reg {
                Some(rg) => st.refs.insert(rg.label, rg.display),
                None => st.refs,
            },
            regs: match e.reg {
                Some(rg) => st.regs.push(rg),
                None => st.regs,
            },
            figs: e.figs,
            equs: e.equs,
            pending: None,
        },
    }
}

/// One line of the block scan. Outside a block, ordinary lines pass through
/// unchanged; a line that opens and closes the delimiter is a one-line block
/// with an empty body; a line that only opens it starts a block. Inside a
/// block, ordinary lines are appended verbatim to the body, and any line
/// beginning with the delimiter closes the block.
pub open spec fn scan_step(
    st: ScanState,
    raw: Seq<char>,
    assets: Map<Seq<char>, Seq<char>>,
    head: Seq<char>,
) -> ScanState {
    let t = trim_ws(raw);
    if !begins_delim(t) {
        match st.pending {
            Some((h, b)) => ScanState {
                pending: Some((h, b + raw + seq!['\n'])),
                ..st
            },
            None => ScanState { items: st.items.push(raw), ..st },
        }
    } else {
        match st.pending {
            Some((h, b)) => apply_emit(st, h, b, assets, head),
            None => if single_line_header(t) {
                apply_emit(st, t, Seq::<char>::empty(), assets, head)
            } else {
                ScanState { pending: Some((t, Seq::<char>::empty())), ..st }
            },
        }
    }
}

/// The scan folded over a chapter's lines.
pub open spec fn scan_lines(
    st: ScanState,
    lines: Seq<Seq<char>>,
    assets: Map<Seq<char>, Seq<char>>,
    head: Seq<char>,
) -> ScanState
    decreases lines.len(),
{
    if lines.len() == 0 {
        st
    } else {
        scan_lines(scan_step(st, lines[0], assets, head), lines.drop_first(), assets, head)
    }
}

/// A fresh per-chapter scan state over an existing reference table.
pub open spec fn init_scan(refs: Map<Seq<char>, Seq<char>>) -> ScanState {
    ScanState {
        items: Seq::<Seq<char>>::empty(),
        used: Seq::<Seq<char>>::empty(),
        jobs: Seq::<JobSpec>::empty(),
        refs,
        regs: Seq::<RegSpec>::empty(),
        figs: 0,
        equs: 0,
        pending: None,
    }
}

/// The whole block pass over one chapter's source, starting from the shared
/// reference table. An unclosed trailing block is discarded.
pub open spec fn chapter_scan(
    source: Seq<char>,
    assets: Map<Seq<char>, Seq<char>>,
    head: Seq<char>,
    refs: Map<Seq<char>, Seq<char>>,
) -> ScanState {
    scan_lines(init_scan(refs), split_on(source, '\n'), assets, head)
}

/// Whether the tagged job list `post` extends `pre` by exactly the jobs
/// `added` describes, each tagged with its chapter's heading number.
pub open spec fn jobs_extended(
    pre: Seq<(String, RenderJob)>,
    post: Seq<(String, RenderJob)>,
    added: Seq<JobSpec>,
) -> bool {
    &&& post.len() == pre.len() + added.len()
    &&& post.take(pre.len() as int) == pre
    &&& forall|k: int|
        0 <= k < added.len() ==> (#[trigger] post[pre.len() + k]).0@ == added[k].head
            && job_is_for(post[pre.len() + k].1, added[k].kind, added[k].body, added[k].zoom)
}

/// Close one block against the live scanner state.
fn apply_block(
    header: &Vec<char>,
    body: &Vec<char>,
    head_num: &str,
    assets: &StrMap,
    out_items: &mut Vec<Vec<char>>,
    figs: &mut usize,
    equs: &mut usize,
    references: &mut StrMap,
    used_fragments: &mut Vec<String>,
    jobs: &mut Vec<(String, RenderJob)>,
)
    requires
        *old(figs) < usize::MAX,
        *old(equs) < usize::MAX,
    ensures
        ({
            let es = block_emit(
                header@,
                body@,
                assets@,
                head_num@,
                *old(figs) as nat,
                *old(equs) as nat,
            );
            match es {
                None => final (out_items)@ == old(out_items)@ && *final (figs) == *old(figs)
                    && *final (equs) == *old(equs) && final (references)@ == old(references)@
                    && final (used_fragments)@ == old(used_fragments)@ && final (jobs)@ == old(
                    jobs,
                )@,
                Some(e) => {
                    &&& views(final (out_items)@) == views(old(out_items)@).push(e.item)
                    &&& *final (figs) == e.figs
                    &&& *final (equs) == e.equs
                    &&& final (references)@ == (match e.reg {
                        Some(rg) => old(references)@.insert(rg.label, rg.display),
                        None => old(references)@,
                    })
                    &&& str_views(final (used_fragments)@) == str_views(
                        old(used_fragments)@,
                    ).push(artifact_name_of(e.kind, e.body))
                    &&& final (jobs)@.len() == old(jobs)@.len() + 1
                    &&& final (jobs)@.take(old(jobs)@.len() as int) == old(jobs)@
                    &&& final (jobs)@.last().0@ == head_num@
                    &&& job_is_for(final (jobs)@.last().1, e.kind, e.body, e.zoom)
                },
            }
        }),
{
    match emit_block(header, body, head_num, assets, *figs, *equs) {
        None => {},
        Some(b) => {
            let ghost pre_items = out_items@;
            let ghost pre_used = used_fragments@;
            let ghost pre_jobs = jobs@;
            out_items.push(b.item);
            *figs = b.figs;
            *equs = b.equs;
            used_fragments.push(b.file);
            jobs.push((head_num.to_owned(), b.job));
            match b.reg {
                Some((label, display)) => {
                    references.insert(label, display);
                },
                None => {},
            }
            proof {
                let e = block_emit(
                    header@,
                    body@,
                    assets@,
                    head_num@,
                    *old(figs) as nat,
                    *old(equs) as nat,
                )->Some_0;
                assert(views(out_items@) =~= views(pre_items).push(e.item));
                assert(str_views(used_fragments@) =~= str_views(pre_used).push(
                    artifact_name_of(e.kind, e.body),
                ));
                assert(jobs@.take(pre_jobs.len() as int) =~= pre_jobs);
            }
        },
    }
}

/// The block pass over one chapter: every recognized block is replaced by
/// markup referencing its cached artifact, labeled blocks are registered in
/// the shared reference table with chapter-scoped sequence numbers, and each
/// block's rendering obligation is queued. Lines outside blocks pass through
/// unchanged.
pub fn replace_blocks(
    source: &str,
    head_num: &str,
    assets: &StrMap,
    used_fragments: &mut Vec<String>,
    references: &mut StrMap,
    jobs: &mut Vec<(String, RenderJob)>,
) -> (r: String)
    ensures
        ({
            let m = chapter_scan(source@, assets@, head_num@, old(references)@);
            &&& r@ == join_with_nl(m.items)
            &&& final (references)@ == m.refs
            &&& str_views(final (used_fragments)@) == str_views(old(used_fragments)@) + m.used
            &&& jobs_extended(old(jobs)@, final (jobs)@, m.jobs)
        }),
{
    let sv = chars_of(source);
    let lines = split_chars(&sv, '\n');
    let mut out_items: Vec<Vec<char>> = Vec::new();
    let mut have_pending: bool = false;
    let mut ph: Vec<char> = Vec::new();
    let mut pb: Vec<char> = Vec::new();
    let mut figs: usize = 0;
    let mut equs: usize = 0;
    let ghost mut um: Seq<Seq<char>> = Seq::<Seq<char>>::empty();
    let ghost mut jm: Seq<JobSpec> = Seq::<JobSpec>::empty();
    let ghost mut rm: Seq<RegSpec> = Seq::<RegSpec>::empty();
    let ghost target = chapter_scan(source@, assets@, head_num@, references@);
    let mut i: usize = 0;
    proof {
        let st0 = ScanState {
            items: views(out_items@),
            used: um,
            jobs: jm,
            refs: references@,
            regs: rm,
            figs: figs as nat,
            equs: equs as nat,
            pending: if have_pending {
                Some((ph@, pb@))
            } else {
                None
            },
        };
        assert(views(out_items@) =~= Seq::<Seq<char>>::empty());
        assert(st0 == init_scan(references@));
        assert(views(lines@).skip(0) =~= views(lines@));
        assert(str_views(used_fragments@) =~= str_views(used_fragments@) + um);
        assert(jobs@.take(jobs@.len() as int) =~= jobs@);
    }
    while i < lines.len()
        invariant
            0 <= i <= lines@.len(),
            lines.len() == lines@.len(),
            figs + equs <= i,
            scan_lines(
                ScanState {
                    items: views(out_items@),
                    used: um,
                    jobs: jm,
                    refs: references@,
                    regs: rm,
                    figs: figs as nat,
                    equs: equs as nat,
                    pending: if have_pending {
                        Some((ph@, pb@))
                    } else {
                        None
                    },
                },
                views(lines@).skip(i as int),
                assets@,
                head_num@,
            ) == target,
            target == chapter_scan(source@, assets@, head_num@, old(references)@),
            str_views(used_fragments@) == str_views(old(used_fragments)@) + um,
            jobs_extended(old(jobs)@, jobs@, jm),
        decreases lines@.len() - i,
    {
        let ghost st_old = ScanState {
            items: views(out_items@),
            used: um,
            jobs: jm,
            refs: references@,
            regs: rm,
            figs: figs as nat,
            equs: equs as nat,
            pending: if have_pending {
                Some((ph@, pb@))
            } else {
                None
            },
        };
        let ghost raw = views(lines@).skip(i as int)[0];
        proof {
            assert(raw == lines@[i as int]@);
            assert(views(lines@).skip(i as int).drop_first() =~= views(lines@).skip(i + 1));
        }
        let t = trim_chars(&lines[i]);
        let starts = t.len() >= 2 && t[0] == '$' && t[1] == '$';
        if !starts {
            if have_pending {
                let ghost pre_pb = pb@;
                append_vec(&mut pb, &lines[i]);
                pb.push('\n');
                proof {
                    assert(pb@ =~= pre_pb + raw + seq!['\n']);
                    let st_new = ScanState {
                        items: views(out_items@),
                        used: um,
                        jobs: jm,
                        refs: references@,
                        regs: rm,
                        figs: figs as nat,
                        equs: equs as nat,
                        pending: Some((ph@, pb@)),
                    };
                    assert(st_new == scan_step(st_old, raw, assets@, head_num@));
                }
            } else {
                let item = subvec(&lines[i], 0, lines[i].len());
                proof {
                    assert(item@ =~= raw);
                }
                let ghost pre_items = out_items@;
                out_items.push(item);
                proof {
                    assert(views(out_items@) =~= views(pre_items).push(raw));
                    let st_new = ScanState {
                        items: views(out_items@),
                        used: um,
                        jobs: jm,
                        refs: references@,
                        regs: rm,
                        figs: figs as nat,
                        equs: equs as nat,
                        pending: None,
                    };
                    assert(st_new == scan_step(st_old, raw, assets@, head_num@));
                }
            }
        } else {
            if have_pending {
                let ghost hdr = ph@;
                let ghost bdy = pb@;
                let ghost pre_jobs = jobs@;
                let ghost e_opt = block_emit(hdr, bdy, assets@, head_num@, figs as nat,
                    equs as nat);
                let header = subvec(&ph, 0, ph.len());
                let bodyv = subvec(&pb, 0, pb.len());
                proof {
                    assert(header@ =~= hdr);
                    assert(bodyv@ =~= bdy);
                }
                apply_block(
                    &header,
                    &bodyv,
                    head_num,
                    assets,
                    &mut out_items,
                    &mut figs,
                    &mut equs,
                    references,
                    used_fragments,
                    jobs,
                );
                have_pending = false;
                proof {
                    match e_opt {
                        None => {},
                        Some(e) => {
                            um = um.push(artifact_name_of(e.kind, e.body));
                            jm = jm.push(
                                JobSpec { kind: e.kind, body: e.body, zoom: e.zoom, head: head_num@ },
                            );
                            match e.reg {
                                Some(rg) => {
                                    rm = rm.push(rg);
                                },
                                None => {},
                            }
                            assert(str_views(used_fragments@) =~= str_views(old(used_fragments)@)
                                + um);
                            assert(jobs@.take(old(jobs)@.len() as int) =~= old(jobs)@);
                            assert forall|k: int| 0 <= k < jm.len() implies ((
                            #[trigger] jobs@[old(jobs)@.len() + k]).0@ == jm[k].head
                                && job_is_for(
                                jobs@[old(jobs)@.len() + k].1,
                                jm[k].kind,
                                jm[k].body,
                                jm[k].zoom,
                            )) by {
                                if k < jm.len() - 1 {
                                    assert(jobs@[old(jobs)@.len() + k] == jobs@.take(
                                        pre_jobs.len() as int,
                                    )[old(jobs)@.len() + k]);
                                    assert(jobs@.take(pre_jobs.len() as int) == pre_jobs);
                                } else {
                                    assert(jobs@[old(jobs)@.len() + k] == jobs@.last());
                                }
                            }
                        },
                    }
                    let st_new = ScanState {
                        items: views(out_items@),
                        used: um,
                        jobs: jm,
                        refs: references@,
                        regs: rm,
                        figs: figs as nat,
                        equs: equs as nat,
                        pending: None,
                    };
                    assert(st_new == apply_emit(st_old, hdr, bdy, assets@, head_num@));
                    assert(st_new == scan_step(st_old, raw, assets@, head_num@));
                }
            } else {
                let single = t.len() > 3 && t[t.len() - 2] == '$' && t[t.len() - 1] == '$';
                if single {
                    let empty_body: Vec<char> = Vec::new();
                    let ghost hdr = t@;
                    let ghost bdy = Seq::<char>::empty();
                    proof {
                        assert(empty_body@ =~= bdy);
                    }
                    let ghost pre_jobs = jobs@;
                    let ghost e_opt = block_emit(hdr, bdy, assets@, head_num@, figs as nat,
                        equs as nat);
                    apply_block(
                        &t,
                        &empty_body,
                        head_num,
                        assets,
                        &mut out_items,
                        &mut figs,
                        &mut equs,
                        references,
                        used_fragments,
                        jobs,
                    );
                    proof {
                        match e_opt {
                            None => {},
                            Some(e) => {
                                um = um.push(artifact_name_of(e.kind, e.body));
                                jm = jm.push(
                                    JobSpec {
                                        kind: e.kind,
                                        body: e.body,
                                        zoom: e.zoom,
                                        head: head_num@,
                                    },
                                );
                                match e.reg {
                                    Some(rg) => {
                                        rm = rm.push(rg);
                                    },
                                    None => {},
                                }
                                assert(str_views(used_fragments@) =~= str_views(
                                    old(used_fragments)@,
                                ) + um);
                                assert(jobs@.take(old(jobs)@.len() as int) =~= old(jobs)@);
                                assert forall|k: int| 0 <= k < jm.len() implies ((
                                #[trigger] jobs@[old(jobs)@.len() + k]).0@ == jm[k].head
                                    && job_is_for(
                                    jobs@[old(jobs)@.len() + k].1,
                                    jm[k].kind,
                                    jm[k].body,
                                    jm[k].zoom,
                                )) by {
                                    if k < jm.len() - 1 {
                                        assert(jobs@[old(jobs)@.len() + k] == jobs@.take(
                                            pre_jobs.len() as int,
                                        )[old(jobs)@.len() + k]);
                                        assert(jobs@.take(pre_jobs.len() as int) == pre_jobs);
                                    } else {
                                        assert(jobs@[old(jobs)@.len() + k] == jobs@.last());
                                    }
                                }
                            },
                        }
                        let st_new = ScanState {
                            items: views(out_items@),
                            used: um,
                            jobs: jm,
                            refs: references@,
                            regs: rm,
                            figs: figs as nat,
                            equs: equs as nat,
                            pending: None,
                        };
                        assert(st_new == apply_emit(st_old, hdr, bdy, assets@, head_num@));
                        assert(st_new == scan_step(st_old, raw, assets@, head_num@));
                    }
                } else {
                    have_pending = true;
                    ph = t;
                    pb = Vec::new();
                    proof {
                        assert(pb@ =~= Seq::<char>::empty());
                        let st_new = ScanState {
                            items: views(out_items@),
                            used: um,
                            jobs: jm,
                            refs: references@,
                            regs: rm,
                            figs: figs as nat,
                            equs: equs as nat,
                            pending: Some((ph@, pb@)),
                        };
                        assert(st_new == scan_step(st_old, raw, assets@, head_num@));
                    }
                }
            }
        }
        i = i + 1;
    }
    proof {
        assert(views(lines@).skip(lines@.len() as int) =~= Seq::<Seq<char>>::empty());
    }
    let joined = join_chars(&out_items, '\n');
    proof {
        let m = chapter_scan(source@, assets@, head_num@, old(references)@);
        assert(views(out_items@) == m.items);
    }
    string_from_chars(&joined)
}

/// Items joined by newlines: the shape of every pass's final text.
pub open spec fn join_with_nl(items: Seq<Seq<char>>) -> Seq<char> {
    crate::text::join_with(items, '\n')
}

/// Why an inline pass failed.
pub enum InlineFailure {
    /// A line held an odd number of inline delimiters.
    Uneven,
    /// A reference token could not be resolved; the message names the label
    /// and the line.
    BadRef(Seq<char>),
}

/// The message for a reference whose label is not registered.
pub open spec fn missing_ref_msg(name: Seq<char>, line: nat) -> Seq<char> {
    "could not find reference to `"@ + name + "` in line "@ + dec_digits(line)
}

/// The message for a reference token of unknown type.
pub open spec fn unknown_ref_msg(kind: Seq<char>, line: nat) -> Seq<char> {
    "unknown reference type of `"@ + kind + "` in line "@ + dec_digits(line)
}

/// The anchor emitted for a figure reference.
pub open spec fn fig_anchor(name: Seq<char>, display: Seq<char>) -> Seq<char> {
    "<a class=\"fig_ref\" href='#"@ + name + "'>"@ + display + "</a>"@
}

/// The anchor emitted for a bibliography reference.
pub open spec fn bib_anchor(name: Seq<char>, display: Seq<char>) -> Seq<char> {
    "<a class=\"bib_ref\" href='bibliography.html#"@ + name + "'>"@ + display + "</a>"@
}

/// The anchor emitted for an equation reference.
pub open spec fn equ_anchor(name: Seq<char>, display: Seq<char>) -> Seq<char> {
    "<a class=\"equ_ref\" href='#"@ + name + "'>Eq. ("@ + display + ")</a>"@
}

/// The element emitted for an inline equation.
pub open spec fn inline_object_markup(file: Seq<char>) -> Seq<char> {
    "<object class=\"equation_inline\" data=\"assets/"@ + file
        + "\" type=\"image/svg+xml\"></object>"@
}

/// The zoom, in tenths, of inline equations: smaller than block equations.
pub open spec fn inline_zoom() -> usize {
    13
}

/// What one inline segment yields.
pub struct SegOut {
    /// The text replacing the segment.
    pub item: Seq<char>,
    /// Artifact filenames the segment references.
    pub used: Seq<Seq<char>>,
    /// Rendering obligations the segment incurs.
    pub jobs: Seq<JobSpec>,
}

/// A segment that passes through or renders as-is.
pub open spec fn seg_plain(item: Seq<char>) -> SegOut {
    SegOut { item, used: Seq::<Seq<char>>::empty(), jobs: Seq::<JobSpec>::empty() }
}

/// Whether an odd segment has the shape of a reference token: the `ref:`
/// prefix followed by exactly a type and a name.
pub open spec fn is_ref_token(seg: Seq<char>) -> bool {
    has_prefix(seg, "ref:"@) && split_on(seg, ':').len() == 3
}

/// One inline segment: segments at even positions are plain text; a segment
/// at an odd position is either a well-formed reference token, resolved
/// against the table, or an inline equation body.
pub open spec fn seg_result(
    seg: Seq<char>,
    odd: bool,
    refs: Map<Seq<char>, Seq<char>>,
    line: nat,
    head: Seq<char>,
) -> Result<SegOut, InlineFailure> {
    if !odd {
        Ok(seg_plain(seg))
    } else if is_ref_token(seg) {
        let parts = split_on(seg, ':');
        let kind = parts[1];
        let name = parts[2];
        if kind == "fig"@ {
            if refs.contains_key(name) {
                Ok(seg_plain(fig_anchor(name, refs[name])))
            } else {
                Err(InlineFailure::BadRef(missing_ref_msg(name, line)))
            }
        } else if kind == "bib"@ {
            if refs.contains_key(name) {
                Ok(seg_plain(bib_anchor(name, refs[name])))
            } else {
                Err(InlineFailure::BadRef(missing_ref_msg(name, line)))
            }
        } else if kind == "equ"@ {
            if refs.contains_key(name) {
                Ok(seg_plain(equ_anchor(name, refs[name])))
            } else {
                Err(InlineFailure::BadRef(missing_ref_msg(name, line)))
            }
        } else {
            Err(InlineFailure::BadRef(unknown_ref_msg(kind, line)))
        }
    } else {
        let file = artifact_name_of(BlockKind::Equation, seg);
        Ok(
            SegOut {
                item: inline_object_markup(file),
                used: seq![file],
                jobs: seq![
                    JobSpec { kind: BlockKind::Equation, body: seg, zoom: inline_zoom(), head },
                ],
            },
        )
    }
}

/// What one line of the inline pass yields.
pub struct LineOut {
    /// The line's text: the rewritten segments, rejoined in place.
    pub out: Seq<char>,
    /// Artifact filenames referenced, in order.
    pub used: Seq<Seq<char>>,
    /// Rendering obligations incurred, in order.
    pub jobs: Seq<JobSpec>,
    /// The first failure, if any; segments before it keep their effects.
    pub fail: Option<InlineFailure>,
}

/// An empty per-line accumulator.
pub open spec fn line_acc_empty() -> LineOut {
    LineOut {
        out: Seq::<char>::empty(),
        used: Seq::<Seq<char>>::empty(),
        jobs: Seq::<JobSpec>::empty(),
        fail: None,
    }
}

/// The segments of one line, folded left to right, stopping at the first
/// failure.
pub open spec fn seg_fold(
    segs: Seq<Seq<char>>,
    j: int,
    refs: Map<Seq<char>, Seq<char>>,
    line: nat,
    head: Seq<char>,
    acc: LineOut,
) -> LineOut
    decreases segs.len() - j,
{
    if j < 0 || j >= segs.len() || acc.fail is Some {
        acc
    } else {
        match seg_result(segs[j], j % 2 == 1, refs, line, head) {
            Ok(so) => seg_fold(
                segs,
                j + 1,
                refs,
                line,
                head,
                LineOut {
                    out: acc.out + so.item,
                    used: acc.used + so.used,
                    jobs: acc.jobs + so.jobs,
                    fail: None,
                },
            ),
            Err(f) => LineOut { fail: Some(f), ..acc },
        }
    }
}

/// One line of the inline pass: an odd number of delimiters cannot be
/// tokenized and fails at once; otherwise the segments are rewritten.
pub open spec fn line_scan(
    line: Seq<char>,
    refs: Map<Seq<char>, Seq<char>>,
    num: nat,
    head: Seq<char>,
) -> LineOut {
    let segs = split_on(line, '$');
    if segs.len() % 2 == 0 {
        LineOut { fail: Some(InlineFailure::Uneven), ..line_acc_empty() }
    } else {
        seg_fold(segs, 0, refs, num, head, line_acc_empty())
    }
}

/// What the inline pass over a chapter yields.
pub struct InlineOut {
    /// The rewritten lines.
    pub lines: Seq<Seq<char>>,
    /// Artifact filenames referenced, in order.
    pub used: Seq<Seq<char>>,
    /// Rendering obligations incurred, in order.
    pub jobs: Seq<JobSpec>,
    /// The first failure, in line order, if any.
    pub fail: Option<InlineFailure>,
}

/// An empty inline-pass accumulator.
pub open spec fn inline_acc_empty() -> InlineOut {
    InlineOut {
        lines: Seq::<Seq<char>>::empty(),
        used: Seq::<Seq<char>>::empty(),
        jobs: Seq::<JobSpec>::empty(),
        fail: None,
    }
}

/// The lines of a chapter, folded in order, stopping at the first failing
/// line; that line's effects before its failure are kept.
pub open spec fn inline_fold(
    lines: Seq<Seq<char>>,
    j: int,
    refs: Map<Seq<char>, Seq<char>>,
    head: Seq<char>,
    acc: InlineOut,
) -> InlineOut
    decreases lines.len() - j,
{
    if j < 0 || j >= lines.len() || acc.fail is Some {
        acc
    } else {
        let lo = line_scan(lines[j], refs, j as nat, head);
        inline_fold(
            lines,
            j + 1,
            refs,
            head,
            InlineOut {
                lines: if lo.fail is Some {
                    acc.lines
                } else {
                    acc.lines.push(lo.out)
                },
                used: acc.used + lo.used,
                jobs: acc.jobs + lo.jobs,
                fail: lo.fail,
            },
        )
    }
}

/// The whole inline pass over one chapter's text.
pub open spec fn inline_pass(
    source: Seq<char>,
    refs: Map<Seq<char>, Seq<char>>,
    head: Seq<char>,
) -> InlineOut {
    inline_fold(split_on(source, '\n'), 0, refs, head, inline_acc_empty())
}

/// Whether a scan state's registrations carry consistent numbering: the
/// `j`-th figure registration of the chapter displays number `j + 1`, and so
/// does the `j`-th equation registration. Sequence numbers are therefore
/// strictly increasing in scan order and start at 1 in every chapter.
/// The equation registrations of a registration list, in order.
pub open spec fn equ_regs(s: Seq<RegSpec>) -> Seq<RegSpec>
    decreases s.len(),
{
    if s.len() == 0 {
        Seq::<RegSpec>::empty()
    } else if !s.last().figure {
        equ_regs(s.drop_last()).push(s.last())
    } else {
        equ_regs(s.drop_last())
    }
}

/// The figure registrations of a registration list, in order.
pub open spec fn fig_regs(s: Seq<RegSpec>) -> Seq<RegSpec>
    decreases s.len(),
{
    if s.len() == 0 {
        Seq::<RegSpec>::empty()
    } else if s.last().figure {
        fig_regs(s.drop_last()).push(s.last())
    } else {
        fig_regs(s.drop_last())
    }
}

pub open spec fn regs_numbered(st: ScanState, head: Seq<char>) -> bool {
    let eqs = equ_regs(st.regs);
    let fgs = fig_regs(st.regs);
    &&& eqs.len() == st.equs
    &&& fgs.len() == st.figs
    &&& forall|j: int|
        0 <= j < eqs.len() ==> (#[trigger] eqs[j]).display == equation_display(
            head,
            (j + 1) as nat,
        )
    &&& forall|j: int|
        0 <= j < fgs.len() ==> (#[trigger] fgs[j]).display == figure_display(head, (j + 1) as nat)
}

proof fn lemma_apply_emit_numbering(
    st: ScanState,
    header: Seq<char>,
    body: Seq<char>,
    assets: Map<Seq<char>, Seq<char>>,
    head: Seq<char>,
)
    requires
        regs_numbered(st, head),
    ensures
        regs_numbered(apply_emit(st, header, body, assets, head), head),
{
    let st2 = apply_emit(st, header, body, assets, head);
    match block_emit(header, body, assets, head, st.figs, st.equs) {
        None => {},
        Some(e) => {
            match e.reg {
                None => {
                    assert(e.figs == st.figs && e.equs == st.equs);
                    assert(st2.regs == st.regs);
                },
                Some(rg) => {
                    assert(st2.regs == st.regs.push(rg));
                    assert(st.regs.push(rg).drop_last() =~= st.regs);
                    let eqs = equ_regs(st.regs);
                    let fgs = fig_regs(st.regs);
                    if rg.figure {
                        assert(e.figs == st.figs + 1 && e.equs == st.equs);
                        assert(rg.display == figure_display(head, (st.figs + 1) as nat));
                        assert(fig_regs(st2.regs) == fgs.push(rg));
                        assert(equ_regs(st2.regs) == eqs);
                        assert forall|j: int|
                            0 <= j < fgs.push(rg).len() implies (#[trigger] fgs.push(
                            rg,
                        )[j]).display == figure_display(head, (j + 1) as nat) by {
                            if j < fgs.len() {
                                assert(fgs.push(rg)[j] == fgs[j]);
                            } else {
                                assert(fgs.push(rg)[j] == rg);
                            }
                        }
                    } else {
                        assert(e.equs == st.equs + 1 && e.figs == st.figs);
                        assert(rg.display == equation_display(head, (st.equs + 1) as nat));
                        assert(equ_regs(st2.regs) == eqs.push(rg));
                        assert(fig_regs(st2.regs) == fgs);
                        assert forall|j: int|
                            0 <= j < eqs.push(rg).len() implies (#[trigger] eqs.push(
                            rg,
                        )[j]).display == equation_display(head, (j + 1) as nat) by {
                            if j < eqs.len() {
                                assert(eqs.push(rg)[j] == eqs[j]);
                            } else {
                                assert(eqs.push(rg)[j] == rg);
                            }
                        }
                    }
                },
            }
        },
    }
}

proof fn lemma_scan_step_numbering(
    st: ScanState,
    raw: Seq<char>,
    assets: Map<Seq<char>, Seq<char>>,
    head: Seq<char>,
)
    requires
        regs_numbered(st, head),
    ensures
        regs_numbered(scan_step(st, raw, assets, head), head),
{
    let t = trim_ws(raw);
    if !begins_delim(t) {
    } else {
        match st.pending {
            Some((h, b)) => {
                lemma_apply_emit_numbering(st, h, b, assets, head);
            },
            None => {
                if single_line_header(t) {
                    lemma_apply_emit_numbering(st, t, Seq::<char>::empty(), assets, head);
                }
            },
        }
    }
}

proof fn lemma_scan_lines_numbering(
    st: ScanState,
    lines: Seq<Seq<char>>,
    assets: Map<Seq<char>, Seq<char>>,
    head: Seq<char>,
)
    requires
        regs_numbered(st, head),
    ensures
        regs_numbered(scan_lines(st, lines, assets, head), head),
    decreases lines.len(),
{
    if lines.len() > 0 {
        lemma_scan_step_numbering(st, lines[0], assets, head);
        lemma_scan_lines_numbering(scan_step(st, lines[0], assets, head), lines.drop_first(),
            assets, head);
    }
}

/// Within one chapter, labeled blocks are numbered strictly increasingly in
/// scan order — the `j`-th equation registration displays the chapter
/// heading followed by `j + 1`, and likewise for figures — and the counters
/// restart at 1 with every chapter, since every chapter's scan starts fresh.
pub proof fn lemma_chapter_numbering(
    source: Seq<char>,
    assets: Map<Seq<char>, Seq<char>>,
    head: Seq<char>,
    refs0: Map<Seq<char>, Seq<char>>,
)
    ensures
        regs_numbered(chapter_scan(source, assets, head, refs0), head),
{
    let st0 = init_scan(refs0);
    assert(equ_regs(st0.regs) =~= Seq::<RegSpec>::empty());
    assert(fig_regs(st0.regs) =~= Seq::<RegSpec>::empty());
    lemma_scan_lines_numbering(st0, split_on(source, '\n'), assets, head);
}

/// A line holding an odd number of inline delimiters always fails with the
/// unbalanced-delimiter failure, whatever the reference table holds: it is
/// never silently truncated.
pub proof fn lemma_uneven_line_fails(
    line: Seq<char>,
    refs: Map<Seq<char>, Seq<char>>,
    num: nat,
    head: Seq<char>,
)
    requires
        crate::text::count_ch(line, '$') % 2 == 1,
    ensures
        line_scan(line, refs, num, head).fail == Some(InlineFailure::Uneven),
{
    crate::text::lemma_split_count(line, '$');
}

/// A reference token of a known type whose label was never registered fails
/// with the invalid-reference failure naming exactly that label and the line
/// number.
pub proof fn lemma_missing_reference_fails(
    kind: Seq<char>,
    label: Seq<char>,
    refs: Map<Seq<char>, Seq<char>>,
    num: nat,
    head: Seq<char>,
)
    requires
        kind == "fig"@ || kind == "bib"@ || kind == "equ"@,
        !refs.contains_key(label),
        !label.contains(':'),
    ensures
        ({
            let seg = "ref:"@ + kind + seq![':'] + label;
            seg_result(seg, true, refs, num, head) == Err::<SegOut, InlineFailure>(
                InlineFailure::BadRef(missing_ref_msg(label, num)),
            )
        }),
{
    reveal_strlit("ref:");
    reveal_strlit("fig");
    reveal_strlit("bib");
    reveal_strlit("equ");
    let seg = "ref:"@ + kind + seq![':'] + label;
    assert(seg.take(4) =~= "ref:"@);
    assert(has_prefix(seg, "ref:"@));
    crate::text::lemma_find_ch_is(seg, ':', 3);
    crate::text::lemma_split_on_first(seg, ':');
    let rest = seg.skip(4);
    assert(rest =~= kind + seq![':'] + label);
    assert forall|k: int| 0 <= k < 3 implies rest[k] != ':' by {
        assert(rest[k] == kind[k]);
    }
    crate::text::lemma_find_ch_is(rest, ':', 3);
    crate::text::lemma_split_on_first(rest, ':');
    let rest2 = rest.skip(4);
    assert(rest2 =~= label);
    assert forall|k: int| 0 <= k < label.len() implies label[k] != ':' by {
        if label[k] == ':' {
            assert(label.contains(':'));
        }
    }
    crate::text::lemma_find_ch_is(label, ':', label.len() as int);
    crate::text::lemma_split_on_first(label, ':');
    let parts = split_on(seg, ':');
    assert(parts =~= seq![seg.take(3), rest.take(3), label]);
    assert(rest.take(3) =~= kind);
    assert(parts[1] == kind);
    assert(parts[2] == label);
}

/// A chapter holding no inline delimiter anywhere comes back byte-identical
/// from both passes: the block pass finds no block and touches neither the
/// reference table nor the cache, and the inline pass finds no token.
pub proof fn lemma_round_trip(
    source: Seq<char>,
    assets: Map<Seq<char>, Seq<char>>,
    head: Seq<char>,
    refs0: Map<Seq<char>, Seq<char>>,
    refs1: Map<Seq<char>, Seq<char>>,
)
    requires
        forall|j: int, k: int|
            0 <= j < split_on(source, '\n').len() && 0 <= k < split_on(source, '\n')[j].len()
                ==> split_on(source, '\n')[j][k] != '$',
    ensures
        ({
            let m = chapter_scan(source, assets, head, refs0);
            &&& join_with_nl(m.items) == source
            &&& m.refs == refs0
            &&& m.used.len() == 0
            &&& m.jobs.len() == 0
            &&& m.regs.len() == 0
        }),
        ({
            let n = inline_pass(source, refs1, head);
            &&& n.fail is None
            &&& join_with_nl(n.lines) == source
            &&& n.used.len() == 0
            &&& n.jobs.len() == 0
        }),
{
    let lines = split_on(source, '\n');
    let st0 = init_scan(refs0);
    lemma_scan_lines_passthrough(st0, lines, assets, head);
    let m = chapter_scan(source, assets, head, refs0);
    assert(m.items =~= lines);
    crate::text::lemma_join_split(source, '\n');
    lemma_inline_fold_passthrough(lines, 0, refs1, head, inline_acc_empty());
    let n = inline_pass(source, refs1, head);
    assert(n.lines =~= lines);
}

proof fn lemma_scan_lines_passthrough(
    st: ScanState,
    lines: Seq<Seq<char>>,
    assets: Map<Seq<char>, Seq<char>>,
    head: Seq<char>,
)
    requires
        st.pending is None,
        forall|j: int, k: int|
            0 <= j < lines.len() && 0 <= k < lines[j].len() ==> lines[j][k] != '$',
    ensures
        scan_lines(st, lines, assets, head) == (ScanState { items: st.items + lines, ..st }),
    decreases lines.len(),
{
    if lines.len() == 0 {
        assert(st.items + lines =~= st.items);
        assert(scan_lines(st, lines, assets, head) == (ScanState { items: st.items + lines, ..st }));
    } else {
        let raw = lines[0];
        let t = trim_ws(raw);
        assert(!begins_delim(t)) by {
            if begins_delim(t) {
                crate::text::lemma_ws_prefix(raw);
                crate::text::lemma_ws_end(raw);
                if crate::text::ws_prefix(raw) <= crate::text::ws_end(raw) {
                    assert(t[0] == raw[crate::text::ws_prefix(raw)]);
                    assert(raw[crate::text::ws_prefix(raw)] != '$');
                } else {
                    assert(t.len() == 0);
                }
            }
        }
        let st1 = scan_step(st, raw, assets, head);
        assert(st1 == (ScanState { items: st.items.push(raw), ..st }));
        assert forall|j: int, k: int|
            0 <= j < lines.drop_first().len() && 0 <= k < lines.drop_first()[j].len() implies lines.drop_first()[j][k]
            != '$' by {
            assert(lines[j + 1][k] != '$');
        }
        lemma_scan_lines_passthrough(st1, lines.drop_first(), assets, head);
        assert(st.items.push(raw) + lines.drop_first() =~= st.items + lines);
    }
}

proof fn lemma_inline_fold_passthrough(
    lines: Seq<Seq<char>>,
    j: int,
    refs: Map<Seq<char>, Seq<char>>,
    head: Seq<char>,
    acc: InlineOut,
)
    requires
        acc.fail is None,
        0 <= j <= lines.len(),
        forall|m: int, k: int|
            0 <= m < lines.len() && 0 <= k < lines[m].len() ==> lines[m][k] != '$',
    ensures
        inline_fold(lines, j, refs, head, acc) == (InlineOut {
            lines: acc.lines + lines.skip(j),
            ..acc
        }),
    decreases lines.len() - j,
{
    if j >= lines.len() {
        assert(lines.skip(j) =~= Seq::<Seq<char>>::empty());
        assert(acc.lines + lines.skip(j) =~= acc.lines);
    } else {
        let line = lines[j];
        assert forall|k: int| 0 <= k < line.len() implies line[k] != '$' by {
            assert(lines[j][k] != '$');
        }
        crate::text::lemma_find_ch_is(line, '$', line.len() as int);
        crate::text::lemma_split_on_first(line, '$');
        let segs = split_on(line, '$');
        assert(segs == seq![line]);
        let lo = line_scan(line, refs, j as nat, head);
        let acc_l0 = line_acc_empty();
        let s0 = seg_result(segs[0], false, refs, j as nat, head);
        assert(s0 == Ok::<SegOut, InlineFailure>(seg_plain(line)));
        let acc_l1 = LineOut {
            out: acc_l0.out + line,
            used: acc_l0.used + seg_plain(line).used,
            jobs: acc_l0.jobs + seg_plain(line).jobs,
            fail: None,
        };
        assert(seg_fold(segs, 1, refs, j as nat, head, acc_l1) == acc_l1);
        assert(lo == acc_l1);
        assert(lo.out =~= line);
        assert(lo.used =~= Seq::<Seq<char>>::empty());
        assert(lo.jobs =~= Seq::<JobSpec>::empty());
        let acc1 = InlineOut {
            lines: acc.lines.push(lo.out),
            used: acc.used + lo.used,
            jobs: acc.jobs + lo.jobs,
            fail: None,
        };
        assert(acc1.used =~= acc.used);
        assert(acc1.jobs =~= acc.jobs);
        assert(inline_fold(lines, j, refs, head, acc) == inline_fold(lines, j + 1, refs, head, acc1));
        lemma_inline_fold_passthrough(lines, j + 1, refs, head, acc1);
        assert(acc.lines.push(lo.out) + lines.skip(j + 1) =~= acc.lines + lines.skip(j));
        assert(inline_fold(lines, j + 1, refs, head, acc1) == (InlineOut {
            lines: acc1.lines + lines.skip(j + 1),
            ..acc1
        }));
        assert((InlineOut { lines: acc1.lines + lines.skip(j + 1), ..acc1 }) == (InlineOut {
            lines: acc.lines + lines.skip(j),
            ..acc
        }));
    }
}

/// Resolve one reference token's anchor, or fail with the message the
/// offending label and line deserve.
fn resolve_ref(
    kindv: &Vec<char>,
    namev: &Vec<char>,
    references: &StrMap,
    line_num: usize,
) -> (r: Result<Vec<char>, Error>)
    ensures
        ({
            let known = (kindv@ == "fig"@ || kindv@ == "bib"@ || kindv@ == "equ"@);
            &&& (r is Ok <==> known && references@.contains_key(namev@))
            &&& (r matches Ok(item) ==> references@.contains_key(namev@) && ({
                let display = references@[namev@];
                if kindv@ == "fig"@ {
                    item@ == fig_anchor(namev@, display)
                } else if kindv@ == "bib"@ {
                    item@ == bib_anchor(namev@, display)
                } else {
                    item@ == equ_anchor(namev@, display)
                }
            }))
            &&& (r matches Err(e) ==> (e matches Error::InvalidReference(m) && m@ == (if known {
                missing_ref_msg(namev@, line_num as nat)
            } else {
                unknown_ref_msg(kindv@, line_num as nat)
            })))
        }),
{
    let is_fig = chars_eq_str(kindv, "fig");
    let is_bib = chars_eq_str(kindv, "bib");
    let is_equ = chars_eq_str(kindv, "equ");
    if !(is_fig || is_bib || is_equ) {
        let mut msg: Vec<char> = Vec::new();
        append_str(&mut msg, "unknown reference type of `");
        append_vec(&mut msg, kindv);
        append_str(&mut msg, "` in line ");
        push_dec(&mut msg, line_num);
        proof {
            assert(msg@ =~= unknown_ref_msg(kindv@, line_num as nat));
        }
        return Err(Error::InvalidReference(string_from_chars(&msg)));
    }
    let name = string_from_chars(namev);
    match references.get(name.as_str()) {
        None => {
            let mut msg: Vec<char> = Vec::new();
            append_str(&mut msg, "could not find reference to `");
            append_vec(&mut msg, namev);
            append_str(&mut msg, "` in line ");
            push_dec(&mut msg, line_num);
            proof {
                assert(msg@ =~= missing_ref_msg(namev@, line_num as nat));
            }
            Err(Error::InvalidReference(string_from_chars(&msg)))
        },
        Some(display) => {
            let mut item: Vec<char> = Vec::new();
            if is_fig {
                append_str(&mut item, "<a class=\"fig_ref\" href='#");
                append_vec(&mut item, namev);
                append_str(&mut item, "'>");
                append_str(&mut item, display.as_str());
                append_str(&mut item, "</a>");
                proof {
                    assert(item@ =~= fig_anchor(namev@, references@[namev@]));
                }
            } else if is_bib {
                append_str(&mut item, "<a class=\"bib_ref\" href='bibliography.html#");
                append_vec(&mut item, namev);
                append_str(&mut item, "'>");
                append_str(&mut item, display.as_str());
                append_str(&mut item, "</a>");
                proof {
                    assert(item@ =~= bib_anchor(namev@, references@[namev@]));
                }
            } else {
                append_str(&mut item, "<a class=\"equ_ref\" href='#");
                append_vec(&mut item, namev);
                append_str(&mut item, "'>Eq. (");
                append_str(&mut item, display.as_str());
                append_str(&mut item, ")</a>");
                proof {
                    assert(item@ =~= equ_anchor(namev@, references@[namev@]));
                }
            }
            Ok(item)
        },
    }
}

/// The inline pass over one chapter: plain segments pass through, reference
/// tokens resolve against the shared table, and every other odd segment is
/// an inline equation body, rewritten to an artifact reference with its
/// rendering obligation queued. Segments are rejoined in place; the first
/// unresolved token or unbalanced line aborts the pass.
pub fn replace_inline_blocks(
    source: &str,
    head_num: &str,
    references: &StrMap,
    used_fragments: &mut Vec<String>,
    jobs: &mut Vec<(String, RenderJob)>,
) -> (r: Result<String, Error>)
    ensures
        ({
            let m = inline_pass(source@, references@, head_num@);
            &&& str_views(final (used_fragments)@) == str_views(old(used_fragments)@) + m.used
            &&& jobs_extended(old(jobs)@, final (jobs)@, m.jobs)
            &&& (r is Ok <==> m.fail is None)
            &&& (r matches Ok(s) ==> s@ == join_with_nl(m.lines))
            &&& (r matches Err(e) ==> (m.fail matches Some(f) && (match f {
                InlineFailure::Uneven => e matches Error::UnevenNumberDollar,
                InlineFailure::BadRef(msg) => e matches Error::InvalidReference(s) && s@ == msg,
            })))
        }),
{
    let sv = chars_of(source);
    let lines = split_chars(&sv, '\n');
    let mut out_lines: Vec<Vec<char>> = Vec::new();
    let ghost mut um: Seq<Seq<char>> = Seq::<Seq<char>>::empty();
    let ghost mut jm: Seq<JobSpec> = Seq::<JobSpec>::empty();
    let ghost target = inline_pass(source@, references@, head_num@);
    let mut i: usize = 0;
    proof {
        assert(views(out_lines@) =~= Seq::<Seq<char>>::empty());
        assert(InlineOut { lines: views(out_lines@), used: um, jobs: jm, fail: None }
            == inline_acc_empty());
        assert(str_views(used_fragments@) =~= str_views(used_fragments@) + um);
        assert(jobs@.take(jobs@.len() as int) =~= jobs@);
    }
    while i < lines.len()
        invariant
            0 <= i <= lines@.len(),
            lines.len() == lines@.len(),
            inline_fold(
                views(lines@),
                i as int,
                references@,
                head_num@,
                InlineOut { lines: views(out_lines@), used: um, jobs: jm, fail: None },
            ) == target,
            target == inline_pass(source@, references@, head_num@),
            str_views(used_fragments@) == str_views(old(used_fragments)@) + um,
            jobs_extended(old(jobs)@, jobs@, jm),
        decreases lines@.len() - i,
    {
        let ghost acc0 = InlineOut { lines: views(out_lines@), used: um, jobs: jm, fail: None };
        let ghost lview = views(lines@)[i as int];
        let ghost lo = line_scan(lview, references@, i as nat, head_num@);
        proof {
            assert(lview == lines@[i as int]@);
        }
        let segs = split_chars(&lines[i], '$');
        let ghost segviews = views(segs@);
        if segs.len() % 2 == 0 {
            proof {
                assert(lo.fail == Some(InlineFailure::Uneven));
                assert(lo.used =~= Seq::<Seq<char>>::empty());
                assert(lo.jobs =~= Seq::<JobSpec>::empty());
                let acc1 = InlineOut {
                    lines: acc0.lines,
                    used: acc0.used + lo.used,
                    jobs: acc0.jobs + lo.jobs,
                    fail: lo.fail,
                };
                assert(acc1.used =~= um);
                assert(acc1.jobs =~= jm);
                assert(target == inline_fold(views(lines@), i + 1, references@, head_num@, acc1));
                assert(target == acc1);
            }
            return Err(Error::UnevenNumberDollar);
        }
        let mut lout: Vec<char> = Vec::new();
        let ghost mut lum: Seq<Seq<char>> = Seq::<Seq<char>>::empty();
        let ghost mut ljm: Seq<JobSpec> = Seq::<JobSpec>::empty();
        let ghost ltarget = seg_fold(segviews, 0, references@, i as nat, head_num@,
            line_acc_empty());
        let mut j: usize = 0;
        proof {
            assert(lout@ =~= Seq::<char>::empty());
            assert(LineOut { out: lout@, used: lum, jobs: ljm, fail: None } == line_acc_empty());
            assert(lo == ltarget);
        }
        while j < segs.len()
            invariant
                0 <= j <= segs@.len(),
                segs.len() == segs@.len(),
                segviews == views(segs@),
                i < lines@.len() && lines.len() == lines@.len(),
                seg_fold(
                    segviews,
                    j as int,
                    references@,
                    i as nat,
                    head_num@,
                    LineOut { out: lout@, used: lum, jobs: ljm, fail: None },
                ) == ltarget,
                ltarget == seg_fold(segviews, 0, references@, i as nat, head_num@,
                    line_acc_empty()),
                lo == ltarget,
                lview == lines@[i as int]@,
                lo == line_scan(lview, references@, i as nat, head_num@),
                acc0 == (InlineOut { lines: views(out_lines@), used: um, jobs: jm, fail: None }),
                inline_fold(views(lines@), i as int, references@, head_num@, acc0) == target,
                target == inline_pass(source@, references@, head_num@),
                str_views(used_fragments@) == str_views(old(used_fragments)@) + um + lum,
                jobs_extended(old(jobs)@, jobs@, jm + ljm),
            decreases segs@.len() - j,
        {
            let ghost lacc = LineOut { out: lout@, used: lum, jobs: ljm, fail: None };
            let ghost segview = segviews[j as int];
            let ghost sres = seg_result(segview, j % 2 == 1, references@, i as nat, head_num@);
            proof {
                assert(segview == segs@[j as int]@);
            }
            let odd = j % 2 == 1;
            let parts = split_chars(&segs[j], ':');
            let is_ref = chars_have_prefix(&segs[j], "ref:") && parts.len() == 3;
            proof {
                assert(is_ref == is_ref_token(segview));
            }
            if !odd {
                let ghost pre = lout@;
                append_vec(&mut lout, &segs[j]);
                proof {
                    assert(sres == Ok::<SegOut, InlineFailure>(seg_plain(segview)));
                    assert(lout@ =~= pre + segview);
                    assert(lum + seg_plain(segview).used =~= lum);
                    assert(ljm + seg_plain(segview).jobs =~= ljm);
                }
            } else if is_ref {
                proof {
                    assert(views(parts@)[1] == split_on(segview, ':')[1]);
                    assert(views(parts@)[2] == split_on(segview, ':')[2]);
                }
                match resolve_ref(&parts[1], &parts[2], references, i) {
                    Ok(item) => {
                        let ghost pre = lout@;
                        append_vec(&mut lout, &item);
                        proof {
                            let so = sres->Ok_0;
                            assert(lout@ =~= pre + so.item);
                            assert(lum + so.used =~= lum);
                            assert(ljm + so.jobs =~= ljm);
                        }
                    },
                    Err(e) => {
                        proof {
                            let f = sres->Err_0;
                            assert(sres == Err::<SegOut, InlineFailure>(f));
                            assert(lo == LineOut { fail: Some(f), ..lacc });
                            let acc1 = InlineOut {
                                lines: acc0.lines,
                                used: acc0.used + lo.used,
                                jobs: acc0.jobs + lo.jobs,
                                fail: lo.fail,
                            };
                            assert(target == inline_fold(
                                views(lines@),
                                i + 1,
                                references@,
                                head_num@,
                                acc1,
                            ));
                            assert(target == acc1);
                            assert(target.used =~= um + lum);
                            assert(str_views(used_fragments@) =~= str_views(old(used_fragments)@)
                                + target.used);
                            assert(target.jobs =~= jm + ljm);
                        }
                        return Err(e);
                    },
                }
            } else {
                let seg_str = string_from_chars(&segs[j]);
                let (file, job) = parse_equation(seg_str.as_str(), 13);
                let mut item: Vec<char> = Vec::new();
                append_str(&mut item, "<object class=\"equation_inline\" data=\"assets/");
                append_str(&mut item, file.as_str());
                append_str(&mut item, "\" type=\"image/svg+xml\"></object>");
                proof {
                    assert(item@ =~= inline_object_markup(
                        artifact_name_of(BlockKind::Equation, segview),
                    ));
                }
                let ghost pre = lout@;
                let ghost pre_used = used_fragments@;
                let ghost pre_jobs = jobs@;
                append_vec(&mut lout, &item);
                used_fragments.push(file);
                jobs.push((head_num.to_owned(), job));
                proof {
                    let so = sres->Ok_0;
                    assert(lout@ =~= pre + so.item);
                    lum = lum.push(artifact_name_of(BlockKind::Equation, segview));
                    ljm = ljm.push(
                        JobSpec {
                            kind: BlockKind::Equation,
                            body: segview,
                            zoom: inline_zoom(),
                            head: head_num@,
                        },
                    );
                    assert(lacc.used + so.used =~= lum);
                    assert(lacc.jobs + so.jobs =~= ljm);
                    assert(str_views(used_fragments@) =~= str_views(pre_used).push(
                        artifact_name_of(BlockKind::Equation, segview),
                    ));
                    assert(str_views(used_fragments@) =~= str_views(old(used_fragments)@) + um
                        + lum);
                    assert(jobs@.take(old(jobs)@.len() as int) =~= old(jobs)@);
                    assert forall|k: int| 0 <= k < (jm + ljm).len() implies ((
                    #[trigger] jobs@[old(jobs)@.len() + k]).0@ == (jm + ljm)[k].head
                        && job_is_for(
                        jobs@[old(jobs)@.len() + k].1,
                        (jm + ljm)[k].kind,
                        (jm + ljm)[k].body,
                        (jm + ljm)[k].zoom,
                    )) by {
                        if k < (jm + ljm).len() - 1 {
                            assert(jobs@[old(jobs)@.len() + k] == jobs@.take(
                                pre_jobs.len() as int,
                            )[old(jobs)@.len() + k]);
                            assert(jobs@.take(pre_jobs.len() as int) == pre_jobs);
                        } else {
                            assert(jobs@[old(jobs)@.len() + k] == jobs@.last());
                        }
                    }
                }
            }
            j = j + 1;
        }
        let ghost pre_out = out_lines@;
        let ghost line_out = lout@;
        out_lines.push(lout);
        proof {
            assert(lo == (LineOut { out: line_out, used: lum, jobs: ljm, fail: None }));
            assert(views(out_lines@) =~= views(pre_out).push(lo.out));
            let acc1 = InlineOut {
                lines: acc0.lines.push(lo.out),
                used: acc0.used + lo.used,
                jobs: acc0.jobs + lo.jobs,
                fail: None,
            };
            assert(target == inline_fold(views(lines@), i + 1, references@, head_num@, acc1));
            um = um + lum;
            jm = jm + ljm;
            assert(acc1 == InlineOut { lines: views(out_lines@), used: um, jobs: jm, fail: None });
            assert(str_views(used_fragments@) =~= str_views(old(used_fragments)@) + um);
        }
        i = i + 1;
    }
    let joined = join_chars(&out_lines, '\n');
    proof {
        assert(views(lines@).len() as int == lines@.len());
        let m = inline_pass(source@, references@, head_num@);
        assert(m == InlineOut { lines: views(out_lines@), used: um, jobs: jm, fail: None });
    }
    Ok(string_from_chars(&joined))
}

} // verus!
