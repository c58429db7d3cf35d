//! The document orchestrator: two passes over the chapter list. The first
//! pass replaces blocks and populates the shared reference table; the second
//! resolves inline tokens against every label collected in the first, so
//! forward and cross-chapter references work. The first failure aborts the
//! run with its chapter's heading number.

use crate::error::Error;
use crate::fragments::RenderJob;
use crate::preprocess::{
    chapter_scan, inline_pass, jobs_extended, join_with_nl, replace_blocks, replace_inline_blocks,
    InlineFailure, JobSpec,
};
use crate::strmap::StrMap;
use crate::text::str_views;
use vstd::prelude::*;

verus! {

/// One chapter handed to the engine: its heading number as text (empty for
/// unnumbered chapters) and its source text.
pub struct DocChapter {
    /// The chapter's heading number, e.g. `2` or `3.1`.
    pub head_num: String,
    /// The chapter's source text.
    pub content: String,
}

/// The (heading, content) views of a chapter list.
pub open spec fn ch_views(chs: Seq<DocChapter>) -> Seq<(Seq<char>, Seq<char>)> {
    chs.map_values(|c: DocChapter| (c.head_num@, c.content@))
}

/// The heading views of a chapter list.
pub open spec fn heads_of(chs: Seq<DocChapter>) -> Seq<Seq<char>> {
    chs.map_values(|c: DocChapter| c.head_num@)
}

/// What the block pass over the whole document yields.
pub struct Pass1Out {
    /// Each chapter's text after block substitution.
    pub texts: Seq<Seq<char>>,
    /// Artifact filenames referenced, in order.
    pub used: Seq<Seq<char>>,
    /// Rendering obligations incurred, in order.
    pub jobs: Seq<JobSpec>,
    /// The reference table after all chapters.
    pub refs: Map<Seq<char>, Seq<char>>,
}

/// The block pass folded over the chapters, threading the reference table.
pub open spec fn pass1(
    chs: Seq<(Seq<char>, Seq<char>)>,
    j: int,
    assets: Map<Seq<char>, Seq<char>>,
    acc: Pass1Out,
) -> Pass1Out
    decreases chs.len() - j,
{
    if j < 0 || j >= chs.len() {
        acc
    } else {
        let m = chapter_scan(chs[j].1, assets, chs[j].0, acc.refs);
        pass1(
            chs,
            j + 1,
            assets,
            Pass1Out {
                texts: acc.texts.push(join_with_nl(m.items)),
                used: acc.used + m.used,
                jobs: acc.jobs + m.jobs,
                refs: m.refs,
            },
        )
    }
}

/// What the inline pass over the whole document yields.
pub struct Pass2Out {
    /// Each chapter's final text.
    pub texts: Seq<Seq<char>>,
    /// Artifact filenames referenced, in order.
    pub used: Seq<Seq<char>>,
    /// Rendering obligations incurred, in order.
    pub jobs: Seq<JobSpec>,
    /// The first failure: the failing chapter's index and its failure.
    pub fail: Option<(int, InlineFailure)>,
}

/// An empty inline-pass accumulator.
pub open spec fn pass2_empty() -> Pass2Out {
    Pass2Out {
        texts: Seq::<Seq<char>>::empty(),
        used: Seq::<Seq<char>>::empty(),
        jobs: Seq::<JobSpec>::empty(),
        fail: None,
    }
}

/// The inline pass folded over the block-substituted chapters, stopping at
/// the first failing chapter; its effects before the failure are kept. The
/// chapter headings tag each chapter's rendering obligations.
pub open spec fn pass2(
    texts: Seq<Seq<char>>,
    heads: Seq<Seq<char>>,
    j: int,
    refs: Map<Seq<char>, Seq<char>>,
    acc: Pass2Out,
) -> Pass2Out
    decreases texts.len() - j,
{
    if j < 0 || j >= texts.len() || acc.fail is Some {
        acc
    } else {
        let m = inline_pass(texts[j], refs, heads[j]);
        pass2(
            texts,
            heads,
            j + 1,
            refs,
            Pass2Out {
                texts: if m.fail is None {
                    acc.texts.push(join_with_nl(m.lines))
                } else {
                    acc.texts
                },
                used: acc.used + m.used,
                jobs: acc.jobs + m.jobs,
                fail: match m.fail {
                    Some(f) => Some((j, f)),
                    None => None,
                },
            },
        )
    }
}

/// Extending a job list twice extends it by the concatenation.
pub proof fn lemma_jobs_extended_trans(
    a: Seq<(String, RenderJob)>,
    b: Seq<(String, RenderJob)>,
    c: Seq<(String, RenderJob)>,
    x: Seq<JobSpec>,
    y: Seq<JobSpec>,
)
    requires
        jobs_extended(a, b, x),
        jobs_extended(b, c, y),
    ensures
        jobs_extended(a, c, x + y),
{
    assert(c.take(a.len() as int) =~= a) by {
        assert forall|k: int| 0 <= k < a.len() implies c.take(a.len() as int)[k] == a[k] by {
            assert(c[k] == c.take(b.len() as int)[k]);
            assert(b[k] == b.take(a.len() as int)[k]);
        }
    }
    assert forall|k: int| 0 <= k < (x + y).len() implies ((#[trigger] c[a.len() + k]).0@ == (x
        + y)[k].head && crate::fragments::job_is_for(
        c[a.len() + k].1,
        (x + y)[k].kind,
        (x + y)[k].body,
        (x + y)[k].zoom,
    )) by {
        if k < x.len() {
            assert(c[a.len() + k] == c.take(b.len() as int)[a.len() + k]);
            assert(b[a.len() + k].0@ == x[k].head && crate::fragments::job_is_for(
                b[a.len() + k].1,
                x[k].kind,
                x[k].body,
                x[k].zoom,
            ));
        } else {
            assert(c[b.len() + (k - x.len())] == c[a.len() + k]);
            assert(c[b.len() + (k - x.len())].0@ == y[k - x.len()].head
                && crate::fragments::job_is_for(
                c[b.len() + (k - x.len())].1,
                y[k - x.len()].kind,
                y[k - x.len()].body,
                y[k - x.len()].zoom,
            ));
        }
    }
}

/// Run both passes over the document: block substitution and label
/// collection first, then inline resolution with every label visible. On
/// success, the fully substituted chapter texts come back in order; on
/// failure, the failing chapter's heading number and error.
pub fn process_chapters(
    chapters: &Vec<DocChapter>,
    assets: &StrMap,
    references: &mut StrMap,
    used_fragments: &mut Vec<String>,
    jobs: &mut Vec<(String, RenderJob)>,
) -> (r: Result<Vec<String>, (String, Error)>)
    ensures
        ({
            let p1 = pass1(
                ch_views(chapters@),
                0,
                assets@,
                Pass1Out {
                    texts: Seq::<Seq<char>>::empty(),
                    used: Seq::<Seq<char>>::empty(),
                    jobs: Seq::<JobSpec>::empty(),
                    refs: old(references)@,
                },
            );
            let p2 = pass2(p1.texts, heads_of(chapters@), 0, p1.refs, pass2_empty());
            &&& final (references)@ == p1.refs
            &&& str_views(final (used_fragments)@) == str_views(old(used_fragments)@) + (p1.used
                + p2.used)
            &&& jobs_extended(old(jobs)@, final (jobs)@, p1.jobs + p2.jobs)
            &&& (r is Ok <==> p2.fail is None)
            &&& (r matches Ok(texts) ==> str_views(texts@) == p2.texts)
            &&& (r matches Err(he) ==> (p2.fail matches Some((ci, f)) && 0 <= ci
                < chapters@.len() && he.0@ == chapters@[ci].head_num@ && (match f {
                InlineFailure::Uneven => he.1 matches Error::UnevenNumberDollar,
                InlineFailure::BadRef(msg) => he.1 matches Error::InvalidReference(s) && s@ == msg,
            })))
        }),
{
    let ghost chs = ch_views(chapters@);
    let ghost p1_target = pass1(
        chs,
        0,
        assets@,
        Pass1Out {
            texts: Seq::<Seq<char>>::empty(),
            used: Seq::<Seq<char>>::empty(),
            jobs: Seq::<JobSpec>::empty(),
            refs: references@,
        },
    );
    let mut texts: Vec<String> = Vec::new();
    let ghost mut u1: Seq<Seq<char>> = Seq::<Seq<char>>::empty();
    let ghost mut j1: Seq<JobSpec> = Seq::<JobSpec>::empty();
    let mut i: usize = 0;
    proof {
        assert(str_views(texts@) =~= Seq::<Seq<char>>::empty());
        assert(str_views(used_fragments@) =~= str_views(used_fragments@) + u1);
        assert(jobs@.take(jobs@.len() as int) =~= jobs@);
    }
    while i < chapters.len()
        invariant
            0 <= i <= chapters@.len(),
            chapters.len() == chapters@.len(),
            texts@.len() == i as int,
            chs == ch_views(chapters@),
            pass1(
                chs,
                i as int,
                assets@,
                Pass1Out { texts: str_views(texts@), used: u1, jobs: j1, refs: references@ },
            ) == p1_target,
            p1_target == pass1(
                chs,
                0,
                assets@,
                Pass1Out {
                    texts: Seq::<Seq<char>>::empty(),
                    used: Seq::<Seq<char>>::empty(),
                    jobs: Seq::<JobSpec>::empty(),
                    refs: old(references)@,
                },
            ),
            str_views(used_fragments@) == str_views(old(used_fragments)@) + u1,
            jobs_extended(old(jobs)@, jobs@, j1),
        decreases chapters@.len() - i,
    {
        let ghost acc0 = Pass1Out {
            texts: str_views(texts@),
            used: u1,
            jobs: j1,
            refs: references@,
        };
        let ghost pre_jobs = jobs@;
        let ghost m = chapter_scan(
            chapters@[i as int].content@,
            assets@,
            chapters@[i as int].head_num@,
            references@,
        );
        proof {
            assert(chs[i as int] == (chapters@[i as int].head_num@, chapters@[i as int].content@));
        }
        let text = replace_blocks(
            chapters[i].content.as_str(),
            chapters[i].head_num.as_str(),
            assets,
            used_fragments,
            references,
            jobs,
        );
        let ghost pre_texts = texts@;
        texts.push(text);
        proof {
            assert(str_views(texts@) =~= str_views(pre_texts).push(join_with_nl(m.items)));
            lemma_jobs_extended_trans(old(jobs)@, pre_jobs, jobs@, j1, m.jobs);
            u1 = u1 + m.used;
            j1 = j1 + m.jobs;
            assert(str_views(used_fragments@) =~= str_views(old(used_fragments)@) + u1);
            let acc1 = Pass1Out {
                texts: acc0.texts.push(join_with_nl(m.items)),
                used: acc0.used + m.used,
                jobs: acc0.jobs + m.jobs,
                refs: m.refs,
            };
            assert(acc1 == (Pass1Out {
                texts: str_views(texts@),
                used: u1,
                jobs: j1,
                refs: references@,
            }));
            assert(pass1(chs, i + 1, assets@, acc1) == p1_target);
        }
        i = i + 1;
    }
    proof {
        assert(p1_target == (Pass1Out {
            texts: str_views(texts@),
            used: u1,
            jobs: j1,
            refs: references@,
        }));
    }
    // Second pass: inline resolution over the substituted texts.
    let ghost p2_target = pass2(p1_target.texts, heads_of(chapters@), 0, references@,
        pass2_empty());
    let mut out: Vec<String> = Vec::new();
    let ghost mut u2: Seq<Seq<char>> = Seq::<Seq<char>>::empty();
    let ghost mut j2: Seq<JobSpec> = Seq::<JobSpec>::empty();
    let mut k: usize = 0;
    proof {
        assert(str_views(out@) =~= Seq::<Seq<char>>::empty());
        assert(u1 + u2 =~= u1);
        assert(j1 + j2 =~= j1);
        assert(jobs_extended(old(jobs)@, jobs@, j1 + j2));
        assert(str_views(used_fragments@) =~= str_views(old(used_fragments)@) + (u1 + u2));
    }
    while k < texts.len()
        invariant
            0 <= k <= texts@.len(),
            texts.len() == texts@.len(),
            chapters.len() == chapters@.len(),
            texts@.len() == chapters@.len(),
            chs == ch_views(chapters@),
            p1_target == pass1(
                chs,
                0,
                assets@,
                Pass1Out {
                    texts: Seq::<Seq<char>>::empty(),
                    used: Seq::<Seq<char>>::empty(),
                    jobs: Seq::<JobSpec>::empty(),
                    refs: old(references)@,
                },
            ),
            p1_target.texts == str_views(texts@),
            p1_target.refs == references@,
            p1_target.used == u1,
            p1_target.jobs == j1,
            p2_target == pass2(p1_target.texts, heads_of(chapters@), 0, references@,
                pass2_empty()),
            pass2(
                str_views(texts@),
                heads_of(chapters@),
                k as int,
                references@,
                Pass2Out { texts: str_views(out@), used: u2, jobs: j2, fail: None },
            ) == p2_target,
            str_views(used_fragments@) == str_views(old(used_fragments)@) + (u1 + u2),
            jobs_extended(old(jobs)@, jobs@, j1 + j2),
        decreases texts@.len() - k,
    {
        let ghost acc0 = Pass2Out { texts: str_views(out@), used: u2, jobs: j2, fail: None };
        let ghost pre_jobs = jobs@;
        let ghost m = inline_pass(texts@[k as int]@, references@, chapters@[k as int].head_num@);
        match replace_inline_blocks(
            texts[k].as_str(),
            chapters[k].head_num.as_str(),
            references,
            used_fragments,
            jobs,
        ) {
            Ok(text) => {
                let ghost pre_out = out@;
                out.push(text);
                proof {
                    assert(m.fail is None);
                    assert(str_views(out@) =~= str_views(pre_out).push(join_with_nl(m.lines)));
                    lemma_jobs_extended_trans(old(jobs)@, pre_jobs, jobs@, j1 + j2, m.jobs);
                    let acc1 = Pass2Out {
                        texts: acc0.texts.push(join_with_nl(m.lines)),
                        used: acc0.used + m.used,
                        jobs: acc0.jobs + m.jobs,
                        fail: None,
                    };
                    assert(heads_of(chapters@)[k as int] == chapters@[k as int].head_num@);
                    assert(pass2(str_views(texts@), heads_of(chapters@), k + 1, references@, acc1)
                        == p2_target);
                    u2 = u2 + m.used;
                    j2 = j2 + m.jobs;
                    assert(acc1 == (Pass2Out {
                        texts: str_views(out@),
                        used: u2,
                        jobs: j2,
                        fail: None,
                    }));
                    assert(u1 + u2 =~= (u1 + acc0.used) + m.used);
                    assert(str_views(used_fragments@) =~= str_views(old(used_fragments)@) + (u1
                        + u2));
                    assert(j1 + j2 =~= (j1 + acc0.jobs) + m.jobs);
                }
            },
            Err(e) => {
                proof {
                    assert(m.fail is Some);
                }
                let head = chapters[k].head_num.clone();
                proof {
                    let f = m.fail->Some_0;
                    let acc1 = Pass2Out {
                        texts: acc0.texts,
                        used: acc0.used + m.used,
                        jobs: acc0.jobs + m.jobs,
                        fail: Some((k as int, f)),
                    };
                    assert(str_views(texts@)[k as int] == texts@[k as int]@);
                    assert(heads_of(chapters@)[k as int] == chapters@[k as int].head_num@);
                    assert(pass2(str_views(texts@), heads_of(chapters@), k + 1, references@, acc1)
                        == p2_target);
                    assert(p2_target == acc1);
                    lemma_jobs_extended_trans(old(jobs)@, pre_jobs, jobs@, j1 + j2, m.jobs);
                    assert(str_views(used_fragments@) =~= str_views(old(used_fragments)@) + ((u1
                        + u2) + m.used));
                    assert(p1_target.used + p2_target.used =~= (u1 + u2) + m.used);
                    assert(str_views(used_fragments@) =~= str_views(old(used_fragments)@) + (
                    p1_target.used + p2_target.used));
                    assert(p1_target.jobs + p2_target.jobs =~= (j1 + j2) + m.jobs);
                }
                return Err((head, e));
            },
        }
        k = k + 1;
    }
    proof {
        assert(p2_target == (Pass2Out {
            texts: str_views(out@),
            used: u2,
            jobs: j2,
            fail: None,
        }));
        assert(p1_target.used + p2_target.used =~= u1 + u2);
        assert(p1_target.jobs + p2_target.jobs =~= j1 + j2);
    }
    Ok(out)
}

} // verus!
