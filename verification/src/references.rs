//! Bibliography citation seeding: citation keys are bound to sequential
//! `[n]` markers in the reference table before the document passes begin.

use crate::error::Error;
use crate::strmap::StrMap;
use crate::text::{dec_digits, push_dec, str_views, string_from_chars};
use vstd::prelude::*;

verus! {

/// What parsing a BibTeX source yields: its entries' citation keys in order
/// of appearance, or nothing when the source does not parse. Both the
/// outcome and the keys are a pure function of the source text; the parse
/// itself is done by the `nom-bibtex` crate.
pub uninterp spec fn bib_parse_of(src: Seq<char>) -> Option<Seq<Seq<char>>>;

/// Relies on `nom_bibtex::Bibtex::raw_parse`: a successful parse yields the
/// source's entries in order, bibliography entries carrying their citation
/// key; whether it succeeds, and which keys come back, depend on the source
/// text alone. The raw entry list is used rather than the variable-expanding
/// parse, which can recurse without bound on self-referential abbreviations.
#[verifier::external_body]
fn parse_citation_keys(src: &str) -> (r: Result<Vec<String>, String>)
    ensures
        r is Ok <==> bib_parse_of(src@) is Some,
        r matches Ok(keys) ==> bib_parse_of(src@) == Some(str_views(keys@)),
{
    match nom_bibtex::Bibtex::raw_parse(src) {
        Ok(entries) => Ok(
            entries
                .into_iter()
                .filter_map(|entry| match entry {
                    nom_bibtex::Entry::Bibliography(_, citation_key, _) => Some(citation_key),
                    _ => None,
                })
                .collect(),
        ),
        Err(e) => Err(format!("{}", e)),
    }
}

/// The display marker of the `n`-th citation (1-based): `[n]`.
pub open spec fn cite_marker(n: nat) -> Seq<char> {
    seq!['['] + dec_digits(n) + seq![']']
}

/// `table` after binding each key, in order, to its sequential marker,
/// starting at `[next]`.
pub open spec fn seeded(
    table: Map<Seq<char>, Seq<char>>,
    keys: Seq<Seq<char>>,
    next: nat,
) -> Map<Seq<char>, Seq<char>>
    decreases keys.len(),
{
    if keys.len() == 0 {
        table
    } else {
        seeded(table.insert(keys[0], cite_marker(next)), keys.drop_first(), next + 1)
    }
}

/// Bind each citation key, in order, to its marker `[1]`, `[2]`, ...
pub fn seed_citations(keys: &Vec<String>, table: &mut StrMap)
    ensures
        final (table)@ == seeded(old(table)@, str_views(keys@), 1),
{
    let mut i: usize = 0;
    proof {
        assert(str_views(keys@).skip(0) =~= str_views(keys@));
    }
    while i < keys.len()
        invariant
            0 <= i <= keys@.len(),
            keys.len() == keys@.len(),
            seeded(table@, str_views(keys@).skip(i as int), (i + 1) as nat) == seeded(
                old(table)@,
                str_views(keys@),
                1,
            ),
        decreases keys@.len() - i,
    {
        let ghost rest = str_views(keys@).skip(i as int);
        let mut marker: Vec<char> = Vec::new();
        marker.push('[');
        push_dec(&mut marker, i + 1);
        marker.push(']');
        proof {
            assert(marker@ =~= cite_marker((i + 1) as nat));
            assert(rest[0] == keys@[i as int]@);
            assert(rest.drop_first() =~= str_views(keys@).skip(i + 1));
        }
        table.insert(keys[i].clone(), string_from_chars(&marker));
        i = i + 1;
    }
    proof {
        assert(str_views(keys@).skip(keys@.len() as int) =~= Seq::<Seq<char>>::empty());
    }
}

/// Parse a BibTeX source and seed its citation keys into the table. The run
/// succeeds exactly when the source parses; on a parse failure the table is
/// left untouched and the converter's complaint is reported as a
/// bibliography error.
pub fn seed_bibliography(src: &str, table: &mut StrMap) -> (r: Result<usize, Error>)
    ensures
        r is Ok <==> bib_parse_of(src@) is Some,
        r matches Ok(n) ==> final (table)@ == seeded(old(table)@, bib_parse_of(src@)->Some_0, 1)
            && n == bib_parse_of(src@)->Some_0.len(),
        r is Err ==> final (table)@ == old(table)@,
        r matches Err(e) ==> e matches Error::InvalidBibliography(_),
{
    match parse_citation_keys(src) {
        Ok(keys) => {
            let n = keys.len();
            seed_citations(&keys, table);
            Ok(n)
        },
        Err(m) => Err(Error::InvalidBibliography(m)),
    }
}

} // verus!
