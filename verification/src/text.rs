//! Character-sequence utilities: searching, splitting, joining, trimming,
//! and decimal formatting. Everything here is ordinary text manipulation,
//! specified over `Seq<char>`.

use vstd::prelude::*;

verus! {

/// Index of the first occurrence of `d` in `s`, or `s.len()` if absent.
pub open spec fn find_ch(s: Seq<char>, d: char) -> int
    decreases s.len(),
{
    if s.len() == 0 {
        0
    } else if s[0] == d {
        0
    } else {
        1 + find_ch(s.drop_first(), d)
    }
}

pub proof fn lemma_find_ch(s: Seq<char>, d: char)
    ensures
        0 <= find_ch(s, d) <= s.len(),
        forall|k: int| 0 <= k < find_ch(s, d) ==> s[k] != d,
        find_ch(s, d) < s.len() ==> s[find_ch(s, d)] == d,
    decreases s.len(),
{
    if s.len() == 0 {
    } else if s[0] == d {
    } else {
        lemma_find_ch(s.drop_first(), d);
        assert forall|k: int| 0 <= k < find_ch(s, d) implies s[k] != d by {
            if k > 0 {
                assert(s.drop_first()[k - 1] != d);
            }
        }
    }
}

/// The first index meeting `find_ch`'s characterization is `find_ch` itself.
pub proof fn lemma_find_ch_is(s: Seq<char>, d: char, j: int)
    requires
        0 <= j <= s.len(),
        forall|k: int| 0 <= k < j ==> s[k] != d,
        j < s.len() ==> s[j] == d,
    ensures
        find_ch(s, d) == j,
    decreases s.len(),
{
    if s.len() == 0 {
    } else if s[0] == d {
        assert(j == 0);
    } else {
        assert(s[0] != d);
        assert(j >= 1);
        assert forall|k: int| 0 <= k < j - 1 implies s.drop_first()[k] != d by {
            assert(s[k + 1] != d);
        }
        lemma_find_ch_is(s.drop_first(), d, j - 1);
    }
}

/// First index of `d` in `v` at or after `from`, or `v.len()` if absent.
pub fn find_from(v: &Vec<char>, d: char, from: usize) -> (r: usize)
    requires
        from <= v@.len(),
    ensures
        r == from + find_ch(v@.skip(from as int), d),
{
    let mut j: usize = from;
    while j < v.len()
        invariant
            from <= j <= v@.len(),
            forall|k: int| from <= k < j ==> v@[k] != d,
        decreases v@.len() - j,
    {
        if v[j] == d {
            proof {
                assert forall|k: int| 0 <= k < j - from implies v@.skip(from as int)[k] != d by {
                    assert(v@[from + k] != d);
                }
                lemma_find_ch_is(v@.skip(from as int), d, j - from);
            }
            return j;
        }
        j = j + 1;
    }
    proof {
        assert forall|k: int| 0 <= k < v@.len() - from implies v@.skip(from as int)[k] != d by {
            assert(v@[from + k] != d);
        }
        lemma_find_ch_is(v@.skip(from as int), d, v@.len() - from);
    }
    j
}

/// Splitting `s` on the delimiter `d`: the list of segments between
/// occurrences of `d`. Always non-empty; `split_on("", d) == [""]`.
pub open spec fn split_on(s: Seq<char>, d: char) -> Seq<Seq<char>>
    decreases s.len(),
{
    if s.len() == 0 {
        seq![Seq::<char>::empty()]
    } else if s[0] == d {
        seq![Seq::<char>::empty()] + split_on(s.drop_first(), d)
    } else {
        let r = split_on(s.drop_first(), d);
        seq![seq![s[0]] + r.first()] + r.drop_first()
    }
}

pub proof fn lemma_split_on_len(s: Seq<char>, d: char)
    ensures
        split_on(s, d).len() >= 1,
    decreases s.len(),
{
    if s.len() == 0 {
    } else {
        lemma_split_on_len(s.drop_first(), d);
    }
}

/// `split_on` unfolds segment-wise: the first segment runs to the first
/// occurrence of the delimiter, and the rest is the split of the remainder.
pub proof fn lemma_split_on_first(s: Seq<char>, d: char)
    ensures
        split_on(s, d).len() >= 1,
        find_ch(s, d) == s.len() ==> split_on(s, d) == seq![s],
        find_ch(s, d) < s.len() ==> split_on(s, d) == seq![s.take(find_ch(s, d))] + split_on(
            s.skip(find_ch(s, d) + 1),
            d,
        ),
    decreases s.len(),
{
    lemma_split_on_len(s, d);
    lemma_find_ch(s, d);
    if s.len() == 0 {
        assert(s =~= Seq::<char>::empty());
        assert(split_on(s, d) =~= seq![s]);
    } else if s[0] == d {
        assert(find_ch(s, d) == 0);
        assert(s.take(0) =~= Seq::<char>::empty());
        assert(s.skip(1) =~= s.drop_first());
        assert(split_on(s, d) =~= seq![s.take(0)] + split_on(s.skip(1), d));
    } else {
        let t = s.drop_first();
        lemma_split_on_first(t, d);
        lemma_split_on_len(t, d);
        let i = find_ch(s, d);
        assert(i == 1 + find_ch(t, d));
        if find_ch(t, d) == t.len() {
            assert(i == s.len());
            assert(split_on(t, d) == seq![t]);
            assert(split_on(s, d) =~= seq![seq![s[0]] + t]);
            assert(seq![s[0]] + t =~= s);
        } else {
            let j = find_ch(t, d);
            assert(split_on(t, d) == seq![t.take(j)] + split_on(t.skip(j + 1), d));
            lemma_split_on_len(t.skip(j + 1), d);
            assert(split_on(t, d).first() == t.take(j));
            assert(seq![s[0]] + t.take(j) =~= s.take(i));
            assert(t.skip(j + 1) =~= s.skip(i + 1));
            assert(split_on(s, d) =~= seq![s.take(i)] + split_on(s.skip(i + 1), d));
        }
    }
}


/// Joining segments with a single delimiter character between them.
pub open spec fn join_with(parts: Seq<Seq<char>>, d: char) -> Seq<char>
    decreases parts.len(),
{
    if parts.len() == 0 {
        Seq::<char>::empty()
    } else if parts.len() == 1 {
        parts[0]
    } else {
        parts[0] + seq![d] + join_with(parts.drop_first(), d)
    }
}

/// Joining the segments of a split restores the original text.
pub proof fn lemma_join_split(s: Seq<char>, d: char)
    ensures
        join_with(split_on(s, d), d) == s,
    decreases s.len(),
{
    lemma_split_on_len(s, d);
    if s.len() == 0 {
        assert(join_with(split_on(s, d), d) =~= s);
    } else if s[0] == d {
        let t = s.drop_first();
        lemma_join_split(t, d);
        lemma_split_on_len(t, d);
        assert((seq![Seq::<char>::empty()] + split_on(t, d)).drop_first() =~= split_on(t, d));
        assert(join_with(split_on(s, d), d) =~= Seq::<char>::empty() + seq![d] + join_with(
            split_on(t, d),
            d,
        ));
        assert(Seq::<char>::empty() + seq![d] + t =~= s);
    } else {
        let t = s.drop_first();
        lemma_join_split(t, d);
        lemma_split_on_len(t, d);
        let r = split_on(t, d);
        if r.len() == 1 {
            assert(split_on(s, d) =~= seq![seq![s[0]] + r.first()]);
            assert(join_with(split_on(s, d), d) == seq![s[0]] + r.first());
            assert(join_with(r, d) == r.first());
            assert(seq![s[0]] + t =~= s);
        } else {
            let parts = split_on(s, d);
            assert(parts.len() == r.len() >= 2);
            assert(parts[0] == seq![s[0]] + r.first());
            assert(parts.drop_first() =~= r.drop_first());
            assert(join_with(parts, d) == parts[0] + seq![d] + join_with(r.drop_first(), d));
            assert(join_with(r, d) == r[0] + seq![d] + join_with(r.drop_first(), d));
            assert(parts[0] + seq![d] + join_with(r.drop_first(), d) =~= seq![s[0]] + (r[0]
                + seq![d] + join_with(r.drop_first(), d)));
            assert(seq![s[0]] + t =~= s);
        }
    }
}

/// The views of a list of character vectors.
pub open spec fn views(vs: Seq<Vec<char>>) -> Seq<Seq<char>> {
    vs.map_values(|v: Vec<char>| v@)
}

/// Copy of `v[from..to]`.
pub fn subvec(v: &Vec<char>, from: usize, to: usize) -> (r: Vec<char>)
    requires
        from <= to <= v@.len(),
    ensures
        r@ == v@.subrange(from as int, to as int),
{
    let mut r: Vec<char> = Vec::new();
    let mut i: usize = from;
    while i < to
        invariant
            from <= i <= to <= v@.len(),
            r@ == v@.subrange(from as int, i as int),
        decreases to - i,
    {
        r.push(v[i]);
        proof {
            assert(v@.subrange(from as int, (i + 1) as int) =~= v@.subrange(from as int, i as int)
                + seq![v@[i as int]]);
        }
        i = i + 1;
    }
    r
}

/// Split `v` on the delimiter `d`.
pub fn split_chars(v: &Vec<char>, d: char) -> (r: Vec<Vec<char>>)
    ensures
        views(r@) == split_on(v@, d),
        r@.len() >= 1,
{
    let mut r: Vec<Vec<char>> = Vec::new();
    let mut p: usize = 0;
    proof {
        assert(views(r@) =~= Seq::<Seq<char>>::empty());
        assert(v@.skip(0) =~= v@);
        assert(views(r@) + split_on(v@, d) =~= split_on(v@, d));
    }
    loop
        invariant
            p <= v@.len(),
            split_on(v@, d) == views(r@) + split_on(v@.skip(p as int), d),
        decreases v@.len() - p,
    {
        let j = find_from(v, d, p);
        proof {
            lemma_find_ch(v@.skip(p as int), d);
        }
        let seg = subvec(v, p, j);
        proof {
            lemma_split_on_first(v@.skip(p as int), d);
            lemma_split_on_len(v@.skip(p as int), d);
        }
        r.push(seg);
        if j == v.len() {
            proof {
                let rest = v@.skip(p as int);
                assert(find_ch(rest, d) == rest.len());
                assert(split_on(rest, d) == seq![rest]);
                assert(seg@ =~= rest);
                assert(views(r@) =~= views(r@.drop_last()) + seq![rest]);
                assert(views(r@) =~= split_on(v@, d));
                lemma_split_on_len(v@, d);
            }
            return r;
        }
        proof {
            let rest = v@.skip(p as int);
            let i = find_ch(rest, d);
            assert(i == j - p);
            assert(i < rest.len());
            assert(split_on(rest, d) == seq![rest.take(i)] + split_on(rest.skip(i + 1), d));
            assert(seg@ =~= rest.take(i));
            assert(rest.skip(i + 1) =~= v@.skip((j + 1) as int));
            assert(views(r@) =~= views(r@.drop_last()) + seq![seg@]);
            assert(views(r@) + split_on(v@.skip((j + 1) as int), d) =~= split_on(v@, d));
        }
        p = j + 1;
    }
}

/// Join `parts` with the delimiter `d` between consecutive parts.
pub fn join_chars(parts: &Vec<Vec<char>>, d: char) -> (r: Vec<char>)
    ensures
        r@ == join_with(views(parts@), d),
{
    let mut r: Vec<char> = Vec::new();
    if parts.len() == 0 {
        proof {
            assert(r@ =~= join_with(views(parts@), d));
        }
        return r;
    }
    let mut i: usize = 0;
    proof {
        assert(views(parts@).skip(0) =~= views(parts@));
        assert(r@ + join_with(views(parts@), d) =~= join_with(views(parts@), d));
    }
    while i < parts.len()
        invariant
            0 <= i <= parts@.len(),
            parts@.len() >= 1,
            r@ + join_with(views(parts@).skip(i as int), d) == join_with(views(parts@), d),
        decreases parts@.len() - i,
    {
        proof {
            let vs = views(parts@).skip(i as int);
            assert(vs.len() >= 1);
            if vs.len() == 1 {
                assert(join_with(vs, d) == vs[0]);
            } else {
                assert(join_with(vs, d) == vs[0] + seq![d] + join_with(vs.drop_first(), d));
                assert(vs.drop_first() =~= views(parts@).skip(i + 1));
            }
            assert(vs[0] == parts@[i as int]@);
        }
        append_vec(&mut r, &parts[i]);
        if i + 1 < parts.len() {
            r.push(d);
        }
        i = i + 1;
        proof {
            if i < parts@.len() {
                assert(r@ + join_with(views(parts@).skip(i as int), d) =~= join_with(
                    views(parts@),
                    d,
                ));
            } else {
                assert(views(parts@).skip(i as int) =~= Seq::<Seq<char>>::empty());
                assert(r@ + join_with(views(parts@).skip(i as int), d) =~= r@);
            }
        }
    }
    proof {
        assert(views(parts@).skip(parts@.len() as int) =~= Seq::<Seq<char>>::empty());
        assert(r@ + join_with(views(parts@).skip(parts@.len() as int), d) =~= r@);
    }
    r
}

/// Append all of `other` to `out`.
pub fn append_vec(out: &mut Vec<char>, other: &Vec<char>)
    ensures
        final (out)@ == old(out)@ + other@,
{
    let mut i: usize = 0;
    while i < other.len()
        invariant
            0 <= i <= other@.len(),
            out@ == old(out)@ + other@.take(i as int),
        decreases other@.len() - i,
    {
        out.push(other[i]);
        proof {
            assert(old(out)@ + other@.take((i + 1) as int) =~= (old(out)@ + other@.take(i as int))
                + seq![other@[i as int]]);
        }
        i = i + 1;
    }
    proof {
        assert(other@.take(other@.len() as int) =~= other@);
    }
}

/// Append the characters of `s` to `out`.
pub fn append_str(out: &mut Vec<char>, s: &str)
    ensures
        final (out)@ == old(out)@ + s@,
{
    let n = s.unicode_len();
    let mut i: usize = 0;
    while i < n
        invariant
            0 <= i <= n == s@.len(),
            out@ == old(out)@ + s@.take(i as int),
        decreases n - i,
    {
        let c = s.get_char(i);
        out.push(c);
        proof {
            assert(old(out)@ + s@.take((i + 1) as int) =~= (old(out)@ + s@.take(i as int)) + seq![
                s@[i as int],
            ]);
        }
        i = i + 1;
    }
    proof {
        assert(s@.take(s@.len() as int) =~= s@);
    }
}

/// The characters of `s` as a vector.
pub fn chars_of(s: &str) -> (r: Vec<char>)
    ensures
        r@ == s@,
{
    let mut r: Vec<char> = Vec::new();
    append_str(&mut r, s);
    proof {
        assert(Seq::<char>::empty() + s@ =~= s@);
    }
    r
}

/// Whitespace, as stripped from the edges of scanned lines. This is a
/// deliberate choice of the ASCII whitespace characters only: a non-ASCII
/// space does not count, so it neither hides nor reveals a delimiter. The
/// markup this library scans uses ASCII around its delimiters.
pub open spec fn is_ws(c: char) -> bool {
    c == ' ' || c == '\t' || c == '\r' || c == '\n' || c == '\u{b}' || c == '\u{c}'
}

/// Number of leading whitespace characters.
pub open spec fn ws_prefix(s: Seq<char>) -> int
    decreases s.len(),
{
    if s.len() == 0 {
        0
    } else if is_ws(s[0]) {
        1 + ws_prefix(s.drop_first())
    } else {
        0
    }
}

/// Length of `s` once trailing whitespace is stripped.
pub open spec fn ws_end(s: Seq<char>) -> int
    decreases s.len(),
{
    if s.len() == 0 {
        0
    } else if is_ws(s.last()) {
        ws_end(s.drop_last())
    } else {
        s.len() as int
    }
}

/// `s` with leading and trailing whitespace stripped.
pub open spec fn trim_ws(s: Seq<char>) -> Seq<char> {
    if ws_prefix(s) <= ws_end(s) {
        s.subrange(ws_prefix(s), ws_end(s))
    } else {
        Seq::<char>::empty()
    }
}

pub proof fn lemma_ws_prefix(s: Seq<char>)
    ensures
        0 <= ws_prefix(s) <= s.len(),
        forall|k: int| 0 <= k < ws_prefix(s) ==> is_ws(s[k]),
        ws_prefix(s) < s.len() ==> !is_ws(s[ws_prefix(s)]),
    decreases s.len(),
{
    if s.len() == 0 {
    } else if is_ws(s[0]) {
        lemma_ws_prefix(s.drop_first());
        assert forall|k: int| 0 <= k < ws_prefix(s) implies is_ws(s[k]) by {
            if k > 0 {
                assert(is_ws(s.drop_first()[k - 1]));
            }
        }
    } else {
    }
}

pub proof fn lemma_ws_prefix_is(s: Seq<char>, a: int)
    requires
        0 <= a <= s.len(),
        forall|k: int| 0 <= k < a ==> is_ws(s[k]),
        a < s.len() ==> !is_ws(s[a]),
    ensures
        ws_prefix(s) == a,
    decreases s.len(),
{
    if s.len() == 0 {
    } else if a == 0 {
        if is_ws(s[0]) {
            lemma_ws_prefix(s);
        }
    } else {
        assert(is_ws(s[0]));
        assert forall|k: int| 0 <= k < a - 1 implies is_ws(s.drop_first()[k]) by {
            assert(is_ws(s[k + 1]));
        }
        lemma_ws_prefix_is(s.drop_first(), a - 1);
    }
}

pub proof fn lemma_ws_end(s: Seq<char>)
    ensures
        0 <= ws_end(s) <= s.len(),
        forall|k: int| ws_end(s) <= k < s.len() ==> is_ws(s[k]),
        ws_end(s) > 0 ==> !is_ws(s[ws_end(s) - 1]),
    decreases s.len(),
{
    if s.len() == 0 {
    } else if is_ws(s.last()) {
        lemma_ws_end(s.drop_last());
        assert forall|k: int| ws_end(s) <= k < s.len() implies is_ws(s[k]) by {
            if k < s.len() - 1 {
                assert(is_ws(s.drop_last()[k]));
            }
        }
    } else {
    }
}

pub proof fn lemma_ws_end_is(s: Seq<char>, b: int)
    requires
        0 <= b <= s.len(),
        forall|k: int| b <= k < s.len() ==> is_ws(s[k]),
        b > 0 ==> !is_ws(s[b - 1]),
    ensures
        ws_end(s) == b,
    decreases s.len(),
{
    if s.len() == 0 {
    } else if b == s.len() {
        assert(!is_ws(s.last()));
    } else {
        assert(is_ws(s.last()));
        assert forall|k: int| b <= k < s.len() - 1 implies is_ws(s.drop_last()[k]) by {
            assert(is_ws(s[k]));
        }
        lemma_ws_end_is(s.drop_last(), b);
    }
}

/// Strip leading and trailing whitespace from `v`.
pub fn trim_chars(v: &Vec<char>) -> (r: Vec<char>)
    ensures
        r@ == trim_ws(v@),
{
    let mut a: usize = 0;
    while a < v.len() && is_ws_exec(v[a])
        invariant
            0 <= a <= v@.len(),
            forall|k: int| 0 <= k < a ==> is_ws(v@[k]),
        decreases v@.len() - a,
    {
        a = a + 1;
    }
    proof {
        lemma_ws_prefix_is(v@, a as int);
    }
    if a == v.len() {
        proof {
            lemma_ws_end(v@);
            if ws_end(v@) > 0 {
                assert(is_ws(v@[ws_end(v@) - 1]));
                assert(false);
            }
            if ws_prefix(v@) <= ws_end(v@) {
                assert(v@.subrange(ws_prefix(v@), ws_end(v@)) =~= Seq::<char>::empty());
            }
        }
        return Vec::new();
    }
    let mut b: usize = v.len();
    while b > 0 && is_ws_exec(v[b - 1])
        invariant
            0 <= b <= v@.len(),
            forall|k: int| b <= k < v@.len() ==> is_ws(v@[k]),
        decreases b,
    {
        b = b - 1;
    }
    proof {
        lemma_ws_end_is(v@, b as int);
        assert(!is_ws(v@[a as int]));
        if b <= a {
            assert(is_ws(v@[a as int]));
            assert(false);
        }
    }
    subvec(v, a, b)
}

/// Executable whitespace test.
pub fn is_ws_exec(c: char) -> (r: bool)
    ensures
        r == is_ws(c),
{
    c == ' ' || c == '\t' || c == '\r' || c == '\n' || c == '\u{b}' || c == '\u{c}'
}

/// Whether `p` is a prefix of `s`.
pub open spec fn has_prefix(s: Seq<char>, p: Seq<char>) -> bool {
    p.len() <= s.len() && s.take(p.len() as int) == p
}


/// Whether the characters of `s` start with those of `p`.
pub fn chars_have_prefix(v: &Vec<char>, p: &str) -> (r: bool)
    ensures
        r == has_prefix(v@, p@),
{
    let n = p.unicode_len();
    if v.len() < n {
        return false;
    }
    let mut i: usize = 0;
    while i < n
        invariant
            0 <= i <= n == p@.len() <= v@.len(),
            forall|k: int| 0 <= k < i ==> v@[k] == p@[k],
        decreases n - i,
    {
        if v[i] != p.get_char(i) {
            proof {
                assert(v@.take(p@.len() as int)[i as int] != p@[i as int]);
            }
            return false;
        }
        i = i + 1;
    }
    proof {
        assert(v@.take(p@.len() as int) =~= p@);
    }
    true
}


/// Whether `v` holds exactly the characters of `s`.
pub fn chars_eq_str(v: &Vec<char>, s: &str) -> (r: bool)
    ensures
        r == (v@ == s@),
{
    let n = s.unicode_len();
    if v.len() != n {
        return false;
    }
    let mut i: usize = 0;
    while i < n
        invariant
            0 <= i <= n == s@.len() == v@.len(),
            forall|k: int| 0 <= k < i ==> v@[k] == s@[k],
        decreases n - i,
    {
        if v[i] != s.get_char(i) {
            return false;
        }
        i = i + 1;
    }
    proof {
        assert(v@ =~= s@);
    }
    true
}

/// Whether `p` occurs in `s` starting at index `i`.
pub open spec fn occurs_at(s: Seq<char>, p: Seq<char>, i: int) -> bool {
    0 <= i && i + p.len() <= s.len() && s.subrange(i, i + p.len()) == p
}

/// Whether `p` occurs anywhere in `s`.
pub open spec fn contains_sub(s: Seq<char>, p: Seq<char>) -> bool {
    exists|i: int| occurs_at(s, p, i)
}

/// Whether the characters of `p` occur as a contiguous run in `v`.
pub fn chars_contain_str(v: &Vec<char>, p: &str) -> (r: bool)
    requires
        p@.len() >= 1,
    ensures
        r == contains_sub(v@, p@),
{
    let n = p.unicode_len();
    if v.len() < n {
        proof {
            assert(forall|i: int| !occurs_at(v@, p@, i));
        }
        return false;
    }
    let last = v.len() - n;
    let mut i: usize = 0;
    loop
        invariant
            0 <= i <= last + 1,
            v.len() == v@.len(),
            last + n == v@.len(),
            n == p@.len(),
            n >= 1,
            forall|j: int| 0 <= j < i ==> !occurs_at(v@, p@, j),
        decreases last + 1 - i,
    {
        if i > last {
            proof {
                assert forall|j: int| !occurs_at(v@, p@, j) by {
                    if occurs_at(v@, p@, j) {
                        assert(0 <= j <= last);
                    }
                }
            }
            return false;
        }
        let mut k: usize = 0;
        let mut hit = true;
        while k < n
            invariant
                0 <= k <= n == p@.len(),
                v.len() == v@.len(),
                i + n <= v@.len(),
                hit ==> forall|m: int| 0 <= m < k ==> v@[i + m] == p@[m],
                !hit ==> !occurs_at(v@, p@, i as int),
            decreases n - k,
        {
            if v[i + k] != p.get_char(k) {
                proof {
                    if occurs_at(v@, p@, i as int) {
                        assert(v@.subrange(i as int, i + p@.len())[k as int] == p@[k as int]);
                    }
                }
                hit = false;
                k = n;
            } else {
                k = k + 1;
            }
        }
        if hit {
            proof {
                assert(v@.subrange(i as int, i + p@.len()) =~= p@);
                assert(occurs_at(v@, p@, i as int));
            }
            return true;
        }
        i = i + 1;
    }
}

/// `s` with every occurrence of `pat` replaced by `rep`, scanning left to
/// right without rescanning replacements.
pub open spec fn replace_sub(s: Seq<char>, pat: Seq<char>, rep: Seq<char>) -> Seq<char>
    decreases s.len(),
    when pat.len() >= 1
{
    if s.len() < pat.len() {
        s
    } else if s.take(pat.len() as int) == pat {
        rep + replace_sub(s.skip(pat.len() as int), pat, rep)
    } else {
        seq![s[0]] + replace_sub(s.drop_first(), pat, rep)
    }
}

/// Replace every occurrence of `pat` in `v` by `rep`.
pub fn replace_chars(v: &Vec<char>, pat: &str, rep: &str) -> (r: Vec<char>)
    requires
        pat@.len() >= 1,
    ensures
        r@ == replace_sub(v@, pat@, rep@),
{
    let n = pat.unicode_len();
    let mut out: Vec<char> = Vec::new();
    let mut i: usize = 0;
    proof {
        assert(v@.skip(0) =~= v@);
        assert(out@ + replace_sub(v@, pat@, rep@) =~= replace_sub(v@, pat@, rep@));
    }
    while i < v.len()
        invariant
            0 <= i <= v@.len(),
            v.len() == v@.len(),
            n == pat@.len() >= 1,
            out@ + replace_sub(v@.skip(i as int), pat@, rep@) == replace_sub(v@, pat@, rep@),
        decreases v@.len() - i,
    {
        let ghost rest = v@.skip(i as int);
        let mut k: usize = 0;
        let mut hit = n <= v.len() - i;
        while k < n && hit
            invariant
                0 <= k <= n == pat@.len(),
                v.len() == v@.len(),
                i <= v@.len(),
                hit ==> i + n <= v@.len(),
                hit ==> forall|m: int| 0 <= m < k ==> v@[i + m] == pat@[m],
                !hit ==> (rest.len() < pat@.len() || rest.take(pat@.len() as int) != pat@),
                rest == v@.skip(i as int),
                i < v@.len(),
            decreases n - k,
        {
            if v[i + k] != pat.get_char(k) {
                proof {
                    if rest.len() >= pat@.len() && rest.take(pat@.len() as int) == pat@ {
                        assert(rest.take(pat@.len() as int)[k as int] == pat@[k as int]);
                        assert(rest[k as int] == v@[i + k]);
                    }
                }
                hit = false;
                k = n;
            } else {
                k = k + 1;
            }
        }
        if hit {
            proof {
                assert(rest.take(pat@.len() as int) =~= pat@);
                assert(replace_sub(rest, pat@, rep@) == rep@ + replace_sub(
                    rest.skip(pat@.len() as int),
                    pat@,
                    rep@,
                ));
                assert(rest.skip(pat@.len() as int) =~= v@.skip((i + n) as int));
            }
            append_str(&mut out, rep);
            proof {
                assert(out@ + replace_sub(v@.skip((i + n) as int), pat@, rep@) =~= replace_sub(
                    v@,
                    pat@,
                    rep@,
                ));
            }
            i = i + n;
        } else {
            proof {
                assert(replace_sub(rest, pat@, rep@) == seq![rest[0]] + replace_sub(
                    rest.drop_first(),
                    pat@,
                    rep@,
                ));
                assert(rest[0] == v@[i as int]);
                assert(rest.drop_first() =~= v@.skip((i + 1) as int));
            }
            out.push(v[i]);
            proof {
                assert(out@ + replace_sub(v@.skip((i + 1) as int), pat@, rep@) =~= replace_sub(
                    v@,
                    pat@,
                    rep@,
                ));
            }
            i = i + 1;
        }
    }
    proof {
        assert(v@.skip(v@.len() as int) =~= Seq::<char>::empty());
        assert(replace_sub(Seq::<char>::empty(), pat@, rep@) =~= Seq::<char>::empty());
        assert(out@ + Seq::<char>::empty() =~= out@);
    }
    out
}

/// The decimal digit character for `d`.
pub open spec fn digit_ch(d: int) -> char {
    if d == 0 {
        '0'
    } else if d == 1 {
        '1'
    } else if d == 2 {
        '2'
    } else if d == 3 {
        '3'
    } else if d == 4 {
        '4'
    } else if d == 5 {
        '5'
    } else if d == 6 {
        '6'
    } else if d == 7 {
        '7'
    } else if d == 8 {
        '8'
    } else {
        '9'
    }
}

/// Decimal representation of `n`, most significant digit first.
pub open spec fn dec_digits(n: nat) -> Seq<char>
    decreases n,
{
    if n < 10 {
        seq![digit_ch(n as int)]
    } else {
        dec_digits(n / 10) + seq![digit_ch((n % 10) as int)]
    }
}

/// Append the decimal representation of `n` to `out`.
pub fn push_dec(out: &mut Vec<char>, n: usize)
    ensures
        final (out)@ == old(out)@ + dec_digits(n as nat),
    decreases n,
{
    if n < 10 {
        let c: char = match n {
            0 => '0',
            1 => '1',
            2 => '2',
            3 => '3',
            4 => '4',
            5 => '5',
            6 => '6',
            7 => '7',
            8 => '8',
            _ => '9',
        };
        out.push(c);
    } else {
        push_dec(out, n / 10);
        let d = n % 10;
        let c: char = match d {
            0 => '0',
            1 => '1',
            2 => '2',
            3 => '3',
            4 => '4',
            5 => '5',
            6 => '6',
            7 => '7',
            8 => '8',
            _ => '9',
        };
        out.push(c);
        proof {
            assert(old(out)@ + dec_digits(n as nat) =~= (old(out)@ + dec_digits((n / 10) as nat))
                + seq![digit_ch((n % 10) as int)]);
        }
    }
}

/// Whether `c` is a decimal digit.
pub open spec fn is_digit(c: char) -> bool {
    c == '0' || c == '1' || c == '2' || c == '3' || c == '4' || c == '5' || c == '6' || c == '7'
        || c == '8' || c == '9'
}

/// Numeric value of a digit character.
pub open spec fn digit_val(c: char) -> int {
    if c == '0' {
        0
    } else if c == '1' {
        1
    } else if c == '2' {
        2
    } else if c == '3' {
        3
    } else if c == '4' {
        4
    } else if c == '5' {
        5
    } else if c == '6' {
        6
    } else if c == '7' {
        7
    } else if c == '8' {
        8
    } else {
        9
    }
}

/// Relies on std's `String::push`: appends exactly the given character.
#[verifier::external_body]
fn push_char(s: &mut String, c: char)
    ensures
        final (s)@ == old(s)@ + seq![c],
{
    s.push(c);
}

/// A `String` holding exactly the characters of `v`.
pub fn string_from_chars(v: &Vec<char>) -> (s: String)
    ensures
        s@ == v@,
{
    let mut s = String::new();
    let mut i: usize = 0;
    while i < v.len()
        invariant
            0 <= i <= v@.len(),
            s@ == v@.take(i as int),
        decreases v@.len() - i,
    {
        push_char(&mut s, v[i]);
        proof {
            assert(v@.take((i + 1) as int) =~= v@.take(i as int) + seq![v@[i as int]]);
        }
        i = i + 1;
    }
    proof {
        assert(v@.take(v@.len() as int) =~= v@);
    }
    s
}

/// The number a digit string denotes.
pub open spec fn dec_val(s: Seq<char>) -> nat
    decreases s.len(),
{
    if s.len() == 0 {
        0
    } else {
        dec_val(s.drop_last()) * 10 + digit_val(s.last()) as nat
    }
}

/// Whether `s` is a well-formed decimal numeral.
pub open spec fn all_digits(s: Seq<char>) -> bool {
    forall|k: int| 0 <= k < s.len() ==> is_digit(s[k])
}

/// Whether `s` parses as a `usize`: non-empty, digits only, in range.
pub open spec fn parses_as_usize(s: Seq<char>) -> bool {
    s.len() > 0 && all_digits(s) && dec_val(s) <= usize::MAX
}

proof fn lemma_dec_val_take_grows(s: Seq<char>, i: int)
    requires
        0 <= i < s.len(),
    ensures
        dec_val(s.take(i)) <= dec_val(s.take(i + 1)),
{
    assert(s.take(i + 1).drop_last() =~= s.take(i));
    assert(dec_val(s.take(i + 1)) == dec_val(s.take(i)) * 10 + digit_val(s.take(i + 1).last()));
}

proof fn lemma_dec_val_prefix_bound(s: Seq<char>, i: int)
    requires
        0 <= i <= s.len(),
    ensures
        dec_val(s.take(i)) <= dec_val(s),
    decreases s.len() - i,
{
    if i == s.len() {
        assert(s.take(i) =~= s);
    } else {
        lemma_dec_val_take_grows(s, i);
        lemma_dec_val_prefix_bound(s, i + 1);
    }
}

/// Parse a decimal numeral. Returns the value exactly when `v` is a
/// non-empty digit string whose value fits a `usize`.
pub fn parse_usize(v: &Vec<char>) -> (r: Option<usize>)
    ensures
        r is Some <==> parses_as_usize(v@),
        r matches Some(x) ==> x == dec_val(v@),
{
    if v.len() == 0 {
        return None;
    }
    let mut val: usize = 0;
    let mut i: usize = 0;
    proof {
        assert(v@.take(0) =~= Seq::<char>::empty());
    }
    while i < v.len()
        invariant
            0 <= i <= v@.len(),
            v.len() == v@.len(),
            val == dec_val(v@.take(i as int)),
            forall|k: int| 0 <= k < i ==> is_digit(v@[k]),
        decreases v@.len() - i,
    {
        let c = v[i];
        let d: usize = match c {
            '0' => 0,
            '1' => 1,
            '2' => 2,
            '3' => 3,
            '4' => 4,
            '5' => 5,
            '6' => 6,
            '7' => 7,
            '8' => 8,
            '9' => 9,
            _ => 10,
        };
        if d == 10 {
            proof {
                assert(!is_digit(v@[i as int]));
            }
            return None;
        }
        proof {
            assert(is_digit(v@[i as int]) && digit_val(v@[i as int]) == d);
        }
        if val > (usize::MAX - d) / 10 {
            proof {
                assert(v@.take(i + 1).drop_last() =~= v@.take(i as int));
                assert(dec_val(v@.take(i + 1)) == val * 10 + d);
                assert(val >= (usize::MAX - d) / 10 + 1);
                assert(((usize::MAX - d) / 10 + 1) * 10 + d > usize::MAX) by (nonlinear_arith)
                    requires
                        0 <= d < 10,
                        val >= (usize::MAX - d) / 10 + 1,
                ;
                assert(val * 10 + d >= ((usize::MAX - d) / 10 + 1) * 10 + d) by (nonlinear_arith)
                    requires
                        val >= (usize::MAX - d) / 10 + 1,
                ;
                lemma_dec_val_prefix_bound(v@, i + 1);
            }
            return None;
        }
        proof {
            assert(val <= (usize::MAX - d) / 10);
            assert(val * 10 <= ((usize::MAX - d) / 10) * 10) by (nonlinear_arith)
                requires
                    val <= (usize::MAX - d) / 10,
            ;
            assert(((usize::MAX - d) / 10) * 10 <= usize::MAX - d);
            assert(v@.take(i + 1).drop_last() =~= v@.take(i as int));
        }
        val = val * 10 + d;
        i = i + 1;
    }
    proof {
        assert(v@.take(v@.len() as int) =~= v@);
    }
    Some(val)
}

/// Split into at most two parts at the first occurrence of `d`.
pub open spec fn splitn2(s: Seq<char>, d: char) -> Seq<Seq<char>> {
    let ps = split_on(s, d);
    if ps.len() == 1 {
        ps
    } else {
        seq![ps[0], join_with(ps.drop_first(), d)]
    }
}

/// Split `v` at the first occurrence of `d`, keeping the remainder whole.
pub fn splitn2_chars(v: &Vec<char>, d: char) -> (r: Vec<Vec<char>>)
    ensures
        views(r@) == splitn2(v@, d),
        1 <= r@.len() <= 2,
{
    let j = find_from(v, d, 0);
    proof {
        assert(v@.skip(0) =~= v@);
        lemma_find_ch(v@, d);
        lemma_split_on_first(v@, d);
    }
    let mut r: Vec<Vec<char>> = Vec::new();
    if j == v.len() {
        let whole = subvec(v, 0, v.len());
        proof {
            assert(whole@ =~= v@);
            assert(split_on(v@, d) == seq![v@]);
        }
        r.push(whole);
        proof {
            assert(views(r@) =~= splitn2(v@, d));
        }
    } else {
        let head = subvec(v, 0, j);
        let tail = subvec(v, j + 1, v.len());
        proof {
            let i = find_ch(v@, d);
            assert(split_on(v@, d) == seq![v@.take(i)] + split_on(v@.skip(i + 1), d));
            lemma_split_on_len(v@.skip(i + 1), d);
            assert(split_on(v@, d).drop_first() =~= split_on(v@.skip(i + 1), d));
            lemma_join_split(v@.skip(i + 1), d);
            assert(head@ =~= v@.take(i));
            assert(tail@ =~= v@.skip(i + 1));
        }
        r.push(head);
        r.push(tail);
        proof {
            assert(views(r@) =~= splitn2(v@, d));
        }
    }
    r
}

/// `s` with every delimiter character removed.
pub open spec fn strip_dollars(s: Seq<char>) -> Seq<char>
    decreases s.len(),
{
    if s.len() == 0 {
        Seq::<char>::empty()
    } else if s[0] == '$' {
        strip_dollars(s.drop_first())
    } else {
        seq![s[0]] + strip_dollars(s.drop_first())
    }
}

/// Remove every `$` from `v`.
pub fn strip_dollars_chars(v: &Vec<char>) -> (r: Vec<char>)
    ensures
        r@ == strip_dollars(v@),
{
    let mut out: Vec<char> = Vec::new();
    let mut i: usize = 0;
    proof {
        assert(v@.skip(0) =~= v@);
        assert(out@ + strip_dollars(v@) =~= strip_dollars(v@));
    }
    while i < v.len()
        invariant
            0 <= i <= v@.len(),
            v.len() == v@.len(),
            out@ + strip_dollars(v@.skip(i as int)) == strip_dollars(v@),
        decreases v@.len() - i,
    {
        let ghost rest = v@.skip(i as int);
        proof {
            assert(rest[0] == v@[i as int]);
            assert(rest.drop_first() =~= v@.skip(i + 1));
        }
        if v[i] != '$' {
            out.push(v[i]);
            proof {
                assert(out@ + strip_dollars(v@.skip(i + 1)) =~= strip_dollars(v@));
            }
        }
        i = i + 1;
    }
    proof {
        assert(v@.skip(v@.len() as int) =~= Seq::<char>::empty());
        assert(out@ + Seq::<char>::empty() =~= out@);
    }
    out
}

/// Split into at most three parts at the first two occurrences of `d`.
pub open spec fn splitn3(s: Seq<char>, d: char) -> Seq<Seq<char>> {
    let ps = split_on(s, d);
    if ps.len() <= 2 {
        ps
    } else {
        seq![ps[0], ps[1], join_with(ps.skip(2), d)]
    }
}

/// Split `v` at the first two occurrences of `d`, keeping the rest whole.
pub fn splitn3_chars(v: &Vec<char>, d: char) -> (r: Vec<Vec<char>>)
    ensures
        views(r@) == splitn3(v@, d),
        1 <= r@.len() <= 3,
{
    let j1 = find_from(v, d, 0);
    proof {
        assert(v@.skip(0) =~= v@);
        lemma_find_ch(v@, d);
        lemma_split_on_first(v@, d);
    }
    let mut r: Vec<Vec<char>> = Vec::new();
    if j1 == v.len() {
        let whole = subvec(v, 0, v.len());
        proof {
            assert(whole@ =~= v@);
            assert(split_on(v@, d) == seq![v@]);
        }
        r.push(whole);
        proof {
            assert(views(r@) =~= splitn3(v@, d));
        }
        return r;
    }
    let head = subvec(v, 0, j1);
    let ghost i1 = find_ch(v@, d);
    let ghost s1 = v@.skip(i1 + 1);
    proof {
        assert(split_on(v@, d) == seq![v@.take(i1)] + split_on(s1, d));
        lemma_split_on_len(s1, d);
        lemma_find_ch(s1, d);
        lemma_split_on_first(s1, d);
        assert(head@ =~= v@.take(i1));
    }
    let j2 = find_from(v, d, j1 + 1);
    proof {
        assert(v@.skip(((j1 + 1) as int)) == s1);
    }
    if j2 == v.len() {
        let tail = subvec(v, j1 + 1, v.len());
        proof {
            assert(find_ch(s1, d) == s1.len());
            assert(split_on(s1, d) == seq![s1]);
            assert(tail@ =~= s1);
        }
        r.push(head);
        r.push(tail);
        proof {
            assert(views(r@) =~= splitn3(v@, d));
        }
        return r;
    }
    let mid = subvec(v, j1 + 1, j2);
    let tail = subvec(v, j2 + 1, v.len());
    proof {
        let i2 = find_ch(s1, d);
        assert(i2 == j2 - (i1 + 1));
        let s2 = s1.skip(i2 + 1);
        assert(split_on(s1, d) == seq![s1.take(i2)] + split_on(s2, d));
        lemma_split_on_len(s2, d);
        lemma_join_split(s2, d);
        let ps = split_on(v@, d);
        assert(ps.len() >= 3);
        assert(ps[0] == v@.take(i1));
        assert(ps[1] == s1.take(i2));
        assert(ps.skip(2) =~= split_on(s2, d));
        assert(mid@ =~= s1.take(i2));
        assert(tail@ =~= s2);
    }
    r.push(head);
    r.push(mid);
    r.push(tail);
    proof {
        assert(views(r@) =~= splitn3(v@, d));
    }
    r
}

/// The number of occurrences of `d` in `s`.
pub open spec fn count_ch(s: Seq<char>, d: char) -> nat
    decreases s.len(),
{
    if s.len() == 0 {
        0
    } else {
        (if s[0] == d {
            1nat
        } else {
            0nat
        }) + count_ch(s.drop_first(), d)
    }
}

/// A split has one segment more than the text has delimiters.
pub proof fn lemma_split_count(s: Seq<char>, d: char)
    ensures
        split_on(s, d).len() == count_ch(s, d) + 1,
    decreases s.len(),
{
    if s.len() == 0 {
    } else {
        lemma_split_count(s.drop_first(), d);
        if s[0] == d {
        } else {
            lemma_split_on_len(s.drop_first(), d);
        }
    }
}

/// The views of a list of strings.
pub open spec fn str_views(vs: Seq<String>) -> Seq<Seq<char>> {
    vs.map_values(|s: String| s@)
}

/// Whether two string slices hold the same characters.
pub fn str_eq(a: &str, b: &str) -> (r: bool)
    ensures
        r == (a@ == b@),
{
    let n = a.unicode_len();
    if n != b.unicode_len() {
        return false;
    }
    let mut i: usize = 0;
    while i < n
        invariant
            0 <= i <= n == a@.len() == b@.len(),
            forall|k: int| 0 <= k < i ==> a@[k] == b@[k],
        decreases n - i,
    {
        if a.get_char(i) != b.get_char(i) {
            return false;
        }
        i = i + 1;
    }
    proof {
        assert(a@ =~= b@);
    }
    true
}

} // verus!
