//! A small string-keyed table, used for the label reference table and for
//! externally supplied block bodies. Later insertions of an existing key win.

use crate::text::str_eq;
use vstd::prelude::*;

verus! {

/// The map an entry list denotes: entries applied in order, so the last
/// write for a key wins.
pub closed spec fn entries_map(s: Seq<(String, String)>) -> Map<Seq<char>, Seq<char>>
    decreases s.len(),
{
    if s.len() == 0 {
        Map::<Seq<char>, Seq<char>>::empty()
    } else {
        entries_map(s.drop_last()).insert(s.last().0@, s.last().1@)
    }
}

/// A mapping from label text to display text.
pub struct StrMap {
    entries: Vec<(String, String)>,
}

impl View for StrMap {
    type V = Map<Seq<char>, Seq<char>>;

    closed spec fn view(&self) -> Map<Seq<char>, Seq<char>> {
        entries_map(self.entries@)
    }
}

proof fn lemma_entries_map_tail_free(s: Seq<(String, String)>, k: Seq<char>, i: int)
    requires
        0 <= i <= s.len(),
        forall|m: int| i <= m < s.len() ==> s[m].0@ != k,
    ensures
        entries_map(s).contains_key(k) == entries_map(s.take(i)).contains_key(k),
        entries_map(s).contains_key(k) ==> entries_map(s)[k] == entries_map(s.take(i))[k],
    decreases s.len() - i,
{
    if i == s.len() {
        assert(s.take(i) =~= s);
    } else {
        assert(s.last().0@ != k);
        assert(s.drop_last().take(i) =~= s.take(i));
        assert forall|m: int| i <= m < s.drop_last().len() implies s.drop_last()[m].0@ != k by {
            assert(s[m].0@ != k);
        }
        lemma_entries_map_tail_free(s.drop_last(), k, i);
    }
}

impl StrMap {
    /// The empty table.
    pub fn new() -> (r: StrMap)
        ensures
            r@ == Map::<Seq<char>, Seq<char>>::empty(),
    {
        StrMap { entries: Vec::new() }
    }

    /// Bind `key` to `value`, replacing any earlier binding.
    pub fn insert(&mut self, key: String, value: String)
        ensures
            final (self)@ == old(self)@.insert(key@, value@),
    {
        let ghost pre = self.entries@;
        self.entries.push((key, value));
        proof {
            assert(self.entries@.drop_last() =~= pre);
        }
    }

    /// Look `key` up: its latest bound value, if any.
    pub fn get(&self, key: &str) -> (r: Option<String>)
        ensures
            r is Some <==> self@.contains_key(key@),
            r matches Some(v) ==> self@[key@] == v@,
    {
        let mut i: usize = self.entries.len();
        while i > 0
            invariant
                0 <= i <= self.entries@.len(),
                forall|m: int| i <= m < self.entries@.len() ==> self.entries@[m].0@ != key@,
            decreases i,
        {
            if str_eq(self.entries[i - 1].0.as_str(), key) {
                proof {
                    lemma_entries_map_tail_free(self.entries@, key@, i as int);
                    let pfx = self.entries@.take(i as int);
                    assert(pfx.last() == self.entries@[i - 1]);
                    assert(entries_map(pfx) == entries_map(pfx.drop_last()).insert(
                        self.entries@[i - 1].0@,
                        self.entries@[i - 1].1@,
                    ));
                }
                return Some(self.entries[i - 1].1.clone());
            }
            i = i - 1;
        }
        proof {
            lemma_entries_map_tail_free(self.entries@, key@, 0);
            assert(self.entries@.take(0) =~= Seq::<(String, String)>::empty());
        }
        None
    }
}

} // verus!
