//! A rate table: the full set of quotes of one snapshot, keyed by currency
//! code. Stored as an association list with distinct keys and viewed, in
//! specifications, as a map from the code's characters to the quote.

use vstd::prelude::*;
use crate::rate::Rate;

verus! {

/// The map denoted by an association list; later entries override earlier ones.
pub open spec fn entries_map(s: Seq<(String, Rate)>) -> Map<Seq<char>, Rate>
    decreases s.len(),
{
    if s.len() == 0 {
        Map::empty()
    } else {
        entries_map(s.drop_last()).insert(s.last().0@, s.last().1)
    }
}

pub open spec fn distinct_keys(s: Seq<(String, Rate)>) -> bool {
    forall|i: int, j: int|
        0 <= i < j < s.len() ==> (#[trigger] s[i]).0@ != (#[trigger] s[j]).0@
}

pub proof fn lemma_entries_map_domain(s: Seq<(String, Rate)>, k: Seq<char>)
    ensures
        entries_map(s).contains_key(k) <==> exists|i: int|
            0 <= i < s.len() && (#[trigger] s[i]).0@ == k,
    decreases s.len(),
{
    if s.len() > 0 {
        lemma_entries_map_domain(s.drop_last(), k);
        if entries_map(s).contains_key(k) {
            if s.last().0@ == k {
                assert(s[s.len() - 1].0@ == k);
            } else {
                let i = choose|i: int| 0 <= i < s.len() - 1 && (#[trigger] s.drop_last()[i]).0@ == k;
                assert(s[i].0@ == k);
            }
        }
        if exists|i: int| 0 <= i < s.len() && (#[trigger] s[i]).0@ == k {
            let i = choose|i: int| 0 <= i < s.len() && (#[trigger] s[i]).0@ == k;
            if i < s.len() - 1 {
                assert(s.drop_last()[i].0@ == k);
            }
        }
    }
}

pub proof fn lemma_entries_map_at(s: Seq<(String, Rate)>, i: int)
    requires
        distinct_keys(s),
        0 <= i < s.len(),
    ensures
        entries_map(s).contains_key(s[i].0@),
        entries_map(s)[s[i].0@] == s[i].1,
    decreases s.len(),
{
    if i == s.len() - 1 {
    } else {
        assert(distinct_keys(s.drop_last()));
        lemma_entries_map_at(s.drop_last(), i);
        assert(s.drop_last()[i] == s[i]);
        assert(s[i].0@ != s.last().0@);
    }
}

pub proof fn lemma_entries_map_update(s: Seq<(String, Rate)>, i: int, e: (String, Rate))
    requires
        distinct_keys(s),
        0 <= i < s.len(),
        e.0@ == s[i].0@,
    ensures
        entries_map(s.update(i, e)) =~= entries_map(s).insert(e.0@, e.1),
    decreases s.len(),
{
    let t = s.update(i, e);
    if i == s.len() - 1 {
        assert(t.drop_last() =~= s.drop_last());
        assert(t.last() == e);
    } else {
        assert(distinct_keys(s.drop_last()));
        assert(s.drop_last()[i] == s[i]);
        lemma_entries_map_update(s.drop_last(), i, e);
        assert(t.drop_last() =~= s.drop_last().update(i, e));
        assert(t.last() == s.last());
        assert(s[i].0@ != s.last().0@);
    }
}

/// A snapshot's quotes, keyed by currency code.
#[derive(Clone, Debug)]
pub struct RateTable {
    pub entries: Vec<(String, Rate)>,
}

impl RateTable {
    /// Keys are distinct and every quote has a positive denominator.
    pub open spec fn wf(self) -> bool {
        distinct_keys(self.entries@) && forall|i: int|
            0 <= i < self.entries@.len() ==> (#[trigger] self.entries@[i]).1.wf()
    }

    /// The table as a map from code characters to quote.
    pub open spec fn as_map(self) -> Map<Seq<char>, Rate> {
        entries_map(self.entries@)
    }

    pub fn new() -> (r: RateTable)
        ensures
            r.wf(),
            r.as_map() =~= Map::empty(),
            r.entries@.len() == 0,
    {
        RateTable { entries: Vec::new() }
    }

    pub fn len(&self) -> (r: usize)
        ensures
            r == self.entries@.len(),
    {
        self.entries.len()
    }

    pub fn is_empty(&self) -> (r: bool)
        requires
            self.wf(),
        ensures
            r == (self.as_map() =~= Map::empty()),
            r == (self.entries@.len() == 0),
    {
        proof {
            if self.entries@.len() > 0 {
                lemma_entries_map_at(self.entries@, 0);
            }
        }
        self.entries.len() == 0
    }

    /// Index of the entry with the given code, if present.
    fn position(&self, code: &str) -> (r: Option<usize>)
        requires
            self.wf(),
        ensures
            r is Some <==> self.as_map().contains_key(code@),
            r matches Some(i) ==> i < self.entries@.len() && self.entries@[i as int].0@ == code@,
    {
        let needle: String = code.to_owned();
        let n = self.entries.len();
        let mut i: usize = 0;
        while i < n
            invariant
                self.wf(),
                n == self.entries@.len(),
                i <= n,
                needle@ == code@,
                forall|j: int| 0 <= j < i ==> (#[trigger] self.entries@[j]).0@ != code@,
            decreases n - i,
        {
            if self.entries[i].0 == needle {
                proof {
                    lemma_entries_map_at(self.entries@, i as int);
                }
                return Some(i);
            }
            i = i + 1;
        }
        proof {
            lemma_entries_map_domain(self.entries@, code@);
        }
        None
    }

    pub fn contains(&self, code: &str) -> (r: bool)
        requires
            self.wf(),
        ensures
            r == self.as_map().contains_key(code@),
    {
        self.position(code).is_some()
    }

    pub fn get(&self, code: &str) -> (r: Option<Rate>)
        requires
            self.wf(),
        ensures
            r is Some <==> self.as_map().contains_key(code@),
            r matches Some(v) ==> self.as_map()[code@] == v && v.wf(),
    {
        match self.position(code) {
            Some(i) => {
                proof {
                    lemma_entries_map_at(self.entries@, i as int);
                }
                Some(self.entries[i].1)
            },
            None => None,
        }
    }

    /// Inserts or overwrites the quote for the code.
    pub fn upsert(&mut self, code: String, rate: Rate)
        requires
            old(self).wf(),
            rate.wf(),
        ensures
            final(self).wf(),
            final(self).as_map() =~= old(self).as_map().insert(code@, rate),
    {
        match self.position(code.as_str()) {
            Some(i) => {
                proof {
                    lemma_entries_map_update(self.entries@, i as int, (code, rate));
                }
                self.entries[i] = (code, rate);
            },
            None => {
                let ghost s = self.entries@;
                self.entries.push((code, rate));
                proof {
                    assert(self.entries@.drop_last() =~= s);
                    lemma_entries_map_domain(s, code@);
                }
            },
        }
    }

    /// An entry-by-entry copy, equal to the original in every specification.
    pub fn duplicate(&self) -> (r: RateTable)
        ensures
            r.entries@ =~= self.entries@,
            r.as_map() == self.as_map(),
    {
        let n = self.entries.len();
        let mut out: Vec<(String, Rate)> = Vec::new();
        let mut i: usize = 0;
        while i < n
            invariant
                n == self.entries@.len(),
                i <= n,
                out@ =~= self.entries@.subrange(0, i as int),
            decreases n - i,
        {
            out.push((self.entries[i].0.clone(), self.entries[i].1));
            proof {
                assert(out@ =~= self.entries@.subrange(0, i as int + 1));
            }
            i = i + 1;
        }
        proof {
            assert(self.entries@.subrange(0, n as int) =~= self.entries@);
        }
        RateTable { entries: out }
    }

    /// The code of the entry at the given position.
    pub fn code_at(&self, i: usize) -> (r: String)
        requires
            i < self.entries@.len(),
        ensures
            r@ == self.entries@[i as int].0@,
    {
        self.entries[i].0.clone()
    }

    /// The quote of the entry at the given position.
    pub fn rate_at(&self, i: usize) -> (r: Rate)
        requires
            i < self.entries@.len(),
        ensures
            r == self.entries@[i as int].1,
    {
        self.entries[i].1
    }

    /// Every entry of the table is in its map, and conversely.
    pub proof fn lemma_view(self)
        requires
            self.wf(),
        ensures
            forall|i: int| 0 <= i < self.entries@.len() ==> {
                &&& self.as_map().contains_key((#[trigger] self.entries@[i]).0@)
                &&& self.as_map()[self.entries@[i].0@] == self.entries@[i].1
            },
            forall|k: Seq<char>| #[trigger] self.as_map().contains_key(k) ==> exists|i: int|
                0 <= i < self.entries@.len() && (#[trigger] self.entries@[i]).0@ == k,
    {
        assert forall|i: int| 0 <= i < self.entries@.len() implies {
            &&& self.as_map().contains_key((#[trigger] self.entries@[i]).0@)
            &&& self.as_map()[self.entries@[i].0@] == self.entries@[i].1
        } by {
            lemma_entries_map_at(self.entries@, i);
        }
        assert forall|k: Seq<char>| #[trigger] self.as_map().contains_key(k) implies exists|i: int|
            0 <= i < self.entries@.len() && (#[trigger] self.entries@[i]).0@ == k by {
            lemma_entries_map_domain(self.entries@, k);
        }
    }
}

} // verus!
