//! The data layer: a mapping from ISO-8601 date keys to ordered lists of
//! calorie entries. Keys are unique; the order of entries within a date is
//! significant (the most recently added entry is last), while the order of
//! the dates themselves carries no meaning.
use vstd::prelude::*;
use vstd::string::*;
use crate::num::is_digit;

verus! {

/// A date key: exactly "YYYY-MM-DD" — ten characters, digits everywhere but
/// the two dashes.
pub open spec fn date_key(s: Seq<char>) -> bool {
    &&& s.len() == 10
    &&& s[4] == '-'
    &&& s[7] == '-'
    &&& forall|i: int| 0 <= i < 10 && i != 4 && i != 7 ==> is_digit(#[trigger] s[i])
}

pub fn is_date_key(s: &str) -> (r: bool)
    ensures
        r == date_key(s@),
{
    let n = s.unicode_len();
    if n != 10 {
        return false;
    }
    let mut i: usize = 0;
    while i < 10
        invariant
            s@.len() == 10,
            0 <= i <= 10,
            forall|j: int| 0 <= j < i && j != 4 && j != 7 ==> is_digit(#[trigger] s@[j]),
            forall|j: int| 0 <= j < i && j == 4 ==> s@[j] == '-',
            forall|j: int| 0 <= j < i && j == 7 ==> s@[j] == '-',
        decreases 10 - i,
    {
        let c = s.get_char(i);
        if i == 4 || i == 7 {
            if c != '-' {
                return false;
            }
        } else {
            if !crate::num::is_digit_exec(c) {
                return false;
            }
        }
        i += 1;
    }
    true
}

/// Why a data document could not be used: its text does not describe a
/// mapping from date keys to arrays of calorie amounts.
#[derive(Debug, Clone, Copy, PartialEq, Eq, Structural)]
pub enum StorageError {
    MalformedDocument,
}

/// One calendar date, held as its ISO-8601 key string.
pub struct Date(String);

impl View for Date {
    type V = Seq<char>;

    closed spec fn view(&self) -> Seq<char> {
        self.0@
    }
}

/// The mapping a data file holds, as a sequence of key/entries pairs.
pub type Kv = Seq<(Seq<char>, Seq<u32>)>;

pub open spec fn kv_has(kv: Kv, k: Seq<char>) -> bool {
    exists|i: int| 0 <= i < kv.len() && kv[i].0 == k
}

pub open spec fn kv_index_of(kv: Kv, k: Seq<char>) -> int {
    choose|i: int| 0 <= i < kv.len() && kv[i].0 == k
}

pub open spec fn kv_lookup(kv: Kv, k: Seq<char>) -> Option<Seq<u32>> {
    if kv_has(kv, k) {
        Some(kv[kv_index_of(kv, k)].1)
    } else {
        None
    }
}

/// Removing a key drops its pair; a missing key leaves the mapping alone.
pub open spec fn kv_remove(kv: Kv, k: Seq<char>) -> Kv {
    if kv_has(kv, k) {
        kv.remove(kv_index_of(kv, k))
    } else {
        kv
    }
}

/// Setting a key binds it to exactly `vs`, leaving every other key alone.
pub open spec fn kv_set(kv: Kv, k: Seq<char>, vs: Seq<u32>) -> Kv {
    kv_remove(kv, k).push((k, vs))
}

/// Well-formedness of a mapping: keys unique, every key a date key.
pub open spec fn wf_kv(kv: Kv) -> bool {
    &&& forall|i: int, j: int| 0 <= i < j < kv.len() ==> kv[i].0 != kv[j].0
    &&& forall|i: int| 0 <= i < kv.len() ==> date_key(#[trigger] kv[i].0)
}

pub proof fn lemma_kv_index_unique(kv: Kv, k: Seq<char>, i: int)
    requires
        forall|a: int, b: int| 0 <= a < b < kv.len() ==> kv[a].0 != kv[b].0,
        0 <= i < kv.len(),
        kv[i].0 == k,
    ensures
        kv_has(kv, k),
        kv_index_of(kv, k) == i,
{
    assert(kv_has(kv, k));
    let j = kv_index_of(kv, k);
    if j < i {
        assert(kv[j].0 != kv[i].0);
    } else if j > i {
        assert(kv[i].0 != kv[j].0);
    }
}

/// Removing a key removes it entirely and disturbs no other key.
pub proof fn lemma_kv_remove(kv: Kv, k: Seq<char>)
    requires
        wf_kv(kv),
    ensures
        wf_kv(kv_remove(kv, k)),
        !kv_has(kv_remove(kv, k), k),
        forall|k2: Seq<char>| k2 != k ==> kv_lookup(kv_remove(kv, k), k2) == kv_lookup(kv, k2),
{
    if kv_has(kv, k) {
        let i = kv_index_of(kv, k);
        assert(0 <= i < kv.len() && kv[i].0 == k);
        let r = kv.remove(i);
        assert forall|a: int, b: int| 0 <= a < b < r.len() implies r[a].0 != r[b].0 by {
            let a2 = if a < i { a } else { a + 1 };
            let b2 = if b < i { b } else { b + 1 };
            assert(r[a] == kv[a2] && r[b] == kv[b2]);
        }
        assert forall|a: int| 0 <= a < r.len() implies date_key(#[trigger] r[a].0) by {
            let a2 = if a < i { a } else { a + 1 };
            assert(r[a] == kv[a2]);
        }
        assert forall|a: int| 0 <= a < r.len() implies r[a].0 != k by {
            let a2 = if a < i { a } else { a + 1 };
            assert(r[a] == kv[a2]);
            if a2 != i {
                if a2 < i {
                    assert(kv[a2].0 != kv[i].0);
                } else {
                    assert(kv[i].0 != kv[a2].0);
                }
            }
        }
        assert forall|k2: Seq<char>| k2 != k implies kv_lookup(r, k2) == kv_lookup(kv, k2) by {
            if kv_has(kv, k2) {
                let i2 = kv_index_of(kv, k2);
                assert(0 <= i2 < kv.len() && kv[i2].0 == k2);
                assert(i2 != i);
                let i2r = if i2 < i { i2 } else { i2 - 1 };
                assert(r[i2r] == kv[i2]);
                lemma_kv_index_unique(r, k2, i2r);
            } else {
                if kv_has(r, k2) {
                    let j = kv_index_of(r, k2);
                    let j2 = if j < i { j } else { j + 1 };
                    assert(r[j] == kv[j2]);
                    assert(kv[j2].0 == k2);
                }
            }
        }
    }
}

/// Setting a key binds it to `vs` and disturbs no other key.
pub proof fn lemma_kv_set(kv: Kv, k: Seq<char>, vs: Seq<u32>)
    requires
        wf_kv(kv),
        date_key(k),
    ensures
        wf_kv(kv_set(kv, k, vs)),
        kv_lookup(kv_set(kv, k, vs), k) == Some(vs),
        forall|k2: Seq<char>| k2 != k ==> kv_lookup(kv_set(kv, k, vs), k2) == kv_lookup(kv, k2),
{
    lemma_kv_remove(kv, k);
    let rm = kv_remove(kv, k);
    let r = kv_set(kv, k, vs);
    assert(r == rm.push((k, vs)));
    assert forall|a: int, b: int| 0 <= a < b < r.len() implies r[a].0 != r[b].0 by {
        if b < rm.len() {
            assert(r[a] == rm[a] && r[b] == rm[b]);
        } else {
            assert(r[a] == rm[a] && r[b] == (k, vs));
            assert(rm[a].0 != k);
        }
    }
    assert forall|a: int| 0 <= a < r.len() implies date_key(#[trigger] r[a].0) by {
        if a < rm.len() {
            assert(r[a] == rm[a]);
        }
    }
    lemma_kv_index_unique(r, k, rm.len() as int);
    assert forall|k2: Seq<char>| k2 != k implies kv_lookup(r, k2) == kv_lookup(rm, k2) by {
        if kv_has(rm, k2) {
            let i2 = kv_index_of(rm, k2);
            assert(r[i2] == rm[i2]);
            lemma_kv_index_unique(r, k2, i2);
        } else {
            if kv_has(r, k2) {
                let j = kv_index_of(r, k2);
                assert(r[j].0 == k2);
                assert(j != rm.len());
                assert(r[j] == rm[j]);
            }
        }
    }
}

/// The in-memory store: date keys with their ordered calorie entries.
pub struct Data(Vec<(Date, Vec<u32>)>);

impl View for Data {
    type V = Kv;

    closed spec fn view(&self) -> Kv {
        self.0@.map_values(|p: (Date, Vec<u32>)| (p.0@, p.1@))
    }
}

impl Data {
    pub open spec fn wf(&self) -> bool {
        wf_kv(self@)
    }

    pub fn new() -> (r: Data)
        ensures
            r@ == Seq::<(Seq<char>, Seq<u32>)>::empty(),
            r.wf(),
    {
        let d = Data(Vec::new());
        proof {
            assert(d@ =~= Seq::<(Seq<char>, Seq<u32>)>::empty());
        }
        d
    }

    /// How many dates the store holds.
    pub fn len(&self) -> (r: usize)
        ensures
            r == self@.len(),
    {
        self.0.len()
    }

    /// The date key stored at position `i`.
    pub fn key_at(&self, i: usize) -> (r: &str)
        requires
            i < self@.len(),
        ensures
            r@ == self@[i as int].0,
    {
        self.0[i].0.0.as_str()
    }

    /// The entries stored at position `i`.
    pub fn entries_at(&self, i: usize) -> (r: &Vec<u32>)
        requires
            i < self@.len(),
        ensures
            r@ == self@[i as int].1,
    {
        &self.0[i].1
    }

    fn find(&self, date: &str) -> (r: Option<usize>)
        ensures
            match r {
                Some(i) => i < self@.len() && self@[i as int].0 == date@ && forall|j: int|
                    0 <= j < i ==> self@[j].0 != date@,
                None => forall|j: int| 0 <= j < self@.len() ==> self@[j].0 != date@,
            },
    {
        let n = self.0.len();
        let mut i: usize = 0;
        while i < n
            invariant
                n == self@.len(),
                0 <= i <= n,
                forall|j: int| 0 <= j < i ==> self@[j].0 != date@,
            decreases n - i,
        {
            if crate::num::str_eq(self.0[i].0.0.as_str(), date) {
                return Some(i);
            }
            i += 1;
        }
        None
    }

    pub fn get_calories_by_date(&self, date: &str) -> (r: Option<&Vec<u32>>)
        requires
            self.wf(),
        ensures
            match r {
                Some(v) => kv_lookup(self@, date@) == Some(v@),
                None => kv_lookup(self@, date@) is None,
            },
    {
        match self.find(date) {
            Some(i) => {
                proof {
                    lemma_kv_index_unique(self@, date@, i as int);
                }
                Some(&self.0[i].1)
            },
            None => {
                proof {
                    if kv_has(self@, date@) {
                        let w = kv_index_of(self@, date@);
                        assert(self@[w].0 == date@);
                    }
                }
                None
            },
        }
    }

    pub fn get_calories_by_date_mut(&mut self, date: &str) -> (r: Option<&mut Vec<u32>>)
        requires
            old(self).wf(),
        ensures
            match r {
                Some(v) => {
                    &&& kv_has(old(self)@, date@)
                    &&& v@ == kv_lookup(old(self)@, date@).unwrap()
                    &&& final(self)@ == old(self)@.update(
                        kv_index_of(old(self)@, date@),
                        (date@, final(v)@),
                    )
                    &&& final(self).wf()
                },
                None => {
                    &&& !kv_has(old(self)@, date@)
                    &&& final(self)@ == old(self)@
                    &&& final(self).wf()
                },
            },
    {
        match self.find(date) {
            Some(i) => {
                proof {
                    lemma_kv_index_unique(self@, date@, i as int);
                }
                Some(&mut self.0[i].1)
            },
            None => {
                proof {
                    if kv_has(self@, date@) {
                        let w = kv_index_of(self@, date@);
                        assert(self@[w].0 == date@);
                    }
                }
                None
            },
        }
    }

    pub fn set_calories_by_date(&mut self, date: &str, calories: Vec<u32>)
        requires
            old(self).wf(),
            date_key(date@),
        ensures
            final(self).wf(),
            final(self)@ == kv_set(old(self)@, date@, calories@),
    {
        self.clear_calories_by_date(date);
        let ghost mid = self@;
        self.0.push((Date(String::from_str(date)), calories));
        proof {
            assert(self@ =~= mid.push((date@, calories@)));
            lemma_kv_set(old(self)@, date@, calories@);
        }
    }

    pub fn clear_calories_by_date(&mut self, date: &str)
        requires
            old(self).wf(),
        ensures
            final(self).wf(),
            final(self)@ == kv_remove(old(self)@, date@),
    {
        match self.find(date) {
            Some(i) => {
                proof {
                    lemma_kv_index_unique(old(self)@, date@, i as int);
                }
                self.0.remove(i);
                proof {
                    assert(self@ =~= old(self)@.remove(i as int));
                    lemma_kv_remove(old(self)@, date@);
                }
            },
            None => {
                proof {
                    if kv_has(self@, date@) {
                        let w = kv_index_of(self@, date@);
                        assert(self@[w].0 == date@);
                    }
                }
            },
        }
    }
}

/// The store together with the path of its backing file. Reading and writing
/// that file is the caller's part; the store owns the mapping, renders the
/// document to write, and interprets the document that was read.
pub struct CaloriesData {
    pub data: Data,
    pub path: String,
}

impl CaloriesData {
    /// Builds the store from the backing file's content; `None` stands for a
    /// file that does not exist yet, which means an empty mapping (the caller
    /// then writes the empty document to disk).
    pub fn new(path: String, content: Option<String>) -> (r: Result<CaloriesData, StorageError>)
        ensures
            match r {
                Ok(cd) => cd.data.wf() && cd.path@ == path@ && match content {
                    None => cd.data@ == Seq::<(Seq<char>, Seq<u32>)>::empty(),
                    Some(text) => crate::json::spec_parse_data(text@) == Some(cd.data@),
                },
                Err(e) => {
                    &&& content matches Some(text) && crate::json::spec_parse_data(text@) is None
                    &&& e == StorageError::MalformedDocument
                },
            },
    {
        match content {
            None => Ok(CaloriesData { data: Data::new(), path }),
            Some(text) => match crate::json::parse_data(text.as_str()) {
                Ok(data) => Ok(CaloriesData { data, path }),
                Err(e) => Err(e),
            },
        }
    }

    /// The document `save` has to write to the backing file: the whole
    /// mapping, rendered.
    pub fn document(&self) -> (r: String)
        ensures
            r@ == crate::json::json_of(self.data@),
    {
        crate::json::render_data(&self.data)
    }
}

} // verus!
