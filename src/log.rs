//! The log of exchanges: append-only records, and the selection cursor that
//! a viewer moves over them.
use vstd::prelude::*;
use std::collections::VecDeque;

verus! {

/// Text of some bytes, as UTF-8 with each invalid sequence replaced by U+FFFD.
pub uninterp spec fn lossy_text(b: Seq<u8>) -> Seq<char>;

/// Relies on `String::from_utf8_lossy`: the text depends on the bytes alone,
/// and no bytes give no text.
#[verifier::external_body]
pub(crate) fn text_of(b: &[u8]) -> (r: String)
    ensures
        r@ == lossy_text(b@),
        b@.len() == 0 ==> r@.len() == 0,
{
    String::from_utf8_lossy(b).into_owned()
}

/// One logged exchange: a one-line label, the request and the response.
#[derive(Clone)]
pub struct HttpLog {
    pub url: String,
    pub request: String,
    pub response: String,
}

/// Cursor after "move down": one further while that stays below `len`.
pub open spec fn step_down(sel: nat, len: nat) -> nat {
    if sel + 1 < len {
        sel + 1
    } else {
        sel
    }
}

/// Cursor after "move up": one back while above zero.
pub open spec fn step_up(sel: nat) -> nat {
    if sel > 0 {
        (sel - 1) as nat
    } else {
        sel
    }
}

/// A store after the records of `batch` were appended to `start` one by one.
pub open spec fn appended(start: Seq<HttpLog>, batch: Seq<HttpLog>) -> Seq<HttpLog>
    decreases batch.len(),
{
    if batch.len() == 0 {
        start
    } else {
        appended(start, batch.drop_last()).push(batch.last())
    }
}

/// The log store with the viewer's selection.
pub struct App {
    logs: VecDeque<HttpLog>,
    selected: usize,
}

impl App {
    /// The records, oldest first.
    pub closed spec fn records(&self) -> Seq<HttpLog> {
        self.logs@
    }

    /// The selected index.
    pub closed spec fn cursor(&self) -> nat {
        self.selected as nat
    }

    /// The cursor is 0 on an empty store and a valid index otherwise.
    pub open spec fn wf(&self) -> bool {
        self.cursor() == 0 || self.cursor() < self.records().len()
    }

    /// An empty store, cursor at 0.
    pub fn new() -> (r: App)
        ensures
            r.records() == Seq::<HttpLog>::empty(),
            r.cursor() == 0,
            r.wf(),
    {
        App { logs: VecDeque::new(), selected: 0 }
    }

    /// Moves the cursor one down; a no-op on the last record.
    pub fn next(&mut self)
        requires
            old(self).wf(),
        ensures
            final(self).wf(),
            final(self).records() == old(self).records(),
            final(self).cursor() == step_down(old(self).cursor(), old(self).records().len()),
    {
        if self.selected < self.logs.len() && self.selected + 1 < self.logs.len() {
            self.selected += 1;
        }
    }

    /// Moves the cursor one up; a no-op at 0.
    pub fn previous(&mut self)
        requires
            old(self).wf(),
        ensures
            final(self).wf(),
            final(self).records() == old(self).records(),
            final(self).cursor() == step_up(old(self).cursor()),
    {
        if self.selected > 0 {
            self.selected -= 1;
        }
    }

    /// The selected record; `None` on an empty store.
    pub fn selected_log(&self) -> (r: Option<&HttpLog>)
        ensures
            match r {
                Some(l) => self.cursor() < self.records().len() && *l == self.records()[self.cursor() as int],
                None => self.cursor() >= self.records().len(),
            },
    {
        if self.selected < self.logs.len() {
            Some(&self.logs[self.selected])
        } else {
            None
        }
    }

    /// Adds a record at the end; records already there keep their places.
    pub fn append(&mut self, record: HttpLog)
        requires
            old(self).wf(),
        ensures
            final(self).wf(),
            final(self).records() == old(self).records().push(record),
            final(self).cursor() == old(self).cursor(),
    {
        self.logs.push_back(record);
    }

    /// Number of records.
    pub fn len(&self) -> (r: usize)
        ensures
            r == self.records().len(),
    {
        self.logs.len()
    }

    /// The record at `i`, if there is one.
    pub fn get(&self, i: usize) -> (r: Option<&HttpLog>)
        ensures
            match r {
                Some(l) => i < self.records().len() && *l == self.records()[i as int],
                None => i >= self.records().len(),
            },
    {
        if i < self.logs.len() {
            Some(&self.logs[i])
        } else {
            None
        }
    }

    /// The selected index.
    pub fn selected(&self) -> (r: usize)
        ensures
            r == self.cursor(),
    {
        self.selected
    }
}

/// The cursor stays a valid index: "move up" from a valid index stays at or
/// above 0 and "move down" below the length, each a no-op at its end, and an
/// append leaves a valid index valid.
pub proof fn lemma_cursor_in_range(sel: nat, len: nat)
    requires
        sel < len,
    ensures
        0 <= step_up(sel) < len,
        step_down(sel, len) < len,
        sel == 0 ==> step_up(sel) == sel,
        sel + 1 == len ==> step_down(sel, len) == sel,
        sel < len + 1,
{
}

/// Appending `n` records one by one gives a store longer by exactly `n` that
/// holds each of them, after what it held, in the order of the appends; two
/// orders of the same records give stores with the same records.
pub proof fn lemma_appends_keep_all(start: Seq<HttpLog>, a: Seq<HttpLog>, b: Seq<HttpLog>)
    requires
        a.to_multiset() == b.to_multiset(),
    ensures
        appended(start, a) == start + a,
        appended(start, a).len() == start.len() + a.len(),
        appended(start, a).len() == appended(start, b).len(),
        appended(start, a).to_multiset() == start.to_multiset().add(a.to_multiset()),
        appended(start, a).to_multiset() == appended(start, b).to_multiset(),
{
    lemma_appended_is_concat(start, a);
    lemma_appended_is_concat(start, b);
    vstd::seq_lib::lemma_multiset_commutative(start, a);
    vstd::seq_lib::lemma_multiset_commutative(start, b);
    assert(a.len() == a.to_multiset().len()) by {
        vstd::seq_lib::to_multiset_len(a);
    }
    assert(b.len() == b.to_multiset().len()) by {
        vstd::seq_lib::to_multiset_len(b);
    }
}

proof fn lemma_appended_is_concat(start: Seq<HttpLog>, batch: Seq<HttpLog>)
    ensures
        appended(start, batch) == start + batch,
    decreases batch.len(),
{
    if batch.len() > 0 {
        lemma_appended_is_concat(start, batch.drop_last());
        assert(start + batch =~= (start + batch.drop_last()).push(batch.last()));
    } else {
        assert(start + batch =~= start);
    }
}

} // verus!
