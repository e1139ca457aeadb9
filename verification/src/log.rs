//! The replicated log, with the term record that is stored beside it.

use crate::error::{Error, ErrorView};
use crate::message::{clone_bytes, clone_name, entries_view, name_view, Entry};
use crate::model::LogView;
use crate::state::{failed, ran, State};
use vstd::prelude::*;

verus! {

/// An append-only sequence of entries, numbered from 1, with the index up to
/// which entries are committed, the index up to which they have been applied,
/// and the node's term and vote.
pub struct Log {
    entries: Vec<Entry>,
    commit_index: u64,
    apply_index: u64,
    term: u64,
    voted_for: Option<String>,
}

impl View for Log {
    type V = LogView;

    closed spec fn view(&self) -> LogView {
        LogView {
            entries: entries_view(self.entries@),
            commit_index: self.commit_index as nat,
            apply_index: self.apply_index as nat,
            term: self.term as nat,
            voted_for: name_view(self.voted_for),
        }
    }
}

impl Log {
    /// The log's own invariant, and room for its indices in a `u64`.
    pub open spec fn wf(&self) -> bool {
        self@.wf() && self@.entries.len() < u64::MAX
    }

    /// An empty log at term 0.
    pub fn new() -> (r: Log)
        ensures
            r@ == LogView::empty(),
            r.wf(),
    {
        let r = Log { entries: Vec::new(), commit_index: 0, apply_index: 0, term: 0, voted_for: None };
        assert(r@.entries =~= Seq::empty());
        r
    }

    /// Appends an entry and returns its index.
    pub fn append(&mut self, entry: Entry) -> (index: u64)
        requires
            old(self).wf(),
            old(self)@.entries.len() + 1 < u64::MAX,
        ensures
            final(self)@ == old(self)@.append(entry@),
            index == final(self)@.last_index(),
            final(self).wf(),
    {
        self.entries.push(entry);
        assert(self@.entries =~= old(self)@.entries.push(entry@));
        self.entries.len() as u64
    }

    /// The term of entry `index`, 0 where there is none.
    pub fn term_at(&self, index: u64) -> (term: u64)
        requires
            self.wf(),
        ensures
            term == self@.term_at(index as nat),
    {
        if 1 <= index && index <= self.entries.len() as u64 {
            self.entries[(index - 1) as usize].term
        } else {
            0
        }
    }

    /// A copy of entry `index`, if the log holds it.
    pub fn get(&self, index: u64) -> (r: Option<Entry>)
        requires
            self.wf(),
        ensures
            match r {
                Some(entry) => 1 <= index <= self@.entries.len() && entry@ == self@.entries[index - 1],
                None => !(1 <= index <= self@.entries.len()),
            },
    {
        if 1 <= index && index <= self.entries.len() as u64 {
            Some(self.entries[(index - 1) as usize].clone())
        } else {
            None
        }
    }

    /// Copies of the entries from entry `index` on, in order.
    pub fn scan(&self, index: u64) -> (r: Vec<Entry>)
        requires
            self.wf(),
        ensures
            entries_view(r@) == self@.from_index(index as nat),
    {
        let mut r: Vec<Entry> = Vec::new();
        if index as u128 > self.entries.len() as u128 {
            assert(entries_view(r@) =~= Seq::empty());
            return r;
        }
        let start: usize = if index <= 1 {
            0
        } else {
            (index - 1) as usize
        };
        let mut i: usize = start;
        while i < self.entries.len()
            invariant
                start <= i <= self.entries.len(),
                r.len() == i - start,
                forall|j: int| 0 <= j < r.len() ==> r[j]@ == self.entries[start + j]@,
            decreases self.entries.len() - i,
        {
            r.push(self.entries[i].clone());
            i += 1;
        }
        assert(entries_view(r@) =~= self@.entries.skip(start as int));
        assert(self@.entries.skip(0) =~= self@.entries);
        r
    }

    /// Index and term of the last entry, `(0, 0)` for an empty log.
    pub fn get_last(&self) -> (r: (u64, u64))
        requires
            self.wf(),
        ensures
            r.0 == self@.last_index(),
            r.1 == self@.last_term(),
    {
        let index = self.entries.len() as u64;
        (index, self.term_at(index))
    }

    /// Index and term of the last committed entry.
    pub fn get_committed(&self) -> (r: (u64, u64))
        requires
            self.wf(),
        ensures
            r.0 == self@.commit_index,
            r.1 == self@.commit_term(),
    {
        (self.commit_index, self.term_at(self.commit_index))
    }

    /// Index and term of the last applied entry.
    pub fn get_applied(&self) -> (r: (u64, u64))
        requires
            self.wf(),
        ensures
            r.0 == self@.apply_index,
            r.1 == self@.apply_term(),
    {
        (self.apply_index, self.term_at(self.apply_index))
    }

    /// Whether the log holds an entry `index` of term `term`.
    pub fn has(&self, index: u64, term: u64) -> (r: bool)
        requires
            self.wf(),
        ensures
            r == self@.has(index as nat, term as nat),
    {
        if index == 0 {
            term == 0
        } else {
            index <= self.entries.len() as u64 && self.entries[(index - 1) as usize].term == term
        }
    }

    /// Marks the entries up to `index` as committed. The commit index never
    /// moves back, and never past the last entry: such an `index` is refused
    /// and the log stays as it is.
    pub fn commit(&mut self, index: u64) -> (r: Result<u64, Error>)
        requires
            old(self).wf(),
        ensures
            final(self).wf(),
            match r {
                Ok(i) => {
                    &&& old(self)@.commit_index <= index <= old(self)@.last_index()
                    &&& i == index
                    &&& final(self)@ == old(self)@.commit(index as nat)
                },
                Err(e) => {
                    &&& !(old(self)@.commit_index <= index <= old(self)@.last_index())
                    &&& e@ == commit_refused()
                    &&& final(self)@ == old(self)@
                },
            },
    {
        if index < self.commit_index || index > self.entries.len() as u64 {
            return Err(Error::internal("commit index out of range"));
        }
        self.commit_index = index;
        Ok(index)
    }

    /// Stores the term and the vote cast in it.
    pub fn save_term(&mut self, term: u64, voted_for: Option<String>)
        requires
            old(self).wf(),
        ensures
            final(self)@ == old(self)@.save_term(term as nat, name_view(voted_for)),
            final(self).wf(),
    {
        self.term = term;
        self.voted_for = voted_for;
    }

    /// The stored term and vote.
    pub fn load_term(&self) -> (r: (u64, Option<String>))
        ensures
            r.0 == self@.term,
            name_view(r.1) == self@.voted_for,
    {
        (self.term, clone_name(&self.voted_for))
    }

    /// Applies the next committed entry to `state`, if one is pending, and
    /// returns its index with the state's output (none for a no-op). Where
    /// the state fails, the entry stays pending and the failure is returned.
    pub fn apply<S: State>(&mut self, state: &mut S) -> (r: Result<
        Option<(u64, Option<Vec<u8>>)>,
        Error,
    >)
        requires
            old(self).wf(),
        ensures
            final(self).wf(),
            apply_outcome(old(self)@, *old(state), final(self)@, *final(state), r),
    {
        if self.apply_index >= self.commit_index {
            return Ok(None);
        }
        assert(self@.entries.len() == self.entries.len());
        assert(self.commit_index <= self.entries.len());
        let index = self.apply_index + 1;
        let at: usize = self.apply_index as usize;
        assert(self@.entries[at as int] == self.entries@[at as int]@);
        let output = match &self.entries[at].command {
            Some(command) => {
                match state.mutate(index, clone_bytes(command)) {
                    Ok(output) => Some(output),
                    Err(e) => {
                        return Err(e);
                    },
                }
            },
            None => None,
        };
        self.apply_index = index;
        Ok(Some((index, output)))
    }

    /// Applies every committed entry that is still pending, in order, and
    /// stops at the first failure.
    pub fn apply_all<S: State>(&mut self, state: &mut S) -> (r: Result<(), Error>)
        requires
            old(self).wf(),
        ensures
            final(self).wf(),
            match r {
                Ok(_) => final(self)@ == old(self)@.applied() && pending_ran(
                    *old(state),
                    old(self)@,
                    *final(state),
                ),
                Err(e) => pending_failed(*old(state), old(self)@, e@),
            },
    {
        loop
            invariant
                self.wf(),
                self@.entries == old(self)@.entries,
                self@.commit_index == old(self)@.commit_index,
                self@.term == old(self)@.term,
                self@.voted_for == old(self)@.voted_for,
                old(self)@.apply_index <= self@.apply_index,
                forall|after: S| #[trigger]
                    pending_ran(*state, self@, after) ==> pending_ran(*old(state), old(self)@, after),
                forall|failure: ErrorView| #[trigger]
                    pending_failed(*state, self@, failure) ==> pending_failed(
                        *old(state),
                        old(self)@,
                        failure,
                    ),
            decreases self@.commit_index - self@.apply_index,
        {
            let ghost log = self@;
            let ghost at = *state;
            match self.apply(state) {
                Ok(Some(_)) => {
                    assert forall|after: S| #[trigger] pending_ran(*state, self@, after) implies pending_ran(
                        at,
                        log,
                        after,
                    ) by {}
                    assert forall|failure: ErrorView| #[trigger]
                        pending_failed(*state, self@, failure) implies pending_failed(at, log, failure) by {}
                },
                Ok(None) => {
                    assert(pending_ran(*state, self@, *state));
                    return Ok(());
                },
                Err(e) => {
                    assert(pending_failed(at, log, e@));
                    return Err(e);
                },
            }
        }
    }

    /// Splices `entries` in behind entry `base_index` and returns the index of
    /// the last of them. Entries that the log already holds with the same
    /// term stay; from the first that it lacks, or holds with another term,
    /// on, the log's own entries give way to the new ones. A splice that
    /// would leave a gap behind the last entry, or replace a committed entry,
    /// is refused and the log stays as it is.
    pub fn splice(&mut self, base_index: u64, entries: &Vec<Entry>) -> (r: Result<u64, Error>)
        requires
            old(self).wf(),
            base_index + entries.len() < u64::MAX,
        ensures
            final(self).wf(),
            match r {
                Ok(last) => {
                    &&& base_index <= old(self)@.last_index()
                    &&& !old(self)@.splice_conflicts(base_index as nat, entries_view(entries@))
                    &&& final(self)@ == old(self)@.splice(base_index as nat, entries_view(entries@))
                    &&& last == base_index + entries.len()
                },
                Err(e) => {
                    &&& final(self)@ == old(self)@
                    &&& if base_index > old(self)@.last_index() {
                        e@ == splice_gap()
                    } else {
                        old(self)@.splice_conflicts(base_index as nat, entries_view(entries@)) && e@
                            == splice_refused()
                    }
                },
            },
    {
        if base_index > self.entries.len() as u64 {
            return Err(Error::internal("spliced entries must follow an entry of the log"));
        }
        let ghost view = self@;
        let ghost news = entries_view(entries@);
        let base: usize = base_index as usize;
        let room: usize = self.entries.len() - base;
        let mut keep: usize = 0;
        while keep < entries.len() && keep < room && self.entries[base + keep].term
            == entries[keep].term
            invariant
                keep <= entries.len(),
                keep <= room,
                room == self.entries.len() - base,
                base <= self.entries.len(),
                self@ == view,
                news == entries_view(entries@),
                view.matching(base as nat, news, keep as nat) == view.matching(base as nat, news, 0),
            decreases entries.len() - keep,
        {
            keep += 1;
        }
        if keep == entries.len() {
            return Ok(base_index + entries.len() as u64);
        }
        if ((base + keep) as u64) < self.commit_index {
            return Err(Error::internal("cannot replace a committed log entry"));
        }
        self.entries.truncate(base + keep);
        let mut i: usize = keep;
        while i < entries.len()
            invariant
                keep <= i <= entries.len(),
                base + entries.len() < u64::MAX,
                self.commit_index == old(self).commit_index,
                self.apply_index == old(self).apply_index,
                self.term == old(self).term,
                self.voted_for == old(self).voted_for,
                base + keep >= self.commit_index,
                base + keep <= view.entries.len(),
                news == entries_view(entries@),
                self.entries.len() == base + i,
                forall|j: int| 0 <= j < base + keep ==> (#[trigger] self.entries[j])@ == view.entries[j],
                forall|j: int| keep <= j < i ==> (#[trigger] self.entries[base + j])@ == news[j],
            decreases entries.len() - i,
        {
            self.entries.push(entries[i].clone());
            i += 1;
        }
        assert(entries_view(self.entries@) =~= view.entries.take(base + keep) + news.skip(
            keep as int,
        )) by {
            let got = entries_view(self.entries@);
            let want = view.entries.take(base + keep) + news.skip(keep as int);
            assert(got.len() == want.len());
            assert forall|j: int| 0 <= j < got.len() implies got[j] == want[j] by {
                if j >= base + keep {
                    assert(self.entries[base + (j - base)]@ == news[j - base]);
                }
            }
        }
        Ok(base_index + entries.len() as u64)
    }
}

/// What `Log::commit` returns for an index that it refuses.
pub open spec fn commit_refused() -> ErrorView {
    ErrorView { kind: crate::error::ErrorKind::Internal, text: "commit index out of range"@ }
}

/// What `Log::splice` returns for entries that would leave a gap.
pub open spec fn splice_gap() -> ErrorView {
    ErrorView {
        kind: crate::error::ErrorKind::Internal,
        text: "spliced entries must follow an entry of the log"@,
    }
}

/// What `Log::splice` returns for entries that would replace a committed one.
pub open spec fn splice_refused() -> ErrorView {
    ErrorView { kind: crate::error::ErrorKind::Internal, text: "cannot replace a committed log entry"@ }
}

/// Whether applying every pending entry of `log` to `state` may succeed and
/// leave the state `after`.
pub open spec fn pending_ran<S: State>(state: S, log: LogView, after: S) -> bool {
    ran(state, log.entries, log.apply_index, log.commit_index, after)
}

/// Whether applying the pending entries of `log` to `state` may fail with
/// `failure`.
pub open spec fn pending_failed<S: State>(state: S, log: LogView, failure: ErrorView) -> bool {
    failed(state, log.entries, log.apply_index, log.commit_index, failure)
}

/// How one call of `Log::apply` relates the log and the state before it to
/// the log, the state and the result after it.
pub open spec fn apply_outcome<S: State>(
    before: LogView,
    state: S,
    after: LogView,
    next: S,
    r: Result<Option<(u64, Option<Vec<u8>>)>, Error>,
) -> bool {
    if before.apply_index >= before.commit_index {
        r == Ok::<Option<(u64, Option<Vec<u8>>)>, Error>(None) && after == before && next == state
    } else {
        let index = before.apply_index + 1;
        let advanced = LogView { apply_index: index as nat, ..before };
        match before.entries[before.apply_index as int].command {
            None => {
                &&& r == Ok::<Option<(u64, Option<Vec<u8>>)>, Error>(Some((index as u64, None)))
                &&& after == advanced
                &&& next == state
            },
            Some(command) => match r {
                Ok(Some((i, Some(output)))) => {
                    &&& i == index
                    &&& state.mutates(index as nat, command, next, Ok(output@))
                    &&& after == advanced
                },
                Err(e) => state.mutates(index as nat, command, next, Err(e@)) && after == before,
                _ => false,
            },
        }
    }
}

} // verus!
