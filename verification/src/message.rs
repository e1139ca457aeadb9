//! Log entries and the messages that nodes exchange.

use crate::model::{EntryView, EventView, MessageView};
use vstd::prelude::*;

verus! {

/// One slot of the replicated log. `command` is absent for a no-op.
#[derive(Debug, PartialEq)]
pub struct Entry {
    pub term: u64,
    pub command: Option<Vec<u8>>,
}

/// What a message says.
#[derive(Debug, PartialEq)]
pub enum Event {
    /// A leader announces itself and how far it has committed.
    Heartbeat { commit_index: u64, commit_term: u64 },
    /// A follower answers a heartbeat.
    ConfirmLeader { commit_index: u64, has_committed: bool },
    /// A candidate asks for a vote.
    SolicitVote { last_index: u64, last_term: u64 },
    /// A follower votes for the candidate that asked.
    GrantVote,
    /// A leader sends the entries that follow entry `base_index`.
    ReplicateEntries { base_index: u64, base_term: u64, entries: Vec<Entry> },
    /// A follower holds the leader's entries up to `last_index`.
    AcceptEntries { last_index: u64 },
    /// A follower does not hold the entry that the leader built on.
    RejectEntries,
    /// A client reads.
    QueryState { id: Vec<u8>, command: Vec<u8> },
    /// A client writes.
    MutateState { id: Vec<u8>, command: Vec<u8> },
    /// The result of a client request.
    RespondState { id: Vec<u8>, response: Vec<u8> },
    /// The failure of a client request.
    RespondError { id: Vec<u8>, error: String },
}

/// A message between nodes. A missing `to` addresses every peer; a missing
/// `from` marks a message that originated locally.
#[derive(Debug, PartialEq)]
pub struct Message {
    pub from: Option<String>,
    pub to: Option<String>,
    pub term: u64,
    pub event: Event,
}

/// The characters of an optional name.
pub open spec fn name_view(name: Option<String>) -> Option<Seq<char>> {
    match name {
        Some(s) => Some(s@),
        None => None,
    }
}

/// The bytes of an optional command.
pub open spec fn command_view(command: Option<Vec<u8>>) -> Option<Seq<u8>> {
    match command {
        Some(c) => Some(c@),
        None => None,
    }
}

/// The entries of a sequence, each by its view.
pub open spec fn entries_view(entries: Seq<Entry>) -> Seq<EntryView> {
    entries.map_values(|e: Entry| e@)
}

/// The messages of a sequence, each by its view.
pub open spec fn messages_view(messages: Seq<Message>) -> Seq<MessageView> {
    messages.map_values(|m: Message| m@)
}

/// The names of a sequence, each by its characters.
pub open spec fn names_view(names: Seq<String>) -> Seq<Seq<char>> {
    names.map_values(|s: String| s@)
}

impl View for Entry {
    type V = EntryView;

    open spec fn view(&self) -> EntryView {
        EntryView { term: self.term as nat, command: command_view(self.command) }
    }
}

impl View for Event {
    type V = EventView;

    open spec fn view(&self) -> EventView {
        match *self {
            Event::Heartbeat { commit_index, commit_term } => EventView::Heartbeat {
                commit_index: commit_index as nat,
                commit_term: commit_term as nat,
            },
            Event::ConfirmLeader { commit_index, has_committed } => EventView::ConfirmLeader {
                commit_index: commit_index as nat,
                has_committed,
            },
            Event::SolicitVote { last_index, last_term } => EventView::SolicitVote {
                last_index: last_index as nat,
                last_term: last_term as nat,
            },
            Event::GrantVote => EventView::GrantVote,
            Event::ReplicateEntries { base_index, base_term, entries } => EventView::ReplicateEntries {
                base_index: base_index as nat,
                base_term: base_term as nat,
                entries: entries_view(entries@),
            },
            Event::AcceptEntries { last_index } => EventView::AcceptEntries {
                last_index: last_index as nat,
            },
            Event::RejectEntries => EventView::RejectEntries,
            Event::QueryState { id, command } => EventView::QueryState { id: id@, command: command@ },
            Event::MutateState { id, command } => EventView::MutateState { id: id@, command: command@ },
            Event::RespondState { id, response } => EventView::RespondState {
                id: id@,
                response: response@,
            },
            Event::RespondError { id, error } => EventView::RespondError { id: id@, error: error@ },
        }
    }
}

impl View for Message {
    type V = MessageView;

    open spec fn view(&self) -> MessageView {
        MessageView {
            from: name_view(self.from),
            to: name_view(self.to),
            term: self.term as nat,
            event: self.event@,
        }
    }
}

/// A copy of `bytes`.
pub fn clone_bytes(bytes: &Vec<u8>) -> (r: Vec<u8>)
    ensures
        r@ == bytes@,
{
    let mut r: Vec<u8> = Vec::new();
    let mut i: usize = 0;
    while i < bytes.len()
        invariant
            i <= bytes.len(),
            r@ == bytes@.take(i as int),
        decreases bytes.len() - i,
    {
        r.push(bytes[i]);
        i += 1;
    }
    r
}

/// A copy of an optional name.
pub fn clone_name(name: &Option<String>) -> (r: Option<String>)
    ensures
        name_view(r) == name_view(*name),
{
    match name {
        Some(s) => Some(s.clone()),
        None => None,
    }
}

/// Copies of `entries`, in order.
pub fn clone_entries(entries: &Vec<Entry>) -> (r: Vec<Entry>)
    ensures
        entries_view(r@) == entries_view(entries@),
{
    let mut r: Vec<Entry> = Vec::new();
    let mut i: usize = 0;
    while i < entries.len()
        invariant
            i <= entries.len(),
            r.len() == i,
            forall|j: int| 0 <= j < i ==> r[j]@ == entries[j]@,
        decreases entries.len() - i,
    {
        r.push(entries[i].clone());
        i += 1;
    }
    assert(entries_view(r@) =~= entries_view(entries@));
    r
}

impl Clone for Entry {
    fn clone(&self) -> (r: Self)
        ensures
            r@ == self@,
    {
        let command = match &self.command {
            Some(c) => Some(clone_bytes(c)),
            None => None,
        };
        Entry { term: self.term, command }
    }
}

impl Clone for Event {
    fn clone(&self) -> (r: Self)
        ensures
            r@ == self@,
    {
        match self {
            Event::Heartbeat { commit_index, commit_term } => Event::Heartbeat {
                commit_index: *commit_index,
                commit_term: *commit_term,
            },
            Event::ConfirmLeader { commit_index, has_committed } => Event::ConfirmLeader {
                commit_index: *commit_index,
                has_committed: *has_committed,
            },
            Event::SolicitVote { last_index, last_term } => Event::SolicitVote {
                last_index: *last_index,
                last_term: *last_term,
            },
            Event::GrantVote => Event::GrantVote,
            Event::ReplicateEntries { base_index, base_term, entries } => Event::ReplicateEntries {
                base_index: *base_index,
                base_term: *base_term,
                entries: clone_entries(entries),
            },
            Event::AcceptEntries { last_index } => Event::AcceptEntries { last_index: *last_index },
            Event::RejectEntries => Event::RejectEntries,
            Event::QueryState { id, command } => Event::QueryState {
                id: clone_bytes(id),
                command: clone_bytes(command),
            },
            Event::MutateState { id, command } => Event::MutateState {
                id: clone_bytes(id),
                command: clone_bytes(command),
            },
            Event::RespondState { id, response } => Event::RespondState {
                id: clone_bytes(id),
                response: clone_bytes(response),
            },
            Event::RespondError { id, error } => Event::RespondError {
                id: clone_bytes(id),
                error: error.clone(),
            },
        }
    }
}

impl Clone for Message {
    fn clone(&self) -> (r: Self)
        ensures
            r@ == self@,
    {
        Message {
            from: clone_name(&self.from),
            to: clone_name(&self.to),
            term: self.term,
            event: self.event.clone(),
        }
    }
}

} // verus!
