//! The application state machine that committed commands are applied to.

use crate::error::{Error, ErrorView};
use crate::model::EntryView;
use vstd::prelude::*;

verus! {

/// The outcome of `State::mutate` as a plain value.
pub open spec fn outcome_view(r: Result<Vec<u8>, Error>) -> Result<Seq<u8>, ErrorView> {
    match r {
        Ok(output) => Ok(output@),
        Err(e) => Err(e@),
    }
}

/// The state machine of the application. The node hands it each committed
/// command once, in log order.
pub trait State: Sized {
    /// What the state machine promises of `mutate`: whether, applied to this
    /// state, the command of entry `index` may leave the state `after` and
    /// return `r`. A deterministic state machine admits one `after` and one
    /// `r` for each command. The default promises nothing.
    open spec fn mutates(&self, index: nat, command: Seq<u8>, after: Self, r: Result<Seq<u8>, ErrorView>) -> bool {
        true
    }

    /// Applies the command of entry `index` and returns its output.
    fn mutate(&mut self, index: u64, command: Vec<u8>) -> (r: Result<Vec<u8>, Error>)
        ensures
            old(self).mutates(index as nat, command@, *final(self), outcome_view(r)),
    ;
}

/// Whether applying the entries `from + 1 ..= to` to `state` in order may
/// succeed and leave the state `after`. A no-op entry leaves the state as it
/// is.
pub open spec fn ran<S: State>(state: S, entries: Seq<EntryView>, from: nat, to: nat, after: S) -> bool
    decreases to - from,
{
    if from >= to || from >= entries.len() {
        after == state
    } else {
        match entries[from as int].command {
            None => ran(state, entries, from + 1, to, after),
            Some(command) => exists|next: S, output: Seq<u8>|
                #[trigger] state.mutates(from + 1, command, next, Ok(output)) && ran(
                    next,
                    entries,
                    from + 1,
                    to,
                    after,
                ),
        }
    }
}

/// Whether applying the entries `from + 1 ..= to` to `state` in order may
/// fail with `failure`: the state machine may take the entries before one of
/// them and fail on that one.
pub open spec fn failed<S: State>(state: S, entries: Seq<EntryView>, from: nat, to: nat, failure: ErrorView) -> bool
    decreases to - from,
{
    if from >= to || from >= entries.len() {
        false
    } else {
        match entries[from as int].command {
            None => failed(state, entries, from + 1, to, failure),
            Some(command) => {
                ||| exists|next: S| #[trigger] state.mutates(from + 1, command, next, Err(failure))
                ||| exists|next: S, output: Seq<u8>|
                    #[trigger] state.mutates(from + 1, command, next, Ok(output)) && failed(
                        next,
                        entries,
                        from + 1,
                        to,
                        failure,
                    )
            },
        }
    }
}

} // verus!
