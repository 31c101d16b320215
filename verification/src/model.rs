use crate::error::Fault;
use crate::utf8::{invalid_suffix, is_incomplete_scalar, valid_prefix, valid_up_to};
use vstd::prelude::*;
use vstd::utf8::*;

verus! {

/// What decoding a stretch of bytes comes to.
pub enum Round {
    /// The stretch is text followed by nothing or by the beginning of a character.
    Text { text: Seq<char>, pending: Seq<u8> },
    /// The stretch holds a byte that cannot stand at index `valid_up_to`.
    Malformed { valid_up_to: nat },
}

/// Decodes the longest valid prefix of `filled`, and keeps what follows if more bytes could
/// still complete it.
pub open spec fn decode_round(filled: Seq<u8>) -> Round {
    let after = invalid_suffix(filled);
    if after.len() == 0 || is_incomplete_scalar(after) {
        Round::Text { text: decode_utf8(valid_prefix(filled)), pending: after }
    } else {
        Round::Malformed { valid_up_to: valid_up_to(filled) }
    }
}

/// Where a decoder stands between two reads.
pub enum State {
    /// Nothing is buffered.
    Idle,
    /// The beginning of one character is buffered.
    Partial(Seq<u8>),
    /// The source has ended between two characters.
    Closed,
    /// Decoding has failed.
    Errored,
}

impl State {
    /// The bytes that wait for the rest of their character.
    pub open spec fn pending(self) -> Seq<u8> {
        match self {
            State::Partial(pending) => pending,
            _ => Seq::empty(),
        }
    }

    /// True in the two states that nothing leads out of.
    pub open spec fn is_terminal(self) -> bool {
        self is Closed || self is Errored
    }

    /// True unless the state claims to buffer something other than the beginning of one
    /// character.
    pub open spec fn wf(self) -> bool {
        self matches State::Partial(pending) ==> is_incomplete_scalar(pending)
    }

    /// The state of a running decoder that buffers `pending`.
    pub open spec fn holding(pending: Seq<u8>) -> State {
        if pending.len() == 0 {
            State::Idle
        } else {
            State::Partial(pending)
        }
    }
}

/// What a read from the source comes back with.
pub enum Arrival {
    /// The source delivered these bytes.
    Data(Seq<u8>),
    /// The source is exhausted.
    End,
    /// The read failed.
    Failure(std::io::Error),
}

/// What a decoder has for its consumer after a read.
pub enum Outcome {
    /// The next chunk of text.
    Chunk(Seq<char>),
    /// The error that ends the stream.
    Failed(Fault),
    /// The end of the stream.
    Finished,
    /// Nothing yet: the bytes so far end inside the first character, and the source is to be
    /// read again.
    ReadMore,
}

/// The decoder's transition: the state after `arrival`, and what the consumer gets.
pub open spec fn step(state: State, arrival: Arrival) -> (State, Outcome) {
    if state.is_terminal() {
        (state, Outcome::Finished)
    } else {
        match arrival {
            Arrival::Failure(error) => (State::Errored, Outcome::Failed(Fault::Transport(error))),
            Arrival::End => if state.pending().len() > 0 {
                (State::Errored, Outcome::Failed(Fault::Incomplete(state.pending())))
            } else {
                (State::Closed, Outcome::Finished)
            },
            Arrival::Data(data) => match decode_round(state.pending() + data) {
                Round::Malformed { valid_up_to } => (
                    State::Errored,
                    Outcome::Failed(Fault::Malformed(valid_up_to)),
                ),
                Round::Text { text, pending } => (
                    State::holding(pending),
                    if text.len() == 0 {
                        Outcome::ReadMore
                    } else {
                        Outcome::Chunk(text)
                    },
                ),
            },
        }
    }
}

/// The outcomes of the arrivals, taken in order by a decoder that starts in `state`, and the
/// state after the last of them.
pub open spec fn run(state: State, arrivals: Seq<Arrival>) -> (State, Seq<Outcome>)
    decreases arrivals.len(),
{
    if arrivals.len() == 0 {
        (state, Seq::empty())
    } else {
        let (next, outcome) = step(state, arrivals[0]);
        let (last, outcomes) = run(next, arrivals.drop_first());
        (last, seq![outcome] + outcomes)
    }
}

/// The text of the chunks among the outcomes, joined in order.
pub open spec fn chunks_text(outcomes: Seq<Outcome>) -> Seq<char>
    decreases outcomes.len(),
{
    if outcomes.len() == 0 {
        Seq::empty()
    } else {
        let rest = chunks_text(outcomes.drop_first());
        match outcomes[0] {
            Outcome::Chunk(text) => text + rest,
            _ => rest,
        }
    }
}

/// The arrivals of a source that delivers the reads one by one and then ends.
pub open spec fn delivery(reads: Seq<Seq<u8>>) -> Seq<Arrival> {
    Seq::new(
        reads.len() + 1,
        |i: int|
            if i < reads.len() {
                Arrival::Data(reads[i])
            } else {
                Arrival::End
            },
    )
}

} // verus!
