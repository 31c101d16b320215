use crate::model::{chunks_text, decode_round, delivery, run, step, Arrival, Outcome, Round, State};
use crate::utf8::{
    invalid_suffix, lemma_incomplete_scalar, lemma_prefix_of_valid, lemma_valid_prefix,
    valid_prefix,
};
use vstd::prelude::*;
use vstd::utf8::*;

verus! {

/// A transition keeps the state well formed: what a decoder buffers is always the beginning
/// of one character, one to three bytes long.
pub proof fn lemma_step_keeps_wf(state: State, arrival: Arrival)
    requires
        state.wf(),
    ensures
        step(state, arrival).0.wf(),
        step(state, arrival).0.pending().len() <= 3,
{
    let next = step(state, arrival).0;
    if next.pending().len() > 0 {
        lemma_incomplete_scalar(next.pending());
    }
}

/// No chunk is empty: bytes that end inside their first character ask for another read.
pub proof fn lemma_no_empty_chunk(state: State, arrival: Arrival)
    ensures
        step(state, arrival).1 matches Outcome::Chunk(text) ==> text.len() > 0,
{
}

/// The end of the stream and an error are final: whatever arrives afterwards, the state
/// stays and the consumer is told that the stream has finished.
pub proof fn lemma_terminal_is_final(state: State, arrival: Arrival)
    requires
        state.is_terminal(),
    ensures
        step(state, arrival) == (state, Outcome::Finished),
{
}

/// Bytes are neither lost nor made up: unless they are malformed, the pending bytes and the
/// bytes that arrive are the encoding of the text that is decoded, followed by the bytes
/// that are pending afterwards.
pub proof fn lemma_bytes_are_kept(pending: Seq<u8>, data: Seq<u8>)
    ensures
        decode_round(pending + data) matches Round::Text { text, pending: kept } ==> pending + data
            == encode_utf8(text) + kept,
{
    let filled = pending + data;
    lemma_valid_prefix(filled);
    decode_utf8_encode_utf8(valid_prefix(filled));
}

/// A decoder that is running with the beginning of valid UTF-8 behind it decodes all of it:
/// where the pending bytes and the reads together are valid UTF-8, and the source ends after
/// the reads, no read fails, the stream finishes, and the chunks make up the text of those
/// bytes.
pub proof fn lemma_run_on_valid(state: State, reads: Seq<Seq<u8>>)
    requires
        state.wf(),
        !state.is_terminal(),
        valid_utf8(state.pending() + reads.flatten()),
    ensures
        ({
            let (last, outcomes) = run(state, delivery(reads));
            &&& last == State::Closed
            &&& outcomes.len() == reads.len() + 1
            &&& forall|i: int|
                0 <= i < reads.len() ==> (#[trigger] outcomes[i]) is Chunk || outcomes[i] is ReadMore
            &&& outcomes[reads.len() as int] == Outcome::Finished
            &&& chunks_text(outcomes) == decode_utf8(state.pending() + reads.flatten())
        }),
    decreases reads.len(),
{
    let arrivals = delivery(reads);
    let (next, outcome) = step(state, arrivals[0]);
    let (last, outcomes) = run(next, arrivals.drop_first());
    assert(run(state, arrivals) == (last, seq![outcome] + outcomes));
    if reads.len() == 0 {
        assert(reads.flatten() =~= Seq::<u8>::empty());
        assert(state.pending() + reads.flatten() =~= state.pending());
        if state.pending().len() > 0 {
            lemma_incomplete_scalar(state.pending());
        }
        assert(arrivals.drop_first() =~= Seq::<Arrival>::empty());
        assert(outcomes =~= Seq::<Outcome>::empty());
        assert(chunks_text((seq![outcome] + outcomes).drop_first()) =~= Seq::<char>::empty());
    } else {
        let data = reads[0];
        let rest = reads.drop_first();
        let filled = state.pending() + data;
        assert(reads.flatten() =~= data + rest.flatten());
        assert(state.pending() + reads.flatten() =~= filled + rest.flatten());
        lemma_prefix_of_valid(filled, rest.flatten());
        let after = invalid_suffix(filled);
        let text = decode_utf8(valid_prefix(filled));
        assert(decode_round(filled) == Round::Text { text, pending: after });
        assert(next == State::holding(after));
        assert(next.pending() =~= after);
        assert(arrivals.drop_first() =~= delivery(rest));
        lemma_run_on_valid(next, rest);
        let all = seq![outcome] + outcomes;
        assert(all.drop_first() =~= outcomes);
        assert forall|i: int| 0 <= i < reads.len() implies (#[trigger] all[i]) is Chunk
            || all[i] is ReadMore by {
            if i > 0 {
                assert(all[i] == outcomes[i - 1]);
            }
        }
        assert(all[reads.len() as int] == outcomes[reads.len() - 1]);
        assert(chunks_text(all) =~= text + chunks_text(outcomes));
    }
}

/// Round trip: however the UTF-8 encoding of a text is cut into reads, a fresh decoder whose
/// source delivers them and then ends yields chunks that make up the text, fails on no read,
/// and finishes the stream.
pub proof fn lemma_round_trip(text: Seq<char>, reads: Seq<Seq<u8>>)
    requires
        reads.flatten() == encode_utf8(text),
    ensures
        ({
            let (last, outcomes) = run(State::Idle, delivery(reads));
            &&& last == State::Closed
            &&& outcomes.len() == reads.len() + 1
            &&& forall|i: int|
                0 <= i < reads.len() ==> (#[trigger] outcomes[i]) is Chunk || outcomes[i] is ReadMore
            &&& outcomes[reads.len() as int] == Outcome::Finished
            &&& chunks_text(outcomes) == text
        }),
{
    encode_utf8_valid_utf8(text);
    encode_utf8_decode_utf8(text);
    assert(State::Idle.pending() + reads.flatten() =~= reads.flatten());
    lemma_run_on_valid(State::Idle, reads);
}

} // verus!
