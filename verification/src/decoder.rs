use crate::error::{DecodeError, MalformedSequence};
use crate::model::{decode_round, step, Arrival, Outcome, Round, State};
use crate::utf8::{
    check_utf8, invalid_suffix, is_incomplete_scalar, lemma_incomplete_scalar,
    lemma_longest_valid_prefix, lemma_valid_prefix, valid_prefix,
};
use vstd::prelude::*;
use vstd::slice::{slice_subrange, slice_to_vec};
use vstd::utf8::*;

verus! {

/// Capacity of the buffer of a decoder made by `Utf8Decoder::new`.
pub const DEFAULT_BUF_SIZE: usize = 8192;

/// Smallest capacity a decoder can have: the length of the longest encoding of one character.
pub const MINIMUM_BUF_SIZE: usize = 4;

/// The four states of a decoder, as a value to test.
#[derive(Clone, Copy, PartialEq, Eq, Debug, Structural)]
pub enum Phase {
    /// Nothing is buffered.
    Idle,
    /// The beginning of one character is buffered.
    Partial,
    /// The source has ended between two characters.
    Closed,
    /// Decoding has failed.
    Errored,
}

/// What a decoder hands its driver after a read.
#[derive(Debug)]
pub enum Next {
    /// The next chunk of text, never empty.
    Chunk(String),
    /// The error that ends the stream.
    Failed(DecodeError),
    /// The end of the stream.
    Finished,
    /// Nothing yet: read the source again.
    ReadMore,
}

impl View for Next {
    type V = Outcome;

    open spec fn view(&self) -> Outcome {
        match *self {
            Next::Chunk(text) => Outcome::Chunk(text@),
            Next::Failed(error) => Outcome::Failed(error@),
            Next::Finished => Outcome::Finished,
            Next::ReadMore => Outcome::ReadMore,
        }
    }
}

/// An incremental UTF-8 decoder over a byte source of type `R`.
///
/// The decoder owns the source and a buffer of fixed capacity. Its driver reads from the
/// source into the free part of the buffer (`read_parts`) and reports what the read came to
/// (`on_read`); the decoder answers with the next chunk of text, an error, the end of the
/// stream, or the request to read again.
pub struct Utf8Decoder<R> {
    reader: R,
    buf: Vec<u8>,
    remains: usize,
    phase: Phase,
}

/// Borrows the bytes of `buf` from index `from` on, as indexing a `Vec` mutably with the range
/// `from..` does.
///
/// Trusted: the slice starts out with those bytes; when the borrow ends, `buf` holds what is
/// then in the slice behind its first `from` bytes, which are untouched; and a slice cannot
/// change its length.
#[verifier::external_body]
fn tail_mut(buf: &mut Vec<u8>, from: usize) -> (tail: &mut [u8])
    requires
        from <= old(buf)@.len(),
    ensures
        tail@ == old(buf)@.subrange(from as int, old(buf)@.len() as int),
        final(tail)@.len() == tail@.len(),
        final(buf)@ == old(buf)@.subrange(0, from as int) + final(tail)@,
{
    &mut buf[from..]
}

impl<R> View for Utf8Decoder<R> {
    type V = State;

    closed spec fn view(&self) -> State {
        match self.phase {
            Phase::Idle => State::Idle,
            Phase::Partial => State::Partial(self.buf@.subrange(0, self.remains as int)),
            Phase::Closed => State::Closed,
            Phase::Errored => State::Errored,
        }
    }
}

impl<R> Utf8Decoder<R> {
    /// The source that the decoder owns.
    pub closed spec fn source(&self) -> R {
        self.reader
    }

    /// The whole buffer: the pending bytes, then the free part.
    pub closed spec fn buffer(&self) -> Seq<u8> {
        self.buf@
    }

    /// The free part of the buffer, which the next read fills from its start.
    pub open spec fn unfilled(&self) -> Seq<u8> {
        self.buffer().subrange(self@.pending().len() as int, self.buffer().len() as int)
    }

    /// The invariant of a decoder: the buffer has room for any one character, the pending
    /// bytes stand at its front and begin one character, and they leave room to read.
    pub closed spec fn wf(&self) -> bool {
        &&& self.buf@.len() >= MINIMUM_BUF_SIZE
        &&& self.remains < self.buf@.len()
        &&& self.remains > 0 <==> self.phase == Phase::Partial
        &&& self.remains > 0 ==> is_incomplete_scalar(self.buf@.subrange(0, self.remains as int))
    }

    /// What the invariant says in terms of the state and the buffer.
    pub proof fn lemma_wf(&self)
        requires
            self.wf(),
        ensures
            self@.wf(),
            self.buffer().len() >= MINIMUM_BUF_SIZE,
            self@.pending().len() <= 3,
            self@.pending().len() < self.buffer().len(),
            self@.pending() == self.buffer().subrange(0, self@.pending().len() as int),
            self.unfilled().len() >= 1,
    {
        if self.remains > 0 {
            lemma_incomplete_scalar(self.buf@.subrange(0, self.remains as int));
        } else {
            assert(self.buf@.subrange(0, 0) =~= Seq::<u8>::empty());
        }
    }

    /// Create a new incremental UTF-8 decoder from `reader`.
    pub fn new(reader: R) -> (decoder: Self)
        ensures
            decoder.wf(),
            decoder@ == State::Idle,
            decoder.source() == reader,
            decoder.buffer() == Seq::new(DEFAULT_BUF_SIZE as nat, |i: int| 0u8),
    {
        Utf8Decoder::with_capacity(DEFAULT_BUF_SIZE, reader)
    }

    /// Create a new incremental UTF-8 decoder from `reader` with specified capacity.
    pub fn with_capacity(capacity: usize, reader: R) -> (decoder: Self)
        requires
            capacity >= MINIMUM_BUF_SIZE,
        ensures
            decoder.wf(),
            decoder@ == State::Idle,
            decoder.source() == reader,
            decoder.buffer() == Seq::new(capacity as nat, |i: int| 0u8),
    {
        let buffer = vec![0u8; capacity];
        assert(buffer@ =~= Seq::new(capacity as nat, |i: int| 0u8));
        Utf8Decoder { reader, buf: buffer, remains: 0, phase: Phase::Idle }
    }

    /// Consumes this decoder, returning the underlying reader.
    pub fn into_inner(self) -> (reader: R)
        ensures
            reader == self.source(),
    {
        self.reader
    }

    /// Acquires a reference to the underlying reader that this decoder is pulling from.
    pub fn get_ref(&self) -> (reader: &R)
        ensures
            *reader == self.source(),
    {
        &self.reader
    }

    /// Acquires a mutable reference to the underlying reader that this decoder is pulling
    /// from.
    pub fn get_mut(&mut self) -> (reader: &mut R)
        ensures
            *reader == old(self).source(),
            final(self).source() == *final(reader),
            final(self)@ == old(self)@,
            final(self).buffer() == old(self).buffer(),
            final(self).wf() == old(self).wf(),
    {
        &mut self.reader
    }

    /// The capacity of the buffer.
    pub fn capacity(&self) -> (capacity: usize)
        ensures
            capacity == self.buffer().len(),
    {
        self.buf.len()
    }

    /// The state of the decoder.
    pub fn phase(&self) -> (phase: Phase)
        ensures
            phase == Phase::Idle <==> self@ is Idle,
            phase == Phase::Partial <==> self@ is Partial,
            phase == Phase::Closed <==> self@ is Closed,
            phase == Phase::Errored <==> self@ is Errored,
    {
        self.phase
    }

    /// Whether the stream has ended, by the end of the source or by an error.
    pub fn is_terminated(&self) -> (terminated: bool)
        ensures
            terminated == self@.is_terminal(),
    {
        match self.phase {
            Phase::Closed | Phase::Errored => true,
            _ => false,
        }
    }

    /// The bytes that wait for the rest of their character.
    pub fn pending(&self) -> (pending: &[u8])
        requires
            self.wf(),
        ensures
            pending@ == self@.pending(),
    {
        proof {
            self.lemma_wf();
        }
        slice_subrange(self.buf.as_slice(), 0, self.remains)
    }

    /// Hands out what a read needs: the source, and the free part of the buffer for the
    /// source to write to from its start.
    pub fn read_parts(&mut self) -> (parts: (&mut R, &mut [u8]))
        requires
            old(self).wf(),
        ensures
            *parts.0 == old(self).source(),
            parts.1@ == old(self).unfilled(),
            parts.1@.len() >= 1,
            final(self).wf(),
            final(self)@ == old(self)@,
            final(self).source() == *final(parts.0),
            final(self).unfilled() == final(parts.1)@,
            final(self).buffer().len() == old(self).buffer().len(),
    {
        proof {
            self.lemma_wf();
        }
        let ghost before = self.buf@;
        let unfilled = tail_mut(&mut self.buf, self.remains);
        proof {
            assert((before.subrange(0, self.remains as int) + final(unfilled)@).subrange(
                0,
                self.remains as int,
            ) =~= before.subrange(0, self.remains as int));
            assert((before.subrange(0, self.remains as int) + final(unfilled)@).subrange(
                self.remains as int,
                before.len() as int,
            ) =~= final(unfilled)@);
        }
        (&mut self.reader, unfilled)
    }

    /// What a read came to, as the decoder's transition takes it: `Ok(0)` is the end of the
    /// source, and `Ok(n)` stands for the first `n` bytes of the free part of the buffer.
    pub open spec fn arrival(&self, outcome: Result<usize, std::io::Error>) -> Arrival {
        match outcome {
            Ok(n) => if n == 0 {
                Arrival::End
            } else {
                Arrival::Data(self.unfilled().subrange(0, n as int))
            },
            Err(error) => Arrival::Failure(error),
        }
    }

    /// Takes the outcome of a read into the free part of the buffer, and makes the
    /// transition that it calls for.
    ///
    /// Once the stream has ended, with or without an error, every further call answers
    /// `Next::Finished` and changes nothing.
    pub fn on_read(&mut self, outcome: Result<usize, std::io::Error>) -> (next: Next)
        requires
            old(self).wf(),
            outcome matches Ok(n) ==> n <= old(self).unfilled().len(),
        ensures
            final(self).wf(),
            final(self).source() == old(self).source(),
            (final(self)@, next@) == step(old(self)@, old(self).arrival(outcome)),
            final(self).buffer() == final(self)@.pending() + old(self).buffer().subrange(
                final(self)@.pending().len() as int,
                old(self).buffer().len() as int,
            ),
            next matches Next::Chunk(text) ==> text@.len() > 0,
            next matches Next::Failed(DecodeError::Utf8Error(malformed)) ==> outcome matches Ok(n)
                && 1 <= malformed.error_len && malformed.valid_up_to + malformed.error_len
                <= old(self)@.pending().len() + n,
    {
        proof {
            self.lemma_wf();
            assert(self.buf@.subrange(0, self.buf@.len() as int) =~= self.buf@);
        }
        if self.is_terminated() {
            return Next::Finished;
        }
        match outcome {
            Err(error) => {
                self.remains = 0;
                self.phase = Phase::Errored;
                Next::Failed(DecodeError::from(error))
            },
            Ok(n) => {
                if n == 0 {
                    if self.remains > 0 {
                        let leftover = slice_to_vec(
                            slice_subrange(self.buf.as_slice(), 0, self.remains),
                        );
                        self.remains = 0;
                        self.phase = Phase::Errored;
                        Next::Failed(DecodeError::IncompleteUtf8Sequence(leftover))
                    } else {
                        self.phase = Phase::Closed;
                        Next::Finished
                    }
                } else {
                    let ghost filled = self.buf@.subrange(0, self.remains + n);
                    proof {
                        assert(filled =~= self@.pending() + self.unfilled().subrange(0, n as int));
                    }
                    match decode_next(self.buf.as_mut_slice(), self.remains, n) {
                        Err(error) => {
                            self.remains = 0;
                            self.phase = Phase::Errored;
                            Next::Failed(error)
                        },
                        Ok((decoded, remains)) => {
                            proof {
                                if remains > 0 {
                                    lemma_incomplete_scalar(invalid_suffix(filled));
                                    assert(self.buf@.subrange(0, remains as int) =~= invalid_suffix(
                                        filled,
                                    ));
                                }
                            }
                            self.remains = remains;
                            self.phase = if remains > 0 {
                                Phase::Partial
                            } else {
                                Phase::Idle
                            };
                            if decoded.as_str().is_empty() {
                                Next::ReadMore
                            } else {
                                Next::Chunk(decoded)
                            }
                        },
                    }
                }
            },
        }
    }
}

/// Decodes the first `s + n` bytes of `buf`: `s` bytes kept from the round before, which begin
/// a character, and `n` bytes read behind them.
///
/// Returns the text of the longest valid prefix with the number of bytes kept for the next
/// round, which have moved to the front of `buf`; or the place of a byte that is not UTF-8.
pub fn decode_next(buf: &mut [u8], s: usize, n: usize) -> (r: Result<(String, usize), DecodeError>)
    requires
        s + n <= old(buf)@.len(),
    ensures
        final(buf)@.len() == old(buf)@.len(),
        match decode_round(old(buf)@.subrange(0, s + n)) {
            Round::Text { text, pending } => {
                &&& r matches Ok((decoded, remains))
                &&& decoded@ == text
                &&& remains == pending.len()
                &&& final(buf)@ == pending + old(buf)@.subrange(
                    remains as int,
                    old(buf)@.len() as int,
                )
            },
            Round::Malformed { valid_up_to } => {
                &&& r matches Err(DecodeError::Utf8Error(malformed))
                &&& malformed.valid_up_to == valid_up_to
                &&& 1 <= malformed.error_len
                &&& valid_up_to + malformed.error_len <= s + n
                &&& final(buf)@ == old(buf)@
            },
        },
{
    proof {
        vstd::slice::axiom_spec_len(&*buf);
    }
    let e = s + n;
    let ghost filled = buf@.subrange(0, e as int);
    proof {
        lemma_longest_valid_prefix(filled);
        lemma_valid_prefix(filled);
    }
    match check_utf8(slice_subrange(buf, 0, e)) {
        Ok(text) => {
            proof {
                encode_utf8_decode_utf8(text@);
                assert(valid_prefix(filled) =~= filled);
                assert(buf@ =~= invalid_suffix(filled) + buf@.subrange(0, buf@.len() as int));
            }
            Ok((text.to_owned(), 0))
        },
        Err(fault) => match fault.error_len {
            Some(len) => Err(
                DecodeError::from(
                    MalformedSequence { valid_up_to: fault.valid_up_to, error_len: len },
                ),
            ),
            None => {
                let v = fault.valid_up_to;
                let decoded = match check_utf8(slice_subrange(buf, 0, v)) {
                    Ok(text) => {
                        proof {
                            encode_utf8_decode_utf8(text@);
                            assert(buf@.subrange(0, v as int) =~= valid_prefix(filled));
                        }
                        text.to_owned()
                    },
                    Err(_) => {
                        // Never taken: the bytes up to `v` are valid.
                        proof {
                            assert(buf@.subrange(0, v as int) =~= filled.subrange(0, v as int));
                            assert(false);
                        }
                        String::new()
                    },
                };
                // Move what follows the text to the front. Source and target may overlap; the
                // target starts no later than the source, so copying upwards loses nothing.
                let remains = e - v;
                let mut i: usize = 0;
                while i < remains
                    invariant
                        i <= remains,
                        v + remains == e <= buf@.len(),
                        buf@.len() == old(buf)@.len(),
                        forall|j: int| 0 <= j < i ==> buf@[j] == old(buf)@[v + j],
                        forall|j: int| i <= j < buf@.len() ==> buf@[j] == old(buf)@[j],
                    decreases remains - i,
                {
                    buf[i] = buf[v + i];
                    i += 1;
                }
                proof {
                    assert(buf@ =~= invalid_suffix(filled) + old(buf)@.subrange(
                        remains as int,
                        old(buf)@.len() as int,
                    ));
                }
                Ok((decoded, remains))
            },
        },
    }
}

} // verus!
