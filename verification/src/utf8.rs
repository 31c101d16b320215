use vstd::prelude::*;
use vstd::string::StringSliceAdditionalSpecFns;
use vstd::utf8::*;

verus! {

/// What the standard library reports of bytes that are not UTF-8.
pub(crate) struct Utf8Fault {
    /// Length of the longest prefix that is valid UTF-8.
    pub(crate) valid_up_to: usize,
    /// Length of the offending sequence behind that prefix; `None` where the bytes merely end
    /// in the middle of a character.
    pub(crate) error_len: Option<usize>,
}

/// Validates `bytes` with `std::str::from_utf8` and reads the two fields of its error.
///
/// Trusted, as the standard library documents it: the call succeeds exactly on valid UTF-8
/// and then returns text with these very bytes. Otherwise `valid_up_to` is the largest index
/// up to which the bytes are valid, and `error_len` is `None` exactly when the input ends
/// inside a character that more bytes could still complete; if it is `Some`, the offending
/// sequence is not empty and lies within the input.
#[verifier::external_body]
pub(crate) fn check_utf8(bytes: &[u8]) -> (r: Result<&str, Utf8Fault>)
    ensures
        match r {
            Ok(text) => valid_utf8(bytes@) && text.spec_bytes() == bytes@,
            Err(fault) => {
                let after = bytes@.subrange(fault.valid_up_to as int, bytes@.len() as int);
                &&& !valid_utf8(bytes@)
                &&& is_longest_valid_prefix(bytes@, fault.valid_up_to as int)
                &&& match fault.error_len {
                    None => is_incomplete_scalar(after),
                    Some(len) => {
                        &&& !is_incomplete_scalar(after)
                        &&& 1 <= len
                        &&& fault.valid_up_to + len <= bytes@.len()
                    },
                }
            },
        },
{
    match std::str::from_utf8(bytes) {
        Ok(text) => Ok(text),
        Err(e) => Err(Utf8Fault { valid_up_to: e.valid_up_to(), error_len: e.error_len() }),
    }
}

/// True when `rest`, put behind `bytes`, finishes the encoding of a scalar that `bytes` alone
/// begins but does not finish.
pub open spec fn completes_scalar(bytes: Seq<u8>, rest: Seq<u8>) -> bool {
    valid_first_scalar(bytes + rest) && bytes.len() < length_of_first_scalar(bytes + rest)
}

/// True when `bytes` is the beginning, and not the whole, of the UTF-8 encoding of one scalar:
/// a leading byte, followed by fewer continuation bytes than it announces, all of them so far
/// acceptable.
pub open spec fn is_incomplete_scalar(bytes: Seq<u8>) -> bool {
    bytes.len() > 0 && exists|rest: Seq<u8>| completes_scalar(bytes, rest)
}

/// True when `v` is the largest index such that the first `v` bytes are valid UTF-8.
pub open spec fn is_longest_valid_prefix(bytes: Seq<u8>, v: int) -> bool {
    &&& partial_valid_utf8(bytes, v)
    &&& forall|i: int| v < i <= bytes.len() ==> !valid_utf8(#[trigger] bytes.subrange(0, i))
}

/// Length of the longest prefix of `bytes` that is valid UTF-8, found scalar by scalar.
pub open spec fn valid_up_to(bytes: Seq<u8>) -> nat
    decreases bytes.len(),
{
    if bytes.len() > 0 && valid_first_scalar(bytes) {
        (length_of_first_scalar(bytes) + valid_up_to(pop_first_scalar(bytes))) as nat
    } else {
        0
    }
}

/// The longest prefix of `bytes` that is valid UTF-8.
pub open spec fn valid_prefix(bytes: Seq<u8>) -> Seq<u8> {
    bytes.subrange(0, valid_up_to(bytes) as int)
}

/// What follows the longest valid prefix of `bytes`.
pub open spec fn invalid_suffix(bytes: Seq<u8>) -> Seq<u8> {
    bytes.subrange(valid_up_to(bytes) as int, bytes.len() as int)
}

/// A scalar at the front of `bytes` is the scalar at the front of `bytes + rest`.
pub proof fn lemma_first_scalar_extends(bytes: Seq<u8>, rest: Seq<u8>)
    requires
        valid_first_scalar(bytes),
    ensures
        valid_first_scalar(bytes + rest),
        length_of_first_scalar(bytes + rest) == length_of_first_scalar(bytes),
        decode_first_scalar(bytes + rest) == decode_first_scalar(bytes),
        pop_first_scalar(bytes + rest) == pop_first_scalar(bytes) + rest,
        1 <= length_of_first_scalar(bytes) <= bytes.len(),
        length_of_first_scalar(bytes) <= 4,
{
    let whole = bytes + rest;
    let k = length_of_first_scalar(bytes);
    assert(forall|i: int| 0 <= i < k ==> whole[i] == bytes[i]);
    assert(pop_first_scalar(whole) =~= pop_first_scalar(bytes) + rest);
}

/// A scalar at the front of `bytes + rest` that ends within `bytes` is the scalar at the front
/// of `bytes`.
pub proof fn lemma_first_scalar_restricts(bytes: Seq<u8>, rest: Seq<u8>)
    requires
        valid_first_scalar(bytes + rest),
        length_of_first_scalar(bytes + rest) <= bytes.len(),
    ensures
        valid_first_scalar(bytes),
{
    let whole = bytes + rest;
    let k = length_of_first_scalar(whole);
    assert(1 <= k <= 4);
    assert(forall|i: int| 0 <= i < k ==> whole[i] == bytes[i]);
}

/// An incomplete scalar is one to three bytes long, and no prefix of it but the empty one is
/// valid UTF-8.
pub proof fn lemma_incomplete_scalar(bytes: Seq<u8>)
    requires
        is_incomplete_scalar(bytes),
    ensures
        1 <= bytes.len() <= 3,
        !valid_first_scalar(bytes),
        !valid_utf8(bytes),
        valid_up_to(bytes) == 0,
{
    let rest = choose|rest: Seq<u8>| completes_scalar(bytes, rest);
    if valid_first_scalar(bytes) {
        lemma_first_scalar_extends(bytes, rest);
    }
}

/// The prefix that `valid_up_to` measures is valid UTF-8, and what follows it does not begin
/// with a scalar.
pub proof fn lemma_valid_prefix(bytes: Seq<u8>)
    ensures
        valid_up_to(bytes) <= bytes.len(),
        valid_utf8(valid_prefix(bytes)),
        valid_prefix(bytes) + invalid_suffix(bytes) == bytes,
        !valid_first_scalar(invalid_suffix(bytes)),
        valid_utf8(bytes) <==> invalid_suffix(bytes).len() == 0,
    decreases bytes.len(),
{
    if bytes.len() > 0 && valid_first_scalar(bytes) {
        let tail = pop_first_scalar(bytes);
        lemma_valid_prefix(tail);
        let head = valid_prefix(bytes);
        let after = invalid_suffix(bytes);
        assert(head + after =~= bytes);
        lemma_first_scalar_restricts(head, after);
        assert(pop_first_scalar(head) =~= valid_prefix(tail));
        assert(after =~= invalid_suffix(tail));
    } else {
        assert(valid_prefix(bytes) + invalid_suffix(bytes) =~= bytes);
        assert(invalid_suffix(bytes) =~= bytes);
    }
}

/// No valid prefix of `bytes` is longer than `valid_up_to` says.
pub proof fn lemma_valid_prefix_bound(bytes: Seq<u8>, i: int)
    requires
        partial_valid_utf8(bytes, i),
    ensures
        i <= valid_up_to(bytes),
    decreases bytes.len(),
{
    if i > 0 {
        let head = bytes.subrange(0, i);
        let after = bytes.subrange(i, bytes.len() as int);
        assert(head + after =~= bytes);
        lemma_first_scalar_extends(head, after);
        let k = length_of_first_scalar(bytes);
        let tail = pop_first_scalar(bytes);
        assert(pop_first_scalar(head) =~= tail.subrange(0, i - k));
        lemma_valid_prefix_bound(tail, i - k);
    }
}

/// `valid_up_to` is the largest index up to which `bytes` is valid UTF-8, and the only one.
pub proof fn lemma_longest_valid_prefix(bytes: Seq<u8>)
    ensures
        is_longest_valid_prefix(bytes, valid_up_to(bytes) as int),
        forall|v: int| is_longest_valid_prefix(bytes, v) ==> v == valid_up_to(bytes),
{
    lemma_valid_prefix(bytes);
    assert forall|i: int| valid_up_to(bytes) < i <= bytes.len() implies !valid_utf8(
        #[trigger] bytes.subrange(0, i),
    ) by {
        if valid_utf8(bytes.subrange(0, i)) {
            lemma_valid_prefix_bound(bytes, i);
        }
    }
    assert forall|v: int| is_longest_valid_prefix(bytes, v) implies v == valid_up_to(bytes) by {
        lemma_valid_prefix_bound(bytes, v);
        if v < valid_up_to(bytes) {
            assert(!valid_utf8(bytes.subrange(0, valid_up_to(bytes) as int)));
        }
    }
}

/// Where `bytes` is the beginning of valid UTF-8, what follows its longest valid prefix is
/// nothing or an incomplete scalar, and the text decodes in two parts.
pub proof fn lemma_prefix_of_valid(bytes: Seq<u8>, rest: Seq<u8>)
    requires
        valid_utf8(bytes + rest),
    ensures
        invalid_suffix(bytes).len() > 0 ==> is_incomplete_scalar(invalid_suffix(bytes)),
        valid_utf8(invalid_suffix(bytes) + rest),
        decode_utf8(bytes + rest) == decode_utf8(valid_prefix(bytes)) + decode_utf8(
            invalid_suffix(bytes) + rest,
        ),
    decreases bytes.len(),
{
    lemma_valid_prefix(bytes);
    if bytes.len() > 0 && valid_first_scalar(bytes) {
        let tail = pop_first_scalar(bytes);
        let head = valid_prefix(bytes);
        let after = invalid_suffix(bytes);
        lemma_first_scalar_extends(bytes, rest);
        lemma_prefix_of_valid(tail, rest);
        lemma_valid_prefix(tail);
        lemma_first_scalar_restricts(head, after);
        lemma_first_scalar_extends(head, after);
        assert(pop_first_scalar(head) =~= valid_prefix(tail));
        assert(after =~= invalid_suffix(tail));
        assert(decode_utf8(bytes + rest) =~= decode_utf8(head) + decode_utf8(after + rest));
    } else if bytes.len() > 0 {
        assert(invalid_suffix(bytes) =~= bytes);
        assert(valid_prefix(bytes) =~= Seq::<u8>::empty());
        if length_of_first_scalar(bytes + rest) <= bytes.len() {
            lemma_first_scalar_restricts(bytes, rest);
        }
        assert(completes_scalar(bytes, rest));
        assert(decode_utf8(bytes + rest) =~= decode_utf8(valid_prefix(bytes)) + decode_utf8(
            bytes + rest,
        ));
    } else {
        assert(invalid_suffix(bytes) + rest =~= bytes + rest);
        assert(valid_prefix(bytes) =~= Seq::<u8>::empty());
        assert(decode_utf8(bytes + rest) =~= decode_utf8(valid_prefix(bytes)) + decode_utf8(
            bytes + rest,
        ));
    }
}

} // verus!
