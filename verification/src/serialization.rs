//! A length-prefixed binary encoding of strings and of sequences of strings.
//!
//! Every length and count is written as an unsigned little-endian integer of
//! the platform's pointer width, so a buffer is only portable between
//! platforms of the same width.

use crate::little_endian::{
    le_bytes, le_value, lemma_le_bytes_len, lemma_le_value_bound, lemma_le_value_of_bytes,
    lemma_pow256_values, push_le, read_le,
};
use std::string::FromUtf8Error;
use vstd::layout::{layout_of_primitives, unsigned_int_max_values};
use vstd::prelude::*;
use vstd::string::{to_string_from_display_ensures, StringExecFns};
use vstd::utf8::{
    decode_utf8, encode_utf8, encode_utf8_decode_utf8, encode_utf8_valid_utf8, valid_utf8,
};

verus! {

/// The error that `String::from_utf8` reports. Nothing is known of its contents.
#[verifier::external_type_specification]
#[verifier::external_body]
pub struct ExFromUtf8Error(std::string::FromUtf8Error);

/// The errors that can occur while decoding a buffer.
#[derive(Debug, PartialEq, Eq)]
pub enum SerializationError {
    /// The buffer holds fewer bytes than are needed: the number needed, then
    /// the number found.
    UnexpectedByteCount(usize, usize),
    /// The bytes of a string are not valid UTF-8.
    InvalidString { source: FromUtf8Error },
    /// The decoded text was rejected by the target type; the message is the
    /// target type's own.
    InvalidValue(String),
}

impl SerializationError {
    /// The message for a reader: what was wrong with the buffer.
    pub fn message(&self) -> (text: String)
        ensures
            match *self {
                SerializationError::UnexpectedByteCount(expected, actual) => exists|
                    needed: String,
                    found: String,
                | #[trigger]
                    to_string_from_display_ensures::<usize>(&expected, needed) && #[trigger]
                    to_string_from_display_ensures::<usize>(&actual, found) && text@
                        == "Expected "@ + needed@ + " bytes, found "@ + found@,
                SerializationError::InvalidString { .. } => text@
                    == "Could not deserialize to string, invalid UTF8"@,
                SerializationError::InvalidValue(message) => text@ == message@,
            },
    {
        match self {
            SerializationError::UnexpectedByteCount(expected, actual) => {
                let needed = expected.to_string();
                let found = actual.to_string();
                String::from_str("Expected ").concat(needed.as_str()).concat(
                    " bytes, found ",
                ).concat(found.as_str())
            },
            SerializationError::InvalidString { .. } => String::from_str(
                "Could not deserialize to string, invalid UTF8",
            ),
            SerializationError::InvalidValue(message) => message.clone(),
        }
    }
}

/// The number of bytes of a length or count prefix.
pub open spec fn prefix_width() -> nat {
    vstd::layout::size_of::<usize>()
}

/// The wire form of a text: the byte length of its UTF-8 form, then that form.
pub open spec fn string_encoding(text: Seq<char>) -> Seq<u8> {
    le_bytes(encode_utf8(text).len(), prefix_width()) + encode_utf8(text)
}

/// Whether the UTF-8 form of `text` has a length that a prefix can hold, as
/// that of every string in memory does.
pub open spec fn fits_prefix(text: Seq<char>) -> bool {
    encode_utf8(text).len() <= usize::MAX
}

/// The prefix width is four or eight bytes, and exactly the values of `usize`
/// fit into it.
pub proof fn lemma_prefix_width()
    ensures
        prefix_width() == 4 || prefix_width() == 8,
        vstd::arithmetic::power::pow(256, prefix_width()) == usize::MAX + 1,
{
    broadcast use layout_of_primitives;

    unsigned_int_max_values();
    assert(vstd::layout::size_of::<usize>() * 8 == usize::BITS);
}

/// Appends `value` to `buffer` as a length or count prefix.
fn push_prefix(value: usize, buffer: &mut Vec<u8>)
    ensures
        final(buffer)@ == old(buffer)@ + le_bytes(value as nat, prefix_width()),
{
    let width = core::mem::size_of::<usize>();
    push_le(value as u64, width, buffer);
}

/// Appends the wire form of `value` to the buffer.
pub fn serialize_text(value: &str, buffer: &mut Vec<u8>)
    ensures
        final(buffer)@ == old(buffer)@ + string_encoding(value@),
        fits_prefix(value@),
{
    let bytes = value.as_bytes();
    let ghost before = buffer@;
    push_prefix(bytes.len(), buffer);
    buffer.extend_from_slice(bytes);
    assert(buffer@ =~= before + string_encoding(value@));
}

/// Appends the string representation of the given value to the buffer: the
/// wire form of the text that `value` converts into.
pub fn serialize_string<T: Into<String>>(value: T, buffer: &mut Vec<u8>)
    ensures
        exists|text: String| #[trigger]
            call_ensures(<T as Into<String>>::into, (value,), text) && fits_prefix(text@)
                && final(buffer)@ == old(buffer)@ + string_encoding(text@),
{
    let text: String = value.into();
    serialize_text(text.as_str(), buffer);
}

/// Prepends the length of the buffer to the buffer.
pub fn finalize_serialization(buffer: &mut Vec<u8>)
    ensures
        final(buffer)@ == le_bytes(old(buffer)@.len(), prefix_width()) + old(buffer)@,
{
    let mut framed: Vec<u8> = Vec::new();
    push_prefix(buffer.len(), &mut framed);
    framed.append(buffer);
    *buffer = framed;
    assert(buffer@ =~= le_bytes(old(buffer)@.len(), prefix_width()) + old(buffer)@);
}

/// Removes a usize for the following value from the buffer.
/// If the buffer does not contain enough elements to create a usize, the
/// buffer is unchanged and an error is returned.
pub fn remove_usize(buffer: &mut Vec<u8>) -> (result: Result<usize, SerializationError>)
    ensures
        old(buffer)@.len() < prefix_width() ==> final(buffer)@ == old(buffer)@ && result == Err::<
            usize,
            SerializationError,
        >(
            SerializationError::UnexpectedByteCount(
                prefix_width() as usize,
                old(buffer)@.len() as usize,
            ),
        ),
        old(buffer)@.len() >= prefix_width() ==> final(buffer)@ == old(buffer)@.skip(
            prefix_width() as int,
        ) && result is Ok && result->Ok_0 as nat == le_value(
            old(buffer)@.take(prefix_width() as int),
        ),
{
    let width = core::mem::size_of::<usize>();
    proof {
        lemma_prefix_width();
    }
    if buffer.len() < width {
        return Err(SerializationError::UnexpectedByteCount(width, buffer.len()));
    }
    let value = read_le(buffer, width);
    proof {
        lemma_le_value_bound(buffer@.take(width as int));
    }
    let rest = buffer.split_off(width);
    *buffer = rest;
    assert(buffer@ =~= old(buffer)@.skip(width as int));
    Ok(value as usize)
}

/// Removes a u32 for the following value from the buffer.
/// If the buffer does not contain enough elements to create a u32, the
/// buffer is unchanged and an error is returned.
pub fn remove_u32(buffer: &mut Vec<u8>) -> (result: Result<u32, SerializationError>)
    ensures
        old(buffer)@.len() < 4 ==> final(buffer)@ == old(buffer)@ && result == Err::<
            u32,
            SerializationError,
        >(SerializationError::UnexpectedByteCount(4, old(buffer)@.len() as usize)),
        old(buffer)@.len() >= 4 ==> final(buffer)@ == old(buffer)@.skip(4) && result is Ok
            && result->Ok_0 as nat == le_value(old(buffer)@.take(4)),
{
    let width: usize = 4;
    if buffer.len() < width {
        return Err(SerializationError::UnexpectedByteCount(width, buffer.len()));
    }
    let value = read_le(buffer, width);
    proof {
        lemma_le_value_bound(buffer@.take(4));
        lemma_pow256_values();
    }
    let rest = buffer.split_off(width);
    *buffer = rest;
    assert(buffer@ =~= old(buffer)@.skip(4));
    Ok(value as u32)
}

/// What reading one string from the head of a buffer finds.
pub enum TextOutcome {
    /// A complete and valid string, as its text.
    Text(Seq<char>),
    /// Fewer bytes than are needed: the number needed, then the number found.
    Truncated { expected: nat, actual: nat },
    /// A complete payload that is not valid UTF-8.
    NotUtf8,
}

/// The outcome of reading one string, and the bytes that are left in the buffer.
pub struct TextStep {
    pub outcome: TextOutcome,
    pub rest: Seq<u8>,
}

/// Reads one string from the head of `bytes`.
///
/// A buffer too short for the prefix is left as it is. Once the prefix has
/// been read it is gone; a payload shorter than the prefix declares takes
/// every remaining byte with it, and a complete payload is removed whether or
/// not it is valid UTF-8.
pub open spec fn decode_text(bytes: Seq<u8>) -> TextStep {
    let width = prefix_width() as int;
    if bytes.len() < width {
        TextStep {
            outcome: TextOutcome::Truncated { expected: prefix_width(), actual: bytes.len() },
            rest: bytes,
        }
    } else {
        let declared = le_value(bytes.take(width));
        let body = bytes.skip(width);
        if body.len() < declared {
            TextStep {
                outcome: TextOutcome::Truncated { expected: declared, actual: body.len() },
                rest: Seq::empty(),
            }
        } else {
            let payload = body.take(declared as int);
            TextStep {
                outcome: if valid_utf8(payload) {
                    TextOutcome::Text(decode_utf8(payload))
                } else {
                    TextOutcome::NotUtf8
                },
                rest: body.skip(declared as int),
            }
        }
    }
}

/// Whether `error` is the error that reports the failed outcome `outcome`.
pub open spec fn is_fault(error: SerializationError, outcome: TextOutcome) -> bool {
    match outcome {
        TextOutcome::Text(_) => false,
        TextOutcome::Truncated { expected, actual } => error
            == SerializationError::UnexpectedByteCount(expected as usize, actual as usize),
        TextOutcome::NotUtf8 => error is InvalidString,
    }
}

/// Whether `result` is what converting `text` into a `T` gives: the value
/// that `T`'s conversion accepts `text` as, or `InvalidValue` where the
/// conversion rejects it.
pub open spec fn converts_to<T: TryFrom<String>>(
    text: Seq<char>,
    result: Result<T, SerializationError>,
) -> bool {
    exists|source: String, converted: Result<T, <T as TryFrom<String>>::Error>|
        source@ == text && #[trigger] call_ensures(
            <T as TryFrom<String>>::try_from,
            (source,),
            converted,
        ) && match converted {
            Ok(value) => result == Ok::<T, SerializationError>(value),
            Err(_) => result is Err && result->Err_0 is InvalidValue,
        }
}

/// `String::from_utf8`: succeeds exactly on valid UTF-8, and the string it
/// then returns has the given bytes as its UTF-8 form.
#[verifier::external_body]
fn string_from_utf8(bytes: Vec<u8>) -> (result: Result<String, FromUtf8Error>)
    ensures
        result is Ok <==> valid_utf8(bytes@),
        result is Ok ==> encode_utf8(result->Ok_0@) == bytes@,
{
    String::from_utf8(bytes)
}

/// Removes the next string from the buffer, as plain text.
pub fn deserialize_text(buffer: &mut Vec<u8>) -> (result: Result<String, SerializationError>)
    ensures
        final(buffer)@ == decode_text(old(buffer)@).rest,
        match decode_text(old(buffer)@).outcome {
            TextOutcome::Text(text) => result is Ok && result->Ok_0@ == text,
            fault => result is Err && is_fault(result->Err_0, fault),
        },
{
    let declared = match remove_usize(buffer) {
        Ok(declared) => declared,
        Err(error) => {
            return Err(error);
        },
    };
    let available = buffer.len();
    if available < declared {
        buffer.clear();
        return Err(SerializationError::UnexpectedByteCount(declared, available));
    }
    let rest = buffer.split_off(declared);
    let mut payload: Vec<u8> = Vec::new();
    payload.append(buffer);
    *buffer = rest;
    proof {
        let body = old(buffer)@.skip(prefix_width() as int);
        assert(payload@ =~= body.take(declared as int));
        assert(buffer@ =~= body.skip(declared as int));
    }
    match string_from_utf8(payload) {
        Ok(text) => {
            proof {
                encode_utf8_decode_utf8(text@);
            }
            Ok(text)
        },
        Err(source) => Err(SerializationError::InvalidString { source }),
    }
}

/// `ToString::to_string` on an error of the target type. The message is
/// whatever that type's implementation writes, so nothing is claimed of it.
#[verifier::external_body]
fn error_message<E: ToString>(error: &E) -> String {
    error.to_string()
}

/// Turns the outcome of a conversion into the outcome of decoding: a
/// rejected text becomes `InvalidValue` with the conversion's own message.
pub fn conversion_result<T, E: ToString>(converted: Result<T, E>) -> (result: Result<
    T,
    SerializationError,
>)
    ensures
        match converted {
            Ok(value) => result == Ok::<T, SerializationError>(value),
            Err(_) => result is Err && result->Err_0 is InvalidValue,
        },
{
    match converted {
        Ok(value) => Ok(value),
        Err(error) => Err(SerializationError::InvalidValue(error_message(&error))),
    }
}

/// Removes the next string value from the buffer and converts it into a `T`.
pub fn deserialize_string<T: TryFrom<String>>(buffer: &mut Vec<u8>) -> (result: Result<
    T,
    SerializationError,
>) where <T as TryFrom<String>>::Error: ToString
    ensures
        final(buffer)@ == decode_text(old(buffer)@).rest,
        match decode_text(old(buffer)@).outcome {
            TextOutcome::Text(text) => converts_to(text, result),
            fault => result is Err && is_fault(result->Err_0, fault),
        },
{
    match deserialize_text(buffer) {
        Ok(text) => conversion_result(T::try_from(text)),
        Err(error) => Err(error),
    }
}

/// The wire forms of the texts, one after the other.
pub open spec fn strings_encoding(texts: Seq<Seq<char>>) -> Seq<u8>
    decreases texts.len(),
{
    if texts.len() == 0 {
        Seq::empty()
    } else {
        string_encoding(texts[0]) + strings_encoding(texts.drop_first())
    }
}

/// The wire form of a sequence of texts: their number, then each in order.
pub open spec fn sequence_encoding(texts: Seq<Seq<char>>) -> Seq<u8> {
    le_bytes(texts.len(), prefix_width()) + strings_encoding(texts)
}

/// Whether `text` is a text that `value` converts into.
pub open spec fn text_of<T: Into<String>>(value: T, text: Seq<char>) -> bool {
    exists|converted: String| #[trigger]
        call_ensures(<T as Into<String>>::into, (value,), converted) && converted@ == text
}

/// Whether `texts` are, in order, texts that the `values` convert into, each
/// of a length that a prefix can hold.
pub open spec fn texts_of<T: Into<String>>(values: Seq<T>, texts: Seq<Seq<char>>) -> bool {
    &&& texts.len() == values.len()
    &&& forall|i: int|
        0 <= i < values.len() ==> text_of(#[trigger] values[i], texts[i]) && fits_prefix(texts[i])
}

/// Encoding one more text appends its wire form.
pub proof fn lemma_strings_encoding_push(texts: Seq<Seq<char>>, text: Seq<char>)
    ensures
        strings_encoding(texts.push(text)) == strings_encoding(texts) + string_encoding(text),
    decreases texts.len(),
{
    let longer = texts.push(text);
    if texts.len() == 0 {
        assert(longer.drop_first() =~= Seq::<Seq<char>>::empty());
        assert(strings_encoding(longer.drop_first()) =~= Seq::<u8>::empty());
        assert(strings_encoding(longer) =~= strings_encoding(texts) + string_encoding(text));
    } else {
        lemma_strings_encoding_push(texts.drop_first(), text);
        assert(longer.drop_first() =~= texts.drop_first().push(text));
        assert(strings_encoding(longer) =~= strings_encoding(texts) + string_encoding(text));
    }
}

/// Appends the given collection to the buffer: the number of its items, then
/// the wire form of the text that each item converts into, in order.
pub fn serialize_vec<T: Into<String>>(value: Vec<T>, buffer: &mut Vec<u8>)
    ensures
        exists|texts: Seq<Seq<char>>| #[trigger]
            texts_of(value@, texts) && final(buffer)@ == old(buffer)@ + sequence_encoding(texts),
{
    push_prefix(value.len(), buffer);
    let ghost mut texts: Seq<Seq<char>> = Seq::empty();
    assert(buffer@ =~= old(buffer)@ + le_bytes(value@.len(), prefix_width()) + strings_encoding(
        texts,
    ));
    for item in items: value.into_iter()
        invariant
            items.seq() == value@,
            texts.len() == items.index(),
            forall|i: int|
                0 <= i < texts.len() ==> text_of(#[trigger] value@[i], texts[i]) && fits_prefix(
                    texts[i],
                ),
            buffer@ == old(buffer)@ + le_bytes(value@.len(), prefix_width()) + strings_encoding(
                texts,
            ),
    {
        let ghost before = buffer@;
        let ghost done = texts;
        serialize_string(item, buffer);
        proof {
            let text = choose|text: String| #[trigger]
                call_ensures(<T as Into<String>>::into, (item,), text) && fits_prefix(text@)
                    && buffer@ == before + string_encoding(text@);
            texts = done.push(text@);
            lemma_strings_encoding_push(done, text@);
            assert(text_of(item, text@));
            assert(buffer@ =~= old(buffer)@ + le_bytes(value@.len(), prefix_width())
                + strings_encoding(texts));
        }
    }
    assert(texts_of(value@, texts));
    assert(buffer@ =~= old(buffer)@ + sequence_encoding(texts));
}

/// The outcome of reading several strings in a row, and the bytes that are
/// left in the buffer: all the texts in order, or the first failure.
pub struct TextsStep {
    pub outcome: Result<Seq<Seq<char>>, TextOutcome>,
    pub rest: Seq<u8>,
}

/// Reads `count` strings from the head of `bytes`, stopping at the first that
/// fails.
pub open spec fn decode_texts(bytes: Seq<u8>, count: nat) -> TextsStep
    decreases count,
{
    if count == 0 {
        TextsStep { outcome: Ok(Seq::empty()), rest: bytes }
    } else {
        let first = decode_text(bytes);
        match first.outcome {
            TextOutcome::Text(text) => {
                let more = decode_texts(first.rest, (count - 1) as nat);
                TextsStep {
                    outcome: match more.outcome {
                        Ok(texts) => Ok(seq![text] + texts),
                        Err(fault) => Err(fault),
                    },
                    rest: more.rest,
                }
            },
            fault => TextsStep { outcome: Err(fault), rest: first.rest },
        }
    }
}

/// Reads a sequence of strings from the head of `bytes`: a count, then that
/// many strings. A buffer too short for the count is left as it is.
pub open spec fn decode_sequence(bytes: Seq<u8>) -> TextsStep {
    let width = prefix_width() as int;
    if bytes.len() < width {
        TextsStep {
            outcome: Err(
                TextOutcome::Truncated { expected: prefix_width(), actual: bytes.len() },
            ),
            rest: bytes,
        }
    } else {
        decode_texts(bytes.skip(width), le_value(bytes.take(width)))
    }
}

/// What reading one string more adds to what reading `count` strings found.
pub open spec fn decode_texts_next(bytes: Seq<u8>, count: nat) -> TextsStep {
    let so_far = decode_texts(bytes, count);
    match so_far.outcome {
        Ok(texts) => {
            let next = decode_text(so_far.rest);
            match next.outcome {
                TextOutcome::Text(text) => TextsStep {
                    outcome: Ok(texts.push(text)),
                    rest: next.rest,
                },
                fault => TextsStep { outcome: Err(fault), rest: next.rest },
            }
        },
        Err(_) => so_far,
    }
}

/// Reading `count + 1` strings is reading `count` strings and then one more;
/// after a failure nothing more is read.
pub proof fn lemma_decode_texts_next(bytes: Seq<u8>, count: nat)
    ensures
        decode_texts(bytes, count + 1) == decode_texts_next(bytes, count),
        decode_texts(bytes, count).outcome is Ok ==> decode_texts(bytes, count).outcome->Ok_0.len()
            == count,
    decreases count,
{
    let first = decode_text(bytes);
    if count == 0 {
        match first.outcome {
            TextOutcome::Text(text) => {
                assert(decode_texts(first.rest, 0).outcome == Ok::<Seq<Seq<char>>, TextOutcome>(
                    Seq::empty(),
                ));
                assert(seq![text] + Seq::<Seq<char>>::empty() =~= Seq::<Seq<char>>::empty().push(
                    text,
                ));
            },
            _ => {},
        }
    } else {
        match first.outcome {
            TextOutcome::Text(text) => {
                let fewer = (count - 1) as nat;
                lemma_decode_texts_next(first.rest, fewer);
                let so_far = decode_texts(first.rest, fewer);
                match so_far.outcome {
                    Ok(texts) => {
                        let next = decode_text(so_far.rest);
                        match next.outcome {
                            TextOutcome::Text(last) => {
                                assert(seq![text] + texts.push(last) =~= (seq![text]
                                    + texts).push(last));
                            },
                            _ => {},
                        }
                    },
                    Err(_) => {},
                }
            },
            _ => {},
        }
    }
}

/// Once reading has failed, asking for more strings changes nothing.
pub proof fn lemma_decode_texts_failed(bytes: Seq<u8>, count: nat, more: nat)
    requires
        count <= more,
        decode_texts(bytes, count).outcome is Err,
    ensures
        decode_texts(bytes, more) == decode_texts(bytes, count),
    decreases more - count,
{
    if count < more {
        lemma_decode_texts_next(bytes, count);
        lemma_decode_texts_failed(bytes, count + 1, more);
    }
}

/// The texts of the strings, in order.
pub open spec fn texts_view(values: Seq<String>) -> Seq<Seq<char>> {
    Seq::new(values.len(), |i: int| values[i]@)
}

/// Appends the given strings to the buffer: their number, then the wire form
/// of each, in order.
pub fn serialize_texts(values: &Vec<String>, buffer: &mut Vec<u8>)
    ensures
        final(buffer)@ == old(buffer)@ + sequence_encoding(texts_view(values@)),
        forall|i: int| 0 <= i < values@.len() ==> fits_prefix(#[trigger] values@[i]@),
{
    let ghost texts = texts_view(values@);
    push_prefix(values.len(), buffer);
    assert(texts.take(0) =~= Seq::<Seq<char>>::empty());
    assert(buffer@ =~= old(buffer)@ + le_bytes(texts.len(), prefix_width()) + strings_encoding(
        texts.take(0),
    ));
    let mut done: usize = 0;
    while done < values.len()
        invariant
            done <= values@.len(),
            texts == texts_view(values@),
            forall|i: int| 0 <= i < done ==> fits_prefix(#[trigger] values@[i]@),
            buffer@ == old(buffer)@ + le_bytes(texts.len(), prefix_width()) + strings_encoding(
                texts.take(done as int),
            ),
        decreases values@.len() - done,
    {
        let ghost before = buffer@;
        serialize_text(values[done].as_str(), buffer);
        proof {
            let written = texts.take(done as int);
            lemma_strings_encoding_push(written, values@[done as int]@);
            assert(texts.take(done + 1) =~= written.push(values@[done as int]@));
            assert(buffer@ =~= old(buffer)@ + le_bytes(texts.len(), prefix_width())
                + strings_encoding(texts.take(done + 1)));
        }
        done = done + 1;
    }
    assert(texts.take(done as int) =~= texts);
    assert(buffer@ =~= old(buffer)@ + sequence_encoding(texts));
}

/// Removes the next collection of strings from the buffer, as plain text.
///
/// A buffer too short for the count is left unchanged. After any later
/// failure the buffer holds what was left when reading stopped, which is of
/// no further use.
pub fn deserialize_texts(buffer: &mut Vec<u8>) -> (result: Result<Vec<String>, SerializationError>)
    ensures
        final(buffer)@ == decode_sequence(old(buffer)@).rest,
        match decode_sequence(old(buffer)@).outcome {
            Ok(texts) => result is Ok && texts_view(result->Ok_0@) == texts,
            Err(fault) => result is Err && is_fault(result->Err_0, fault),
        },
{
    let count = match remove_usize(buffer) {
        Ok(count) => count,
        Err(error) => {
            return Err(error);
        },
    };
    let ghost body = buffer@;
    let mut values: Vec<String> = Vec::new();
    let mut done: usize = 0;
    assert(texts_view(values@) =~= Seq::<Seq<char>>::empty());
    while done < count
        invariant
            done <= count,
            old(buffer)@.len() >= prefix_width(),
            body == old(buffer)@.skip(prefix_width() as int),
            count as nat == le_value(old(buffer)@.take(prefix_width() as int)),
            values@.len() == done,
            decode_texts(body, done as nat) == (TextsStep {
                outcome: Ok(texts_view(values@)),
                rest: buffer@,
            }),
        decreases count - done,
    {
        let ghost earlier = texts_view(values@);
        proof {
            lemma_decode_texts_next(body, done as nat);
        }
        match deserialize_text(buffer) {
            Ok(text) => {
                values.push(text);
                assert(texts_view(values@) =~= earlier.push(text@));
            },
            Err(error) => {
                proof {
                    lemma_decode_texts_failed(body, (done + 1) as nat, count as nat);
                }
                return Err(error);
            },
        }
        done = done + 1;
    }
    Ok(values)
}

/// Whether the item at position `index` was read as text and then rejected
/// by `T`'s conversion, which left `error` and the buffer as `rest`.
pub open spec fn rejected_at<T: TryFrom<String>>(
    bytes: Seq<u8>,
    index: nat,
    error: SerializationError,
    rest: Seq<u8>,
) -> bool {
    let read = decode_texts(bytes, index + 1);
    &&& read.outcome is Ok
    &&& read.rest == rest
    &&& converts_to::<T>(read.outcome->Ok_0[index as int], Err(error))
}

/// Removes the next collection of strings from the buffer, converting each
/// into a `T` as soon as it is read.
///
/// A buffer too short for the count is left unchanged. After any later
/// failure the buffer holds what was left when reading stopped, which is of
/// no further use.
pub fn deserialize_vec<T: TryFrom<String>>(buffer: &mut Vec<u8>) -> (result: Result<
    Vec<T>,
    SerializationError,
>) where <T as TryFrom<String>>::Error: ToString
    ensures
        old(buffer)@.len() < prefix_width() ==> final(buffer)@ == old(buffer)@ && result == Err::<
            Vec<T>,
            SerializationError,
        >(
            SerializationError::UnexpectedByteCount(
                prefix_width() as usize,
                old(buffer)@.len() as usize,
            ),
        ),
        old(buffer)@.len() >= prefix_width() ==> ({
            let body = old(buffer)@.skip(prefix_width() as int);
            let read = decode_sequence(old(buffer)@);
            match result {
                Ok(values) => {
                    &&& read.outcome is Ok
                    &&& final(buffer)@ == read.rest
                    &&& values@.len() == read.outcome->Ok_0.len()
                    &&& forall|i: int|
                        0 <= i < values@.len() ==> converts_to(
                            #[trigger] read.outcome->Ok_0[i],
                            Ok::<T, SerializationError>(values@[i]),
                        )
                },
                Err(error) => {
                    ||| read.outcome is Err && is_fault(error, read.outcome->Err_0)
                        && final(buffer)@ == read.rest
                    ||| exists|index: nat|
                        index < le_value(old(buffer)@.take(prefix_width() as int)) && #[trigger]
                        rejected_at::<T>(body, index, error, final(buffer)@)
                },
            }
        }),
{
    let count = match remove_usize(buffer) {
        Ok(count) => count,
        Err(error) => {
            return Err(error);
        },
    };
    let ghost body = buffer@;
    let ghost mut texts: Seq<Seq<char>> = Seq::empty();
    let mut values: Vec<T> = Vec::new();
    let mut done: usize = 0;
    while done < count
        invariant
            done <= count,
            old(buffer)@.len() >= prefix_width(),
            body == old(buffer)@.skip(prefix_width() as int),
            count as nat == le_value(old(buffer)@.take(prefix_width() as int)),
            values@.len() == done,
            decode_texts(body, done as nat) == (TextsStep { outcome: Ok(texts), rest: buffer@ }),
            texts.len() == done,
            forall|i: int|
                0 <= i < done ==> converts_to(
                    #[trigger] texts[i],
                    Ok::<T, SerializationError>(values@[i]),
                ),
        decreases count - done,
    {
        let ghost before = buffer@;
        let ghost earlier = texts;
        proof {
            lemma_decode_texts_next(body, done as nat);
        }
        match deserialize_string::<T>(buffer) {
            Ok(value) => {
                values.push(value);
                proof {
                    let text = decode_text(before).outcome->Text_0;
                    texts = earlier.push(text);
                }
            },
            Err(error) => {
                proof {
                    match decode_text(before).outcome {
                        TextOutcome::Text(text) => {
                            assert(decode_texts(body, (done + 1) as nat).outcome->Ok_0[done as int]
                                == text);
                            assert(rejected_at::<T>(body, done as nat, error, buffer@));
                        },
                        _ => {
                            lemma_decode_texts_failed(body, (done + 1) as nat, count as nat);
                        },
                    }
                }
                return Err(error);
            },
        }
        done = done + 1;
    }
    Ok(values)
}

/// Reading a string from its own wire form gives the text back and leaves
/// exactly what followed it. This holds of the empty text and of text with
/// characters of several bytes alike.
pub proof fn lemma_string_round_trip(text: Seq<char>, tail: Seq<u8>)
    requires
        fits_prefix(text),
    ensures
        decode_text(string_encoding(text) + tail) == (TextStep {
            outcome: TextOutcome::Text(text),
            rest: tail,
        }),
{
    let payload = encode_utf8(text);
    let prefix = le_bytes(payload.len(), prefix_width());
    let bytes = string_encoding(text) + tail;
    let width = prefix_width() as int;
    lemma_prefix_width();
    lemma_le_bytes_len(payload.len(), prefix_width());
    lemma_le_value_of_bytes(payload.len(), prefix_width());
    assert(bytes.take(width) =~= prefix);
    let body = bytes.skip(width);
    assert(body =~= payload + tail);
    assert(body.take(payload.len() as int) =~= payload);
    assert(body.skip(payload.len() as int) =~= tail);
    encode_utf8_valid_utf8(text);
    encode_utf8_decode_utf8(text);
}

/// Reading as many strings as were written, from their wire forms in a row,
/// gives the texts back in order and leaves exactly what followed them.
pub proof fn lemma_strings_round_trip(texts: Seq<Seq<char>>, tail: Seq<u8>)
    requires
        forall|i: int| 0 <= i < texts.len() ==> fits_prefix(#[trigger] texts[i]),
    ensures
        decode_texts(strings_encoding(texts) + tail, texts.len()) == (TextsStep {
            outcome: Ok(texts),
            rest: tail,
        }),
    decreases texts.len(),
{
    if texts.len() == 0 {
        assert(strings_encoding(texts) + tail =~= tail);
        assert(texts =~= Seq::<Seq<char>>::empty());
    } else {
        let later = texts.drop_first();
        let after = strings_encoding(later) + tail;
        assert(strings_encoding(texts) + tail =~= string_encoding(texts[0]) + after);
        lemma_string_round_trip(texts[0], after);
        assert forall|i: int| 0 <= i < later.len() implies fits_prefix(#[trigger] later[i]) by {
            assert(later[i] == texts[i + 1]);
        }
        lemma_strings_round_trip(later, tail);
        assert(seq![texts[0]] + later =~= texts);
    }
}

/// Reading a sequence from its own wire form gives the texts back in the
/// order they were written in and leaves exactly what followed it. This holds of the
/// empty sequence too.
pub proof fn lemma_sequence_round_trip(texts: Seq<Seq<char>>, tail: Seq<u8>)
    requires
        texts.len() <= usize::MAX,
        forall|i: int| 0 <= i < texts.len() ==> fits_prefix(#[trigger] texts[i]),
    ensures
        decode_sequence(sequence_encoding(texts) + tail) == (TextsStep {
            outcome: Ok(texts),
            rest: tail,
        }),
{
    let prefix = le_bytes(texts.len(), prefix_width());
    let bytes = sequence_encoding(texts) + tail;
    let width = prefix_width() as int;
    lemma_prefix_width();
    lemma_le_bytes_len(texts.len(), prefix_width());
    lemma_le_value_of_bytes(texts.len(), prefix_width());
    assert(bytes.take(width) =~= prefix);
    assert(bytes.skip(width) =~= strings_encoding(texts) + tail);
    lemma_strings_round_trip(texts, tail);
}

/// A buffer that is too short for a prefix reads as truncated, with the
/// prefix width as the number needed, and stays as it is. The empty buffer
/// is the first such.
pub proof fn lemma_short_buffer_is_truncated(bytes: Seq<u8>)
    requires
        bytes.len() < prefix_width(),
    ensures
        decode_text(bytes) == (TextStep {
            outcome: TextOutcome::Truncated { expected: prefix_width(), actual: bytes.len() },
            rest: bytes,
        }),
        decode_sequence(bytes) == (TextsStep {
            outcome: Err(
                TextOutcome::Truncated { expected: prefix_width(), actual: bytes.len() },
            ),
            rest: bytes,
        }),
{
}

/// A complete payload that is not valid UTF-8 reads as `NotUtf8`, which only
/// `InvalidString` reports, and is removed from the buffer with its prefix.
pub proof fn lemma_invalid_payload_is_reported(payload: Seq<u8>, tail: Seq<u8>)
    requires
        payload.len() <= usize::MAX,
        !valid_utf8(payload),
    ensures
        decode_text(le_bytes(payload.len(), prefix_width()) + payload + tail) == (TextStep {
            outcome: TextOutcome::NotUtf8,
            rest: tail,
        }),
        forall|error: SerializationError|
            is_fault(error, TextOutcome::NotUtf8) <==> error is InvalidString,
{
    let prefix = le_bytes(payload.len(), prefix_width());
    let bytes = prefix + payload + tail;
    let width = prefix_width() as int;
    lemma_prefix_width();
    lemma_le_bytes_len(payload.len(), prefix_width());
    lemma_le_value_of_bytes(payload.len(), prefix_width());
    assert(bytes.take(width) =~= prefix);
    let body = bytes.skip(width);
    assert(body =~= payload + tail);
    assert(body.take(payload.len() as int) =~= payload);
    assert(body.skip(payload.len() as int) =~= tail);
}

} // verus!
