//! The wire format of reported clauses.
//!
//! A stream is a run of clauses. Each clause is a series of 32-bit signed
//! little-endian words: the literals, none of them zero; a zero word that
//! ends them; and one more word, the metric value. There is no length prefix
//! and nothing between clauses.

use crate::clause::{normalize, normalized, records_of, ClauseData, Record};
use vstd::prelude::*;

verus! {

/// Bytes in a word.
pub const WORD_BYTES: usize = 4;

/// Why no clause could be read.
#[derive(Clone, Copy, Debug, PartialEq, Eq, Structural)]
pub enum DecodeError {
    /// Nothing is left to read.
    EndOfStream,
    /// The bytes end before the zero word that ends the literals.
    TruncatedLiteral,
    /// The bytes end before the metric value is complete.
    TruncatedMetric,
}

/// Whether a whole word starts at offset `at`.
pub open spec fn has_word(bytes: Seq<u8>, at: int) -> bool {
    0 <= at && at + WORD_BYTES <= bytes.len()
}

/// The word at offset `at`: four bytes, least significant first, read as a
/// signed number in two's complement.
pub open spec fn word_at(bytes: Seq<u8>, at: int) -> i32 {
    let raw: int = bytes[at] as int + 0x100 * (bytes[at + 1] as int) + 0x1_0000 * (bytes[at
        + 2] as int) + 0x100_0000 * (bytes[at + 3] as int);
    if raw >= 0x8000_0000 {
        (raw - 0x1_0000_0000) as i32
    } else {
        raw as i32
    }
}

/// Where the literals that start at `at` end: the offset of the first zero
/// word at `at` or a whole number of words behind it, or else the first
/// such offset at which no whole word is left.
pub open spec fn terminator(bytes: Seq<u8>, at: int) -> int
    decreases bytes.len() - at,
{
    if !has_word(bytes, at) || word_at(bytes, at) == 0 {
        at
    } else {
        terminator(bytes, at + 4)
    }
}

/// The words from offset `from` up to offset `to`.
pub open spec fn words_between(bytes: Seq<u8>, from: int, to: int) -> Seq<i32> {
    Seq::new(((to - from) / 4) as nat, |i: int| word_at(bytes, from + 4 * i))
}

/// The clause that starts at offset `at`, and the offset behind it.
pub open spec fn frame(bytes: Seq<u8>, at: int) -> Result<(Record, int), DecodeError> {
    let zero = terminator(bytes, at);
    if at >= bytes.len() {
        Err(DecodeError::EndOfStream)
    } else if !has_word(bytes, zero) {
        Err(DecodeError::TruncatedLiteral)
    } else if !has_word(bytes, zero + 4) {
        Err(DecodeError::TruncatedMetric)
    } else {
        Ok(
            (
                Record {
                    key: normalized(words_between(bytes, at, zero)),
                    metric: word_at(bytes, zero + 4),
                },
                zero + 8,
            ),
        )
    }
}

/// What a stream decodes to.
pub struct Decoding {
    /// The whole clauses, in the order they were sent.
    pub records: Seq<Record>,
    /// The offset behind the last whole clause.
    pub stop: int,
    /// Why no further clause could be read at that offset.
    pub end: DecodeError,
}

/// What the bytes from offset `at` on decode to: clause after clause, until
/// one cannot be read.
pub open spec fn decoding(bytes: Seq<u8>, at: int) -> Decoding
    decreases bytes.len() - at,
{
    match frame(bytes, at) {
        Ok((record, next)) => if at < next {
            let rest = decoding(bytes, next);
            Decoding { records: seq![record] + rest.records, ..rest }
        } else {
            Decoding { records: Seq::empty(), stop: at, end: DecodeError::EndOfStream }
        },
        Err(end) => Decoding { records: Seq::empty(), stop: at, end },
    }
}

/// The clauses found in a buffer.
#[derive(Debug)]
pub struct Decoded {
    /// The whole clauses, in the order they were sent.
    pub records: Vec<ClauseData>,
    /// How many bytes they took up. The bytes behind are the beginning of a
    /// clause that is not complete, or there are none.
    pub consumed: usize,
    /// Why decoding stopped.
    pub end: DecodeError,
}

impl View for Decoded {
    type V = Decoding;

    open spec fn view(&self) -> Decoding {
        Decoding {
            records: records_of(self.records@),
            stop: self.consumed as int,
            end: self.end,
        }
    }
}

/// Reads the word at offset `at`.
pub fn read_word(bytes: &[u8], at: usize) -> (word: i32)
    requires
        has_word(bytes@, at as int),
    ensures
        word == word_at(bytes@, at as int),
{
    let b0: u32 = bytes[at] as u32;
    let b1: u32 = bytes[at + 1] as u32;
    let b2: u32 = bytes[at + 2] as u32;
    let b3: u32 = bytes[at + 3] as u32;
    let raw: u32 = b0 + 0x100 * b1 + 0x1_0000 * b2 + 0x100_0000 * b3;
    if raw >= 0x8000_0000 {
        let low: u32 = raw - 0x8000_0000;
        low as i32 + i32::MIN
    } else {
        raw as i32
    }
}

/// The zero word that ends the literals is the same, wherever among them
/// the search for it starts.
proof fn lemma_terminator_from_literal(bytes: Seq<u8>, at: int)
    requires
        has_word(bytes, at),
        word_at(bytes, at) != 0,
    ensures
        terminator(bytes, at) == terminator(bytes, at + 4),
{
}

/// Reads the clause that starts at offset `at`. Gives the clause and the
/// offset behind it, or the reason why there is no whole clause.
pub fn read_clause(bytes: &[u8], at: usize) -> (result: Result<(ClauseData, usize), DecodeError>)
    ensures
        match result {
            Ok((data, next)) => frame(bytes@, at as int) == Ok::<(Record, int), DecodeError>(
                (data@, next as int),
            ),
            Err(error) => frame(bytes@, at as int) == Err::<(Record, int), DecodeError>(error),
        },
{
    if at >= bytes.len() {
        return Err(DecodeError::EndOfStream);
    }
    let mut literals: Vec<i32> = Vec::new();
    let mut pos: usize = at;
    loop
        invariant
            at <= pos <= bytes.len(),
            at < bytes.len(),
            (pos - at) % 4 == 0,
            terminator(bytes@, at as int) == terminator(bytes@, pos as int),
            literals@ == words_between(bytes@, at as int, pos as int),
        ensures
            has_word(bytes@, pos as int),
            word_at(bytes@, pos as int) == 0,
        decreases bytes.len() - pos,
    {
        if bytes.len() - pos < WORD_BYTES {
            return Err(DecodeError::TruncatedLiteral);
        }
        let word: i32 = read_word(bytes, pos);
        if word == 0 {
            break ;
        }
        proof {
            lemma_terminator_from_literal(bytes@, pos as int);
            assert(literals@.push(word) =~= words_between(bytes@, at as int, pos + 4));
        }
        literals.push(word);
        pos = pos + WORD_BYTES;
    }
    if bytes.len() - pos < 2 * WORD_BYTES {
        return Err(DecodeError::TruncatedMetric);
    }
    let lbd: i32 = read_word(bytes, pos + WORD_BYTES);
    let key = normalize(literals);
    Ok((ClauseData { literals: key, lbd }, pos + 2 * WORD_BYTES))
}

/// A clause takes up at least the zero word and the metric value.
pub proof fn lemma_frame_advances(bytes: Seq<u8>, at: int)
    ensures
        terminator(bytes, at) >= at,
        frame(bytes, at) matches Ok((_, next)) ==> at + 8 <= next <= bytes.len(),
    decreases bytes.len() - at,
{
    if has_word(bytes, at) && word_at(bytes, at) != 0 {
        lemma_frame_advances(bytes, at + 4);
    }
}

/// Reads all whole clauses from the start of a buffer.
pub fn decode_stream(bytes: &[u8]) -> (decoded: Decoded)
    ensures
        decoded@ == decoding(bytes@, 0),
        decoded.consumed <= bytes.len(),
{
    let mut records: Vec<ClauseData> = Vec::new();
    let mut pos: usize = 0;
    loop
        invariant
            pos <= bytes.len(),
            decoding(bytes@, 0).records == records_of(records@) + decoding(
                bytes@,
                pos as int,
            ).records,
            decoding(bytes@, 0).stop == decoding(bytes@, pos as int).stop,
            decoding(bytes@, 0).end == decoding(bytes@, pos as int).end,
        decreases bytes.len() - pos,
    {
        proof {
            lemma_frame_advances(bytes@, pos as int);
        }
        match read_clause(bytes, pos) {
            Ok((data, next)) => {
                proof {
                    let rest = decoding(bytes@, next as int).records;
                    assert(records_of(records@.push(data)) =~= records_of(records@).push(data@));
                    assert(records_of(records@) + (seq![data@] + rest) =~= records_of(
                        records@,
                    ).push(data@) + rest);
                }
                records.push(data);
                pos = next;
            },
            Err(end) => {
                proof {
                    assert(records_of(records@) + Seq::<Record>::empty() =~= records_of(
                        records@,
                    ));
                }
                return Decoded { records, consumed: pos, end };
            },
        }
    }
}

/// Decodes a stream that arrives in pieces.
///
/// The decoder keeps the bytes of a clause that has not arrived in full, and
/// nothing else.
#[derive(Debug)]
pub struct StreamDecoder {
    pending: Vec<u8>,
    end: DecodeError,
}

impl StreamDecoder {
    /// The bytes received behind the last whole clause.
    pub closed spec fn pending(self) -> Seq<u8> {
        self.pending@
    }

    /// Why the bytes kept are no clause yet.
    pub closed spec fn waiting_for(self) -> DecodeError {
        self.end
    }

    /// The bytes kept hold no whole clause.
    pub open spec fn wf(self) -> bool {
        decoding(self.pending(), 0) == (Decoding {
            records: Seq::empty(),
            stop: 0,
            end: self.waiting_for(),
        })
    }

    /// A decoder at the start of a stream.
    pub fn new() -> (decoder: StreamDecoder)
        ensures
            decoder.wf(),
            decoder.pending() == Seq::<u8>::empty(),
            decoder.waiting_for() == DecodeError::EndOfStream,
    {
        StreamDecoder { pending: Vec::new(), end: DecodeError::EndOfStream }
    }

    /// Takes in the next piece of the stream and gives the clauses that are
    /// now complete, in the order they were sent.
    pub fn feed(&mut self, bytes: &[u8]) -> (records: Vec<ClauseData>)
        requires
            old(self).wf(),
        ensures
            final(self).wf(),
            records_of(records@) == decoding(old(self).pending() + bytes@, 0).records,
            final(self).pending() == (old(self).pending() + bytes@).skip(
                decoding(old(self).pending() + bytes@, 0).stop,
            ),
            final(self).waiting_for() == decoding(old(self).pending() + bytes@, 0).end,
    {
        append_bytes(&mut self.pending, bytes);
        let ghost all = self.pending@;
        let decoded = decode_stream(self.pending.as_slice());
        let rest = self.pending.split_off(decoded.consumed);
        proof {
            lemma_rest_holds_no_clause(all);
            assert(rest@ =~= all.skip(decoded.consumed as int));
        }
        self.pending = rest;
        self.end = decoded.end;
        decoded.records
    }

    /// How the stream would end if no more of it came: cleanly, or in the
    /// middle of a clause.
    pub fn end(&self) -> (end: DecodeError)
        requires
            self.wf(),
        ensures
            end == self.waiting_for(),
            end == DecodeError::EndOfStream <==> self.pending().len() == 0,
    {
        proof {
            lemma_decoding_stops(self.pending(), 0);
        }
        self.end
    }

    /// Ends the stream. A stream that ends behind a whole clause, or that
    /// held nothing, ends well; one that ends inside a clause is cut short,
    /// in its literals or in its metric value.
    pub fn finish(self) -> (result: Result<(), DecodeError>)
        requires
            self.wf(),
        ensures
            result is Ok <==> self.pending().len() == 0,
            result matches Err(error) ==> error == self.waiting_for() && error
                != DecodeError::EndOfStream,
    {
        match self.end() {
            DecodeError::EndOfStream => Ok(()),
            error => Err(error),
        }
    }

    /// How many bytes of a clause not yet complete are kept.
    pub fn pending_len(&self) -> (n: usize)
        ensures
            n == self.pending().len(),
    {
        self.pending.len()
    }
}

/// Adds `bytes` to the end of `buffer`.
fn append_bytes(buffer: &mut Vec<u8>, bytes: &[u8])
    ensures
        final(buffer)@ == old(buffer)@ + bytes@,
{
    let mut i: usize = 0;
    assert(buffer@ =~= old(buffer)@ + bytes@.take(0));
    while i < bytes.len()
        invariant
            i <= bytes.len(),
            buffer@ == old(buffer)@ + bytes@.take(i as int),
        decreases bytes.len() - i,
    {
        proof {
            assert((old(buffer)@ + bytes@.take(i as int)).push(bytes@[i as int]) =~= old(buffer)@
                + bytes@.take(i + 1));
        }
        buffer.push(bytes[i]);
        i = i + 1;
    }
    proof {
        assert(bytes@.take(bytes.len() as int) =~= bytes@);
    }
}

/// What is left of a buffer behind its last whole clause holds no whole
/// clause, and breaks off as the buffer does.
pub proof fn lemma_rest_holds_no_clause(bytes: Seq<u8>)
    ensures
        0 <= decoding(bytes, 0).stop <= bytes.len(),
        decoding(bytes.skip(decoding(bytes, 0).stop), 0) == (Decoding {
            records: Seq::empty(),
            stop: 0,
            end: decoding(bytes, 0).end,
        }),
{
    let stop = decoding(bytes, 0).stop;
    lemma_decoding_resumes(bytes, Seq::empty());
    lemma_decoding_stops(bytes, 0);
    lemma_decoding_shifts(bytes, stop, 0);
}

/// Where decoding stops, no clause can be read.
pub proof fn lemma_decoding_stops(bytes: Seq<u8>, at: int)
    requires
        0 <= at,
    ensures
        at <= decoding(bytes, at).stop,
        decoding(bytes, decoding(bytes, at).stop) == (Decoding {
            records: Seq::empty(),
            stop: decoding(bytes, at).stop,
            end: decoding(bytes, at).end,
        }),
        decoding(bytes, at).end == DecodeError::EndOfStream <==> decoding(bytes, at).stop
            >= bytes.len(),
    decreases bytes.len() - at,
{
    lemma_frame_advances(bytes, at);
    match frame(bytes, at) {
        Ok((_, next)) => {
            lemma_decoding_stops(bytes, next);
        },
        Err(_) => {},
    }
}

/// A shifted decoding: the same clauses, found `by` bytes further on.
pub open spec fn moved(d: Decoding, by: int) -> Decoding {
    Decoding { stop: d.stop + by, ..d }
}

/// More bytes behind a buffer do not change where its literals end, as long
/// as they end within the buffer.
proof fn lemma_terminator_extends(a: Seq<u8>, b: Seq<u8>, at: int)
    requires
        0 <= at,
        has_word(a, terminator(a, at)),
    ensures
        terminator(a + b, at) == terminator(a, at),
    decreases a.len() - at,
{
    if has_word(a, at) {
        assert(word_at(a + b, at) == word_at(a, at));
        if word_at(a, at) != 0 {
            lemma_terminator_extends(a, b, at + 4);
        }
    }
}

/// A whole clause in a buffer is the same clause when more bytes follow.
pub proof fn lemma_frame_extends(a: Seq<u8>, b: Seq<u8>, at: int)
    requires
        0 <= at,
        frame(a, at) is Ok,
    ensures
        frame(a + b, at) == frame(a, at),
{
    let zero = terminator(a, at);
    lemma_frame_advances(a, at);
    lemma_terminator_extends(a, b, at);
    assert(word_at(a + b, zero + 4) == word_at(a, zero + 4));
    assert(words_between(a + b, at, zero) =~= words_between(a, at, zero)) by {
        assert forall|i: int| 0 <= i < (zero - at) / 4 implies #[trigger] words_between(
            a + b,
            at,
            zero,
        )[i] == words_between(a, at, zero)[i] by {
            assert(has_word(a, at + 4 * i));
        }
    }
}

/// Where the literals end does not depend on where the buffer begins.
proof fn lemma_terminator_shifts(x: Seq<u8>, k: int, at: int)
    requires
        0 <= k <= x.len(),
        0 <= at,
    ensures
        terminator(x.skip(k), at) + k == terminator(x, at + k),
    decreases x.len() - k - at,
{
    if has_word(x.skip(k), at) {
        assert(word_at(x.skip(k), at) == word_at(x, at + k));
        if word_at(x, at + k) != 0 {
            lemma_terminator_shifts(x, k, at + 4);
        }
    }
}

/// A clause read behind the first `k` bytes is the clause read in the
/// buffer without them, `k` bytes earlier.
pub proof fn lemma_frame_shifts(x: Seq<u8>, k: int, at: int)
    requires
        0 <= k <= x.len(),
        0 <= at,
    ensures
        match frame(x, at + k) {
            Ok((record, next)) => frame(x.skip(k), at) == Ok::<(Record, int), DecodeError>(
                (record, next - k),
            ),
            Err(error) => frame(x.skip(k), at) == Err::<(Record, int), DecodeError>(error),
        },
{
    let y = x.skip(k);
    let zero = terminator(y, at);
    lemma_terminator_shifts(x, k, at);
    lemma_frame_advances(y, at);
    if has_word(y, zero) && has_word(y, zero + 4) {
        assert(word_at(y, zero + 4) == word_at(x, zero + 4 + k));
        assert(words_between(y, at, zero) =~= words_between(x, at + k, zero + k)) by {
            assert forall|i: int| 0 <= i < (zero - at) / 4 implies #[trigger] words_between(
                y,
                at,
                zero,
            )[i] == words_between(x, at + k, zero + k)[i] by {
                assert(has_word(y, at + 4 * i));
            }
        }
    }
}

/// What a buffer decodes to behind its first `k` bytes is what the buffer
/// without them decodes to, `k` bytes earlier.
pub proof fn lemma_decoding_shifts(x: Seq<u8>, k: int, at: int)
    requires
        0 <= k <= x.len(),
        0 <= at,
    ensures
        decoding(x, at + k) == moved(decoding(x.skip(k), at), k),
    decreases x.len() - k - at,
{
    lemma_frame_shifts(x, k, at);
    lemma_frame_advances(x, at + k);
    match frame(x, at + k) {
        Ok((record, next)) => {
            lemma_decoding_shifts(x, k, next - k);
        },
        Err(_) => {},
    }
}

/// Decoding a stream piece by piece finds the same clauses as decoding it
/// whole. If `a` is decoded first, and what is left of it behind its last
/// whole clause is then decoded together with `b`, the clauses found are
/// those of `a + b`, in the same order, and decoding stops at the same byte
/// for the same reason. From offset `at` on, for the induction.
proof fn lemma_decoding_resumes_from(a: Seq<u8>, b: Seq<u8>, at: int)
    requires
        0 <= at <= a.len(),
    ensures
        ({
            let first = decoding(a, at);
            let second = decoding(a.skip(first.stop) + b, 0);
            &&& at <= first.stop <= a.len()
            &&& decoding(a + b, at).records == first.records + second.records
            &&& decoding(a + b, at).stop == first.stop + second.stop
            &&& decoding(a + b, at).end == second.end
        }),
    decreases a.len() - at,
{
    lemma_frame_advances(a, at);
    match frame(a, at) {
        Ok((record, next)) => {
            lemma_frame_extends(a, b, at);
            lemma_decoding_resumes_from(a, b, next);
            let first = decoding(a, next);
            let second = decoding(a.skip(first.stop) + b, 0);
            assert(seq![record] + (first.records + second.records) =~= (seq![record]
                + first.records) + second.records);
        },
        Err(_) => {
            assert(a.skip(at) + b =~= (a + b).skip(at));
            lemma_decoding_shifts(a + b, at, 0);
            assert(Seq::<Record>::empty() + decoding(a.skip(at) + b, 0).records =~= decoding(
                a.skip(at) + b,
                0,
            ).records);
        },
    }
}

/// Decoding a stream piece by piece finds the same clauses as decoding it
/// whole. If `a` is decoded first, and what is left of it behind its last
/// whole clause is then decoded together with `b`, the clauses found are
/// those of `a + b`, in the same order, and decoding stops at the same byte
/// for the same reason.
pub proof fn lemma_decoding_resumes(a: Seq<u8>, b: Seq<u8>)
    ensures
        ({
            let first = decoding(a, 0);
            let second = decoding(a.skip(first.stop) + b, 0);
            &&& 0 <= first.stop <= a.len()
            &&& decoding(a + b, 0).records == first.records + second.records
            &&& decoding(a + b, 0).stop == first.stop + second.stop
            &&& decoding(a + b, 0).end == second.end
        }),
{
    lemma_decoding_resumes_from(a, b, 0);
}

/// Only clauses received in full are decoded, and receiving more never
/// takes one back: the clauses of the first part of a stream are the first
/// clauses of the whole stream. A clause cut off at the end of the first
/// part is not among them.
pub proof fn lemma_received_part_decodes_to_prefix(a: Seq<u8>, b: Seq<u8>)
    ensures
        decoding(a, 0).records.is_prefix_of(decoding(a + b, 0).records),
        decoding(a, 0).stop <= a.len(),
{
    lemma_decoding_resumes(a, b);
}

/// The four bytes of a word, least significant first.
pub open spec fn word_bytes(word: i32) -> Seq<u8> {
    let raw: int = if word < 0 {
        word + 0x1_0000_0000
    } else {
        word as int
    };
    seq![
        (raw % 0x100) as u8,
        ((raw / 0x100) % 0x100) as u8,
        ((raw / 0x1_0000) % 0x100) as u8,
        ((raw / 0x100_0000) % 0x100) as u8,
    ]
}

/// The bytes of a series of words.
pub open spec fn words_bytes(words: Seq<i32>) -> Seq<u8>
    decreases words.len(),
{
    if words.len() == 0 {
        Seq::empty()
    } else {
        words_bytes(words.drop_last()) + word_bytes(words.last())
    }
}

/// The bytes of one clause on the wire: its literals, the zero word, and
/// the metric value.
pub open spec fn clause_bytes(literals: Seq<i32>, metric: i32) -> Seq<u8> {
    words_bytes(literals) + word_bytes(0) + word_bytes(metric)
}

/// A word written out and read back is the same word.
proof fn lemma_word_round_trip(before: Seq<u8>, word: i32, after: Seq<u8>)
    ensures
        has_word(before + word_bytes(word) + after, before.len() as int),
        word_at(before + word_bytes(word) + after, before.len() as int) == word,
{
    let x = before + word_bytes(word) + after;
    let at: int = before.len() as int;
    let w = word_bytes(word);
    assert(x[at] == w[0]);
    assert(x[at + 1] == w[1]);
    assert(x[at + 2] == w[2]);
    assert(x[at + 3] == w[3]);
}

/// Words written out take four bytes each, and each is read back where it
/// was written.
proof fn lemma_words_round_trip(words: Seq<i32>, after: Seq<u8>, i: int)
    requires
        0 <= i < words.len(),
    ensures
        words_bytes(words).len() == 4 * words.len(),
        has_word(words_bytes(words) + after, 4 * i),
        word_at(words_bytes(words) + after, 4 * i) == words[i],
    decreases words.len(),
{
    let head = words.drop_last();
    lemma_words_len(words);
    lemma_words_len(head);
    assert(words_bytes(words) + after =~= words_bytes(head) + word_bytes(words.last()) + after);
    if i == words.len() - 1 {
        lemma_word_round_trip(words_bytes(head), words.last(), after);
    } else {
        lemma_words_round_trip(head, word_bytes(words.last()) + after, i);
        assert(words_bytes(head) + (word_bytes(words.last()) + after) =~= words_bytes(words)
            + after);
    }
}

proof fn lemma_words_len(words: Seq<i32>)
    ensures
        words_bytes(words).len() == 4 * words.len(),
    decreases words.len(),
{
    if words.len() > 0 {
        lemma_words_len(words.drop_last());
    }
}

/// In a clause written out, the literals end at the zero word.
proof fn lemma_terminator_of_encoded(x: Seq<u8>, literals: Seq<i32>, i: int)
    requires
        0 <= i <= literals.len(),
        forall|j: int| 0 <= j < literals.len() ==> has_word(x, 4 * j) && word_at(x, 4 * j)
            == #[trigger] literals[j] && literals[j] != 0,
        has_word(x, 4 * (literals.len() as int)),
        word_at(x, 4 * (literals.len() as int)) == 0,
    ensures
        terminator(x, 4 * i) == 4 * literals.len(),
    decreases literals.len() - i,
{
    if i < literals.len() {
        assert(literals[i] != 0);
        lemma_terminator_of_encoded(x, literals, i + 1);
    }
}

/// A clause written out and read back, whatever follows it on the wire, is
/// the clause with its literals in key order and its metric value
/// unchanged, and reading stops right behind it.
pub proof fn lemma_clause_round_trip(literals: Seq<i32>, metric: i32, rest: Seq<u8>)
    requires
        forall|i: int| 0 <= i < literals.len() ==> #[trigger] literals[i] != 0,
    ensures
        clause_bytes(literals, metric).len() == 4 * literals.len() + 8,
        frame(clause_bytes(literals, metric) + rest, 0) == Ok::<(Record, int), DecodeError>(
            (Record { key: normalized(literals), metric }, 4 * (literals.len() as int) + 8),
        ),
{
    let n: int = literals.len() as int;
    let x = clause_bytes(literals, metric) + rest;
    lemma_words_len(literals);
    let tail = word_bytes(0) + word_bytes(metric) + rest;
    assert(x =~= words_bytes(literals) + tail);
    assert forall|j: int| 0 <= j < n implies has_word(x, 4 * j) && word_at(x, 4 * j)
        == #[trigger] literals[j] && literals[j] != 0 by {
        lemma_words_round_trip(literals, tail, j);
    }
    lemma_word_round_trip(words_bytes(literals), 0, word_bytes(metric) + rest);
    assert(x =~= words_bytes(literals) + word_bytes(0) + (word_bytes(metric) + rest));
    lemma_word_round_trip(words_bytes(literals) + word_bytes(0), metric, rest);
    lemma_terminator_of_encoded(x, literals, 0);
    assert(words_between(x, 0, 4 * n) =~= literals);
}

/// A stream that begins with a clause written out decodes to that clause,
/// followed by what the rest of the stream decodes to.
pub proof fn lemma_stream_round_trip(literals: Seq<i32>, metric: i32, rest: Seq<u8>)
    requires
        forall|i: int| 0 <= i < literals.len() ==> #[trigger] literals[i] != 0,
    ensures
        decoding(clause_bytes(literals, metric) + rest, 0).records == seq![
            Record { key: normalized(literals), metric },
        ] + decoding(rest, 0).records,
        decoding(clause_bytes(literals, metric) + rest, 0).end == decoding(rest, 0).end,
{
    let head = clause_bytes(literals, metric);
    lemma_clause_round_trip(literals, metric, rest);
    assert((head + rest).skip(head.len() as int) =~= rest);
    lemma_decoding_shifts(head + rest, head.len() as int, 0);
}

} // verus!
