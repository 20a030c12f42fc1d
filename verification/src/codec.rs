//! Splitting a key line into TXT character strings and joining them again.
//!
//! A TXT character string holds at most 255 bytes. A line is cut greedily:
//! each chunk but the last is the longest run of whole characters that still
//! fits.

use crate::text::{
    byte_len, char_width, lemma_byte_len_concat, lemma_byte_len_encoded, lemma_byte_len_push,
    lemma_encode_utf8_concat, to_chars, utf8_width,
};
use vstd::prelude::*;
use vstd::seq_lib::lemma_flatten_concat;
use vstd::string::*;
use vstd::utf8::*;

verus! {

/// The most bytes that one TXT character string can hold.
pub const MAX_CHUNK_BYTES: usize = 255;

/// One TXT character string: a text of at most 255 bytes in UTF-8.
#[derive(Debug, PartialEq, Eq)]
pub struct TxtChunk {
    text: String,
}

impl View for TxtChunk {
    type V = Seq<char>;

    closed spec fn view(&self) -> Seq<char> {
        self.text@
    }
}

impl TxtChunk {
    #[verifier::type_invariant]
    spec fn within_limit(&self) -> bool {
        byte_len(self.text@) <= MAX_CHUNK_BYTES
    }

    /// The chunk that holds `text`, if `text` is short enough for one.
    pub fn new(text: &str) -> (chunk: Option<TxtChunk>)
        ensures
            chunk is Some <==> byte_len(text@) <= MAX_CHUNK_BYTES,
            chunk matches Some(c) ==> c@ == text@,
    {
        proof {
            lemma_byte_len_encoded(text@);
        }
        if text.as_bytes().len() <= MAX_CHUNK_BYTES {
            Some(TxtChunk { text: text.to_owned() })
        } else {
            None
        }
    }

    /// The chunk's text.
    pub fn as_str(&self) -> (text: &str)
        ensures
            text@ == self@,
    {
        self.text.as_str()
    }

    /// The chunk's length in bytes.
    pub fn len(&self) -> (n: usize)
        ensures
            n == byte_len(self@),
            n <= MAX_CHUNK_BYTES,
    {
        proof {
            use_type_invariant(self);
            lemma_byte_len_encoded(self.text@);
        }
        self.text.as_str().as_bytes().len()
    }
}

impl Clone for TxtChunk {
    fn clone(&self) -> (chunk: TxtChunk)
        ensures
            chunk@ == self@,
    {
        proof {
            use_type_invariant(self);
        }
        TxtChunk { text: self.text.clone() }
    }
}

/// The texts of `chunks`, in order.
pub open spec fn chunk_texts(chunks: Seq<TxtChunk>) -> Seq<Seq<char>> {
    chunks.map_values(|c: TxtChunk| c@)
}

/// The length, in characters, of the longest prefix of `text` that takes at
/// most `room` bytes.
pub open spec fn fitting_prefix(text: Seq<char>, room: nat) -> nat
    decreases text.len(),
{
    if text.len() == 0 || utf8_width(text[0]) > room {
        0
    } else {
        1 + fitting_prefix(text.drop_first(), (room - utf8_width(text[0])) as nat)
    }
}

/// The chunks of `line`: the longest prefix that fits in one chunk, then the
/// chunks of what is left. A line that fits in one chunk is that chunk, also
/// when it is empty.
pub open spec fn encode_spec(line: Seq<char>) -> Seq<Seq<char>>
    decreases line.len(),
{
    let k = fitting_prefix(line, MAX_CHUNK_BYTES as nat);
    if k >= line.len() {
        seq![line]
    } else {
        seq![line.take(k as int)] + encode_spec(line.skip(k as int))
    }
}

/// The line that `chunks` spell when read one after the other.
pub open spec fn decode_spec(chunks: Seq<Seq<char>>) -> Seq<char> {
    chunks.flatten()
}

/// A prefix of `text` fits in `room` bytes exactly when it is no longer than
/// `fitting_prefix(text, room)`.
pub proof fn lemma_fitting_prefix(text: Seq<char>, room: nat, k: nat)
    requires
        k <= text.len(),
    ensures
        fitting_prefix(text, room) <= text.len(),
        byte_len(text.take(k as int)) <= room <==> k <= fitting_prefix(text, room),
    decreases text.len(),
{
    if k == 0 {
        assert(text.take(0) =~= Seq::<char>::empty());
    }
    if text.len() > 0 {
        let head = seq![text[0]];
        let w = utf8_width(text[0]);
        assert(head =~= Seq::<char>::empty().push(text[0]));
        lemma_byte_len_push(Seq::<char>::empty(), text[0]);
        if k > 0 {
            assert(text.take(k as int) =~= head + text.drop_first().take(k - 1));
            lemma_byte_len_concat(head, text.drop_first().take(k - 1));
        }
        if w <= room {
            lemma_fitting_prefix(text.drop_first(), (room - w) as nat, if k > 0 {
                (k - 1) as nat
            } else {
                0
            });
        }
    }
}

/// Cuts `line` into chunks of at most 255 bytes each, none of which ends
/// inside a character. Every chunk but the last is as long as it can be.
pub fn encode(line: &str) -> (chunks: Vec<TxtChunk>)
    ensures
        chunk_texts(chunks@) == encode_spec(line@),
        decode_spec(chunk_texts(chunks@)) == line@,
        forall|i: int| 0 <= i < chunks.len() ==> byte_len(#[trigger] chunks[i]@) <= MAX_CHUNK_BYTES,
{
    let chars = to_chars(line);
    let mut chunks: Vec<TxtChunk> = Vec::new();
    let mut current = String::new();
    let mut used: usize = 0;
    let mut i: usize = 0;
    let ghost mut start: int = 0;
    assert(line@.skip(0) =~= line@);
    assert(chunk_texts(chunks@) =~= Seq::<Seq<char>>::empty());
    while i < chars.len()
        invariant
            chars@ == line@,
            0 <= start <= i <= chars.len(),
            current@ == chars@.subrange(start, i as int),
            used == byte_len(current@),
            used <= MAX_CHUNK_BYTES,
            encode_spec(line@) == chunk_texts(chunks@) + encode_spec(line@.skip(start)),
        decreases chars.len() - i,
    {
        let c = chars[i];
        let w = char_width(c);
        if used + w > MAX_CHUNK_BYTES {
            proof {
                let rest = line@.skip(start);
                let k = (i - start) as nat;
                assert(rest.take(k as int) =~= current@);
                assert(rest.take(k as int + 1) =~= current@.push(c));
                lemma_byte_len_push(current@, c);
                lemma_fitting_prefix(rest, MAX_CHUNK_BYTES as nat, k);
                lemma_fitting_prefix(rest, MAX_CHUNK_BYTES as nat, k + 1);
                assert(fitting_prefix(rest, MAX_CHUNK_BYTES as nat) == k);
                assert(rest.skip(k as int) =~= line@.skip(i as int));
                assert(chunk_texts(chunks@.push(TxtChunk { text: current })) =~= chunk_texts(
                    chunks@,
                ) + seq![current@]);
            }
            chunks.push(TxtChunk { text: current });
            current = String::new();
            used = 0;
            proof {
                start = i as int;
                assert(chars@.subrange(start, i as int) =~= Seq::<char>::empty());
            }
        }
        proof {
            lemma_byte_len_push(current@, c);
            assert(chars@.subrange(start, i + 1) =~= chars@.subrange(start, i as int).push(c));
        }
        current.push(c);
        used += w;
        i += 1;
    }
    proof {
        let rest = line@.skip(start);
        assert(rest.take(rest.len() as int) =~= rest);
        assert(rest =~= current@);
        lemma_fitting_prefix(rest, MAX_CHUNK_BYTES as nat, rest.len());
        assert(chunk_texts(chunks@.push(TxtChunk { text: current })) =~= chunk_texts(chunks@)
            + seq![current@]);
        lemma_round_trip(line@);
        lemma_chunk_bound(line@);
    }
    chunks.push(TxtChunk { text: current });
    assert forall|i: int| 0 <= i < chunks.len() implies byte_len(#[trigger] chunks[i]@)
        <= MAX_CHUNK_BYTES by {
        assert(chunks[i]@ == chunk_texts(chunks@)[i]);
    }
    chunks
}

/// Joins `chunks`, in the order given, into one line, with nothing between
/// them.
pub fn decode(chunks: &Vec<TxtChunk>) -> (line: String)
    ensures
        line@ == decode_spec(chunk_texts(chunks@)),
{
    let mut line = String::new();
    let mut i: usize = 0;
    assert(chunk_texts(chunks@.take(0)) =~= Seq::<Seq<char>>::empty());
    while i < chunks.len()
        invariant
            i <= chunks.len(),
            line@ == chunk_texts(chunks@.take(i as int)).flatten(),
        decreases chunks.len() - i,
    {
        proof {
            let done = chunk_texts(chunks@.take(i as int));
            assert(chunk_texts(chunks@.take(i + 1)) =~= done.push(chunks[i as int]@));
            done.lemma_flatten_push(chunks[i as int]@);
        }
        line.append(chunks[i].as_str());
        i += 1;
    }
    assert(chunks@.take(i as int) =~= chunks@);
    line
}

/// Joining the chunks of a line gives the line back.
pub proof fn lemma_round_trip(line: Seq<char>)
    ensures
        decode_spec(encode_spec(line)) == line,
    decreases line.len(),
{
    let k = fitting_prefix(line, MAX_CHUNK_BYTES as nat);
    if k >= line.len() {
        seq![line].lemma_flatten_one_element();
    } else {
        let head = seq![line.take(k as int)];
        lemma_round_trip(line.skip(k as int));
        lemma_flatten_concat(head, encode_spec(line.skip(k as int)));
        head.lemma_flatten_one_element();
        assert(line.take(k as int) + line.skip(k as int) =~= line);
    }
}

/// No chunk of a line is longer than 255 bytes.
pub proof fn lemma_chunk_bound(line: Seq<char>)
    ensures
        forall|i: int|
            0 <= i < encode_spec(line).len() ==> byte_len(#[trigger] encode_spec(line)[i])
                <= MAX_CHUNK_BYTES,
    decreases line.len(),
{
    let k = fitting_prefix(line, MAX_CHUNK_BYTES as nat);
    lemma_fitting_prefix(line, MAX_CHUNK_BYTES as nat, 0);
    lemma_fitting_prefix(line, MAX_CHUNK_BYTES as nat, k);
    if k >= line.len() {
        assert(line.take(k as int) =~= line);
    } else {
        let rest = encode_spec(line.skip(k as int));
        lemma_chunk_bound(line.skip(k as int));
        assert forall|i: int| 0 <= i < encode_spec(line).len() implies byte_len(
            #[trigger] encode_spec(line)[i],
        ) <= MAX_CHUNK_BYTES by {
            if i > 0 {
                assert(encode_spec(line)[i] == rest[i - 1]);
            }
        }
    }
}

/// A line of at most 255 bytes is one chunk.
pub proof fn lemma_single_chunk(line: Seq<char>)
    requires
        byte_len(line) <= MAX_CHUNK_BYTES,
    ensures
        encode_spec(line) == seq![line],
{
    assert(line.take(line.len() as int) =~= line);
    lemma_fitting_prefix(line, MAX_CHUNK_BYTES as nat, line.len());
}

/// Every chunk but the last is full: the first character of the next chunk
/// would not fit in it any more. No chunk after the first is empty.
pub proof fn lemma_chunks_greedy(line: Seq<char>, i: int)
    requires
        0 <= i < encode_spec(line).len() - 1,
    ensures
        encode_spec(line)[i + 1].len() > 0,
        byte_len(encode_spec(line)[i]) + utf8_width(encode_spec(line)[i + 1][0])
            > MAX_CHUNK_BYTES,
    decreases line.len(),
{
    let k = fitting_prefix(line, MAX_CHUNK_BYTES as nat);
    lemma_fitting_prefix(line, MAX_CHUNK_BYTES as nat, 0);
    let rest = line.skip(k as int);
    let j = fitting_prefix(rest, MAX_CHUNK_BYTES as nat);
    assert(encode_spec(line)[i + 1] == encode_spec(rest)[i]);
    if i > 0 {
        assert(encode_spec(line)[i] == encode_spec(rest)[i - 1]);
        lemma_chunks_greedy(rest, i - 1);
    } else {
        lemma_fitting_prefix(line, MAX_CHUNK_BYTES as nat, k + 1);
        lemma_byte_len_push(line.take(k as int), line[k as int]);
        assert(line.take(k as int + 1) =~= line.take(k as int).push(line[k as int]));
        lemma_fitting_prefix(rest, MAX_CHUNK_BYTES as nat, 0);
        assert(rest[0] == line[k as int]);
        assert(j >= 1);
        if j >= rest.len() {
            assert(encode_spec(rest)[0] == rest);
        } else {
            assert(encode_spec(rest)[0] == rest.take(j as int));
        }
    }
}

/// The bytes of the chunks of a line, one chunk after the other, are the
/// bytes of the line. Each chunk is UTF-8 by itself, in at most 255 bytes:
/// no character is cut in two.
pub proof fn lemma_chunks_whole_characters(line: Seq<char>)
    ensures
        forall|i: int|
            0 <= i < encode_spec(line).len() ==> valid_utf8(
                encode_utf8(#[trigger] encode_spec(line)[i]),
            ) && encode_utf8(encode_spec(line)[i]).len() <= MAX_CHUNK_BYTES,
        encode_spec(line).map_values(|chunk: Seq<char>| encode_utf8(chunk)).flatten()
            == encode_utf8(line),
    decreases line.len(),
{
    let bytes_of = |chunk: Seq<char>| encode_utf8(chunk);
    lemma_chunk_bound(line);
    assert forall|i: int| 0 <= i < encode_spec(line).len() implies valid_utf8(
        encode_utf8(#[trigger] encode_spec(line)[i]),
    ) && encode_utf8(encode_spec(line)[i]).len() <= MAX_CHUNK_BYTES by {
        encode_utf8_valid_utf8(encode_spec(line)[i]);
        lemma_byte_len_encoded(encode_spec(line)[i]);
    }
    let k = fitting_prefix(line, MAX_CHUNK_BYTES as nat);
    if k >= line.len() {
        assert(seq![line].map_values(bytes_of) =~= seq![encode_utf8(line)]);
        seq![encode_utf8(line)].lemma_flatten_one_element();
    } else {
        let head = line.take(k as int);
        let rest = line.skip(k as int);
        lemma_chunks_whole_characters(rest);
        assert(encode_spec(line).map_values(bytes_of) =~= seq![encode_utf8(head)] + encode_spec(
            rest,
        ).map_values(bytes_of));
        lemma_flatten_concat(seq![encode_utf8(head)], encode_spec(rest).map_values(bytes_of));
        seq![encode_utf8(head)].lemma_flatten_one_element();
        lemma_encode_utf8_concat(head, rest);
        assert(head + rest =~= line);
    }
}

} // verus!
