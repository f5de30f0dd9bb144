//! The chunked transfer coding.

use crate::number::{digits, lemma_digits_chars, lemma_digits_round_trip, number, parse_number};
use crate::text::{
    before, before_slice, find, find_from, is_space, lemma_find_extend, lemma_find_from,
    lemma_find_is, lemma_first_is, occurs_at, same_bytes, to_chars, trim, trim_slice, trim_start,
    utf8_text, CharSet,
};
use vstd::prelude::*;
use vstd::slice::slice_subrange;
use vstd::utf8::{
    decode_utf8, encode_utf8, encode_utf8_decode_utf8, encode_utf8_valid_utf8, is_ascii_chars,
    is_ascii_chars_encode_utf8, valid_utf8,
};

verus! {

/// Carriage return, line feed.
pub open spec fn crlf() -> Seq<u8> {
    seq![13u8, 10u8]
}

/// The empty line that ends a header section.
pub open spec fn crlf_crlf() -> Seq<u8> {
    seq![13u8, 10u8, 13u8, 10u8]
}

/// The index of the first occurrence of `needle` in `haystack`.
pub fn find_bytes(haystack: &[u8], needle: &[u8]) -> (r: Option<usize>)
    requires
        needle@.len() > 0,
    ensures
        match r {
            Some(k) => find(haystack@, needle@) == Some(k as int) && k + needle@.len()
                <= haystack@.len(),
            None => find(haystack@, needle@) is None,
        },
{
    if haystack.len() < needle.len() {
        return None;
    }
    let last: usize = haystack.len() - needle.len();
    let mut i: usize = 0;
    while i <= last
        invariant
            needle@.len() > 0,
            last + needle@.len() == haystack@.len(),
            0 <= i <= last + 1,
            find(haystack@, needle@) == find_from(haystack@, needle@, i as int),
        decreases last + 1 - i,
    {
        if haystack[i] == needle[0] && same_bytes(
            slice_subrange(haystack, i, i + needle.len()),
            needle,
        ) {
            return Some(i);
        }
        proof {
            if occurs_at(haystack@, needle@, i as int) {
                assert(haystack@.subrange(i as int, i + needle@.len())[0] == haystack@[i as int]);
            }
        }
        i = i + 1;
    }
    None
}

/// Whether `input` holds carriage return and line feed at `pos`.
pub fn crlf_at(input: &[u8], pos: usize) -> (r: bool)
    ensures
        r == occurs_at(input@, crlf(), pos as int),
{
    if input.len() < 2 || pos > input.len() - 2 {
        return false;
    }
    let r = input[pos] == 13 && input[pos + 1] == 10;
    proof {
        let s = input@.subrange(pos as int, pos + 2);
        assert(s[0] == input@[pos as int] && s[1] == input@[pos + 1]);
        if r {
            assert(s =~= crlf());
        } else {
            assert(crlf()[0] == 13u8 && crlf()[1] == 10u8);
        }
    }
    r
}

/// The distance from `pos` to the next line end.
pub fn find_crlf(input: &[u8], pos: usize) -> (r: Option<usize>)
    requires
        pos <= input@.len(),
    ensures
        match r {
            Some(k) => find(input@.skip(pos as int), crlf()) == Some(k as int) && pos + k + 2
                <= input@.len(),
            None => find(input@.skip(pos as int), crlf()) is None,
        },
{
    let needle: [u8; 2] = [13u8, 10u8];
    assert(needle@ =~= crlf());
    find_bytes(slice_subrange(input, pos, input.len()), needle.as_slice())
}

/// The distance from `pos` to the next empty line.
pub fn find_crlf_crlf(input: &[u8], pos: usize) -> (r: Option<usize>)
    requires
        pos <= input@.len(),
    ensures
        match r {
            Some(k) => find(input@.skip(pos as int), crlf_crlf()) == Some(k as int) && pos + k + 4
                <= input@.len(),
            None => find(input@.skip(pos as int), crlf_crlf()) is None,
        },
{
    let needle: [u8; 4] = [13u8, 10u8, 13u8, 10u8];
    assert(needle@ =~= crlf_crlf());
    find_bytes(slice_subrange(input, pos, input.len()), needle.as_slice())
}

/// The line with a chunk's size.
pub enum SizeLine {
    /// The line has not ended yet.
    Incomplete,
    /// The line does not give a size.
    Bad(Seq<char>),
    /// The size, and where the line after it starts.
    Size { size: int, next: int },
}

/// What the size line that starts at `pos` says.
pub open spec fn size_line(input: Seq<u8>, pos: int) -> SizeLine {
    match find(input.skip(pos), crlf()) {
        None => SizeLine::Incomplete,
        Some(k) => {
            let line = input.subrange(pos, pos + k);
            if !valid_utf8(line) {
                SizeLine::Bad("invalid chunk size line"@)
            } else {
                let digits = trim(before(decode_utf8(line), ';'));
                if digits.len() == 0 {
                    SizeLine::Bad("empty chunk size"@)
                } else {
                    match number(digits, 16, usize::MAX as int) {
                        None => SizeLine::Bad("invalid hexadecimal chunk size"@),
                        Some(size) => SizeLine::Size { size, next: pos + k + 2 },
                    }
                }
            }
        },
    }
}

/// How far chunked input can be decoded.
pub enum Decoded {
    /// The input ends inside the chunk that starts at `pos`. `out` is the body before that chunk,
    /// and `pending` the size that the chunk announces, if it does so already.
    NeedMore { pos: int, out: Seq<u8>, pending: int },
    /// The body is complete, and the input before `used` belongs to it.
    Done { body: Seq<u8>, used: int },
    /// The input is not a chunked body, or one above the limit.
    Error(Seq<char>),
}

/// The outcome of decoding `input` from `pos` on, where `out` is the body decoded before `pos`.
pub open spec fn chunks(input: Seq<u8>, pos: int, out: Seq<u8>, limit: int) -> Decoded
    decreases input.len() - pos,
{
    match size_line(input, pos) {
        SizeLine::Incomplete => Decoded::NeedMore { pos, out, pending: 0 },
        SizeLine::Bad(message) => Decoded::Error(message),
        SizeLine::Size { size, next } => if size == 0 {
            if occurs_at(input, crlf(), next) {
                Decoded::Done { body: out, used: next + 2 }
            } else {
                match find(input.skip(next), crlf_crlf()) {
                    Some(k) => Decoded::Done { body: out, used: next + k + 4 },
                    None => Decoded::NeedMore { pos, out, pending: 0 },
                }
            }
        } else if out.len() + size > limit {
            Decoded::Error("decoded chunked body exceeds hard server limit"@)
        } else if input.len() < next + size + 2 {
            Decoded::NeedMore { pos, out, pending: size }
        } else if !occurs_at(input, crlf(), next + size) {
            Decoded::Error("chunk data is not followed by CRLF"@)
        } else if pos < 0 || next <= pos || size < 0 {
            Decoded::NeedMore { pos, out, pending: 0 }
        } else {
            chunks(input, next + size + 2, out + input.subrange(next, next + size), limit)
        },
    }
}

pub proof fn lemma_size_line(input: Seq<u8>, pos: int)
    requires
        0 <= pos <= input.len(),
    ensures
        match size_line(input, pos) {
            SizeLine::Size { size, next } => size >= 0 && pos + 2 <= next <= input.len(),
            _ => true,
        },
{
    lemma_find_from(input.skip(pos), crlf(), 0);
    if let Some(k) = find(input.skip(pos), crlf()) {
        let line = input.subrange(pos, pos + k);
        if valid_utf8(line) {
            let digits = trim(before(decode_utf8(line), ';'));
            crate::number::lemma_number_range(digits, 16, usize::MAX as int);
        }
    }
}

/// A size line that has ended reads the same when more input follows.
pub proof fn lemma_size_line_extend(input: Seq<u8>, more: Seq<u8>, pos: int)
    requires
        0 <= pos <= input.len(),
        !(size_line(input, pos) is Incomplete),
    ensures
        size_line(input + more, pos) == size_line(input, pos),
{
    assert((input + more).skip(pos) =~= input.skip(pos) + more);
    lemma_find_extend(input.skip(pos), more, crlf());
    lemma_find_from(input.skip(pos), crlf(), 0);
    let k = find(input.skip(pos), crlf())->0;
    assert((input + more).subrange(pos, pos + k) =~= input.subrange(pos, pos + k));
}

/// Decoding can be resumed: what was decoded of a first part of the input stands when more input
/// follows. A complete body and an error stay what they are, and an incomplete one is continued
/// from where it stopped.
pub proof fn law_chunks_resume(input: Seq<u8>, more: Seq<u8>, pos: int, out: Seq<u8>, limit: int)
    requires
        0 <= pos <= input.len(),
    ensures
        match chunks(input, pos, out, limit) {
            Decoded::NeedMore { pos: pos2, out: out2, .. } => pos <= pos2 <= input.len() && chunks(
                input + more,
                pos,
                out,
                limit,
            ) == chunks(input + more, pos2, out2, limit),
            Decoded::Done { body, used } => pos <= used <= input.len() && chunks(
                input + more,
                pos,
                out,
                limit,
            ) == chunks(input, pos, out, limit),
            Decoded::Error(_) => chunks(input + more, pos, out, limit) == chunks(
                input,
                pos,
                out,
                limit,
            ),
        },
    decreases input.len() - pos,
{
    let all = input + more;
    lemma_size_line(input, pos);
    if !(size_line(input, pos) is Incomplete) {
        lemma_size_line_extend(input, more, pos);
    }
    if let SizeLine::Size { size, next } = size_line(input, pos) {
        if size == 0 {
            assert(all.skip(next) =~= input.skip(next) + more);
            lemma_find_extend(input.skip(next), more, crlf_crlf());
            lemma_find_from(input.skip(next), crlf_crlf(), 0);
            if next + 2 <= input.len() {
                assert(all.subrange(next, next + 2) =~= input.subrange(next, next + 2));
            }
        } else if out.len() + size > limit {
        } else if input.len() < next + size + 2 {
        } else {
            assert(all.subrange(next + size, next + size + 2) =~= input.subrange(
                next + size,
                next + size + 2,
            ));
            if occurs_at(input, crlf(), next + size) {
                assert(all.subrange(next, next + size) =~= input.subrange(next, next + size));
                law_chunks_resume(
                    input,
                    more,
                    next + size + 2,
                    out + input.subrange(next, next + size),
                    limit,
                );
            }
        }
    }
}

/// A complete body is decoded from its own bytes alone.
pub proof fn law_chunks_end(input: Seq<u8>, pos: int, out: Seq<u8>, limit: int)
    requires
        0 <= pos <= input.len(),
    ensures
        match chunks(input, pos, out, limit) {
            Decoded::Done { body, used } => pos <= used <= input.len() && chunks(
                input.take(used),
                pos,
                out,
                limit,
            ) == chunks(input, pos, out, limit),
            _ => true,
        },
    decreases input.len() - pos,
{
    lemma_size_line(input, pos);
    if let SizeLine::Size { size, next } = size_line(input, pos) {
        if size == 0 {
            if let Decoded::Done { body, used } = chunks(input, pos, out, limit) {
                let part = input.take(used);
                lemma_find_from(input.skip(next), crlf_crlf(), 0);
                lemma_size_line_take(input, pos, used);
                if occurs_at(input, crlf(), next) {
                    assert(part.subrange(next, next + 2) =~= input.subrange(next, next + 2));
                } else {
                    let k = find(input.skip(next), crlf_crlf())->0;
                    assert(part.subrange(next, next + 2) =~= input.subrange(next, next + 2));
                    assert(part.skip(next).subrange(k, k + 4) =~= input.skip(next).subrange(k, k + 4));
                    assert forall|j: int| 0 <= j < k implies !occurs_at(
                        part.skip(next),
                        crlf_crlf(),
                        j,
                    ) by {
                        assert(!occurs_at(input.skip(next), crlf_crlf(), j));
                        assert(part.skip(next).subrange(j, j + 4) =~= input.skip(next).subrange(
                            j,
                            j + 4,
                        ));
                    }
                    lemma_find_is(part.skip(next), crlf_crlf(), k);
                }
            }
        } else if out.len() + size <= limit && input.len() >= next + size + 2 && occurs_at(
            input,
            crlf(),
            next + size,
        ) {
            let out2 = out + input.subrange(next, next + size);
            law_chunks_end(input, next + size + 2, out2, limit);
            if let Decoded::Done { body, used } = chunks(input, pos, out, limit) {
                let part = input.take(used);
                lemma_size_line_take(input, pos, used);
                assert(part.subrange(next + size, next + size + 2) =~= input.subrange(
                    next + size,
                    next + size + 2,
                ));
                assert(part.subrange(next, next + size) =~= input.subrange(next, next + size));
            }
        }
    }
}

proof fn lemma_size_line_take(input: Seq<u8>, pos: int, end: int)
    requires
        0 <= pos,
        end <= input.len(),
        size_line(input, pos) is Size,
        size_line(input, pos)->next <= end,
    ensures
        size_line(input.take(end), pos) == size_line(input, pos),
{
    let part = input.take(end);
    lemma_find_from(input.skip(pos), crlf(), 0);
    let k = find(input.skip(pos), crlf())->0;
    assert(part.skip(pos).subrange(k, k + 2) =~= input.skip(pos).subrange(k, k + 2));
    assert forall|j: int| 0 <= j < k implies !occurs_at(part.skip(pos), crlf(), j) by {
        assert(!occurs_at(input.skip(pos), crlf(), j));
        assert(part.skip(pos).subrange(j, j + 2) =~= input.skip(pos).subrange(j, j + 2));
    }
    lemma_find_is(part.skip(pos), crlf(), k);
    assert(part.subrange(pos, pos + k) =~= input.subrange(pos, pos + k));
}

/// No body above the limit is decoded, and an announced chunk does not lead above it.
pub proof fn law_chunks_within_limit(input: Seq<u8>, pos: int, out: Seq<u8>, limit: int)
    requires
        0 <= pos <= input.len(),
        out.len() <= limit,
    ensures
        match chunks(input, pos, out, limit) {
            Decoded::NeedMore { out: out2, pending, .. } => 0 <= pending && out2.len() + pending
                <= limit,
            Decoded::Done { body, .. } => body.len() <= limit,
            Decoded::Error(_) => true,
        },
    decreases input.len() - pos,
{
    lemma_size_line(input, pos);
    if let SizeLine::Size { size, next } = size_line(input, pos) {
        if size > 0 && out.len() + size <= limit && input.len() >= next + size + 2 && occurs_at(
            input,
            crlf(),
            next + size,
        ) {
            law_chunks_within_limit(
                input,
                next + size + 2,
                out + input.subrange(next, next + size),
                limit,
            );
        }
    }
}

/// Decoding adds to the body that was decoded before.
pub proof fn lemma_chunks_add(input: Seq<u8>, pos: int, out: Seq<u8>, limit: int)
    ensures
        chunks(input, pos, out, limit) matches Decoded::Done { body, .. } ==> body.len()
            >= out.len(),
    decreases input.len() - pos,
{
    if let SizeLine::Size { size, next } = size_line(input, pos) {
        if size > 0 && next > pos && pos >= 0 && out.len() + size <= limit && input.len() >= next
            + size + 2 && occurs_at(input, crlf(), next + size) {
            lemma_chunks_add(
                input,
                next + size + 2,
                out + input.subrange(next, next + size),
                limit,
            );
        }
    }
}

/// The length that a chunked body is known to reach, where `length` bytes of it stand before
/// `pos`: the chunks up to the first one that is not complete, and the size that this one
/// announces.
pub open spec fn chunk_reach(input: Seq<u8>, pos: int, length: int) -> int
    decreases input.len() - pos,
    when 0 <= pos <= input.len()
{
    proof {
        lemma_size_line(input, pos);
    }
    match size_line(input, pos) {
        SizeLine::Size { size, next } => if size > 0 && input.len() >= next + size + 2
            && occurs_at(input, crlf(), next + size) {
            chunk_reach(input, next + size + 2, length + size)
        } else {
            length + size
        },
        _ => length,
    }
}

/// Where decoding stops for want of input, the length that is known is that of what was decoded
/// and of the chunk that is arriving; where it ends, it is that of the body.
pub proof fn lemma_chunk_reach(input: Seq<u8>, pos: int, out: Seq<u8>, limit: int)
    requires
        0 <= pos <= input.len(),
    ensures
        match chunks(input, pos, out, limit) {
            Decoded::NeedMore { out: decoded, pending, .. } => chunk_reach(
                input,
                pos,
                out.len() as int,
            ) == decoded.len() + pending,
            Decoded::Done { body, .. } => chunk_reach(input, pos, out.len() as int) == body.len(),
            Decoded::Error(_) => true,
        },
    decreases input.len() - pos,
{
    lemma_size_line(input, pos);
    if let SizeLine::Size { size, next } = size_line(input, pos) {
        if size > 0 && out.len() + size <= limit && input.len() >= next + size + 2 && occurs_at(
            input,
            crlf(),
            next + size,
        ) {
            lemma_chunk_reach(
                input,
                next + size + 2,
                out + input.subrange(next, next + size),
                limit,
            );
        }
    }
}

/// A chunk that has been announced belongs to the body: once more input completes the body, it is
/// at least as long as it was known to be before.
pub proof fn law_announced_chunk_arrives(
    input: Seq<u8>,
    more: Seq<u8>,
    pos: int,
    out: Seq<u8>,
    limit: int,
)
    requires
        0 <= pos <= input.len(),
    ensures
        chunks(input + more, pos, out, limit) matches Decoded::Done { body, .. } ==> body.len()
            >= chunk_reach(input, pos, out.len() as int),
    decreases input.len() - pos,
{
    let all = input + more;
    lemma_size_line(input, pos);
    if !(size_line(input, pos) is Incomplete) {
        lemma_size_line_extend(input, more, pos);
    }
    lemma_chunks_add(all, pos, out, limit);
    if let SizeLine::Size { size, next } = size_line(input, pos) {
        if size > 0 && out.len() + size <= limit {
            lemma_chunks_add(
                all,
                next + size + 2,
                out + all.subrange(next, next + size),
                limit,
            );
            if input.len() >= next + size + 2 {
                assert(all.subrange(next + size, next + size + 2) =~= input.subrange(
                    next + size,
                    next + size + 2,
                ));
                assert(all.subrange(next, next + size) =~= input.subrange(next, next + size));
                if occurs_at(input, crlf(), next + size) {
                    law_announced_chunk_arrives(
                        input,
                        more,
                        next + size + 2,
                        out + input.subrange(next, next + size),
                        limit,
                    );
                }
            }
        }
    }
}

/// The line with a chunk's size, as it was read.
enum SizeLineResult {
    Incomplete,
    Bad(String),
    Size { size: usize, next: usize },
}

fn read_size_line(input: &[u8], pos: usize) -> (r: SizeLineResult)
    requires
        pos <= input@.len(),
    ensures
        match (r, size_line(input@, pos as int)) {
            (SizeLineResult::Incomplete, SizeLine::Incomplete) => true,
            (SizeLineResult::Bad(m), SizeLine::Bad(message)) => m@ == message,
            (
                SizeLineResult::Size { size, next },
                SizeLine::Size { size: said, next: after },
            ) => size == said && next == after && pos < next <= input@.len(),
            _ => false,
        },
{
    proof {
        lemma_size_line(input@, pos as int);
    }
    let total: usize = input.len();
    let length: usize = match find_crlf(input, pos) {
        Some(k) => k,
        None => {
            return SizeLineResult::Incomplete;
        },
    };
    let next: usize = pos + length + 2;
    assert(next <= total);
    let line = slice_subrange(input, pos, pos + length);
    assert(line@ =~= input@.subrange(pos as int, pos + length));
    let line = match utf8_text(line) {
        Some(s) => to_chars(s.as_str()),
        None => {
            return SizeLineResult::Bad("invalid chunk size line".to_owned());
        },
    };
    let digits = trim_slice(before_slice(line.as_slice(), ';'));
    if digits.len() == 0 {
        return SizeLineResult::Bad("empty chunk size".to_owned());
    }
    match parse_number(digits, 16, usize::MAX) {
        Some(size) => SizeLineResult::Size { size, next },
        None => SizeLineResult::Bad("invalid hexadecimal chunk size".to_owned()),
    }
}

/// The length that a chunked body is known to reach.
pub fn reached_length(input: &[u8]) -> (r: u128)
    ensures
        r == chunk_reach(input@, 0, 0),
{
    let total: usize = input.len();
    let mut pos: usize = 0;
    let mut length: usize = 0;
    loop
        invariant
            pos <= total,
            total == input@.len(),
            length <= pos,
            chunk_reach(input@, 0, 0) == chunk_reach(input@, pos as int, length as int),
        decreases total - pos,
    {
        let (size, next): (usize, usize) = match read_size_line(input, pos) {
            SizeLineResult::Size { size, next } => (size, next),
            _ => {
                return length as u128;
            },
        };
        if size == 0 || total - next < size || total - next - size < 2 || !crlf_at(
            input,
            next + size,
        ) {
            return length as u128 + size as u128;
        }
        pos = next + size + 2;
        length = length + size;
    }
}

/// What a decoder reports.
pub enum ChunkStatus {
    /// More input is needed.
    NeedMore,
    /// The body is complete; the given number of input bytes belongs to it.
    Done(usize),
    /// The input cannot be decoded.
    Error(String),
}

/// A decoder that keeps what it has decoded between reads.
pub struct ChunkDecoder {
    out: Vec<u8>,
    pos: usize,
    pending: usize,
}

impl ChunkDecoder {
    /// The body decoded so far.
    pub closed spec fn out(self) -> Seq<u8> {
        self.out@
    }

    /// The start of the first chunk that is not decoded yet.
    pub closed spec fn pos(self) -> int {
        self.pos as int
    }

    /// The size that the chunk at `pos` announces, if it is known.
    pub closed spec fn pending(self) -> int {
        self.pending as int
    }

    /// The decoder stands where decoding `input` from its start comes by, whatever follows.
    pub open spec fn resumes(self, input: Seq<u8>, limit: int) -> bool {
        &&& 0 <= self.pos() <= input.len()
        &&& forall|more: Seq<u8>| #[trigger]
            chunks(input + more, 0, Seq::empty(), limit) == chunks(
                input + more,
                self.pos(),
                self.out(),
                limit,
            )
    }

    pub proof fn lemma_resumes_at(self, input: Seq<u8>, limit: int)
        requires
            self.resumes(input, limit),
        ensures
            chunks(input, 0, Seq::empty(), limit) == chunks(input, self.pos(), self.out(), limit),
    {
        assert(input + Seq::<u8>::empty() =~= input);
        assert(chunks(input + Seq::<u8>::empty(), 0, Seq::empty(), limit) == chunks(
            input + Seq::<u8>::empty(),
            self.pos(),
            self.out(),
            limit,
        ));
    }

    pub proof fn lemma_resumes_extend(self, input: Seq<u8>, more: Seq<u8>, limit: int)
        requires
            self.resumes(input, limit),
        ensures
            self.resumes(input + more, limit),
    {
        assert forall|rest: Seq<u8>| #[trigger]
            chunks(input + more + rest, 0, Seq::empty(), limit) == chunks(
                input + more + rest,
                self.pos(),
                self.out(),
                limit,
            ) by {
            assert(input + more + rest =~= input + (more + rest));
            assert(chunks(input + (more + rest), 0, Seq::empty(), limit) == chunks(
                input + (more + rest),
                self.pos(),
                self.out(),
                limit,
            ));
        }
    }

    pub proof fn lemma_resumes_after(self, next: ChunkDecoder, input: Seq<u8>, limit: int)
        requires
            self.resumes(input, limit),
            chunks(input, self.pos(), self.out(), limit) == (Decoded::NeedMore {
                pos: next.pos(),
                out: next.out(),
                pending: next.pending(),
            }),
        ensures
            next.resumes(input, limit),
    {
        assert forall|more: Seq<u8>| #[trigger]
            chunks(input + more, 0, Seq::empty(), limit) == chunks(
                input + more,
                next.pos(),
                next.out(),
                limit,
            ) by {
            law_chunks_resume(input, more, self.pos(), self.out(), limit);
        }
        law_chunks_resume(input, Seq::empty(), self.pos(), self.out(), limit);
    }

    /// A decoder that has seen no input.
    pub fn new() -> (r: ChunkDecoder)
        ensures
            r.out() == Seq::<u8>::empty(),
            r.pos() == 0,
            r.pending() == 0,
    {
        ChunkDecoder { out: Vec::new(), pos: 0, pending: 0 }
    }

    /// The length of the decoded body and of the chunk announced after it.
    pub fn announced(&self) -> (r: usize)
        ensures
            r as int == if self.out().len() + self.pending() <= usize::MAX {
                self.out().len() + self.pending()
            } else {
                usize::MAX as int
            },
    {
        match self.out.len().checked_add(self.pending) {
            Some(n) => n,
            None => usize::MAX,
        }
    }

    /// The decoded body.
    pub fn into_body(self) -> (r: Vec<u8>)
        ensures
            r@ == self.out(),
    {
        self.out
    }

    /// Decodes what has arrived. `input` is all input of the body so far.
    pub fn advance(&mut self, input: &[u8], limit: usize) -> (r: ChunkStatus)
        requires
            old(self).pos() <= input@.len(),
        ensures
            match (r, chunks(input@, old(self).pos(), old(self).out(), limit as int)) {
                (ChunkStatus::NeedMore, Decoded::NeedMore { pos, out, pending }) => {
                    &&& final(self).pos() == pos
                    &&& final(self).out() == out
                    &&& final(self).pending() == pending
                },
                (ChunkStatus::Done(n), Decoded::Done { body, used }) => {
                    &&& final(self).out() == body
                    &&& n == used
                    &&& n <= input@.len()
                },
                (ChunkStatus::Error(m), Decoded::Error(message)) => m@ == message,
                _ => false,
            },
    {
        let ghost goal = chunks(input@, self.pos(), self.out(), limit as int);
        loop
            invariant
                self.pos <= input@.len(),
                goal == chunks(input@, old(self).pos(), old(self).out(), limit as int),
                goal == chunks(input@, self.pos as int, self.out@, limit as int),
            decreases input@.len() - self.pos,
        {
            let pos: usize = self.pos;
            let total: usize = input.len();
            self.pending = 0;
            proof {
                lemma_size_line(input@, pos as int);
            }
            let (size, next): (usize, usize) = match read_size_line(input, pos) {
                SizeLineResult::Incomplete => {
                    return ChunkStatus::NeedMore;
                },
                SizeLineResult::Bad(message) => {
                    return ChunkStatus::Error(message);
                },
                SizeLineResult::Size { size, next } => (size, next),
            };
            if size == 0 {
                if crlf_at(input, next) {
                    return ChunkStatus::Done(next + 2);
                }
                match find_crlf_crlf(input, next) {
                    Some(k) => {
                        return ChunkStatus::Done(next + k + 4);
                    },
                    None => {
                        return ChunkStatus::NeedMore;
                    },
                }
            }
            if self.out.len() > limit || size > limit - self.out.len() {
                return ChunkStatus::Error(
                    "decoded chunked body exceeds hard server limit".to_owned(),
                );
            }
            if total - next < size || total - next - size < 2 {
                self.pending = size;
                return ChunkStatus::NeedMore;
            }
            if !crlf_at(input, next + size) {
                return ChunkStatus::Error("chunk data is not followed by CRLF".to_owned());
            }
            let ghost decoded = self.out@;
            self.out.extend_from_slice(slice_subrange(input, next, next + size));
            assert(self.out@ =~= decoded + input@.subrange(next as int, next + size));
            self.pos = next + size + 2;
        }
    }
}

/// Decodes a chunked body: the body and the number of bytes that it takes, or nothing where more
/// input is needed.
pub fn decode_chunked(input: &[u8], hard_limit: usize) -> (r: Result<
    Option<(Vec<u8>, usize)>,
    String,
>)
    ensures
        match (r, chunks(input@, 0, Seq::empty(), hard_limit as int)) {
            (Ok(None), Decoded::NeedMore { .. }) => true,
            (Ok(Some((b, n))), Decoded::Done { body, used }) => b@ == body && n == used,
            (Err(m), Decoded::Error(message)) => m@ == message,
            _ => false,
        },
{
    let mut decoder = ChunkDecoder::new();
    match decoder.advance(input, hard_limit) {
        ChunkStatus::NeedMore => Ok(None),
        ChunkStatus::Done(used) => Ok(Some((decoder.into_body(), used))),
        ChunkStatus::Error(message) => Err(message),
    }
}

// Chunked bodies as they are sent

/// The bytes of a hexadecimal number.
pub open spec fn hex_bytes(n: int) -> Seq<u8> {
    encode_utf8(digits(n, 16))
}

/// A piece of a body as a chunk.
pub open spec fn as_chunk(piece: Seq<u8>) -> Seq<u8> {
    hex_bytes(piece.len() as int) + crlf() + piece + crlf()
}

/// The pieces of a body as chunks, and the chunk that ends them.
pub open spec fn as_chunks(pieces: Seq<Seq<u8>>) -> Seq<u8>
    decreases pieces.len(),
{
    if pieces.len() == 0 {
        hex_bytes(0) + crlf() + crlf()
    } else {
        as_chunk(pieces[0]) + as_chunks(pieces.skip(1))
    }
}

/// The body that the pieces make up.
pub open spec fn pieced(pieces: Seq<Seq<u8>>) -> Seq<u8>
    decreases pieces.len(),
{
    if pieces.len() == 0 {
        Seq::empty()
    } else {
        pieces[0] + pieced(pieces.skip(1))
    }
}

proof fn lemma_number_line(n: int, input: Seq<u8>, pos: int)
    requires
        0 <= n <= usize::MAX,
        0 <= pos,
        pos + hex_bytes(n).len() + 2 <= input.len(),
        input.subrange(pos, pos + hex_bytes(n).len() + 2) == hex_bytes(n) + crlf(),
    ensures
        size_line(input, pos) == (SizeLine::Size { size: n, next: pos + hex_bytes(n).len() + 2 }),
{
    let text = digits(n, 16);
    let bytes = hex_bytes(n);
    let k = bytes.len() as int;
    lemma_digits_chars(n, 16);
    lemma_digits_round_trip(n, 16);
    assert(is_ascii_chars(text));
    is_ascii_chars_encode_utf8(text);
    encode_utf8_valid_utf8(text);
    encode_utf8_decode_utf8(text);
    let rest = input.skip(pos);
    let line = bytes + crlf();
    assert forall|j: int| 0 <= j < k + 2 implies rest[j] == line[j] by {
        assert(input.subrange(pos, pos + k + 2)[j] == line[j]);
    }
    assert(rest.subrange(k, k + 2) =~= crlf());
    assert forall|j: int| 0 <= j < k implies !occurs_at(rest, crlf(), j) by {
        assert(rest[j] == text[j] as u8);
        assert(rest[j] != 13);
        assert(crlf()[0] == 13);
        if occurs_at(rest, crlf(), j) {
            assert(rest.subrange(j, j + 2)[0] == rest[j]);
        }
    }
    lemma_find_is(rest, crlf(), k);
    assert(input.subrange(pos, pos + k) =~= bytes);
    let semicolon = CharSet::Only(';');
    assert forall|j: int| 0 <= j < text.len() implies !semicolon.has(#[trigger] text[j]) by {}
    lemma_first_is(text, semicolon, 0, text.len() as int);
    assert(before(text, ';') =~= text);
    assert(!is_space(text[0]));
    assert(!is_space(text[text.len() - 1]));
    assert(trim_start(text, CharSet::Space) == text);
    assert(trim(text) == text);
}

proof fn lemma_chunks_of_pieces(
    done: Seq<u8>,
    pieces: Seq<Seq<u8>>,
    rest: Seq<u8>,
    out: Seq<u8>,
    limit: int,
)
    requires
        forall|k: int| 0 <= k < pieces.len() ==> (#[trigger] pieces[k]).len() > 0,
        out.len() + pieced(pieces).len() <= limit <= usize::MAX,
    ensures
        chunks(done + as_chunks(pieces) + rest, done.len() as int, out, limit) == (Decoded::Done {
            body: out + pieced(pieces),
            used: (done + as_chunks(pieces)).len() as int,
        }),
    decreases pieces.len(),
{
    let input = done + as_chunks(pieces) + rest;
    let pos = done.len() as int;
    if pieces.len() == 0 {
        let bytes = hex_bytes(0);
        let k = bytes.len() as int;
        assert(input.subrange(pos, pos + k + 2) =~= bytes + crlf());
        lemma_number_line(0, input, pos);
        assert(input.subrange(pos + k + 2, pos + k + 4) =~= crlf());
        assert(out + pieced(pieces) =~= out);
    } else {
        let piece = pieces[0];
        let later = pieces.skip(1);
        let n = piece.len() as int;
        let bytes = hex_bytes(n);
        let k = bytes.len() as int;
        let next = pos + k + 2;
        assert forall|j: int| 0 <= j < later.len() implies (#[trigger] later[j]).len() > 0 by {
            assert(later[j] == pieces[j + 1]);
        }
        assert(input.subrange(pos, pos + k + 2) =~= bytes + crlf());
        lemma_number_line(n, input, pos);
        assert(input.subrange(next, next + n) =~= piece);
        assert(input.subrange(next + n, next + n + 2) =~= crlf());
        let so_far = done + as_chunk(piece);
        assert(so_far.len() == next + n + 2);
        assert(input =~= so_far + as_chunks(later) + rest);
        lemma_chunks_of_pieces(so_far, later, rest, out + piece, limit);
        assert(out + piece + pieced(later) =~= out + pieced(pieces));
        assert((so_far + as_chunks(later)).len() == (done + as_chunks(pieces)).len());
    }
}

/// A body that is sent in chunks arrives as it was sent, however it was cut up, and takes exactly
/// the bytes that were sent for it.
pub proof fn law_chunked_body_arrives(pieces: Seq<Seq<u8>>, rest: Seq<u8>, limit: int)
    requires
        forall|k: int| 0 <= k < pieces.len() ==> (#[trigger] pieces[k]).len() > 0,
        pieced(pieces).len() <= limit <= usize::MAX,
    ensures
        chunks(as_chunks(pieces) + rest, 0, Seq::empty(), limit) == (Decoded::Done {
            body: pieced(pieces),
            used: as_chunks(pieces).len() as int,
        }),
{
    let none = Seq::<u8>::empty();
    lemma_chunks_of_pieces(none, pieces, rest, none, limit);
    assert(none + as_chunks(pieces) + rest =~= as_chunks(pieces) + rest);
    assert(none + as_chunks(pieces) =~= as_chunks(pieces));
    assert(none + pieced(pieces) =~= pieced(pieces));
}

} // verus!
