//! Bodies of requests: chunks, and what is known of a body before it has arrived.

use crate::chunk::{chunk_reach, chunks, crlf, crlf_crlf, size_line, Decoded, SizeLine};
use crate::http::{announced, announced_host};
use crate::number::number;
use crate::text::{before, find, lemma_find_extend, lemma_find_from, lemma_find_is, occurs_at, trim};
use crate::wire::{
    law_head_is_read_as_written, lemma_line_bytes, no_return, no_return_byte, SentBody, Written,
};
use vstd::prelude::*;
use vstd::utf8::{encode_utf8, encode_utf8_decode_utf8, encode_utf8_valid_utf8};

verus! {

/// A chunk starts with a line: the hexadecimal number before a semicolon, if there is one, is its
/// size, with white space around it or not. A line without such a number is refused, and one that
/// has not ended is waited for.
pub proof fn law_chunk_size_line(done: Seq<u8>, text: Seq<char>, rest: Seq<u8>)
    requires
        no_return(text),
    ensures
        ({
            let input = done + encode_utf8(text) + crlf() + rest;
            let size = number(trim(before(text, ';')), 16, usize::MAX as int);
            match size_line(input, done.len() as int) {
                SizeLine::Size { size: n, next } => size == Some(n) && next == (done + encode_utf8(
                    text,
                ) + crlf()).len(),
                SizeLine::Bad(_) => size is None,
                SizeLine::Incomplete => false,
            }
        }),
        size_line(done + encode_utf8(text), done.len() as int) is Incomplete,
{
    let bytes = encode_utf8(text);
    let input = done + bytes + crlf() + rest;
    let pos = done.len() as int;
    let k = bytes.len() as int;
    lemma_line_bytes(text);
    encode_utf8_valid_utf8(text);
    encode_utf8_decode_utf8(text);
    let tail = input.skip(pos);
    assert(tail =~= bytes + crlf() + rest);
    lemma_line_ends(bytes, rest);
    assert(input.subrange(pos, pos + k) =~= bytes);
    let short = done + bytes;
    assert(short.skip(pos) =~= bytes);
    lemma_find_from(bytes, crlf(), 0);
    if let Some(j) = find(bytes, crlf()) {
        assert(bytes.subrange(j, j + 2)[0] == bytes[j]);
        assert(crlf()[0] == 13);
    }
    crate::laws::texts::law_numbers_are_positional(seq!['0'], '0', 16, 0);
}

proof fn lemma_line_ends(bytes: Seq<u8>, rest: Seq<u8>)
    requires
        no_return_byte(bytes),
    ensures
        find(bytes + crlf() + rest, crlf()) == Some(bytes.len() as int),
{
    let s = bytes + crlf() + rest;
    let n = bytes.len() as int;
    assert(s.subrange(n, n + 2) =~= crlf());
    assert forall|j: int| 0 <= j < n implies !occurs_at(s, crlf(), j) by {
        if occurs_at(s, crlf(), j) {
            assert(s.subrange(j, j + 2)[0] == s[j]);
            assert(s[j] == bytes[j]);
            assert(crlf()[0] == 13);
        }
    }
    lemma_find_is(s, crlf(), n);
}

/// A chunk whose data has arrived, followed by a line end, is added to the body, and decoding goes
/// on after it. A chunk that would make the body longer than the limit is refused, and so is one
/// that another byte follows; one that has not arrived is waited for.
pub proof fn law_chunk_is_decoded(
    done: Seq<u8>,
    text: Seq<char>,
    data: Seq<u8>,
    rest: Seq<u8>,
    out: Seq<u8>,
    limit: int,
)
    requires
        no_return(text),
        data.len() > 0,
        number(trim(before(text, ';')), 16, usize::MAX as int) == Some(data.len() as int),
    ensures
        ({
            let line = done + encode_utf8(text) + crlf();
            let whole = line + data + crlf() + rest;
            &&& out.len() + data.len() <= limit ==> chunks(whole, done.len() as int, out, limit)
                == chunks(whole, (line + data + crlf()).len() as int, out + data, limit)
            &&& out.len() + data.len() > limit ==> chunks(
                whole,
                done.len() as int,
                out,
                limit,
            ) is Error
            &&& rest.len() >= 2 && rest.take(2) != crlf() && out.len() + data.len() <= limit
                ==> chunks(line + data + rest, done.len() as int, out, limit) is Error
            &&& forall|n: int|
                0 <= n < data.len() + 2 && out.len() + data.len() <= limit ==> #[trigger] chunks(
                    line + (data + crlf()).take(n),
                    done.len() as int,
                    out,
                    limit,
                ) == (Decoded::NeedMore {
                    pos: done.len() as int,
                    out,
                    pending: data.len() as int,
                })
        }),
{
    let line = done + encode_utf8(text) + crlf();
    let whole = line + data + crlf() + rest;
    let pos = done.len() as int;
    let next = line.len() as int;
    let size = data.len() as int;
    law_chunk_size_line(done, text, data + crlf() + rest);
    assert(done + encode_utf8(text) + crlf() + (data + crlf() + rest) =~= whole);
    assert(whole.subrange(next, next + size) =~= data);
    assert(whole.subrange(next + size, next + size + 2) =~= crlf());
    let other = line + data + rest;
    law_chunk_size_line(done, text, data + rest);
    assert(done + encode_utf8(text) + crlf() + (data + rest) =~= other);
    if rest.len() >= 2 {
        assert(other.subrange(next + size, next + size + 2) =~= rest.take(2));
    }
    assert forall|n: int|
        0 <= n < data.len() + 2 && out.len() + data.len() <= limit implies #[trigger] chunks(
        line + (data + crlf()).take(n),
        pos,
        out,
        limit,
    ) == (Decoded::NeedMore { pos, out, pending: size }) by {
        let part = (data + crlf()).take(n);
        law_chunk_size_line(done, text, part);
        assert(done + encode_utf8(text) + crlf() + part =~= line + part);
    }
}

/// A chunk of size zero ends the body: with the line end that follows it, or, where header fields
/// follow it, with the empty line after those.
pub proof fn law_last_chunk_ends_the_body(
    done: Seq<u8>,
    text: Seq<char>,
    trailers: Seq<u8>,
    rest: Seq<u8>,
    out: Seq<u8>,
    limit: int,
)
    requires
        no_return(text),
        number(trim(before(text, ';')), 16, usize::MAX as int) == Some(0int),
        find(trailers + crlf_crlf(), crlf_crlf()) == Some(trailers.len() as int),
        trailers.len() > 0,
        trailers[0] != 13,
    ensures
        ({
            let line = done + encode_utf8(text) + crlf();
            &&& chunks(line + crlf() + rest, done.len() as int, out, limit) == (Decoded::Done {
                body: out,
                used: line.len() as int + 2,
            })
            &&& chunks(line + trailers + crlf_crlf() + rest, done.len() as int, out, limit) == (
            Decoded::Done { body: out, used: line.len() as int + trailers.len() + 4 })
        }),
{
    let line = done + encode_utf8(text) + crlf();
    let next = line.len() as int;
    let short = line + crlf() + rest;
    law_chunk_size_line(done, text, crlf() + rest);
    assert(done + encode_utf8(text) + crlf() + (crlf() + rest) =~= short);
    assert(short.subrange(next, next + 2) =~= crlf());
    let tail = trailers + crlf_crlf() + rest;
    let long = line + trailers + crlf_crlf() + rest;
    law_chunk_size_line(done, text, tail);
    assert(done + encode_utf8(text) + crlf() + tail =~= long);
    assert(long.skip(next) =~= (trailers + crlf_crlf()) + rest);
    lemma_find_extend(trailers + crlf_crlf(), rest, crlf_crlf());
    assert(crlf()[0] == 13);
    if occurs_at(long, crlf(), next) {
        assert(long.subrange(next, next + 2)[0] == long[next]);
        assert(long[next] == trailers[0]);
    }
}

/// Of a request with a length, the length of the body and the host are known as soon as the head
/// has arrived, however much of the body has; of one without a body, that there is none.
pub proof fn law_announced_length(w: Written, rest: Seq<u8>)
    requires
        w.is_valid(),
        w.body.body().len() <= usize::MAX,
    ensures
        announced_host(encode_utf8(w.head()) + crlf_crlf() + rest) == Some(w.meant_head().host()),
        w.body matches SentBody::Sized(body) ==> announced(
            encode_utf8(w.head()) + crlf_crlf() + rest,
        ) == body.len(),
        w.body is Nothing ==> announced(encode_utf8(w.head()) + crlf_crlf() + rest) == 0,
        w.body is Chunked ==> announced(encode_utf8(w.head()) + crlf_crlf() + rest) == chunk_reach(
            rest,
            0,
            0,
        ),
{
    law_head_is_read_as_written(w, rest, usize::MAX as int);
    let buffer = encode_utf8(w.head()) + crlf_crlf() + rest;
    assert(buffer.skip(encode_utf8(w.head()).len() as int + 4) =~= rest);
}

/// Of a body in chunks, the chunks that have arrived count, and the one that is arriving with all
/// of the size that it announces.
pub proof fn law_announced_chunk(
    done: Seq<u8>,
    text: Seq<char>,
    data: Seq<u8>,
    rest: Seq<u8>,
    length: int,
)
    requires
        no_return(text),
        data.len() > 0,
        number(trim(before(text, ';')), 16, usize::MAX as int) == Some(data.len() as int),
    ensures
        ({
            let line = done + encode_utf8(text) + crlf();
            &&& chunk_reach(line + data + crlf() + rest, done.len() as int, length) == chunk_reach(
                line + data + crlf() + rest,
                (line + data + crlf()).len() as int,
                length + data.len(),
            )
            &&& forall|n: int|
                0 <= n < data.len() + 2 ==> #[trigger] chunk_reach(
                    line + (data + crlf()).take(n),
                    done.len() as int,
                    length,
                ) == length + data.len()
            &&& chunk_reach(done + encode_utf8(text), done.len() as int, length) == length
        }),
{
    let line = done + encode_utf8(text) + crlf();
    let whole = line + data + crlf() + rest;
    let pos = done.len() as int;
    let next = line.len() as int;
    let size = data.len() as int;
    law_chunk_size_line(done, text, data + crlf() + rest);
    assert(done + encode_utf8(text) + crlf() + (data + crlf() + rest) =~= whole);
    assert(whole.subrange(next + size, next + size + 2) =~= crlf());
    assert forall|n: int| 0 <= n < data.len() + 2 implies #[trigger] chunk_reach(
        line + (data + crlf()).take(n),
        pos,
        length,
    ) == length + size by {
        let part = (data + crlf()).take(n);
        law_chunk_size_line(done, text, part);
        assert(done + encode_utf8(text) + crlf() + part =~= line + part);
    }
}

} // verus!
