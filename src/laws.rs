//! Properties of framing that hold across calls.
use vstd::prelude::*;
use crate::bytes::{find_from, matches_at, parse_number};
use crate::connection::frame_all;
use crate::framer::{
    blank_line, chunked_marker, colon_space, content_length, crlf, decode_chunks, frame,
    header_pairs, request_line_spaces, semicolon, space, http11, ChunkOutcome,
};
use crate::headers::HeaderPair;
use crate::request::{ParseError, RequestView};

verus! {

proof fn lemma_subrange_concat(b: Seq<u8>, e: Seq<u8>, x: int, y: int)
    requires
        0 <= x <= y <= b.len(),
    ensures
        (b + e).subrange(x, y) == b.subrange(x, y),
{
    assert((b + e).subrange(x, y) =~= b.subrange(x, y));
}

/// A match found in `b` is still the first one once bytes follow and the bound grows.
proof fn lemma_find_from_grow(b: Seq<u8>, e: Seq<u8>, pat: Seq<u8>, i: int, to: int, to2: int)
    requires
        find_from(b, pat, i, to) is Some,
        to <= to2 <= b.len() + e.len(),
    ensures
        find_from(b + e, pat, i, to2) == find_from(b, pat, i, to),
    decreases to - i,
{
    lemma_subrange_concat(b, e, i, i + pat.len());
    if !matches_at(b, pat, i) {
        lemma_find_from_grow(b, e, pat, i + 1, to, to2);
    }
}

proof fn lemma_header_pairs_extend(
    b: Seq<u8>,
    e: Seq<u8>,
    pos: int,
    end: int,
    acc: Seq<HeaderPair>,
)
    requires
        end <= b.len(),
    ensures
        header_pairs(b + e, pos, end, acc) == header_pairs(b, pos, end, acc),
    decreases end - pos,
{
    if !(pos < 0 || pos > end) {
        crate::bytes::lemma_find_from_extend(b, e, crlf(), pos, end);
        crate::bytes::lemma_find_from_bounds(b, crlf(), pos, end);
        let le = match find_from(b, crlf(), pos, end) {
            Some(c) => c,
            None => end,
        };
        if !(le < pos || le > end) {
            crate::bytes::lemma_find_from_extend(b, e, colon_space(), pos, le);
            crate::bytes::lemma_find_from_bounds(b, colon_space(), pos, le);
            if let Some(c) = find_from(b, colon_space(), pos, le) {
                lemma_subrange_concat(b, e, pos, c);
                lemma_subrange_concat(b, e, c + 2, le);
                let acc2 = acc.push((b.subrange(pos, c), b.subrange(c + 2, le)));
                if le + 2 <= end {
                    lemma_header_pairs_extend(b, e, le + 2, end, acc2);
                }
            }
        }
    }
}

proof fn lemma_decode_chunks_extend(b: Seq<u8>, e: Seq<u8>, pos: int, acc: Seq<u8>)
    requires
        !(decode_chunks(b, pos, acc) is Incomplete),
    ensures
        decode_chunks(b + e, pos, acc) == decode_chunks(b, pos, acc),
    decreases b.len() - pos,
{
    let be = b + e;
    let c = find_from(b, crlf(), pos, b.len() as int)->Some_0;
    lemma_find_from_grow(b, e, crlf(), pos, b.len() as int, be.len() as int);
    crate::bytes::lemma_find_from_bounds(b, crlf(), pos, b.len() as int);
    crate::bytes::lemma_find_from_extend(b, e, semicolon(), pos, c);
    crate::bytes::lemma_find_from_bounds(b, semicolon(), pos, c);
    let se = match find_from(b, semicolon(), pos, c) {
        Some(k) => k,
        None => c,
    };
    lemma_subrange_concat(b, e, pos, se);
    if let Some(n) = parse_number(b.subrange(pos, se), true) {
        if n == 0 {
            lemma_find_from_grow(b, e, blank_line(), c, b.len() as int, be.len() as int);
        } else if !(n < 0 || c + 4 + n > b.len()) {
            lemma_subrange_concat(b, e, c + 2 + n, c + 4 + n);
            lemma_subrange_concat(b, e, c + 2, c + 2 + n);
            if matches_at(b, crlf(), c + 2 + n) {
                lemma_decode_chunks_extend(b, e, c + 4 + n, acc + b.subrange(c + 2, c + 2 + n));
            }
        }
    }
}

/// Framing does not depend on how the bytes were split into reads: once the bytes received
/// so far frame to a request or to an error, any bytes that follow leave that outcome as it
/// was.
pub proof fn lemma_frame_stable_under_extension(b: Seq<u8>, e: Seq<u8>, is_chunk: bool)
    requires
        frame(b, is_chunk) != Ok::<Option<(RequestView, int)>, ParseError>(None),
    ensures
        frame(b + e, is_chunk) == frame(b, is_chunk),
{
    let be = b + e;
    let rl = find_from(b, crlf(), 0, b.len() as int)->Some_0;
    lemma_find_from_grow(b, e, crlf(), 0, b.len() as int, be.len() as int);
    crate::bytes::lemma_find_from_bounds(b, crlf(), 0, b.len() as int);
    crate::bytes::lemma_find_from_extend(b, e, space(), 0, rl);
    crate::bytes::lemma_find_from_bounds(b, space(), 0, rl);
    if let Some(s1) = find_from(b, space(), 0, rl) {
        crate::bytes::lemma_find_from_extend(b, e, space(), s1 + 1, rl);
        crate::bytes::lemma_find_from_bounds(b, space(), s1 + 1, rl);
        if let Some(s2) = find_from(b, space(), s1 + 1, rl) {
            crate::bytes::lemma_find_from_extend(b, e, space(), s2 + 1, rl);
            crate::bytes::lemma_find_from_extend(b, e, http11(), s2 + 1, rl);
        }
    }
    assert(request_line_spaces(be, rl) == request_line_spaces(b, rl));
    if let Some((s1, s2)) = request_line_spaces(b, rl) {
        lemma_find_from_grow(b, e, blank_line(), rl, b.len() as int, be.len() as int);
        crate::bytes::lemma_find_from_bounds(b, blank_line(), rl, b.len() as int);
        let he = find_from(b, blank_line(), rl, b.len() as int)->Some_0;
        lemma_header_pairs_extend(b, e, rl + 2, he, Seq::empty());
        crate::bytes::lemma_find_from_extend(b, e, chunked_marker(), rl, he + 2);
        lemma_subrange_concat(b, e, 0, s1);
        lemma_subrange_concat(b, e, s1 + 1, s2);
        lemma_subrange_concat(b, e, s2 + 1, rl);
        let pairs_opt = if he == rl {
            Some(Seq::<HeaderPair>::empty())
        } else {
            header_pairs(b, rl + 2, he, Seq::empty())
        };
        if let Some(pairs) = pairs_opt {
            if is_chunk || find_from(b, chunked_marker(), rl, he + 2) is Some {
                lemma_decode_chunks_extend(b, e, he + 4, Seq::empty());
            } else {
                let h = crate::headers::pairs_map(pairs);
                if h.contains_key(crate::framer::content_length_name()) {
                    crate::bytes::lemma_parse_number_nonneg(h[crate::framer::content_length_name()], false);
                }
                if let Some(cl) = content_length(h) {
                    if he + 4 + cl <= b.len() {
                        lemma_subrange_concat(b, e, he + 4, he + 4 + cl);
                    }
                }
            }
        }
    }
}

/// Where the blank line that ends the header block of `b` starts; the body starts four bytes
/// later.
pub open spec fn header_block_end(b: Seq<u8>) -> Option<int> {
    match find_from(b, crlf(), 0, b.len() as int) {
        Some(rl) => find_from(b, blank_line(), rl, b.len() as int),
        None => None,
    }
}

/// Whether the header block of `b` holds `Transfer-Encoding: chunked`.
pub open spec fn announces_chunked(b: Seq<u8>) -> bool {
    match find_from(b, crlf(), 0, b.len() as int) {
        Some(rl) => match find_from(b, blank_line(), rl, b.len() as int) {
            Some(he) => find_from(b, chunked_marker(), rl, he + 2) is Some,
            None => false,
        },
        None => false,
    }
}

proof fn lemma_decode_chunks_bounds(b: Seq<u8>, pos: int, acc: Seq<u8>)
    requires
        0 <= pos,
    ensures
        decode_chunks(b, pos, acc) matches ChunkOutcome::Done(_, end) ==> pos < end <= b.len(),
    decreases b.len() - pos,
{
    if pos <= b.len() {
        crate::bytes::lemma_find_from_bounds(b, crlf(), pos, b.len() as int);
        if let Some(c) = find_from(b, crlf(), pos, b.len() as int) {
            crate::bytes::lemma_find_from_bounds(b, semicolon(), pos, c);
            crate::bytes::lemma_find_from_bounds(b, blank_line(), c, b.len() as int);
            let se = match find_from(b, semicolon(), pos, c) {
                Some(k) => k,
                None => c,
            };
            if let Some(n) = parse_number(b.subrange(pos, se), true) {
                if n != 0 && !(n < 0 || c + 4 + n > b.len()) && matches_at(b, crlf(), c + 2 + n) {
                    lemma_decode_chunks_bounds(b, c + 4 + n, acc + b.subrange(c + 2, c + 2 + n));
                }
            }
        }
    }
}

/// A framed request occupies at least one byte and no more bytes than the buffer holds, so
/// removing it always makes progress and stays within the buffer.
pub proof fn lemma_frame_consumed_bounds(b: Seq<u8>, is_chunk: bool)
    ensures
        frame(b, is_chunk) matches Ok(Some((_, n))) ==> 0 < n <= b.len(),
{
    crate::bytes::lemma_find_from_bounds(b, crlf(), 0, b.len() as int);
    if let Some(rl) = find_from(b, crlf(), 0, b.len() as int) {
        crate::bytes::lemma_find_from_bounds(b, blank_line(), rl, b.len() as int);
        if let Some(he) = find_from(b, blank_line(), rl, b.len() as int) {
            lemma_decode_chunks_bounds(b, he + 4, Seq::empty());
            let pairs_opt = if he == rl {
                Some(Seq::<HeaderPair>::empty())
            } else {
                header_pairs(b, rl + 2, he, Seq::empty())
            };
            if let Some(pairs) = pairs_opt {
                let h = crate::headers::pairs_map(pairs);
                if h.contains_key(crate::framer::content_length_name()) {
                    crate::bytes::lemma_parse_number_nonneg(h[crate::framer::content_length_name()], false);
                }
            }
        }
    }
}

/// A request framed by its `Content-Length` occupies exactly the request line and headers, the
/// blank line after them, and `Content-Length` bytes of body; removing those bytes leaves the
/// rest of the buffer, followed by whatever arrives later, positioned at the next request.
pub proof fn lemma_content_length_consumed(b: Seq<u8>, rest: Seq<u8>)
    requires
        frame(b, false) matches Ok(Some(_)),
        !announces_chunked(b),
    ensures
        ({
            let (q, n) = frame(b, false)->Ok_0->Some_0;
            &&& header_block_end(b) matches Some(he)
            &&& q.metadata matches Some(m)
            &&& content_length(m.headers) == Some(n - (he + 4))
            &&& q.payload == b.subrange(he + 4, n)
            &&& n <= b.len()
            &&& frame(b + rest, false) == frame(b, false)
            &&& (b + rest).subrange(n, (b.len() + rest.len()) as int) == b.subrange(n, b.len() as int) + rest
        }),
{
    let (q, n) = frame(b, false)->Ok_0->Some_0;
    lemma_frame_consumed_bounds(b, false);
    lemma_frame_stable_under_extension(b, rest, false);
    let rl = find_from(b, crlf(), 0, b.len() as int)->Some_0;
    let he = find_from(b, blank_line(), rl, b.len() as int)->Some_0;
    let pairs = if he == rl {
        Seq::<HeaderPair>::empty()
    } else {
        header_pairs(b, rl + 2, he, Seq::empty())->Some_0
    };
    assert(q.metadata->Some_0.headers == crate::headers::pairs_map(pairs));
    assert((b + rest).subrange(n, (b.len() + rest.len()) as int) =~= b.subrange(n, b.len() as int) + rest);
}

/// Pending bytes that framing left in place give the same outcome when framed again: a retry
/// without new bytes changes nothing.
pub proof fn lemma_retry_same_outcome(b: Seq<u8>, acc: Seq<RequestView>)
    requires
        !(frame(b, false) matches Ok(Some(_))),
    ensures
        frame_all(b, acc) == (acc, b, frame_all(b, acc).2),
        frame_all(frame_all(b, acc).1, acc) == frame_all(b, acc),
{
}

/// A match in `p + e` that ends within `p` is also the first match in `p`.
proof fn lemma_find_from_shrink(p: Seq<u8>, e: Seq<u8>, pat: Seq<u8>, i: int, to: int, to2: int)
    requires
        find_from(p + e, pat, i, to2) matches Some(j) && j + pat.len() <= to,
        to <= to2,
        to <= p.len(),
    ensures
        find_from(p, pat, i, to) == find_from(p + e, pat, i, to2),
    decreases to - i,
{
    crate::bytes::lemma_find_from_bounds(p + e, pat, i, to2);
    lemma_subrange_concat(p, e, i, i + pat.len());
    if !matches_at(p + e, pat, i) {
        lemma_find_from_shrink(p, e, pat, i + 1, to, to2);
    }
}

proof fn lemma_decode_chunks_shrink(p: Seq<u8>, e: Seq<u8>, pos: int, acc: Seq<u8>)
    requires
        0 <= pos,
        decode_chunks(p + e, pos, acc) matches ChunkOutcome::Done(_, end) && end <= p.len(),
    ensures
        decode_chunks(p, pos, acc) == decode_chunks(p + e, pos, acc),
    decreases p.len() - pos,
{
    let b = p + e;
    lemma_decode_chunks_bounds(b, pos, acc);
    crate::bytes::lemma_find_from_bounds(b, crlf(), pos, b.len() as int);
    let c = find_from(b, crlf(), pos, b.len() as int)->Some_0;
    crate::bytes::lemma_find_from_bounds(b, semicolon(), pos, c);
    let se = match find_from(b, semicolon(), pos, c) {
        Some(k) => k,
        None => c,
    };
    let n = parse_number(b.subrange(pos, se), true)->Some_0;
    if n == 0 {
        crate::bytes::lemma_find_from_bounds(b, blank_line(), c, b.len() as int);
        let t = find_from(b, blank_line(), c, b.len() as int)->Some_0;
        assert(c + 2 <= t + 4);
        crate::bytes::lemma_find_from_extend(p, e, semicolon(), pos, c);
        lemma_subrange_concat(p, e, pos, se);
        lemma_find_from_shrink(p, e, crlf(), pos, p.len() as int, b.len() as int);
        lemma_find_from_shrink(p, e, blank_line(), c, p.len() as int, b.len() as int);
    } else {
        let next = c + 4 + n;
        lemma_decode_chunks_bounds(b, next, acc + b.subrange(c + 2, c + 2 + n));
        crate::bytes::lemma_find_from_extend(p, e, semicolon(), pos, c);
        lemma_subrange_concat(p, e, pos, se);
        lemma_find_from_shrink(p, e, crlf(), pos, p.len() as int, b.len() as int);
        lemma_subrange_concat(p, e, c + 2 + n, c + 4 + n);
        lemma_subrange_concat(p, e, c + 2, c + 2 + n);
        lemma_decode_chunks_shrink(p, e, next, acc + b.subrange(c + 2, c + 2 + n));
    }
}

/// A request is framed from its own bytes: any prefix that holds all of them frames to the
/// same request.
proof fn lemma_frame_shrink(p: Seq<u8>, e: Seq<u8>, is_chunk: bool)
    requires
        frame(p + e, is_chunk) matches Ok(Some((_, n))) && n <= p.len(),
    ensures
        frame(p, is_chunk) == frame(p + e, is_chunk),
{
    let b = p + e;
    lemma_frame_consumed_bounds(b, is_chunk);
    crate::bytes::lemma_find_from_bounds(b, crlf(), 0, b.len() as int);
    let rl = find_from(b, crlf(), 0, b.len() as int)->Some_0;
    crate::bytes::lemma_find_from_bounds(b, blank_line(), rl, b.len() as int);
    let he = find_from(b, blank_line(), rl, b.len() as int)->Some_0;
    let pairs_opt = if he == rl {
        Some(Seq::<HeaderPair>::empty())
    } else {
        header_pairs(b, rl + 2, he, Seq::empty())
    };
    let pairs = pairs_opt->Some_0;
    let h = crate::headers::pairs_map(pairs);
    if h.contains_key(crate::framer::content_length_name()) {
        crate::bytes::lemma_parse_number_nonneg(h[crate::framer::content_length_name()], false);
    }
    if is_chunk || find_from(b, chunked_marker(), rl, he + 2) is Some {
        lemma_decode_chunks_bounds(b, he + 4, Seq::empty());
    }
    assert(he + 4 <= p.len());
    lemma_find_from_shrink(p, e, crlf(), 0, p.len() as int, b.len() as int);
    lemma_find_from_shrink(p, e, blank_line(), rl, p.len() as int, b.len() as int);
    assert(frame(p, is_chunk) != Ok::<Option<(RequestView, int)>, ParseError>(None)) by {
        if is_chunk || find_from(b, chunked_marker(), rl, he + 2) is Some {
            crate::bytes::lemma_find_from_extend(p, e, chunked_marker(), rl, he + 2);
            lemma_header_pairs_extend(p, e, rl + 2, he, Seq::empty());
            crate::bytes::lemma_find_from_extend(p, e, space(), 0, rl);
            let s1 = find_from(b, space(), 0, rl)->Some_0;
            crate::bytes::lemma_find_from_bounds(b, space(), 0, rl);
            crate::bytes::lemma_find_from_extend(p, e, space(), s1 + 1, rl);
            let s2 = find_from(b, space(), s1 + 1, rl)->Some_0;
            crate::bytes::lemma_find_from_bounds(b, space(), s1 + 1, rl);
            crate::bytes::lemma_find_from_extend(p, e, space(), s2 + 1, rl);
            crate::bytes::lemma_find_from_extend(p, e, http11(), s2 + 1, rl);
            lemma_decode_chunks_shrink(p, e, he + 4, Seq::empty());
        } else {
            crate::bytes::lemma_find_from_extend(p, e, chunked_marker(), rl, he + 2);
            lemma_header_pairs_extend(p, e, rl + 2, he, Seq::empty());
            crate::bytes::lemma_find_from_extend(p, e, space(), 0, rl);
            let s1 = find_from(b, space(), 0, rl)->Some_0;
            crate::bytes::lemma_find_from_bounds(b, space(), 0, rl);
            crate::bytes::lemma_find_from_extend(p, e, space(), s1 + 1, rl);
            let s2 = find_from(b, space(), s1 + 1, rl)->Some_0;
            crate::bytes::lemma_find_from_bounds(b, space(), s1 + 1, rl);
            crate::bytes::lemma_find_from_extend(p, e, space(), s2 + 1, rl);
            crate::bytes::lemma_find_from_extend(p, e, http11(), s2 + 1, rl);
        }
    }
    lemma_frame_stable_under_extension(p, e, is_chunk);
}

/// Framing is invariant to how the bytes were split into reads: when a buffer `p + e` frames
/// to a request of `n` bytes, every prefix `p` shorter than `n` asks for more bytes, and every
/// prefix of at least `n` bytes frames to that same request.
pub proof fn lemma_frame_split_invariant(p: Seq<u8>, e: Seq<u8>, is_chunk: bool)
    requires
        frame(p + e, is_chunk) matches Ok(Some(_)),
    ensures
        ({
            let n = frame(p + e, is_chunk)->Ok_0->Some_0.1;
            &&& p.len() < n ==> frame(p, is_chunk) == Ok::<Option<(RequestView, int)>, ParseError>(None)
            &&& p.len() >= n ==> frame(p, is_chunk) == frame(p + e, is_chunk)
        }),
{
    let n = frame(p + e, is_chunk)->Ok_0->Some_0.1;
    if p.len() >= n {
        lemma_frame_shrink(p, e, is_chunk);
    } else if frame(p, is_chunk) != Ok::<Option<(RequestView, int)>, ParseError>(None) {
        lemma_frame_stable_under_extension(p, e, is_chunk);
        lemma_frame_consumed_bounds(p, is_chunk);
    }
}

/// A connection frames the same requests however the bytes were split into reads: framing
/// `b1`, then the bytes it left followed by `b2`, gives what framing `b1 + b2` at once gives,
/// unless framing `b1` already stopped at malformed bytes.
pub proof fn lemma_frame_all_split(b1: Seq<u8>, b2: Seq<u8>, acc: Seq<RequestView>)
    requires
        frame_all(b1, acc).2 is None,
    ensures
        frame_all(frame_all(b1, acc).1 + b2, frame_all(b1, acc).0) == frame_all(b1 + b2, acc),
    decreases b1.len(),
{
    if b1.len() == 0 {
        assert(b1 + b2 =~= b2);
    } else {
        lemma_frame_consumed_bounds(b1, false);
        match frame(b1, false) {
            Ok(Some((q, n))) => {
                lemma_frame_stable_under_extension(b1, b2, false);
                let rest = b1.subrange(n, b1.len() as int);
                assert((b1 + b2).subrange(n, (b1 + b2).len() as int) =~= rest + b2);
                lemma_frame_all_split(rest, b2, acc.push(q));
            },
            Ok(None) => {},
            Err(_) => {},
        }
    }
}

/// Two requests that arrive back to back in one buffer are both framed, in order, and nothing
/// is left.
pub proof fn lemma_two_pipelined(m1: Seq<u8>, m2: Seq<u8>, acc: Seq<RequestView>)
    requires
        frame(m1, false) matches Ok(Some((_, n))) && n == m1.len(),
        frame(m2, false) matches Ok(Some((_, n))) && n == m2.len(),
    ensures
        frame_all(m1 + m2, acc) == (
            acc.push(frame(m1, false)->Ok_0->Some_0.0).push(frame(m2, false)->Ok_0->Some_0.0),
            Seq::<u8>::empty(),
            None::<ParseError>,
        ),
{
    lemma_frame_consumed_bounds(m1, false);
    lemma_frame_consumed_bounds(m2, false);
    lemma_frame_stable_under_extension(m1, m2, false);
    let b = m1 + m2;
    assert(b.subrange(m1.len() as int, b.len() as int) =~= m2);
    let q1 = frame(m1, false)->Ok_0->Some_0.0;
    let e = m2.subrange(m2.len() as int, m2.len() as int);
    assert(e.len() == 0);
    assert(frame_all(m2, acc.push(q1)) == frame_all(e, acc.push(q1).push(frame(m2, false)->Ok_0->Some_0.0)));
}

} // verus!
