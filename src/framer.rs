//! Finding one complete request at the front of a byte buffer.
use vstd::prelude::*;
use crate::bytes::{
    find_bytes, find_from, lemma_find_from_bounds, matches_at, bytes_match_at,
    parse_number, parse_number_in,
};
use crate::headers::{pairs_map, HeaderMap, HeaderPair};
use crate::request::{MetadataView, ParseError, Request, RequestMetadata, RequestView, Rpress};

verus! {

pub open spec fn crlf() -> Seq<u8> {
    seq![13u8, 10u8]
}

pub open spec fn blank_line() -> Seq<u8> {
    seq![13u8, 10u8, 13u8, 10u8]
}

pub open spec fn space() -> Seq<u8> {
    seq![32u8]
}

pub open spec fn colon_space() -> Seq<u8> {
    seq![58u8, 32u8]
}

pub open spec fn semicolon() -> Seq<u8> {
    seq![59u8]
}

/// `HTTP/1.1`
pub open spec fn http11() -> Seq<u8> {
    seq![72u8, 84u8, 84u8, 80u8, 47u8, 49u8, 46u8, 49u8]
}

/// `Content-Length`
pub open spec fn content_length_name() -> Seq<u8> {
    seq![67u8, 111u8, 110u8, 116u8, 101u8, 110u8, 116u8, 45u8, 76u8, 101u8, 110u8, 103u8, 116u8, 104u8]
}

/// `Transfer-Encoding: chunked`
pub open spec fn chunked_marker() -> Seq<u8> {
    seq![84u8, 114u8, 97u8, 110u8, 115u8, 102u8, 101u8, 114u8, 45u8, 69u8, 110u8, 99u8, 111u8,
        100u8, 105u8, 110u8, 103u8, 58u8, 32u8, 99u8, 104u8, 117u8, 110u8, 107u8, 101u8, 100u8]
}

fn crlf_bytes() -> (r: [u8; 2])
    ensures
        r@ == crlf(),
{
    [13, 10]
}

fn blank_line_bytes() -> (r: [u8; 4])
    ensures
        r@ == blank_line(),
{
    [13, 10, 13, 10]
}

fn space_bytes() -> (r: [u8; 1])
    ensures
        r@ == space(),
{
    [32]
}

fn colon_space_bytes() -> (r: [u8; 2])
    ensures
        r@ == colon_space(),
{
    [58, 32]
}

fn semicolon_bytes() -> (r: [u8; 1])
    ensures
        r@ == semicolon(),
{
    [59]
}

fn http11_bytes() -> (r: [u8; 8])
    ensures
        r@ == http11(),
{
    [72, 84, 84, 80, 47, 49, 46, 49]
}

fn content_length_bytes() -> (r: [u8; 14])
    ensures
        r@ == content_length_name(),
{
    [67, 111, 110, 116, 101, 110, 116, 45, 76, 101, 110, 103, 116, 104]
}

/// The bytes `Transfer-Encoding: chunked`.
pub(crate) fn chunked_marker_bytes() -> (r: [u8; 26])
    ensures
        r@ == chunked_marker(),
{
    [84, 114, 97, 110, 115, 102, 101, 114, 45, 69, 110, 99, 111, 100, 105, 110, 103, 58, 32, 99,
        104, 117, 110, 107, 101, 100]
}

/// The two spaces of a request line `b[0..rl]` made of exactly three tokens whose last holds
/// `HTTP/1.1`.
pub open spec fn request_line_spaces(b: Seq<u8>, rl: int) -> Option<(int, int)> {
    match find_from(b, space(), 0, rl) {
        None => None,
        Some(s1) => match find_from(b, space(), s1 + 1, rl) {
            None => None,
            Some(s2) => if find_from(b, space(), s2 + 1, rl) is None && find_from(
                b,
                http11(),
                s2 + 1,
                rl,
            ) is Some {
                Some((s1, s2))
            } else {
                None
            },
        },
    }
}

/// The header fields of the lines in `b[pos..end]`, appended to `acc`; `None` when a line has
/// no `": "`.
pub open spec fn header_pairs(b: Seq<u8>, pos: int, end: int, acc: Seq<HeaderPair>) -> Option<
    Seq<HeaderPair>,
>
    decreases end - pos,
{
    if pos < 0 || pos > end || end > b.len() {
        None
    } else {
        let le = match find_from(b, crlf(), pos, end) {
            Some(c) => c,
            None => end,
        };
        if le < pos || le > end {
            None
        } else {
            match find_from(b, colon_space(), pos, le) {
                None => None,
                Some(c) => {
                    let acc2 = acc.push((b.subrange(pos, c), b.subrange(c + 2, le)));
                    if le + 2 > end {
                        Some(acc2)
                    } else {
                        header_pairs(b, le + 2, end, acc2)
                    }
                },
            }
        }
    }
}

/// What decoding chunks yields: the reassembled payload and the index just past the body.
pub enum ChunkOutcome {
    Done(Seq<u8>, int),
    Incomplete,
    Malformed(ParseError),
}

/// Decodes the chunks that start at `pos`, appending their data to `acc`.
pub open spec fn decode_chunks(b: Seq<u8>, pos: int, acc: Seq<u8>) -> ChunkOutcome
    decreases b.len() - pos,
{
    if pos < 0 || pos > b.len() {
        ChunkOutcome::Incomplete
    } else {
        match find_from(b, crlf(), pos, b.len() as int) {
            None => ChunkOutcome::Incomplete,
            Some(c) => if c < pos {
                ChunkOutcome::Incomplete
            } else {
                let se = match find_from(b, semicolon(), pos, c) {
                    Some(k) => k,
                    None => c,
                };
                match parse_number(b.subrange(pos, se), true) {
                    None => ChunkOutcome::Malformed(ParseError::ChunkSize),
                    Some(n) => if n == 0 {
                        match find_from(b, blank_line(), c, b.len() as int) {
                            None => ChunkOutcome::Incomplete,
                            Some(t) => ChunkOutcome::Done(acc, t + 4),
                        }
                    } else if n < 0 || c + 4 + n > b.len() {
                        ChunkOutcome::Incomplete
                    } else if !matches_at(b, crlf(), c + 2 + n) {
                        ChunkOutcome::Malformed(ParseError::ChunkTrailer)
                    } else {
                        decode_chunks(b, c + 4 + n, acc + b.subrange(c + 2, c + 2 + n))
                    },
                }
            },
        }
    }
}

/// The body length that the headers give: the last `Content-Length` value, or zero.
pub open spec fn content_length(h: Map<Seq<u8>, Seq<u8>>) -> Option<int> {
    if h.contains_key(content_length_name()) {
        parse_number(h[content_length_name()], false)
    } else {
        Some(0)
    }
}

/// What framing `b` yields: a request and the number of bytes it occupies, `None` when more
/// bytes are needed, or the reason the bytes cannot be a request. The body is chunked when the
/// header block holds `Transfer-Encoding: chunked`, or when the caller says so by `is_chunk`.
pub open spec fn frame(b: Seq<u8>, is_chunk: bool) -> Result<Option<(RequestView, int)>, ParseError> {
    match find_from(b, crlf(), 0, b.len() as int) {
        None => Ok(None),
        Some(rl) => match request_line_spaces(b, rl) {
            None => Err(ParseError::RequestLine),
            Some((s1, s2)) => match find_from(b, blank_line(), rl, b.len() as int) {
                None => Ok(None),
                Some(he) => match (if he == rl {
                    Some(Seq::<HeaderPair>::empty())
                } else {
                    header_pairs(b, rl + 2, he, Seq::empty())
                }) {
                    None => Err(ParseError::HeaderLine),
                    Some(pairs) => {
                        let meta = MetadataView {
                            method: b.subrange(0, s1),
                            uri: b.subrange(s1 + 1, s2),
                            http_method: b.subrange(s2 + 1, rl),
                            headers: pairs_map(pairs),
                        };
                        if is_chunk || find_from(b, chunked_marker(), rl, he + 2) is Some {
                            match decode_chunks(b, he + 4, Seq::empty()) {
                                ChunkOutcome::Done(p, end) => Ok(
                                    Some((RequestView { metadata: Some(meta), payload: p }, end)),
                                ),
                                ChunkOutcome::Incomplete => Ok(None),
                                ChunkOutcome::Malformed(e) => Err(e),
                            }
                        } else {
                            match content_length(pairs_map(pairs)) {
                                None => Err(ParseError::ContentLength),
                                Some(cl) => if he + 4 + cl > b.len() {
                                    Ok(None)
                                } else {
                                    Ok(
                                        Some(
                                            (
                                                RequestView {
                                                    metadata: Some(meta),
                                                    payload: b.subrange(he + 4, he + 4 + cl),
                                                },
                                                he + 4 + cl,
                                            ),
                                        ),
                                    )
                                },
                            }
                        }
                    },
                },
            },
        },
    }
}

/// An exec framing result seen as a mathematical one.
pub open spec fn frame_view(r: Result<Option<(Request, usize)>, ParseError>) -> Result<
    Option<(RequestView, int)>,
    ParseError,
> {
    match r {
        Ok(Some((q, n))) => Ok(Some((q@, n as int))),
        Ok(None) => Ok(None),
        Err(e) => Err(e),
    }
}

/// A copy of `b[from..to]`.
fn copy_range(b: &[u8], from: usize, to: usize) -> (r: Vec<u8>)
    requires
        from <= to <= b.len(),
    ensures
        r@ == b@.subrange(from as int, to as int),
{
    let mut r: Vec<u8> = Vec::new();
    append_range(&mut r, b, from, to);
    assert(r@ =~= b@.subrange(from as int, to as int));
    r
}

/// Appends `b[from..to]` to `acc`.
fn append_range(acc: &mut Vec<u8>, b: &[u8], from: usize, to: usize)
    requires
        from <= to <= b.len(),
    ensures
        final(acc)@ == old(acc)@ + b@.subrange(from as int, to as int),
{
    let mut i: usize = from;
    while i < to
        invariant
            from <= i <= to <= b.len(),
            acc@ == old(acc)@ + b@.subrange(from as int, i as int),
        decreases to - i,
    {
        acc.push(b[i]);
        assert(b@.subrange(from as int, i + 1) =~= b@.subrange(from as int, i as int).push(b@[i as int]));
        i = i + 1;
    }
}

/// Parses the header lines in `b[start..end]`.
fn parse_header_lines(b: &[u8], start: usize, end: usize) -> (r: Option<HeaderMap>)
    requires
        start <= end <= b.len(),
    ensures
        match r {
            Some(h) => header_pairs(b@, start as int, end as int, Seq::empty()) == Some(h.pairs()),
            None => header_pairs(b@, start as int, end as int, Seq::empty()) is None,
        },
{
    let crlf_pat = crlf_bytes();
    let colon_pat = colon_space_bytes();
    let mut headers = HeaderMap::new();
    let mut pos: usize = start;
    loop
        invariant
            start <= pos <= end <= b.len(),
            crlf_pat@ == crlf(),
            colon_pat@ == colon_space(),
            header_pairs(b@, start as int, end as int, Seq::empty()) == header_pairs(
                b@,
                pos as int,
                end as int,
                headers.pairs(),
            ),
        decreases end - pos,
    {
        let found = find_bytes(b, &crlf_pat, pos, end);
        proof {
            lemma_find_from_bounds(b@, crlf(), pos as int, end as int);
        }
        let le = match found {
            Some(c) => c,
            None => end,
        };
        let colon = find_bytes(b, &colon_pat, pos, le);
        proof {
            lemma_find_from_bounds(b@, colon_space(), pos as int, le as int);
        }
        match colon {
            None => {
                return None;
            },
            Some(c) => {
                let name = copy_range(b, pos, c);
                let value = copy_range(b, c + 2, le);
                headers.insert(name, value);
                if end - le < 2 {
                    return Some(headers);
                }
                pos = le + 2;
            },
        }
    }
}

/// Decodes the chunked body that starts at `start`.
fn decode_chunked_body(b: &[u8], start: usize) -> (r: Result<Option<(Vec<u8>, usize)>, ParseError>)
    requires
        start <= b.len(),
    ensures
        match decode_chunks(b@, start as int, Seq::empty()) {
            ChunkOutcome::Done(p, e) => r matches Ok(Some((q, n))) && q@ == p && n == e,
            ChunkOutcome::Incomplete => r matches Ok(None),
            ChunkOutcome::Malformed(e) => r == Err::<Option<(Vec<u8>, usize)>, ParseError>(e),
        },
        r matches Ok(Some((_, n))) ==> n <= b.len(),
{
    let crlf_pat = crlf_bytes();
    let semi_pat = semicolon_bytes();
    let blank_pat = blank_line_bytes();
    let mut acc: Vec<u8> = Vec::new();
    let mut pos: usize = start;
    loop
        invariant
            start <= pos <= b.len(),
            crlf_pat@ == crlf(),
            semi_pat@ == semicolon(),
            blank_pat@ == blank_line(),
            decode_chunks(b@, start as int, Seq::empty()) == decode_chunks(b@, pos as int, acc@),
        decreases b.len() - pos,
    {
        let found = find_bytes(b, &crlf_pat, pos, b.len());
        proof {
            lemma_find_from_bounds(b@, crlf(), pos as int, b.len() as int);
        }
        let c = match found {
            None => {
                return Ok(None);
            },
            Some(c) => c,
        };
        let semi = find_bytes(b, &semi_pat, pos, c);
        proof {
            lemma_find_from_bounds(b@, semicolon(), pos as int, c as int);
        }
        let se = match semi {
            Some(k) => k,
            None => c,
        };
        let n = match parse_number_in(b, pos, se, true) {
            None => {
                return Err(ParseError::ChunkSize);
            },
            Some(n) => n,
        };
        if n == 0 {
            let tail = find_bytes(b, &blank_pat, c, b.len());
            proof {
                lemma_find_from_bounds(b@, blank_line(), c as int, b.len() as int);
            }
            return match tail {
                None => Ok(None),
                Some(t) => Ok(Some((acc, t + 4))),
            };
        }
        let room = b.len() - (c + 2);
        if n > room || room - n < 2 {
            return Ok(None);
        }
        if !bytes_match_at(b, &crlf_pat, c + 2 + n) {
            return Err(ParseError::ChunkTrailer);
        }
        append_range(&mut acc, b, c + 2, c + 2 + n);
        pos = c + 4 + n;
    }
}

/// Builds the metadata of a request from the positions of its request line.
fn metadata_of(b: &[u8], s1: usize, s2: usize, rl: usize, headers: HeaderMap) -> (r: RequestMetadata)
    requires
        s1 < s2 < rl <= b.len(),
    ensures
        r@ == (MetadataView {
            method: b@.subrange(0, s1 as int),
            uri: b@.subrange(s1 + 1, s2 as int),
            http_method: b@.subrange(s2 + 1, rl as int),
            headers: headers@,
        }),
{
    RequestMetadata {
        method: copy_range(b, 0, s1),
        uri: copy_range(b, s1 + 1, s2),
        http_method: copy_range(b, s2 + 1, rl),
        headers,
    }
}

impl Rpress {
    /// Frames the request at the front of `buffer`: `Ok(Some((request, consumed)))` when a whole
    /// request is there, `Ok(None)` when more bytes are needed, and `Err` when the bytes cannot
    /// be a request. The body is decoded as chunks when the header block holds
    /// `Transfer-Encoding: chunked`, or when `is_chunk` asks for it.
    pub fn parse_http_protocol(&self, buffer: &[u8], is_chunk: bool) -> (r: Result<
        Option<(Request, usize)>,
        ParseError,
    >)
        ensures
            frame_view(r) == frame(buffer@, is_chunk),
            r matches Ok(Some((_, n))) ==> n <= buffer.len(),
    {
        frame_request(buffer, is_chunk)
    }
}

/// Frames the request at the front of `b`.
pub fn frame_request(b: &[u8], is_chunk: bool) -> (r: Result<Option<(Request, usize)>, ParseError>)
    ensures
        frame_view(r) == frame(b@, is_chunk),
        r matches Ok(Some((_, n))) ==> n <= b.len(),
{
    let crlf_pat = crlf_bytes();
    let rl = match find_bytes(b, &crlf_pat, 0, b.len()) {
        None => {
            return Ok(None);
        },
        Some(rl) => rl,
    };
    proof {
        lemma_find_from_bounds(b@, crlf(), 0, b.len() as int);
    }
    let space_pat = space_bytes();
    let version_pat = http11_bytes();
    let s1 = match find_bytes(b, &space_pat, 0, rl) {
        None => {
            return Err(ParseError::RequestLine);
        },
        Some(s1) => s1,
    };
    proof {
        lemma_find_from_bounds(b@, space(), 0, rl as int);
    }
    let s2 = match find_bytes(b, &space_pat, s1 + 1, rl) {
        None => {
            return Err(ParseError::RequestLine);
        },
        Some(s2) => s2,
    };
    proof {
        lemma_find_from_bounds(b@, space(), s1 + 1, rl as int);
    }
    if find_bytes(b, &space_pat, s2 + 1, rl).is_some() || find_bytes(b, &version_pat, s2 + 1, rl).is_none() {
        return Err(ParseError::RequestLine);
    }
    let blank_pat = blank_line_bytes();
    let he = match find_bytes(b, &blank_pat, rl, b.len()) {
        None => {
            return Ok(None);
        },
        Some(he) => he,
    };
    proof {
        lemma_find_from_bounds(b@, blank_line(), rl as int, b.len() as int);
    }
    let headers = if he == rl {
        HeaderMap::new()
    } else {
        assert(b@[rl as int] == 13u8 && b@[rl + 1] == 10u8) by {
            assert(b@.subrange(rl as int, rl + 2)[0] == b@[rl as int]);
            assert(b@.subrange(rl as int, rl + 2)[1] == b@[rl + 1]);
        }
        if he == rl + 1 {
            assert(b@.subrange(he as int, he + 4)[0] == b@[rl + 1]);
        }
        match parse_header_lines(b, rl + 2, he) {
            None => {
                return Err(ParseError::HeaderLine);
            },
            Some(h) => h,
        }
    };
    let meta = metadata_of(b, s1, s2, rl, headers);
    let marker = chunked_marker_bytes();
    let marked = find_bytes(b, &marker, rl, he + 2).is_some();
    if is_chunk || marked {
        match decode_chunked_body(b, he + 4) {
            Ok(Some((payload, end))) => Ok(
                Some((Request { request_metadata: Some(meta), payload }, end)),
            ),
            Ok(None) => Ok(None),
            Err(e) => Err(e),
        }
    } else {
        let cl_name = content_length_bytes();
        let cl: usize = match meta.headers.get(&cl_name) {
            None => 0,
            Some(v) => match parse_number_in(v.as_slice(), 0, v.len(), false) {
                None => {
                    assert(v@.subrange(0, v@.len() as int) =~= v@);
                    return Err(ParseError::ContentLength);
                },
                Some(n) => {
                    assert(v@.subrange(0, v@.len() as int) =~= v@);
                    n
                },
            },
        };
        if cl > b.len() - (he + 4) {
            return Ok(None);
        }
        let payload = copy_range(b, he + 4, he + 4 + cl);
        Ok(Some((Request { request_metadata: Some(meta), payload }, he + 4 + cl)))
    }
}

} // verus!
