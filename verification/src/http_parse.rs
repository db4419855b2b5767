//! The wire codec: one-shot, in-memory translation between raw bytes and
//! request / response records.
//!
//! A request is a line `method SP path SP version CRLF`, then `Name: Value`
//! header lines, a blank line, and the body verbatim. A response is a fixed
//! status line, the header lines in insertion order, a blank line, and the
//! body. Both directions are pure functions on byte vectors; neither touches
//! a socket.

use vstd::prelude::*;
use crate::ErrKind;

verus! {

/// One `Name: Value` pair, keys case-sensitive as received.
#[derive(Debug)]
pub struct Header {
    pub name: Vec<u8>,
    pub value: Vec<u8>,
}

/// The mathematical shape of a header.
pub struct HeaderV {
    pub name: Seq<u8>,
    pub value: Seq<u8>,
}

impl View for Header {
    type V = HeaderV;

    open spec fn view(&self) -> HeaderV {
        HeaderV { name: self.name@, value: self.value@ }
    }
}

/// A decoded request: method, path, headers, and the raw body bytes.
#[derive(Debug)]
pub struct Request {
    pub method: Vec<u8>,
    pub path: Vec<u8>,
    pub headers: Vec<Header>,
    pub body: Vec<u8>,
}

/// The mathematical shape of a request.
pub struct RequestV {
    pub method: Seq<u8>,
    pub path: Seq<u8>,
    pub headers: Seq<HeaderV>,
    pub body: Seq<u8>,
}

/// The views of a run of headers, in order.
pub open spec fn headers_seq(hs: Seq<Header>) -> Seq<HeaderV> {
    hs.map_values(|h: Header| h@)
}

impl View for Request {
    type V = RequestV;

    open spec fn view(&self) -> RequestV {
        RequestV {
            method: self.method@,
            path: self.path@,
            headers: headers_seq(self.headers@),
            body: self.body@,
        }
    }
}

/// A response to be written back: status code, headers, body bytes.
#[derive(Debug)]
pub struct Response {
    pub status: u16,
    pub headers: Vec<Header>,
    pub body: Vec<u8>,
}

/// The mathematical shape of a response.
pub struct ResponseV {
    pub status: u16,
    pub headers: Seq<HeaderV>,
    pub body: Seq<u8>,
}

impl View for Response {
    type V = ResponseV;

    open spec fn view(&self) -> ResponseV {
        ResponseV {
            status: self.status,
            headers: headers_seq(self.headers@),
            body: self.body@,
        }
    }
}

// ---------------------------------------------------------------------------
// Byte constants of the wire grammar.
// ---------------------------------------------------------------------------

/// The canonical line terminator, `\r\n`.
pub open spec fn crlf() -> Seq<u8> {
    seq![13u8, 10u8]
}

/// The head/body separator, `\r\n\r\n`.
pub open spec fn blank_line() -> Seq<u8> {
    seq![13u8, 10u8, 13u8, 10u8]
}

/// The `": "` separator between a header name and its value.
pub open spec fn colon_space() -> Seq<u8> {
    seq![58u8, 32u8]
}

/// A single space.
pub open spec fn sp() -> Seq<u8> {
    seq![32u8]
}

fn crlf_vec() -> (r: Vec<u8>)
    ensures
        r@ == crlf(),
{
    let mut v: Vec<u8> = Vec::new();
    v.push(13);
    v.push(10);
    proof {
        assert(v@ =~= crlf());
    }
    v
}

fn blank_line_vec() -> (r: Vec<u8>)
    ensures
        r@ == blank_line(),
{
    let mut v: Vec<u8> = Vec::new();
    v.push(13);
    v.push(10);
    v.push(13);
    v.push(10);
    proof {
        assert(v@ =~= blank_line());
    }
    v
}

fn colon_space_vec() -> (r: Vec<u8>)
    ensures
        r@ == colon_space(),
{
    let mut v: Vec<u8> = Vec::new();
    v.push(58);
    v.push(32);
    proof {
        assert(v@ =~= colon_space());
    }
    v
}

fn sp_vec() -> (r: Vec<u8>)
    ensures
        r@ == sp(),
{
    let mut v: Vec<u8> = Vec::new();
    v.push(32);
    proof {
        assert(v@ =~= sp());
    }
    v
}

// ---------------------------------------------------------------------------
// Finding a pattern inside a byte sequence.
// ---------------------------------------------------------------------------

/// Whether `pat` occurs in `s` starting at position `i`.
pub open spec fn match_at(s: Seq<u8>, pat: Seq<u8>, i: int) -> bool {
    0 <= i && i + pat.len() <= s.len() && s.subrange(i, i + pat.len() as int) == pat
}

/// The first position at or after `i` where `pat` occurs in `s`.
pub open spec fn first_match_from(s: Seq<u8>, pat: Seq<u8>, i: int) -> Option<int>
    decreases s.len() - i when 0 <= i && pat.len() >= 1
{
    if i + pat.len() > s.len() {
        None
    } else if match_at(s, pat, i) {
        Some(i)
    } else {
        first_match_from(s, pat, i + 1)
    }
}

/// A found position is a genuine match, at or after the start.
pub proof fn lemma_first_match_from_some(s: Seq<u8>, pat: Seq<u8>, i: int)
    requires
        0 <= i,
        pat.len() >= 1,
        first_match_from(s, pat, i) is Some,
    ensures
        i <= first_match_from(s, pat, i)->0,
        match_at(s, pat, first_match_from(s, pat, i)->0),
    decreases s.len() - i,
{
    if i + pat.len() > s.len() {
    } else if match_at(s, pat, i) {
    } else {
        lemma_first_match_from_some(s, pat, i + 1);
    }
}

/// Find the first occurrence of `pat` in `s`, at or after `from`.
fn find_pattern(s: &Vec<u8>, pat: &Vec<u8>, from: usize) -> (r: Option<usize>)
    requires
        pat@.len() >= 1,
    ensures
        match r {
            Some(j) => first_match_from(s@, pat@, from as int) == Some(j as int),
            None => first_match_from(s@, pat@, from as int) is None,
        },
{
    let mut i: usize = from;
    loop
        invariant
            from <= i,
            pat@.len() >= 1,
            first_match_from(s@, pat@, from as int) == first_match_from(s@, pat@, i as int),
        decreases s@.len() + pat@.len() - i,
    {
        if i >= s.len() || pat.len() > s.len() - i {
            return None;
        }
        let mut k: usize = 0;
        let mut hit: bool = true;
        while k < pat.len()
            invariant
                i + pat@.len() <= s@.len(),
                s@.len() <= usize::MAX,
                k <= pat@.len(),
                hit ==> forall|m: int| 0 <= m < k ==> s@[i + m] == pat@[m],
                !hit ==> !match_at(s@, pat@, i as int),
            decreases pat@.len() - k,
        {
            if s[i + k] != pat[k] {
                proof {
                    assert(s@.subrange(i as int, i + pat@.len() as int)[k as int] != pat@[k as int]);
                }
                hit = false;
                k = pat.len();
            } else {
                k = k + 1;
            }
        }
        if hit {
            proof {
                assert(s@.subrange(i as int, i + pat@.len() as int) =~= pat@);
            }
            return Some(i);
        }
        i = i + 1;
    }
}

/// Copy the bytes of `s` from `a` (inclusive) to `b` (exclusive).
fn subvec(s: &Vec<u8>, a: usize, b: usize) -> (r: Vec<u8>)
    requires
        a <= b <= s@.len(),
    ensures
        r@ == s@.subrange(a as int, b as int),
{
    let mut r: Vec<u8> = Vec::new();
    let mut i: usize = a;
    while i < b
        invariant
            a <= i <= b <= s@.len(),
            r@ == s@.subrange(a as int, i as int),
        decreases b - i,
    {
        r.push(s[i]);
        proof {
            assert(r@ =~= s@.subrange(a as int, i + 1 as int));
        }
        i = i + 1;
    }
    r
}

/// Whether two byte vectors hold the same bytes.
pub fn bytes_eq(a: &Vec<u8>, b: &Vec<u8>) -> (r: bool)
    ensures
        r == (a@ == b@),
{
    if a.len() != b.len() {
        return false;
    }
    let mut i: usize = 0;
    while i < a.len()
        invariant
            i <= a@.len(),
            a@.len() == b@.len(),
            forall|j: int| 0 <= j < i ==> a@[j] == b@[j],
        decreases a@.len() - i,
    {
        if a[i] != b[i] {
            return false;
        }
        i = i + 1;
    }
    proof {
        assert(a@ =~= b@);
    }
    true
}

/// A fresh copy of a byte vector.
pub fn clone_bytes(v: &Vec<u8>) -> (r: Vec<u8>)
    ensures
        r@ == v@,
{
    let mut r: Vec<u8> = Vec::new();
    let mut i: usize = 0;
    while i < v.len()
        invariant
            i <= v@.len(),
            r@ == v@.subrange(0, i as int),
        decreases v@.len() - i,
    {
        r.push(v[i]);
        proof {
            assert(r@ =~= v@.subrange(0, i + 1));
        }
        i = i + 1;
    }
    proof {
        assert(v@.subrange(0, v@.len() as int) =~= v@);
    }
    r
}

// ---------------------------------------------------------------------------
// The request grammar.
// ---------------------------------------------------------------------------

/// The part of the request before the first blank line; the whole input when
/// no blank line occurs.
pub open spec fn head_of(s: Seq<u8>) -> Seq<u8> {
    match first_match_from(s, blank_line(), 0) {
        Some(i) => s.subrange(0, i),
        None => s,
    }
}

/// The raw bytes after the first blank line; empty when no blank line occurs.
pub open spec fn body_of(s: Seq<u8>) -> Seq<u8> {
    match first_match_from(s, blank_line(), 0) {
        Some(i) => s.subrange(i + 4, s.len() as int),
        None => Seq::empty(),
    }
}

/// The pieces of `s` from position `i` on, cut at each line terminator.
pub open spec fn split_crlf_from(s: Seq<u8>, i: int) -> Seq<Seq<u8>>
    decreases s.len() - i when 0 <= i <= s.len()
{
    match first_match_from(s, crlf(), i) {
        None => seq![s.subrange(i, s.len() as int)],
        Some(j) => {
            proof {
                lemma_first_match_from_some(s, crlf(), i);
            }
            seq![s.subrange(i, j)] + split_crlf_from(s, j + 2)
        },
    }
}

/// The pieces of `s` from position `i` on, cut at each space.
pub open spec fn split_sp_from(s: Seq<u8>, i: int) -> Seq<Seq<u8>>
    decreases s.len() - i when 0 <= i <= s.len()
{
    match first_match_from(s, sp(), i) {
        None => seq![s.subrange(i, s.len() as int)],
        Some(j) => {
            proof {
                lemma_first_match_from_some(s, sp(), i);
            }
            seq![s.subrange(i, j)] + split_sp_from(s, j + 1)
        },
    }
}

/// A header line split at the first `": "`; `None` when the line has none.
pub open spec fn parse_header_line(line: Seq<u8>) -> Option<HeaderV> {
    match first_match_from(line, colon_space(), 0) {
        None => None,
        Some(i) => Some(
            HeaderV { name: line.subrange(0, i), value: line.subrange(i + 2, line.len() as int) },
        ),
    }
}

/// The headers carried by a run of lines, in order; empty lines carry none;
/// `None` as soon as one line is not a header.
pub open spec fn parse_header_lines(lines: Seq<Seq<u8>>) -> Option<Seq<HeaderV>>
    decreases lines.len()
{
    if lines.len() == 0 {
        Some(Seq::empty())
    } else if lines[0].len() == 0 {
        parse_header_lines(lines.drop_first())
    } else {
        match (parse_header_line(lines[0]), parse_header_lines(lines.drop_first())) {
            (Some(h), Some(rest)) => Some(seq![h] + rest),
            _ => None,
        }
    }
}

/// What a byte buffer decodes to: the first line must be exactly three
/// space-separated tokens (method, path, version), then header lines up to
/// the first blank line, then the body verbatim.
pub open spec fn parse_request_spec(s: Seq<u8>) -> Result<RequestV, ErrKind> {
    let lines = split_crlf_from(head_of(s), 0);
    let toks = split_sp_from(lines[0], 0);
    if toks.len() != 3 {
        Err(ErrKind::MalformedRequest)
    } else {
        match parse_header_lines(lines.drop_first()) {
            Some(hs) => Ok(
                RequestV { method: toks[0], path: toks[1], headers: hs, body: body_of(s) },
            ),
            None => Err(ErrKind::MalformedRequest),
        }
    }
}

/// The views of a run of byte vectors, in order.
pub open spec fn vecs_view(vs: Seq<Vec<u8>>) -> Seq<Seq<u8>> {
    vs.map_values(|v: Vec<u8>| v@)
}

/// Decode one in-memory request buffer, or report how it is malformed.
#[verifier::rlimit(50)]
#[verifier::loop_isolation(false)]
pub fn decode_request(bytes: &Vec<u8>) -> (r: Result<Request, ErrKind>)
    ensures
        match r {
            Ok(req) => parse_request_spec(bytes@) == Ok::<RequestV, ErrKind>(req@),
            Err(e) => parse_request_spec(bytes@) == Err::<RequestV, ErrKind>(e),
        },
{
    let blank = blank_line_vec();
    let crlfv = crlf_vec();
    let csv = colon_space_vec();
    let spv = sp_vec();
    let blen = bytes.len();

    // Split off the body at the first blank line.
    let head: Vec<u8>;
    let body: Vec<u8>;
    match find_pattern(bytes, &blank, 0) {
        Some(i) => {
            proof {
                lemma_first_match_from_some(bytes@, blank_line(), 0);
            }
            head = subvec(bytes, 0, i);
            body = subvec(bytes, i + 4, blen);
        },
        None => {
            head = subvec(bytes, 0, blen);
            body = Vec::new();
            proof {
                assert(head@ =~= bytes@);
                assert(body@ =~= body_of(bytes@));
            }
        },
    }
    proof {
        assert(head@ == head_of(bytes@));
        assert(body@ == body_of(bytes@));
    }

    // The request line is everything before the first line terminator.
    let rl_end_opt = find_pattern(&head, &crlfv, 0);
    let rl_end: usize;
    let hdr_start: usize;
    match rl_end_opt {
        Some(j) => {
            proof {
                lemma_first_match_from_some(head@, crlf(), 0);
            }
            rl_end = j;
            hdr_start = j + 2;
        },
        None => {
            rl_end = head.len();
            hdr_start = head.len();
        },
    }
    let rl = subvec(&head, 0, rl_end);
    proof {
        let lines = split_crlf_from(head@, 0);
        assert(lines[0] == rl@);
        match first_match_from(head@, crlf(), 0) {
            Some(j) => {
                assert(lines.drop_first() =~= split_crlf_from(head@, j + 2));
            },
            None => {
                assert(lines.drop_first() =~= Seq::<Seq<u8>>::empty());
            },
        }
    }

    // Cut the request line at each space.
    let mut toks: Vec<Vec<u8>> = Vec::new();
    let mut i: usize = 0;
    loop
        invariant
            i <= rl@.len(),
            split_sp_from(rl@, 0) == vecs_view(toks@) + split_sp_from(rl@, i as int),
        decreases rl@.len() - i,
    {
        match find_pattern(&rl, &spv, i) {
            Some(j) => {
                proof {
                    lemma_first_match_from_some(rl@, sp(), i as int);
                }
                let t = subvec(&rl, i, j);
                proof {
                    assert(vecs_view(toks@.push(t)) =~= vecs_view(toks@).push(t@));
                    assert((vecs_view(toks@) + seq![t@]) + split_sp_from(rl@, j + 1) =~= vecs_view(
                        toks@,
                    ) + (seq![t@] + split_sp_from(rl@, j + 1)));
                }
                toks.push(t);
                i = j + 1;
            },
            None => {
                let t = subvec(&rl, i, rl.len());
                proof {
                    assert(vecs_view(toks@.push(t)) =~= vecs_view(toks@).push(t@));
                    assert(vecs_view(toks@) + seq![t@] =~= vecs_view(toks@.push(t)));
                }
                toks.push(t);
                break;
            },
        }
    }
    proof {
        assert(split_sp_from(rl@, 0) =~= vecs_view(toks@));
    }
    if toks.len() != 3 {
        return Err(ErrKind::MalformedRequest);
    }
    let method = toks.remove(0);
    let path = toks.remove(0);

    // Header lines run from after the request line to the blank line.
    let ghost total = parse_header_lines(split_crlf_from(head_of(bytes@), 0).drop_first());
    let mut headers: Vec<Header> = Vec::new();
    let mut h: usize = hdr_start;
    let mut done: bool = false;
    proof {
        assert(headers_seq(headers@) =~= Seq::<HeaderV>::empty());
        if rl_end_opt is None {
            let le = head@.len() as int;
            assert(head@.subrange(le, le) =~= Seq::<u8>::empty());
            assert(split_crlf_from(head@, le) =~= seq![Seq::<u8>::empty()]);
            assert(seq![Seq::<u8>::empty()].drop_first() =~= Seq::<Seq<u8>>::empty());
            assert(parse_header_lines(Seq::<Seq<u8>>::empty()) == Some(Seq::<HeaderV>::empty()));
            assert(parse_header_lines(split_crlf_from(head@, le)) == Some(Seq::<HeaderV>::empty()));
        }
        match parse_header_lines(split_crlf_from(head@, hdr_start as int)) {
            Some(rest) => {
                assert(headers_seq(headers@) + rest =~= rest);
            },
            None => {},
        }
    }
    while !done
        invariant
            h <= head@.len(),
            done ==> total == Some(headers_seq(headers@)),
            !done ==> match parse_header_lines(split_crlf_from(head@, h as int)) {
                Some(rest) => total == Some(headers_seq(headers@) + rest),
                None => total is None,
            },
        decreases head@.len() - h + (if done { 0int } else { 1int }),
    {
        let line_end_opt = find_pattern(&head, &crlfv, h);
        let line_end: usize;
        match line_end_opt {
            Some(j) => {
                proof {
                    lemma_first_match_from_some(head@, crlf(), h as int);
                }
                line_end = j;
            },
            None => {
                line_end = head.len();
            },
        }
        let line = subvec(&head, h, line_end);
        proof {
            let cur = split_crlf_from(head@, h as int);
            assert(cur[0] == line@);
            match first_match_from(head@, crlf(), h as int) {
                Some(j) => {
                    assert(cur.drop_first() =~= split_crlf_from(head@, j + 2));
                },
                None => {
                    assert(cur.drop_first() =~= Seq::<Seq<u8>>::empty());
                    assert(parse_header_lines(Seq::<Seq<u8>>::empty()) == Some(
                        Seq::<HeaderV>::empty(),
                    ));
                },
            }
        }
        if line.len() > 0 {
            match find_pattern(&line, &csv, 0) {
                Some(c) => {
                    proof {
                        lemma_first_match_from_some(line@, colon_space(), 0);
                    }
                    let name = subvec(&line, 0, c);
                    let value = subvec(&line, c + 2, line.len());
                    let hd = Header { name, value };
                    proof {
                        assert(parse_header_line(line@) == Some(hd@));
                        assert(headers_seq(headers@.push(hd)) =~= headers_seq(headers@).push(
                            hd@,
                        ));
                        let cur = split_crlf_from(head@, h as int);
                        if parse_header_lines(cur.drop_first()) is Some {
                            let rest = parse_header_lines(cur.drop_first())->0;
                            assert((headers_seq(headers@) + (seq![hd@] + rest)) =~= (headers_seq(
                                headers@,
                            ).push(hd@) + rest));
                        }
                    }
                    headers.push(hd);
                },
                None => {
                    return Err(ErrKind::MalformedRequest);
                },
            }
        }
        match line_end_opt {
            Some(_) => {
                h = line_end + 2;
            },
            None => {
                proof {
                    if parse_header_lines(split_crlf_from(head@, h as int)) is Some {
                        assert(headers_seq(headers@) + Seq::<HeaderV>::empty() =~= headers_seq(
                            headers@,
                        ));
                    }
                }
                done = true;
            },
        }
    }

    Ok(Request { method, path, headers, body })
}

// ---------------------------------------------------------------------------
// The response grammar.
// ---------------------------------------------------------------------------

/// The fixed protocol token of every status line, `HTTP/1.1 `.
pub open spec fn http_protocol() -> Seq<u8> {
    seq![72u8, 84u8, 84u8, 80u8, 47u8, 49u8, 46u8, 49u8, 32u8]
}

/// The decimal digits of `n`, most significant first.
pub open spec fn dec_digits(n: nat) -> Seq<u8>
    decreases n,
{
    if n < 10 {
        seq![(48 + n) as u8]
    } else {
        dec_digits(n / 10).push((48 + n % 10) as u8)
    }
}

/// The fixed reason phrase of a status code. The listener only ever emits
/// 200 and 404; every other code carries a neutral phrase.
pub open spec fn reason_phrase(status: u16) -> Seq<u8> {
    if status == 200 {
        seq![79u8, 75u8]
    } else if status == 404 {
        seq![78u8, 111u8, 116u8, 32u8, 70u8, 111u8, 117u8, 110u8, 100u8]
    } else {
        seq![85u8, 110u8, 107u8, 110u8, 111u8, 119u8, 110u8]
    }
}

/// The status line of a response.
pub open spec fn status_line(status: u16) -> Seq<u8> {
    http_protocol() + dec_digits(status as nat) + sp() + reason_phrase(status) + crlf()
}

/// One encoded header line.
pub open spec fn header_line(h: HeaderV) -> Seq<u8> {
    h.name + colon_space() + h.value + crlf()
}

/// The encoded header lines, in insertion order.
pub open spec fn header_lines_bytes(hs: Seq<HeaderV>) -> Seq<u8>
    decreases hs.len(),
{
    if hs.len() == 0 {
        Seq::empty()
    } else {
        header_line(hs[0]) + header_lines_bytes(hs.drop_first())
    }
}

/// Appending one header extends the encoding at its end.
pub proof fn lemma_header_lines_push(hs: Seq<HeaderV>, h: HeaderV)
    ensures
        header_lines_bytes(hs.push(h)) == header_lines_bytes(hs) + header_line(h),
    decreases hs.len(),
{
    if hs.len() == 0 {
        assert(hs.push(h).drop_first() =~= Seq::<HeaderV>::empty());
        assert(header_line(h) + header_lines_bytes(Seq::<HeaderV>::empty()) =~= header_line(h));
        assert(header_lines_bytes(Seq::<HeaderV>::empty()) + header_line(h) =~= header_line(h));
    } else {
        assert(hs.push(h).drop_first() =~= hs.drop_first().push(h));
        lemma_header_lines_push(hs.drop_first(), h);
        assert(header_line(hs[0]) + (header_lines_bytes(hs.drop_first()) + header_line(h)) =~= (
        header_line(hs[0]) + header_lines_bytes(hs.drop_first())) + header_line(h));
    }
}

/// What a response turns into on the wire: status line, header lines, a
/// blank line, then the body verbatim.
pub open spec fn encode_response_spec(r: ResponseV) -> Seq<u8> {
    status_line(r.status) + header_lines_bytes(r.headers) + crlf() + r.body
}

/// Append a copy of `src` to `dst`.
#[verifier::loop_isolation(false)]
fn extend_bytes(dst: &mut Vec<u8>, src: &Vec<u8>)
    ensures
        final(dst)@ == old(dst)@ + src@,
{
    let mut i: usize = 0;
    proof {
        assert(dst@ =~= old(dst)@ + src@.subrange(0, 0));
    }
    while i < src.len()
        invariant
            i <= src@.len(),
            dst@ == old(dst)@ + src@.subrange(0, i as int),
        decreases src@.len() - i,
    {
        dst.push(src[i]);
        proof {
            assert(dst@ =~= old(dst)@ + src@.subrange(0, i + 1));
        }
        i = i + 1;
    }
    proof {
        assert(src@.subrange(0, src@.len() as int) =~= src@);
    }
}

/// The decimal digits of `n`, as bytes.
pub fn usize_digits(n: usize) -> (r: Vec<u8>)
    ensures
        r@ == dec_digits(n as nat),
    decreases n,
{
    if n < 10 {
        let mut v: Vec<u8> = Vec::new();
        v.push(48 + n as u8);
        proof {
            assert(v@ =~= dec_digits(n as nat));
        }
        v
    } else {
        let mut v = usize_digits(n / 10);
        v.push(48 + (n % 10) as u8);
        v
    }
}

fn http_protocol_vec() -> (r: Vec<u8>)
    ensures
        r@ == http_protocol(),
{
    let mut v: Vec<u8> = Vec::new();
    v.push(72);
    v.push(84);
    v.push(84);
    v.push(80);
    v.push(47);
    v.push(49);
    v.push(46);
    v.push(49);
    v.push(32);
    proof {
        assert(v@ =~= http_protocol());
    }
    v
}

fn reason_phrase_vec(status: u16) -> (r: Vec<u8>)
    ensures
        r@ == reason_phrase(status),
{
    let mut v: Vec<u8> = Vec::new();
    if status == 200 {
        v.push(79);
        v.push(75);
    } else if status == 404 {
        v.push(78);
        v.push(111);
        v.push(116);
        v.push(32);
        v.push(70);
        v.push(111);
        v.push(117);
        v.push(110);
        v.push(100);
    } else {
        v.push(85);
        v.push(110);
        v.push(107);
        v.push(110);
        v.push(111);
        v.push(119);
        v.push(110);
    }
    proof {
        assert(v@ =~= reason_phrase(status));
    }
    v
}

/// Encode one response into the bytes that go on the wire.
#[verifier::loop_isolation(false)]
pub fn encode_response(r: &Response) -> (out: Vec<u8>)
    ensures
        out@ == encode_response_spec(r@),
{
    let mut out = http_protocol_vec();
    let digits = usize_digits(r.status as usize);
    extend_bytes(&mut out, &digits);
    let spv = sp_vec();
    extend_bytes(&mut out, &spv);
    let reason = reason_phrase_vec(r.status);
    extend_bytes(&mut out, &reason);
    let crlfv = crlf_vec();
    extend_bytes(&mut out, &crlfv);
    proof {
        assert(out@ =~= status_line(r.status));
    }

    let csv = colon_space_vec();
    let mut i: usize = 0;
    while i < r.headers.len()
        invariant
            i <= r.headers@.len(),
            out@ == status_line(r.status) + header_lines_bytes(
                headers_seq(r.headers@).take(i as int),
            ),
        decreases r.headers@.len() - i,
    {
        let ghost before = out@;
        extend_bytes(&mut out, &r.headers[i].name);
        extend_bytes(&mut out, &csv);
        extend_bytes(&mut out, &r.headers[i].value);
        extend_bytes(&mut out, &crlfv);
        proof {
            let hs = headers_seq(r.headers@);
            assert(out@ =~= before + header_line(hs[i as int]));
            assert(hs.take(i + 1) =~= hs.take(i as int).push(hs[i as int]));
            lemma_header_lines_push(hs.take(i as int), hs[i as int]);
            assert(out@ =~= status_line(r.status) + header_lines_bytes(hs.take(i + 1)));
        }
        i = i + 1;
    }
    proof {
        assert(headers_seq(r.headers@).take(r.headers@.len() as int) =~= headers_seq(r.headers@));
    }
    extend_bytes(&mut out, &crlfv);
    extend_bytes(&mut out, &r.body);
    proof {
        assert(out@ =~= encode_response_spec(r@));
    }
    out
}

// ---------------------------------------------------------------------------
// The codec traits.
// ---------------------------------------------------------------------------

/// Turning a record into its wire bytes.
pub trait ParseBytes {
    fn parse_to_bytes(self) -> Vec<u8>;
}

/// Turning a raw buffer into a structured record.
pub trait ParseString<T> {
    fn parse_to_struct(&self) -> T;
}

impl ParseBytes for Response {
    fn parse_to_bytes(self) -> (r: Vec<u8>)
        ensures
            r@ == encode_response_spec(self@),
    {
        encode_response(&self)
    }
}

impl ParseString<Result<Request, ErrKind>> for String {
    /// The same decoding, applied to the string's UTF-8 bytes.
    fn parse_to_struct(&self) -> (r: Result<Request, ErrKind>)
        ensures
            match r {
                Ok(req) => parse_request_spec(vstd::utf8::encode_utf8(self@)) == Ok::<
                    RequestV,
                    ErrKind,
                >(req@),
                Err(e) => parse_request_spec(vstd::utf8::encode_utf8(self@)) == Err::<
                    RequestV,
                    ErrKind,
                >(e),
            },
    {
        let bytes = vstd::slice::slice_to_vec(self.as_str().as_bytes());
        decode_request(&bytes)
    }
}

impl ParseString<Result<Request, ErrKind>> for Vec<u8> {
    fn parse_to_struct(&self) -> (r: Result<Request, ErrKind>)
        ensures
            match r {
                Ok(req) => parse_request_spec(self@) == Ok::<RequestV, ErrKind>(req@),
                Err(e) => parse_request_spec(self@) == Err::<RequestV, ErrKind>(e),
            },
    {
        decode_request(self)
    }
}

} // verus!
