//! The frame codec.
//!
//! A frame is a 4-byte big-endian unsigned length prefix `N` followed by
//! exactly `N` bytes of payload. The payload is a textual, self-describing
//! encoding of one [`Message`]: a tagged structure with the field names
//! present, fixed by the spec functions below. `ser_message` gives the
//! exact byte sequence of a message; `spec_decode` gives the exact result
//! of reading any byte sequence back. The executable encoder and decoder
//! are proved equal to these two functions, and `lemma_decode_encode`
//! states the round trip: decoding an encoded message yields the message.

use vstd::prelude::*;

use crate::messages::{Error, Failure, Location, Message, MessageV, Payload, PayloadV, Request,
    Response, ResponseV};

verus! {

// ---------------------------------------------------------------------
// Big-endian length prefix
// ---------------------------------------------------------------------

/// The four big-endian bytes of `n`.
pub open spec fn be32(n: u32) -> Seq<u8> {
    seq![
        (n / 0x1000000 % 0x100) as u8,
        (n / 0x10000 % 0x100) as u8,
        (n / 0x100 % 0x100) as u8,
        (n % 0x100) as u8,
    ]
}

/// The unsigned value of four big-endian bytes.
pub open spec fn be32_val(b: Seq<u8>) -> int
    recommends
        b.len() == 4,
{
    b[0] * 0x1000000 + b[1] * 0x10000 + b[2] * 0x100 + b[3]
}

/// Reading the four big-endian bytes of `n` back gives `n`.
pub proof fn lemma_be32_val(n: u32)
    ensures
        be32_val(be32(n)) == n,
{
    assert((n / 0x1000000 % 0x100) * 0x1000000 + (n / 0x10000 % 0x100) * 0x10000 + (n / 0x100
        % 0x100) * 0x100 + (n % 0x100) == n) by (bit_vector);
}

/// The four big-endian bytes of a length, as a buffer.
pub fn u32_to_be4(n: u32) -> (v: Vec<u8>)
    ensures
        v@ == be32(n),
{
    let mut v: Vec<u8> = Vec::new();
    v.push((n / 0x1000000 % 0x100) as u8);
    v.push((n / 0x10000 % 0x100) as u8);
    v.push((n / 0x100 % 0x100) as u8);
    v.push((n % 0x100) as u8);
    proof {
        assert(v@ =~= be32(n));
    }
    v
}

/// The unsigned value of a 4-byte big-endian length prefix.
pub fn u32_from_be4(b: &[u8]) -> (r: u32)
    requires
        b@.len() == 4,
    ensures
        r as int == be32_val(b@),
{
    let r: u32 = (b[0] as u32) * 0x1000000 + (b[1] as u32) * 0x10000 + (b[2] as u32) * 0x100 + (
    b[3] as u32);
    r
}

// ---------------------------------------------------------------------
// Byte-matching helpers
// ---------------------------------------------------------------------

/// `b` holds the bytes `tok` starting at `pos`.
pub open spec fn matches_at(b: Seq<u8>, pos: int, tok: Seq<u8>) -> bool {
    &&& 0 <= pos
    &&& pos + tok.len() <= b.len()
    &&& b.subrange(pos, pos + tok.len() as int) == tok
}

/// A byte of `tok` is a byte of `b`, wherever `tok` stands in `b`.
pub proof fn lemma_matches_at_index(b: Seq<u8>, pos: int, tok: Seq<u8>, i: int)
    requires
        matches_at(b, pos, tok),
        0 <= i < tok.len(),
    ensures
        b[pos + i] == tok[i],
{
    assert(b.subrange(pos, pos + tok.len() as int)[i] == tok[i]);
}

/// Two byte sequences that differ at index `i` cannot both stand at
/// `pos` in `b`.
proof fn lemma_tok_conflict(b: Seq<u8>, pos: int, t1: Seq<u8>, t2: Seq<u8>, i: int)
    requires
        matches_at(b, pos, t1),
        0 <= i < t1.len(),
        i < t2.len(),
        t1[i] != t2[i],
    ensures
        !matches_at(b, pos, t2),
{
    if matches_at(b, pos, t2) {
        lemma_matches_at_index(b, pos, t1, i);
        lemma_matches_at_index(b, pos, t2, i);
    }
}

/// A match of a concatenation splits into matches of its parts.
pub proof fn lemma_matches_at_concat(b: Seq<u8>, pos: int, x: Seq<u8>, y: Seq<u8>)
    requires
        matches_at(b, pos, x + y),
    ensures
        matches_at(b, pos, x),
        matches_at(b, pos + x.len(), y),
{
    assert(b.subrange(pos, pos + x.len() as int) =~= x);
    assert forall|i: int| 0 <= i < y.len() implies b[pos + x.len() + i] == y[i] by {
        assert((x + y)[x.len() + i] == y[i]);
        lemma_matches_at_index(b, pos, x + y, x.len() + i);
    }
    assert(b.subrange(pos + x.len(), pos + x.len() + y.len() as int) =~= y);
}

/// Matches of two adjacent parts join into a match of their
/// concatenation.
pub proof fn lemma_matches_at_join(b: Seq<u8>, pos: int, x: Seq<u8>, y: Seq<u8>)
    requires
        matches_at(b, pos, x),
        matches_at(b, pos + x.len(), y),
    ensures
        matches_at(b, pos, x + y),
{
    assert forall|i: int| 0 <= i < x.len() + y.len() implies b[pos + i] == (x + y)[i] by {
        if i < x.len() {
            lemma_matches_at_index(b, pos, x, i);
        } else {
            lemma_matches_at_index(b, pos + x.len(), y, i - x.len());
        }
    }
    assert(b.subrange(pos, pos + (x + y).len() as int) =~= x + y);
}

/// Whether the bytes of `lit` stand in `bytes` at `pos`.
fn match_lit(bytes: &[u8], pos: usize, lit: &[u8]) -> (r: bool)
    requires
        pos <= bytes@.len(),
    ensures
        r <==> matches_at(bytes@, pos as int, lit@),
        r ==> pos + lit@.len() <= usize::MAX,
{
    let n: usize = bytes.len();
    if n - pos < lit.len() {
        return false;
    }
    let mut i: usize = 0;
    while i < lit.len()
        invariant
            0 <= i <= lit@.len(),
            pos + lit@.len() <= n,
            n == bytes@.len(),
            forall|j: int| 0 <= j < i ==> bytes@[pos + j] == lit@[j],
        decreases lit@.len() - i,
    {
        if bytes[pos + i] != lit[i] {
            proof {
                if matches_at(bytes@, pos as int, lit@) {
                    lemma_matches_at_index(bytes@, pos as int, lit@, i as int);
                }
            }
            return false;
        }
        i += 1;
    }
    proof {
        assert(bytes@.subrange(pos as int, pos + lit@.len() as int) =~= lit@);
    }
    true
}

/// Append the bytes of `lit` to `out`.
fn push_lit(out: &mut Vec<u8>, lit: &[u8])
    ensures
        final(out)@ == old(out)@ + lit@,
{
    let mut i: usize = 0;
    while i < lit.len()
        invariant
            0 <= i <= lit@.len(),
            out@ == old(out)@ + lit@.subrange(0, i as int),
        decreases lit@.len() - i,
    {
        out.push(lit[i]);
        proof {
            assert(old(out)@ + lit@.subrange(0, i as int) + seq![lit@[i as int]] =~= old(out)@
                + lit@.subrange(0, i + 1));
        }
        i += 1;
    }
    proof {
        assert(lit@.subrange(0, lit@.len() as int) =~= lit@);
    }
}

// ---------------------------------------------------------------------
// Tokens of the textual encoding
// ---------------------------------------------------------------------

/// `{"header":null,"data":` — the opening of every message.
pub open spec fn tok_msg_open() -> Seq<u8> {
    seq![
        123u8, 34, 104, 101, 97, 100, 101, 114, 34, 58, 110, 117, 108, 108, 44, 34, 100, 97, 116,
        97, 34, 58,
    ]
}

/// The encoding of a location: its name, quoted. (`"HOME"`, ...)
pub open spec fn ser_location(l: Location) -> Seq<u8> {
    match l {
        Location::HOME => seq![34u8, 72, 79, 77, 69, 34],
        Location::CITY => seq![34u8, 67, 73, 84, 89, 34],
        Location::WOODS => seq![34u8, 87, 79, 79, 68, 83, 34],
        Location::BEACH => seq![34u8, 66, 69, 65, 67, 72, 34],
        Location::FIELD => seq![34u8, 70, 73, 69, 76, 68, 34],
        Location::CAFE => seq![34u8, 67, 65, 70, 69, 34],
        Location::SHOP => seq![34u8, 83, 72, 79, 80, 34],
        Location::CHURCH => seq![34u8, 67, 72, 85, 82, 67, 72, 34],
    }
}

/// The encoding of a failure reason: its name, quoted.
pub open spec fn ser_failure(f: Failure) -> Seq<u8> {
    match f {
        // "InvalidRequest"
        Failure::InvalidRequest => seq![
            34u8, 73, 110, 118, 97, 108, 105, 100, 82, 101, 113, 117, 101, 115, 116, 34,
        ],
        // "InvalidResponse"
        Failure::InvalidResponse => seq![
            34u8, 73, 110, 118, 97, 108, 105, 100, 82, 101, 115, 112, 111, 110, 115, 101, 34,
        ],
        // "LocationNotOnItinerary"
        Failure::LocationNotOnItinerary => seq![
            34u8, 76, 111, 99, 97, 116, 105, 111, 110, 78, 111, 116, 79, 110, 73, 116, 105, 110,
            101, 114, 97, 114, 121, 34,
        ],
    }
}

/// The decimal digits of `n`, most significant first; empty for zero.
pub open spec fn dec_digits(n: int) -> Seq<u8>
    decreases n,
{
    if n <= 0 {
        seq![]
    } else {
        dec_digits(n / 10).push((48 + n % 10) as u8)
    }
}

/// The encoding of an unsigned number: its decimal digits, `0` for zero.
pub open spec fn ser_u32(n: u32) -> Seq<u8> {
    if n == 0 {
        seq![48u8]
    } else {
        dec_digits(n as int)
    }
}

/// The elements of a location list after the first: each preceded by a
/// comma.
pub open spec fn ser_rest(s: Seq<Location>) -> Seq<u8>
    decreases s.len(),
{
    if s.len() == 0 {
        seq![]
    } else {
        seq![44u8] + ser_location(s[0]) + ser_rest(s.drop_first())
    }
}

/// The elements of a location list, comma-separated.
pub open spec fn ser_loc_seq(s: Seq<Location>) -> Seq<u8> {
    if s.len() == 0 {
        seq![]
    } else {
        ser_location(s[0]) + ser_rest(s.drop_first())
    }
}

/// `"List"` as a request tag.
pub open spec fn tok_req_list() -> Seq<u8> {
    seq![34u8, 76, 105, 115, 116, 34]
}

/// `"Current"`.
pub open spec fn tok_current() -> Seq<u8> {
    seq![34u8, 67, 117, 114, 114, 101, 110, 116, 34]
}

/// `"Next"`.
pub open spec fn tok_next() -> Seq<u8> {
    seq![34u8, 78, 101, 120, 116, 34]
}

/// `{"Put":`.
pub open spec fn tok_put_open() -> Seq<u8> {
    seq![123u8, 34, 80, 117, 116, 34, 58]
}

/// `{"Del":`.
pub open spec fn tok_del_open() -> Seq<u8> {
    seq![123u8, 34, 68, 101, 108, 34, 58]
}

/// `{"Mov":[`.
pub open spec fn tok_mov_open() -> Seq<u8> {
    seq![123u8, 34, 77, 111, 118, 34, 58, 91]
}

/// `"Success"`.
pub open spec fn tok_success() -> Seq<u8> {
    seq![34u8, 83, 117, 99, 99, 101, 115, 115, 34]
}

/// `"Done"`.
pub open spec fn tok_done() -> Seq<u8> {
    seq![34u8, 68, 111, 110, 101, 34]
}

/// `{"Failure":`.
pub open spec fn tok_failure_open() -> Seq<u8> {
    seq![123u8, 34, 70, 97, 105, 108, 117, 114, 101, 34, 58]
}

/// `{"List":[` as a response tag.
pub open spec fn tok_resp_list_open() -> Seq<u8> {
    seq![123u8, 34, 76, 105, 115, 116, 34, 58, 91]
}

/// `{"Where":`.
pub open spec fn tok_where_open() -> Seq<u8> {
    seq![123u8, 34, 87, 104, 101, 114, 101, 34, 58]
}

/// `{"Request":`.
pub open spec fn tok_request_open() -> Seq<u8> {
    seq![123u8, 34, 82, 101, 113, 117, 101, 115, 116, 34, 58]
}

/// `{"Response":`.
pub open spec fn tok_response_open() -> Seq<u8> {
    seq![123u8, 34, 82, 101, 115, 112, 111, 110, 115, 101, 34, 58]
}

/// The encoding of a request: its tag, quoted, with the arguments of
/// `Put`, `Del` and `Mov` in braces behind it.
pub open spec fn ser_request(r: Request) -> Seq<u8> {
    match r {
        Request::List => tok_req_list(),
        Request::Put(l) => tok_put_open() + ser_location(l) + seq![125u8],
        Request::Del(l) => tok_del_open() + ser_location(l) + seq![125u8],
        Request::Mov(l, n) => tok_mov_open() + ser_location(l) + seq![44u8] + ser_u32(n)
            + seq![93u8, 125],
        Request::Current => tok_current(),
        Request::Next => tok_next(),
    }
}

/// The encoding of a response: its tag, quoted, with the argument of
/// `Failure`, `List` and `Where` in braces behind it.
pub open spec fn ser_response(r: ResponseV) -> Seq<u8> {
    match r {
        ResponseV::Success => tok_success(),
        ResponseV::Failure(f) => tok_failure_open() + ser_failure(f) + seq![125u8],
        ResponseV::List(s) => tok_resp_list_open() + ser_loc_seq(s) + seq![93u8, 125],
        ResponseV::Where(l) => tok_where_open() + ser_location(l) + seq![125u8],
        ResponseV::Done => tok_done(),
    }
}

/// The encoding of a payload: the request or response under its shape's
/// tag.
pub open spec fn ser_payload(p: PayloadV) -> Seq<u8> {
    match p {
        PayloadV::Request(r) => tok_request_open() + ser_request(r) + seq![125u8],
        PayloadV::Response(r) => tok_response_open() + ser_response(r) + seq![125u8],
    }
}

/// The encoding of a whole message: the empty header slot, then the
/// payload. This is the exact byte sequence a frame's body carries.
pub open spec fn ser_message(m: MessageV) -> Seq<u8> {
    tok_msg_open() + ser_payload(m.data) + seq![125u8]
}

fn msg_open_v() -> (v: Vec<u8>)
    ensures
        v@ == tok_msg_open(),
{
    let v: Vec<u8> = vec![
        123u8, 34, 104, 101, 97, 100, 101, 114, 34, 58, 110, 117, 108, 108, 44, 34, 100, 97, 116,
        97, 34, 58,
    ];
    proof {
        assert(v@ =~= tok_msg_open());
    }
    v
}

/// The quoted name of a location, as a buffer.
fn loc_token(l: Location) -> (v: Vec<u8>)
    ensures
        v@ == ser_location(l),
{
    let v: Vec<u8> = match l {
        Location::HOME => vec![34u8, 72, 79, 77, 69, 34],
        Location::CITY => vec![34u8, 67, 73, 84, 89, 34],
        Location::WOODS => vec![34u8, 87, 79, 79, 68, 83, 34],
        Location::BEACH => vec![34u8, 66, 69, 65, 67, 72, 34],
        Location::FIELD => vec![34u8, 70, 73, 69, 76, 68, 34],
        Location::CAFE => vec![34u8, 67, 65, 70, 69, 34],
        Location::SHOP => vec![34u8, 83, 72, 79, 80, 34],
        Location::CHURCH => vec![34u8, 67, 72, 85, 82, 67, 72, 34],
    };
    proof {
        assert(v@ =~= ser_location(l));
    }
    v
}

/// The quoted name of a failure reason, as a buffer.
fn failure_token(f: Failure) -> (v: Vec<u8>)
    ensures
        v@ == ser_failure(f),
{
    let v: Vec<u8> = match f {
        Failure::InvalidRequest => vec![
            34u8, 73, 110, 118, 97, 108, 105, 100, 82, 101, 113, 117, 101, 115, 116, 34,
        ],
        Failure::InvalidResponse => vec![
            34u8, 73, 110, 118, 97, 108, 105, 100, 82, 101, 115, 112, 111, 110, 115, 101, 34,
        ],
        Failure::LocationNotOnItinerary => vec![
            34u8, 76, 111, 99, 97, 116, 105, 111, 110, 78, 111, 116, 79, 110, 73, 116, 105, 110,
            101, 114, 97, 114, 121, 34,
        ],
    };
    proof {
        assert(v@ =~= ser_failure(f));
    }
    v
}

// ---------------------------------------------------------------------
// Encoding
// ---------------------------------------------------------------------

/// Append the decimal digits of `n` (nothing for zero).
fn push_dec(out: &mut Vec<u8>, n: u32)
    ensures
        final(out)@ == old(out)@ + dec_digits(n as int),
    decreases n,
{
    if n == 0 {
        proof {
            assert(final(out)@ =~= old(out)@ + dec_digits(0));
        }
        return ;
    }
    push_dec(out, n / 10);
    out.push(48 + (n % 10) as u8);
    proof {
        assert(final(out)@ =~= old(out)@ + dec_digits(n as int));
    }
}

/// Append the encoding of an unsigned number.
fn push_u32(out: &mut Vec<u8>, n: u32)
    ensures
        final(out)@ == old(out)@ + ser_u32(n),
{
    if n == 0 {
        out.push(48);
        proof {
            assert(final(out)@ =~= old(out)@ + ser_u32(0));
        }
    } else {
        push_dec(out, n);
    }
}

/// Appending one location to a list appends a comma (after a nonempty
/// list) and the location's name.
proof fn lemma_ser_rest_snoc(s: Seq<Location>, l: Location)
    ensures
        ser_rest(s.push(l)) == ser_rest(s) + seq![44u8] + ser_location(l),
    decreases s.len(),
{
    if s.len() == 0 {
        assert(s.push(l)[0] == l);
        assert(s.push(l).drop_first() =~= Seq::<Location>::empty());
        assert(ser_rest(s.push(l)) == seq![44u8] + ser_location(l) + ser_rest(
            Seq::<Location>::empty()));
        assert(ser_rest(s.push(l)) =~= ser_rest(s) + seq![44u8] + ser_location(l));
    } else {
        assert(s.push(l)[0] == s[0]);
        assert(s.push(l).drop_first() =~= s.drop_first().push(l));
        lemma_ser_rest_snoc(s.drop_first(), l);
        assert(ser_rest(s.push(l)) == seq![44u8] + ser_location(s[0]) + ser_rest(
            s.drop_first().push(l)));
        assert(ser_rest(s.push(l)) =~= (seq![44u8] + ser_location(s[0]) + ser_rest(s.drop_first()))
            + seq![44u8] + ser_location(l));
    }
}

/// The same, for a whole list: the comma appears only between elements.
proof fn lemma_ser_loc_seq_snoc(s: Seq<Location>, l: Location)
    ensures
        s.len() == 0 ==> ser_loc_seq(s.push(l)) == ser_location(l),
        s.len() > 0 ==> ser_loc_seq(s.push(l)) == ser_loc_seq(s) + seq![44u8] + ser_location(l),
{
    if s.len() == 0 {
        assert(s.push(l).drop_first() =~= Seq::<Location>::empty());
        assert(ser_loc_seq(s.push(l)) =~= ser_location(l));
    } else {
        assert(s.push(l).drop_first() =~= s.drop_first().push(l));
        lemma_ser_rest_snoc(s.drop_first(), l);
        assert(ser_loc_seq(s.push(l)) =~= ser_loc_seq(s) + seq![44u8] + ser_location(l));
    }
}

/// Append the comma-separated encoding of a location list.
fn push_loc_seq(out: &mut Vec<u8>, locs: &Vec<Location>)
    ensures
        final(out)@ == old(out)@ + ser_loc_seq(locs@),
{
    let mut i: usize = 0;
    while i < locs.len()
        invariant
            0 <= i <= locs@.len(),
            out@ == old(out)@ + ser_loc_seq(locs@.take(i as int)),
        decreases locs@.len() - i,
    {
        if i > 0 {
            out.push(44);
        }
        let tok = loc_token(locs[i]);
        push_lit(out, tok.as_slice());
        proof {
            assert(locs@.take(i + 1) =~= locs@.take(i as int).push(locs@[i as int]));
            lemma_ser_loc_seq_snoc(locs@.take(i as int), locs@[i as int]);
            assert(out@ =~= old(out)@ + ser_loc_seq(locs@.take(i + 1)));
        }
        i += 1;
    }
    proof {
        assert(locs@.take(locs@.len() as int) =~= locs@);
    }
}

/// Append the encoding of a request.
fn push_request(out: &mut Vec<u8>, r: Request)
    ensures
        final(out)@ == old(out)@ + ser_request(r),
{
    match r {
        Request::List => {
            let tok: Vec<u8> = vec![34u8, 76, 105, 115, 116, 34];
            push_lit(out, tok.as_slice());
            proof {
                assert(final(out)@ =~= old(out)@ + ser_request(r));
            }
        },
        Request::Put(l) => {
            let head: Vec<u8> = vec![123u8, 34, 80, 117, 116, 34, 58];
            push_lit(out, head.as_slice());
            let tok = loc_token(l);
            push_lit(out, tok.as_slice());
            out.push(125);
            proof {
                assert(final(out)@ =~= old(out)@ + ser_request(r));
            }
        },
        Request::Del(l) => {
            let head: Vec<u8> = vec![123u8, 34, 68, 101, 108, 34, 58];
            push_lit(out, head.as_slice());
            let tok = loc_token(l);
            push_lit(out, tok.as_slice());
            out.push(125);
            proof {
                assert(final(out)@ =~= old(out)@ + ser_request(r));
            }
        },
        Request::Mov(l, n) => {
            let head: Vec<u8> = vec![123u8, 34, 77, 111, 118, 34, 58, 91];
            push_lit(out, head.as_slice());
            let tok = loc_token(l);
            push_lit(out, tok.as_slice());
            out.push(44);
            push_u32(out, n);
            out.push(93);
            out.push(125);
            proof {
                assert(final(out)@ =~= old(out)@ + ser_request(r));
            }
        },
        Request::Current => {
            let tok: Vec<u8> = vec![34u8, 67, 117, 114, 114, 101, 110, 116, 34];
            push_lit(out, tok.as_slice());
            proof {
                assert(final(out)@ =~= old(out)@ + ser_request(r));
            }
        },
        Request::Next => {
            let tok: Vec<u8> = vec![34u8, 78, 101, 120, 116, 34];
            push_lit(out, tok.as_slice());
            proof {
                assert(final(out)@ =~= old(out)@ + ser_request(r));
            }
        },
    }
}

/// Append the encoding of a response.
fn push_response(out: &mut Vec<u8>, r: &Response)
    ensures
        final(out)@ == old(out)@ + ser_response(r@),
{
    match r {
        Response::Success => {
            let tok: Vec<u8> = vec![34u8, 83, 117, 99, 99, 101, 115, 115, 34];
            push_lit(out, tok.as_slice());
            proof {
                assert(final(out)@ =~= old(out)@ + ser_response(r@));
            }
        },
        Response::Failure(f) => {
            let head: Vec<u8> = vec![123u8, 34, 70, 97, 105, 108, 117, 114, 101, 34, 58];
            push_lit(out, head.as_slice());
            let tok = failure_token(*f);
            push_lit(out, tok.as_slice());
            out.push(125);
            proof {
                assert(final(out)@ =~= old(out)@ + ser_response(r@));
            }
        },
        Response::List(locs) => {
            let head: Vec<u8> = vec![123u8, 34, 76, 105, 115, 116, 34, 58, 91];
            push_lit(out, head.as_slice());
            push_loc_seq(out, locs);
            out.push(93);
            out.push(125);
            proof {
                assert(final(out)@ =~= old(out)@ + ser_response(r@));
            }
        },
        Response::Where(l) => {
            let head: Vec<u8> = vec![123u8, 34, 87, 104, 101, 114, 101, 34, 58];
            push_lit(out, head.as_slice());
            let tok = loc_token(*l);
            push_lit(out, tok.as_slice());
            out.push(125);
            proof {
                assert(final(out)@ =~= old(out)@ + ser_response(r@));
            }
        },
        Response::Done => {
            let tok: Vec<u8> = vec![34u8, 68, 111, 110, 101, 34];
            push_lit(out, tok.as_slice());
            proof {
                assert(final(out)@ =~= old(out)@ + ser_response(r@));
            }
        },
    }
}

/// Append the encoding of a payload.
fn push_payload(out: &mut Vec<u8>, p: &Payload)
    ensures
        final(out)@ == old(out)@ + ser_payload(p@),
{
    match p {
        Payload::Request(r) => {
            let head: Vec<u8> = vec![123u8, 34, 82, 101, 113, 117, 101, 115, 116, 34, 58];
            push_lit(out, head.as_slice());
            push_request(out, *r);
            out.push(125);
            proof {
                assert(final(out)@ =~= old(out)@ + ser_payload(p@));
            }
        },
        Payload::Response(r) => {
            let head: Vec<u8> = vec![123u8, 34, 82, 101, 115, 112, 111, 110, 115, 101, 34, 58];
            push_lit(out, head.as_slice());
            push_response(out, r);
            out.push(125);
            proof {
                assert(final(out)@ =~= old(out)@ + ser_payload(p@));
            }
        },
    }
}

/// Serialize one message into the exact byte sequence `ser_message`
/// gives: the frame body, without the length prefix.
pub fn encode_message(m: &Message) -> (v: Vec<u8>)
    ensures
        v@ == ser_message(m@),
{
    let mut out = msg_open_v();
    push_payload(&mut out, &m.data);
    out.push(125);
    proof {
        assert(out@ =~= ser_message(m@));
    }
    out
}

/// Serialize one message into a whole frame: the 4-byte big-endian
/// length of the body, then the body. Succeeds exactly when the body's
/// length fits the prefix.
pub fn encode_frame(m: &Message) -> (r: Result<Vec<u8>, Error>)
    ensures
        ser_message(m@).len() <= u32::MAX ==> r is Ok,
        r matches Ok(f) ==> {
            &&& ser_message(m@).len() <= u32::MAX
            &&& f@ == be32(ser_message(m@).len() as u32) + ser_message(m@)
            &&& f@.len() == 4 + ser_message(m@).len()
            &&& be32_val(f@.subrange(0, 4)) == f@.len() - 4
        },
        r matches Err(e) ==> e == Error::Parse && ser_message(m@).len() > u32::MAX,
{
    let body = encode_message(m);
    if body.len() > 0xffff_ffff_usize {
        return Err(Error::Parse);
    }
    let n = body.len() as u32;
    let mut frame = u32_to_be4(n);
    push_lit(&mut frame, body.as_slice());
    proof {
        lemma_be32_val(n);
        assert(frame@.subrange(0, 4) =~= be32(n));
    }
    Ok(frame)
}

// ---------------------------------------------------------------------
// The decoding relation, as spec functions
// ---------------------------------------------------------------------
//
// Each `spec_parse_*` function gives the exact result of reading one
// syntactic category at a position: the value read and the position
// after it, or nothing when the bytes there do not carry the category.
// The executable parsers below are proved to return exactly these
// values, and the `*_complete` lemmas state that each category reads
// back what `ser_*` wrote.

/// Read one location name.
pub open spec fn spec_parse_location(b: Seq<u8>, pos: int) -> Option<(Location, int)> {
    if matches_at(b, pos, ser_location(Location::HOME)) {
        Some((Location::HOME, pos + ser_location(Location::HOME).len()))
    } else if matches_at(b, pos, ser_location(Location::CITY)) {
        Some((Location::CITY, pos + ser_location(Location::CITY).len()))
    } else if matches_at(b, pos, ser_location(Location::WOODS)) {
        Some((Location::WOODS, pos + ser_location(Location::WOODS).len()))
    } else if matches_at(b, pos, ser_location(Location::BEACH)) {
        Some((Location::BEACH, pos + ser_location(Location::BEACH).len()))
    } else if matches_at(b, pos, ser_location(Location::FIELD)) {
        Some((Location::FIELD, pos + ser_location(Location::FIELD).len()))
    } else if matches_at(b, pos, ser_location(Location::CAFE)) {
        Some((Location::CAFE, pos + ser_location(Location::CAFE).len()))
    } else if matches_at(b, pos, ser_location(Location::SHOP)) {
        Some((Location::SHOP, pos + ser_location(Location::SHOP).len()))
    } else if matches_at(b, pos, ser_location(Location::CHURCH)) {
        Some((Location::CHURCH, pos + ser_location(Location::CHURCH).len()))
    } else {
        None
    }
}

/// Read one failure reason.
pub open spec fn spec_parse_failure(b: Seq<u8>, pos: int) -> Option<(Failure, int)> {
    if matches_at(b, pos, ser_failure(Failure::InvalidRequest)) {
        Some((Failure::InvalidRequest, pos + ser_failure(Failure::InvalidRequest).len()))
    } else if matches_at(b, pos, ser_failure(Failure::InvalidResponse)) {
        Some((Failure::InvalidResponse, pos + ser_failure(Failure::InvalidResponse).len()))
    } else if matches_at(b, pos, ser_failure(Failure::LocationNotOnItinerary)) {
        Some(
            (Failure::LocationNotOnItinerary, pos + ser_failure(
                Failure::LocationNotOnItinerary,
            ).len()),
        )
    } else {
        None
    }
}

/// A decimal digit.
pub open spec fn is_digit(c: u8) -> bool {
    48 <= c <= 57
}

/// The position just after the run of digits that starts at `pos`.
pub open spec fn digit_run_end(b: Seq<u8>, pos: int) -> int
    decreases b.len() - pos,
{
    if pos < 0 || pos >= b.len() || !is_digit(b[pos]) {
        pos
    } else {
        digit_run_end(b, pos + 1)
    }
}

/// The value of a digit string, most significant first.
pub open spec fn val_of_digits(d: Seq<u8>) -> int
    decreases d.len(),
{
    if d.len() == 0 {
        0
    } else {
        val_of_digits(d.drop_last()) * 10 + (d.last() - 48)
    }
}

/// Ten to the `k`.
pub open spec fn pow10(k: nat) -> int
    decreases k,
{
    if k == 0 {
        1
    } else {
        10 * pow10((k - 1) as nat)
    }
}

/// Read one number: the whole digit run at `pos`, rejected when it is
/// empty, has a leading zero, or exceeds the unsigned 32-bit range.
pub open spec fn spec_parse_u32(b: Seq<u8>, pos: int) -> Option<(u32, int)> {
    if pos < 0 || pos > b.len() {
        None
    } else {
        let e = digit_run_end(b, pos);
        if e == pos {
            None
        } else if b[pos] == 48 && e > pos + 1 {
            None
        } else if e - pos > 10 {
            None
        } else {
            let v = val_of_digits(b.subrange(pos, e));
            if 0 <= v <= u32::MAX {
                Some((v as u32, e))
            } else {
                None
            }
        }
    }
}

/// Read the elements of a location list after the first, and the
/// closing bracket.
pub open spec fn spec_parse_locs_rest(b: Seq<u8>, pos: int, acc: Seq<Location>) -> Option<
    (Seq<Location>, int),
>
    decreases b.len() - pos,
{
    if pos < 0 || pos >= b.len() {
        None
    } else if b[pos] == 93 {
        Some((acc, pos + 1))
    } else if b[pos] == 44 {
        match spec_parse_location(b, pos + 1) {
            Some((l, e)) => if pos + 1 < e <= b.len() {
                spec_parse_locs_rest(b, e, acc.push(l))
            } else {
                None
            },
            None => None,
        }
    } else {
        None
    }
}

/// Read a location list: the comma-separated elements and the closing
/// bracket (the opening bracket belongs to the tag before the list).
pub open spec fn spec_parse_locs(b: Seq<u8>, pos: int) -> Option<(Seq<Location>, int)> {
    if pos < 0 || pos > b.len() {
        None
    } else if pos < b.len() && b[pos] == 93 {
        Some((Seq::empty(), pos + 1))
    } else {
        match spec_parse_location(b, pos) {
            Some((l, e)) => if pos < e <= b.len() {
                spec_parse_locs_rest(b, e, seq![l])
            } else {
                None
            },
            None => None,
        }
    }
}

/// Read one request.
pub open spec fn spec_parse_request(b: Seq<u8>, pos: int) -> Option<(Request, int)> {
    if matches_at(b, pos, tok_req_list()) {
        Some((Request::List, pos + tok_req_list().len()))
    } else if matches_at(b, pos, tok_current()) {
        Some((Request::Current, pos + tok_current().len()))
    } else if matches_at(b, pos, tok_next()) {
        Some((Request::Next, pos + tok_next().len()))
    } else if matches_at(b, pos, tok_put_open()) {
        match spec_parse_location(b, pos + tok_put_open().len()) {
            Some((l, e)) => if matches_at(b, e, seq![125u8]) {
                Some((Request::Put(l), e + 1))
            } else {
                None
            },
            None => None,
        }
    } else if matches_at(b, pos, tok_del_open()) {
        match spec_parse_location(b, pos + tok_del_open().len()) {
            Some((l, e)) => if matches_at(b, e, seq![125u8]) {
                Some((Request::Del(l), e + 1))
            } else {
                None
            },
            None => None,
        }
    } else if matches_at(b, pos, tok_mov_open()) {
        match spec_parse_location(b, pos + tok_mov_open().len()) {
            Some((l, e)) => if matches_at(b, e, seq![44u8]) {
                match spec_parse_u32(b, e + 1) {
                    Some((n, e2)) => if matches_at(b, e2, seq![93u8, 125]) {
                        Some((Request::Mov(l, n), e2 + 2))
                    } else {
                        None
                    },
                    None => None,
                }
            } else {
                None
            },
            None => None,
        }
    } else {
        None
    }
}

/// Read one response.
pub open spec fn spec_parse_response(b: Seq<u8>, pos: int) -> Option<(ResponseV, int)> {
    if matches_at(b, pos, tok_success()) {
        Some((ResponseV::Success, pos + tok_success().len()))
    } else if matches_at(b, pos, tok_done()) {
        Some((ResponseV::Done, pos + tok_done().len()))
    } else if matches_at(b, pos, tok_failure_open()) {
        match spec_parse_failure(b, pos + tok_failure_open().len()) {
            Some((f, e)) => if matches_at(b, e, seq![125u8]) {
                Some((ResponseV::Failure(f), e + 1))
            } else {
                None
            },
            None => None,
        }
    } else if matches_at(b, pos, tok_resp_list_open()) {
        match spec_parse_locs(b, pos + tok_resp_list_open().len()) {
            Some((s, e)) => if matches_at(b, e, seq![125u8]) {
                Some((ResponseV::List(s), e + 1))
            } else {
                None
            },
            None => None,
        }
    } else if matches_at(b, pos, tok_where_open()) {
        match spec_parse_location(b, pos + tok_where_open().len()) {
            Some((l, e)) => if matches_at(b, e, seq![125u8]) {
                Some((ResponseV::Where(l), e + 1))
            } else {
                None
            },
            None => None,
        }
    } else {
        None
    }
}

/// Read one payload.
pub open spec fn spec_parse_payload(b: Seq<u8>, pos: int) -> Option<(PayloadV, int)> {
    if matches_at(b, pos, tok_request_open()) {
        match spec_parse_request(b, pos + tok_request_open().len()) {
            Some((r, e)) => if matches_at(b, e, seq![125u8]) {
                Some((PayloadV::Request(r), e + 1))
            } else {
                None
            },
            None => None,
        }
    } else if matches_at(b, pos, tok_response_open()) {
        match spec_parse_response(b, pos + tok_response_open().len()) {
            Some((r, e)) => if matches_at(b, e, seq![125u8]) {
                Some((PayloadV::Response(r), e + 1))
            } else {
                None
            },
            None => None,
        }
    } else {
        None
    }
}

/// Read one whole message.
pub open spec fn spec_parse_message(b: Seq<u8>, pos: int) -> Option<(MessageV, int)> {
    if matches_at(b, pos, tok_msg_open()) {
        match spec_parse_payload(b, pos + tok_msg_open().len()) {
            Some((p, e)) => if matches_at(b, e, seq![125u8]) {
                Some((MessageV { data: p }, e + 1))
            } else {
                None
            },
            None => None,
        }
    } else {
        None
    }
}

/// The exact result of decoding a frame body: the message whose
/// encoding the whole byte sequence is, or nothing.
pub open spec fn spec_decode(b: Seq<u8>) -> Option<MessageV> {
    match spec_parse_message(b, 0) {
        Some((m, e)) => if e == b.len() {
            Some(m)
        } else {
            None
        },
        None => None,
    }
}

// ---------------------------------------------------------------------
// Reading back what was written: completeness of the decoding relation
// ---------------------------------------------------------------------

/// Every location name starts with a quote and is at least six bytes.
proof fn lemma_ser_location_shape(l: Location)
    ensures
        ser_location(l).len() >= 6,
        ser_location(l)[0] == 34,
{
    match l {
        Location::HOME => {},
        Location::CITY => {},
        Location::WOODS => {},
        Location::BEACH => {},
        Location::FIELD => {},
        Location::CAFE => {},
        Location::SHOP => {},
        Location::CHURCH => {},
    }
}

/// A location name at `pos` is read back as that location.
proof fn lemma_parse_location_complete(b: Seq<u8>, pos: int, l: Location)
    requires
        matches_at(b, pos, ser_location(l)),
    ensures
        spec_parse_location(b, pos) == Some((l, pos + ser_location(l).len())),
{
    let t = ser_location(l);
    match l {
        Location::HOME => {},
        Location::CITY => {
            lemma_tok_conflict(b, pos, t, ser_location(Location::HOME), 1);
        },
        Location::WOODS => {
            lemma_tok_conflict(b, pos, t, ser_location(Location::HOME), 1);
            lemma_tok_conflict(b, pos, t, ser_location(Location::CITY), 1);
        },
        Location::BEACH => {
            lemma_tok_conflict(b, pos, t, ser_location(Location::HOME), 1);
            lemma_tok_conflict(b, pos, t, ser_location(Location::CITY), 1);
            lemma_tok_conflict(b, pos, t, ser_location(Location::WOODS), 1);
        },
        Location::FIELD => {
            lemma_tok_conflict(b, pos, t, ser_location(Location::HOME), 1);
            lemma_tok_conflict(b, pos, t, ser_location(Location::CITY), 1);
            lemma_tok_conflict(b, pos, t, ser_location(Location::WOODS), 1);
            lemma_tok_conflict(b, pos, t, ser_location(Location::BEACH), 1);
        },
        Location::CAFE => {
            lemma_tok_conflict(b, pos, t, ser_location(Location::HOME), 1);
            lemma_tok_conflict(b, pos, t, ser_location(Location::CITY), 2);
            lemma_tok_conflict(b, pos, t, ser_location(Location::WOODS), 1);
            lemma_tok_conflict(b, pos, t, ser_location(Location::BEACH), 1);
            lemma_tok_conflict(b, pos, t, ser_location(Location::FIELD), 1);
        },
        Location::SHOP => {
            lemma_tok_conflict(b, pos, t, ser_location(Location::HOME), 1);
            lemma_tok_conflict(b, pos, t, ser_location(Location::CITY), 1);
            lemma_tok_conflict(b, pos, t, ser_location(Location::WOODS), 1);
            lemma_tok_conflict(b, pos, t, ser_location(Location::BEACH), 1);
            lemma_tok_conflict(b, pos, t, ser_location(Location::FIELD), 1);
            lemma_tok_conflict(b, pos, t, ser_location(Location::CAFE), 1);
        },
        Location::CHURCH => {
            lemma_tok_conflict(b, pos, t, ser_location(Location::HOME), 1);
            lemma_tok_conflict(b, pos, t, ser_location(Location::CITY), 2);
            lemma_tok_conflict(b, pos, t, ser_location(Location::WOODS), 1);
            lemma_tok_conflict(b, pos, t, ser_location(Location::BEACH), 1);
            lemma_tok_conflict(b, pos, t, ser_location(Location::FIELD), 1);
            lemma_tok_conflict(b, pos, t, ser_location(Location::CAFE), 2);
            lemma_tok_conflict(b, pos, t, ser_location(Location::SHOP), 1);
        },
    }
}

/// A failure name at `pos` is read back as that failure.
proof fn lemma_parse_failure_complete(b: Seq<u8>, pos: int, f: Failure)
    requires
        matches_at(b, pos, ser_failure(f)),
    ensures
        spec_parse_failure(b, pos) == Some((f, pos + ser_failure(f).len())),
{
    let t = ser_failure(f);
    match f {
        Failure::InvalidRequest => {},
        Failure::InvalidResponse => {
            lemma_tok_conflict(b, pos, t, ser_failure(Failure::InvalidRequest), 10);
        },
        Failure::LocationNotOnItinerary => {
            lemma_tok_conflict(b, pos, t, ser_failure(Failure::InvalidRequest), 1);
            lemma_tok_conflict(b, pos, t, ser_failure(Failure::InvalidResponse), 1);
        },
    }
}

/// The digits of a positive number: all decimal digits, the first one
/// not zero, and their value is the number again.
proof fn lemma_dec_digits_props(n: int)
    requires
        n >= 0,
    ensures
        forall|i: int| 0 <= i < dec_digits(n).len() ==> is_digit(#[trigger] dec_digits(n)[i]),
        n > 0 ==> dec_digits(n).len() >= 1 && dec_digits(n)[0] != 48,
        val_of_digits(dec_digits(n)) == n,
    decreases n,
{
    if n > 0 {
        lemma_dec_digits_props(n / 10);
        let d = dec_digits(n);
        let dp = dec_digits(n / 10);
        assert(d == dp.push((48 + n % 10) as u8));
        assert(d.drop_last() =~= dp);
        assert(d.last() == (48 + n % 10) as u8);
        assert(val_of_digits(d) == val_of_digits(dp) * 10 + n % 10);
        assert(n / 10 * 10 + n % 10 == n);
        assert(forall|i: int|
            0 <= i < d.len() ==> is_digit(#[trigger] d[i])) by {
            assert(forall|i: int| 0 <= i < dp.len() ==> d[i] == dp[i]);
        }
        if n / 10 > 0 {
            assert(d[0] == dp[0]);
        } else {
            assert(n % 10 == n);
            assert(d[0] == (48 + n) as u8);
        }
    }
}

/// A number below ten to the `k` has at most `k` digits.
proof fn lemma_dec_digits_len(n: int, k: nat)
    requires
        0 <= n < pow10(k),
    ensures
        dec_digits(n).len() <= k,
    decreases k,
{
    if n > 0 {
        if k == 0 {
            assert(pow10(0) == 1);
        } else {
            let p = pow10((k - 1) as nat);
            if n / 10 >= p {
                assert(n == 10 * (n / 10) + n % 10);
                assert(n >= 10 * p);
            }
            lemma_dec_digits_len(n / 10, (k - 1) as nat);
        }
    }
}

/// Ten to the ten, spelled out.
proof fn lemma_pow10_10()
    ensures
        pow10(10) == 10_000_000_000,
{
    assert(pow10(0) == 1);
    assert(pow10(1) == 10);
    assert(pow10(2) == 100);
    assert(pow10(3) == 1000);
    assert(pow10(4) == 10000);
    assert(pow10(5) == 100000);
    assert(pow10(6) == 1000000);
    assert(pow10(7) == 10000000);
    assert(pow10(8) == 100000000);
    assert(pow10(9) == 1000000000);
}

/// Where a digit run ends: at the first byte that is not a digit.
proof fn lemma_digit_run(b: Seq<u8>, pos: int, e: int)
    requires
        0 <= pos <= e <= b.len(),
        forall|i: int| pos <= i < e ==> is_digit(#[trigger] b[i]),
        e == b.len() || !is_digit(b[e]),
    ensures
        digit_run_end(b, pos) == e,
    decreases e - pos,
{
    if pos < e {
        lemma_digit_run(b, pos + 1, e);
    }
}

/// A number's encoding at `pos`, followed by something that is not a
/// digit, is read back as that number.
proof fn lemma_parse_u32_complete(b: Seq<u8>, pos: int, n: u32)
    requires
        matches_at(b, pos, ser_u32(n)),
        pos + ser_u32(n).len() == b.len() || !is_digit(b[pos + ser_u32(n).len()]),
    ensures
        spec_parse_u32(b, pos) == Some((n, pos + ser_u32(n).len())),
{
    let d = ser_u32(n);
    let e = pos + d.len();
    lemma_dec_digits_props(n as int);
    assert(forall|i: int| 0 <= i < d.len() ==> is_digit(#[trigger] d[i]));
    assert(forall|i: int| pos <= i < e ==> is_digit(#[trigger] b[i])) by {
        assert forall|i: int| pos <= i < e implies is_digit(b[i]) by {
            lemma_matches_at_index(b, pos, d, i - pos);
        }
    }
    lemma_digit_run(b, pos, e);
    lemma_matches_at_index(b, pos, d, 0);
    if n == 0 {
        assert(d == seq![48u8]);
        assert(e == pos + 1);
        assert(b.subrange(pos, e) == d);
        assert(seq![48u8].drop_last() =~= Seq::<u8>::empty());
        assert(val_of_digits(seq![48u8]) == 0);
    } else {
        assert(b[pos] == d[0]);
        assert(d[0] != 48);
        lemma_pow10_10();
        assert(n < pow10(10));
        lemma_dec_digits_len(n as int, 10);
        assert(b.subrange(pos, e) == d);
        assert(val_of_digits(b.subrange(pos, e)) == n);
    }
}

/// The tail of a location list at `pos` is read back as those
/// elements, appended to what was read before.
proof fn lemma_parse_locs_rest_complete(b: Seq<u8>, pos: int, t: Seq<Location>, acc: Seq<Location>)
    requires
        matches_at(b, pos, ser_rest(t) + seq![93u8]),
    ensures
        spec_parse_locs_rest(b, pos, acc) == Some((acc + t, pos + ser_rest(t).len() + 1)),
    decreases t.len(),
{
    if t.len() == 0 {
        assert(ser_rest(t) + seq![93u8] =~= seq![93u8]);
        lemma_matches_at_index(b, pos, seq![93u8], 0);
        assert(acc + t =~= acc);
    } else {
        let tok = ser_location(t[0]);
        let rest2 = ser_rest(t.drop_first());
        assert(ser_rest(t) == seq![44u8] + tok + rest2);
        assert(ser_rest(t) + seq![93u8] =~= seq![44u8] + (tok + (rest2 + seq![93u8])));
        lemma_matches_at_concat(b, pos, seq![44u8], tok + (rest2 + seq![93u8]));
        lemma_matches_at_index(b, pos, seq![44u8], 0);
        lemma_matches_at_concat(b, pos + 1, tok, rest2 + seq![93u8]);
        lemma_parse_location_complete(b, pos + 1, t[0]);
        lemma_ser_location_shape(t[0]);
        let e = pos + 1 + tok.len();
        lemma_parse_locs_rest_complete(b, e, t.drop_first(), acc.push(t[0]));
        assert(acc.push(t[0]) + t.drop_first() =~= acc + t);
    }
}

/// A location list's encoding at `pos`, with its closing bracket, is
/// read back as that list.
proof fn lemma_parse_locs_complete(b: Seq<u8>, pos: int, s: Seq<Location>)
    requires
        matches_at(b, pos, ser_loc_seq(s) + seq![93u8]),
    ensures
        spec_parse_locs(b, pos) == Some((s, pos + ser_loc_seq(s).len() + 1)),
{
    if s.len() == 0 {
        assert(ser_loc_seq(s) + seq![93u8] =~= seq![93u8]);
        lemma_matches_at_index(b, pos, seq![93u8], 0);
        assert(spec_parse_locs(b, pos) == Some((Seq::<Location>::empty(), pos + 1)));
        assert(Seq::<Location>::empty() =~= s);
    } else {
        let tok = ser_location(s[0]);
        let rest2 = ser_rest(s.drop_first());
        assert(ser_loc_seq(s) == tok + rest2);
        assert(ser_loc_seq(s) + seq![93u8] =~= tok + (rest2 + seq![93u8]));
        lemma_matches_at_concat(b, pos, tok, rest2 + seq![93u8]);
        lemma_ser_location_shape(s[0]);
        lemma_matches_at_index(b, pos, tok, 0);
        lemma_parse_location_complete(b, pos, s[0]);
        let e = pos + tok.len();
        lemma_parse_locs_rest_complete(b, e, s.drop_first(), seq![s[0]]);
        assert(seq![s[0]] + s.drop_first() =~= s);
    }
}

/// A request's encoding at `pos` is read back as that request.
proof fn lemma_parse_request_complete(b: Seq<u8>, pos: int, r: Request)
    requires
        matches_at(b, pos, ser_request(r)),
    ensures
        spec_parse_request(b, pos) == Some((r, pos + ser_request(r).len())),
{
    match r {
        Request::List => {},
        Request::Current => {
            lemma_tok_conflict(b, pos, tok_current(), tok_req_list(), 1);
        },
        Request::Next => {
            lemma_tok_conflict(b, pos, tok_next(), tok_req_list(), 1);
            lemma_tok_conflict(b, pos, tok_next(), tok_current(), 1);
        },
        Request::Put(l) => {
            assert(ser_request(r) =~= tok_put_open() + (ser_location(l) + seq![125u8]));
            lemma_matches_at_concat(b, pos, tok_put_open(), ser_location(l) + seq![125u8]);
            lemma_tok_conflict(b, pos, tok_put_open(), tok_req_list(), 0);
            lemma_tok_conflict(b, pos, tok_put_open(), tok_current(), 0);
            lemma_tok_conflict(b, pos, tok_put_open(), tok_next(), 0);
            lemma_matches_at_concat(b, pos + tok_put_open().len(), ser_location(l), seq![125u8]);
            lemma_parse_location_complete(b, pos + tok_put_open().len(), l);
        },
        Request::Del(l) => {
            assert(ser_request(r) =~= tok_del_open() + (ser_location(l) + seq![125u8]));
            lemma_matches_at_concat(b, pos, tok_del_open(), ser_location(l) + seq![125u8]);
            lemma_tok_conflict(b, pos, tok_del_open(), tok_req_list(), 0);
            lemma_tok_conflict(b, pos, tok_del_open(), tok_current(), 0);
            lemma_tok_conflict(b, pos, tok_del_open(), tok_next(), 0);
            lemma_tok_conflict(b, pos, tok_del_open(), tok_put_open(), 2);
            lemma_matches_at_concat(b, pos + tok_del_open().len(), ser_location(l), seq![125u8]);
            lemma_parse_location_complete(b, pos + tok_del_open().len(), l);
        },
        Request::Mov(l, n) => {
            assert(ser_request(r) =~= tok_mov_open() + (ser_location(l) + (seq![44u8] + (ser_u32(n)
                + seq![93u8, 125]))));
            lemma_matches_at_concat(
                b,
                pos,
                tok_mov_open(),
                ser_location(l) + (seq![44u8] + (ser_u32(n) + seq![93u8, 125])),
            );
            lemma_tok_conflict(b, pos, tok_mov_open(), tok_req_list(), 0);
            lemma_tok_conflict(b, pos, tok_mov_open(), tok_current(), 0);
            lemma_tok_conflict(b, pos, tok_mov_open(), tok_next(), 0);
            lemma_tok_conflict(b, pos, tok_mov_open(), tok_put_open(), 2);
            lemma_tok_conflict(b, pos, tok_mov_open(), tok_del_open(), 2);
            let p1 = pos + tok_mov_open().len();
            lemma_matches_at_concat(b, p1, ser_location(l), seq![44u8] + (ser_u32(n) + seq![
                93u8,
                125,
            ]));
            lemma_parse_location_complete(b, p1, l);
            let e = p1 + ser_location(l).len();
            lemma_matches_at_concat(b, e, seq![44u8], ser_u32(n) + seq![93u8, 125]);
            lemma_matches_at_concat(b, e + 1, ser_u32(n), seq![93u8, 125]);
            let e2 = e + 1 + ser_u32(n).len();
            lemma_matches_at_index(b, e2, seq![93u8, 125], 0);
            lemma_parse_u32_complete(b, e + 1, n);
        },
    }
}

/// A response's encoding at `pos` is read back as that response.
proof fn lemma_parse_response_complete(b: Seq<u8>, pos: int, r: ResponseV)
    requires
        matches_at(b, pos, ser_response(r)),
    ensures
        spec_parse_response(b, pos) == Some((r, pos + ser_response(r).len())),
{
    match r {
        ResponseV::Success => {},
        ResponseV::Done => {
            lemma_tok_conflict(b, pos, tok_done(), tok_success(), 1);
        },
        ResponseV::Failure(f) => {
            assert(ser_response(r) =~= tok_failure_open() + (ser_failure(f) + seq![125u8]));
            lemma_matches_at_concat(b, pos, tok_failure_open(), ser_failure(f) + seq![125u8]);
            lemma_tok_conflict(b, pos, tok_failure_open(), tok_success(), 0);
            lemma_tok_conflict(b, pos, tok_failure_open(), tok_done(), 0);
            lemma_matches_at_concat(b, pos + tok_failure_open().len(), ser_failure(f), seq![125u8]);
            lemma_parse_failure_complete(b, pos + tok_failure_open().len(), f);
        },
        ResponseV::List(s) => {
            assert(ser_response(r) =~= tok_resp_list_open() + ((ser_loc_seq(s) + seq![93u8])
                + seq![125u8]));
            lemma_matches_at_concat(
                b,
                pos,
                tok_resp_list_open(),
                (ser_loc_seq(s) + seq![93u8]) + seq![125u8],
            );
            lemma_tok_conflict(b, pos, tok_resp_list_open(), tok_success(), 0);
            lemma_tok_conflict(b, pos, tok_resp_list_open(), tok_done(), 0);
            lemma_tok_conflict(b, pos, tok_resp_list_open(), tok_failure_open(), 2);
            let p1 = pos + tok_resp_list_open().len();
            lemma_matches_at_concat(b, p1, ser_loc_seq(s) + seq![93u8], seq![125u8]);
            lemma_parse_locs_complete(b, p1, s);
        },
        ResponseV::Where(l) => {
            assert(ser_response(r) =~= tok_where_open() + (ser_location(l) + seq![125u8]));
            lemma_matches_at_concat(b, pos, tok_where_open(), ser_location(l) + seq![125u8]);
            lemma_tok_conflict(b, pos, tok_where_open(), tok_success(), 0);
            lemma_tok_conflict(b, pos, tok_where_open(), tok_done(), 0);
            lemma_tok_conflict(b, pos, tok_where_open(), tok_failure_open(), 2);
            lemma_tok_conflict(b, pos, tok_where_open(), tok_resp_list_open(), 2);
            lemma_matches_at_concat(b, pos + tok_where_open().len(), ser_location(l), seq![125u8]);
            lemma_parse_location_complete(b, pos + tok_where_open().len(), l);
        },
    }
}

/// A payload's encoding at `pos` is read back as that payload.
proof fn lemma_parse_payload_complete(b: Seq<u8>, pos: int, p: PayloadV)
    requires
        matches_at(b, pos, ser_payload(p)),
    ensures
        spec_parse_payload(b, pos) == Some((p, pos + ser_payload(p).len())),
{
    match p {
        PayloadV::Request(r) => {
            assert(ser_payload(p) =~= tok_request_open() + (ser_request(r) + seq![125u8]));
            lemma_matches_at_concat(b, pos, tok_request_open(), ser_request(r) + seq![125u8]);
            lemma_matches_at_concat(b, pos + tok_request_open().len(), ser_request(r), seq![125u8]);
            lemma_parse_request_complete(b, pos + tok_request_open().len(), r);
        },
        PayloadV::Response(r) => {
            assert(ser_payload(p) =~= tok_response_open() + (ser_response(r) + seq![125u8]));
            lemma_matches_at_concat(b, pos, tok_response_open(), ser_response(r) + seq![125u8]);
            lemma_tok_conflict(b, pos, tok_response_open(), tok_request_open(), 4);
            lemma_matches_at_concat(
                b,
                pos + tok_response_open().len(),
                ser_response(r),
                seq![125u8],
            );
            lemma_parse_response_complete(b, pos + tok_response_open().len(), r);
        },
    }
}

/// A message's encoding at `pos` is read back as that message.
proof fn lemma_parse_message_complete(b: Seq<u8>, pos: int, m: MessageV)
    requires
        matches_at(b, pos, ser_message(m)),
    ensures
        spec_parse_message(b, pos) == Some((m, pos + ser_message(m).len())),
{
    assert(ser_message(m) =~= tok_msg_open() + (ser_payload(m.data) + seq![125u8]));
    lemma_matches_at_concat(b, pos, tok_msg_open(), ser_payload(m.data) + seq![125u8]);
    lemma_matches_at_concat(b, pos + tok_msg_open().len(), ser_payload(m.data), seq![125u8]);
    lemma_parse_payload_complete(b, pos + tok_msg_open().len(), m.data);
}

/// The frame round trip: decoding the encoding of any message yields
/// that message. `ser_message` is what the executable encoder writes,
/// and `spec_decode` is what the executable decoder reads, so an
/// encoded frame body always decodes back to the message it came from.
pub proof fn lemma_decode_encode(m: MessageV)
    ensures
        spec_decode(ser_message(m)) == Some(m),
{
    let b = ser_message(m);
    assert(b.subrange(0, b.len() as int) =~= b);
    lemma_parse_message_complete(b, 0, m);
}

// ---------------------------------------------------------------------
// Writing back what was read: the decoder accepts only canonical
// encodings
// ---------------------------------------------------------------------

/// A location is only read where its name stands.
proof fn lemma_parse_location_sound(b: Seq<u8>, pos: int)
    ensures
        spec_parse_location(b, pos) matches Some((l, e)) ==> matches_at(b, pos, ser_location(l))
            && e == pos + ser_location(l).len(),
{
}

/// A failure is only read where its name stands.
proof fn lemma_parse_failure_sound(b: Seq<u8>, pos: int)
    ensures
        spec_parse_failure(b, pos) matches Some((f, e)) ==> matches_at(b, pos, ser_failure(f))
            && e == pos + ser_failure(f).len(),
{
}

/// What the end of a digit run means: digits up to it, none at it.
proof fn lemma_digit_run_end_facts(b: Seq<u8>, pos: int)
    requires
        0 <= pos <= b.len(),
    ensures
        pos <= digit_run_end(b, pos) <= b.len(),
        forall|i: int| pos <= i < digit_run_end(b, pos) ==> is_digit(#[trigger] b[i]),
        digit_run_end(b, pos) == b.len() || !is_digit(b[digit_run_end(b, pos)]),
    decreases b.len() - pos,
{
    if pos < b.len() && is_digit(b[pos]) {
        lemma_digit_run_end_facts(b, pos + 1);
    }
}

/// A digit string without a leading zero has a positive value.
proof fn lemma_val_positive(d: Seq<u8>)
    requires
        d.len() >= 1,
        forall|i: int| 0 <= i < d.len() ==> is_digit(#[trigger] d[i]),
        d[0] != 48,
    ensures
        val_of_digits(d) >= 1,
    decreases d.len(),
{
    if d.len() == 1 {
        assert(is_digit(d[0]));
        assert(d.drop_last() =~= Seq::<u8>::empty());
        assert(val_of_digits(Seq::<u8>::empty()) == 0);
        assert(d.last() == d[0]);
    } else {
        let dp = d.drop_last();
        assert(forall|i: int| 0 <= i < dp.len() ==> is_digit(#[trigger] dp[i])) by {
            assert(forall|i: int| 0 <= i < d.len() - 1 ==> dp[i] == d[i]);
        }
        assert(dp[0] == d[0]);
        lemma_val_positive(dp);
        assert(is_digit(d.last()));
    }
}

/// A digit string without a leading zero is the decimal encoding of its
/// own value.
proof fn lemma_digits_canonical(d: Seq<u8>)
    requires
        d.len() >= 1,
        forall|i: int| 0 <= i < d.len() ==> is_digit(#[trigger] d[i]),
        d[0] != 48 || d.len() == 1,
    ensures
        val_of_digits(d) == 0 ==> d == seq![48u8],
        val_of_digits(d) > 0 ==> dec_digits(val_of_digits(d)) == d,
    decreases d.len(),
{
    if d.len() == 1 {
        assert(is_digit(d[0]));
        assert(d.drop_last() =~= Seq::<u8>::empty());
        assert(val_of_digits(Seq::<u8>::empty()) == 0);
        assert(d.last() == d[0]);
        let v = val_of_digits(d);
        assert(v == d[0] - 48);
        if v == 0 {
            assert(d =~= seq![48u8]);
        } else {
            assert(0 < v <= 9);
            assert(dec_digits(v) == dec_digits(v / 10).push((48 + v % 10) as u8));
            assert(v / 10 == 0 && v % 10 == v);
            assert(dec_digits(v) =~= d);
        }
    } else {
        let dp = d.drop_last();
        assert(forall|i: int| 0 <= i < dp.len() ==> is_digit(#[trigger] dp[i])) by {
            assert(forall|i: int| 0 <= i < d.len() - 1 ==> dp[i] == d[i]);
        }
        assert(dp[0] == d[0]);
        lemma_val_positive(dp);
        lemma_digits_canonical(dp);
        let vp = val_of_digits(dp);
        let r = d.last() - 48;
        let v = val_of_digits(d);
        assert(is_digit(d.last()));
        assert(v == vp * 10 + r);
        vstd::arithmetic::div_mod::lemma_fundamental_div_mod_converse(v, 10, vp, r);
        assert(dec_digits(v) == dec_digits(vp).push((48 + v % 10) as u8));
        assert(dec_digits(v) =~= d);
    }
}

/// A number is only read where its canonical encoding stands, with no
/// digit after it.
proof fn lemma_parse_u32_sound(b: Seq<u8>, pos: int)
    ensures
        spec_parse_u32(b, pos) matches Some((v, e)) ==> {
            &&& matches_at(b, pos, ser_u32(v))
            &&& e == pos + ser_u32(v).len()
            &&& e == b.len() || !is_digit(b[e])
        },
{
    if spec_parse_u32(b, pos) is Some {
        let e = digit_run_end(b, pos);
        lemma_digit_run_end_facts(b, pos);
        let d = b.subrange(pos, e);
        assert(forall|i: int| 0 <= i < d.len() ==> is_digit(#[trigger] d[i])) by {
            assert(forall|i: int| 0 <= i < e - pos ==> d[i] == b[pos + i]);
        }
        assert(d[0] == b[pos]);
        lemma_digits_canonical(d);
        let v = val_of_digits(d);
        if v == 0 {
            assert(ser_u32(0) == seq![48u8]);
        } else {
            assert(v <= u32::MAX);
            assert(ser_u32((v as u32)) == dec_digits(v));
        }
    }
}

/// A location-list tail is only read where comma-separated names and a
/// closing bracket stand; what it returns extends what was read before.
proof fn lemma_parse_locs_rest_sound(b: Seq<u8>, pos: int, acc: Seq<Location>)
    ensures
        spec_parse_locs_rest(b, pos, acc) matches Some((s, e)) ==> {
            let t = s.skip(acc.len() as int);
            &&& acc.len() <= s.len()
            &&& s.take(acc.len() as int) == acc
            &&& matches_at(b, pos, ser_rest(t) + seq![93u8])
            &&& e == pos + ser_rest(t).len() + 1
        },
    decreases b.len() - pos,
{
    if pos < 0 || pos >= b.len() {
    } else if b[pos] == 93 {
        assert(acc.skip(acc.len() as int) =~= Seq::<Location>::empty());
        assert(acc.take(acc.len() as int) =~= acc);
        assert(b.subrange(pos, pos + 1) =~= seq![93u8]);
        assert(ser_rest(Seq::<Location>::empty()) + seq![93u8] =~= seq![93u8]);
    } else if b[pos] == 44 {
        match spec_parse_location(b, pos + 1) {
            Some((l, e1)) => if pos + 1 < e1 <= b.len() {
                lemma_parse_location_sound(b, pos + 1);
                lemma_parse_locs_rest_sound(b, e1, acc.push(l));
                match spec_parse_locs_rest(b, e1, acc.push(l)) {
                    Some((s, e)) => {
                        let k = acc.len() as int;
                        assert(s.take(k + 1) == acc.push(l));
                        assert forall|i: int| 0 <= i < k implies s[i] == acc[i] by {
                            assert(s.take(k + 1)[i] == acc.push(l)[i]);
                        }
                        assert(s.take(k) =~= acc);
                        assert(s[k] == s.take(k + 1)[k]);
                        assert(s[k] == l);
                        let t = s.skip(k);
                        assert(t.len() >= 1);
                        assert(t[0] == s[k]);
                        assert(t.drop_first() =~= s.skip(k + 1));
                        assert(ser_rest(t) == seq![44u8] + ser_location(l) + ser_rest(
                            s.skip(k + 1),
                        ));
                        assert(b.subrange(pos, pos + 1) =~= seq![44u8]);
                        lemma_matches_at_join(
                            b,
                            pos + 1,
                            ser_location(l),
                            ser_rest(s.skip(k + 1)) + seq![93u8],
                        );
                        lemma_matches_at_join(
                            b,
                            pos,
                            seq![44u8],
                            ser_location(l) + (ser_rest(s.skip(k + 1)) + seq![93u8]),
                        );
                        assert(seq![44u8] + (ser_location(l) + (ser_rest(s.skip(k + 1))
                            + seq![93u8])) =~= ser_rest(t) + seq![93u8]);
                    },
                    None => {},
                }
            },
            None => {},
        }
    }
}

/// A location list is only read where its encoding and the closing
/// bracket stand.
proof fn lemma_parse_locs_sound(b: Seq<u8>, pos: int)
    ensures
        spec_parse_locs(b, pos) matches Some((s, e)) ==> {
            &&& matches_at(b, pos, ser_loc_seq(s) + seq![93u8])
            &&& e == pos + ser_loc_seq(s).len() + 1
        },
{
    if pos < 0 || pos > b.len() {
    } else if pos < b.len() && b[pos] == 93 {
        assert(b.subrange(pos, pos + 1) =~= seq![93u8]);
        assert(ser_loc_seq(Seq::<Location>::empty()) + seq![93u8] =~= seq![93u8]);
    } else {
        match spec_parse_location(b, pos) {
            Some((l, e1)) => if pos < e1 <= b.len() {
                lemma_parse_location_sound(b, pos);
                lemma_parse_locs_rest_sound(b, e1, seq![l]);
                match spec_parse_locs_rest(b, e1, seq![l]) {
                    Some((s, e)) => {
                        assert(s.take(1) == seq![l]);
                        assert(s[0] == s.take(1)[0]);
                        assert(s[0] == l);
                        assert(s.skip(1) =~= s.drop_first());
                        assert(ser_loc_seq(s) == ser_location(l) + ser_rest(s.drop_first()));
                        lemma_matches_at_join(
                            b,
                            pos,
                            ser_location(l),
                            ser_rest(s.drop_first()) + seq![93u8],
                        );
                        assert(ser_location(l) + (ser_rest(s.drop_first()) + seq![93u8])
                            =~= ser_loc_seq(s) + seq![93u8]);
                    },
                    None => {},
                }
            },
            None => {},
        }
    }
}

/// A request is only read where its encoding stands.
#[verifier::rlimit(60)]
proof fn lemma_parse_request_sound(b: Seq<u8>, pos: int)
    ensures
        spec_parse_request(b, pos) matches Some((r, e)) ==> matches_at(b, pos, ser_request(r)) && e
            == pos + ser_request(r).len(),
{
    if matches_at(b, pos, tok_req_list()) {
    } else if matches_at(b, pos, tok_current()) {
    } else if matches_at(b, pos, tok_next()) {
    } else if matches_at(b, pos, tok_put_open()) {
        match spec_parse_location(b, pos + tok_put_open().len()) {
            Some((l, e1)) => {
                if matches_at(b, e1, seq![125u8]) {
                    lemma_parse_location_sound(b, pos + tok_put_open().len());
                    lemma_matches_at_join(b, pos + tok_put_open().len(), ser_location(l), seq![
                        125u8,
                    ]);
                    lemma_matches_at_join(b, pos, tok_put_open(), ser_location(l) + seq![125u8]);
                    assert(tok_put_open() + (ser_location(l) + seq![125u8]) =~= ser_request(
                        Request::Put(l),
                    ));
                }
            },
            None => {},
        }
    } else if matches_at(b, pos, tok_del_open()) {
        match spec_parse_location(b, pos + tok_del_open().len()) {
            Some((l, e1)) => {
                if matches_at(b, e1, seq![125u8]) {
                    lemma_parse_location_sound(b, pos + tok_del_open().len());
                    lemma_matches_at_join(b, pos + tok_del_open().len(), ser_location(l), seq![
                        125u8,
                    ]);
                    lemma_matches_at_join(b, pos, tok_del_open(), ser_location(l) + seq![125u8]);
                    assert(tok_del_open() + (ser_location(l) + seq![125u8]) =~= ser_request(
                        Request::Del(l),
                    ));
                }
            },
            None => {},
        }
    } else if matches_at(b, pos, tok_mov_open()) {
        match spec_parse_location(b, pos + tok_mov_open().len()) {
            Some((l, e1)) => {
                if matches_at(b, e1, seq![44u8]) {
                    match spec_parse_u32(b, e1 + 1) {
                        Some((n, e2)) => {
                            if matches_at(b, e2, seq![93u8, 125]) {
                                lemma_parse_location_sound(b, pos + tok_mov_open().len());
                                lemma_parse_u32_sound(b, e1 + 1);
                                lemma_matches_at_join(b, e1 + 1, ser_u32(n), seq![93u8, 125]);
                                lemma_matches_at_join(b, e1, seq![44u8], ser_u32(n) + seq![
                                    93u8,
                                    125,
                                ]);
                                lemma_matches_at_join(
                                    b,
                                    pos + tok_mov_open().len(),
                                    ser_location(l),
                                    seq![44u8] + (ser_u32(n) + seq![93u8, 125]),
                                );
                                lemma_matches_at_join(
                                    b,
                                    pos,
                                    tok_mov_open(),
                                    ser_location(l) + (seq![44u8] + (ser_u32(n) + seq![93u8, 125])),
                                );
                                assert(tok_mov_open() + (ser_location(l) + (seq![44u8] + (ser_u32(n)
                                    + seq![93u8, 125]))) =~= ser_request(Request::Mov(l, n)));
                            }
                        },
                        None => {},
                    }
                }
            },
            None => {},
        }
    }
}

/// A response is only read where its encoding stands.
proof fn lemma_parse_response_sound(b: Seq<u8>, pos: int)
    ensures
        spec_parse_response(b, pos) matches Some((r, e)) ==> matches_at(b, pos, ser_response(r))
            && e == pos + ser_response(r).len(),
{
    if matches_at(b, pos, tok_success()) {
    } else if matches_at(b, pos, tok_done()) {
    } else if matches_at(b, pos, tok_failure_open()) {
        match spec_parse_failure(b, pos + tok_failure_open().len()) {
            Some((f, e1)) => {
                if matches_at(b, e1, seq![125u8]) {
                    lemma_parse_failure_sound(b, pos + tok_failure_open().len());
                    lemma_matches_at_join(
                        b,
                        pos + tok_failure_open().len(),
                        ser_failure(f),
                        seq![125u8],
                    );
                    lemma_matches_at_join(b, pos, tok_failure_open(), ser_failure(f) + seq![125u8]);
                    assert(tok_failure_open() + (ser_failure(f) + seq![125u8]) =~= ser_response(
                        ResponseV::Failure(f),
                    ));
                }
            },
            None => {},
        }
    } else if matches_at(b, pos, tok_resp_list_open()) {
        match spec_parse_locs(b, pos + tok_resp_list_open().len()) {
            Some((s, e1)) => {
                if matches_at(b, e1, seq![125u8]) {
                    lemma_parse_locs_sound(b, pos + tok_resp_list_open().len());
                    lemma_matches_at_join(
                        b,
                        pos + tok_resp_list_open().len(),
                        ser_loc_seq(s) + seq![93u8],
                        seq![125u8],
                    );
                    lemma_matches_at_join(
                        b,
                        pos,
                        tok_resp_list_open(),
                        (ser_loc_seq(s) + seq![93u8]) + seq![125u8],
                    );
                    assert(tok_resp_list_open() + ((ser_loc_seq(s) + seq![93u8]) + seq![125u8])
                        =~= ser_response(ResponseV::List(s)));
                }
            },
            None => {},
        }
    } else if matches_at(b, pos, tok_where_open()) {
        match spec_parse_location(b, pos + tok_where_open().len()) {
            Some((l, e1)) => {
                if matches_at(b, e1, seq![125u8]) {
                    lemma_parse_location_sound(b, pos + tok_where_open().len());
                    lemma_matches_at_join(b, pos + tok_where_open().len(), ser_location(l), seq![
                        125u8,
                    ]);
                    lemma_matches_at_join(b, pos, tok_where_open(), ser_location(l) + seq![125u8]);
                    assert(tok_where_open() + (ser_location(l) + seq![125u8]) =~= ser_response(
                        ResponseV::Where(l),
                    ));
                }
            },
            None => {},
        }
    }
}

/// A payload is only read where its encoding stands.
proof fn lemma_parse_payload_sound(b: Seq<u8>, pos: int)
    ensures
        spec_parse_payload(b, pos) matches Some((p, e)) ==> matches_at(b, pos, ser_payload(p)) && e
            == pos + ser_payload(p).len(),
{
    if matches_at(b, pos, tok_request_open()) {
        match spec_parse_request(b, pos + tok_request_open().len()) {
            Some((r, e1)) => {
                if matches_at(b, e1, seq![125u8]) {
                    lemma_parse_request_sound(b, pos + tok_request_open().len());
                    lemma_matches_at_join(b, pos + tok_request_open().len(), ser_request(r), seq![
                        125u8,
                    ]);
                    lemma_matches_at_join(b, pos, tok_request_open(), ser_request(r) + seq![125u8]);
                    assert(tok_request_open() + (ser_request(r) + seq![125u8]) =~= ser_payload(
                        PayloadV::Request(r),
                    ));
                }
            },
            None => {},
        }
    } else if matches_at(b, pos, tok_response_open()) {
        match spec_parse_response(b, pos + tok_response_open().len()) {
            Some((r, e1)) => {
                if matches_at(b, e1, seq![125u8]) {
                    lemma_parse_response_sound(b, pos + tok_response_open().len());
                    lemma_matches_at_join(b, pos + tok_response_open().len(), ser_response(r), seq![
                        125u8,
                    ]);
                    lemma_matches_at_join(b, pos, tok_response_open(), ser_response(r) + seq![
                        125u8,
                    ]);
                    assert(tok_response_open() + (ser_response(r) + seq![125u8]) =~= ser_payload(
                        PayloadV::Response(r),
                    ));
                }
            },
            None => {},
        }
    }
}

/// A message is only read where its encoding stands.
proof fn lemma_parse_message_sound(b: Seq<u8>, pos: int)
    ensures
        spec_parse_message(b, pos) matches Some((m, e)) ==> matches_at(b, pos, ser_message(m)) && e
            == pos + ser_message(m).len(),
{
    if matches_at(b, pos, tok_msg_open()) {
        match spec_parse_payload(b, pos + tok_msg_open().len()) {
            Some((p, e1)) => {
                if matches_at(b, e1, seq![125u8]) {
                    lemma_parse_payload_sound(b, pos + tok_msg_open().len());
                    lemma_matches_at_join(b, pos + tok_msg_open().len(), ser_payload(p), seq![
                        125u8,
                    ]);
                    lemma_matches_at_join(b, pos, tok_msg_open(), ser_payload(p) + seq![125u8]);
                    assert(tok_msg_open() + (ser_payload(p) + seq![125u8]) =~= ser_message(
                        MessageV { data: p },
                    ));
                }
            },
            None => {},
        }
    }
}

/// The decoder accepts only canonical encodings: a body that decodes is
/// exactly the encoding of the message it decodes to. Together with
/// `lemma_decode_encode`, the frame body carries a bijection between
/// messages and the byte sequences the decoder accepts.
pub proof fn lemma_decode_sound(b: Seq<u8>)
    ensures
        spec_decode(b) matches Some(m) ==> b == ser_message(m),
{
    lemma_parse_message_sound(b, 0);
    match spec_decode(b) {
        Some(m) => {
            assert(matches_at(b, 0, ser_message(m)));
            assert(b.subrange(0, b.len() as int) =~= b);
        },
        None => {},
    }
}

/// Two distinct messages never share an encoding.
pub proof fn lemma_ser_message_injective(m1: MessageV, m2: MessageV)
    requires
        ser_message(m1) == ser_message(m2),
    ensures
        m1 == m2,
{
    lemma_decode_encode(m1);
    lemma_decode_encode(m2);
}

// ---------------------------------------------------------------------
// The executable decoder
// ---------------------------------------------------------------------

/// Whether the single byte `c` stands in `bytes` at `pos`.
fn match_byte(bytes: &[u8], pos: usize, c: u8) -> (r: bool)
    requires
        pos <= bytes@.len(),
    ensures
        r <==> matches_at(bytes@, pos as int, seq![c]),
        r ==> pos + 1 <= usize::MAX,
{
    if pos < bytes.len() && bytes[pos] == c {
        proof {
            assert(bytes@.subrange(pos as int, pos + 1) =~= seq![c]);
        }
        true
    } else {
        proof {
            if matches_at(bytes@, pos as int, seq![c]) {
                lemma_matches_at_index(bytes@, pos as int, seq![c], 0);
            }
        }
        false
    }
}

/// Read one location name, as `spec_parse_location` gives it.
fn parse_location(bytes: &[u8], pos: usize) -> (r: Option<(Location, usize)>)
    requires
        pos <= bytes@.len(),
    ensures
        match (r, spec_parse_location(bytes@, pos as int)) {
            (Some((l, e)), Some((l2, e2))) => l == l2 && e == e2 && pos < e <= bytes@.len(),
            (None, None) => true,
            _ => false,
        },
{
    let t = loc_token(Location::HOME);
    if match_lit(bytes, pos, t.as_slice()) {
        return Some((Location::HOME, pos + t.len()));
    }
    let t = loc_token(Location::CITY);
    if match_lit(bytes, pos, t.as_slice()) {
        return Some((Location::CITY, pos + t.len()));
    }
    let t = loc_token(Location::WOODS);
    if match_lit(bytes, pos, t.as_slice()) {
        return Some((Location::WOODS, pos + t.len()));
    }
    let t = loc_token(Location::BEACH);
    if match_lit(bytes, pos, t.as_slice()) {
        return Some((Location::BEACH, pos + t.len()));
    }
    let t = loc_token(Location::FIELD);
    if match_lit(bytes, pos, t.as_slice()) {
        return Some((Location::FIELD, pos + t.len()));
    }
    let t = loc_token(Location::CAFE);
    if match_lit(bytes, pos, t.as_slice()) {
        return Some((Location::CAFE, pos + t.len()));
    }
    let t = loc_token(Location::SHOP);
    if match_lit(bytes, pos, t.as_slice()) {
        return Some((Location::SHOP, pos + t.len()));
    }
    let t = loc_token(Location::CHURCH);
    if match_lit(bytes, pos, t.as_slice()) {
        return Some((Location::CHURCH, pos + t.len()));
    }
    None
}

/// Read one failure name, as `spec_parse_failure` gives it.
fn parse_failure(bytes: &[u8], pos: usize) -> (r: Option<(Failure, usize)>)
    requires
        pos <= bytes@.len(),
    ensures
        match (r, spec_parse_failure(bytes@, pos as int)) {
            (Some((f, e)), Some((f2, e2))) => f == f2 && e == e2 && pos < e <= bytes@.len(),
            (None, None) => true,
            _ => false,
        },
{
    let t = failure_token(Failure::InvalidRequest);
    if match_lit(bytes, pos, t.as_slice()) {
        return Some((Failure::InvalidRequest, pos + t.len()));
    }
    let t = failure_token(Failure::InvalidResponse);
    if match_lit(bytes, pos, t.as_slice()) {
        return Some((Failure::InvalidResponse, pos + t.len()));
    }
    let t = failure_token(Failure::LocationNotOnItinerary);
    if match_lit(bytes, pos, t.as_slice()) {
        return Some((Failure::LocationNotOnItinerary, pos + t.len()));
    }
    None
}

/// Read one number, as `spec_parse_u32` gives it.
fn parse_u32(bytes: &[u8], pos: usize) -> (r: Option<(u32, usize)>)
    requires
        pos <= bytes@.len(),
    ensures
        match (r, spec_parse_u32(bytes@, pos as int)) {
            (Some((v, e)), Some((v2, e2))) => v == v2 && e == e2 && pos < e <= bytes@.len(),
            (None, None) => true,
            _ => false,
        },
{
    let n = bytes.len();
    let mut e = pos;
    let mut acc: u64 = 0;
    proof {
        lemma_pow10_10();
        assert(bytes@.subrange(pos as int, pos as int) =~= Seq::<u8>::empty());
    }
    while e < n && 48 <= bytes[e] && bytes[e] <= 57
        invariant
            pos <= e <= n,
            n == bytes@.len(),
            e - pos <= 10,
            digit_run_end(bytes@, pos as int) == digit_run_end(bytes@, e as int),
            forall|i: int| pos <= i < e ==> is_digit(#[trigger] bytes@[i]),
            acc == val_of_digits(bytes@.subrange(pos as int, e as int)),
            acc < pow10((e - pos) as nat),
            pow10(9) == 1_000_000_000,
            pow10(10) == 10_000_000_000,
        decreases n - e,
    {
        if e - pos == 10 {
            // an eleventh digit: the run is too long for a length
            proof {
                assert(digit_run_end(bytes@, e as int) == digit_run_end(bytes@, e + 1));
                lemma_digit_run_end_bounds(bytes@, e + 1);
            }
            return None;
        }
        proof {
            assert(pow10(((e - pos) + 1) as nat) == 10 * pow10((e - pos) as nat));
            assert((e - pos) as nat <= 9);
            lemma_pow10_le((e - pos) as nat, 9);
        }
        acc = acc * 10 + ((bytes[e] - 48) as u64);
        proof {
            let sub1 = bytes@.subrange(pos as int, e + 1);
            assert(sub1.drop_last() =~= bytes@.subrange(pos as int, e as int));
            assert(sub1.last() == bytes@[e as int]);
            assert(digit_run_end(bytes@, e as int) == digit_run_end(bytes@, e + 1));
        }
        e = e + 1;
    }
    proof {
        assert(digit_run_end(bytes@, e as int) == e);
    }
    let count = e - pos;
    if count == 0 {
        return None;
    }
    if bytes[pos] == 48 && count > 1 {
        return None;
    }
    if acc > 0xffff_ffffu64 {
        return None;
    }
    Some((acc as u32, e))
}

/// `pow10` is monotone.
proof fn lemma_pow10_le(a: nat, k: nat)
    requires
        a <= k,
    ensures
        pow10(a) <= pow10(k),
        pow10(a) >= 1,
    decreases k,
{
    if k > 0 {
        if a == k {
            lemma_pow10_le((k - 1) as nat, (k - 1) as nat);
        } else {
            lemma_pow10_le(a, (k - 1) as nat);
        }
        assert(pow10(k) == 10 * pow10((k - 1) as nat));
    }
}

/// A digit run ends no earlier than it starts, and within the bytes.
proof fn lemma_digit_run_end_bounds(b: Seq<u8>, pos: int)
    requires
        0 <= pos <= b.len(),
    ensures
        pos <= digit_run_end(b, pos) <= b.len(),
    decreases b.len() - pos,
{
    if pos < b.len() && is_digit(b[pos]) {
        lemma_digit_run_end_bounds(b, pos + 1);
    }
}

/// Read a location list and its closing bracket, as `spec_parse_locs`
/// gives it.
fn parse_locs(bytes: &[u8], pos: usize) -> (r: Option<(Vec<Location>, usize)>)
    requires
        pos <= bytes@.len(),
    ensures
        match (r, spec_parse_locs(bytes@, pos as int)) {
            (Some((v, e)), Some((s2, e2))) => v@ == s2 && e == e2 && pos < e <= bytes@.len(),
            (None, None) => true,
            _ => false,
        },
{
    let n = bytes.len();
    if pos < n && bytes[pos] == 93 {
        return Some((Vec::new(), pos + 1));
    }
    let first = parse_location(bytes, pos);
    let (l0, start) = match first {
        Some(x) => x,
        None => {
            return None;
        },
    };
    let mut acc: Vec<Location> = Vec::new();
    acc.push(l0);
    let mut cur = start;
    proof {
        assert(acc@ =~= seq![l0]);
    }
    loop
        invariant
            pos < cur <= n,
            n == bytes@.len(),
            spec_parse_locs(bytes@, pos as int) == spec_parse_locs_rest(
                bytes@,
                cur as int,
                acc@,
            ),
        decreases n - cur,
    {
        if cur < n && bytes[cur] == 93 {
            return Some((acc, cur + 1));
        }
        if cur < n && bytes[cur] == 44 {
            match parse_location(bytes, cur + 1) {
                Some((l, e)) => {
                    acc.push(l);
                    cur = e;
                },
                None => {
                    return None;
                },
            }
        } else {
            return None;
        }
    }
}

/// Read one request, as `spec_parse_request` gives it.
fn parse_request(bytes: &[u8], pos: usize) -> (r: Option<(Request, usize)>)
    requires
        pos <= bytes@.len(),
    ensures
        match (r, spec_parse_request(bytes@, pos as int)) {
            (Some((q, e)), Some((q2, e2))) => q == q2 && e == e2 && pos < e <= bytes@.len(),
            (None, None) => true,
            _ => false,
        },
{
    let t: Vec<u8> = vec![34u8, 76, 105, 115, 116, 34];
    proof {
        assert(t@ =~= tok_req_list());
    }
    if match_lit(bytes, pos, t.as_slice()) {
        return Some((Request::List, pos + t.len()));
    }
    let t: Vec<u8> = vec![34u8, 67, 117, 114, 114, 101, 110, 116, 34];
    proof {
        assert(t@ =~= tok_current());
    }
    if match_lit(bytes, pos, t.as_slice()) {
        return Some((Request::Current, pos + t.len()));
    }
    let t: Vec<u8> = vec![34u8, 78, 101, 120, 116, 34];
    proof {
        assert(t@ =~= tok_next());
    }
    if match_lit(bytes, pos, t.as_slice()) {
        return Some((Request::Next, pos + t.len()));
    }
    let t: Vec<u8> = vec![123u8, 34, 80, 117, 116, 34, 58];
    proof {
        assert(t@ =~= tok_put_open());
    }
    if match_lit(bytes, pos, t.as_slice()) {
        return match parse_location(bytes, pos + t.len()) {
            Some((l, e)) => {
                if match_byte(bytes, e, 125) {
                    Some((Request::Put(l), e + 1))
                } else {
                    None
                }
            },
            None => None,
        };
    }
    let t: Vec<u8> = vec![123u8, 34, 68, 101, 108, 34, 58];
    proof {
        assert(t@ =~= tok_del_open());
    }
    if match_lit(bytes, pos, t.as_slice()) {
        return match parse_location(bytes, pos + t.len()) {
            Some((l, e)) => {
                if match_byte(bytes, e, 125) {
                    Some((Request::Del(l), e + 1))
                } else {
                    None
                }
            },
            None => None,
        };
    }
    let t: Vec<u8> = vec![123u8, 34, 77, 111, 118, 34, 58, 91];
    proof {
        assert(t@ =~= tok_mov_open());
    }
    if match_lit(bytes, pos, t.as_slice()) {
        return match parse_location(bytes, pos + t.len()) {
            Some((l, e)) => {
                if match_byte(bytes, e, 44) {
                    match parse_u32(bytes, e + 1) {
                        Some((v, e2)) => {
                            let close: Vec<u8> = vec![93u8, 125];
                            proof {
                                assert(close@ =~= seq![93u8, 125]);
                            }
                            if match_lit(bytes, e2, close.as_slice()) {
                                Some((Request::Mov(l, v), e2 + 2))
                            } else {
                                None
                            }
                        },
                        None => None,
                    }
                } else {
                    None
                }
            },
            None => None,
        };
    }
    None
}

/// Read one response, as `spec_parse_response` gives it.
fn parse_response(bytes: &[u8], pos: usize) -> (r: Option<(Response, usize)>)
    requires
        pos <= bytes@.len(),
    ensures
        match (r, spec_parse_response(bytes@, pos as int)) {
            (Some((q, e)), Some((q2, e2))) => q@ == q2 && e == e2 && pos < e <= bytes@.len(),
            (None, None) => true,
            _ => false,
        },
{
    let t: Vec<u8> = vec![34u8, 83, 117, 99, 99, 101, 115, 115, 34];
    proof {
        assert(t@ =~= tok_success());
    }
    if match_lit(bytes, pos, t.as_slice()) {
        return Some((Response::Success, pos + t.len()));
    }
    let t: Vec<u8> = vec![34u8, 68, 111, 110, 101, 34];
    proof {
        assert(t@ =~= tok_done());
    }
    if match_lit(bytes, pos, t.as_slice()) {
        return Some((Response::Done, pos + t.len()));
    }
    let t: Vec<u8> = vec![123u8, 34, 70, 97, 105, 108, 117, 114, 101, 34, 58];
    proof {
        assert(t@ =~= tok_failure_open());
    }
    if match_lit(bytes, pos, t.as_slice()) {
        return match parse_failure(bytes, pos + t.len()) {
            Some((f, e)) => {
                if match_byte(bytes, e, 125) {
                    Some((Response::Failure(f), e + 1))
                } else {
                    None
                }
            },
            None => None,
        };
    }
    let t: Vec<u8> = vec![123u8, 34, 76, 105, 115, 116, 34, 58, 91];
    proof {
        assert(t@ =~= tok_resp_list_open());
    }
    if match_lit(bytes, pos, t.as_slice()) {
        return match parse_locs(bytes, pos + t.len()) {
            Some((v, e)) => {
                if match_byte(bytes, e, 125) {
                    Some((Response::List(v), e + 1))
                } else {
                    None
                }
            },
            None => None,
        };
    }
    let t: Vec<u8> = vec![123u8, 34, 87, 104, 101, 114, 101, 34, 58];
    proof {
        assert(t@ =~= tok_where_open());
    }
    if match_lit(bytes, pos, t.as_slice()) {
        return match parse_location(bytes, pos + t.len()) {
            Some((l, e)) => {
                if match_byte(bytes, e, 125) {
                    Some((Response::Where(l), e + 1))
                } else {
                    None
                }
            },
            None => None,
        };
    }
    None
}

/// Read one payload, as `spec_parse_payload` gives it.
fn parse_payload(bytes: &[u8], pos: usize) -> (r: Option<(Payload, usize)>)
    requires
        pos <= bytes@.len(),
    ensures
        match (r, spec_parse_payload(bytes@, pos as int)) {
            (Some((q, e)), Some((q2, e2))) => q@ == q2 && e == e2 && pos < e <= bytes@.len(),
            (None, None) => true,
            _ => false,
        },
{
    let t: Vec<u8> = vec![123u8, 34, 82, 101, 113, 117, 101, 115, 116, 34, 58];
    proof {
        assert(t@ =~= tok_request_open());
    }
    if match_lit(bytes, pos, t.as_slice()) {
        return match parse_request(bytes, pos + t.len()) {
            Some((q, e)) => {
                if match_byte(bytes, e, 125) {
                    Some((Payload::Request(q), e + 1))
                } else {
                    None
                }
            },
            None => None,
        };
    }
    let t: Vec<u8> = vec![123u8, 34, 82, 101, 115, 112, 111, 110, 115, 101, 34, 58];
    proof {
        assert(t@ =~= tok_response_open());
    }
    if match_lit(bytes, pos, t.as_slice()) {
        return match parse_response(bytes, pos + t.len()) {
            Some((q, e)) => {
                if match_byte(bytes, e, 125) {
                    Some((Payload::Response(q), e + 1))
                } else {
                    None
                }
            },
            None => None,
        };
    }
    None
}

/// Read one whole message, as `spec_parse_message` gives it.
fn parse_message(bytes: &[u8], pos: usize) -> (r: Option<(Message, usize)>)
    requires
        pos <= bytes@.len(),
    ensures
        match (r, spec_parse_message(bytes@, pos as int)) {
            (Some((m, e)), Some((m2, e2))) => m@ == m2 && m.header_empty() && e == e2 && pos < e
                <= bytes@.len(),
            (None, None) => true,
            _ => false,
        },
{
    let t = msg_open_v();
    if match_lit(bytes, pos, t.as_slice()) {
        return match parse_payload(bytes, pos + t.len()) {
            Some((p, e)) => {
                if match_byte(bytes, e, 125) {
                    Some((Message::new(p), e + 1))
                } else {
                    None
                }
            },
            None => None,
        };
    }
    None
}

/// Deserialize one frame body. Returns the message whose encoding the
/// bytes are, exactly as `spec_decode` gives it, and a parse error on
/// every byte sequence that encodes no message.
pub fn decode_body(bytes: &[u8]) -> (r: Result<Message, Error>)
    ensures
        spec_decode(bytes@) matches Some(mv) ==> r matches Ok(m) && m@ == mv && m.header_empty(),
        spec_decode(bytes@) is None ==> r == Err::<Message, Error>(Error::Parse),
{
    match parse_message(bytes, 0) {
        Some((m, e)) => {
            if e == bytes.len() {
                Ok(m)
            } else {
                Err(Error::Parse)
            }
        },
        None => Err(Error::Parse),
    }
}

/// What a reader can conclude from the bytes it has received so far on
/// one connection.
#[derive(Debug)]
pub enum FrameStatus {
    /// Fewer than `4 + N` bytes have arrived and the connection is
    /// still open: no message yet, wait for more bytes.
    NeedMore,
    /// The connection closed before the length prefix or the body was
    /// complete: a transport failure, never a parse failure.
    Truncated,
    /// The frame is complete but its body encodes no message.
    Malformed,
    /// One complete frame: the message it carries and how many bytes of
    /// the buffer it used.
    Frame(Message, usize),
}

/// Read one frame from the bytes received so far. `closed` says whether
/// the peer has closed the connection after these bytes.
///
/// With fewer than the `4 + N` bytes the prefix announces and the
/// connection open, the result is `NeedMore`: a partial frame never
/// decodes to a message. With the connection closed before those bytes
/// arrived, the result is `Truncated` — a transport failure, never a
/// parse failure.
pub fn try_decode(buf: &[u8], closed: bool) -> (r: FrameStatus)
    ensures
        buf@.len() < 4 && !closed ==> r == FrameStatus::NeedMore,
        buf@.len() < 4 && closed ==> r == FrameStatus::Truncated,
        buf@.len() >= 4 ==> {
            let n = be32_val(buf@.subrange(0, 4));
            &&& (buf@.len() < 4 + n && !closed ==> r == FrameStatus::NeedMore)
            &&& (buf@.len() < 4 + n && closed ==> r == FrameStatus::Truncated)
            &&& (buf@.len() >= 4 + n ==> {
                let body = buf@.subrange(4, 4 + n);
                &&& (spec_decode(body) matches Some(mv) ==> r matches FrameStatus::Frame(m, c)
                    && m@ == mv && m.header_empty() && c == 4 + n)
                &&& (spec_decode(body) is None ==> r == FrameStatus::Malformed)
            })
        },
{
    if buf.len() < 4 {
        if closed {
            return FrameStatus::Truncated;
        } else {
            return FrameStatus::NeedMore;
        }
    }
    let prefix = vstd::slice::slice_subrange(buf, 0, 4);
    let n = u32_from_be4(prefix);
    let rest = buf.len() - 4;
    if (rest as u64) < (n as u64) {
        if closed {
            return FrameStatus::Truncated;
        } else {
            return FrameStatus::NeedMore;
        }
    }
    let end = 4 + (n as usize);
    let body = vstd::slice::slice_subrange(buf, 4, end);
    match decode_body(body) {
        Ok(m) => FrameStatus::Frame(m, end),
        Err(_) => FrameStatus::Malformed,
    }
}

} // verus!
