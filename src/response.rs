//! Encoding the response datagram.

use vstd::prelude::*;
use crate::address::{dotted_quad, ipv4_octets, lemma_dotted_quad_octets, parse_ipv4};
use crate::flags::response_flags_word;
use crate::query::{scan_name, HEADER_LEN};
use vstd::string::StringSliceAdditionalSpecFns;

verus! {

/// Time to live of every answer, in seconds.
pub const ANSWER_TTL: u32 = 300;

/// Record type A: an IPv4 address.
pub const TYPE_A: u16 = 1;

/// Record class IN: the Internet.
pub const CLASS_IN: u16 = 1;

/// A compression pointer to the question name at offset 12.
pub const NAME_POINTER: u16 = 0xc00c;

/// The big-endian bytes of a 16-bit value.
pub open spec fn be16_bytes(x: u16) -> Seq<u8> {
    seq![(x / 256) as u8, (x % 256) as u8]
}

/// The big-endian bytes of a 32-bit value.
pub open spec fn be32_bytes(x: u32) -> Seq<u8> {
    seq![(x / 0x100_0000) as u8, (x / 0x1_0000 % 256) as u8, (x / 256 % 256) as u8, (x % 256) as u8]
}

/// Offset just past a query's question section (its name, then type and
/// class), or `None` when the name is malformed or the four type and class
/// bytes are missing.
pub open spec fn question_end(q: Seq<u8>) -> Option<int> {
    match scan_name(q, HEADER_LEN as int) {
        Some((e, _)) => if e + 4 <= q.len() {
            Some(e + 4)
        } else {
            None
        },
        None => None,
    }
}

/// The response header: the query's ID, the response flags, the query's
/// question count, one answer, no authority or additional records.
pub open spec fn response_header(q: Seq<u8>) -> Seq<u8> {
    q.subrange(0, 2) + be16_bytes(0x8180) + q.subrange(4, 6) + be16_bytes(1) + be16_bytes(0)
        + be16_bytes(0)
}

/// The answer record: a pointer to the question name, type A, class IN,
/// the TTL, the data length 4 and the address octets.
pub open spec fn answer_record(octets: Seq<u8>) -> Seq<u8> {
    be16_bytes(NAME_POINTER) + be16_bytes(TYPE_A) + be16_bytes(CLASS_IN) + be32_bytes(ANSWER_TTL)
        + be16_bytes(4) + octets
}

/// The response to query `q` that answers with address text `ip`, or `None`
/// when the question section cannot be delimited or `ip` is no dotted quad.
pub open spec fn response_bytes(q: Seq<u8>, ip: Seq<u8>) -> Option<Seq<u8>> {
    match (question_end(q), ipv4_octets(ip)) {
        (Some(qe), Some(octets)) => Some(
            response_header(q) + q.subrange(HEADER_LEN as int, qe) + answer_record(octets),
        ),
        _ => None,
    }
}

/// A response keeps the query's transaction ID: its first two bytes.
pub proof fn lemma_response_keeps_id(q: Seq<u8>, ip: Seq<u8>)
    ensures
        response_bytes(q, ip) matches Some(r) ==> r.len() >= 2 && r.subrange(0, 2) == q.subrange(0, 2),
{
    crate::query::lemma_scan_bounds(q, HEADER_LEN as int);
    if let Some(r) = response_bytes(q, ip) {
        assert(r.subrange(0, 2) =~= q.subrange(0, 2));
    }
}

/// A response holds the query's question section, from offset 12 to the
/// end of the type and class, byte for byte at the same offsets.
pub proof fn lemma_response_echoes_question(q: Seq<u8>, ip: Seq<u8>)
    ensures
        response_bytes(q, ip) matches Some(r) ==> question_end(q) matches Some(qe) && qe <= r.len()
            && r.subrange(HEADER_LEN as int, qe) == q.subrange(HEADER_LEN as int, qe),
{
    crate::query::lemma_scan_bounds(q, HEADER_LEN as int);
    if let Some(r) = response_bytes(q, ip) {
        let qe = question_end(q).unwrap();
        assert(response_header(q).len() == 12);
        assert(r.subrange(HEADER_LEN as int, qe) =~= q.subrange(HEADER_LEN as int, qe));
    }
}

/// Answering a query whose question section can be delimited with the
/// dotted-quad text of four octets always succeeds, and the answer's last
/// four bytes are those octets.
pub proof fn lemma_answer_round_trip(q: Seq<u8>, a: u8, b: u8, c: u8, d: u8)
    requires
        question_end(q).is_some(),
    ensures
        response_bytes(q, dotted_quad(a, b, c, d)) matches Some(r) && r.len() >= 4 && r.subrange(
            r.len() - 4,
            r.len() as int,
        ) == seq![a, b, c, d],
{
    lemma_dotted_quad_octets(a, b, c, d);
    let r = response_bytes(q, dotted_quad(a, b, c, d)).unwrap();
    let head = response_header(q) + q.subrange(HEADER_LEN as int, question_end(q).unwrap());
    assert(r == head + answer_record(seq![a, b, c, d]));
    assert(r.subrange(r.len() - 4, r.len() as int) =~= seq![a, b, c, d]);
}

/// The end offset of a scan result.
pub open spec fn name_end(s: Option<(int, Seq<Seq<u8>>)>) -> Option<int> {
    match s {
        Some((e, _)) => Some(e),
        None => None,
    }
}

/// Finds the end of the question section by walking the length-prefixed
/// labels from offset 12.
pub fn question_section_end(query: &[u8]) -> (r: Option<usize>)
    ensures
        match r {
            Some(e) => question_end(query@) == Some(e as int),
            None => question_end(query@).is_none(),
        },
{
    let len = query.len();
    let mut qe: usize = HEADER_LEN;
    while qe < len && query[qe] != 0
        invariant
            len == query@.len(),
            qe >= HEADER_LEN,
            name_end(scan_name(query@, qe as int)) == name_end(
                scan_name(query@, HEADER_LEN as int),
            ),
        decreases len - qe,
    {
        let l = query[qe] as usize;
        if l > len - qe - 1 {
            return None;
        }
        qe = qe + 1 + l;
    }
    if qe >= len {
        return None;
    }
    qe = qe + 1;
    if len - qe < 4 {
        return None;
    }
    Some(qe + 4)
}

fn push_be16(out: &mut Vec<u8>, x: u16)
    ensures
        final(out)@ == old(out)@ + be16_bytes(x),
{
    out.push((x / 256) as u8);
    out.push((x % 256) as u8);
    assert(final(out)@ =~= old(out)@ + be16_bytes(x));
}

fn push_be32(out: &mut Vec<u8>, x: u32)
    ensures
        final(out)@ == old(out)@ + be32_bytes(x),
{
    out.push((x / 0x100_0000) as u8);
    out.push((x / 0x1_0000 % 256) as u8);
    out.push((x / 256 % 256) as u8);
    out.push((x % 256) as u8);
    assert(final(out)@ =~= old(out)@ + be32_bytes(x));
}

fn push_range(out: &mut Vec<u8>, src: &[u8], lo: usize, hi: usize)
    requires
        lo <= hi <= src@.len(),
    ensures
        final(out)@ == old(out)@ + src@.subrange(lo as int, hi as int),
{
    let mut i: usize = lo;
    while i < hi
        invariant
            lo <= i <= hi <= src@.len(),
            out@ == old(out)@ + src@.subrange(lo as int, i as int),
        decreases hi - i,
    {
        out.push(src[i]);
        assert(src@.subrange(lo as int, i + 1) =~= src@.subrange(lo as int, i as int).push(
            src@[i as int],
        ));
        assert(out@ =~= old(out)@ + src@.subrange(lo as int, i + 1));
        i = i + 1;
    }
}

/// Builds the response to `query` that answers with the address
/// `ip_address`: the query's ID and question count, the response flags,
/// the question section copied byte for byte, and one A/IN answer with TTL
/// 300 holding the four octets of the address. `None` when the question
/// section cannot be delimited or the address is no dotted quad of 8-bit
/// decimal octets.
pub fn create_response_packet(query: &[u8], _domain: &str, ip_address: &str) -> (r: Option<
    Vec<u8>,
>)
    ensures
        match r {
            Some(v) => response_bytes(query@, ip_address.spec_bytes()) == Some(v@),
            None => response_bytes(query@, ip_address.spec_bytes()).is_none(),
        },
{
    let qe = match question_section_end(query) {
        Some(e) => e,
        None => return None,
    };
    let octets = match parse_ipv4(ip_address.as_bytes()) {
        Some(o) => o,
        None => return None,
    };
    proof {
        crate::query::lemma_scan_bounds(query@, HEADER_LEN as int);
    }
    let mut response: Vec<u8> = Vec::new();
    push_range(&mut response, query, 0, 2);
    push_be16(&mut response, response_flags_word());
    push_range(&mut response, query, 4, 6);
    push_be16(&mut response, 1);
    push_be16(&mut response, 0);
    push_be16(&mut response, 0);
    push_range(&mut response, query, HEADER_LEN, qe);
    push_be16(&mut response, NAME_POINTER);
    push_be16(&mut response, TYPE_A);
    push_be16(&mut response, CLASS_IN);
    push_be32(&mut response, ANSWER_TTL);
    push_be16(&mut response, 4);
    push_range(&mut response, octets.as_slice(), 0, 4);
    proof {
        assert(octets@.subrange(0, 4) =~= octets@);
        assert(response@ =~= response_header(query@) + query@.subrange(HEADER_LEN as int, qe as int)
            + answer_record(octets@));
    }
    Some(response)
}

} // verus!
