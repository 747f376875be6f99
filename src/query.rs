//! Reading the question out of a query datagram.

use vstd::prelude::*;
use vstd::utf8::{decode_utf8, valid_utf8};

verus! {

/// Offset of the question section: the header is twelve bytes.
pub const HEADER_LEN: usize = 12;

/// The 16-bit big-endian value of two bytes.
pub open spec fn be16(hi: u8, lo: u8) -> int {
    hi as int * 256 + lo as int
}

/// Scans a length-prefixed name that starts at offset `i`: the offset just
/// past its zero terminator and its labels, or `None` when a label runs past
/// the end of `q` or the terminator is missing.
pub open spec fn scan_name(q: Seq<u8>, i: int) -> Option<(int, Seq<Seq<u8>>)>
    decreases q.len() - i,
{
    if i < 0 || i >= q.len() {
        None
    } else if q[i] == 0 {
        Some((i + 1, Seq::empty()))
    } else if i + 1 + q[i] > q.len() {
        None
    } else {
        match scan_name(q, i + 1 + q[i]) {
            Some((e, rest)) => Some((e, seq![q.subrange(i + 1, i + 1 + q[i])] + rest)),
            None => None,
        }
    }
}

/// A name that scans ends after its start and within the buffer, and each
/// of its labels is non-empty.
pub proof fn lemma_scan_bounds(q: Seq<u8>, i: int)
    ensures
        scan_name(q, i) matches Some((e, ls)) ==> i < e <= q.len() && forall|k: int|
            0 <= k < ls.len() ==> (#[trigger] ls[k]).len() > 0,
    decreases q.len() - i,
{
    if 0 <= i < q.len() && q[i] != 0 && i + 1 + q[i] <= q.len() {
        lemma_scan_bounds(q, i + 1 + q[i]);
        if let Some((e, rest)) = scan_name(q, i + 1 + q[i]) {
            let ls = seq![q.subrange(i + 1, i + 1 + q[i])] + rest;
            assert forall|k: int| 0 <= k < ls.len() implies (#[trigger] ls[k]).len() > 0 by {
                if k > 0 {
                    assert(ls[k] == rest[k - 1]);
                }
            }
        }
    }
}

/// Labels joined by dots.
pub open spec fn join_labels(ls: Seq<Seq<u8>>) -> Seq<u8>
    decreases ls.len(),
{
    if ls.len() == 0 {
        Seq::empty()
    } else if ls.len() == 1 {
        ls[0]
    } else {
        ls[0] + seq![46u8] + join_labels(ls.drop_first())
    }
}

/// The dotted name that a query asks an A/IN question about, as bytes, or
/// `None` when the name is malformed, the type and class bytes are missing,
/// or the question is not of type 1 and class 1.
pub open spec fn question_name(q: Seq<u8>) -> Option<Seq<u8>> {
    match scan_name(q, HEADER_LEN as int) {
        Some((e, ls)) => if e + 4 <= q.len() && be16(q[e], q[e + 1]) == 1 && be16(q[e + 2], q[e + 3])
            == 1 {
            Some(join_labels(ls))
        } else {
            None
        },
        None => None,
    }
}

/// The domain a query asks about, decoded from UTF-8.
pub open spec fn query_domain(q: Seq<u8>) -> Option<Seq<char>> {
    match question_name(q) {
        Some(n) => if valid_utf8(n) {
            Some(decode_utf8(n))
        } else {
            None
        },
        None => None,
    }
}

/// The wire form of a name: each label after its length byte, then a zero.
pub open spec fn encode_name(ls: Seq<Seq<u8>>) -> Seq<u8>
    decreases ls.len(),
{
    if ls.len() == 0 {
        seq![0u8]
    } else {
        seq![ls[0].len() as u8] + ls[0] + encode_name(ls.drop_first())
    }
}

/// Labels that a length byte can prefix: one to 63 bytes each.
pub open spec fn valid_labels(ls: Seq<Seq<u8>>) -> bool {
    forall|k: int| 0 <= k < ls.len() ==> 1 <= (#[trigger] ls[k]).len() <= 63
}

/// An encoded name scans back to its labels, whatever precedes or follows it.
pub proof fn lemma_scan_encoded(pre: Seq<u8>, ls: Seq<Seq<u8>>, rest: Seq<u8>)
    requires
        valid_labels(ls),
    ensures
        scan_name(pre + encode_name(ls) + rest, pre.len() as int) == Some(
            ((pre.len() + encode_name(ls).len()) as int, ls),
        ),
    decreases ls.len(),
{
    let q = pre + encode_name(ls) + rest;
    let i = pre.len() as int;
    if ls.len() == 0 {
        assert(q[i] == 0);
    } else {
        let l = ls[0];
        let pre2 = pre + seq![l.len() as u8] + l;
        let tail = ls.drop_first();
        assert(valid_labels(tail)) by {
            assert forall|k: int| 0 <= k < tail.len() implies 1 <= (#[trigger] tail[k]).len()
                <= 63 by {
                assert(tail[k] == ls[k + 1]);
            }
        }
        lemma_scan_encoded(pre2, tail, rest);
        assert(pre2 + encode_name(tail) + rest =~= q);
        assert(q[i] == l.len() as u8);
        assert(q.subrange(i + 1, i + 1 + l.len()) =~= l);
        assert(seq![l] + tail =~= ls);
    }
}

/// A query made of a 12-byte header, a well-formed name, type A and class
/// IN (bytes 0 1 0 1) and anything after that asks about exactly the name's
/// labels joined by dots; and when those are UTF-8, the parsed domain is
/// their decoding.
pub proof fn lemma_well_formed_query(header: Seq<u8>, ls: Seq<Seq<u8>>, trailer: Seq<u8>)
    requires
        header.len() == HEADER_LEN,
        valid_labels(ls),
    ensures
        question_name(header + encode_name(ls) + seq![0u8, 1u8, 0u8, 1u8] + trailer) == Some(
            join_labels(ls),
        ),
        valid_utf8(join_labels(ls)) ==> query_domain(
            header + encode_name(ls) + seq![0u8, 1u8, 0u8, 1u8] + trailer,
        ) == Some(decode_utf8(join_labels(ls))),
{
    let q = header + encode_name(ls) + seq![0u8, 1u8, 0u8, 1u8] + trailer;
    lemma_scan_encoded(header, ls, seq![0u8, 1u8, 0u8, 1u8] + trailer);
    assert(header + encode_name(ls) + (seq![0u8, 1u8, 0u8, 1u8] + trailer) =~= q);
    let e = (header.len() + encode_name(ls).len()) as int;
    assert(q[e] == 0 && q[e + 1] == 1 && q[e + 2] == 0 && q[e + 3] == 1);
}

/// A query whose question has a type other than A or a class other than
/// IN asks nothing that is answered.
pub proof fn lemma_other_question_rejected(
    header: Seq<u8>,
    ls: Seq<Seq<u8>>,
    qtype: Seq<u8>,
    qclass: Seq<u8>,
    trailer: Seq<u8>,
)
    requires
        header.len() == HEADER_LEN,
        valid_labels(ls),
        qtype.len() == 2,
        qclass.len() == 2,
        be16(qtype[0], qtype[1]) != 1 || be16(qclass[0], qclass[1]) != 1,
    ensures
        question_name(header + encode_name(ls) + qtype + qclass + trailer).is_none(),
        query_domain(header + encode_name(ls) + qtype + qclass + trailer).is_none(),
{
    let q = header + encode_name(ls) + qtype + qclass + trailer;
    lemma_scan_encoded(header, ls, qtype + qclass + trailer);
    assert(header + encode_name(ls) + (qtype + qclass + trailer) =~= q);
    let e = (header.len() + encode_name(ls).len()) as int;
    assert(q[e] == qtype[0] && q[e + 1] == qtype[1] && q[e + 2] == qclass[0] && q[e + 3]
        == qclass[1]);
}

/// A query that ends before the four type and class bytes are complete
/// asks nothing that is answered.
pub proof fn lemma_truncated_question_rejected(header: Seq<u8>, ls: Seq<Seq<u8>>, partial: Seq<u8>)
    requires
        header.len() == HEADER_LEN,
        valid_labels(ls),
        partial.len() < 4,
    ensures
        question_name(header + encode_name(ls) + partial).is_none(),
        query_domain(header + encode_name(ls) + partial).is_none(),
{
    lemma_scan_encoded(header, ls, partial);
}

proof fn lemma_join_push(ls: Seq<Seq<u8>>, l: Seq<u8>)
    ensures
        join_labels(ls.push(l)) == if ls.len() == 0 {
            l
        } else {
            join_labels(ls) + seq![46u8] + l
        },
    decreases ls.len(),
{
    if ls.len() >= 1 {
        assert(ls.push(l).drop_first() =~= ls.drop_first().push(l));
        lemma_join_push(ls.drop_first(), l);
        if ls.len() >= 2 {
            assert(join_labels(ls) == ls[0] + seq![46u8] + join_labels(ls.drop_first()));
            assert(join_labels(ls.push(l)) =~= join_labels(ls) + seq![46u8] + l);
        } else {
            assert(ls.drop_first().len() == 0);
            assert(join_labels(ls.push(l)) =~= join_labels(ls) + seq![46u8] + l);
        }
    }
}

/// A scan result with the labels `done` put before its own.
pub open spec fn with_prefix(done: Seq<Seq<u8>>, s: Option<(int, Seq<Seq<u8>>)>) -> Option<(int, Seq<Seq<u8>>)> {
    match s {
        Some((e, rest)) => Some((e, done + rest)),
        None => None,
    }
}

/// The dotted name of a query's A/IN question, as the raw label bytes joined
/// by `.`; `None` exactly when the query holds no such question.
pub fn parse_question(query: &[u8]) -> (r: Option<Vec<u8>>)
    ensures
        match r {
            Some(n) => question_name(query@) == Some(n@),
            None => question_name(query@).is_none(),
        },
{
    let len = query.len();
    let mut index: usize = HEADER_LEN;
    let mut name: Vec<u8> = Vec::new();
    let ghost mut done: Seq<Seq<u8>> = Seq::empty();
    let mut terminated = false;
    let mut have_label = false;
    while !terminated && index < len
        invariant
            have_label == (done.len() > 0),
            len == query@.len(),
            index >= HEADER_LEN,
            name@ == join_labels(done),
            !terminated ==> with_prefix(done, scan_name(query@, index as int)) == scan_name(
                query@,
                HEADER_LEN as int,
            ),
            terminated ==> scan_name(query@, HEADER_LEN as int) == Some((index as int, done)),
            terminated ==> index <= len,
        decreases len - index,
    {
        let length = query[index] as usize;
        proof {
            assert(done + Seq::<Seq<u8>>::empty() =~= done);
        }
        if length == 0 {
            index = index + 1;
            terminated = true;
        } else {
            if length > len - index - 1 {
                return None;
            }
            let start = index + 1;
            let ghost label = query@.subrange(start as int, start + length);
            proof {
                lemma_join_push(done, label);
                match scan_name(query@, start + length) {
                    Some((e, rest)) => {
                        assert(done + (seq![label] + rest) =~= done.push(label) + rest);
                    },
                    None => {},
                }
            }
            if have_label {
                name.push(46u8);
            }
            let mut j: usize = start;
            while j < start + length
                invariant
                    start <= j <= start + length <= len,
                    len == query@.len(),
                    name@ == (if done.len() == 0 {
                        Seq::<u8>::empty()
                    } else {
                        join_labels(done) + seq![46u8]
                    }) + query@.subrange(start as int, j as int),
                decreases start + length - j,
            {
                name.push(query[j]);
                proof {
                    assert(query@.subrange(start as int, j + 1) =~= query@.subrange(
                        start as int,
                        j as int,
                    ).push(query@[j as int]));
                }
                j = j + 1;
            }
            proof {
                if done.len() == 0 {
                    assert(name@ =~= label);
                } else {
                    assert(name@ =~= join_labels(done) + seq![46u8] + label);
                }
                done = done.push(label);
            }
            have_label = true;
            index = start + length;
        }
    }
    if !terminated {
        assert(scan_name(query@, index as int).is_none());
        return None;
    }
    if index > len || len - index < 4 {
        return None;
    }
    let qtype = (query[index] as u16) * 256 + query[index + 1] as u16;
    let qclass = (query[index + 2] as u16) * 256 + query[index + 3] as u16;
    if qtype == 1 && qclass == 1 {
        Some(name)
    } else {
        None
    }
}

/// Relies on `String::from_utf8`: it succeeds exactly on valid UTF-8 and
/// then holds the decoded characters.
#[verifier::external_body]
fn string_from_utf8(bytes: Vec<u8>) -> (r: Option<String>)
    ensures
        match r {
            Some(s) => valid_utf8(bytes@) && s@ == decode_utf8(bytes@),
            None => !valid_utf8(bytes@),
        },
{
    String::from_utf8(bytes).ok()
}

/// The domain name a query asks an A/IN question about, its labels decoded
/// from UTF-8 and joined by `.`; `None` when the query is malformed or
/// truncated, a label is not UTF-8, or the question is not of type A and
/// class IN.
pub fn parse_query_domain(query: &[u8]) -> (r: Option<String>)
    ensures
        match r {
            Some(s) => query_domain(query@) == Some(s@),
            None => query_domain(query@).is_none(),
        },
{
    match parse_question(query) {
        Some(name) => string_from_utf8(name),
        None => None,
    }
}

} // verus!
