//! What the server does with one received datagram.

use vstd::prelude::*;
use vstd::utf8::encode_utf8;
use crate::query::{parse_query_domain, query_domain};
use crate::response::{create_response_packet, response_bytes};
use crate::table::{lemma_resolution_total, resolve, resolved_address};
use crate::response::question_end;

verus! {

/// The decision for one datagram.
pub enum Outcome {
    /// Send `packet` back to the sender; the query asked about `domain`.
    Reply { domain: String, packet: Vec<u8> },
    /// The datagram holds no A/IN question that can be read: drop it.
    Unparsed,
    /// The address for `domain` could not be encoded: drop the datagram.
    Unencodable { domain: String },
}

/// The response owed to a query: for its A/IN question, the packet that
/// answers with the resolved address.
pub open spec fn reply_for(q: Seq<u8>, d: Seq<char>) -> Option<Seq<u8>> {
    response_bytes(q, encode_utf8(resolved_address(d)))
}

/// Every query with an A/IN question that parses gets a reply: the
/// resolved address always encodes.
pub proof fn lemma_parsed_query_answered(q: Seq<u8>)
    ensures
        query_domain(q) matches Some(d) ==> reply_for(q, d).is_some(),
{
    if let Some(d) = query_domain(q) {
        lemma_resolution_total(d);
        assert(question_end(q).is_some());
    }
}

/// Parses the question, resolves its name and builds the reply.
pub fn handle_query(query: &[u8]) -> (r: Outcome)
    ensures
        match r {
            Outcome::Reply { domain, packet } => query_domain(query@) == Some(domain@) && reply_for(
                query@,
                domain@,
            ) == Some(packet@),
            Outcome::Unparsed => query_domain(query@).is_none(),
            Outcome::Unencodable { domain } => query_domain(query@) == Some(domain@) && reply_for(
                query@,
                domain@,
            ).is_none(),
        },
{
    match parse_query_domain(query) {
        None => Outcome::Unparsed,
        Some(domain) => {
            let ip = resolve(domain.as_str());
            match create_response_packet(query, domain.as_str(), ip) {
                Some(packet) => Outcome::Reply { domain, packet },
                None => Outcome::Unencodable { domain },
            }
        },
    }
}

} // verus!
