//! Best-effort introspection of DNS wire-format messages, for logging only.
//!
//! The DNS codec is an outside black box: it either decodes a byte buffer
//! into a structured message or fails. Both operations here are purely
//! observational — their output never steers control flow and never touches
//! the bytes relayed to the client — and both recover from malformed input
//! by reporting absence instead of failing.

use vstd::prelude::*;

verus! {

/// The domain name of the first question of the message the bytes decode
/// to, or `None` where they do not decode or carry no question.
pub uninterp spec fn query_name_of(data: Seq<u8>) -> Option<Seq<char>>;

/// The textual IPv4 addresses of the A answer records of the message the
/// bytes decode to, in record order; empty where the bytes do not decode or
/// carry no such record.
pub uninterp spec fn answer_v4_addrs_of(data: Seq<u8>) -> Seq<Seq<char>>;

/// Relies on trust_dns_proto: Message::from_vec, Message::queries,
/// Query::name and Name::to_utf8. Decoding is a function of the bytes
/// alone; a buffer that does not decode, or decodes with an empty question
/// section, yields no name.
#[verifier::external_body]
fn decode_query_name(data: &Vec<u8>) -> (r: Option<String>)
    ensures
        r matches Some(s) ==> query_name_of(data@) == Some(s@),
        r is None ==> query_name_of(data@) is None,
{
    if let Ok(msg) = trust_dns_proto::op::Message::from_vec(data.as_slice()) {
        if let Some(query) = msg.queries().first() {
            return Some(query.name().to_utf8());
        }
    }
    None
}

/// Relies on trust_dns_proto: Message::from_vec, Message::answers,
/// Record::record_type, Record::data and RData::ip_addr, and on the decimal
/// rendering of the extracted address. The addresses, in record order, are
/// a function of the bytes alone; a buffer that does not decode yields the
/// empty sequence.
#[verifier::external_body]
fn decode_answer_addrs(data: &Vec<u8>) -> (r: Vec<String>)
    ensures
        r@.map_values(|s: String| s@) == answer_v4_addrs_of(data@),
{
    let mut ips = Vec::new();
    if let Ok(msg) = trust_dns_proto::op::Message::from_vec(data.as_slice()) {
        for answer in msg.answers() {
            if answer.record_type() == trust_dns_proto::rr::record_type::RecordType::A {
                if let Some(rdata) = answer.data() {
                    if let Some(ip) = rdata.ip_addr() {
                        ips.push(ip.to_string());
                    }
                }
            }
        }
    }
    ips
}

/// The queried domain name of the message's first question, where the
/// bytes decode to a message that has one.
pub fn parse_domain_from_query(data: &Vec<u8>) -> (r: Option<String>)
    ensures
        r matches Some(s) ==> query_name_of(data@) == Some(s@),
        r is None ==> query_name_of(data@) is None,
{
    decode_query_name(data)
}

/// The textual IPv4 addresses of a response's A answer records, in record
/// order; empty on decode failure or absence of such records.
pub fn parse_ips_from_response(data: &Vec<u8>) -> (r: Vec<String>)
    ensures
        r@.map_values(|s: String| s@) == answer_v4_addrs_of(data@),
{
    decode_answer_addrs(data)
}

/// The name to log for a query: its decoded domain name, or a fixed
/// placeholder where none can be decoded.
pub fn query_display_name(data: &Vec<u8>) -> (r: String)
    ensures
        query_name_of(data@) matches Some(n) ==> r@ == n,
        query_name_of(data@) is None ==> r@ == "<parse error>"@,
{
    match decode_query_name(data) {
        Some(s) => s,
        None => String::from_str("<parse error>"),
    }
}

} // verus!
