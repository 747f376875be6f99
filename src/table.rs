//! The fixed resolution table.

use vstd::prelude::*;
use vstd::utf8::{encode_utf8, is_ascii_chars, is_ascii_chars_encode_utf8};
use crate::address::{decimal, dotted_quad, ipv4_octets, lemma_dotted_quad_octets};

verus! {

/// The address of a known name, if it is one.
pub open spec fn known_address(d: Seq<char>) -> Option<Seq<char>> {
    if d == "www.example.com"@ {
        Some("192.0.2.1"@)
    } else if d == "www.google.com"@ {
        Some("142.250.185.46"@)
    } else if d == "rust-lang.org"@ {
        Some("104.16.53.67"@)
    } else {
        None
    }
}

/// The address every unknown name resolves to.
pub open spec fn fallback_address() -> Seq<char> {
    "127.0.0.1"@
}

/// The address a name resolves to: its table entry, else the fallback.
pub open spec fn resolved_address(d: Seq<char>) -> Seq<char> {
    match known_address(d) {
        Some(a) => a,
        None => fallback_address(),
    }
}

proof fn lemma_ascii_quad(s: Seq<char>, a: u8, b: u8, c: u8, d: u8)
    requires
        is_ascii_chars(s),
        Seq::new(s.len(), |i: int| s[i] as u8) == dotted_quad(a, b, c, d),
    ensures
        ipv4_octets(encode_utf8(s)) == Some(seq![a, b, c, d]),
{
    is_ascii_chars_encode_utf8(s);
    assert(encode_utf8(s) =~= Seq::new(s.len(), |i: int| s[i] as u8));
    lemma_dotted_quad_octets(a, b, c, d);
}

/// Resolution never fails: every name, known or not, resolves to a
/// non-empty address whose UTF-8 text is a dotted quad of four octets.
pub proof fn lemma_resolution_total(d: Seq<char>)
    ensures
        resolved_address(d).len() > 0,
        ipv4_octets(encode_utf8(resolved_address(d))).is_some(),
{
    reveal_strlit("192.0.2.1");
    reveal_strlit("142.250.185.46");
    reveal_strlit("104.16.53.67");
    reveal_strlit("127.0.0.1");
    reveal_with_fuel(decimal, 3);
    let a = resolved_address(d);
    if a == "192.0.2.1"@ {
        assert(Seq::new(a.len(), |i: int| a[i] as u8) =~= dotted_quad(192, 0, 2, 1));
        lemma_ascii_quad(a, 192, 0, 2, 1);
    } else if a == "142.250.185.46"@ {
        assert(Seq::new(a.len(), |i: int| a[i] as u8) =~= dotted_quad(142, 250, 185, 46));
        lemma_ascii_quad(a, 142, 250, 185, 46);
    } else if a == "104.16.53.67"@ {
        assert(Seq::new(a.len(), |i: int| a[i] as u8) =~= dotted_quad(104, 16, 53, 67));
        lemma_ascii_quad(a, 104, 16, 53, 67);
    } else {
        assert(Seq::new(a.len(), |i: int| a[i] as u8) =~= dotted_quad(127, 0, 0, 1));
        lemma_ascii_quad(a, 127, 0, 0, 1);
    }
}

fn same_text(a: &str, b: &str) -> (r: bool)
    ensures
        r == (a@ == b@),
{
    a.to_owned() == b.to_owned()
}

/// Looks a domain up by exact match; every name not in the table resolves
/// to `127.0.0.1`.
pub fn resolve(domain: &str) -> (r: &'static str)
    ensures
        r@ == resolved_address(domain@),
{
    if same_text(domain, "www.example.com") {
        "192.0.2.1"
    } else if same_text(domain, "www.google.com") {
        "142.250.185.46"
    } else if same_text(domain, "rust-lang.org") {
        "104.16.53.67"
    } else {
        "127.0.0.1"
    }
}

} // verus!
