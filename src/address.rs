//! Reading the four octets of a dotted-quad IPv4 address.

use vstd::prelude::*;

verus! {

pub open spec fn is_digit(b: u8) -> bool {
    48 <= b <= 57
}

pub open spec fn all_digits(s: Seq<u8>) -> bool {
    forall|i: int| 0 <= i < s.len() ==> is_digit(#[trigger] s[i])
}

/// The value of a run of decimal digits.
pub open spec fn digits_value(s: Seq<u8>) -> nat
    decreases s.len(),
{
    if s.len() == 0 {
        0
    } else {
        digits_value(s.drop_last()) * 10 + (s.last() - 48) as nat
    }
}

/// Text with one leading `+` taken off, if it has one.
pub open spec fn without_plus(s: Seq<u8>) -> Seq<u8> {
    if s.len() > 0 && s[0] == 43 {
        s.drop_first()
    } else {
        s
    }
}

/// The unsigned 8-bit integer that text reads as in decimal: an optional
/// `+`, then one or more digits whose value is at most 255.
pub open spec fn octet_of(s: Seq<u8>) -> Option<u8> {
    let d = without_plus(s);
    if d.len() > 0 && all_digits(d) && digits_value(d) <= 255 {
        Some(digits_value(d) as u8)
    } else {
        None
    }
}

/// The pieces of `s` between `.` bytes: one more piece than there are dots.
pub open spec fn split_dots(s: Seq<u8>) -> Seq<Seq<u8>>
    decreases s.len(),
{
    if s.len() == 0 {
        seq![Seq::empty()]
    } else {
        let p = split_dots(s.drop_last());
        if s.last() == 46 {
            p.push(Seq::empty())
        } else {
            p.update(p.len() - 1, p.last().push(s.last()))
        }
    }
}

/// The four octets of a dotted-quad address: `None` unless it has exactly
/// four pieces and each reads as an 8-bit decimal integer.
pub open spec fn ipv4_octets(s: Seq<u8>) -> Option<Seq<u8>> {
    let parts = split_dots(s);
    if parts.len() == 4 && forall|k: int| 0 <= k < 4 ==> (#[trigger] octet_of(parts[k])).is_some() {
        Some(Seq::new(4, |k: int| octet_of(parts[k]).unwrap()))
    } else {
        None
    }
}

/// The canonical decimal text of a number: no sign, no leading zeros.
pub open spec fn decimal(n: nat) -> Seq<u8>
    decreases n,
{
    if n < 10 {
        seq![(48 + n) as u8]
    } else {
        decimal(n / 10).push((48 + n % 10) as u8)
    }
}

/// The text `a.b.c.d` of four octets in decimal.
pub open spec fn dotted_quad(a: u8, b: u8, c: u8, d: u8) -> Seq<u8> {
    decimal(a as nat) + seq![46u8] + decimal(b as nat) + seq![46u8] + decimal(c as nat) + seq![
        46u8,
    ] + decimal(d as nat)
}

proof fn lemma_decimal(n: nat)
    ensures
        decimal(n).len() > 0,
        all_digits(decimal(n)),
        digits_value(decimal(n)) == n,
    decreases n,
{
    if n >= 10 {
        lemma_decimal(n / 10);
        let s = decimal(n);
        assert(s.drop_last() =~= decimal(n / 10));
        assert forall|i: int| 0 <= i < s.len() implies is_digit(#[trigger] s[i]) by {
            if i < s.len() - 1 {
                assert(s[i] == decimal(n / 10)[i]);
            }
        }
        assert((n / 10) * 10 + n % 10 == n) by (nonlinear_arith);
        assert(n % 10 < 10);
        assert(s.last() == (48 + n % 10) as u8);
        assert((s.last() - 48) as nat == n % 10);
        assert(digits_value(s) == digits_value(decimal(n / 10)) * 10 + n % 10);
    } else {
        let s = decimal(n);
        assert(s.drop_last() =~= Seq::<u8>::empty());
        assert(digits_value(s.drop_last()) == 0);
        assert(s.last() == (48 + n) as u8);
    }
}

/// Every octet reads back from its decimal text.
pub proof fn lemma_octet_of_decimal(n: u8)
    ensures
        octet_of(decimal(n as nat)) == Some(n),
{
    lemma_decimal(n as nat);
    assert(is_digit(decimal(n as nat)[0]));
}

proof fn lemma_split_no_dots(t: Seq<u8>)
    requires
        all_digits(t),
    ensures
        split_dots(t) == seq![t],
    decreases t.len(),
{
    if t.len() > 0 {
        let u = t.drop_last();
        assert(all_digits(u)) by {
            assert forall|i: int| 0 <= i < u.len() implies is_digit(#[trigger] u[i]) by {
                assert(u[i] == t[i]);
            }
        }
        lemma_split_no_dots(u);
        assert(is_digit(t[t.len() - 1]));
        assert(u.push(t.last()) =~= t);
        assert(split_dots(t) =~= seq![t]);
    } else {
        assert(t =~= Seq::<u8>::empty());
    }
}

proof fn lemma_split_concat(s: Seq<u8>, t: Seq<u8>)
    ensures
        split_dots(s + seq![46u8] + t) == split_dots(s) + split_dots(t),
    decreases t.len(),
{
    let st = s + seq![46u8] + t;
    lemma_split_len(s);
    if t.len() == 0 {
        assert(st.drop_last() =~= s);
        assert(split_dots(st) =~= split_dots(s) + split_dots(t));
    } else {
        let u = t.drop_last();
        lemma_split_concat(s, u);
        lemma_split_len(u);
        assert(st.drop_last() =~= s + seq![46u8] + u);
        assert(split_dots(st) =~= split_dots(s) + split_dots(t));
    }
}

/// The decimal text of four octets, dot-separated, reads back as those
/// four octets.
pub proof fn lemma_dotted_quad_octets(a: u8, b: u8, c: u8, d: u8)
    ensures
        ipv4_octets(dotted_quad(a, b, c, d)) == Some(seq![a, b, c, d]),
{
    let (da, db, dc, dd) = (decimal(a as nat), decimal(b as nat), decimal(c as nat), decimal(d as nat));
    lemma_decimal(a as nat);
    lemma_decimal(b as nat);
    lemma_decimal(c as nat);
    lemma_decimal(d as nat);
    lemma_split_no_dots(da);
    lemma_split_no_dots(db);
    lemma_split_no_dots(dc);
    lemma_split_no_dots(dd);
    lemma_split_concat(da, db);
    lemma_split_concat(da + seq![46u8] + db, dc);
    lemma_split_concat(da + seq![46u8] + db + seq![46u8] + dc, dd);
    let parts = split_dots(dotted_quad(a, b, c, d));
    assert(parts =~= seq![da, db, dc, dd]);
    lemma_octet_of_decimal(a);
    lemma_octet_of_decimal(b);
    lemma_octet_of_decimal(c);
    lemma_octet_of_decimal(d);
    assert(forall|k: int| 0 <= k < 4 ==> (#[trigger] octet_of(parts[k])).is_some());
    assert(Seq::new(4, |k: int| octet_of(parts[k]).unwrap()) =~= seq![a, b, c, d]);
}

pub proof fn lemma_split_len(s: Seq<u8>)
    ensures
        split_dots(s).len() >= 1,
    decreases s.len(),
{
    if s.len() > 0 {
        lemma_split_len(s.drop_last());
    }
}

proof fn lemma_value_grows(d: Seq<u8>, k: int)
    requires
        0 <= k <= d.len(),
    ensures
        digits_value(d) >= digits_value(d.subrange(0, k)),
    decreases d.len() - k,
{
    if k < d.len() {
        let e = d.subrange(0, k + 1);
        assert(e.drop_last() =~= d.subrange(0, k));
        lemma_value_grows(d, k + 1);
    } else {
        assert(d.subrange(0, k) =~= d);
    }
}

/// Reads `s[lo..hi]` as an 8-bit decimal integer, as `u8::from_str` does.
pub fn parse_octet(s: &[u8], lo: usize, hi: usize) -> (r: Option<u8>)
    requires
        lo <= hi <= s@.len(),
    ensures
        r == octet_of(s@.subrange(lo as int, hi as int)),
{
    let ghost text = s@.subrange(lo as int, hi as int);
    let mut i: usize = lo;
    if i < hi && s[i] == 43 {
        i = i + 1;
    }
    let ghost d0 = i as int;
    proof {
        assert(without_plus(text) =~= s@.subrange(d0, hi as int));
    }
    if i == hi {
        return None;
    }
    let mut v: u16 = 0;
    while i < hi
        invariant
            lo <= d0 <= i <= hi <= s@.len(),
            text == s@.subrange(lo as int, hi as int),
            without_plus(text) == s@.subrange(d0, hi as int),
            v <= 255,
            v as nat == digits_value(s@.subrange(d0, i as int)),
            all_digits(s@.subrange(d0, i as int)),
        decreases hi - i,
    {
        let b = s[i];
        let ghost cur = s@.subrange(d0, i as int + 1);
        proof {
            assert(cur.drop_last() =~= s@.subrange(d0, i as int));
        }
        if b < 48 || b > 57 {
            assert(!is_digit(s@.subrange(d0, hi as int)[i - d0]));
            return None;
        }
        v = v * 10 + (b - 48) as u16;
        if v > 255 {
            proof {
                let d = s@.subrange(d0, hi as int);
                assert(d.subrange(0, i - d0 + 1) =~= cur);
                if all_digits(d) {
                    lemma_value_grows(d, i - d0 + 1);
                }
            }
            return None;
        }
        i = i + 1;
    }
    proof {
        assert(s@.subrange(d0, i as int) =~= s@.subrange(d0, hi as int));
    }
    Some(v as u8)
}

/// The four octets of a dotted-quad address held as bytes; `None` unless it
/// has exactly four `.`-separated pieces, each an 8-bit decimal integer.
pub fn parse_ipv4(ip: &[u8]) -> (r: Option<Vec<u8>>)
    ensures
        match r {
            Some(v) => ipv4_octets(ip@) == Some(v@),
            None => ipv4_octets(ip@).is_none(),
        },
{
    let len = ip.len();
    let mut i: usize = 0;
    let mut start: usize = 0;
    let mut out: Vec<u8> = Vec::new();
    let mut ok = true;
    let ghost mut done: Seq<Seq<u8>> = Seq::empty();
    proof {
        assert(ip@.subrange(0, 0) =~= Seq::<u8>::empty());
        assert(ip@.subrange(0, 0) =~= ip@.subrange(0, 0));
        assert(split_dots(Seq::<u8>::empty()) =~= done.push(ip@.subrange(0, 0)));
    }
    while i < len
        invariant
            len == ip@.len(),
            start <= i <= len,
            split_dots(ip@.subrange(0, i as int)) == done.push(ip@.subrange(start as int, i as int)),
            ok == (forall|k: int| 0 <= k < done.len() ==> (#[trigger] octet_of(done[k])).is_some()),
            ok ==> out@ =~= Seq::new(done.len(), |k: int| octet_of(done[k]).unwrap()),
        decreases len - i,
    {
        let ghost pre = ip@.subrange(0, i as int + 1);
        proof {
            assert(pre.drop_last() =~= ip@.subrange(0, i as int));
        }
        if ip[i] == 46 {
            let piece = parse_octet(ip, start, i);
            let ghost before = done;
            let ghost was_ok = ok;
            proof {
                let p = done.push(ip@.subrange(start as int, i as int));
                assert(split_dots(pre) =~= p.push(Seq::empty()));
                done = p;
                assert(ip@.subrange(i as int + 1, i as int + 1) =~= Seq::<u8>::empty());
            }
            match piece {
                Some(o) => {
                    if ok {
                        out.push(o);
                    }
                },
                None => {
                    ok = false;
                },
            }
            proof {
                if ok {
                    assert forall|k: int| 0 <= k < done.len() implies (#[trigger] octet_of(
                        done[k],
                    )).is_some() by {
                        if k < before.len() {
                            assert(done[k] == before[k]);
                        }
                    }
                    assert(out@ =~= Seq::new(done.len(), |k: int| octet_of(done[k]).unwrap()));
                } else if !was_ok {
                    let k = choose|k: int|
                        0 <= k < before.len() && !(#[trigger] octet_of(before[k])).is_some();
                    assert(done[k] == before[k]);
                } else {
                    assert(done[before.len() as int] == ip@.subrange(start as int, i as int));
                }
            }
            start = i + 1;
        } else {
            proof {
                assert(ip@.subrange(start as int, i as int + 1) =~= ip@.subrange(
                    start as int,
                    i as int,
                ).push(ip@[i as int]));
                assert(split_dots(pre) =~= done.push(ip@.subrange(start as int, i as int + 1)));
            }
        }
        i = i + 1;
    }
    proof {
        assert(ip@.subrange(0, len as int) =~= ip@);
    }
    let last = parse_octet(ip, start, len);
    let ghost parts = done.push(ip@.subrange(start as int, len as int));
    if !ok || out.len() != 3 {
        proof {
            if !ok {
                let k = choose|k: int| 0 <= k < done.len() && !(#[trigger] octet_of(done[k])).is_some();
                assert(parts[k] == done[k]);
            }
        }
        return None;
    }
    match last {
        Some(o) => {
            out.push(o);
            proof {
                assert(forall|k: int| 0 <= k < 4 ==> #[trigger] parts[k] == if k < 3 {
                    done[k]
                } else {
                    ip@.subrange(start as int, len as int)
                });
                assert(out@ =~= Seq::new(4, |k: int| octet_of(parts[k]).unwrap()));
            }
            Some(out)
        },
        None => {
            assert(parts[3] == ip@.subrange(start as int, len as int));
            None
        },
    }
}

} // verus!
