//! The wire codec: one envelope per line, as a JSON object
//! `{"src":..,"dest":..,"body":{..}}` whose body carries `type`,
//! `msg_id`, `in_reply_to` and the payload fields. `render` writes the
//! canonical form; `parse` reads it back, and its contract states both
//! soundness — whatever is accepted is the rendering of what is
//! returned — and completeness — the rendering of any well-formed
//! envelope is accepted and yields that envelope. Together these give
//! the round trip: parsing a rendered envelope returns it unchanged.

use vstd::prelude::*;
use crate::protocol::{Body, ErrorCode, Message, Payload};
use crate::ids::{
    dec_digits, dec_value, is_canonical_dec, is_dec_digit, all_dec_digits,
    lemma_canonical_dec_unique, lemma_dec_digits_canonical, lemma_dec_digits_len,
    lemma_dec_value_of_digits, spec_node_text, spec_peer_text, u64_to_dec, NodeId, PeerId,
};

verus! {

/// `t` occurs in `s` at position `pos`.
pub open spec fn starts_with(s: Seq<u8>, pos: int, t: Seq<u8>) -> bool {
    &&& 0 <= pos
    &&& pos + t.len() <= s.len()
    &&& s.subrange(pos, pos + t.len()) == t
}

/// Matching a concatenation is matching both parts in turn.
pub proof fn lemma_starts_with_concat(s: Seq<u8>, pos: int, a: Seq<u8>, b: Seq<u8>)
    ensures
        starts_with(s, pos, a + b) <==> (starts_with(s, pos, a) && starts_with(
            s,
            pos + a.len(),
            b,
        )),
{
    if starts_with(s, pos, a + b) {
        assert(s.subrange(pos, pos + a.len()) =~= a) by {
            assert forall|i: int| 0 <= i < a.len() implies s.subrange(pos, pos + a.len())[i]
                == a[i] by {
                assert(s.subrange(pos, pos + (a + b).len())[i] == (a + b)[i]);
            }
        }
        assert(s.subrange(pos + a.len(), pos + a.len() + b.len()) =~= b) by {
            assert forall|i: int| 0 <= i < b.len() implies s.subrange(
                pos + a.len(),
                pos + a.len() + b.len(),
            )[i] == b[i] by {
                assert(s.subrange(pos, pos + (a + b).len())[a.len() + i] == (a + b)[a.len() + i]);
            }
        }
    }
    if starts_with(s, pos, a) && starts_with(s, pos + a.len(), b) {
        assert(s.subrange(pos, pos + (a + b).len()) =~= a + b) by {
            assert forall|i: int| 0 <= i < (a + b).len() implies s.subrange(
                pos,
                pos + (a + b).len(),
            )[i] == (a + b)[i] by {
                if i < a.len() {
                    assert(s.subrange(pos, pos + a.len())[i] == a[i]);
                } else {
                    assert(s.subrange(pos + a.len(), pos + a.len() + b.len())[i - a.len()]
                        == b[i - a.len()]);
                }
            }
        }
    }
}

/// Matching a single byte is that byte standing at the position.
pub proof fn lemma_starts_with_byte(s: Seq<u8>, pos: int, b: u8)
    ensures
        starts_with(s, pos, seq![b]) <==> (0 <= pos < s.len() && s[pos] == b),
{
    if 0 <= pos < s.len() && s[pos] == b {
        assert(s.subrange(pos, pos + 1) =~= seq![b]);
    }
    if starts_with(s, pos, seq![b]) {
        assert(s.subrange(pos, pos + 1)[0] == b);
    }
}

/// Reports whether `lit` occurs in `s` at `pos`.
pub fn match_lit(s: &[u8], pos: usize, lit: &[u8]) -> (r: bool)
    ensures
        r == starts_with(s@, pos as int, lit@),
{
    let n = lit.len();
    if pos > s.len() || n > s.len() - pos {
        return false;
    }
    let mut i: usize = 0;
    while i < n
        invariant
            0 <= i <= n,
            n == lit@.len(),
            pos + n <= s@.len(),
            pos + n <= usize::MAX,
            forall|k: int| 0 <= k < i ==> s@[pos + k] == lit@[k],
        decreases n - i,
    {
        if s[pos + i] != lit[i] {
            assert(s@[pos + i as int] != lit@[i as int]);
            assert(!starts_with(s@, pos as int, lit@)) by {
                if starts_with(s@, pos as int, lit@) {
                    assert(s@.subrange(pos as int, pos + lit@.len() as int)[i as int]
                        == lit@[i as int]);
                }
            }
            return false;
        }
        i = i + 1;
    }
    proof {
        assert(s@.subrange(pos as int, pos + lit@.len() as int) =~= lit@);
    }
    true
}

/// Writes the decimal form of `v` onto `out`.
pub fn emit_u64(out: &mut Vec<u8>, v: u64)
    ensures
        final(out)@ == old(out)@ + dec_digits(v as nat),
{
    let mut digits = u64_to_dec(v);
    let ghost pre = out@;
    out.append(&mut digits);
    proof {
        assert(final(out)@ =~= pre + dec_digits(v as nat));
    }
}

/// Reads a decimal `u64` at `pos`: the maximal digit run there, which
/// must be canonical, fit the range, and end before a non-digit or the
/// end of the input.
pub fn parse_u64_at(s: &[u8], pos: usize) -> (r: Option<(u64, usize)>)
    ensures
        r matches Some(p) ==> {
            &&& pos <= p.1 <= s@.len()
            &&& starts_with(s@, pos as int, dec_digits(p.0 as nat))
            &&& p.1 == pos + dec_digits(p.0 as nat).len()
            &&& (p.1 == s@.len() || !is_dec_digit(s@[p.1 as int]))
        },
        r is None ==> forall|v: u64|
            !(starts_with(s@, pos as int, dec_digits(v as nat)) && (pos + dec_digits(
                v as nat,
            ).len() == s@.len() || !is_dec_digit(s@[pos + dec_digits(v as nat).len()]))),
{
    let n = s.len();
    if pos >= n {
        proof {
            assert forall|v: u64|
                !(starts_with(s@, pos as int, dec_digits(v as nat)) && (pos + dec_digits(
                    v as nat,
                ).len() == s@.len() || !is_dec_digit(s@[pos + dec_digits(v as nat).len()])))
            by {
                lemma_dec_digits_len(v as nat);
            }
        }
        return None;
    }
    // find the end of the digit run
    let mut end: usize = pos;
    while end < n && s[end] >= 0x30 && s[end] <= 0x39
        invariant
            pos <= end <= n,
            n == s@.len(),
            forall|k: int| pos <= k < end ==> is_dec_digit(s@[k]),
        decreases n - end,
    {
        end = end + 1;
    }
    proof {
        assert(end == n || !is_dec_digit(s@[end as int]));
    }
    let run = vstd::slice::slice_subrange(s, pos, end);
    match crate::ids::dec_to_u64(run) {
        Some(v) => {
            proof {
                lemma_canonical_dec_unique(run@);
                assert(starts_with(s@, pos as int, dec_digits(v as nat))) by {
                    assert(run@ == dec_digits(v as nat));
                    assert(s@.subrange(pos as int, end as int) == run@);
                }
            }
            Some((v, end))
        },
        None => {
            proof {
                assert forall|v: u64|
                    !(starts_with(s@, pos as int, dec_digits(v as nat)) && (pos + dec_digits(
                        v as nat,
                    ).len() == s@.len() || !is_dec_digit(s@[pos + dec_digits(v as nat).len()])))
                by {
                    let d = dec_digits(v as nat);
                    if starts_with(s@, pos as int, d) && (pos + d.len() == s@.len()
                        || !is_dec_digit(s@[pos + d.len()])) {
                        lemma_dec_digits_canonical(v as nat);
                        lemma_dec_value_of_digits(v as nat);
                        // the digit run ends exactly where the rendering does
                        assert(forall|k: int|
                            0 <= k < d.len() ==> s@[pos + k] == #[trigger] d[k]) by {
                            assert(forall|k: int|
                                0 <= k < d.len() ==> s@.subrange(pos as int, pos + d.len())[k]
                                    == #[trigger] d[k]);
                        }
                        assert forall|k: int| pos <= k < pos + d.len() implies is_dec_digit(
                            #[trigger] s@[k],
                        ) by {
                            assert(s@[k] == d[k - pos]);
                            assert(all_dec_digits(d));
                            assert(is_dec_digit(d[k - pos]));
                        }
                        assert(pos + d.len() >= end) by {
                            if pos + d.len() < end {
                                assert(is_dec_digit(s@[pos + d.len()]));
                            }
                        }
                        assert(pos + d.len() <= end) by {
                            if pos + d.len() > end {
                                assert(is_dec_digit(s@[end as int]));
                            }
                        }
                        assert(run@ =~= d);
                        assert(is_canonical_dec(run@) && dec_value(run@) <= u64::MAX);
                    }
                }
            }
            None
        },
    }
}

/// Writes the textual form of a peer id onto `out`.
pub fn emit_peer(out: &mut Vec<u8>, p: &PeerId)
    ensures
        final(out)@ == old(out)@ + spec_peer_text(*p),
{
    let mut text = p.encode();
    let ghost pre = out@;
    out.append(&mut text);
    proof {
        assert(final(out)@ =~= pre + spec_peer_text(*p));
    }
}

/// Reads a peer id at `pos`, up to and including a closing quote.
pub fn parse_peer_at(s: &[u8], pos: usize) -> (r: Option<(PeerId, usize)>)
    ensures
        r matches Some(p) ==> {
            &&& pos <= p.1 <= s@.len()
            &&& starts_with(s@, pos as int, spec_peer_text(p.0) + seq![0x22u8])
            &&& p.1 == pos + spec_peer_text(p.0).len() + 1
            &&& forall|p2: PeerId|
                starts_with(s@, pos as int, #[trigger] spec_peer_text(p2) + seq![0x22u8]) ==> p2
                    == p.0
        },
        r is None ==> forall|p: PeerId|
            !starts_with(s@, pos as int, #[trigger] spec_peer_text(p) + seq![0x22u8]),
{
    let n = s.len();
    if pos >= n {
        proof {
            assert forall|p: PeerId|
                !starts_with(s@, pos as int, #[trigger] spec_peer_text(p) + seq![0x22u8]) by {
                assert((spec_peer_text(p) + seq![0x22u8]).len() >= 1);
            }
        }
        return None;
    }
    // find the closing quote
    let mut q: usize = pos;
    while q < n && s[q] != 0x22
        invariant
            pos <= q <= n,
            n == s@.len(),
            forall|k: int| pos <= k < q ==> s@[k] != 0x22,
        decreases n - q,
    {
        q = q + 1;
    }
    if q == n {
        proof {
            assert forall|p: PeerId|
                !starts_with(s@, pos as int, #[trigger] spec_peer_text(p) + seq![0x22u8]) by {
                let t = spec_peer_text(p) + seq![0x22u8];
                if starts_with(s@, pos as int, t) {
                    assert(s@.subrange(pos as int, pos + t.len())[t.len() - 1] == 0x22u8);
                    assert(s@[pos + t.len() - 1] == 0x22);
                }
            }
        }
        return None;
    }
    assert(s@[q as int] == 0x22);
    let body = vstd::slice::slice_subrange(s, pos, q);
    match PeerId::decode(body) {
        Some(p) => {
            proof {
                assert(starts_with(s@, pos as int, spec_peer_text(p) + seq![0x22u8])) by {
                    assert(body@ == spec_peer_text(p));
                    lemma_starts_with_concat(s@, pos as int, spec_peer_text(p), seq![0x22u8]);
                    assert(starts_with(s@, pos as int, spec_peer_text(p))) by {
                        assert(s@.subrange(pos as int, q as int) == body@);
                    }
                    lemma_starts_with_byte(s@, q as int, 0x22);
                }
                assert forall|p2: PeerId|
                    starts_with(s@, pos as int, #[trigger] spec_peer_text(p2) + seq![0x22u8])
                    implies p2 == p by {
                    peer_text_scan_unique(s@, pos as int, q as int, p2);
                    assert(body@ =~= spec_peer_text(p2));
                    lemma_peer_text_injective(p, p2);
                }
            }
            Some((p, q + 1))
        },
        None => {
            proof {
                assert forall|p: PeerId|
                    !starts_with(s@, pos as int, #[trigger] spec_peer_text(p) + seq![0x22u8]) by {
                    let t = spec_peer_text(p);
                    if starts_with(s@, pos as int, t + seq![0x22u8]) {
                        lemma_starts_with_concat(s@, pos as int, t, seq![0x22u8]);
                        // the peer text holds no quote, so the scan stopped
                        // exactly at its end
                        assert(forall|k: int| 0 <= k < t.len() ==> t[k] != 0x22) by {
                            peer_text_has_no_quote(p);
                        }
                        assert(forall|k: int| 0 <= k < t.len() ==> s@[pos + k] == #[trigger] t[k])
                            by {
                            assert(forall|k: int|
                                0 <= k < t.len() ==> s@.subrange(pos as int, pos + t.len())[k]
                                    == #[trigger] t[k]);
                        }
                        lemma_starts_with_byte(s@, pos + t.len(), 0x22);
                        assert(q == pos + t.len()) by {
                            if q < pos + t.len() {
                                assert(t[q - pos] != 0x22);
                                assert(s@[q as int] == t[q - pos]);
                            }
                            if q > pos + t.len() {
                                assert(s@[pos + t.len()] != 0x22);
                            }
                        }
                        assert(body@ =~= t);
                        assert(false);
                    }
                }
            }
            None
        },
    }
}

/// The hexadecimal digit for `d` below 16, lower case.
pub open spec fn hex_digit(d: u8) -> u8 {
    if d < 10 {
        (0x30 + d) as u8
    } else {
        (0x61 + (d - 10)) as u8
    }
}

proof fn lemma_hex_digit_injective(d1: u8, d2: u8)
    requires
        d1 < 16,
        d2 < 16,
        hex_digit(d1) == hex_digit(d2),
    ensures
        d1 == d2,
{
}

/// The escape of one byte of string content: quote and backslash are
/// escaped, control bytes become `\u00..` with lower-case hex, all else
/// stands as itself.
pub open spec fn esc_byte(b: u8) -> Seq<u8> {
    if b == 0x22 {
        seq![0x5cu8, 0x22]
    } else if b == 0x5c {
        seq![0x5cu8, 0x5c]
    } else if b < 0x20 {
        seq![0x5cu8, 0x75, 0x30, 0x30, hex_digit(b / 16), hex_digit(b % 16)]
    } else {
        seq![b]
    }
}

/// The escape of string content, byte by byte.
pub open spec fn escape(s: Seq<u8>) -> Seq<u8>
    decreases s.len(),
{
    if s.len() == 0 {
        Seq::empty()
    } else {
        escape(s.drop_last()) + esc_byte(s.last())
    }
}

/// An escape also peels off the front.
proof fn lemma_escape_first(s: Seq<u8>)
    requires
        s.len() > 0,
    ensures
        escape(s) == esc_byte(s[0]) + escape(s.drop_first()),
    decreases s.len(),
{
    if s.len() == 1 {
        assert(s.drop_last().len() == 0);
        assert(s.last() == s[0]);
        assert(s.drop_first().len() == 0);
        assert(escape(s.drop_last()) =~= Seq::<u8>::empty());
        assert(escape(s.drop_first()) =~= Seq::<u8>::empty());
        assert(escape(s) == escape(s.drop_last()) + esc_byte(s.last()));
        assert(escape(s) =~= esc_byte(s[0]) + escape(s.drop_first()));
    } else {
        let dl = s.drop_last();
        lemma_escape_first(dl);
        assert(dl[0] == s[0]);
        assert(dl.drop_first() =~= s.drop_first().drop_last());
        assert(s.drop_first().last() == s.last());
        assert(escape(s.drop_first()) == escape(s.drop_first().drop_last()) + esc_byte(s.last()));
        assert(escape(dl.drop_first()) == escape(s.drop_first().drop_last()));
        assert(escape(s) == (esc_byte(dl[0]) + escape(dl.drop_first())) + esc_byte(s.last()));
        assert((esc_byte(dl[0]) + escape(dl.drop_first())) + esc_byte(s.last()) =~= esc_byte(s[0])
            + (escape(dl.drop_first()) + esc_byte(s.last())));
        assert(escape(s) =~= esc_byte(s[0]) + escape(s.drop_first()));
    }
}

/// Writes the escaped form of `s` onto `out`.
pub fn emit_escaped(out: &mut Vec<u8>, s: &Vec<u8>)
    ensures
        final(out)@ == old(out)@ + escape(s@),
{
    let ghost base = out@;
    let n = s.len();
    let mut i: usize = 0;
    proof {
        assert(s@.subrange(0, 0) =~= Seq::<u8>::empty());
        assert(out@ =~= base + escape(s@.subrange(0, 0)));
    }
    while i < n
        invariant
            0 <= i <= n,
            n == s@.len(),
            out@ == base + escape(s@.subrange(0, i as int)),
        decreases n - i,
    {
        let b = s[i];
        let ghost pre = out@;
        if b == 0x22 {
            out.push(0x5c);
            out.push(0x22);
        } else if b == 0x5c {
            out.push(0x5c);
            out.push(0x5c);
        } else if b < 0x20 {
            let hi = b / 16;
            let lo = b % 16;
            out.push(0x5c);
            out.push(0x75);
            out.push(0x30);
            out.push(0x30);
            out.push(if hi < 10 { 0x30 + hi } else { 0x61 + (hi - 10) });
            out.push(if lo < 10 { 0x30 + lo } else { 0x61 + (lo - 10) });
        } else {
            out.push(b);
        }
        proof {
            assert(out@ =~= pre + esc_byte(s@[i as int]));
            assert(s@.subrange(0, i as int + 1).drop_last() =~= s@.subrange(0, i as int));
            assert(s@.subrange(0, i as int + 1).last() == s@[i as int]);
            assert(out@ =~= base + escape(s@.subrange(0, i as int + 1)));
        }
        i = i + 1;
    }
    proof {
        assert(s@.subrange(0, n as int) =~= s@);
    }
}

/// Reads one lower-case hexadecimal digit.
fn from_hex(c: u8) -> (r: Option<u8>)
    ensures
        r matches Some(d) ==> d < 16 && c == hex_digit(d),
        r is None ==> forall|d: u8| d < 16 ==> c != hex_digit(d),
{
    if 0x30 <= c && c <= 0x39 {
        Some(c - 0x30)
    } else if 0x61 <= c && c <= 0x66 {
        Some(c - 0x61 + 10)
    } else {
        assert forall|d: u8| d < 16 implies c != hex_digit(d) by {
            if d < 10 {
            } else {
            }
        }
        None
    }
}

/// Reads escaped string content at `pos`, up to and including a closing
/// quote: exactly the inverse of `escape`, accepting only the canonical
/// escapes it writes.
#[verifier::rlimit(60)]
pub fn parse_string_at(s: &[u8], pos: usize) -> (r: Option<(Vec<u8>, usize)>)
    ensures
        r matches Some(p) ==> {
            &&& pos <= p.1 <= s@.len()
            &&& starts_with(s@, pos as int, escape(p.0@) + seq![0x22u8])
            &&& p.1 == pos + escape(p.0@).len() + 1
            &&& forall|bs: Seq<u8>|
                starts_with(s@, pos as int, #[trigger] escape(bs) + seq![0x22u8]) ==> bs == p.0@
        },
        r is None ==> forall|bs: Seq<u8>|
            !starts_with(s@, pos as int, #[trigger] escape(bs) + seq![0x22u8]),
{
    let n = s.len();
    let mut done: Vec<u8> = Vec::new();
    let mut at: usize = pos;
    proof {
        assert(escape(done@) =~= Seq::<u8>::empty());
        assert(starts_with(s@, pos as int, escape(done@)) || pos > s@.len()) by {
            if pos <= s@.len() {
                assert(s@.subrange(pos as int, pos as int) =~= Seq::<u8>::empty());
            }
        }
    }
    if pos > n {
        proof {
            assert forall|bs: Seq<u8>|
                !starts_with(s@, pos as int, #[trigger] escape(bs) + seq![0x22u8]) by {}
        }
        return None;
    }
    proof {
        assert(s@.subrange(pos as int, pos as int) =~= Seq::<u8>::empty());
    }
    while at < n
        invariant
            pos <= at <= n,
            n == s@.len(),
            starts_with(s@, pos as int, escape(done@)),
            at == pos + escape(done@).len(),
            scan_inv(s@, pos as int, at as int, done@),
        decreases n - at,
    {
        let b = s[at];
        let ghost done0 = done@;
        if b == 0x22 {
            proof {
                assert forall|bs: Seq<u8>|
                    starts_with(s@, pos as int, #[trigger] escape(bs) + seq![0x22u8]) implies bs
                    == done0 by {
                    let rest = choose|rest: Seq<u8>|
                        bs == done0 + rest && starts_with(
                            s@,
                            at as int,
                            #[trigger] escape(rest) + seq![0x22u8],
                        );
                    if rest.len() > 0 {
                        lemma_rest_first_at(s@, at as int, rest);
                        let e0 = esc_byte(rest[0]);
                        lemma_starts_with_index(s@, at as int, e0, 0);
                        if rest[0] == 0x22 || rest[0] == 0x5c || rest[0] < 0x20 {
                            assert(e0[0] == 0x5c);
                        } else {
                            assert(e0 =~= seq![rest[0]]);
                        }
                        assert(false);
                    }
                    assert(bs =~= done0);
                }
                assert(starts_with(s@, pos as int, escape(done0) + seq![0x22u8])) by {
                    lemma_starts_with_concat(s@, pos as int, escape(done0), seq![0x22u8]);
                    lemma_starts_with_byte(s@, at as int, 0x22);
                }
            }
            return Some((done, at + 1));
        } else if b == 0x5c {
            if at + 1 >= n {
                proof {
                    no_match_short(s@, pos as int, at as int, done0, n as int);
                }
                return None;
            }
            let c = s[at + 1];
            if c == 0x22 || c == 0x5c {
                done.push(c);
                proof {
                    step_two_byte_escape(s@, pos as int, at as int, done0, c);
                }
                at = at + 2;
            } else if c == 0x75 {
                if n - at <= 5 {
                    assert(at + 5 >= n);
                    proof {
                        assert forall|hi: u8, lo: u8|
                            hi < 2 && lo < 16 implies !(at + 6 <= n && s@[at as int + 2] == 0x30
                            && s@[at as int + 3] == 0x30 && s@[at as int + 4]
                                == #[trigger] hex_digit(hi) && s@[at as int + 5]
                                == #[trigger] hex_digit(lo)) by {}
                        no_match_u(s@, pos as int, at as int, done0, n as int);
                    }
                    return None;
                }
                let d2 = s[at + 2];
                let d3 = s[at + 3];
                let h4 = from_hex(s[at + 4]);
                let h5 = from_hex(s[at + 5]);
                if d2 == 0x30 && d3 == 0x30 && h4.is_some() && h5.is_some() {
                    let hi = h4.unwrap();
                    let lo = h5.unwrap();
                    let v = hi * 16 + lo;
                    if v < 0x20 {
                        done.push(v);
                        proof {
                            assert(v / 16 == hi && v % 16 == lo) by (nonlinear_arith)
                                requires v == hi * 16 + lo && hi < 16 && lo < 16;
                            step_u_escape(s@, pos as int, at as int, done0, v);
                        }
                        at = at + 6;
                    } else {
                        proof {
                            assert forall|hi2: u8, lo2: u8|
                                hi2 < 2 && lo2 < 16 implies !(at + 6 <= n && s@[at as int + 2]
                                == 0x30 && s@[at as int + 3] == 0x30 && s@[at as int + 4]
                                    == #[trigger] hex_digit(hi2) && s@[at as int + 5]
                                    == #[trigger] hex_digit(lo2)) by {
                                if at + 6 <= n && s@[at as int + 2] == 0x30 && s@[at as int + 3]
                                    == 0x30 && s@[at as int + 4] == hex_digit(hi2)
                                    && s@[at as int + 5] == hex_digit(lo2) {
                                    lemma_hex_digit_injective(hi, hi2);
                                    lemma_hex_digit_injective(lo, lo2);
                                    assert(v == hi2 * 16 + lo2);
                                    assert(hi2 * 16 + lo2 < 0x20) by (nonlinear_arith)
                                        requires hi2 < 2 && lo2 < 16;
                                }
                            }
                            no_match_u(s@, pos as int, at as int, done0, n as int);
                        }
                        return None;
                    }
                } else {
                    proof {
                        assert forall|hi2: u8, lo2: u8|
                            hi2 < 2 && lo2 < 16 implies !(at + 6 <= n && s@[at as int + 2] == 0x30
                            && s@[at as int + 3] == 0x30 && s@[at as int + 4]
                                == #[trigger] hex_digit(hi2) && s@[at as int + 5]
                                == #[trigger] hex_digit(lo2)) by {
                            if at + 6 <= n && s@[at as int + 2] == 0x30 && s@[at as int + 3]
                                == 0x30 && s@[at as int + 4] == hex_digit(hi2)
                                && s@[at as int + 5] == hex_digit(lo2) {
                                assert(hi2 < 16 && lo2 < 16);
                            }
                        }
                        no_match_u(s@, pos as int, at as int, done0, n as int);
                    }
                    return None;
                }
            } else {
                proof {
                    no_match_backslash(s@, pos as int, at as int, done0, n as int);
                }
                return None;
            }
        } else if b < 0x20 {
            proof {
                no_match_control(s@, pos as int, at as int, done0, n as int);
            }
            return None;
        } else {
            done.push(b);
            proof {
                step_raw_byte(s@, pos as int, at as int, done0, b);
            }
            at = at + 1;
        }
    }
    proof {
        assert forall|bs: Seq<u8>|
            !starts_with(s@, pos as int, #[trigger] escape(bs) + seq![0x22u8]) by {
            if starts_with(s@, pos as int, escape(bs) + seq![0x22u8]) {
                let rest = choose|rest: Seq<u8>|
                    bs == done@ + rest && starts_with(
                        s@,
                        at as int,
                        #[trigger] escape(rest) + seq![0x22u8],
                    );
                assert((escape(rest) + seq![0x22u8]).len() >= 1);
            }
        }
    }
    None
}

// Positions of the envelope's components within a rendered line.
pub open spec fn p_src(m: Message) -> int {
    lit_src().len() as int
}

pub open spec fn p_dest_lit(m: Message) -> int {
    p_src(m) + spec_peer_text(m.src).len() + 1
}

pub open spec fn p_dest(m: Message) -> int {
    p_dest_lit(m) + lit_dest().len()
}

pub open spec fn p_bt(m: Message) -> int {
    p_dest(m) + spec_peer_text(m.dest).len() + 1
}

pub open spec fn p_tag(m: Message) -> int {
    p_bt(m) + lit_body_type().len()
}

pub open spec fn p_mid(m: Message) -> int {
    p_tag(m) + tag_bytes(m.body.value).len() + 1
}

pub open spec fn p_irt(m: Message) -> int {
    p_mid(m) + msgid_bytes(m.body.msg_id).len()
}

pub open spec fn p_fields(m: Message) -> int {
    p_irt(m) + irt_bytes(m.body.in_reply_to).len()
}

pub open spec fn p_end(m: Message) -> int {
    p_fields(m) + payload_fields(m.body.value).len()
}

/// A rendered line regrouped to the right, for splitting off its
/// components one by one.
proof fn render_nested(m: Message)
    ensures
        spec_render(m) == lit_src() + ((spec_peer_text(m.src) + seq![0x22u8]) + (lit_dest() + ((
        spec_peer_text(m.dest) + seq![0x22u8]) + (lit_body_type() + ((tag_bytes(m.body.value)
            + seq![0x22u8]) + (msgid_bytes(m.body.msg_id) + (irt_bytes(m.body.in_reply_to) + (
        payload_fields(m.body.value) + lit_end())))))))),
{
    let a1 = lit_src();
    let a2 = spec_peer_text(m.src) + seq![0x22u8];
    let a3 = lit_dest();
    let a4 = spec_peer_text(m.dest) + seq![0x22u8];
    let a5 = lit_body_type();
    let a6 = tag_bytes(m.body.value) + seq![0x22u8];
    let a7 = msgid_bytes(m.body.msg_id);
    let a8 = irt_bytes(m.body.in_reply_to);
    let a9 = payload_fields(m.body.value);
    let a10 = lit_end();
    let f2 = a1 + a2;
    let f3 = f2 + a3;
    let f4 = f3 + a4;
    let f5 = f4 + a5;
    let f6 = f5 + a6;
    let f7 = f6 + a7;
    let f8 = f7 + a8;
    let f9 = f8 + a9;
    assert(spec_render(m) == f9 + a10);
    vstd::seq_lib::lemma_concat_associative(f8, a9, a10);
    vstd::seq_lib::lemma_concat_associative(f7, a8, a9 + a10);
    vstd::seq_lib::lemma_concat_associative(f6, a7, a8 + (a9 + a10));
    vstd::seq_lib::lemma_concat_associative(f5, a6, a7 + (a8 + (a9 + a10)));
    vstd::seq_lib::lemma_concat_associative(f4, a5, a6 + (a7 + (a8 + (a9 + a10))));
    vstd::seq_lib::lemma_concat_associative(f3, a4, a5 + (a6 + (a7 + (a8 + (a9 + a10)))));
    vstd::seq_lib::lemma_concat_associative(f2, a3, a4 + (a5 + (a6 + (a7 + (a8 + (a9 + a10))))));
    vstd::seq_lib::lemma_concat_associative(
        a1,
        a2,
        a3 + (a4 + (a5 + (a6 + (a7 + (a8 + (a9 + a10)))))),
    );
}

/// A rendered line splits into its components at their positions:
/// the header half.
#[verifier::rlimit(100)]
#[verifier::spinoff_prover]
proof fn render_decomp_header(s: Seq<u8>, m: Message)
    requires
        s == spec_render(m),
    ensures
        starts_with(s, 0, lit_src()),
        starts_with(s, p_src(m), spec_peer_text(m.src) + seq![0x22u8]),
        starts_with(s, p_dest_lit(m), lit_dest()),
        starts_with(s, p_dest(m), spec_peer_text(m.dest) + seq![0x22u8]),
        starts_with(s, p_bt(m), lit_body_type()),
        starts_with(s, p_tag(m), tag_bytes(m.body.value) + seq![0x22u8]),
        starts_with(
            s,
            p_mid(m),
            msgid_bytes(m.body.msg_id) + (irt_bytes(m.body.in_reply_to) + (payload_fields(
                m.body.value,
            ) + lit_end())),
        ),
        s.len() == p_end(m) + 2,
{
    let a1 = lit_src();
    let a2 = spec_peer_text(m.src) + seq![0x22u8];
    let a3 = lit_dest();
    let a4 = spec_peer_text(m.dest) + seq![0x22u8];
    let a5 = lit_body_type();
    let a6 = tag_bytes(m.body.value) + seq![0x22u8];
    let a7 = msgid_bytes(m.body.msg_id);
    let a8 = irt_bytes(m.body.in_reply_to);
    let a9 = payload_fields(m.body.value);
    let a10 = lit_end();
    let whole = a1 + (a2 + (a3 + (a4 + (a5 + (a6 + (a7 + (a8 + (a9 + a10))))))));
    render_nested(m);
    assert(s == whole);
    assert(starts_with(s, 0, whole)) by {
        assert(s.subrange(0, whole.len() as int) =~= whole);
    }
    lemma_starts_with_concat(s, 0, a1, a2 + (a3 + (a4 + (a5 + (a6 + (a7 + (a8 + (a9 + a10))))))));
    lemma_starts_with_concat(
        s,
        a1.len() as int,
        a2,
        a3 + (a4 + (a5 + (a6 + (a7 + (a8 + (a9 + a10)))))),
    );
    lemma_starts_with_concat(
        s,
        a1.len() + a2.len() as int,
        a3,
        a4 + (a5 + (a6 + (a7 + (a8 + (a9 + a10))))),
    );
    lemma_starts_with_concat(
        s,
        a1.len() + a2.len() + a3.len() as int,
        a4,
        a5 + (a6 + (a7 + (a8 + (a9 + a10)))),
    );
    lemma_starts_with_concat(
        s,
        a1.len() + a2.len() + a3.len() + a4.len() as int,
        a5,
        a6 + (a7 + (a8 + (a9 + a10))),
    );
    lemma_starts_with_concat(
        s,
        a1.len() + a2.len() + a3.len() + a4.len() + a5.len() as int,
        a6,
        a7 + (a8 + (a9 + a10)),
    );
}

/// And the component split of the id-and-payload half.
#[verifier::rlimit(100)]
proof fn render_decomp(s: Seq<u8>, m: Message)
    requires
        s == spec_render(m),
    ensures
        starts_with(s, 0, lit_src()),
        starts_with(s, p_src(m), spec_peer_text(m.src) + seq![0x22u8]),
        starts_with(s, p_dest_lit(m), lit_dest()),
        starts_with(s, p_dest(m), spec_peer_text(m.dest) + seq![0x22u8]),
        starts_with(s, p_bt(m), lit_body_type()),
        starts_with(s, p_tag(m), tag_bytes(m.body.value) + seq![0x22u8]),
        starts_with(s, p_mid(m), msgid_bytes(m.body.msg_id)),
        starts_with(s, p_irt(m), irt_bytes(m.body.in_reply_to)),
        starts_with(s, p_fields(m), payload_fields(m.body.value)),
        starts_with(s, p_end(m), lit_end()),
        s.len() == p_end(m) + 2,
{
    render_decomp_header(s, m);
    let a7 = msgid_bytes(m.body.msg_id);
    let a8 = irt_bytes(m.body.in_reply_to);
    let a9 = payload_fields(m.body.value);
    let a10 = lit_end();
    lemma_starts_with_concat(s, p_mid(m), a7, a8 + (a9 + a10));
    lemma_starts_with_concat(s, p_irt(m), a8, a9 + a10);
    lemma_starts_with_concat(s, p_fields(m), a9, a10);
}

/// Components standing at their positions assemble into the rendered
/// line.
#[verifier::rlimit(100)]
#[verifier::spinoff_prover]
proof fn render_assemble(s: Seq<u8>, m: Message)
    requires
        starts_with(s, 0, lit_src()),
        starts_with(s, p_src(m), spec_peer_text(m.src) + seq![0x22u8]),
        starts_with(s, p_dest_lit(m), lit_dest()),
        starts_with(s, p_dest(m), spec_peer_text(m.dest) + seq![0x22u8]),
        starts_with(s, p_bt(m), lit_body_type()),
        starts_with(s, p_tag(m), tag_bytes(m.body.value) + seq![0x22u8]),
        starts_with(s, p_mid(m), msgid_bytes(m.body.msg_id)),
        starts_with(s, p_irt(m), irt_bytes(m.body.in_reply_to)),
        starts_with(s, p_fields(m), payload_fields(m.body.value)),
        starts_with(s, p_end(m), lit_end()),
        s.len() == p_end(m) + 2,
    ensures
        s == spec_render(m),
{
    let a1 = lit_src();
    let a2 = spec_peer_text(m.src) + seq![0x22u8];
    let a3 = lit_dest();
    let a4 = spec_peer_text(m.dest) + seq![0x22u8];
    let a5 = lit_body_type();
    let a6 = tag_bytes(m.body.value) + seq![0x22u8];
    let a7 = msgid_bytes(m.body.msg_id);
    let a8 = irt_bytes(m.body.in_reply_to);
    let a9 = payload_fields(m.body.value);
    let a10 = lit_end();
    lemma_starts_with_concat(
        s,
        a1.len() + a2.len() + a3.len() + a4.len() + a5.len() + a6.len() + a7.len() + a8.len() as int,
        a9,
        a10,
    );
    lemma_starts_with_concat(
        s,
        a1.len() + a2.len() + a3.len() + a4.len() + a5.len() + a6.len() + a7.len() as int,
        a8,
        a9 + a10,
    );
    lemma_starts_with_concat(
        s,
        a1.len() + a2.len() + a3.len() + a4.len() + a5.len() + a6.len() as int,
        a7,
        a8 + (a9 + a10),
    );
    lemma_starts_with_concat(
        s,
        a1.len() + a2.len() + a3.len() + a4.len() + a5.len() as int,
        a6,
        a7 + (a8 + (a9 + a10)),
    );
    lemma_starts_with_concat(
        s,
        a1.len() + a2.len() + a3.len() + a4.len() as int,
        a5,
        a6 + (a7 + (a8 + (a9 + a10))),
    );
    lemma_starts_with_concat(
        s,
        a1.len() + a2.len() + a3.len() as int,
        a4,
        a5 + (a6 + (a7 + (a8 + (a9 + a10)))),
    );
    lemma_starts_with_concat(
        s,
        a1.len() + a2.len() as int,
        a3,
        a4 + (a5 + (a6 + (a7 + (a8 + (a9 + a10))))),
    );
    lemma_starts_with_concat(
        s,
        a1.len() as int,
        a2,
        a3 + (a4 + (a5 + (a6 + (a7 + (a8 + (a9 + a10)))))),
    );
    lemma_starts_with_concat(s, 0, a1, a2 + (a3 + (a4 + (a5 + (a6 + (a7 + (a8 + (a9 + a10))))))));
    let whole = a1 + (a2 + (a3 + (a4 + (a5 + (a6 + (a7 + (a8 + (a9 + a10))))))));
    assert(starts_with(s, 0, whole));
    assert(s =~= whole) by {
        assert(s.subrange(0, whole.len() as int) == whole);
        assert(s.subrange(0, s.len() as int) =~= s);
    }
    render_nested(m);
}

/// A tag holds no quote.
proof fn tag_no_quote(p: Payload)
    ensures
        forall|k: int| 0 <= k < tag_bytes(p).len() ==> #[trigger] tag_bytes(p)[k] != 0x22,
{
}

/// Two quote-terminated tags at one position are the same tag.
proof fn lemma_tag_at(s: Seq<u8>, pos: int, t1: Seq<u8>, t2: Seq<u8>)
    requires
        starts_with(s, pos, t1 + seq![0x22u8]),
        starts_with(s, pos, t2 + seq![0x22u8]),
        forall|k: int| 0 <= k < t1.len() ==> #[trigger] t1[k] != 0x22,
        forall|k: int| 0 <= k < t2.len() ==> #[trigger] t2[k] != 0x22,
    ensures
        t1 == t2,
{
    lemma_starts_with_concat(s, pos, t1, seq![0x22u8]);
    lemma_starts_with_concat(s, pos, t2, seq![0x22u8]);
    lemma_starts_with_byte(s, pos + t1.len(), 0x22);
    lemma_starts_with_byte(s, pos + t2.len(), 0x22);
    if t1.len() < t2.len() {
        lemma_starts_with_index(s, pos, t2, t1.len() as int);
        assert(false);
    }
    if t2.len() < t1.len() {
        lemma_starts_with_index(s, pos, t1, t2.len() as int);
        assert(false);
    }
    assert(t1 =~= t2) by {
        assert forall|k: int| 0 <= k < t1.len() implies t1[k] == t2[k] by {
            lemma_starts_with_index(s, pos, t1, k);
            lemma_starts_with_index(s, pos, t2, k);
        }
    }
}

/// The first byte after the correlation ids is a comma or a closing
/// brace — never part of `,"msg_id":` when `msg_id` is absent.
proof fn no_msgid_head(s: Seq<u8>, p: int, irt: Option<u64>, v: Payload)
    requires
        starts_with(s, p, irt_bytes(irt) + (payload_fields(v) + lit_end())),
    ensures
        !starts_with(s, p, lit_msg_id()),
{
    if starts_with(s, p, lit_msg_id()) {
        lemma_starts_with_index(s, p, lit_msg_id(), 2);
        lemma_starts_with_index(s, p, lit_msg_id(), 3);
        match irt {
            Some(_) => {
                assert((irt_bytes(irt) + (payload_fields(v) + lit_end()))[2]
                    == lit_in_reply_to()[2]);
                lemma_starts_with_index(s, p, irt_bytes(irt) + (payload_fields(v) + lit_end()), 2);
            },
            None => {
                assert(irt_bytes(irt) =~= Seq::<u8>::empty());
                assert(irt_bytes(irt) + (payload_fields(v) + lit_end()) =~= payload_fields(v)
                    + lit_end());
                fields_head_distinct(s, p, v);
            },
        }
    }
}

/// Nor part of `,"in_reply_to":` when `in_reply_to` is absent.
proof fn no_irt_head(s: Seq<u8>, p: int, v: Payload)
    requires
        starts_with(s, p, payload_fields(v) + lit_end()),
    ensures
        !starts_with(s, p, lit_in_reply_to()),
{
    fields_head_distinct(s, p, v);
}

/// The bytes that begin each payload's fields distinguish them from the
/// correlation-id fields.
#[verifier::rlimit(100)]
proof fn fields_head_distinct(s: Seq<u8>, p: int, v: Payload)
    requires
        starts_with(s, p, payload_fields(v) + lit_end()),
    ensures
        !starts_with(s, p, lit_msg_id()),
        !starts_with(s, p, lit_in_reply_to()),
{
    let t = payload_fields(v) + lit_end();
    if starts_with(s, p, lit_msg_id()) {
        lemma_starts_with_index(s, p, lit_msg_id(), 2);
        lemma_starts_with_index(s, p, lit_msg_id(), 3);
        lemma_starts_with_index(s, p, lit_msg_id(), 0);
        match v {
            Payload::Echo { .. } => {
                lemma_starts_with_index(s, p, t, 2);
                assert(t[2] == 0x65);
            },
            Payload::EchoOk { .. } => {
                lemma_starts_with_index(s, p, t, 2);
                assert(t[2] == 0x65);
            },
            Payload::Init { .. } => {
                lemma_starts_with_index(s, p, t, 2);
                assert(t[2] == 0x6e);
            },
            Payload::Broadcast { .. } => {
                lemma_starts_with_index(s, p, t, 3);
                assert(t[3] == 0x65);
            },
            Payload::ReadOk { .. } => {
                lemma_starts_with_index(s, p, t, 3);
                assert(t[3] == 0x65);
            },
            Payload::GenerateOk { .. } => {
                lemma_starts_with_index(s, p, t, 2);
                assert(t[2] == 0x69);
            },
            Payload::Topology { .. } => {
                lemma_starts_with_index(s, p, t, 2);
                assert(t[2] == 0x74);
            },
            Payload::Error { .. } => {
                lemma_starts_with_index(s, p, t, 2);
                assert(t[2] == 0x63);
            },
            _ => {
                assert(t =~= lit_end());
                lemma_starts_with_index(s, p, t, 0);
                assert(t[0] == 0x7d);
            },
        }
    }
    if starts_with(s, p, lit_in_reply_to()) {
        lemma_starts_with_index(s, p, lit_in_reply_to(), 2);
        lemma_starts_with_index(s, p, lit_in_reply_to(), 3);
        lemma_starts_with_index(s, p, lit_in_reply_to(), 0);
        match v {
            Payload::Echo { .. } => {
                lemma_starts_with_index(s, p, t, 2);
                assert(t[2] == 0x65);
            },
            Payload::EchoOk { .. } => {
                lemma_starts_with_index(s, p, t, 2);
                assert(t[2] == 0x65);
            },
            Payload::Init { .. } => {
                lemma_starts_with_index(s, p, t, 2);
                assert(t[2] == 0x6e);
            },
            Payload::Broadcast { .. } => {
                lemma_starts_with_index(s, p, t, 2);
                assert(t[2] == 0x6d);
            },
            Payload::ReadOk { .. } => {
                lemma_starts_with_index(s, p, t, 2);
                assert(t[2] == 0x6d);
            },
            Payload::GenerateOk { .. } => {
                lemma_starts_with_index(s, p, t, 2);
                lemma_starts_with_index(s, p, t, 3);
                assert(t[2] == 0x69 && t[3] == 0x64);
            },
            Payload::Topology { .. } => {
                lemma_starts_with_index(s, p, t, 2);
                assert(t[2] == 0x74);
            },
            Payload::Error { .. } => {
                lemma_starts_with_index(s, p, t, 2);
                assert(t[2] == 0x63);
            },
            _ => {
                assert(t =~= lit_end());
                lemma_starts_with_index(s, p, t, 0);
                assert(t[0] == 0x7d);
            },
        }
    }
}

/// The first byte after a number in the id fields is a comma or a
/// closing brace — never a digit.
proof fn ids_tail_not_digit(s: Seq<u8>, p: int, irt: Option<u64>, v: Payload)
    requires
        starts_with(s, p, irt_bytes(irt) + (payload_fields(v) + lit_end())),
    ensures
        p < s.len(),
        !is_dec_digit(s[p]),
{
    let t = irt_bytes(irt) + (payload_fields(v) + lit_end());
    match irt {
        Some(_) => {
            assert(t[0] == 0x2c);
            lemma_starts_with_index(s, p, t, 0);
        },
        None => {
            assert(t =~= payload_fields(v) + lit_end());
            fields_tail_not_digit(s, p, v);
        },
    }
}

/// Same, at the start of the payload fields.
proof fn fields_tail_not_digit(s: Seq<u8>, p: int, v: Payload)
    requires
        starts_with(s, p, payload_fields(v) + lit_end()),
    ensures
        p < s.len(),
        !is_dec_digit(s[p]),
{
    let t = payload_fields(v) + lit_end();
    match v {
        Payload::Echo { .. } => {
            lemma_starts_with_index(s, p, t, 0);
            assert(t[0] == 0x2c);
        },
        Payload::EchoOk { .. } => {
            lemma_starts_with_index(s, p, t, 0);
            assert(t[0] == 0x2c);
        },
        Payload::Init { .. } => {
            lemma_starts_with_index(s, p, t, 0);
            assert(t[0] == 0x2c);
        },
        Payload::Broadcast { .. } => {
            lemma_starts_with_index(s, p, t, 0);
            assert(t[0] == 0x2c);
        },
        Payload::ReadOk { .. } => {
            lemma_starts_with_index(s, p, t, 0);
            assert(t[0] == 0x2c);
        },
        Payload::GenerateOk { .. } => {
            lemma_starts_with_index(s, p, t, 0);
            assert(t[0] == 0x2c);
        },
        Payload::Topology { .. } => {
            lemma_starts_with_index(s, p, t, 0);
            assert(t[0] == 0x2c);
        },
        Payload::Error { .. } => {
            lemma_starts_with_index(s, p, t, 0);
            assert(t[0] == 0x2c);
        },
        _ => {
            assert(t =~= lit_end());
            lemma_starts_with_index(s, p, t, 0);
            assert(t[0] == 0x7d);
        },
    }
}

/// The header chain: a rendered line whose peers were read and fixed by
/// the parser names those peers, and its tag stands right after.
proof fn chain_header(
    s: Seq<u8>,
    m: Message,
    src0: PeerId,
    dest0: PeerId,
    pos1: int,
    pos2: int,
    pos3: int,
)
    requires
        s == spec_render(m),
        starts_with(s, 8, spec_peer_text(src0) + seq![0x22u8]),
        pos1 == 8 + spec_peer_text(src0).len() + 1,
        forall|p2: PeerId|
            starts_with(s, 8, #[trigger] spec_peer_text(p2) + seq![0x22u8]) ==> p2 == src0,
        starts_with(s, pos1 + 9, spec_peer_text(dest0) + seq![0x22u8]),
        pos2 == pos1 + 9 + spec_peer_text(dest0).len() + 1,
        forall|p2: PeerId|
            starts_with(s, pos1 + 9, #[trigger] spec_peer_text(p2) + seq![0x22u8]) ==> p2 == dest0,
        pos3 == pos2 + 17,
    ensures
        m.src == src0,
        m.dest == dest0,
        p_tag(m) == pos3,
        p_mid(m) == pos3 + tag_bytes(m.body.value).len() + 1,
        starts_with(s, pos3, tag_bytes(m.body.value) + seq![0x22u8]),
{
    render_decomp(s, m);
    assert(p_src(m) == 8);
    assert(m.src == src0);
    assert(p_dest_lit(m) == pos1);
    assert(p_dest(m) == pos1 + 9);
    assert(m.dest == dest0);
    assert(p_bt(m) == pos2);
    assert(p_tag(m) == pos3);
}

/// Reads the optional `msg_id` and `in_reply_to` fields at `pos`.
#[verifier::rlimit(100)]
fn parse_ids(s: &[u8], pos: usize) -> (r: Option<(Option<u64>, Option<u64>, usize)>)
    ensures
        r matches Some(p) ==> {
            &&& pos <= p.2 <= s@.len()
            &&& starts_with(s@, pos as int, msgid_bytes(p.0) + irt_bytes(p.1))
            &&& p.2 == pos + msgid_bytes(p.0).len() + irt_bytes(p.1).len()
            &&& forall|mid2: Option<u64>, irt2: Option<u64>, v2: Payload|
                #[trigger] starts_with(
                    s@,
                    pos as int,
                    msgid_bytes(mid2) + (irt_bytes(irt2) + (payload_fields(v2) + lit_end())),
                ) ==> mid2 == p.0 && irt2 == p.1 && starts_with(
                    s@,
                    p.2 as int,
                    payload_fields(v2) + lit_end(),
                )
        },
        r is None ==> forall|mid2: Option<u64>, irt2: Option<u64>, v2: Payload|
            !#[trigger] starts_with(
                s@,
                pos as int,
                msgid_bytes(mid2) + (irt_bytes(irt2) + (payload_fields(v2) + lit_end())),
            ),
{
    let n = s.len();
    if pos > n {
        proof {
            assert forall|mid2: Option<u64>, irt2: Option<u64>, v2: Payload|
                !#[trigger] starts_with(
                    s@,
                    pos as int,
                    msgid_bytes(mid2) + (irt_bytes(irt2) + (payload_fields(v2) + lit_end())),
                ) by {
                assert((msgid_bytes(mid2) + (irt_bytes(irt2) + (payload_fields(v2)
                    + lit_end()))).len() >= 2);
            }
        }
        return None;
    }
    let l_mid = make_lit_msg_id();
    let l_irt = make_lit_in_reply_to();
    let b1 = match_lit(s, pos, l_mid.as_slice());
    let mid: Option<u64>;
    let pos5: usize;
    if b1 {
        proof {
            assert(pos + 10 <= s@.len());
        }
        match parse_u64_at(s, pos + 10) {
            Some(p) => {
                mid = Some(p.0);
                pos5 = p.1;
                proof {
                    assert(starts_with(s@, pos as int, msgid_bytes(mid))) by {
                        lemma_starts_with_concat(
                            s@,
                            pos as int,
                            lit_msg_id(),
                            dec_digits(p.0 as nat),
                        );
                    }
                }
            },
            None => {
                proof {
                    assert forall|mid2: Option<u64>, irt2: Option<u64>, v2: Payload|
                        !#[trigger] starts_with(
                            s@,
                            pos as int,
                            msgid_bytes(mid2) + (irt_bytes(irt2) + (payload_fields(v2)
                                + lit_end())),
                        ) by {
                        if starts_with(
                            s@,
                            pos as int,
                            msgid_bytes(mid2) + (irt_bytes(irt2) + (payload_fields(v2)
                                + lit_end())),
                        ) {
                            lemma_starts_with_concat(
                                s@,
                                pos as int,
                                msgid_bytes(mid2),
                                irt_bytes(irt2) + (payload_fields(v2) + lit_end()),
                            );
                            match mid2 {
                                Some(w) => {
                                    lemma_starts_with_concat(
                                        s@,
                                        pos as int,
                                        lit_msg_id(),
                                        dec_digits(w as nat),
                                    );
                                    assert(msgid_bytes(mid2) =~= lit_msg_id() + dec_digits(
                                        w as nat,
                                    ));
                                    ids_tail_not_digit(
                                        s@,
                                        pos + msgid_bytes(mid2).len(),
                                        irt2,
                                        v2,
                                    );
                                },
                                None => {
                                    assert(msgid_bytes(mid2) =~= Seq::<u8>::empty());
                                    assert(msgid_bytes(mid2) + (irt_bytes(irt2) + (payload_fields(
                                        v2,
                                    ) + lit_end())) =~= irt_bytes(irt2) + (payload_fields(v2)
                                        + lit_end()));
                                    no_msgid_head(s@, pos as int, irt2, v2);
                                },
                            }
                        }
                    }
                }
                return None;
            },
        }
    } else {
        mid = None;
        pos5 = pos;
        proof {
            assert(msgid_bytes(mid) =~= Seq::<u8>::empty());
        }
    }
    let b2 = match_lit(s, pos5, l_irt.as_slice());
    let irt: Option<u64>;
    let pos6: usize;
    if b2 {
        proof {
            assert(pos5 + 15 <= s@.len());
        }
        match parse_u64_at(s, pos5 + 15) {
            Some(p) => {
                irt = Some(p.0);
                pos6 = p.1;
                proof {
                    assert(starts_with(s@, pos5 as int, irt_bytes(irt))) by {
                        lemma_starts_with_concat(
                            s@,
                            pos5 as int,
                            lit_in_reply_to(),
                            dec_digits(p.0 as nat),
                        );
                    }
                }
            },
            None => {
                proof {
                    assert forall|mid2: Option<u64>, irt2: Option<u64>, v2: Payload|
                        !#[trigger] starts_with(
                            s@,
                            pos as int,
                            msgid_bytes(mid2) + (irt_bytes(irt2) + (payload_fields(v2)
                                + lit_end())),
                        ) by {
                        if starts_with(
                            s@,
                            pos as int,
                            msgid_bytes(mid2) + (irt_bytes(irt2) + (payload_fields(v2)
                                + lit_end())),
                        ) {
                            lemma_starts_with_concat(
                                s@,
                                pos as int,
                                msgid_bytes(mid2),
                                irt_bytes(irt2) + (payload_fields(v2) + lit_end()),
                            );
                            // the msg_id part agrees with what was read
                            match mid2 {
                                Some(w) => {
                                    assert(msgid_bytes(mid2) =~= lit_msg_id() + dec_digits(
                                        w as nat,
                                    ));
                                    lemma_starts_with_concat(
                                        s@,
                                        pos as int,
                                        lit_msg_id(),
                                        dec_digits(w as nat),
                                    );
                                    assert(b1);
                                    ids_tail_not_digit(
                                        s@,
                                        pos + msgid_bytes(mid2).len(),
                                        irt2,
                                        v2,
                                    );
                                    lemma_dec_run_unique(s@, pos + 10, mid->0, w);
                                },
                                None => {
                                    assert(msgid_bytes(mid2) =~= Seq::<u8>::empty());
                                    assert(msgid_bytes(mid2) + (irt_bytes(irt2) + (payload_fields(
                                        v2,
                                    ) + lit_end())) =~= irt_bytes(irt2) + (payload_fields(v2)
                                        + lit_end()));
                                    no_msgid_head(s@, pos as int, irt2, v2);
                                    assert(!b1);
                                },
                            }
                            assert(mid2 == mid);
                            assert(pos5 == pos + msgid_bytes(mid2).len());
                            lemma_starts_with_concat(
                                s@,
                                pos5 as int,
                                irt_bytes(irt2),
                                payload_fields(v2) + lit_end(),
                            );
                            match irt2 {
                                Some(w) => {
                                    assert(irt_bytes(irt2) =~= lit_in_reply_to() + dec_digits(
                                        w as nat,
                                    ));
                                    lemma_starts_with_concat(
                                        s@,
                                        pos5 as int,
                                        lit_in_reply_to(),
                                        dec_digits(w as nat),
                                    );
                                    fields_tail_not_digit(
                                        s@,
                                        pos5 + irt_bytes(irt2).len(),
                                        v2,
                                    );
                                },
                                None => {
                                    assert(irt_bytes(irt2) =~= Seq::<u8>::empty());
                                    assert(irt_bytes(irt2) + (payload_fields(v2) + lit_end())
                                        =~= payload_fields(v2) + lit_end());
                                    no_irt_head(s@, pos5 as int, v2);
                                    assert(!b2);
                                },
                            }
                        }
                    }
                }
                return None;
            },
        }
    } else {
        irt = None;
        pos6 = pos5;
        proof {
            assert(irt_bytes(irt) =~= Seq::<u8>::empty());
        }
    }
    proof {
        assert(starts_with(s@, pos as int, msgid_bytes(mid) + irt_bytes(irt))) by {
            lemma_starts_with_concat(s@, pos as int, msgid_bytes(mid), irt_bytes(irt));
            if mid is None {
                assert(starts_with(s@, pos as int, msgid_bytes(mid))) by {
                    assert(s@.subrange(pos as int, pos as int) =~= Seq::<u8>::empty());
                }
            }
            if irt is None {
                assert(starts_with(s@, pos5 as int, irt_bytes(irt))) by {
                    assert(s@.subrange(pos5 as int, pos5 as int) =~= Seq::<u8>::empty());
                }
            }
        }
        assert forall|mid2: Option<u64>, irt2: Option<u64>, v2: Payload|
            #[trigger] starts_with(
                s@,
                pos as int,
                msgid_bytes(mid2) + (irt_bytes(irt2) + (payload_fields(v2) + lit_end())),
            ) implies mid2 == mid && irt2 == irt && starts_with(
            s@,
            pos6 as int,
            payload_fields(v2) + lit_end(),
        ) by {
            lemma_starts_with_concat(
                s@,
                pos as int,
                msgid_bytes(mid2),
                irt_bytes(irt2) + (payload_fields(v2) + lit_end()),
            );
            match mid2 {
                Some(w) => {
                    assert(msgid_bytes(mid2) =~= lit_msg_id() + dec_digits(w as nat));
                    lemma_starts_with_concat(s@, pos as int, lit_msg_id(), dec_digits(w as nat));
                    assert(b1);
                    ids_tail_not_digit(s@, pos + msgid_bytes(mid2).len(), irt2, v2);
                    lemma_dec_run_unique(s@, pos + 10, mid->0, w);
                },
                None => {
                    assert(msgid_bytes(mid2) =~= Seq::<u8>::empty());
                    assert(msgid_bytes(mid2) + (irt_bytes(irt2) + (payload_fields(v2)
                        + lit_end())) =~= irt_bytes(irt2) + (payload_fields(v2) + lit_end()));
                    no_msgid_head(s@, pos as int, irt2, v2);
                    assert(!b1);
                },
            }
            assert(mid2 == mid);
            assert(pos5 == pos + msgid_bytes(mid2).len());
            lemma_starts_with_concat(
                s@,
                pos5 as int,
                irt_bytes(irt2),
                payload_fields(v2) + lit_end(),
            );
            match irt2 {
                Some(w) => {
                    assert(irt_bytes(irt2) =~= lit_in_reply_to() + dec_digits(w as nat));
                    lemma_starts_with_concat(
                        s@,
                        pos5 as int,
                        lit_in_reply_to(),
                        dec_digits(w as nat),
                    );
                    assert(b2);
                    fields_tail_not_digit(s@, pos5 + irt_bytes(irt2).len(), v2);
                    lemma_dec_run_unique(s@, pos5 + 15, irt->0, w);
                },
                None => {
                    assert(irt_bytes(irt2) =~= Seq::<u8>::empty());
                    assert(irt_bytes(irt2) + (payload_fields(v2) + lit_end()) =~= payload_fields(
                        v2,
                    ) + lit_end());
                    no_irt_head(s@, pos5 as int, v2);
                    assert(!b2);
                },
            }
            assert(irt2 == irt);
            assert(pos6 == pos5 + irt_bytes(irt2).len());
        }
    }
    Some((mid, irt, pos6))
}

/// Everything the parser has established once the header is consumed:
/// the literals stand where they must, the peers read are fixed, and
/// `pos3` is where the tag begins.
pub open spec fn header_state(s: Seq<u8>, src0: PeerId, dest0: PeerId, pos3: int) -> bool {
    &&& starts_with(s, 0, lit_src())
    &&& starts_with(s, 8, spec_peer_text(src0) + seq![0x22u8])
    &&& (forall|p2: PeerId|
        starts_with(s, 8, #[trigger] spec_peer_text(p2) + seq![0x22u8]) ==> p2 == src0)
    &&& starts_with(s, 8 + spec_peer_text(src0).len() + 1 as int, lit_dest())
    &&& starts_with(
        s,
        8 + spec_peer_text(src0).len() + 1 + 9 as int,
        spec_peer_text(dest0) + seq![0x22u8],
    )
    &&& (forall|p2: PeerId|
        starts_with(
            s,
            8 + spec_peer_text(src0).len() + 1 + 9 as int,
            #[trigger] spec_peer_text(p2) + seq![0x22u8],
        ) ==> p2 == dest0)
    &&& starts_with(
        s,
        8 + spec_peer_text(src0).len() + 1 + 9 + spec_peer_text(dest0).len() + 1 as int,
        lit_body_type(),
    )
    &&& pos3 == 8 + spec_peer_text(src0).len() + 1 + 9 + spec_peer_text(dest0).len() + 1 + 17
}

/// The chain from a rendered line's header through its tag: the peers
/// the parser read are the envelope's, the tag read is its tag, and the
/// id-and-payload block follows.
proof fn chain_to_ids(
    s: Seq<u8>,
    m: Message,
    src0: PeerId,
    dest0: PeerId,
    pos3: int,
    pos4: int,
    t: Seq<u8>,
)
    requires
        s == spec_render(m),
        header_state(s, src0, dest0, pos3),
        starts_with(s, pos3, t + seq![0x22u8]),
        forall|k: int| 0 <= k < t.len() ==> #[trigger] t[k] != 0x22,
        pos4 == pos3 + t.len() + 1,
    ensures
        m.src == src0,
        m.dest == dest0,
        tag_bytes(m.body.value) == t,
        p_mid(m) == pos4,
        starts_with(
            s,
            pos4,
            msgid_bytes(m.body.msg_id) + (irt_bytes(m.body.in_reply_to) + (payload_fields(
                m.body.value,
            ) + lit_end())),
        ),
        s.len() == p_end(m) + 2,
        p_end(m) == pos4 + msgid_bytes(m.body.msg_id).len() + irt_bytes(
            m.body.in_reply_to,
        ).len() + payload_fields(m.body.value).len(),
{
    let pos1 = 8 + spec_peer_text(src0).len() + 1;
    let pos2 = pos1 + 9 + spec_peer_text(dest0).len() + 1;
    chain_header(s, m, src0, dest0, pos1 as int, pos2 as int, pos3);
    tag_no_quote(m.body.value);
    lemma_tag_at(s, pos3, tag_bytes(m.body.value), t);
    render_decomp_header(s, m);
}

/// Only `read` carries the `read` tag.
proof fn is_read_payload(v: Payload)
    requires
        tag_bytes(v) == tg_read(),
    ensures
        v matches Payload::Read,
{
    match v {
        Payload::Read => {},
        _ => {
            assert(tg_echo()[0] == 0x65 && tg_read()[0] == 0x72);
            assert(tg_echo_ok().len() == 7 && tg_read().len() == 4);
            assert(tg_init()[0] == 0x69);
            assert(tg_init_ok().len() == 7);
            assert(tg_broadcast().len() == 9);
            assert(tg_broadcast_ok().len() == 12);
            assert(tg_read_ok().len() == 7);
            assert(tg_generate().len() == 8);
            assert(tg_generate_ok().len() == 11);
            assert(tg_topology().len() == 8);
            assert(tg_topology_ok().len() == 11);
            assert(tg_error()[0] == 0x65);
        },
    }
}

/// Reads a `read` request's tail after its tag: only the correlation
/// ids and the closing braces.
#[verifier::rlimit(100)]
#[verifier::spinoff_prover]
fn branch_read(s: &[u8], src0: PeerId, dest0: PeerId, pos3: usize, pos4: usize) -> (r: Option<
    Message,
>)
    requires
        header_state(s@, src0, dest0, pos3 as int),
        starts_with(s@, pos3 as int, tg_read() + seq![0x22u8]),
        pos4 == pos3 + 5,
    ensures
        r matches Some(m) ==> s@ == spec_render(m) && crate::node::msg_wf(m),
        forall|m: Message|
            crate::node::msg_wf(m) && s@ == spec_render(m) ==> r is Some && message_eqv(r->0, m),
{
    let n = s.len();
    let ids = match parse_ids(s, pos4) {
        Some(x) => x,
        None => {
            proof {
                assert forall|m: Message|
                    crate::node::msg_wf(m) && s@ == spec_render(m) implies false by {
                    chain_to_ids(s@, m, src0, dest0, pos3 as int, pos4 as int, tg_read());
                }
            }
            return None;
        },
    };
    let l_end = make_lit_end();
    if !match_lit(s, ids.2, l_end.as_slice()) {
        proof {
            assert forall|m: Message|
                crate::node::msg_wf(m) && s@ == spec_render(m) implies false by {
                chain_to_ids(s@, m, src0, dest0, pos3 as int, pos4 as int, tg_read());
                is_read_payload(m.body.value);
                assert(payload_fields(m.body.value) =~= Seq::<u8>::empty());
                assert(payload_fields(m.body.value) + lit_end() =~= lit_end());
            }
        }
        return None;
    }
    if n - ids.2 != 2 {
        proof {
            assert forall|m: Message|
                crate::node::msg_wf(m) && s@ == spec_render(m) implies false by {
                chain_to_ids(s@, m, src0, dest0, pos3 as int, pos4 as int, tg_read());
                is_read_payload(m.body.value);
                assert(payload_fields(m.body.value).len() == 0);
            }
        }
        return None;
    }
    let result = Message {
        src: src0,
        dest: dest0,
        body: Body { msg_id: ids.0, in_reply_to: ids.1, value: Payload::Read },
    };
    proof {
        assert(tag_bytes(result.body.value) == tg_read());
        assert(p_src(result) == 8);
        assert(p_tag(result) == pos3);
        assert(p_mid(result) == pos4);
        lemma_starts_with_concat(s@, pos4 as int, msgid_bytes(ids.0), irt_bytes(ids.1));
        assert(p_irt(result) == pos4 + msgid_bytes(ids.0).len());
        assert(p_fields(result) == ids.2);
        assert(payload_fields(result.body.value) =~= Seq::<u8>::empty());
        assert(starts_with(s@, p_fields(result), payload_fields(result.body.value))) by {
            assert(s@.subrange(ids.2 as int, ids.2 as int) =~= Seq::<u8>::empty());
        }
        assert(p_end(result) == ids.2);
        render_assemble(s@, result);
        assert(crate::node::msg_wf(result));
        assert forall|m: Message|
            crate::node::msg_wf(m) && s@ == spec_render(m) implies message_eqv(result, m) by {
            chain_to_ids(s@, m, src0, dest0, pos3 as int, pos4 as int, tg_read());
            is_read_payload(m.body.value);
            assert(m.body.msg_id == ids.0 && m.body.in_reply_to == ids.1);
        }
    }
    Some(result)
}

/// Only `echo` carries the `echo` tag.
proof fn is_echo_payload(v: Payload)
    requires
        tag_bytes(v) == tg_echo(),
    ensures
        v matches Payload::Echo { .. },
{
    match v {
        Payload::Echo { .. } => {},
        _ => {
            assert(tg_echo()[0] == 0x65 && tg_echo().len() == 4);
            assert(tg_echo_ok().len() == 7);
            assert(tg_init()[0] == 0x69 && tg_init().len() == 4);
            assert(tg_init_ok().len() == 7);
            assert(tg_broadcast().len() == 9);
            assert(tg_broadcast_ok().len() == 12);
            assert(tg_read()[0] == 0x72 && tg_read().len() == 4);
            assert(tg_read_ok().len() == 7);
            assert(tg_generate().len() == 8);
            assert(tg_generate_ok().len() == 11);
            assert(tg_topology().len() == 8);
            assert(tg_topology_ok().len() == 11);
            assert(tg_error().len() == 5);
        },
    }
}

/// The full chain for an `echo` line: its payload is an echo, and its
/// field bytes stand at the field position.
#[verifier::rlimit(100)]
#[verifier::spinoff_prover]
proof fn chain_echo_fields(
    s: Seq<u8>,
    m: Message,
    src0: PeerId,
    dest0: PeerId,
    pos3: int,
    pos4: int,
)
    requires
        s == spec_render(m),
        header_state(s, src0, dest0, pos3),
        starts_with(s, pos3, tg_echo() + seq![0x22u8]),
        pos4 == pos3 + 5,
    ensures
        m.src == src0,
        m.dest == dest0,
        m.body.value matches Payload::Echo { .. },
        p_mid(m) == pos4,
        starts_with(
            s,
            pos4,
            msgid_bytes(m.body.msg_id) + (irt_bytes(m.body.in_reply_to) + (payload_fields(
                m.body.value,
            ) + lit_end())),
        ),
        starts_with(s, p_fields(m), lit_echo()),
        starts_with(
            s,
            p_fields(m) + 9,
            (escape(m.body.value->Echo_echo@) + seq![0x22u8]) + lit_end(),
        ),
        starts_with(s, p_fields(m) + 9, escape(m.body.value->Echo_echo@) + seq![0x22u8]),
        p_end(m) == p_fields(m) + 9 + escape(m.body.value->Echo_echo@).len() + 1,
        starts_with(s, p_end(m), lit_end()),
        s.len() == p_end(m) + 2,
{
    chain_to_ids(s, m, src0, dest0, pos3, pos4, tg_echo());
    is_echo_payload(m.body.value);
    render_decomp(s, m);
    match m.body.value {
        Payload::Echo { echo } => {
            assert(payload_fields(m.body.value) =~= lit_echo() + ((escape(echo@) + seq![0x22u8])));
            lemma_starts_with_concat(
                s,
                p_fields(m),
                lit_echo(),
                escape(echo@) + seq![0x22u8],
            );
            assert(starts_with(
                s,
                p_fields(m) + 9,
                (escape(echo@) + seq![0x22u8]) + lit_end(),
            )) by {
                lemma_starts_with_concat(
                    s,
                    p_fields(m) + 9,
                    escape(echo@) + seq![0x22u8],
                    lit_end(),
                );
            }
        },
        _ => {
            assert(false);
        },
    }
}

/// Reads an `echo` request's tail after its tag: the correlation ids,
/// the echoed text and the closing braces.
#[verifier::rlimit(100)]
#[verifier::spinoff_prover]
fn branch_echo(s: &[u8], src0: PeerId, dest0: PeerId, pos3: usize, pos4: usize) -> (r: Option<
    Message,
>)
    requires
        header_state(s@, src0, dest0, pos3 as int),
        starts_with(s@, pos3 as int, tg_echo() + seq![0x22u8]),
        pos4 == pos3 + 5,
    ensures
        r matches Some(m) ==> s@ == spec_render(m) && crate::node::msg_wf(m),
        forall|m: Message|
            crate::node::msg_wf(m) && s@ == spec_render(m) ==> r is Some && message_eqv(r->0, m),
{
    let n = s.len();
    let ids = match parse_ids(s, pos4) {
        Some(x) => x,
        None => {
            proof {
                assert forall|m: Message|
                    crate::node::msg_wf(m) && s@ == spec_render(m) implies false by {
                    chain_to_ids(s@, m, src0, dest0, pos3 as int, pos4 as int, tg_echo());
                }
            }
            return None;
        },
    };
    let l_fld = make_lit_echo();
    if !match_lit(s, ids.2, l_fld.as_slice()) {
        proof {
            assert forall|m: Message|
                crate::node::msg_wf(m) && s@ == spec_render(m) implies false by {
                chain_echo_fields(s@, m, src0, dest0, pos3 as int, pos4 as int);
                assert(p_fields(m) == ids.2);
            }
        }
        return None;
    }
    let st = match parse_string_at(s, ids.2 + 9) {
        Some(x) => x,
        None => {
            proof {
                assert forall|m: Message|
                    crate::node::msg_wf(m) && s@ == spec_render(m) implies false by {
                    chain_echo_fields(s@, m, src0, dest0, pos3 as int, pos4 as int);
                    assert(p_fields(m) == ids.2);
                }
            }
            return None;
        },
    };
    let pos7 = st.1;
    let l_end = make_lit_end();
    if !match_lit(s, pos7, l_end.as_slice()) {
        proof {
            assert forall|m: Message|
                crate::node::msg_wf(m) && s@ == spec_render(m) implies false by {
                chain_echo_fields(s@, m, src0, dest0, pos3 as int, pos4 as int);
                assert(p_fields(m) == ids.2);
                assert(m.body.value->Echo_echo@ == st.0@);
            }
        }
        return None;
    }
    if n - pos7 != 2 {
        proof {
            assert forall|m: Message|
                crate::node::msg_wf(m) && s@ == spec_render(m) implies false by {
                chain_echo_fields(s@, m, src0, dest0, pos3 as int, pos4 as int);
                assert(p_fields(m) == ids.2);
                assert(m.body.value->Echo_echo@ == st.0@);
                assert(p_end(m) == pos7);
            }
        }
        return None;
    }
    let result = Message {
        src: src0,
        dest: dest0,
        body: Body { msg_id: ids.0, in_reply_to: ids.1, value: Payload::Echo { echo: st.0 } },
    };
    proof {
        assert(tag_bytes(result.body.value) == tg_echo());
        assert(p_src(result) == 8);
        assert(p_tag(result) == pos3);
        assert(p_mid(result) == pos4);
        lemma_starts_with_concat(s@, pos4 as int, msgid_bytes(ids.0), irt_bytes(ids.1));
        assert(p_fields(result) == ids.2);
        assert(starts_with(s@, p_fields(result), payload_fields(result.body.value))) by {
            lemma_starts_with_concat(
                s@,
                ids.2 as int,
                lit_echo(),
                escape(result.body.value->Echo_echo@) + seq![0x22u8],
            );
            assert(payload_fields(result.body.value) =~= lit_echo() + (escape(
                result.body.value->Echo_echo@,
            ) + seq![0x22u8]));
        }
        assert(p_end(result) == pos7);
        render_assemble(s@, result);
        assert(crate::node::msg_wf(result));
        assert forall|m: Message|
            crate::node::msg_wf(m) && s@ == spec_render(m) implies message_eqv(result, m) by {
            chain_echo_fields(s@, m, src0, dest0, pos3 as int, pos4 as int);
            assert(m.body.msg_id == ids.0 && m.body.in_reply_to == ids.1);
            assert(p_fields(m) == ids.2);
            assert(m.body.value->Echo_echo@ == st.0@);
        }
    }
    Some(result)
}

/// Only this payload carries the `init_ok` tag.
proof fn is_init_ok_payload(v: Payload)
    requires
        tag_bytes(v) == tg_init_ok(),
    ensures
        v matches Payload::InitOk,
{
    match v {
        Payload::InitOk => {},
        _ => {
            assert(tg_echo()[0] == 0x65 && tg_echo().len() == 4);
            assert(tg_echo_ok()[0] == 0x65 && tg_echo_ok().len() == 7);
            assert(tg_init()[0] == 0x69 && tg_init().len() == 4);
            assert(tg_init_ok()[0] == 0x69 && tg_init_ok().len() == 7);
            assert(tg_broadcast()[0] == 0x62 && tg_broadcast().len() == 9);
            assert(tg_broadcast_ok()[0] == 0x62 && tg_broadcast_ok().len() == 12);
            assert(tg_read()[0] == 0x72 && tg_read().len() == 4);
            assert(tg_read_ok()[0] == 0x72 && tg_read_ok().len() == 7);
            assert(tg_generate()[0] == 0x67 && tg_generate().len() == 8);
            assert(tg_generate_ok()[0] == 0x67 && tg_generate_ok().len() == 11);
            assert(tg_topology()[0] == 0x74 && tg_topology().len() == 8);
            assert(tg_topology_ok()[0] == 0x74 && tg_topology_ok().len() == 11);
            assert(tg_error()[0] == 0x65 && tg_error().len() == 5);
        },
    }
}

/// Reads a `init_ok` line's tail after its tag: only the correlation
/// ids and the closing braces.
#[verifier::rlimit(100)]
#[verifier::spinoff_prover]
fn branch_init_ok(s: &[u8], src0: PeerId, dest0: PeerId, pos3: usize, pos4: usize) -> (r: Option<
    Message,
>)
    requires
        header_state(s@, src0, dest0, pos3 as int),
        starts_with(s@, pos3 as int, tg_init_ok() + seq![0x22u8]),
        pos4 == pos3 + 8,
    ensures
        r matches Some(m) ==> s@ == spec_render(m) && crate::node::msg_wf(m),
        forall|m: Message|
            crate::node::msg_wf(m) && s@ == spec_render(m) ==> r is Some && message_eqv(r->0, m),
{
    let n = s.len();
    let ids = match parse_ids(s, pos4) {
        Some(x) => x,
        None => {
            proof {
                assert forall|m: Message|
                    crate::node::msg_wf(m) && s@ == spec_render(m) implies false by {
                    chain_to_ids(s@, m, src0, dest0, pos3 as int, pos4 as int, tg_init_ok());
                }
            }
            return None;
        },
    };
    let l_end = make_lit_end();
    if !match_lit(s, ids.2, l_end.as_slice()) {
        proof {
            assert forall|m: Message|
                crate::node::msg_wf(m) && s@ == spec_render(m) implies false by {
                chain_to_ids(s@, m, src0, dest0, pos3 as int, pos4 as int, tg_init_ok());
                is_init_ok_payload(m.body.value);
                assert(payload_fields(m.body.value) =~= Seq::<u8>::empty());
                assert(payload_fields(m.body.value) + lit_end() =~= lit_end());
            }
        }
        return None;
    }
    if n - ids.2 != 2 {
        proof {
            assert forall|m: Message|
                crate::node::msg_wf(m) && s@ == spec_render(m) implies false by {
                chain_to_ids(s@, m, src0, dest0, pos3 as int, pos4 as int, tg_init_ok());
                is_init_ok_payload(m.body.value);
                assert(payload_fields(m.body.value).len() == 0);
            }
        }
        return None;
    }
    let result = Message {
        src: src0,
        dest: dest0,
        body: Body { msg_id: ids.0, in_reply_to: ids.1, value: Payload::InitOk },
    };
    proof {
        assert(tag_bytes(result.body.value) == tg_init_ok());
        assert(p_src(result) == 8);
        assert(p_tag(result) == pos3);
        assert(p_mid(result) == pos4);
        lemma_starts_with_concat(s@, pos4 as int, msgid_bytes(ids.0), irt_bytes(ids.1));
        assert(p_irt(result) == pos4 + msgid_bytes(ids.0).len());
        assert(p_fields(result) == ids.2);
        assert(payload_fields(result.body.value) =~= Seq::<u8>::empty());
        assert(starts_with(s@, p_fields(result), payload_fields(result.body.value))) by {
            assert(s@.subrange(ids.2 as int, ids.2 as int) =~= Seq::<u8>::empty());
        }
        assert(p_end(result) == ids.2);
        render_assemble(s@, result);
        assert(crate::node::msg_wf(result));
        assert forall|m: Message|
            crate::node::msg_wf(m) && s@ == spec_render(m) implies message_eqv(result, m) by {
            chain_to_ids(s@, m, src0, dest0, pos3 as int, pos4 as int, tg_init_ok());
            is_init_ok_payload(m.body.value);
            assert(m.body.msg_id == ids.0 && m.body.in_reply_to == ids.1);
        }
    }
    Some(result)
}

/// Only this payload carries the `broadcast_ok` tag.
proof fn is_broadcast_ok_payload(v: Payload)
    requires
        tag_bytes(v) == tg_broadcast_ok(),
    ensures
        v matches Payload::BroadcastOk,
{
    match v {
        Payload::BroadcastOk => {},
        _ => {
            assert(tg_echo()[0] == 0x65 && tg_echo().len() == 4);
            assert(tg_echo_ok()[0] == 0x65 && tg_echo_ok().len() == 7);
            assert(tg_init()[0] == 0x69 && tg_init().len() == 4);
            assert(tg_init_ok()[0] == 0x69 && tg_init_ok().len() == 7);
            assert(tg_broadcast()[0] == 0x62 && tg_broadcast().len() == 9);
            assert(tg_broadcast_ok()[0] == 0x62 && tg_broadcast_ok().len() == 12);
            assert(tg_read()[0] == 0x72 && tg_read().len() == 4);
            assert(tg_read_ok()[0] == 0x72 && tg_read_ok().len() == 7);
            assert(tg_generate()[0] == 0x67 && tg_generate().len() == 8);
            assert(tg_generate_ok()[0] == 0x67 && tg_generate_ok().len() == 11);
            assert(tg_topology()[0] == 0x74 && tg_topology().len() == 8);
            assert(tg_topology_ok()[0] == 0x74 && tg_topology_ok().len() == 11);
            assert(tg_error()[0] == 0x65 && tg_error().len() == 5);
        },
    }
}

/// Reads a `broadcast_ok` line's tail after its tag: only the correlation
/// ids and the closing braces.
#[verifier::rlimit(100)]
#[verifier::spinoff_prover]
fn branch_broadcast_ok(s: &[u8], src0: PeerId, dest0: PeerId, pos3: usize, pos4: usize) -> (r: Option<
    Message,
>)
    requires
        header_state(s@, src0, dest0, pos3 as int),
        starts_with(s@, pos3 as int, tg_broadcast_ok() + seq![0x22u8]),
        pos4 == pos3 + 13,
    ensures
        r matches Some(m) ==> s@ == spec_render(m) && crate::node::msg_wf(m),
        forall|m: Message|
            crate::node::msg_wf(m) && s@ == spec_render(m) ==> r is Some && message_eqv(r->0, m),
{
    let n = s.len();
    let ids = match parse_ids(s, pos4) {
        Some(x) => x,
        None => {
            proof {
                assert forall|m: Message|
                    crate::node::msg_wf(m) && s@ == spec_render(m) implies false by {
                    chain_to_ids(s@, m, src0, dest0, pos3 as int, pos4 as int, tg_broadcast_ok());
                }
            }
            return None;
        },
    };
    let l_end = make_lit_end();
    if !match_lit(s, ids.2, l_end.as_slice()) {
        proof {
            assert forall|m: Message|
                crate::node::msg_wf(m) && s@ == spec_render(m) implies false by {
                chain_to_ids(s@, m, src0, dest0, pos3 as int, pos4 as int, tg_broadcast_ok());
                is_broadcast_ok_payload(m.body.value);
                assert(payload_fields(m.body.value) =~= Seq::<u8>::empty());
                assert(payload_fields(m.body.value) + lit_end() =~= lit_end());
            }
        }
        return None;
    }
    if n - ids.2 != 2 {
        proof {
            assert forall|m: Message|
                crate::node::msg_wf(m) && s@ == spec_render(m) implies false by {
                chain_to_ids(s@, m, src0, dest0, pos3 as int, pos4 as int, tg_broadcast_ok());
                is_broadcast_ok_payload(m.body.value);
                assert(payload_fields(m.body.value).len() == 0);
            }
        }
        return None;
    }
    let result = Message {
        src: src0,
        dest: dest0,
        body: Body { msg_id: ids.0, in_reply_to: ids.1, value: Payload::BroadcastOk },
    };
    proof {
        assert(tag_bytes(result.body.value) == tg_broadcast_ok());
        assert(p_src(result) == 8);
        assert(p_tag(result) == pos3);
        assert(p_mid(result) == pos4);
        lemma_starts_with_concat(s@, pos4 as int, msgid_bytes(ids.0), irt_bytes(ids.1));
        assert(p_irt(result) == pos4 + msgid_bytes(ids.0).len());
        assert(p_fields(result) == ids.2);
        assert(payload_fields(result.body.value) =~= Seq::<u8>::empty());
        assert(starts_with(s@, p_fields(result), payload_fields(result.body.value))) by {
            assert(s@.subrange(ids.2 as int, ids.2 as int) =~= Seq::<u8>::empty());
        }
        assert(p_end(result) == ids.2);
        render_assemble(s@, result);
        assert(crate::node::msg_wf(result));
        assert forall|m: Message|
            crate::node::msg_wf(m) && s@ == spec_render(m) implies message_eqv(result, m) by {
            chain_to_ids(s@, m, src0, dest0, pos3 as int, pos4 as int, tg_broadcast_ok());
            is_broadcast_ok_payload(m.body.value);
            assert(m.body.msg_id == ids.0 && m.body.in_reply_to == ids.1);
        }
    }
    Some(result)
}

/// Only this payload carries the `generate` tag.
proof fn is_generate_payload(v: Payload)
    requires
        tag_bytes(v) == tg_generate(),
    ensures
        v matches Payload::Generate,
{
    match v {
        Payload::Generate => {},
        _ => {
            assert(tg_echo()[0] == 0x65 && tg_echo().len() == 4);
            assert(tg_echo_ok()[0] == 0x65 && tg_echo_ok().len() == 7);
            assert(tg_init()[0] == 0x69 && tg_init().len() == 4);
            assert(tg_init_ok()[0] == 0x69 && tg_init_ok().len() == 7);
            assert(tg_broadcast()[0] == 0x62 && tg_broadcast().len() == 9);
            assert(tg_broadcast_ok()[0] == 0x62 && tg_broadcast_ok().len() == 12);
            assert(tg_read()[0] == 0x72 && tg_read().len() == 4);
            assert(tg_read_ok()[0] == 0x72 && tg_read_ok().len() == 7);
            assert(tg_generate()[0] == 0x67 && tg_generate().len() == 8);
            assert(tg_generate_ok()[0] == 0x67 && tg_generate_ok().len() == 11);
            assert(tg_topology()[0] == 0x74 && tg_topology().len() == 8);
            assert(tg_topology_ok()[0] == 0x74 && tg_topology_ok().len() == 11);
            assert(tg_error()[0] == 0x65 && tg_error().len() == 5);
        },
    }
}

/// Reads a `generate` line's tail after its tag: only the correlation
/// ids and the closing braces.
#[verifier::rlimit(100)]
#[verifier::spinoff_prover]
fn branch_generate(s: &[u8], src0: PeerId, dest0: PeerId, pos3: usize, pos4: usize) -> (r: Option<
    Message,
>)
    requires
        header_state(s@, src0, dest0, pos3 as int),
        starts_with(s@, pos3 as int, tg_generate() + seq![0x22u8]),
        pos4 == pos3 + 9,
    ensures
        r matches Some(m) ==> s@ == spec_render(m) && crate::node::msg_wf(m),
        forall|m: Message|
            crate::node::msg_wf(m) && s@ == spec_render(m) ==> r is Some && message_eqv(r->0, m),
{
    let n = s.len();
    let ids = match parse_ids(s, pos4) {
        Some(x) => x,
        None => {
            proof {
                assert forall|m: Message|
                    crate::node::msg_wf(m) && s@ == spec_render(m) implies false by {
                    chain_to_ids(s@, m, src0, dest0, pos3 as int, pos4 as int, tg_generate());
                }
            }
            return None;
        },
    };
    let l_end = make_lit_end();
    if !match_lit(s, ids.2, l_end.as_slice()) {
        proof {
            assert forall|m: Message|
                crate::node::msg_wf(m) && s@ == spec_render(m) implies false by {
                chain_to_ids(s@, m, src0, dest0, pos3 as int, pos4 as int, tg_generate());
                is_generate_payload(m.body.value);
                assert(payload_fields(m.body.value) =~= Seq::<u8>::empty());
                assert(payload_fields(m.body.value) + lit_end() =~= lit_end());
            }
        }
        return None;
    }
    if n - ids.2 != 2 {
        proof {
            assert forall|m: Message|
                crate::node::msg_wf(m) && s@ == spec_render(m) implies false by {
                chain_to_ids(s@, m, src0, dest0, pos3 as int, pos4 as int, tg_generate());
                is_generate_payload(m.body.value);
                assert(payload_fields(m.body.value).len() == 0);
            }
        }
        return None;
    }
    let result = Message {
        src: src0,
        dest: dest0,
        body: Body { msg_id: ids.0, in_reply_to: ids.1, value: Payload::Generate },
    };
    proof {
        assert(tag_bytes(result.body.value) == tg_generate());
        assert(p_src(result) == 8);
        assert(p_tag(result) == pos3);
        assert(p_mid(result) == pos4);
        lemma_starts_with_concat(s@, pos4 as int, msgid_bytes(ids.0), irt_bytes(ids.1));
        assert(p_irt(result) == pos4 + msgid_bytes(ids.0).len());
        assert(p_fields(result) == ids.2);
        assert(payload_fields(result.body.value) =~= Seq::<u8>::empty());
        assert(starts_with(s@, p_fields(result), payload_fields(result.body.value))) by {
            assert(s@.subrange(ids.2 as int, ids.2 as int) =~= Seq::<u8>::empty());
        }
        assert(p_end(result) == ids.2);
        render_assemble(s@, result);
        assert(crate::node::msg_wf(result));
        assert forall|m: Message|
            crate::node::msg_wf(m) && s@ == spec_render(m) implies message_eqv(result, m) by {
            chain_to_ids(s@, m, src0, dest0, pos3 as int, pos4 as int, tg_generate());
            is_generate_payload(m.body.value);
            assert(m.body.msg_id == ids.0 && m.body.in_reply_to == ids.1);
        }
    }
    Some(result)
}

/// Only this payload carries the `topology_ok` tag.
proof fn is_topology_ok_payload(v: Payload)
    requires
        tag_bytes(v) == tg_topology_ok(),
    ensures
        v matches Payload::TopologyOk,
{
    match v {
        Payload::TopologyOk => {},
        _ => {
            assert(tg_echo()[0] == 0x65 && tg_echo().len() == 4);
            assert(tg_echo_ok()[0] == 0x65 && tg_echo_ok().len() == 7);
            assert(tg_init()[0] == 0x69 && tg_init().len() == 4);
            assert(tg_init_ok()[0] == 0x69 && tg_init_ok().len() == 7);
            assert(tg_broadcast()[0] == 0x62 && tg_broadcast().len() == 9);
            assert(tg_broadcast_ok()[0] == 0x62 && tg_broadcast_ok().len() == 12);
            assert(tg_read()[0] == 0x72 && tg_read().len() == 4);
            assert(tg_read_ok()[0] == 0x72 && tg_read_ok().len() == 7);
            assert(tg_generate()[0] == 0x67 && tg_generate().len() == 8);
            assert(tg_generate_ok()[0] == 0x67 && tg_generate_ok().len() == 11);
            assert(tg_topology()[0] == 0x74 && tg_topology().len() == 8);
            assert(tg_topology_ok()[0] == 0x74 && tg_topology_ok().len() == 11);
            assert(tg_error()[0] == 0x65 && tg_error().len() == 5);
        },
    }
}

/// Reads a `topology_ok` line's tail after its tag: only the correlation
/// ids and the closing braces.
#[verifier::rlimit(100)]
#[verifier::spinoff_prover]
fn branch_topology_ok(s: &[u8], src0: PeerId, dest0: PeerId, pos3: usize, pos4: usize) -> (r: Option<
    Message,
>)
    requires
        header_state(s@, src0, dest0, pos3 as int),
        starts_with(s@, pos3 as int, tg_topology_ok() + seq![0x22u8]),
        pos4 == pos3 + 12,
    ensures
        r matches Some(m) ==> s@ == spec_render(m) && crate::node::msg_wf(m),
        forall|m: Message|
            crate::node::msg_wf(m) && s@ == spec_render(m) ==> r is Some && message_eqv(r->0, m),
{
    let n = s.len();
    let ids = match parse_ids(s, pos4) {
        Some(x) => x,
        None => {
            proof {
                assert forall|m: Message|
                    crate::node::msg_wf(m) && s@ == spec_render(m) implies false by {
                    chain_to_ids(s@, m, src0, dest0, pos3 as int, pos4 as int, tg_topology_ok());
                }
            }
            return None;
        },
    };
    let l_end = make_lit_end();
    if !match_lit(s, ids.2, l_end.as_slice()) {
        proof {
            assert forall|m: Message|
                crate::node::msg_wf(m) && s@ == spec_render(m) implies false by {
                chain_to_ids(s@, m, src0, dest0, pos3 as int, pos4 as int, tg_topology_ok());
                is_topology_ok_payload(m.body.value);
                assert(payload_fields(m.body.value) =~= Seq::<u8>::empty());
                assert(payload_fields(m.body.value) + lit_end() =~= lit_end());
            }
        }
        return None;
    }
    if n - ids.2 != 2 {
        proof {
            assert forall|m: Message|
                crate::node::msg_wf(m) && s@ == spec_render(m) implies false by {
                chain_to_ids(s@, m, src0, dest0, pos3 as int, pos4 as int, tg_topology_ok());
                is_topology_ok_payload(m.body.value);
                assert(payload_fields(m.body.value).len() == 0);
            }
        }
        return None;
    }
    let result = Message {
        src: src0,
        dest: dest0,
        body: Body { msg_id: ids.0, in_reply_to: ids.1, value: Payload::TopologyOk },
    };
    proof {
        assert(tag_bytes(result.body.value) == tg_topology_ok());
        assert(p_src(result) == 8);
        assert(p_tag(result) == pos3);
        assert(p_mid(result) == pos4);
        lemma_starts_with_concat(s@, pos4 as int, msgid_bytes(ids.0), irt_bytes(ids.1));
        assert(p_irt(result) == pos4 + msgid_bytes(ids.0).len());
        assert(p_fields(result) == ids.2);
        assert(payload_fields(result.body.value) =~= Seq::<u8>::empty());
        assert(starts_with(s@, p_fields(result), payload_fields(result.body.value))) by {
            assert(s@.subrange(ids.2 as int, ids.2 as int) =~= Seq::<u8>::empty());
        }
        assert(p_end(result) == ids.2);
        render_assemble(s@, result);
        assert(crate::node::msg_wf(result));
        assert forall|m: Message|
            crate::node::msg_wf(m) && s@ == spec_render(m) implies message_eqv(result, m) by {
            chain_to_ids(s@, m, src0, dest0, pos3 as int, pos4 as int, tg_topology_ok());
            is_topology_ok_payload(m.body.value);
            assert(m.body.msg_id == ids.0 && m.body.in_reply_to == ids.1);
        }
    }
    Some(result)
}

/// Only this payload carries the `echo_ok` tag.
proof fn is_echo_ok_payload(v: Payload)
    requires
        tag_bytes(v) == tg_echo_ok(),
    ensures
        v matches Payload::EchoOk { .. },
{
    match v {
        Payload::EchoOk { .. } => {},
        _ => {
            assert(tg_echo()[0] == 0x65 && tg_echo().len() == 4);
            assert(tg_echo_ok()[0] == 0x65 && tg_echo_ok().len() == 7);
            assert(tg_init()[0] == 0x69 && tg_init().len() == 4);
            assert(tg_init_ok()[0] == 0x69 && tg_init_ok().len() == 7);
            assert(tg_broadcast()[0] == 0x62 && tg_broadcast().len() == 9);
            assert(tg_broadcast_ok()[0] == 0x62 && tg_broadcast_ok().len() == 12);
            assert(tg_read()[0] == 0x72 && tg_read().len() == 4);
            assert(tg_read_ok()[0] == 0x72 && tg_read_ok().len() == 7);
            assert(tg_generate()[0] == 0x67 && tg_generate().len() == 8);
            assert(tg_generate_ok()[0] == 0x67 && tg_generate_ok().len() == 11);
            assert(tg_topology()[0] == 0x74 && tg_topology().len() == 8);
            assert(tg_topology_ok()[0] == 0x74 && tg_topology_ok().len() == 11);
            assert(tg_error()[0] == 0x65 && tg_error().len() == 5);
        },
    }
}

/// The full chain for an `echo_ok` line.
#[verifier::rlimit(100)]
#[verifier::spinoff_prover]
proof fn chain_echo_ok_fields(
    s: Seq<u8>,
    m: Message,
    src0: PeerId,
    dest0: PeerId,
    pos3: int,
    pos4: int,
)
    requires
        s == spec_render(m),
        header_state(s, src0, dest0, pos3),
        starts_with(s, pos3, tg_echo_ok() + seq![0x22u8]),
        pos4 == pos3 + 8,
    ensures
        m.src == src0,
        m.dest == dest0,
        m.body.value matches Payload::EchoOk { .. },
        p_mid(m) == pos4,
        starts_with(
            s,
            pos4,
            msgid_bytes(m.body.msg_id) + (irt_bytes(m.body.in_reply_to) + (payload_fields(
                m.body.value,
            ) + lit_end())),
        ),
        starts_with(s, p_fields(m), lit_echo()),
        starts_with(s, p_fields(m) + 9, escape(m.body.value->EchoOk_echo@) + seq![0x22u8]),
        p_end(m) == p_fields(m) + 9 + escape(m.body.value->EchoOk_echo@).len() + 1,
        starts_with(s, p_end(m), lit_end()),
        s.len() == p_end(m) + 2,
{
    chain_to_ids(s, m, src0, dest0, pos3, pos4, tg_echo_ok());
    is_echo_ok_payload(m.body.value);
    render_decomp(s, m);
    match m.body.value {
        Payload::EchoOk { echo } => {
            assert(payload_fields(m.body.value) =~= lit_echo() + ((escape(echo@) + seq![0x22u8])));
            lemma_starts_with_concat(s, p_fields(m), lit_echo(), escape(echo@) + seq![0x22u8]);
        },
        _ => {
            assert(false);
        },
    }
}

/// Reads an `echo_ok` line's tail after its tag.
#[verifier::rlimit(100)]
#[verifier::spinoff_prover]
fn branch_echo_ok(s: &[u8], src0: PeerId, dest0: PeerId, pos3: usize, pos4: usize) -> (r: Option<
    Message,
>)
    requires
        header_state(s@, src0, dest0, pos3 as int),
        starts_with(s@, pos3 as int, tg_echo_ok() + seq![0x22u8]),
        pos4 == pos3 + 8,
    ensures
        r matches Some(m) ==> s@ == spec_render(m) && crate::node::msg_wf(m),
        forall|m: Message|
            crate::node::msg_wf(m) && s@ == spec_render(m) ==> r is Some && message_eqv(r->0, m),
{
    let n = s.len();
    let ids = match parse_ids(s, pos4) {
        Some(x) => x,
        None => {
            proof {
                assert forall|m: Message|
                    crate::node::msg_wf(m) && s@ == spec_render(m) implies false by {
                    chain_to_ids(s@, m, src0, dest0, pos3 as int, pos4 as int, tg_echo_ok());
                }
            }
            return None;
        },
    };
    let l_fld = make_lit_echo();
    if !match_lit(s, ids.2, l_fld.as_slice()) {
        proof {
            assert forall|m: Message|
                crate::node::msg_wf(m) && s@ == spec_render(m) implies false by {
                chain_echo_ok_fields(s@, m, src0, dest0, pos3 as int, pos4 as int);
                assert(p_fields(m) == ids.2);
            }
        }
        return None;
    }
    let st = match parse_string_at(s, ids.2 + 9) {
        Some(x) => x,
        None => {
            proof {
                assert forall|m: Message|
                    crate::node::msg_wf(m) && s@ == spec_render(m) implies false by {
                    chain_echo_ok_fields(s@, m, src0, dest0, pos3 as int, pos4 as int);
                    assert(p_fields(m) == ids.2);
                }
            }
            return None;
        },
    };
    let pos7 = st.1;
    let l_end = make_lit_end();
    if !match_lit(s, pos7, l_end.as_slice()) {
        proof {
            assert forall|m: Message|
                crate::node::msg_wf(m) && s@ == spec_render(m) implies false by {
                chain_echo_ok_fields(s@, m, src0, dest0, pos3 as int, pos4 as int);
                assert(p_fields(m) == ids.2);
                assert(m.body.value->EchoOk_echo@ == st.0@);
            }
        }
        return None;
    }
    if n - pos7 != 2 {
        proof {
            assert forall|m: Message|
                crate::node::msg_wf(m) && s@ == spec_render(m) implies false by {
                chain_echo_ok_fields(s@, m, src0, dest0, pos3 as int, pos4 as int);
                assert(p_fields(m) == ids.2);
                assert(m.body.value->EchoOk_echo@ == st.0@);
                assert(p_end(m) == pos7);
            }
        }
        return None;
    }
    let result = Message {
        src: src0,
        dest: dest0,
        body: Body { msg_id: ids.0, in_reply_to: ids.1, value: Payload::EchoOk { echo: st.0 } },
    };
    proof {
        assert(tag_bytes(result.body.value) == tg_echo_ok());
        assert(p_src(result) == 8);
        assert(p_tag(result) == pos3);
        assert(p_mid(result) == pos4);
        lemma_starts_with_concat(s@, pos4 as int, msgid_bytes(ids.0), irt_bytes(ids.1));
        assert(p_fields(result) == ids.2);
        assert(starts_with(s@, p_fields(result), payload_fields(result.body.value))) by {
            lemma_starts_with_concat(
                s@,
                ids.2 as int,
                lit_echo(),
                escape(result.body.value->EchoOk_echo@) + seq![0x22u8],
            );
            assert(payload_fields(result.body.value) =~= lit_echo() + (escape(
                result.body.value->EchoOk_echo@,
            ) + seq![0x22u8]));
        }
        assert(p_end(result) == pos7);
        render_assemble(s@, result);
        assert(crate::node::msg_wf(result));
        assert forall|m: Message|
            crate::node::msg_wf(m) && s@ == spec_render(m) implies message_eqv(result, m) by {
            chain_echo_ok_fields(s@, m, src0, dest0, pos3 as int, pos4 as int);
            assert(m.body.msg_id == ids.0 && m.body.in_reply_to == ids.1);
            assert(p_fields(m) == ids.2);
            assert(m.body.value->EchoOk_echo@ == st.0@);
        }
    }
    Some(result)
}

/// Only this payload carries the `broadcast` tag.
proof fn is_broadcast_payload(v: Payload)
    requires
        tag_bytes(v) == tg_broadcast(),
    ensures
        v matches Payload::Broadcast { .. },
{
    match v {
        Payload::Broadcast { .. } => {},
        _ => {
            assert(tg_echo()[0] == 0x65 && tg_echo().len() == 4);
            assert(tg_echo_ok()[0] == 0x65 && tg_echo_ok().len() == 7);
            assert(tg_init()[0] == 0x69 && tg_init().len() == 4);
            assert(tg_init_ok()[0] == 0x69 && tg_init_ok().len() == 7);
            assert(tg_broadcast()[0] == 0x62 && tg_broadcast().len() == 9);
            assert(tg_broadcast_ok()[0] == 0x62 && tg_broadcast_ok().len() == 12);
            assert(tg_read()[0] == 0x72 && tg_read().len() == 4);
            assert(tg_read_ok()[0] == 0x72 && tg_read_ok().len() == 7);
            assert(tg_generate()[0] == 0x67 && tg_generate().len() == 8);
            assert(tg_generate_ok()[0] == 0x67 && tg_generate_ok().len() == 11);
            assert(tg_topology()[0] == 0x74 && tg_topology().len() == 8);
            assert(tg_topology_ok()[0] == 0x74 && tg_topology_ok().len() == 11);
            assert(tg_error()[0] == 0x65 && tg_error().len() == 5);
        },
    }
}

/// The full chain for a `broadcast` line.
#[verifier::rlimit(100)]
#[verifier::spinoff_prover]
proof fn chain_broadcast_fields(
    s: Seq<u8>,
    m: Message,
    src0: PeerId,
    dest0: PeerId,
    pos3: int,
    pos4: int,
)
    requires
        s == spec_render(m),
        header_state(s, src0, dest0, pos3),
        starts_with(s, pos3, tg_broadcast() + seq![0x22u8]),
        pos4 == pos3 + 10,
    ensures
        m.src == src0,
        m.dest == dest0,
        m.body.value matches Payload::Broadcast { .. },
        p_mid(m) == pos4,
        starts_with(
            s,
            pos4,
            msgid_bytes(m.body.msg_id) + (irt_bytes(m.body.in_reply_to) + (payload_fields(
                m.body.value,
            ) + lit_end())),
        ),
        starts_with(s, p_fields(m), lit_message()),
        starts_with(s, p_fields(m) + 11, dec_digits(m.body.value->Broadcast_message as nat)),
        p_end(m) == p_fields(m) + 11 + dec_digits(m.body.value->Broadcast_message as nat).len(),
        starts_with(s, p_end(m), lit_end()),
        p_end(m) < s.len() && s[p_end(m)] == 0x7d,
        s.len() == p_end(m) + 2,
{
    chain_to_ids(s, m, src0, dest0, pos3, pos4, tg_broadcast());
    is_broadcast_payload(m.body.value);
    render_decomp(s, m);
    match m.body.value {
        Payload::Broadcast { message } => {
            assert(payload_fields(m.body.value) =~= lit_message() + dec_digits(m.body.value->Broadcast_message as nat));
            lemma_starts_with_concat(
                s,
                p_fields(m),
                lit_message(),
                dec_digits(m.body.value->Broadcast_message as nat),
            );
        },
        _ => {
            assert(false);
        },
    }
    lemma_starts_with_index(s, p_end(m), lit_end(), 0);
}

/// Reads a `broadcast` line's tail after its tag.
#[verifier::rlimit(100)]
#[verifier::spinoff_prover]
fn branch_broadcast(s: &[u8], src0: PeerId, dest0: PeerId, pos3: usize, pos4: usize) -> (r: Option<
    Message,
>)
    requires
        header_state(s@, src0, dest0, pos3 as int),
        starts_with(s@, pos3 as int, tg_broadcast() + seq![0x22u8]),
        pos4 == pos3 + 10,
    ensures
        r matches Some(m) ==> s@ == spec_render(m) && crate::node::msg_wf(m),
        forall|m: Message|
            crate::node::msg_wf(m) && s@ == spec_render(m) ==> r is Some && message_eqv(r->0, m),
{
    let n = s.len();
    let ids = match parse_ids(s, pos4) {
        Some(x) => x,
        None => {
            proof {
                assert forall|m: Message|
                    crate::node::msg_wf(m) && s@ == spec_render(m) implies false by {
                    chain_to_ids(s@, m, src0, dest0, pos3 as int, pos4 as int, tg_broadcast());
                }
            }
            return None;
        },
    };
    let l_fld = make_lit_message();
    if !match_lit(s, ids.2, l_fld.as_slice()) {
        proof {
            assert forall|m: Message|
                crate::node::msg_wf(m) && s@ == spec_render(m) implies false by {
                chain_broadcast_fields(s@, m, src0, dest0, pos3 as int, pos4 as int);
                assert(p_fields(m) == ids.2);
            }
        }
        return None;
    }
    let num = match parse_u64_at(s, ids.2 + 11) {
        Some(x) => x,
        None => {
            proof {
                assert forall|m: Message|
                    crate::node::msg_wf(m) && s@ == spec_render(m) implies false by {
                    chain_broadcast_fields(s@, m, src0, dest0, pos3 as int, pos4 as int);
                    assert(p_fields(m) == ids.2);
                }
            }
            return None;
        },
    };
    proof {
        assert(num.1 == ids.2 + 11 + dec_digits(num.0 as nat).len());
    }
    let pos7 = num.1;
    let l_end = make_lit_end();
    if !match_lit(s, pos7, l_end.as_slice()) {
        proof {
            assert forall|m: Message|
                crate::node::msg_wf(m) && s@ == spec_render(m) implies false by {
                chain_broadcast_fields(s@, m, src0, dest0, pos3 as int, pos4 as int);
                assert(p_fields(m) == ids.2);
                lemma_dec_run_unique(s@, ids.2 + 11, num.0, m.body.value->Broadcast_message);
            }
        }
        return None;
    }
    if n - pos7 != 2 {
        proof {
            assert forall|m: Message|
                crate::node::msg_wf(m) && s@ == spec_render(m) implies false by {
                chain_broadcast_fields(s@, m, src0, dest0, pos3 as int, pos4 as int);
                assert(p_fields(m) == ids.2);
                lemma_dec_run_unique(s@, ids.2 + 11, num.0, m.body.value->Broadcast_message);
                assert(p_end(m) == pos7);
            }
        }
        return None;
    }
    let result = Message {
        src: src0,
        dest: dest0,
        body: Body { msg_id: ids.0, in_reply_to: ids.1, value: Payload::Broadcast { message: num.0 } },
    };
    proof {
        assert(tag_bytes(result.body.value) == tg_broadcast());
        assert(p_src(result) == 8);
        assert(p_tag(result) == pos3);
        assert(p_mid(result) == pos4);
        lemma_starts_with_concat(s@, pos4 as int, msgid_bytes(ids.0), irt_bytes(ids.1));
        assert(p_fields(result) == ids.2);
        assert(starts_with(s@, p_fields(result), payload_fields(result.body.value))) by {
            lemma_starts_with_concat(
                s@,
                ids.2 as int,
                lit_message(),
                dec_digits(num.0 as nat),
            );
            assert(payload_fields(result.body.value) =~= lit_message() + dec_digits(num.0 as nat));
        }
        assert(p_end(result) == pos7);
        render_assemble(s@, result);
        assert(crate::node::msg_wf(result));
        assert forall|m: Message|
            crate::node::msg_wf(m) && s@ == spec_render(m) implies message_eqv(result, m) by {
            chain_broadcast_fields(s@, m, src0, dest0, pos3 as int, pos4 as int);
            assert(m.body.msg_id == ids.0 && m.body.in_reply_to == ids.1);
            assert(p_fields(m) == ids.2);
            lemma_dec_run_unique(s@, ids.2 + 11, num.0, m.body.value->Broadcast_message);
        }
    }
    Some(result)
}

/// Only this payload carries the `generate_ok` tag.
proof fn is_generate_ok_payload(v: Payload)
    requires
        tag_bytes(v) == tg_generate_ok(),
    ensures
        v matches Payload::GenerateOk { .. },
{
    match v {
        Payload::GenerateOk { .. } => {},
        _ => {
            assert(tg_echo()[0] == 0x65 && tg_echo().len() == 4);
            assert(tg_echo_ok()[0] == 0x65 && tg_echo_ok().len() == 7);
            assert(tg_init()[0] == 0x69 && tg_init().len() == 4);
            assert(tg_init_ok()[0] == 0x69 && tg_init_ok().len() == 7);
            assert(tg_broadcast()[0] == 0x62 && tg_broadcast().len() == 9);
            assert(tg_broadcast_ok()[0] == 0x62 && tg_broadcast_ok().len() == 12);
            assert(tg_read()[0] == 0x72 && tg_read().len() == 4);
            assert(tg_read_ok()[0] == 0x72 && tg_read_ok().len() == 7);
            assert(tg_generate()[0] == 0x67 && tg_generate().len() == 8);
            assert(tg_generate_ok()[0] == 0x67 && tg_generate_ok().len() == 11);
            assert(tg_topology()[0] == 0x74 && tg_topology().len() == 8);
            assert(tg_topology_ok()[0] == 0x74 && tg_topology_ok().len() == 11);
            assert(tg_error()[0] == 0x65 && tg_error().len() == 5);
        },
    }
}

/// The full chain for a `generate_ok` line.
#[verifier::rlimit(100)]
#[verifier::spinoff_prover]
proof fn chain_generate_ok_fields(
    s: Seq<u8>,
    m: Message,
    src0: PeerId,
    dest0: PeerId,
    pos3: int,
    pos4: int,
)
    requires
        s == spec_render(m),
        header_state(s, src0, dest0, pos3),
        starts_with(s, pos3, tg_generate_ok() + seq![0x22u8]),
        pos4 == pos3 + 12,
    ensures
        m.src == src0,
        m.dest == dest0,
        m.body.value matches Payload::GenerateOk { .. },
        p_mid(m) == pos4,
        starts_with(
            s,
            pos4,
            msgid_bytes(m.body.msg_id) + (irt_bytes(m.body.in_reply_to) + (payload_fields(
                m.body.value,
            ) + lit_end())),
        ),
        starts_with(s, p_fields(m), lit_id()),
        starts_with(s, p_fields(m) + 6, dec_digits(m.body.value->GenerateOk_id as nat)),
        p_end(m) == p_fields(m) + 6 + dec_digits(m.body.value->GenerateOk_id as nat).len(),
        starts_with(s, p_end(m), lit_end()),
        p_end(m) < s.len() && s[p_end(m)] == 0x7d,
        s.len() == p_end(m) + 2,
{
    chain_to_ids(s, m, src0, dest0, pos3, pos4, tg_generate_ok());
    is_generate_ok_payload(m.body.value);
    render_decomp(s, m);
    match m.body.value {
        Payload::GenerateOk { id } => {
            assert(payload_fields(m.body.value) =~= lit_id() + dec_digits(m.body.value->GenerateOk_id as nat));
            lemma_starts_with_concat(
                s,
                p_fields(m),
                lit_id(),
                dec_digits(m.body.value->GenerateOk_id as nat),
            );
        },
        _ => {
            assert(false);
        },
    }
    lemma_starts_with_index(s, p_end(m), lit_end(), 0);
}

/// Reads a `generate_ok` line's tail after its tag.
#[verifier::rlimit(100)]
#[verifier::spinoff_prover]
fn branch_generate_ok(s: &[u8], src0: PeerId, dest0: PeerId, pos3: usize, pos4: usize) -> (r: Option<
    Message,
>)
    requires
        header_state(s@, src0, dest0, pos3 as int),
        starts_with(s@, pos3 as int, tg_generate_ok() + seq![0x22u8]),
        pos4 == pos3 + 12,
    ensures
        r matches Some(m) ==> s@ == spec_render(m) && crate::node::msg_wf(m),
        forall|m: Message|
            crate::node::msg_wf(m) && s@ == spec_render(m) ==> r is Some && message_eqv(r->0, m),
{
    let n = s.len();
    let ids = match parse_ids(s, pos4) {
        Some(x) => x,
        None => {
            proof {
                assert forall|m: Message|
                    crate::node::msg_wf(m) && s@ == spec_render(m) implies false by {
                    chain_to_ids(s@, m, src0, dest0, pos3 as int, pos4 as int, tg_generate_ok());
                }
            }
            return None;
        },
    };
    let l_fld = make_lit_id();
    if !match_lit(s, ids.2, l_fld.as_slice()) {
        proof {
            assert forall|m: Message|
                crate::node::msg_wf(m) && s@ == spec_render(m) implies false by {
                chain_generate_ok_fields(s@, m, src0, dest0, pos3 as int, pos4 as int);
                assert(p_fields(m) == ids.2);
            }
        }
        return None;
    }
    let num = match parse_u64_at(s, ids.2 + 6) {
        Some(x) => x,
        None => {
            proof {
                assert forall|m: Message|
                    crate::node::msg_wf(m) && s@ == spec_render(m) implies false by {
                    chain_generate_ok_fields(s@, m, src0, dest0, pos3 as int, pos4 as int);
                    assert(p_fields(m) == ids.2);
                }
            }
            return None;
        },
    };
    proof {
        assert(num.1 == ids.2 + 6 + dec_digits(num.0 as nat).len());
    }
    let pos7 = num.1;
    let l_end = make_lit_end();
    if !match_lit(s, pos7, l_end.as_slice()) {
        proof {
            assert forall|m: Message|
                crate::node::msg_wf(m) && s@ == spec_render(m) implies false by {
                chain_generate_ok_fields(s@, m, src0, dest0, pos3 as int, pos4 as int);
                assert(p_fields(m) == ids.2);
                lemma_dec_run_unique(s@, ids.2 + 6, num.0, m.body.value->GenerateOk_id);
            }
        }
        return None;
    }
    if n - pos7 != 2 {
        proof {
            assert forall|m: Message|
                crate::node::msg_wf(m) && s@ == spec_render(m) implies false by {
                chain_generate_ok_fields(s@, m, src0, dest0, pos3 as int, pos4 as int);
                assert(p_fields(m) == ids.2);
                lemma_dec_run_unique(s@, ids.2 + 6, num.0, m.body.value->GenerateOk_id);
                assert(p_end(m) == pos7);
            }
        }
        return None;
    }
    let result = Message {
        src: src0,
        dest: dest0,
        body: Body { msg_id: ids.0, in_reply_to: ids.1, value: Payload::GenerateOk { id: num.0 } },
    };
    proof {
        assert(tag_bytes(result.body.value) == tg_generate_ok());
        assert(p_src(result) == 8);
        assert(p_tag(result) == pos3);
        assert(p_mid(result) == pos4);
        lemma_starts_with_concat(s@, pos4 as int, msgid_bytes(ids.0), irt_bytes(ids.1));
        assert(p_fields(result) == ids.2);
        assert(starts_with(s@, p_fields(result), payload_fields(result.body.value))) by {
            lemma_starts_with_concat(
                s@,
                ids.2 as int,
                lit_id(),
                dec_digits(num.0 as nat),
            );
            assert(payload_fields(result.body.value) =~= lit_id() + dec_digits(num.0 as nat));
        }
        assert(p_end(result) == pos7);
        render_assemble(s@, result);
        assert(crate::node::msg_wf(result));
        assert forall|m: Message|
            crate::node::msg_wf(m) && s@ == spec_render(m) implies message_eqv(result, m) by {
            chain_generate_ok_fields(s@, m, src0, dest0, pos3 as int, pos4 as int);
            assert(m.body.msg_id == ids.0 && m.body.in_reply_to == ids.1);
            assert(p_fields(m) == ids.2);
            lemma_dec_run_unique(s@, ids.2 + 6, num.0, m.body.value->GenerateOk_id);
        }
    }
    Some(result)
}

/// Only this payload carries the `read_ok` tag.
proof fn is_read_ok_payload(v: Payload)
    requires
        tag_bytes(v) == tg_read_ok(),
    ensures
        v matches Payload::ReadOk { .. },
{
    match v {
        Payload::ReadOk { .. } => {},
        _ => {
            assert(tg_echo()[0] == 0x65 && tg_echo().len() == 4);
            assert(tg_echo_ok()[0] == 0x65 && tg_echo_ok().len() == 7);
            assert(tg_init()[0] == 0x69 && tg_init().len() == 4);
            assert(tg_init_ok()[0] == 0x69 && tg_init_ok().len() == 7);
            assert(tg_broadcast()[0] == 0x62 && tg_broadcast().len() == 9);
            assert(tg_broadcast_ok()[0] == 0x62 && tg_broadcast_ok().len() == 12);
            assert(tg_read()[0] == 0x72 && tg_read().len() == 4);
            assert(tg_read_ok()[0] == 0x72 && tg_read_ok().len() == 7);
            assert(tg_generate()[0] == 0x67 && tg_generate().len() == 8);
            assert(tg_generate_ok()[0] == 0x67 && tg_generate_ok().len() == 11);
            assert(tg_topology()[0] == 0x74 && tg_topology().len() == 8);
            assert(tg_topology_ok()[0] == 0x74 && tg_topology_ok().len() == 11);
            assert(tg_error()[0] == 0x65 && tg_error().len() == 5);
        },
    }
}

/// The full chain for a `read_ok` line.
#[verifier::rlimit(100)]
#[verifier::spinoff_prover]
proof fn chain_read_ok_fields(
    s: Seq<u8>,
    m: Message,
    src0: PeerId,
    dest0: PeerId,
    pos3: int,
    pos4: int,
)
    requires
        s == spec_render(m),
        header_state(s, src0, dest0, pos3),
        starts_with(s, pos3, tg_read_ok() + seq![0x22u8]),
        pos4 == pos3 + 8,
    ensures
        m.src == src0,
        m.dest == dest0,
        m.body.value matches Payload::ReadOk { .. },
        p_mid(m) == pos4,
        starts_with(
            s,
            pos4,
            msgid_bytes(m.body.msg_id) + (irt_bytes(m.body.in_reply_to) + (payload_fields(
                m.body.value,
            ) + lit_end())),
        ),
        starts_with(s, p_fields(m), lit_messages()),
        starts_with(s, p_fields(m) + 12, u64_array(m.body.value->ReadOk_messages@)),
        p_end(m) == p_fields(m) + 12 + u64_array(m.body.value->ReadOk_messages@).len(),
        starts_with(s, p_end(m), lit_end()),
        s.len() == p_end(m) + 2,
{
    chain_to_ids(s, m, src0, dest0, pos3, pos4, tg_read_ok());
    is_read_ok_payload(m.body.value);
    render_decomp(s, m);
    match m.body.value {
        Payload::ReadOk { messages } => {
            assert(payload_fields(m.body.value) =~= lit_messages() + u64_array(messages@));
            lemma_starts_with_concat(s, p_fields(m), lit_messages(), u64_array(messages@));
        },
        _ => {
            assert(false);
        },
    }
}

/// Reads a `read_ok` line's tail after its tag.
#[verifier::rlimit(100)]
#[verifier::spinoff_prover]
fn branch_read_ok(s: &[u8], src0: PeerId, dest0: PeerId, pos3: usize, pos4: usize) -> (r: Option<
    Message,
>)
    requires
        header_state(s@, src0, dest0, pos3 as int),
        starts_with(s@, pos3 as int, tg_read_ok() + seq![0x22u8]),
        pos4 == pos3 + 8,
    ensures
        r matches Some(m) ==> s@ == spec_render(m) && crate::node::msg_wf(m),
        forall|m: Message|
            crate::node::msg_wf(m) && s@ == spec_render(m) ==> r is Some && message_eqv(r->0, m),
{
    let n = s.len();
    let ids = match parse_ids(s, pos4) {
        Some(x) => x,
        None => {
            proof {
                assert forall|m: Message|
                    crate::node::msg_wf(m) && s@ == spec_render(m) implies false by {
                    chain_to_ids(s@, m, src0, dest0, pos3 as int, pos4 as int, tg_read_ok());
                }
            }
            return None;
        },
    };
    let l_fld = make_lit_messages();
    if !match_lit(s, ids.2, l_fld.as_slice()) {
        proof {
            assert forall|m: Message|
                crate::node::msg_wf(m) && s@ == spec_render(m) implies false by {
                chain_read_ok_fields(s@, m, src0, dest0, pos3 as int, pos4 as int);
                assert(p_fields(m) == ids.2);
            }
        }
        return None;
    }
    let arr = match parse_u64_array(s, ids.2 + 12) {
        Some(x) => x,
        None => {
            proof {
                assert forall|m: Message|
                    crate::node::msg_wf(m) && s@ == spec_render(m) implies false by {
                    chain_read_ok_fields(s@, m, src0, dest0, pos3 as int, pos4 as int);
                    assert(p_fields(m) == ids.2);
                }
            }
            return None;
        },
    };
    let pos7 = arr.1;
    let l_end = make_lit_end();
    if !match_lit(s, pos7, l_end.as_slice()) {
        proof {
            assert forall|m: Message|
                crate::node::msg_wf(m) && s@ == spec_render(m) implies false by {
                chain_read_ok_fields(s@, m, src0, dest0, pos3 as int, pos4 as int);
                assert(p_fields(m) == ids.2);
                assert(m.body.value->ReadOk_messages@ == arr.0@);
            }
        }
        return None;
    }
    if n - pos7 != 2 {
        proof {
            assert forall|m: Message|
                crate::node::msg_wf(m) && s@ == spec_render(m) implies false by {
                chain_read_ok_fields(s@, m, src0, dest0, pos3 as int, pos4 as int);
                assert(p_fields(m) == ids.2);
                assert(m.body.value->ReadOk_messages@ == arr.0@);
                assert(p_end(m) == pos7);
            }
        }
        return None;
    }
    let result = Message {
        src: src0,
        dest: dest0,
        body: Body {
            msg_id: ids.0,
            in_reply_to: ids.1,
            value: Payload::ReadOk { messages: arr.0 },
        },
    };
    proof {
        assert(tag_bytes(result.body.value) == tg_read_ok());
        assert(p_src(result) == 8);
        assert(p_tag(result) == pos3);
        assert(p_mid(result) == pos4);
        lemma_starts_with_concat(s@, pos4 as int, msgid_bytes(ids.0), irt_bytes(ids.1));
        assert(p_fields(result) == ids.2);
        assert(starts_with(s@, p_fields(result), payload_fields(result.body.value))) by {
            lemma_starts_with_concat(
                s@,
                ids.2 as int,
                lit_messages(),
                u64_array(result.body.value->ReadOk_messages@),
            );
            assert(payload_fields(result.body.value) =~= lit_messages() + u64_array(
                result.body.value->ReadOk_messages@,
            ));
        }
        assert(p_end(result) == pos7);
        render_assemble(s@, result);
        assert(crate::node::msg_wf(result));
        assert forall|m: Message|
            crate::node::msg_wf(m) && s@ == spec_render(m) implies message_eqv(result, m) by {
            chain_read_ok_fields(s@, m, src0, dest0, pos3 as int, pos4 as int);
            assert(m.body.msg_id == ids.0 && m.body.in_reply_to == ids.1);
            assert(p_fields(m) == ids.2);
            assert(m.body.value->ReadOk_messages@ == arr.0@);
        }
    }
    Some(result)
}

/// Only this payload carries the `topology` tag.
proof fn is_topology_payload(v: Payload)
    requires
        tag_bytes(v) == tg_topology(),
    ensures
        v matches Payload::Topology { .. },
{
    match v {
        Payload::Topology { .. } => {},
        _ => {
            assert(tg_echo()[0] == 0x65 && tg_echo().len() == 4);
            assert(tg_echo_ok()[0] == 0x65 && tg_echo_ok().len() == 7);
            assert(tg_init()[0] == 0x69 && tg_init().len() == 4);
            assert(tg_init_ok()[0] == 0x69 && tg_init_ok().len() == 7);
            assert(tg_broadcast()[0] == 0x62 && tg_broadcast().len() == 9);
            assert(tg_broadcast_ok()[0] == 0x62 && tg_broadcast_ok().len() == 12);
            assert(tg_read()[0] == 0x72 && tg_read().len() == 4);
            assert(tg_read_ok()[0] == 0x72 && tg_read_ok().len() == 7);
            assert(tg_generate()[0] == 0x67 && tg_generate().len() == 8);
            assert(tg_generate_ok()[0] == 0x67 && tg_generate_ok().len() == 11);
            assert(tg_topology()[0] == 0x74 && tg_topology().len() == 8);
            assert(tg_topology_ok()[0] == 0x74 && tg_topology_ok().len() == 11);
            assert(tg_error()[0] == 0x65 && tg_error().len() == 5);
        },
    }
}

/// The full chain for a `topology` line.
#[verifier::rlimit(100)]
#[verifier::spinoff_prover]
proof fn chain_topology_fields(
    s: Seq<u8>,
    m: Message,
    src0: PeerId,
    dest0: PeerId,
    pos3: int,
    pos4: int,
)
    requires
        s == spec_render(m),
        header_state(s, src0, dest0, pos3),
        starts_with(s, pos3, tg_topology() + seq![0x22u8]),
        pos4 == pos3 + 9,
    ensures
        m.src == src0,
        m.dest == dest0,
        m.body.value matches Payload::Topology { .. },
        p_mid(m) == pos4,
        starts_with(
            s,
            pos4,
            msgid_bytes(m.body.msg_id) + (irt_bytes(m.body.in_reply_to) + (payload_fields(
                m.body.value,
            ) + lit_end())),
        ),
        starts_with(s, p_fields(m), lit_topology()),
        starts_with(
            s,
            p_fields(m) + 12,
            topo_object(crate::topology::pairs_view(m.body.value->Topology_topology@)),
        ),
        p_end(m) == p_fields(m) + 12 + topo_object(
            crate::topology::pairs_view(m.body.value->Topology_topology@),
        ).len(),
        starts_with(s, p_end(m), lit_end()),
        s.len() == p_end(m) + 2,
{
    chain_to_ids(s, m, src0, dest0, pos3, pos4, tg_topology());
    is_topology_payload(m.body.value);
    render_decomp(s, m);
    match m.body.value {
        Payload::Topology { topology } => {
            assert(payload_fields(m.body.value) =~= lit_topology() + topo_object(
                crate::topology::pairs_view(topology@),
            ));
            lemma_starts_with_concat(
                s,
                p_fields(m),
                lit_topology(),
                topo_object(crate::topology::pairs_view(topology@)),
            );
        },
        _ => {
            assert(false);
        },
    }
}

/// Reads a `topology` line's tail after its tag.
#[verifier::rlimit(100)]
#[verifier::spinoff_prover]
fn branch_topology(s: &[u8], src0: PeerId, dest0: PeerId, pos3: usize, pos4: usize) -> (r: Option<
    Message,
>)
    requires
        header_state(s@, src0, dest0, pos3 as int),
        starts_with(s@, pos3 as int, tg_topology() + seq![0x22u8]),
        pos4 == pos3 + 9,
    ensures
        r matches Some(m) ==> s@ == spec_render(m) && crate::node::msg_wf(m),
        forall|m: Message|
            crate::node::msg_wf(m) && s@ == spec_render(m) ==> r is Some && message_eqv(r->0, m),
{
    let n = s.len();
    let ids = match parse_ids(s, pos4) {
        Some(x) => x,
        None => {
            proof {
                assert forall|m: Message|
                    crate::node::msg_wf(m) && s@ == spec_render(m) implies false by {
                    chain_to_ids(s@, m, src0, dest0, pos3 as int, pos4 as int, tg_topology());
                }
            }
            return None;
        },
    };
    let l_fld = make_lit_topology();
    if !match_lit(s, ids.2, l_fld.as_slice()) {
        proof {
            assert forall|m: Message|
                crate::node::msg_wf(m) && s@ == spec_render(m) implies false by {
                chain_topology_fields(s@, m, src0, dest0, pos3 as int, pos4 as int);
                assert(p_fields(m) == ids.2);
            }
        }
        return None;
    }
    let tp = match parse_topology(s, ids.2 + 12) {
        Some(x) => x,
        None => {
            proof {
                assert forall|m: Message|
                    crate::node::msg_wf(m) && s@ == spec_render(m) implies false by {
                    chain_topology_fields(s@, m, src0, dest0, pos3 as int, pos4 as int);
                    assert(p_fields(m) == ids.2);
                    assert(crate::topology::pair_keys(
                        crate::topology::pairs_view(m.body.value->Topology_topology@),
                    ).no_duplicates());
                }
            }
            return None;
        },
    };
    let pos7 = tp.1;
    let l_end = make_lit_end();
    if !match_lit(s, pos7, l_end.as_slice()) {
        proof {
            assert forall|m: Message|
                crate::node::msg_wf(m) && s@ == spec_render(m) implies false by {
                chain_topology_fields(s@, m, src0, dest0, pos3 as int, pos4 as int);
                assert(p_fields(m) == ids.2);
                assert(crate::topology::pairs_view(m.body.value->Topology_topology@)
                    == crate::topology::pairs_view(tp.0@));
            }
        }
        return None;
    }
    if n - pos7 != 2 {
        proof {
            assert forall|m: Message|
                crate::node::msg_wf(m) && s@ == spec_render(m) implies false by {
                chain_topology_fields(s@, m, src0, dest0, pos3 as int, pos4 as int);
                assert(p_fields(m) == ids.2);
                assert(crate::topology::pairs_view(m.body.value->Topology_topology@)
                    == crate::topology::pairs_view(tp.0@));
                assert(p_end(m) == pos7);
            }
        }
        return None;
    }
    let result = Message {
        src: src0,
        dest: dest0,
        body: Body {
            msg_id: ids.0,
            in_reply_to: ids.1,
            value: Payload::Topology { topology: tp.0 },
        },
    };
    proof {
        assert(tag_bytes(result.body.value) == tg_topology());
        assert(p_src(result) == 8);
        assert(p_tag(result) == pos3);
        assert(p_mid(result) == pos4);
        lemma_starts_with_concat(s@, pos4 as int, msgid_bytes(ids.0), irt_bytes(ids.1));
        assert(p_fields(result) == ids.2);
        assert(starts_with(s@, p_fields(result), payload_fields(result.body.value))) by {
            lemma_starts_with_concat(
                s@,
                ids.2 as int,
                lit_topology(),
                topo_object(crate::topology::pairs_view(result.body.value->Topology_topology@)),
            );
            assert(payload_fields(result.body.value) =~= lit_topology() + topo_object(
                crate::topology::pairs_view(result.body.value->Topology_topology@),
            ));
        }
        assert(p_end(result) == pos7);
        render_assemble(s@, result);
        assert(crate::node::msg_wf(result));
        assert forall|m: Message|
            crate::node::msg_wf(m) && s@ == spec_render(m) implies message_eqv(result, m) by {
            chain_topology_fields(s@, m, src0, dest0, pos3 as int, pos4 as int);
            assert(m.body.msg_id == ids.0 && m.body.in_reply_to == ids.1);
            assert(p_fields(m) == ids.2);
            assert(crate::topology::pairs_view(m.body.value->Topology_topology@)
                == crate::topology::pairs_view(tp.0@));
        }
    }
    Some(result)
}

/// Only this payload carries the `init` tag.
proof fn is_init_payload(v: Payload)
    requires
        tag_bytes(v) == tg_init(),
    ensures
        v matches Payload::Init { .. },
{
    match v {
        Payload::Init { .. } => {},
        _ => {
            assert(tg_echo()[0] == 0x65 && tg_echo().len() == 4);
            assert(tg_echo_ok()[0] == 0x65 && tg_echo_ok().len() == 7);
            assert(tg_init()[0] == 0x69 && tg_init().len() == 4);
            assert(tg_init_ok()[0] == 0x69 && tg_init_ok().len() == 7);
            assert(tg_broadcast()[0] == 0x62 && tg_broadcast().len() == 9);
            assert(tg_broadcast_ok()[0] == 0x62 && tg_broadcast_ok().len() == 12);
            assert(tg_read()[0] == 0x72 && tg_read().len() == 4);
            assert(tg_read_ok()[0] == 0x72 && tg_read_ok().len() == 7);
            assert(tg_generate()[0] == 0x67 && tg_generate().len() == 8);
            assert(tg_generate_ok()[0] == 0x67 && tg_generate_ok().len() == 11);
            assert(tg_topology()[0] == 0x74 && tg_topology().len() == 8);
            assert(tg_topology_ok()[0] == 0x74 && tg_topology_ok().len() == 11);
            assert(tg_error()[0] == 0x65 && tg_error().len() == 5);
        },
    }
}

/// The full chain for an `init` line.
#[verifier::rlimit(100)]
#[verifier::spinoff_prover]
proof fn chain_init_fields(
    s: Seq<u8>,
    m: Message,
    src0: PeerId,
    dest0: PeerId,
    pos3: int,
    pos4: int,
)
    requires
        s == spec_render(m),
        header_state(s, src0, dest0, pos3),
        starts_with(s, pos3, tg_init() + seq![0x22u8]),
        pos4 == pos3 + 5,
    ensures
        m.src == src0,
        m.dest == dest0,
        m.body.value matches Payload::Init { .. },
        p_mid(m) == pos4,
        starts_with(
            s,
            pos4,
            msgid_bytes(m.body.msg_id) + (irt_bytes(m.body.in_reply_to) + (payload_fields(
                m.body.value,
            ) + lit_end())),
        ),
        starts_with(s, p_fields(m), lit_node_id()),
        starts_with(s, p_fields(m) + 11, node_item(m.body.value->Init_node_id)),
        starts_with(
            s,
            p_fields(m) + 11 + node_item(m.body.value->Init_node_id).len(),
            lit_node_ids(),
        ),
        starts_with(
            s,
            p_fields(m) + 11 + node_item(m.body.value->Init_node_id).len() + 12,
            nid_array(m.body.value->Init_node_ids@),
        ),
        p_end(m) == p_fields(m) + 11 + node_item(m.body.value->Init_node_id).len() + 12
            + nid_array(m.body.value->Init_node_ids@).len(),
        starts_with(s, p_end(m), lit_end()),
        s.len() == p_end(m) + 2,
{
    chain_to_ids(s, m, src0, dest0, pos3, pos4, tg_init());
    is_init_payload(m.body.value);
    render_decomp(s, m);
    match m.body.value {
        Payload::Init { node_id, node_ids } => {
            assert(payload_fields(m.body.value) =~= lit_node_id() + (node_item(node_id) + (
            lit_node_ids() + nid_array(node_ids@))));
            lemma_starts_with_concat(
                s,
                p_fields(m),
                lit_node_id(),
                node_item(node_id) + (lit_node_ids() + nid_array(node_ids@)),
            );
            lemma_starts_with_concat(
                s,
                p_fields(m) + 11,
                node_item(node_id),
                lit_node_ids() + nid_array(node_ids@),
            );
            lemma_starts_with_concat(
                s,
                p_fields(m) + 11 + node_item(node_id).len(),
                lit_node_ids(),
                nid_array(node_ids@),
            );
        },
        _ => {
            assert(false);
        },
    }
}

/// Reads an `init` line's tail after its tag.
#[verifier::rlimit(100)]
#[verifier::spinoff_prover]
fn branch_init(s: &[u8], src0: PeerId, dest0: PeerId, pos3: usize, pos4: usize) -> (r: Option<
    Message,
>)
    requires
        header_state(s@, src0, dest0, pos3 as int),
        starts_with(s@, pos3 as int, tg_init() + seq![0x22u8]),
        pos4 == pos3 + 5,
    ensures
        r matches Some(m) ==> s@ == spec_render(m) && crate::node::msg_wf(m),
        forall|m: Message|
            crate::node::msg_wf(m) && s@ == spec_render(m) ==> r is Some && message_eqv(r->0, m),
{
    let n = s.len();
    let ids = match parse_ids(s, pos4) {
        Some(x) => x,
        None => {
            proof {
                assert forall|m: Message|
                    crate::node::msg_wf(m) && s@ == spec_render(m) implies false by {
                    chain_to_ids(s@, m, src0, dest0, pos3 as int, pos4 as int, tg_init());
                }
            }
            return None;
        },
    };
    let l_fld = make_lit_node_id();
    if !match_lit(s, ids.2, l_fld.as_slice()) {
        proof {
            assert forall|m: Message|
                crate::node::msg_wf(m) && s@ == spec_render(m) implies false by {
                chain_init_fields(s@, m, src0, dest0, pos3 as int, pos4 as int);
                assert(p_fields(m) == ids.2);
            }
        }
        return None;
    }
    let nd = match parse_node_at(s, ids.2 + 11) {
        Some(x) => x,
        None => {
            proof {
                assert forall|m: Message|
                    crate::node::msg_wf(m) && s@ == spec_render(m) implies false by {
                    chain_init_fields(s@, m, src0, dest0, pos3 as int, pos4 as int);
                    assert(p_fields(m) == ids.2);
                }
            }
            return None;
        },
    };
    let l_nids = make_lit_node_ids();
    if !match_lit(s, nd.1, l_nids.as_slice()) {
        proof {
            assert forall|m: Message|
                crate::node::msg_wf(m) && s@ == spec_render(m) implies false by {
                chain_init_fields(s@, m, src0, dest0, pos3 as int, pos4 as int);
                assert(p_fields(m) == ids.2);
                assert(m.body.value->Init_node_id == nd.0);
            }
        }
        return None;
    }
    let arr = match parse_nid_array(s, nd.1 + 12) {
        Some(x) => x,
        None => {
            proof {
                assert forall|m: Message|
                    crate::node::msg_wf(m) && s@ == spec_render(m) implies false by {
                    chain_init_fields(s@, m, src0, dest0, pos3 as int, pos4 as int);
                    assert(p_fields(m) == ids.2);
                    assert(m.body.value->Init_node_id == nd.0);
                }
            }
            return None;
        },
    };
    let pos7 = arr.1;
    let l_end = make_lit_end();
    if !match_lit(s, pos7, l_end.as_slice()) {
        proof {
            assert forall|m: Message|
                crate::node::msg_wf(m) && s@ == spec_render(m) implies false by {
                chain_init_fields(s@, m, src0, dest0, pos3 as int, pos4 as int);
                assert(p_fields(m) == ids.2);
                assert(m.body.value->Init_node_id == nd.0);
                assert(m.body.value->Init_node_ids@ == arr.0@);
            }
        }
        return None;
    }
    if n - pos7 != 2 {
        proof {
            assert forall|m: Message|
                crate::node::msg_wf(m) && s@ == spec_render(m) implies false by {
                chain_init_fields(s@, m, src0, dest0, pos3 as int, pos4 as int);
                assert(p_fields(m) == ids.2);
                assert(m.body.value->Init_node_id == nd.0);
                assert(m.body.value->Init_node_ids@ == arr.0@);
                assert(p_end(m) == pos7);
            }
        }
        return None;
    }
    let result = Message {
        src: src0,
        dest: dest0,
        body: Body {
            msg_id: ids.0,
            in_reply_to: ids.1,
            value: Payload::Init { node_id: nd.0, node_ids: arr.0 },
        },
    };
    proof {
        assert(tag_bytes(result.body.value) == tg_init());
        assert(p_src(result) == 8);
        assert(p_tag(result) == pos3);
        assert(p_mid(result) == pos4);
        lemma_starts_with_concat(s@, pos4 as int, msgid_bytes(ids.0), irt_bytes(ids.1));
        assert(p_fields(result) == ids.2);
        assert(starts_with(s@, p_fields(result), payload_fields(result.body.value))) by {
            lemma_starts_with_concat(
                s@,
                nd.1 as int,
                lit_node_ids(),
                nid_array(result.body.value->Init_node_ids@),
            );
            lemma_starts_with_concat(
                s@,
                ids.2 + 11,
                node_item(result.body.value->Init_node_id),
                lit_node_ids() + nid_array(result.body.value->Init_node_ids@),
            );
            lemma_starts_with_concat(
                s@,
                ids.2 as int,
                lit_node_id(),
                node_item(result.body.value->Init_node_id) + (lit_node_ids() + nid_array(
                    result.body.value->Init_node_ids@,
                )),
            );
            assert(payload_fields(result.body.value) =~= lit_node_id() + (node_item(
                result.body.value->Init_node_id,
            ) + (lit_node_ids() + nid_array(result.body.value->Init_node_ids@))));
        }
        assert(p_end(result) == pos7);
        render_assemble(s@, result);
        assert(crate::node::msg_wf(result));
        assert forall|m: Message|
            crate::node::msg_wf(m) && s@ == spec_render(m) implies message_eqv(result, m) by {
            chain_init_fields(s@, m, src0, dest0, pos3 as int, pos4 as int);
            assert(m.body.msg_id == ids.0 && m.body.in_reply_to == ids.1);
            assert(p_fields(m) == ids.2);
            assert(m.body.value->Init_node_id == nd.0);
            assert(m.body.value->Init_node_ids@ == arr.0@);
        }
    }
    Some(result)
}

/// Only this payload carries the `error` tag.
proof fn is_error_payload(v: Payload)
    requires
        tag_bytes(v) == tg_error(),
    ensures
        v matches Payload::Error { .. },
{
    match v {
        Payload::Error { .. } => {},
        _ => {
            assert(tg_echo()[0] == 0x65 && tg_echo().len() == 4);
            assert(tg_echo_ok()[0] == 0x65 && tg_echo_ok().len() == 7);
            assert(tg_init()[0] == 0x69 && tg_init().len() == 4);
            assert(tg_init_ok()[0] == 0x69 && tg_init_ok().len() == 7);
            assert(tg_broadcast()[0] == 0x62 && tg_broadcast().len() == 9);
            assert(tg_broadcast_ok()[0] == 0x62 && tg_broadcast_ok().len() == 12);
            assert(tg_read()[0] == 0x72 && tg_read().len() == 4);
            assert(tg_read_ok()[0] == 0x72 && tg_read_ok().len() == 7);
            assert(tg_generate()[0] == 0x67 && tg_generate().len() == 8);
            assert(tg_generate_ok()[0] == 0x67 && tg_generate_ok().len() == 11);
            assert(tg_topology()[0] == 0x74 && tg_topology().len() == 8);
            assert(tg_topology_ok()[0] == 0x74 && tg_topology_ok().len() == 11);
            assert(tg_error()[0] == 0x65 && tg_error().len() == 5);
        },
    }
}

/// Distinct error codes carry distinct integers.
proof fn spec_code_injective(a: ErrorCode, b: ErrorCode)
    requires
        a.spec_code() == b.spec_code(),
    ensures
        a == b,
{
}

/// The full chain for an `error` line.
#[verifier::rlimit(100)]
#[verifier::spinoff_prover]
proof fn chain_error_fields(
    s: Seq<u8>,
    m: Message,
    src0: PeerId,
    dest0: PeerId,
    pos3: int,
    pos4: int,
)
    requires
        s == spec_render(m),
        header_state(s, src0, dest0, pos3),
        starts_with(s, pos3, tg_error() + seq![0x22u8]),
        pos4 == pos3 + 6,
    ensures
        m.src == src0,
        m.dest == dest0,
        m.body.value matches Payload::Error { .. },
        p_mid(m) == pos4,
        starts_with(
            s,
            pos4,
            msgid_bytes(m.body.msg_id) + (irt_bytes(m.body.in_reply_to) + (payload_fields(
                m.body.value,
            ) + lit_end())),
        ),
        starts_with(s, p_fields(m), lit_code()),
        starts_with(
            s,
            p_fields(m) + 8,
            dec_digits(m.body.value->Error_code.spec_code() as nat),
        ),
        starts_with(
            s,
            p_fields(m) + 8 + dec_digits(m.body.value->Error_code.spec_code() as nat).len(),
            lit_text(),
        ),
        !is_dec_digit(
            s[p_fields(m) + 8 + dec_digits(m.body.value->Error_code.spec_code() as nat).len()],
        ),
        p_fields(m) + 8 + dec_digits(m.body.value->Error_code.spec_code() as nat).len() < s.len(),
        starts_with(
            s,
            p_fields(m) + 8 + dec_digits(m.body.value->Error_code.spec_code() as nat).len() + 9,
            escape(m.body.value->Error_text@) + seq![0x22u8],
        ),
        p_end(m) == p_fields(m) + 8 + dec_digits(
            m.body.value->Error_code.spec_code() as nat,
        ).len() + 9 + escape(m.body.value->Error_text@).len() + 1,
        starts_with(s, p_end(m), lit_end()),
        s.len() == p_end(m) + 2,
{
    chain_to_ids(s, m, src0, dest0, pos3, pos4, tg_error());
    is_error_payload(m.body.value);
    render_decomp(s, m);
    match m.body.value {
        Payload::Error { code, text } => {
            assert(payload_fields(m.body.value) =~= lit_code() + (dec_digits(
                code.spec_code() as nat,
            ) + (lit_text() + (escape(text@) + seq![0x22u8]))));
            lemma_starts_with_concat(
                s,
                p_fields(m),
                lit_code(),
                dec_digits(code.spec_code() as nat) + (lit_text() + (escape(text@)
                    + seq![0x22u8])),
            );
            lemma_starts_with_concat(
                s,
                p_fields(m) + 8,
                dec_digits(code.spec_code() as nat),
                lit_text() + (escape(text@) + seq![0x22u8]),
            );
            lemma_starts_with_concat(
                s,
                p_fields(m) + 8 + dec_digits(code.spec_code() as nat).len(),
                lit_text(),
                escape(text@) + seq![0x22u8],
            );
            lemma_starts_with_index(
                s,
                p_fields(m) + 8 + dec_digits(code.spec_code() as nat).len(),
                lit_text(),
                0,
            );
        },
        _ => {
            assert(false);
        },
    }
}

/// Reads an `error` line's tail after its tag.
#[verifier::rlimit(100)]
#[verifier::spinoff_prover]
fn branch_error(s: &[u8], src0: PeerId, dest0: PeerId, pos3: usize, pos4: usize) -> (r: Option<
    Message,
>)
    requires
        header_state(s@, src0, dest0, pos3 as int),
        starts_with(s@, pos3 as int, tg_error() + seq![0x22u8]),
        pos4 == pos3 + 6,
    ensures
        r matches Some(m) ==> s@ == spec_render(m) && crate::node::msg_wf(m),
        forall|m: Message|
            crate::node::msg_wf(m) && s@ == spec_render(m) ==> r is Some && message_eqv(r->0, m),
{
    let n = s.len();
    let ids = match parse_ids(s, pos4) {
        Some(x) => x,
        None => {
            proof {
                assert forall|m: Message|
                    crate::node::msg_wf(m) && s@ == spec_render(m) implies false by {
                    chain_to_ids(s@, m, src0, dest0, pos3 as int, pos4 as int, tg_error());
                }
            }
            return None;
        },
    };
    let l_fld = make_lit_code();
    if !match_lit(s, ids.2, l_fld.as_slice()) {
        proof {
            assert forall|m: Message|
                crate::node::msg_wf(m) && s@ == spec_render(m) implies false by {
                chain_error_fields(s@, m, src0, dest0, pos3 as int, pos4 as int);
                assert(p_fields(m) == ids.2);
            }
        }
        return None;
    }
    let num = match parse_u64_at(s, ids.2 + 8) {
        Some(x) => x,
        None => {
            proof {
                assert forall|m: Message|
                    crate::node::msg_wf(m) && s@ == spec_render(m) implies false by {
                    chain_error_fields(s@, m, src0, dest0, pos3 as int, pos4 as int);
                    assert(p_fields(m) == ids.2);
                }
            }
            return None;
        },
    };
    let code = match ErrorCode::from_code(num.0) {
        Some(c) => c,
        None => {
            proof {
                assert forall|m: Message|
                    crate::node::msg_wf(m) && s@ == spec_render(m) implies false by {
                    chain_error_fields(s@, m, src0, dest0, pos3 as int, pos4 as int);
                    assert(p_fields(m) == ids.2);
                    lemma_dec_run_unique(
                        s@,
                        ids.2 + 8,
                        num.0,
                        m.body.value->Error_code.spec_code(),
                    );
                }
            }
            return None;
        },
    };
    let l_txt = make_lit_text();
    if !match_lit(s, num.1, l_txt.as_slice()) {
        proof {
            assert forall|m: Message|
                crate::node::msg_wf(m) && s@ == spec_render(m) implies false by {
                chain_error_fields(s@, m, src0, dest0, pos3 as int, pos4 as int);
                assert(p_fields(m) == ids.2);
                lemma_dec_run_unique(
                    s@,
                    ids.2 + 8,
                    num.0,
                    m.body.value->Error_code.spec_code(),
                );
            }
        }
        return None;
    }
    let st = match parse_string_at(s, num.1 + 9) {
        Some(x) => x,
        None => {
            proof {
                assert forall|m: Message|
                    crate::node::msg_wf(m) && s@ == spec_render(m) implies false by {
                    chain_error_fields(s@, m, src0, dest0, pos3 as int, pos4 as int);
                    assert(p_fields(m) == ids.2);
                    lemma_dec_run_unique(
                        s@,
                        ids.2 + 8,
                        num.0,
                        m.body.value->Error_code.spec_code(),
                    );
                }
            }
            return None;
        },
    };
    let pos7 = st.1;
    let l_end = make_lit_end();
    if !match_lit(s, pos7, l_end.as_slice()) {
        proof {
            assert forall|m: Message|
                crate::node::msg_wf(m) && s@ == spec_render(m) implies false by {
                chain_error_fields(s@, m, src0, dest0, pos3 as int, pos4 as int);
                assert(p_fields(m) == ids.2);
                lemma_dec_run_unique(
                    s@,
                    ids.2 + 8,
                    num.0,
                    m.body.value->Error_code.spec_code(),
                );
                assert(m.body.value->Error_text@ == st.0@);
            }
        }
        return None;
    }
    if n - pos7 != 2 {
        proof {
            assert forall|m: Message|
                crate::node::msg_wf(m) && s@ == spec_render(m) implies false by {
                chain_error_fields(s@, m, src0, dest0, pos3 as int, pos4 as int);
                assert(p_fields(m) == ids.2);
                lemma_dec_run_unique(
                    s@,
                    ids.2 + 8,
                    num.0,
                    m.body.value->Error_code.spec_code(),
                );
                assert(m.body.value->Error_text@ == st.0@);
                assert(p_end(m) == pos7);
            }
        }
        return None;
    }
    let result = Message {
        src: src0,
        dest: dest0,
        body: Body {
            msg_id: ids.0,
            in_reply_to: ids.1,
            value: Payload::Error { code, text: st.0 },
        },
    };
    proof {
        assert(tag_bytes(result.body.value) == tg_error());
        assert(p_src(result) == 8);
        assert(p_tag(result) == pos3);
        assert(p_mid(result) == pos4);
        lemma_starts_with_concat(s@, pos4 as int, msgid_bytes(ids.0), irt_bytes(ids.1));
        assert(p_fields(result) == ids.2);
        assert(starts_with(s@, p_fields(result), payload_fields(result.body.value))) by {
            assert(code.spec_code() == num.0);
            lemma_starts_with_concat(
                s@,
                num.1 as int,
                lit_text(),
                escape(result.body.value->Error_text@) + seq![0x22u8],
            );
            lemma_starts_with_concat(
                s@,
                ids.2 + 8,
                dec_digits(num.0 as nat),
                lit_text() + (escape(result.body.value->Error_text@) + seq![0x22u8]),
            );
            lemma_starts_with_concat(
                s@,
                ids.2 as int,
                lit_code(),
                dec_digits(num.0 as nat) + (lit_text() + (escape(
                    result.body.value->Error_text@,
                ) + seq![0x22u8])),
            );
            assert(payload_fields(result.body.value) =~= lit_code() + (dec_digits(num.0 as nat)
                + (lit_text() + (escape(result.body.value->Error_text@) + seq![0x22u8]))));
        }
        assert(p_end(result) == pos7);
        render_assemble(s@, result);
        assert(crate::node::msg_wf(result));
        assert forall|m: Message|
            crate::node::msg_wf(m) && s@ == spec_render(m) implies message_eqv(result, m) by {
            chain_error_fields(s@, m, src0, dest0, pos3 as int, pos4 as int);
            assert(m.body.msg_id == ids.0 && m.body.in_reply_to == ids.1);
            assert(p_fields(m) == ids.2);
            lemma_dec_run_unique(s@, ids.2 + 8, num.0, m.body.value->Error_code.spec_code());
            spec_code_injective(code, m.body.value->Error_code);
            assert(m.body.value->Error_text@ == st.0@);
        }
    }
    Some(result)
}

/// The quote-terminated `type` tag of a payload, for probing.
fn tag_probe(p: &Payload) -> (r: Vec<u8>)
    ensures
        r@ == tag_bytes(*p) + seq![0x22u8],
{
    let mut v: Vec<u8> = Vec::new();
    emit_tag(&mut v, p);
    v.push(0x22);
    proof {
        assert(v@ =~= tag_bytes(*p) + seq![0x22u8]);
    }
    v
}

/// A matched run fixes each byte under it.
proof fn lemma_starts_with_index(s: Seq<u8>, pos: int, t: Seq<u8>, k: int)
    requires
        starts_with(s, pos, t),
        0 <= k < t.len(),
    ensures
        s[pos + k] == t[k],
{
    assert(s.subrange(pos, pos + t.len())[k] == t[k]);
}

/// A non-empty remainder's first escape stands at the scan position.
proof fn lemma_rest_first_at(s: Seq<u8>, at: int, rest: Seq<u8>)
    requires
        rest.len() > 0,
        starts_with(s, at, escape(rest) + seq![0x22u8]),
    ensures
        starts_with(s, at, esc_byte(rest[0])),
        starts_with(s, at + esc_byte(rest[0]).len(), escape(rest.drop_first()) + seq![0x22u8]),
{
    lemma_escape_first(rest);
    assert(escape(rest) + seq![0x22u8] =~= esc_byte(rest[0]) + (escape(rest.drop_first())
        + seq![0x22u8]));
    lemma_starts_with_concat(
        s,
        at,
        esc_byte(rest[0]),
        escape(rest.drop_first()) + seq![0x22u8],
    );
}

/// The scan invariant: what is already decoded stands at `pos`, and any
/// full match extends it by a remainder standing at `at`.
spec fn scan_inv(s: Seq<u8>, pos: int, at: int, done0: Seq<u8>) -> bool {
    forall|bs: Seq<u8>|
        starts_with(s, pos, #[trigger] escape(bs) + seq![0x22u8]) ==> exists|rest: Seq<u8>|
            bs == done0 + rest && starts_with(s, at, #[trigger] escape(rest) + seq![0x22u8])
}

/// Decoding one raw byte keeps the scan invariant.
proof fn step_raw_byte(s: Seq<u8>, pos: int, at: int, done0: Seq<u8>, b: u8)
    requires
        0 <= at < s.len(),
        s[at] == b,
        0x20 <= b,
        b != 0x22,
        b != 0x5c,
        starts_with(s, pos, escape(done0)),
        at == pos + escape(done0).len(),
        scan_inv(s, pos, at, done0),
    ensures
        starts_with(s, pos, escape(done0.push(b))),
        at + 1 == pos + escape(done0.push(b)).len(),
        scan_inv(s, pos, at + 1, done0.push(b)),
{
    assert(escape(done0.push(b)) == escape(done0) + esc_byte(b)) by {
        assert(done0.push(b).drop_last() =~= done0);
        assert(done0.push(b).last() == b);
    }
    assert(esc_byte(b) =~= seq![b]);
    lemma_starts_with_byte(s, at, b);
    lemma_starts_with_concat(s, pos, escape(done0), esc_byte(b));
    assert forall|bs: Seq<u8>|
        starts_with(s, pos, #[trigger] escape(bs) + seq![0x22u8]) implies exists|rest: Seq<u8>|
        bs == done0.push(b) + rest && starts_with(
            s,
            at + 1,
            #[trigger] escape(rest) + seq![0x22u8],
        ) by {
        let rest0 = choose|rest: Seq<u8>|
            bs == done0 + rest && starts_with(s, at, #[trigger] escape(rest) + seq![0x22u8]);
        if rest0.len() == 0 {
            assert(escape(rest0) + seq![0x22u8] =~= seq![0x22u8]);
            lemma_starts_with_byte(s, at, 0x22);
            assert(false);
        }
        lemma_rest_first_at(s, at, rest0);
        let e0 = esc_byte(rest0[0]);
        lemma_starts_with_index(s, at, e0, 0);
        if rest0[0] == 0x22 || rest0[0] == 0x5c || rest0[0] < 0x20 {
            assert(e0[0] == 0x5c);
            assert(false);
        }
        assert(e0 =~= seq![rest0[0]]);
        assert(rest0[0] == b);
        let rest1 = rest0.drop_first();
        assert(bs == done0.push(b) + rest1) by {
            assert(bs =~= done0.push(b) + rest1);
        }
        assert(starts_with(s, at + 1, escape(rest1) + seq![0x22u8]));
    }
}

/// Decoding `\"` or `\\` keeps the scan invariant.
proof fn step_two_byte_escape(s: Seq<u8>, pos: int, at: int, done0: Seq<u8>, c: u8)
    requires
        0 <= at,
        at + 1 < s.len(),
        s[at] == 0x5c,
        s[at + 1] == c,
        c == 0x22 || c == 0x5c,
        starts_with(s, pos, escape(done0)),
        at == pos + escape(done0).len(),
        scan_inv(s, pos, at, done0),
    ensures
        starts_with(s, pos, escape(done0.push(c))),
        at + 2 == pos + escape(done0.push(c)).len(),
        scan_inv(s, pos, at + 2, done0.push(c)),
{
    assert(escape(done0.push(c)) == escape(done0) + esc_byte(c)) by {
        assert(done0.push(c).drop_last() =~= done0);
        assert(done0.push(c).last() == c);
    }
    assert(esc_byte(c) =~= seq![0x5cu8] + seq![c]);
    lemma_starts_with_byte(s, at, 0x5c);
    lemma_starts_with_byte(s, at + 1, c);
    lemma_starts_with_concat(s, at, seq![0x5cu8], seq![c]);
    lemma_starts_with_concat(s, pos, escape(done0), esc_byte(c));
    assert forall|bs: Seq<u8>|
        starts_with(s, pos, #[trigger] escape(bs) + seq![0x22u8]) implies exists|rest: Seq<u8>|
        bs == done0.push(c) + rest && starts_with(
            s,
            at + 2,
            #[trigger] escape(rest) + seq![0x22u8],
        ) by {
        let rest0 = choose|rest: Seq<u8>|
            bs == done0 + rest && starts_with(s, at, #[trigger] escape(rest) + seq![0x22u8]);
        if rest0.len() == 0 {
            assert(escape(rest0) + seq![0x22u8] =~= seq![0x22u8]);
            lemma_starts_with_byte(s, at, 0x22);
            assert(false);
        }
        lemma_rest_first_at(s, at, rest0);
        let e0 = esc_byte(rest0[0]);
        lemma_starts_with_index(s, at, e0, 0);
        if !(rest0[0] == 0x22 || rest0[0] == 0x5c || rest0[0] < 0x20) {
            assert(e0 =~= seq![rest0[0]]);
            assert(false);
        }
        lemma_starts_with_index(s, at, e0, 1);
        if rest0[0] < 0x20 {
            assert(e0[1] == 0x75);
            assert(false);
        }
        assert(rest0[0] == c) by {
            assert(e0[1] == rest0[0]);
        }
        let rest1 = rest0.drop_first();
        assert(bs == done0.push(c) + rest1) by {
            assert(bs =~= done0.push(c) + rest1);
        }
        assert(starts_with(s, at + 2, escape(rest1) + seq![0x22u8]));
    }
}

/// Decoding a canonical `\u00..` control escape keeps the scan
/// invariant.
#[verifier::rlimit(100)]
proof fn step_u_escape(s: Seq<u8>, pos: int, at: int, done0: Seq<u8>, v: u8)
    requires
        0 <= at,
        at + 5 < s.len(),
        v < 0x20,
        s[at] == 0x5c,
        s[at + 1] == 0x75,
        s[at + 2] == 0x30,
        s[at + 3] == 0x30,
        s[at + 4] == hex_digit(v / 16),
        s[at + 5] == hex_digit(v % 16),
        starts_with(s, pos, escape(done0)),
        at == pos + escape(done0).len(),
        scan_inv(s, pos, at, done0),
    ensures
        starts_with(s, pos, escape(done0.push(v))),
        at + 6 == pos + escape(done0.push(v)).len(),
        scan_inv(s, pos, at + 6, done0.push(v)),
{
    assert(escape(done0.push(v)) == escape(done0) + esc_byte(v)) by {
        assert(done0.push(v).drop_last() =~= done0);
        assert(done0.push(v).last() == v);
    }
    let e = esc_byte(v);
    assert(starts_with(s, at, e)) by {
        assert(s.subrange(at, at + 6) =~= e);
    }
    lemma_starts_with_concat(s, pos, escape(done0), e);
    assert forall|bs: Seq<u8>|
        starts_with(s, pos, #[trigger] escape(bs) + seq![0x22u8]) implies exists|rest: Seq<u8>|
        bs == done0.push(v) + rest && starts_with(
            s,
            at + 6,
            #[trigger] escape(rest) + seq![0x22u8],
        ) by {
        let rest0 = choose|rest: Seq<u8>|
            bs == done0 + rest && starts_with(s, at, #[trigger] escape(rest) + seq![0x22u8]);
        if rest0.len() == 0 {
            assert(escape(rest0) + seq![0x22u8] =~= seq![0x22u8]);
            lemma_starts_with_byte(s, at, 0x22);
            assert(false);
        }
        lemma_rest_first_at(s, at, rest0);
        let e0 = esc_byte(rest0[0]);
        lemma_starts_with_index(s, at, e0, 0);
        if !(rest0[0] == 0x22 || rest0[0] == 0x5c || rest0[0] < 0x20) {
            assert(e0 =~= seq![rest0[0]]);
            assert(false);
        }
        lemma_starts_with_index(s, at, e0, 1);
        if rest0[0] == 0x22 || rest0[0] == 0x5c {
            assert(e0[1] == rest0[0]);
            assert(false);
        }
        assert(rest0[0] < 0x20);
        lemma_starts_with_index(s, at, e0, 4);
        lemma_starts_with_index(s, at, e0, 5);
        assert(hex_digit(rest0[0] / 16) == hex_digit(v / 16));
        assert(hex_digit(rest0[0] % 16) == hex_digit(v % 16));
        lemma_hex_digit_injective(rest0[0] / 16, v / 16);
        lemma_hex_digit_injective(rest0[0] % 16, v % 16);
        assert(rest0[0] == v) by {
            assert(rest0[0] / 16 == v / 16 && rest0[0] % 16 == v % 16);
        }
        let rest1 = rest0.drop_first();
        assert(bs == done0.push(v) + rest1) by {
            assert(bs =~= done0.push(v) + rest1);
        }
        assert(starts_with(s, at + 6, escape(rest1) + seq![0x22u8]));
    }
}

/// With a backslash as the last byte, nothing can match.
proof fn no_match_short(s: Seq<u8>, pos: int, at: int, done0: Seq<u8>, n: int)
    requires
        n == s.len(),
        0 <= at < n,
        s[at] == 0x5c,
        at + 1 >= n,
        scan_inv(s, pos, at, done0),
    ensures
        forall|bs: Seq<u8>| !starts_with(s, pos, #[trigger] escape(bs) + seq![0x22u8]),
{
    assert forall|bs: Seq<u8>|
        !starts_with(s, pos, #[trigger] escape(bs) + seq![0x22u8]) by {
        if starts_with(s, pos, escape(bs) + seq![0x22u8]) {
            let rest0 = choose|rest: Seq<u8>|
                bs == done0 + rest && starts_with(s, at, #[trigger] escape(rest) + seq![0x22u8]);
            if rest0.len() == 0 {
                assert(escape(rest0) + seq![0x22u8] =~= seq![0x22u8]);
                lemma_starts_with_byte(s, at, 0x22);
            } else {
                lemma_rest_first_at(s, at, rest0);
                let e0 = esc_byte(rest0[0]);
                lemma_starts_with_index(s, at, e0, 0);
                if rest0[0] == 0x22 || rest0[0] == 0x5c || rest0[0] < 0x20 {
                    assert(e0.len() >= 2);
                    assert(at + e0.len() <= s.len());
                } else {
                    assert(e0 =~= seq![rest0[0]]);
                }
            }
        }
    }
}

/// After `\u` with no canonical `00..` control value following, nothing
/// can match.
proof fn no_match_u(s: Seq<u8>, pos: int, at: int, done0: Seq<u8>, n: int)
    requires
        n == s.len(),
        0 <= at,
        at + 1 < n,
        s[at] == 0x5c,
        s[at + 1] == 0x75,
        forall|hi: u8, lo: u8|
            hi < 2 && lo < 16 ==> !(at + 6 <= n && s[at + 2] == 0x30 && s[at + 3] == 0x30 && s[at
                + 4] == #[trigger] hex_digit(hi) && s[at + 5] == #[trigger] hex_digit(lo)),
        scan_inv(s, pos, at, done0),
    ensures
        forall|bs: Seq<u8>| !starts_with(s, pos, #[trigger] escape(bs) + seq![0x22u8]),
{
    assert forall|bs: Seq<u8>|
        !starts_with(s, pos, #[trigger] escape(bs) + seq![0x22u8]) by {
        if starts_with(s, pos, escape(bs) + seq![0x22u8]) {
            let rest0 = choose|rest: Seq<u8>|
                bs == done0 + rest && starts_with(s, at, #[trigger] escape(rest) + seq![0x22u8]);
            if rest0.len() == 0 {
                assert(escape(rest0) + seq![0x22u8] =~= seq![0x22u8]);
                lemma_starts_with_byte(s, at, 0x22);
            } else {
                lemma_rest_first_at(s, at, rest0);
                let e0 = esc_byte(rest0[0]);
                lemma_starts_with_index(s, at, e0, 0);
                if !(rest0[0] == 0x22 || rest0[0] == 0x5c || rest0[0] < 0x20) {
                    assert(e0 =~= seq![rest0[0]]);
                    assert(false);
                }
                lemma_starts_with_index(s, at, e0, 1);
                if rest0[0] == 0x22 || rest0[0] == 0x5c {
                    assert(e0[1] == rest0[0]);
                    assert(false);
                }
                assert(rest0[0] < 0x20);
                assert(at + 6 <= n);
                lemma_starts_with_index(s, at, e0, 2);
                lemma_starts_with_index(s, at, e0, 3);
                lemma_starts_with_index(s, at, e0, 4);
                lemma_starts_with_index(s, at, e0, 5);
                let r0 = rest0[0];
                assert(r0 / 16 < 2 && r0 % 16 < 16);
                assert(s[at + 4] == hex_digit(r0 / 16) && s[at + 5] == hex_digit(r0 % 16));
                assert(false);
            }
        }
    }
}

/// After a backslash followed by anything but a canonical escape marker,
/// nothing can match.
proof fn no_match_backslash(s: Seq<u8>, pos: int, at: int, done0: Seq<u8>, n: int)
    requires
        n == s.len(),
        0 <= at,
        at + 1 < n,
        s[at] == 0x5c,
        s[at + 1] != 0x22,
        s[at + 1] != 0x5c,
        s[at + 1] != 0x75,
        scan_inv(s, pos, at, done0),
    ensures
        forall|bs: Seq<u8>| !starts_with(s, pos, #[trigger] escape(bs) + seq![0x22u8]),
{
    assert forall|bs: Seq<u8>|
        !starts_with(s, pos, #[trigger] escape(bs) + seq![0x22u8]) by {
        if starts_with(s, pos, escape(bs) + seq![0x22u8]) {
            let rest0 = choose|rest: Seq<u8>|
                bs == done0 + rest && starts_with(s, at, #[trigger] escape(rest) + seq![0x22u8]);
            if rest0.len() == 0 {
                assert(escape(rest0) + seq![0x22u8] =~= seq![0x22u8]);
                lemma_starts_with_byte(s, at, 0x22);
            } else {
                lemma_rest_first_at(s, at, rest0);
                let e0 = esc_byte(rest0[0]);
                lemma_starts_with_index(s, at, e0, 0);
                if !(rest0[0] == 0x22 || rest0[0] == 0x5c || rest0[0] < 0x20) {
                    assert(e0 =~= seq![rest0[0]]);
                    assert(false);
                }
                lemma_starts_with_index(s, at, e0, 1);
                if rest0[0] == 0x22 || rest0[0] == 0x5c {
                    assert(e0[1] == rest0[0]);
                } else {
                    assert(e0[1] == 0x75);
                }
            }
        }
    }
}

/// On a bare control byte, nothing can match.
proof fn no_match_control(s: Seq<u8>, pos: int, at: int, done0: Seq<u8>, n: int)
    requires
        n == s.len(),
        0 <= at < n,
        s[at] < 0x20,
        scan_inv(s, pos, at, done0),
    ensures
        forall|bs: Seq<u8>| !starts_with(s, pos, #[trigger] escape(bs) + seq![0x22u8]),
{
    assert forall|bs: Seq<u8>|
        !starts_with(s, pos, #[trigger] escape(bs) + seq![0x22u8]) by {
        if starts_with(s, pos, escape(bs) + seq![0x22u8]) {
            let rest0 = choose|rest: Seq<u8>|
                bs == done0 + rest && starts_with(s, at, #[trigger] escape(rest) + seq![0x22u8]);
            if rest0.len() == 0 {
                assert(escape(rest0) + seq![0x22u8] =~= seq![0x22u8]);
                lemma_starts_with_byte(s, at, 0x22);
            } else {
                lemma_rest_first_at(s, at, rest0);
                let e0 = esc_byte(rest0[0]);
                lemma_starts_with_index(s, at, e0, 0);
                if rest0[0] == 0x22 || rest0[0] == 0x5c || rest0[0] < 0x20 {
                    assert(e0[0] == 0x5c);
                } else {
                    assert(e0 =~= seq![rest0[0]]);
                }
            }
        }
    }
}

/// Two canonical digit runs at one position, each followed by a
/// non-digit or the end, denote the same number.
proof fn lemma_dec_run_unique(s: Seq<u8>, pos: int, v1: u64, v2: u64)
    requires
        starts_with(s, pos, dec_digits(v1 as nat)),
        pos + dec_digits(v1 as nat).len() == s.len() || !is_dec_digit(
            s[pos + dec_digits(v1 as nat).len()],
        ),
        starts_with(s, pos, dec_digits(v2 as nat)),
        pos + dec_digits(v2 as nat).len() == s.len() || !is_dec_digit(
            s[pos + dec_digits(v2 as nat).len()],
        ),
    ensures
        v1 == v2,
{
    let d1 = dec_digits(v1 as nat);
    let d2 = dec_digits(v2 as nat);
    lemma_dec_digits_canonical(v1 as nat);
    lemma_dec_digits_canonical(v2 as nat);
    if d1.len() < d2.len() {
        lemma_starts_with_index(s, pos, d2, d1.len() as int);
        assert(is_dec_digit(d2[d1.len() as int]));
        assert(false);
    }
    if d2.len() < d1.len() {
        lemma_starts_with_index(s, pos, d1, d2.len() as int);
        assert(is_dec_digit(d1[d2.len() as int]));
        assert(false);
    }
    assert(d1 =~= d2) by {
        assert forall|k: int| 0 <= k < d1.len() implies d1[k] == d2[k] by {
            lemma_starts_with_index(s, pos, d1, k);
            lemma_starts_with_index(s, pos, d2, k);
        }
    }
    lemma_dec_value_of_digits(v1 as nat);
    lemma_dec_value_of_digits(v2 as nat);
}

/// The comma-separated decimal items of a list of numbers.
pub open spec fn u64_items(s: Seq<u64>) -> Seq<u8>
    decreases s.len(),
{
    if s.len() == 0 {
        Seq::empty()
    } else if s.len() == 1 {
        dec_digits(s[0] as nat)
    } else {
        u64_items(s.drop_last()) + seq![0x2cu8] + dec_digits(s.last() as nat)
    }
}

/// The continuation of a number list: a comma before each further item.
pub open spec fn u64_cont(s: Seq<u64>) -> Seq<u8>
    decreases s.len(),
{
    if s.len() == 0 {
        Seq::empty()
    } else {
        u64_cont(s.drop_last()) + seq![0x2cu8] + dec_digits(s.last() as nat)
    }
}

/// The JSON array of a list of numbers.
pub open spec fn u64_array(s: Seq<u64>) -> Seq<u8> {
    seq![0x5bu8] + u64_items(s) + seq![0x5du8]
}

/// A non-empty number list's items peel off the front.
proof fn lemma_u64_items_first(s: Seq<u64>)
    requires
        s.len() >= 1,
    ensures
        u64_items(s) == dec_digits(s[0] as nat) + u64_cont(s.drop_first()),
    decreases s.len(),
{
    if s.len() == 1 {
        assert(u64_cont(s.drop_first()) =~= Seq::<u8>::empty());
        assert(u64_items(s) =~= dec_digits(s[0] as nat) + u64_cont(s.drop_first()));
    } else {
        let dl = s.drop_last();
        lemma_u64_items_first(dl);
        assert(dl[0] == s[0]);
        assert(dl.drop_first() =~= s.drop_first().drop_last());
        assert(s.drop_first().last() == s.last());
        assert(u64_cont(s.drop_first()) == u64_cont(s.drop_first().drop_last()) + seq![0x2cu8]
            + dec_digits(s.last() as nat));
        assert(u64_items(s) == (dec_digits(s[0] as nat) + u64_cont(dl.drop_first()))
            + seq![0x2cu8] + dec_digits(s.last() as nat));
        assert((dec_digits(s[0] as nat) + u64_cont(dl.drop_first())) + seq![0x2cu8] + dec_digits(
            s.last() as nat,
        ) =~= dec_digits(s[0] as nat) + (u64_cont(dl.drop_first()) + seq![0x2cu8] + dec_digits(
            s.last() as nat,
        )));
        assert(u64_cont(dl.drop_first()) + seq![0x2cu8] + dec_digits(s.last() as nat)
            == u64_cont(s.drop_first()));
    }
}

/// A non-empty continuation peels off a comma and its first item.
proof fn lemma_u64_cont_first(s: Seq<u64>)
    requires
        s.len() >= 1,
    ensures
        u64_cont(s) == seq![0x2cu8] + dec_digits(s[0] as nat) + u64_cont(s.drop_first()),
    decreases s.len(),
{
    if s.len() == 1 {
        assert(u64_cont(s.drop_last()) =~= Seq::<u8>::empty());
        assert(u64_cont(s.drop_first()) =~= Seq::<u8>::empty());
        assert(u64_cont(s) == u64_cont(s.drop_last()) + seq![0x2cu8] + dec_digits(
            s.last() as nat,
        ));
        assert(u64_cont(s) =~= seq![0x2cu8] + dec_digits(s[0] as nat) + u64_cont(s.drop_first()));
    } else {
        let dl = s.drop_last();
        lemma_u64_cont_first(dl);
        assert(dl[0] == s[0]);
        assert(dl.drop_first() =~= s.drop_first().drop_last());
        assert(s.drop_first().last() == s.last());
        assert(u64_cont(s.drop_first()) == u64_cont(s.drop_first().drop_last()) + seq![0x2cu8]
            + dec_digits(s.last() as nat));
        assert(u64_cont(s) == (seq![0x2cu8] + dec_digits(s[0] as nat) + u64_cont(dl.drop_first()))
            + seq![0x2cu8] + dec_digits(s.last() as nat));
        assert((seq![0x2cu8] + dec_digits(s[0] as nat) + u64_cont(dl.drop_first())) + seq![0x2cu8]
            + dec_digits(s.last() as nat) =~= seq![0x2cu8] + dec_digits(s[0] as nat) + (u64_cont(
            dl.drop_first(),
        ) + seq![0x2cu8] + dec_digits(s.last() as nat)));
        assert(u64_cont(dl.drop_first()) + seq![0x2cu8] + dec_digits(s.last() as nat) == u64_cont(
            s.drop_first(),
        ));
    }
}

/// Writes the JSON array of `vals` onto `out`.
pub fn emit_u64_array(out: &mut Vec<u8>, vals: &Vec<u64>)
    ensures
        final(out)@ == old(out)@ + u64_array(vals@),
{
    let ghost base = out@;
    out.push(0x5b);
    let n = vals.len();
    let mut i: usize = 0;
    proof {
        assert(u64_items(vals@.subrange(0, 0)) =~= Seq::<u8>::empty());
        assert(out@ =~= base + seq![0x5bu8] + u64_items(vals@.subrange(0, 0)));
    }
    while i < n
        invariant
            0 <= i <= n,
            n == vals@.len(),
            out@ == base + seq![0x5bu8] + u64_items(vals@.subrange(0, i as int)),
        decreases n - i,
    {
        let ghost pre = out@;
        if i > 0 {
            out.push(0x2c);
        }
        emit_u64(out, vals[i]);
        proof {
            let prefix = vals@.subrange(0, i as int);
            let prefix1 = vals@.subrange(0, i as int + 1);
            assert(prefix1.drop_last() =~= prefix);
            assert(prefix1.last() == vals@[i as int]);
            if i == 0 {
                assert(u64_items(prefix1) == dec_digits(vals@[0] as nat));
                assert(out@ =~= base + seq![0x5bu8] + u64_items(prefix1));
            } else {
                assert(u64_items(prefix1) == u64_items(prefix) + seq![0x2cu8] + dec_digits(
                    vals@[i as int] as nat,
                ));
                assert(out@ =~= base + seq![0x5bu8] + u64_items(prefix1));
            }
        }
        i = i + 1;
    }
    out.push(0x5d);
    proof {
        assert(vals@.subrange(0, n as int) =~= vals@);
        assert(out@ =~= base + u64_array(vals@));
    }
}

/// Reads a JSON array of numbers at `pos`.
pub fn parse_u64_array(s: &[u8], pos: usize) -> (r: Option<(Vec<u64>, usize)>)
    ensures
        r matches Some(p) ==> {
            &&& pos <= p.1 <= s@.len()
            &&& starts_with(s@, pos as int, u64_array(p.0@))
            &&& p.1 == pos + u64_array(p.0@).len()
            &&& forall|vs: Seq<u64>|
                starts_with(s@, pos as int, #[trigger] u64_array(vs)) ==> vs == p.0@
        },
        r is None ==> forall|vs: Seq<u64>|
            !starts_with(s@, pos as int, #[trigger] u64_array(vs)),
{
    let n = s.len();
    if pos >= n || s[pos] != 0x5b {
        proof {
            assert forall|vs: Seq<u64>|
                !starts_with(s@, pos as int, #[trigger] u64_array(vs)) by {
                if starts_with(s@, pos as int, u64_array(vs)) {
                    lemma_starts_with_index(s@, pos as int, u64_array(vs), 0);
                }
            }
        }
        return None;
    }
    assert(s@[pos as int] == 0x5b);
    let mut got: Vec<u64> = Vec::new();
    // the empty array
    if pos + 1 < n && s[pos + 1] == 0x5d {
        proof {
            assert(starts_with(s@, pos as int, u64_array(got@))) by {
                assert(u64_items(got@) =~= Seq::<u8>::empty());
                assert(u64_array(got@) =~= seq![0x5bu8, 0x5du8]);
                assert(s@.subrange(pos as int, pos + 2) =~= seq![0x5bu8, 0x5du8]);
            }
            assert forall|vs: Seq<u64>|
                starts_with(s@, pos as int, #[trigger] u64_array(vs)) implies vs == got@ by {
                if vs.len() > 0 {
                    lemma_u64_items_first(vs);
                    lemma_dec_digits_canonical(vs[0] as nat);
                    lemma_starts_with_index(s@, pos as int, u64_array(vs), 1);
                    assert(u64_array(vs)[1] == dec_digits(vs[0] as nat)[0]) by {
                        assert(u64_items(vs)[0] == dec_digits(vs[0] as nat)[0]);
                    }
                    assert(is_dec_digit(s@[pos + 1]));
                }
                assert(vs =~= got@);
            }
        }
        return Some((got, pos + 2));
    }
    // first item
    let first = match parse_u64_at(s, pos + 1) {
        Some(p) => p,
        None => {
            proof {
                assert forall|vs: Seq<u64>|
                    !starts_with(s@, pos as int, #[trigger] u64_array(vs)) by {
                    if starts_with(s@, pos as int, u64_array(vs)) {
                        arr_head_digits(s@, pos as int, vs, n as int);
                    }
                }
            }
            return None;
        },
    };
    got.push(first.0);
    let mut at: usize = first.1;
    proof {
        assert(starts_with(s@, pos + 1, u64_items(got@))) by {
            assert(u64_items(got@) == dec_digits(first.0 as nat));
        }
        assert(at == pos + 1 + u64_items(got@).len());
        assert forall|vs: Seq<u64>|
            starts_with(s@, pos as int, #[trigger] u64_array(vs)) implies exists|rest: Seq<u64>|
            vs == got@ + rest && starts_with(
                s@,
                at as int,
                #[trigger] u64_cont(rest) + seq![0x5du8],
            ) by {
            arr_head_digits(s@, pos as int, vs, n as int);
            assert(vs.len() > 0);
            lemma_u64_items_first(vs);
            assert(u64_array(vs) =~= seq![0x5bu8] + (dec_digits(vs[0] as nat) + (u64_cont(
                vs.drop_first(),
            ) + seq![0x5du8])));
            lemma_starts_with_concat(
                s@,
                pos as int,
                seq![0x5bu8],
                dec_digits(vs[0] as nat) + (u64_cont(vs.drop_first()) + seq![0x5du8]),
            );
            lemma_starts_with_concat(
                s@,
                pos + 1,
                dec_digits(vs[0] as nat),
                u64_cont(vs.drop_first()) + seq![0x5du8],
            );
            // the first rendered number is followed by a comma or the
            // closing bracket, so the runs coincide
            cont_head_not_digit(s@, pos + 1 + dec_digits(vs[0] as nat).len(), vs.drop_first());
            lemma_dec_run_unique(s@, pos + 1, first.0, vs[0]);
            let rest = vs.drop_first();
            assert(vs == got@ + rest) by {
                assert(vs =~= got@ + rest);
            }
            assert(starts_with(s@, at as int, u64_cont(rest) + seq![0x5du8]));
        }
    }
    loop
        invariant
            pos + 1 <= at <= n,
            n == s@.len(),
            got@.len() >= 1,
            starts_with(s@, pos + 1, u64_items(got@)),
            at == pos + 1 + u64_items(got@).len(),
            s@[pos as int] == 0x5b,
            forall|vs: Seq<u64>|
                starts_with(s@, pos as int, #[trigger] u64_array(vs)) ==> exists|rest: Seq<u64>|
                    vs == got@ + rest && starts_with(
                        s@,
                        at as int,
                        #[trigger] u64_cont(rest) + seq![0x5du8],
                    ),
        decreases n - at,
    {
        let ghost got0 = got@;
        if at >= n {
            proof {
                assert forall|vs: Seq<u64>|
                    !starts_with(s@, pos as int, #[trigger] u64_array(vs)) by {
                    if starts_with(s@, pos as int, u64_array(vs)) {
                        let rest = choose|rest: Seq<u64>|
                            vs == got0 + rest && starts_with(
                                s@,
                                at as int,
                                #[trigger] u64_cont(rest) + seq![0x5du8],
                            );
                        assert((u64_cont(rest) + seq![0x5du8]).len() >= 1);
                    }
                }
            }
            return None;
        }
        let b = s[at];
        if b == 0x5d {
            proof {
                assert forall|vs: Seq<u64>|
                    starts_with(s@, pos as int, #[trigger] u64_array(vs)) implies vs == got0 by {
                    let rest = choose|rest: Seq<u64>|
                        vs == got0 + rest && starts_with(
                            s@,
                            at as int,
                            #[trigger] u64_cont(rest) + seq![0x5du8],
                        );
                    if rest.len() > 0 {
                        lemma_u64_cont_first(rest);
                        assert((u64_cont(rest) + seq![0x5du8])[0] == 0x2c) by {
                            assert(u64_cont(rest)[0] == 0x2c);
                        }
                        lemma_starts_with_index(s@, at as int, u64_cont(rest) + seq![0x5du8], 0);
                        assert(false);
                    }
                    assert(vs =~= got0);
                }
                assert(starts_with(s@, pos as int, u64_array(got0))) by {
                    lemma_starts_with_byte(s@, pos as int, 0x5b);
                    lemma_starts_with_byte(s@, at as int, 0x5d);
                    lemma_starts_with_concat(s@, pos + 1, u64_items(got0), seq![0x5du8]);
                    lemma_starts_with_concat(
                        s@,
                        pos as int,
                        seq![0x5bu8],
                        u64_items(got0) + seq![0x5du8],
                    );
                    assert(u64_array(got0) =~= seq![0x5bu8] + (u64_items(got0) + seq![0x5du8]));
                }
            }
            return Some((got, at + 1));
        } else if b == 0x2c {
            let item = match parse_u64_at(s, at + 1) {
                Some(p) => p,
                None => {
                    proof {
                        assert forall|vs: Seq<u64>|
                            !starts_with(s@, pos as int, #[trigger] u64_array(vs)) by {
                            if starts_with(s@, pos as int, u64_array(vs)) {
                                let rest = choose|rest: Seq<u64>|
                                    vs == got0 + rest && starts_with(
                                        s@,
                                        at as int,
                                        #[trigger] u64_cont(rest) + seq![0x5du8],
                                    );
                                cont_match_head(s@, at as int, rest);
                            }
                        }
                    }
                    return None;
                },
            };
            got.push(item.0);
            let ghost old_at = at as int;
            at = item.1;
            proof {
                assert(u64_items(got@) == u64_items(got0) + seq![0x2cu8] + dec_digits(
                    item.0 as nat,
                )) by {
                    assert(got@.drop_last() =~= got0);
                    assert(got@.last() == item.0);
                }
                assert(starts_with(s@, pos + 1, u64_items(got@))) by {
                    lemma_starts_with_byte(s@, old_at, 0x2c);
                    lemma_starts_with_concat(s@, pos + 1, u64_items(got0), seq![0x2cu8]);
                    lemma_starts_with_concat(
                        s@,
                        pos + 1,
                        u64_items(got0) + seq![0x2cu8],
                        dec_digits(item.0 as nat),
                    );
                    assert(u64_items(got@) =~= (u64_items(got0) + seq![0x2cu8]) + dec_digits(
                        item.0 as nat,
                    ));
                }
                assert forall|vs: Seq<u64>|
                    starts_with(s@, pos as int, #[trigger] u64_array(vs)) implies exists|
                        rest: Seq<u64>,
                    |
                        vs == got@ + rest && starts_with(
                            s@,
                            at as int,
                            #[trigger] u64_cont(rest) + seq![0x5du8],
                        ) by {
                    let rest0 = choose|rest: Seq<u64>|
                        vs == got0 + rest && starts_with(
                            s@,
                            old_at,
                            #[trigger] u64_cont(rest) + seq![0x5du8],
                        );
                    cont_match_head(s@, old_at, rest0);
                    assert(rest0.len() > 0);
                    lemma_u64_cont_first(rest0);
                    assert(u64_cont(rest0) + seq![0x5du8] =~= seq![0x2cu8] + (dec_digits(
                        rest0[0] as nat,
                    ) + (u64_cont(rest0.drop_first()) + seq![0x5du8])));
                    lemma_starts_with_concat(
                        s@,
                        old_at,
                        seq![0x2cu8],
                        dec_digits(rest0[0] as nat) + (u64_cont(rest0.drop_first())
                            + seq![0x5du8]),
                    );
                    lemma_starts_with_concat(
                        s@,
                        old_at + 1,
                        dec_digits(rest0[0] as nat),
                        u64_cont(rest0.drop_first()) + seq![0x5du8],
                    );
                    cont_head_not_digit(
                        s@,
                        old_at + 1 + dec_digits(rest0[0] as nat).len(),
                        rest0.drop_first(),
                    );
                    lemma_dec_run_unique(s@, old_at + 1, item.0, rest0[0]);
                    let rest1 = rest0.drop_first();
                    assert(vs == got@ + rest1) by {
                        assert(vs =~= got@ + rest1);
                    }
                    assert(starts_with(s@, at as int, u64_cont(rest1) + seq![0x5du8]));
                }
            }
        } else {
            proof {
                assert forall|vs: Seq<u64>|
                    !starts_with(s@, pos as int, #[trigger] u64_array(vs)) by {
                    if starts_with(s@, pos as int, u64_array(vs)) {
                        let rest = choose|rest: Seq<u64>|
                            vs == got0 + rest && starts_with(
                                s@,
                                at as int,
                                #[trigger] u64_cont(rest) + seq![0x5du8],
                            );
                        if rest.len() == 0 {
                            assert((u64_cont(rest) + seq![0x5du8]) =~= seq![0x5du8]);
                            lemma_starts_with_byte(s@, at as int, 0x5d);
                        } else {
                            lemma_u64_cont_first(rest);
                            assert((u64_cont(rest) + seq![0x5du8])[0] == 0x2c) by {
                                assert(u64_cont(rest)[0] == 0x2c);
                            }
                            lemma_starts_with_index(
                                s@,
                                at as int,
                                u64_cont(rest) + seq![0x5du8],
                                0,
                            );
                        }
                    }
                }
            }
            return None;
        }
    }
}

/// A matched array's first byte after the bracket is a digit.
proof fn arr_head_digits(s: Seq<u8>, pos: int, vs: Seq<u64>, n: int)
    requires
        n == s.len(),
        starts_with(s, pos, u64_array(vs)),
        !(pos + 1 < n && s[pos + 1] == 0x5d),
    ensures
        vs.len() > 0,
        starts_with(s, pos + 1, dec_digits(vs[0] as nat)),
        pos + 1 + dec_digits(vs[0] as nat).len() == n || !is_dec_digit(
            s[pos + 1 + dec_digits(vs[0] as nat).len()],
        ),
{
    if vs.len() == 0 {
        assert(u64_array(vs) =~= seq![0x5bu8, 0x5du8]);
        lemma_starts_with_index(s, pos, u64_array(vs), 1);
        assert(false);
    }
    lemma_u64_items_first(vs);
    assert(u64_array(vs) =~= seq![0x5bu8] + (dec_digits(vs[0] as nat) + (u64_cont(
        vs.drop_first(),
    ) + seq![0x5du8])));
    lemma_starts_with_concat(
        s,
        pos,
        seq![0x5bu8],
        dec_digits(vs[0] as nat) + (u64_cont(vs.drop_first()) + seq![0x5du8]),
    );
    lemma_starts_with_concat(
        s,
        pos + 1,
        dec_digits(vs[0] as nat),
        u64_cont(vs.drop_first()) + seq![0x5du8],
    );
    cont_head_not_digit(s, pos + 1 + dec_digits(vs[0] as nat).len(), vs.drop_first());
}

/// After a rendered item comes a comma or the closing bracket — never a
/// digit.
proof fn cont_head_not_digit(s: Seq<u8>, at: int, rest: Seq<u64>)
    requires
        starts_with(s, at, u64_cont(rest) + seq![0x5du8]),
    ensures
        at < s.len(),
        !is_dec_digit(s[at]),
{
    if rest.len() == 0 {
        assert(u64_cont(rest) + seq![0x5du8] =~= seq![0x5du8]);
        lemma_starts_with_byte(s, at, 0x5d);
    } else {
        lemma_u64_cont_first(rest);
        assert((u64_cont(rest) + seq![0x5du8])[0] == 0x2c) by {
            assert(u64_cont(rest)[0] == 0x2c);
        }
        lemma_starts_with_index(s, at, u64_cont(rest) + seq![0x5du8], 0);
    }
}

/// A continuation matched where a comma stands is non-empty, and its
/// first item's digits follow the comma, ended by a non-digit.
proof fn cont_match_head(s: Seq<u8>, at: int, rest: Seq<u64>)
    requires
        starts_with(s, at, u64_cont(rest) + seq![0x5du8]),
        at < s.len(),
        s[at] == 0x2c,
    ensures
        rest.len() > 0,
        starts_with(s, at + 1, dec_digits(rest[0] as nat)),
        at + 1 + dec_digits(rest[0] as nat).len() == s.len() || !is_dec_digit(
            s[at + 1 + dec_digits(rest[0] as nat).len()],
        ),
{
    if rest.len() == 0 {
        assert(u64_cont(rest) + seq![0x5du8] =~= seq![0x5du8]);
        lemma_starts_with_byte(s, at, 0x5d);
        assert(false);
    }
    lemma_u64_cont_first(rest);
    assert(u64_cont(rest) + seq![0x5du8] =~= seq![0x2cu8] + (dec_digits(rest[0] as nat)
        + (u64_cont(rest.drop_first()) + seq![0x5du8])));
    lemma_starts_with_concat(
        s,
        at,
        seq![0x2cu8],
        dec_digits(rest[0] as nat) + (u64_cont(rest.drop_first()) + seq![0x5du8]),
    );
    lemma_starts_with_concat(
        s,
        at + 1,
        dec_digits(rest[0] as nat),
        u64_cont(rest.drop_first()) + seq![0x5du8],
    );
    cont_head_not_digit(s, at + 1 + dec_digits(rest[0] as nat).len(), rest.drop_first());
}

/// A quoted node id.
pub open spec fn node_item(id: NodeId) -> Seq<u8> {
    seq![0x22u8] + spec_node_text(id) + seq![0x22u8]
}

/// The comma-separated quoted node ids of a list.
pub open spec fn nid_items(s: Seq<NodeId>) -> Seq<u8>
    decreases s.len(),
{
    if s.len() == 0 {
        Seq::empty()
    } else if s.len() == 1 {
        node_item(s[0])
    } else {
        nid_items(s.drop_last()) + seq![0x2cu8] + node_item(s.last())
    }
}

/// The continuation of a node-id list.
pub open spec fn nid_cont(s: Seq<NodeId>) -> Seq<u8>
    decreases s.len(),
{
    if s.len() == 0 {
        Seq::empty()
    } else {
        nid_cont(s.drop_last()) + seq![0x2cu8] + node_item(s.last())
    }
}

/// The JSON array of a list of node ids.
pub open spec fn nid_array(s: Seq<NodeId>) -> Seq<u8> {
    seq![0x5bu8] + nid_items(s) + seq![0x5du8]
}

proof fn lemma_nid_items_first(s: Seq<NodeId>)
    requires
        s.len() >= 1,
    ensures
        nid_items(s) == node_item(s[0]) + nid_cont(s.drop_first()),
    decreases s.len(),
{
    if s.len() == 1 {
        assert(nid_cont(s.drop_first()) =~= Seq::<u8>::empty());
        assert(nid_items(s) =~= node_item(s[0]) + nid_cont(s.drop_first()));
    } else {
        let dl = s.drop_last();
        lemma_nid_items_first(dl);
        assert(dl[0] == s[0]);
        assert(dl.drop_first() =~= s.drop_first().drop_last());
        assert(s.drop_first().last() == s.last());
        assert(nid_cont(s.drop_first()) == nid_cont(s.drop_first().drop_last()) + seq![0x2cu8]
            + node_item(s.last()));
        assert(nid_items(s) == (node_item(s[0]) + nid_cont(dl.drop_first())) + seq![0x2cu8]
            + node_item(s.last()));
        assert((node_item(s[0]) + nid_cont(dl.drop_first())) + seq![0x2cu8] + node_item(s.last())
            =~= node_item(s[0]) + (nid_cont(dl.drop_first()) + seq![0x2cu8] + node_item(
            s.last(),
        )));
        assert(nid_cont(dl.drop_first()) + seq![0x2cu8] + node_item(s.last()) == nid_cont(
            s.drop_first(),
        ));
    }
}

proof fn lemma_nid_cont_first(s: Seq<NodeId>)
    requires
        s.len() >= 1,
    ensures
        nid_cont(s) == seq![0x2cu8] + node_item(s[0]) + nid_cont(s.drop_first()),
    decreases s.len(),
{
    if s.len() == 1 {
        assert(nid_cont(s.drop_last()) =~= Seq::<u8>::empty());
        assert(nid_cont(s.drop_first()) =~= Seq::<u8>::empty());
        assert(nid_cont(s) == nid_cont(s.drop_last()) + seq![0x2cu8] + node_item(s.last()));
        assert(nid_cont(s) =~= seq![0x2cu8] + node_item(s[0]) + nid_cont(s.drop_first()));
    } else {
        let dl = s.drop_last();
        lemma_nid_cont_first(dl);
        assert(dl[0] == s[0]);
        assert(dl.drop_first() =~= s.drop_first().drop_last());
        assert(s.drop_first().last() == s.last());
        assert(nid_cont(s.drop_first()) == nid_cont(s.drop_first().drop_last()) + seq![0x2cu8]
            + node_item(s.last()));
        assert(nid_cont(s) == (seq![0x2cu8] + node_item(s[0]) + nid_cont(dl.drop_first()))
            + seq![0x2cu8] + node_item(s.last()));
        assert((seq![0x2cu8] + node_item(s[0]) + nid_cont(dl.drop_first())) + seq![0x2cu8]
            + node_item(s.last()) =~= seq![0x2cu8] + node_item(s[0]) + (nid_cont(dl.drop_first())
            + seq![0x2cu8] + node_item(s.last())));
        assert(nid_cont(dl.drop_first()) + seq![0x2cu8] + node_item(s.last()) == nid_cont(
            s.drop_first(),
        ));
    }
}

/// Writes a quoted node id onto `out`.
fn emit_node_item(out: &mut Vec<u8>, id: NodeId)
    ensures
        final(out)@ == old(out)@ + node_item(id),
{
    let ghost base = out@;
    out.push(0x22);
    let mut text = id.encode();
    out.append(&mut text);
    out.push(0x22);
    proof {
        assert(final(out)@ =~= base + node_item(id));
    }
}

/// Reads a quoted node id at `pos`.
fn parse_node_at(s: &[u8], pos: usize) -> (r: Option<(NodeId, usize)>)
    ensures
        r matches Some(p) ==> {
            &&& pos <= p.1 <= s@.len()
            &&& starts_with(s@, pos as int, node_item(p.0))
            &&& p.1 == pos + node_item(p.0).len()
            &&& forall|id: NodeId|
                starts_with(s@, pos as int, #[trigger] node_item(id)) ==> id == p.0
        },
        r is None ==> forall|id: NodeId|
            !starts_with(s@, pos as int, #[trigger] node_item(id)),
{
    let n = s.len();
    if pos >= n || s[pos] != 0x22 {
        proof {
            assert forall|id: NodeId|
                !starts_with(s@, pos as int, #[trigger] node_item(id)) by {
                if starts_with(s@, pos as int, node_item(id)) {
                    lemma_starts_with_index(s@, pos as int, node_item(id), 0);
                }
            }
        }
        return None;
    }
    // find the closing quote
    let mut q: usize = pos + 1;
    while q < n && s[q] != 0x22
        invariant
            pos + 1 <= q <= n,
            n == s@.len(),
            forall|k: int| pos + 1 <= k < q ==> s@[k] != 0x22,
        decreases n - q,
    {
        q = q + 1;
    }
    if q == n {
        proof {
            assert forall|id: NodeId|
                !starts_with(s@, pos as int, #[trigger] node_item(id)) by {
                if starts_with(s@, pos as int, node_item(id)) {
                    node_item_no_quote(id);
                    let t = node_item(id);
                    lemma_starts_with_index(s@, pos as int, t, t.len() - 1);
                    assert(s@[pos + t.len() - 1] == 0x22);
                }
            }
        }
        return None;
    }
    assert(s@[q as int] == 0x22);
    let body = vstd::slice::slice_subrange(s, pos + 1, q);
    match NodeId::decode(body) {
        Some(id) => {
            proof {
                assert(starts_with(s@, pos as int, node_item(id))) by {
                    assert(body@ == spec_node_text(id));
                    lemma_starts_with_byte(s@, pos as int, 0x22);
                    assert(starts_with(s@, pos + 1, spec_node_text(id))) by {
                        assert(s@.subrange(pos + 1, q as int) == body@);
                    }
                    lemma_starts_with_byte(s@, q as int, 0x22);
                    lemma_starts_with_concat(s@, pos + 1, spec_node_text(id), seq![0x22u8]);
                    lemma_starts_with_concat(
                        s@,
                        pos as int,
                        seq![0x22u8],
                        spec_node_text(id) + seq![0x22u8],
                    );
                    assert(node_item(id) =~= seq![0x22u8] + (spec_node_text(id) + seq![0x22u8]));
                }
                assert forall|id2: NodeId|
                    starts_with(s@, pos as int, #[trigger] node_item(id2)) implies id2 == id by {
                    node_text_scan_unique(s@, pos as int, q as int, id2);
                    assert(body@ =~= spec_node_text(id2));
                    assert(spec_node_text(id2) == spec_node_text(id));
                    assert(dec_digits(id2.0 as nat) =~= dec_digits(id.0 as nat)) by {
                        assert forall|k: int|
                            0 <= k < dec_digits(id2.0 as nat).len() implies dec_digits(
                            id2.0 as nat,
                        )[k] == dec_digits(id.0 as nat)[k] by {
                            assert(spec_node_text(id2)[k + 1] == dec_digits(id2.0 as nat)[k]);
                            assert(spec_node_text(id)[k + 1] == dec_digits(id.0 as nat)[k]);
                        }
                    }
                    lemma_dec_value_of_digits(id.0 as nat);
                    lemma_dec_value_of_digits(id2.0 as nat);
                    assert(id2.0 == id.0);
                }
            }
            Some((id, q + 1))
        },
        None => {
            proof {
                assert forall|id: NodeId|
                    !starts_with(s@, pos as int, #[trigger] node_item(id)) by {
                    if starts_with(s@, pos as int, node_item(id)) {
                        node_text_scan_unique(s@, pos as int, q as int, id);
                        assert(body@ =~= spec_node_text(id));
                    }
                }
            }
            None
        },
    }
}

/// A node id's textual form holds no quote.
proof fn node_item_no_quote(id: NodeId)
    ensures
        forall|k: int|
            0 <= k < spec_node_text(id).len() ==> #[trigger] spec_node_text(id)[k] != 0x22,
{
    let t = spec_node_text(id);
    lemma_dec_digits_canonical(id.0 as nat);
    assert forall|k: int| 0 <= k < t.len() implies #[trigger] t[k] != 0x22 by {
        if k > 0 {
            assert(t[k] == dec_digits(id.0 as nat)[k - 1]);
            assert(is_dec_digit(dec_digits(id.0 as nat)[k - 1]));
        }
    }
}

/// A quoted node id matched at a position ends at the first quote after
/// it.
proof fn node_text_scan_unique(s: Seq<u8>, pos: int, q: int, id: NodeId)
    requires
        starts_with(s, pos, node_item(id)),
        pos < q < s.len(),
        s[q] == 0x22,
        forall|k: int| pos + 1 <= k < q ==> s[k] != 0x22,
    ensures
        q == pos + 1 + spec_node_text(id).len(),
        s.subrange(pos + 1, q) == spec_node_text(id),
{
    let t = spec_node_text(id);
    node_item_no_quote(id);
    assert(node_item(id) =~= seq![0x22u8] + (t + seq![0x22u8]));
    lemma_starts_with_concat(s, pos, seq![0x22u8], t + seq![0x22u8]);
    lemma_starts_with_concat(s, pos + 1, t, seq![0x22u8]);
    assert forall|k: int| 0 <= k < t.len() implies s[pos + 1 + k] == t[k] by {
        lemma_starts_with_index(s, pos + 1, t, k);
    }
    lemma_starts_with_byte(s, pos + 1 + t.len(), 0x22);
    assert(q == pos + 1 + t.len()) by {
        if q < pos + 1 + t.len() {
            assert(s[q] == t[q - pos - 1]);
        }
        if q > pos + 1 + t.len() {
            assert(s[pos + 1 + t.len()] != 0x22);
        }
    }
    assert(s.subrange(pos + 1, q) =~= t);
}

/// Writes the JSON array of node ids onto `out`.
pub fn emit_nid_array(out: &mut Vec<u8>, vals: &Vec<NodeId>)
    ensures
        final(out)@ == old(out)@ + nid_array(vals@),
{
    let ghost base = out@;
    out.push(0x5b);
    let n = vals.len();
    let mut i: usize = 0;
    proof {
        assert(nid_items(vals@.subrange(0, 0)) =~= Seq::<u8>::empty());
        assert(out@ =~= base + seq![0x5bu8] + nid_items(vals@.subrange(0, 0)));
    }
    while i < n
        invariant
            0 <= i <= n,
            n == vals@.len(),
            out@ == base + seq![0x5bu8] + nid_items(vals@.subrange(0, i as int)),
        decreases n - i,
    {
        if i > 0 {
            out.push(0x2c);
        }
        emit_node_item(out, vals[i]);
        proof {
            let prefix = vals@.subrange(0, i as int);
            let prefix1 = vals@.subrange(0, i as int + 1);
            assert(prefix1.drop_last() =~= prefix);
            assert(prefix1.last() == vals@[i as int]);
            if i == 0 {
                assert(nid_items(prefix1) == node_item(vals@[0]));
                assert(out@ =~= base + seq![0x5bu8] + nid_items(prefix1));
            } else {
                assert(nid_items(prefix1) == nid_items(prefix) + seq![0x2cu8] + node_item(
                    vals@[i as int],
                ));
                assert(out@ =~= base + seq![0x5bu8] + nid_items(prefix1));
            }
        }
        i = i + 1;
    }
    out.push(0x5d);
    proof {
        assert(vals@.subrange(0, n as int) =~= vals@);
        assert(out@ =~= base + nid_array(vals@));
    }
}

/// After a rendered node item comes a comma or the closing bracket —
/// never a quote.
proof fn nid_cont_head_not_quote(s: Seq<u8>, at: int, rest: Seq<NodeId>)
    requires
        starts_with(s, at, nid_cont(rest) + seq![0x5du8]),
    ensures
        at < s.len(),
        s[at] == 0x5d || s[at] == 0x2c,
{
    if rest.len() == 0 {
        assert(nid_cont(rest) + seq![0x5du8] =~= seq![0x5du8]);
        lemma_starts_with_byte(s, at, 0x5d);
    } else {
        lemma_nid_cont_first(rest);
        assert((nid_cont(rest) + seq![0x5du8])[0] == 0x2c) by {
            assert(nid_cont(rest)[0] == 0x2c);
        }
        lemma_starts_with_index(s, at, nid_cont(rest) + seq![0x5du8], 0);
    }
}

/// Reads a JSON array of node ids at `pos`.
pub fn parse_nid_array(s: &[u8], pos: usize) -> (r: Option<(Vec<NodeId>, usize)>)
    ensures
        r matches Some(p) ==> {
            &&& pos <= p.1 <= s@.len()
            &&& starts_with(s@, pos as int, nid_array(p.0@))
            &&& p.1 == pos + nid_array(p.0@).len()
            &&& forall|vs: Seq<NodeId>|
                starts_with(s@, pos as int, #[trigger] nid_array(vs)) ==> vs == p.0@
        },
        r is None ==> forall|vs: Seq<NodeId>|
            !starts_with(s@, pos as int, #[trigger] nid_array(vs)),
{
    let n = s.len();
    if pos >= n || s[pos] != 0x5b {
        proof {
            assert forall|vs: Seq<NodeId>|
                !starts_with(s@, pos as int, #[trigger] nid_array(vs)) by {
                if starts_with(s@, pos as int, nid_array(vs)) {
                    lemma_starts_with_index(s@, pos as int, nid_array(vs), 0);
                }
            }
        }
        return None;
    }
    assert(s@[pos as int] == 0x5b);
    let mut got: Vec<NodeId> = Vec::new();
    if pos + 1 < n && s[pos + 1] == 0x5d {
        proof {
            assert(starts_with(s@, pos as int, nid_array(got@))) by {
                assert(nid_items(got@) =~= Seq::<u8>::empty());
                assert(nid_array(got@) =~= seq![0x5bu8, 0x5du8]);
                assert(s@.subrange(pos as int, pos + 2) =~= seq![0x5bu8, 0x5du8]);
            }
            assert forall|vs: Seq<NodeId>|
                starts_with(s@, pos as int, #[trigger] nid_array(vs)) implies vs == got@ by {
                if vs.len() > 0 {
                    lemma_nid_items_first(vs);
                    lemma_starts_with_index(s@, pos as int, nid_array(vs), 1);
                    assert(nid_array(vs)[1] == 0x22) by {
                        assert(nid_items(vs)[0] == node_item(vs[0])[0]);
                    }
                }
                assert(vs =~= got@);
            }
        }
        return Some((got, pos + 2));
    }
    let first = match parse_node_at(s, pos + 1) {
        Some(p) => p,
        None => {
            proof {
                assert forall|vs: Seq<NodeId>|
                    !starts_with(s@, pos as int, #[trigger] nid_array(vs)) by {
                    if starts_with(s@, pos as int, nid_array(vs)) {
                        nid_arr_head(s@, pos as int, vs, n as int);
                    }
                }
            }
            return None;
        },
    };
    got.push(first.0);
    let mut at: usize = first.1;
    proof {
        assert(starts_with(s@, pos + 1, nid_items(got@))) by {
            assert(nid_items(got@) == node_item(first.0));
        }
        assert(at == pos + 1 + nid_items(got@).len());
        assert forall|vs: Seq<NodeId>|
            starts_with(s@, pos as int, #[trigger] nid_array(vs)) implies exists|
                rest: Seq<NodeId>,
            |
                vs == got@ + rest && starts_with(
                    s@,
                    at as int,
                    #[trigger] nid_cont(rest) + seq![0x5du8],
                ) by {
            nid_arr_head(s@, pos as int, vs, n as int);
            assert(vs.len() > 0);
            assert(vs[0] == first.0);
            let rest = vs.drop_first();
            assert(vs == got@ + rest) by {
                assert(vs =~= got@ + rest);
            }
            assert(starts_with(s@, at as int, nid_cont(rest) + seq![0x5du8]));
        }
    }
    loop
        invariant
            pos + 1 <= at <= n,
            n == s@.len(),
            got@.len() >= 1,
            starts_with(s@, pos + 1, nid_items(got@)),
            at == pos + 1 + nid_items(got@).len(),
            s@[pos as int] == 0x5b,
            forall|vs: Seq<NodeId>|
                starts_with(s@, pos as int, #[trigger] nid_array(vs)) ==> exists|
                    rest: Seq<NodeId>,
                |
                    vs == got@ + rest && starts_with(
                        s@,
                        at as int,
                        #[trigger] nid_cont(rest) + seq![0x5du8],
                    ),
        decreases n - at,
    {
        let ghost got0 = got@;
        if at >= n {
            proof {
                assert forall|vs: Seq<NodeId>|
                    !starts_with(s@, pos as int, #[trigger] nid_array(vs)) by {
                    if starts_with(s@, pos as int, nid_array(vs)) {
                        let rest = choose|rest: Seq<NodeId>|
                            vs == got0 + rest && starts_with(
                                s@,
                                at as int,
                                #[trigger] nid_cont(rest) + seq![0x5du8],
                            );
                        assert((nid_cont(rest) + seq![0x5du8]).len() >= 1);
                    }
                }
            }
            return None;
        }
        let b = s[at];
        if b == 0x5d {
            proof {
                assert forall|vs: Seq<NodeId>|
                    starts_with(s@, pos as int, #[trigger] nid_array(vs)) implies vs == got0 by {
                    let rest = choose|rest: Seq<NodeId>|
                        vs == got0 + rest && starts_with(
                            s@,
                            at as int,
                            #[trigger] nid_cont(rest) + seq![0x5du8],
                        );
                    if rest.len() > 0 {
                        lemma_nid_cont_first(rest);
                        assert((nid_cont(rest) + seq![0x5du8])[0] == 0x2c) by {
                            assert(nid_cont(rest)[0] == 0x2c);
                        }
                        lemma_starts_with_index(s@, at as int, nid_cont(rest) + seq![0x5du8], 0);
                        assert(false);
                    }
                    assert(vs =~= got0);
                }
                assert(starts_with(s@, pos as int, nid_array(got0))) by {
                    lemma_starts_with_byte(s@, pos as int, 0x5b);
                    lemma_starts_with_byte(s@, at as int, 0x5d);
                    lemma_starts_with_concat(s@, pos + 1, nid_items(got0), seq![0x5du8]);
                    lemma_starts_with_concat(
                        s@,
                        pos as int,
                        seq![0x5bu8],
                        nid_items(got0) + seq![0x5du8],
                    );
                    assert(nid_array(got0) =~= seq![0x5bu8] + (nid_items(got0) + seq![0x5du8]));
                }
            }
            return Some((got, at + 1));
        } else if b == 0x2c {
            let item = match parse_node_at(s, at + 1) {
                Some(p) => p,
                None => {
                    proof {
                        assert forall|vs: Seq<NodeId>|
                            !starts_with(s@, pos as int, #[trigger] nid_array(vs)) by {
                            if starts_with(s@, pos as int, nid_array(vs)) {
                                let rest = choose|rest: Seq<NodeId>|
                                    vs == got0 + rest && starts_with(
                                        s@,
                                        at as int,
                                        #[trigger] nid_cont(rest) + seq![0x5du8],
                                    );
                                nid_cont_match_head(s@, at as int, rest);
                            }
                        }
                    }
                    return None;
                },
            };
            got.push(item.0);
            let ghost old_at = at as int;
            at = item.1;
            proof {
                assert(nid_items(got@) == nid_items(got0) + seq![0x2cu8] + node_item(item.0)) by {
                    assert(got@.drop_last() =~= got0);
                    assert(got@.last() == item.0);
                }
                assert(starts_with(s@, pos + 1, nid_items(got@))) by {
                    lemma_starts_with_byte(s@, old_at, 0x2c);
                    lemma_starts_with_concat(s@, pos + 1, nid_items(got0), seq![0x2cu8]);
                    lemma_starts_with_concat(
                        s@,
                        pos + 1,
                        nid_items(got0) + seq![0x2cu8],
                        node_item(item.0),
                    );
                    assert(nid_items(got@) =~= (nid_items(got0) + seq![0x2cu8]) + node_item(
                        item.0,
                    ));
                }
                assert forall|vs: Seq<NodeId>|
                    starts_with(s@, pos as int, #[trigger] nid_array(vs)) implies exists|
                        rest: Seq<NodeId>,
                    |
                        vs == got@ + rest && starts_with(
                            s@,
                            at as int,
                            #[trigger] nid_cont(rest) + seq![0x5du8],
                        ) by {
                    let rest0 = choose|rest: Seq<NodeId>|
                        vs == got0 + rest && starts_with(
                            s@,
                            old_at,
                            #[trigger] nid_cont(rest) + seq![0x5du8],
                        );
                    nid_cont_match_head(s@, old_at, rest0);
                    assert(rest0.len() > 0);
                    assert(rest0[0] == item.0);
                    let rest1 = rest0.drop_first();
                    assert(vs == got@ + rest1) by {
                        assert(vs =~= got@ + rest1);
                    }
                    assert(starts_with(s@, at as int, nid_cont(rest1) + seq![0x5du8]));
                }
            }
        } else {
            proof {
                assert forall|vs: Seq<NodeId>|
                    !starts_with(s@, pos as int, #[trigger] nid_array(vs)) by {
                    if starts_with(s@, pos as int, nid_array(vs)) {
                        let rest = choose|rest: Seq<NodeId>|
                            vs == got0 + rest && starts_with(
                                s@,
                                at as int,
                                #[trigger] nid_cont(rest) + seq![0x5du8],
                            );
                        nid_cont_head_not_quote(s@, at as int, rest);
                    }
                }
            }
            return None;
        }
    }
}

/// A matched node array that is not empty at its bracket has its first
/// quoted id right after it, and the scan facts needed to consume it.
proof fn nid_arr_head(s: Seq<u8>, pos: int, vs: Seq<NodeId>, n: int)
    requires
        n == s.len(),
        starts_with(s, pos, nid_array(vs)),
        !(pos + 1 < n && s[pos + 1] == 0x5d),
    ensures
        vs.len() > 0,
        starts_with(s, pos + 1, node_item(vs[0])),
        starts_with(
            s,
            pos + 1 + node_item(vs[0]).len(),
            nid_cont(vs.drop_first()) + seq![0x5du8],
        ),
{
    if vs.len() == 0 {
        assert(nid_array(vs) =~= seq![0x5bu8, 0x5du8]);
        lemma_starts_with_index(s, pos, nid_array(vs), 1);
        assert(false);
    }
    lemma_nid_items_first(vs);
    assert(nid_array(vs) =~= seq![0x5bu8] + (node_item(vs[0]) + (nid_cont(vs.drop_first())
        + seq![0x5du8])));
    lemma_starts_with_concat(
        s,
        pos,
        seq![0x5bu8],
        node_item(vs[0]) + (nid_cont(vs.drop_first()) + seq![0x5du8]),
    );
    lemma_starts_with_concat(
        s,
        pos + 1,
        node_item(vs[0]),
        nid_cont(vs.drop_first()) + seq![0x5du8],
    );
}

/// A node-id continuation matched where a comma stands is non-empty,
/// and its first quoted id follows the comma.
proof fn nid_cont_match_head(s: Seq<u8>, at: int, rest: Seq<NodeId>)
    requires
        starts_with(s, at, nid_cont(rest) + seq![0x5du8]),
        at < s.len(),
        s[at] == 0x2c,
    ensures
        rest.len() > 0,
        starts_with(s, at + 1, node_item(rest[0])),
        starts_with(
            s,
            at + 1 + node_item(rest[0]).len(),
            nid_cont(rest.drop_first()) + seq![0x5du8],
        ),
{
    if rest.len() == 0 {
        assert(nid_cont(rest) + seq![0x5du8] =~= seq![0x5du8]);
        lemma_starts_with_byte(s, at, 0x5d);
        assert(false);
    }
    lemma_nid_cont_first(rest);
    assert(nid_cont(rest) + seq![0x5du8] =~= seq![0x2cu8] + (node_item(rest[0]) + (nid_cont(
        rest.drop_first(),
    ) + seq![0x5du8])));
    lemma_starts_with_concat(
        s,
        at,
        seq![0x2cu8],
        node_item(rest[0]) + (nid_cont(rest.drop_first()) + seq![0x5du8]),
    );
    lemma_starts_with_concat(
        s,
        at + 1,
        node_item(rest[0]),
        nid_cont(rest.drop_first()) + seq![0x5du8],
    );
}

/// One topology binding: a quoted node id, a colon, its neighbour
/// array.
pub open spec fn pair_bytes(p: (NodeId, Seq<NodeId>)) -> Seq<u8> {
    node_item(p.0) + seq![0x3au8] + nid_array(p.1)
}

/// The comma-separated bindings of a topology object.
pub open spec fn topo_items(s: Seq<(NodeId, Seq<NodeId>)>) -> Seq<u8>
    decreases s.len(),
{
    if s.len() == 0 {
        Seq::empty()
    } else if s.len() == 1 {
        pair_bytes(s[0])
    } else {
        topo_items(s.drop_last()) + seq![0x2cu8] + pair_bytes(s.last())
    }
}

/// The continuation of a topology object's bindings.
pub open spec fn topo_cont(s: Seq<(NodeId, Seq<NodeId>)>) -> Seq<u8>
    decreases s.len(),
{
    if s.len() == 0 {
        Seq::empty()
    } else {
        topo_cont(s.drop_last()) + seq![0x2cu8] + pair_bytes(s.last())
    }
}

/// The JSON object of a topology map.
pub open spec fn topo_object(s: Seq<(NodeId, Seq<NodeId>)>) -> Seq<u8> {
    seq![0x7bu8] + topo_items(s) + seq![0x7du8]
}

proof fn lemma_topo_items_first(s: Seq<(NodeId, Seq<NodeId>)>)
    requires
        s.len() >= 1,
    ensures
        topo_items(s) == pair_bytes(s[0]) + topo_cont(s.drop_first()),
    decreases s.len(),
{
    if s.len() == 1 {
        assert(topo_cont(s.drop_first()) =~= Seq::<u8>::empty());
        assert(topo_items(s) =~= pair_bytes(s[0]) + topo_cont(s.drop_first()));
    } else {
        let dl = s.drop_last();
        lemma_topo_items_first(dl);
        assert(dl[0] == s[0]);
        assert(dl.drop_first() =~= s.drop_first().drop_last());
        assert(s.drop_first().last() == s.last());
        assert(topo_cont(s.drop_first()) == topo_cont(s.drop_first().drop_last()) + seq![0x2cu8]
            + pair_bytes(s.last()));
        assert(topo_items(s) == (pair_bytes(s[0]) + topo_cont(dl.drop_first())) + seq![0x2cu8]
            + pair_bytes(s.last()));
        assert((pair_bytes(s[0]) + topo_cont(dl.drop_first())) + seq![0x2cu8] + pair_bytes(
            s.last(),
        ) =~= pair_bytes(s[0]) + (topo_cont(dl.drop_first()) + seq![0x2cu8] + pair_bytes(
            s.last(),
        )));
        assert(topo_cont(dl.drop_first()) + seq![0x2cu8] + pair_bytes(s.last()) == topo_cont(
            s.drop_first(),
        ));
    }
}

proof fn lemma_topo_cont_first(s: Seq<(NodeId, Seq<NodeId>)>)
    requires
        s.len() >= 1,
    ensures
        topo_cont(s) == seq![0x2cu8] + pair_bytes(s[0]) + topo_cont(s.drop_first()),
    decreases s.len(),
{
    if s.len() == 1 {
        assert(topo_cont(s.drop_last()) =~= Seq::<u8>::empty());
        assert(topo_cont(s.drop_first()) =~= Seq::<u8>::empty());
        assert(topo_cont(s) == topo_cont(s.drop_last()) + seq![0x2cu8] + pair_bytes(s.last()));
        assert(topo_cont(s) =~= seq![0x2cu8] + pair_bytes(s[0]) + topo_cont(s.drop_first()));
    } else {
        let dl = s.drop_last();
        lemma_topo_cont_first(dl);
        assert(dl[0] == s[0]);
        assert(dl.drop_first() =~= s.drop_first().drop_last());
        assert(s.drop_first().last() == s.last());
        assert(topo_cont(s.drop_first()) == topo_cont(s.drop_first().drop_last()) + seq![0x2cu8]
            + pair_bytes(s.last()));
        assert(topo_cont(s) == (seq![0x2cu8] + pair_bytes(s[0]) + topo_cont(dl.drop_first()))
            + seq![0x2cu8] + pair_bytes(s.last()));
        assert((seq![0x2cu8] + pair_bytes(s[0]) + topo_cont(dl.drop_first())) + seq![0x2cu8]
            + pair_bytes(s.last()) =~= seq![0x2cu8] + pair_bytes(s[0]) + (topo_cont(
            dl.drop_first(),
        ) + seq![0x2cu8] + pair_bytes(s.last())));
        assert(topo_cont(dl.drop_first()) + seq![0x2cu8] + pair_bytes(s.last()) == topo_cont(
            s.drop_first(),
        ));
    }
}

/// Writes a topology object onto `out`.
pub fn emit_topology(out: &mut Vec<u8>, pairs: &Vec<(NodeId, Vec<NodeId>)>)
    ensures
        final(out)@ == old(out)@ + topo_object(crate::topology::pairs_view(pairs@)),
{
    let ghost base = out@;
    let ghost pv = crate::topology::pairs_view(pairs@);
    out.push(0x7b);
    let n = pairs.len();
    let mut i: usize = 0;
    proof {
        assert(topo_items(pv.subrange(0, 0)) =~= Seq::<u8>::empty());
        assert(out@ =~= base + seq![0x7bu8] + topo_items(pv.subrange(0, 0)));
    }
    while i < n
        invariant
            0 <= i <= n,
            n == pairs@.len(),
            pv == crate::topology::pairs_view(pairs@),
            pv.len() == n,
            out@ == base + seq![0x7bu8] + topo_items(pv.subrange(0, i as int)),
        decreases n - i,
    {
        if i > 0 {
            out.push(0x2c);
        }
        emit_node_item(out, pairs[i].0);
        out.push(0x3a);
        emit_nid_array(out, &pairs[i].1);
        proof {
            let prefix = pv.subrange(0, i as int);
            let prefix1 = pv.subrange(0, i as int + 1);
            assert(prefix1.drop_last() =~= prefix);
            assert(prefix1.last() == pv[i as int]);
            assert(pv[i as int] == (pairs@[i as int].0, pairs@[i as int].1@));
            assert(pair_bytes(pv[i as int]) == node_item(pairs@[i as int].0) + seq![0x3au8]
                + nid_array(pairs@[i as int].1@));
            if i == 0 {
                assert(topo_items(prefix1) == pair_bytes(pv[0]));
                assert(out@ =~= base + seq![0x7bu8] + topo_items(prefix1));
            } else {
                assert(topo_items(prefix1) == topo_items(prefix) + seq![0x2cu8] + pair_bytes(
                    pv[i as int],
                ));
                assert(out@ =~= base + seq![0x7bu8] + topo_items(prefix1));
            }
        }
        i = i + 1;
    }
    out.push(0x7d);
    proof {
        assert(pv.subrange(0, n as int) =~= pv);
        assert(out@ =~= base + topo_object(pv));
    }
}

/// Reads one topology binding at `at`.
fn parse_topo_pair(s: &[u8], at: usize) -> (r: Option<((NodeId, Vec<NodeId>), usize)>)
    ensures
        r matches Some(p) ==> {
            &&& at <= p.1 <= s@.len()
            &&& starts_with(s@, at as int, pair_bytes((p.0.0, p.0.1@)))
            &&& p.1 == at + pair_bytes((p.0.0, p.0.1@)).len()
            &&& forall|q: (NodeId, Seq<NodeId>)|
                starts_with(s@, at as int, #[trigger] pair_bytes(q)) ==> q == (p.0.0, p.0.1@)
        },
        r is None ==> forall|q: (NodeId, Seq<NodeId>)|
            !starts_with(s@, at as int, #[trigger] pair_bytes(q)),
{
    let key = match parse_node_at(s, at) {
        Some(k) => k,
        None => {
            proof {
                assert forall|q: (NodeId, Seq<NodeId>)|
                    !starts_with(s@, at as int, #[trigger] pair_bytes(q)) by {
                    if starts_with(s@, at as int, pair_bytes(q)) {
                        assert(pair_bytes(q) =~= node_item(q.0) + (seq![0x3au8] + nid_array(q.1)));
                        lemma_starts_with_concat(
                            s@,
                            at as int,
                            node_item(q.0),
                            seq![0x3au8] + nid_array(q.1),
                        );
                    }
                }
            }
            return None;
        },
    };
    let n = s.len();
    if key.1 >= n || s[key.1] != 0x3a {
        proof {
            assert forall|q: (NodeId, Seq<NodeId>)|
                !starts_with(s@, at as int, #[trigger] pair_bytes(q)) by {
                if starts_with(s@, at as int, pair_bytes(q)) {
                    assert(pair_bytes(q) =~= node_item(q.0) + (seq![0x3au8] + nid_array(q.1)));
                    lemma_starts_with_concat(
                        s@,
                        at as int,
                        node_item(q.0),
                        seq![0x3au8] + nid_array(q.1),
                    );
                    assert(q.0 == key.0);
                    lemma_starts_with_concat(
                        s@,
                        at + node_item(q.0).len(),
                        seq![0x3au8],
                        nid_array(q.1),
                    );
                    lemma_starts_with_byte(s@, at + node_item(q.0).len(), 0x3a);
                }
            }
        }
        return None;
    }
    match parse_nid_array(s, key.1 + 1) {
        Some(arr) => {
            proof {
                assert(starts_with(s@, at as int, pair_bytes((key.0, arr.0@)))) by {
                    lemma_starts_with_byte(s@, key.1 as int, 0x3a);
                    lemma_starts_with_concat(s@, key.1 as int, seq![0x3au8], nid_array(arr.0@));
                    lemma_starts_with_concat(
                        s@,
                        at as int,
                        node_item(key.0),
                        seq![0x3au8] + nid_array(arr.0@),
                    );
                    assert(pair_bytes((key.0, arr.0@)) =~= node_item(key.0) + (seq![0x3au8]
                        + nid_array(arr.0@)));
                }
                assert forall|q: (NodeId, Seq<NodeId>)|
                    starts_with(s@, at as int, #[trigger] pair_bytes(q)) implies q == (
                    key.0,
                    arr.0@,
                ) by {
                    assert(pair_bytes(q) =~= node_item(q.0) + (seq![0x3au8] + nid_array(q.1)));
                    lemma_starts_with_concat(
                        s@,
                        at as int,
                        node_item(q.0),
                        seq![0x3au8] + nid_array(q.1),
                    );
                    assert(q.0 == key.0);
                    lemma_starts_with_concat(
                        s@,
                        at + node_item(q.0).len(),
                        seq![0x3au8],
                        nid_array(q.1),
                    );
                    assert(q.1 == arr.0@);
                }
            }
            Some(((key.0, arr.0), arr.1))
        },
        None => {
            proof {
                assert forall|q: (NodeId, Seq<NodeId>)|
                    !starts_with(s@, at as int, #[trigger] pair_bytes(q)) by {
                    if starts_with(s@, at as int, pair_bytes(q)) {
                        assert(pair_bytes(q) =~= node_item(q.0) + (seq![0x3au8] + nid_array(q.1)));
                        lemma_starts_with_concat(
                            s@,
                            at as int,
                            node_item(q.0),
                            seq![0x3au8] + nid_array(q.1),
                        );
                        assert(q.0 == key.0);
                        lemma_starts_with_concat(
                            s@,
                            at + node_item(q.0).len(),
                            seq![0x3au8],
                            nid_array(q.1),
                        );
                    }
                }
            }
            None
        },
    }
}

/// After a rendered binding comes a comma or the closing brace.
proof fn topo_cont_head(s: Seq<u8>, at: int, rest: Seq<(NodeId, Seq<NodeId>)>)
    requires
        starts_with(s, at, topo_cont(rest) + seq![0x7du8]),
    ensures
        at < s.len(),
        s[at] == 0x7d || s[at] == 0x2c,
        rest.len() > 0 ==> s[at] == 0x2c,
        rest.len() == 0 ==> s[at] == 0x7d,
{
    if rest.len() == 0 {
        assert(topo_cont(rest) + seq![0x7du8] =~= seq![0x7du8]);
        lemma_starts_with_byte(s, at, 0x7d);
    } else {
        lemma_topo_cont_first(rest);
        assert((topo_cont(rest) + seq![0x7du8])[0] == 0x2c) by {
            assert(topo_cont(rest)[0] == 0x2c);
        }
        lemma_starts_with_index(s, at, topo_cont(rest) + seq![0x7du8], 0);
    }
}

/// A topology continuation matched where a comma stands peels off its
/// first binding.
proof fn topo_cont_match_head(s: Seq<u8>, at: int, rest: Seq<(NodeId, Seq<NodeId>)>)
    requires
        starts_with(s, at, topo_cont(rest) + seq![0x7du8]),
        at < s.len(),
        s[at] == 0x2c,
    ensures
        rest.len() > 0,
        starts_with(s, at + 1, pair_bytes(rest[0])),
        starts_with(
            s,
            at + 1 + pair_bytes(rest[0]).len(),
            topo_cont(rest.drop_first()) + seq![0x7du8],
        ),
{
    if rest.len() == 0 {
        assert(topo_cont(rest) + seq![0x7du8] =~= seq![0x7du8]);
        lemma_starts_with_byte(s, at, 0x7d);
        assert(false);
    }
    lemma_topo_cont_first(rest);
    assert(topo_cont(rest) + seq![0x7du8] =~= seq![0x2cu8] + (pair_bytes(rest[0]) + (topo_cont(
        rest.drop_first(),
    ) + seq![0x7du8])));
    lemma_starts_with_concat(
        s,
        at,
        seq![0x2cu8],
        pair_bytes(rest[0]) + (topo_cont(rest.drop_first()) + seq![0x7du8]),
    );
    lemma_starts_with_concat(
        s,
        at + 1,
        pair_bytes(rest[0]),
        topo_cont(rest.drop_first()) + seq![0x7du8],
    );
}

/// A matched topology object that is not empty at its brace has its
/// first binding right after it.
proof fn topo_head(s: Seq<u8>, pos: int, vs: Seq<(NodeId, Seq<NodeId>)>, n: int)
    requires
        n == s.len(),
        starts_with(s, pos, topo_object(vs)),
        !(pos + 1 < n && s[pos + 1] == 0x7d),
    ensures
        vs.len() > 0,
        starts_with(s, pos + 1, pair_bytes(vs[0])),
        starts_with(
            s,
            pos + 1 + pair_bytes(vs[0]).len(),
            topo_cont(vs.drop_first()) + seq![0x7du8],
        ),
{
    if vs.len() == 0 {
        assert(topo_object(vs) =~= seq![0x7bu8, 0x7du8]);
        lemma_starts_with_index(s, pos, topo_object(vs), 1);
        assert(false);
    }
    lemma_topo_items_first(vs);
    assert(topo_object(vs) =~= seq![0x7bu8] + (pair_bytes(vs[0]) + (topo_cont(vs.drop_first())
        + seq![0x7du8])));
    lemma_starts_with_concat(
        s,
        pos,
        seq![0x7bu8],
        pair_bytes(vs[0]) + (topo_cont(vs.drop_first()) + seq![0x7du8]),
    );
    lemma_starts_with_concat(
        s,
        pos + 1,
        pair_bytes(vs[0]),
        topo_cont(vs.drop_first()) + seq![0x7du8],
    );
}

/// Reads a topology object at `pos`, rejecting objects that bind one
/// node twice.
pub fn parse_topology(s: &[u8], pos: usize) -> (r: Option<(Vec<(NodeId, Vec<NodeId>)>, usize)>)
    ensures
        r matches Some(p) ==> {
            &&& pos <= p.1 <= s@.len()
            &&& starts_with(s@, pos as int, topo_object(crate::topology::pairs_view(p.0@)))
            &&& p.1 == pos + topo_object(crate::topology::pairs_view(p.0@)).len()
            &&& crate::topology::pair_keys(crate::topology::pairs_view(p.0@)).no_duplicates()
            &&& forall|vs: Seq<(NodeId, Seq<NodeId>)>|
                starts_with(s@, pos as int, #[trigger] topo_object(vs)) ==> vs
                    == crate::topology::pairs_view(p.0@)
        },
        r is None ==> forall|vs: Seq<(NodeId, Seq<NodeId>)>|
            crate::topology::pair_keys(vs).no_duplicates() ==> !starts_with(
                s@,
                pos as int,
                #[trigger] topo_object(vs),
            ),
{
    let n = s.len();
    if pos >= n || s[pos] != 0x7b {
        proof {
            assert forall|vs: Seq<(NodeId, Seq<NodeId>)>|
                !starts_with(s@, pos as int, #[trigger] topo_object(vs)) by {
                if starts_with(s@, pos as int, topo_object(vs)) {
                    lemma_starts_with_index(s@, pos as int, topo_object(vs), 0);
                }
            }
        }
        return None;
    }
    assert(s@[pos as int] == 0x7b);
    let mut got: Vec<(NodeId, Vec<NodeId>)> = Vec::new();
    if pos + 1 < n && s[pos + 1] == 0x7d {
        proof {
            let gv = crate::topology::pairs_view(got@);
            assert(gv =~= Seq::<(NodeId, Seq<NodeId>)>::empty());
            assert(starts_with(s@, pos as int, topo_object(gv))) by {
                assert(topo_items(gv) =~= Seq::<u8>::empty());
                assert(topo_object(gv) =~= seq![0x7bu8, 0x7du8]);
                assert(s@.subrange(pos as int, pos + 2) =~= seq![0x7bu8, 0x7du8]);
            }
            assert(crate::topology::pair_keys(gv).no_duplicates());
            assert forall|vs: Seq<(NodeId, Seq<NodeId>)>|
                starts_with(s@, pos as int, #[trigger] topo_object(vs)) implies vs == gv by {
                if vs.len() > 0 {
                    lemma_topo_items_first(vs);
                    lemma_starts_with_index(s@, pos as int, topo_object(vs), 1);
                    assert(topo_object(vs)[1] == 0x22) by {
                        assert(topo_items(vs)[0] == pair_bytes(vs[0])[0]);
                        assert(pair_bytes(vs[0])[0] == node_item(vs[0].0)[0]);
                    }
                }
                assert(vs =~= gv);
            }
        }
        return Some((got, pos + 2));
    }
    let first = match parse_topo_pair(s, pos + 1) {
        Some(p) => p,
        None => {
            proof {
                assert forall|vs: Seq<(NodeId, Seq<NodeId>)>|
                    !starts_with(s@, pos as int, #[trigger] topo_object(vs)) by {
                    if starts_with(s@, pos as int, topo_object(vs)) {
                        topo_head(s@, pos as int, vs, n as int);
                    }
                }
            }
            return None;
        },
    };
    let ghost fk = first.0.0;
    got.push(first.0);
    let mut at: usize = first.1;
    proof {
        let gv = crate::topology::pairs_view(got@);
        assert(gv =~= seq![(fk, first.0.1@)]);
        assert(topo_items(gv) == pair_bytes(gv[0]));
        assert(starts_with(s@, pos + 1, topo_items(gv)));
        assert(at == pos + 1 + topo_items(gv).len());
        assert(crate::topology::pair_keys(gv).no_duplicates());
        assert forall|vs: Seq<(NodeId, Seq<NodeId>)>|
            starts_with(s@, pos as int, #[trigger] topo_object(vs)) implies exists|
                rest: Seq<(NodeId, Seq<NodeId>)>,
            |
                vs == gv + rest && starts_with(
                    s@,
                    at as int,
                    #[trigger] topo_cont(rest) + seq![0x7du8],
                ) by {
            topo_head(s@, pos as int, vs, n as int);
            assert(vs.len() > 0);
            assert(vs[0] == (first.0.0, first.0.1@));
            let rest = vs.drop_first();
            assert(vs == gv + rest) by {
                assert(vs =~= gv + rest);
            }
            assert(starts_with(s@, at as int, topo_cont(rest) + seq![0x7du8]));
        }
    }
    loop
        invariant
            pos + 1 <= at <= n,
            n == s@.len(),
            got@.len() >= 1,
            starts_with(s@, pos + 1, topo_items(crate::topology::pairs_view(got@))),
            at == pos + 1 + topo_items(crate::topology::pairs_view(got@)).len(),
            s@[pos as int] == 0x7b,
            crate::topology::pair_keys(crate::topology::pairs_view(got@)).no_duplicates(),
            forall|vs: Seq<(NodeId, Seq<NodeId>)>|
                starts_with(s@, pos as int, #[trigger] topo_object(vs)) ==> exists|
                    rest: Seq<(NodeId, Seq<NodeId>)>,
                |
                    vs == crate::topology::pairs_view(got@) + rest && starts_with(
                        s@,
                        at as int,
                        #[trigger] topo_cont(rest) + seq![0x7du8],
                    ),
        decreases n - at,
    {
        let ghost gv0 = crate::topology::pairs_view(got@);
        if at >= n {
            proof {
                assert forall|vs: Seq<(NodeId, Seq<NodeId>)>|
                    !starts_with(s@, pos as int, #[trigger] topo_object(vs)) by {
                    if starts_with(s@, pos as int, topo_object(vs)) {
                        let rest = choose|rest: Seq<(NodeId, Seq<NodeId>)>|
                            vs == gv0 + rest && starts_with(
                                s@,
                                at as int,
                                #[trigger] topo_cont(rest) + seq![0x7du8],
                            );
                        assert((topo_cont(rest) + seq![0x7du8]).len() >= 1);
                    }
                }
            }
            return None;
        }
        let b = s[at];
        if b == 0x7d {
            proof {
                assert forall|vs: Seq<(NodeId, Seq<NodeId>)>|
                    starts_with(s@, pos as int, #[trigger] topo_object(vs)) implies vs == gv0 by {
                    let rest = choose|rest: Seq<(NodeId, Seq<NodeId>)>|
                        vs == gv0 + rest && starts_with(
                            s@,
                            at as int,
                            #[trigger] topo_cont(rest) + seq![0x7du8],
                        );
                    topo_cont_head(s@, at as int, rest);
                    assert(rest.len() == 0);
                    assert(vs =~= gv0);
                }
                assert(starts_with(s@, pos as int, topo_object(gv0))) by {
                    lemma_starts_with_byte(s@, pos as int, 0x7b);
                    lemma_starts_with_byte(s@, at as int, 0x7d);
                    lemma_starts_with_concat(s@, pos + 1, topo_items(gv0), seq![0x7du8]);
                    lemma_starts_with_concat(
                        s@,
                        pos as int,
                        seq![0x7bu8],
                        topo_items(gv0) + seq![0x7du8],
                    );
                    assert(topo_object(gv0) =~= seq![0x7bu8] + (topo_items(gv0) + seq![0x7du8]));
                }
            }
            return Some((got, at + 1));
        } else if b == 0x2c {
            let item = match parse_topo_pair(s, at + 1) {
                Some(p) => p,
                None => {
                    proof {
                        assert forall|vs: Seq<(NodeId, Seq<NodeId>)>|
                            !starts_with(s@, pos as int, #[trigger] topo_object(vs)) by {
                            if starts_with(s@, pos as int, topo_object(vs)) {
                                let rest = choose|rest: Seq<(NodeId, Seq<NodeId>)>|
                                    vs == gv0 + rest && starts_with(
                                        s@,
                                        at as int,
                                        #[trigger] topo_cont(rest) + seq![0x7du8],
                                    );
                                topo_cont_match_head(s@, at as int, rest);
                            }
                        }
                    }
                    return None;
                },
            };
            // one binding per node: a duplicate key is rejected
            if contains_key(&got, item.0.0) {
                proof {
                    assert forall|vs: Seq<(NodeId, Seq<NodeId>)>|
                        crate::topology::pair_keys(vs).no_duplicates() implies !starts_with(
                        s@,
                        pos as int,
                        #[trigger] topo_object(vs),
                    ) by {
                        if starts_with(s@, pos as int, topo_object(vs)) {
                            let rest = choose|rest: Seq<(NodeId, Seq<NodeId>)>|
                                vs == gv0 + rest && starts_with(
                                    s@,
                                    at as int,
                                    #[trigger] topo_cont(rest) + seq![0x7du8],
                                );
                            topo_cont_match_head(s@, at as int, rest);
                            assert(rest[0] == (item.0.0, item.0.1@));
                            let ks = crate::topology::pair_keys(vs);
                            let w = choose|w: int| 0 <= w < gv0.len() && gv0[w].0 == item.0.0;
                            assert(ks[w] == item.0.0) by {
                                assert(vs[w] == gv0[w]);
                            }
                            assert(ks[gv0.len() as int] == item.0.0) by {
                                assert(vs[gv0.len() as int] == rest[0]);
                            }
                            assert(false);
                        }
                    }
                }
                return None;
            }
            got.push(item.0);
            let ghost old_at = at as int;
            at = item.1;
            proof {
                let gv = crate::topology::pairs_view(got@);
                let ghost newp = (item.0.0, item.0.1@);
                assert(gv =~= gv0.push(newp));
                assert(topo_items(gv) == topo_items(gv0) + seq![0x2cu8] + pair_bytes(newp)) by {
                    assert(gv.drop_last() =~= gv0);
                    assert(gv.last() == newp);
                }
                assert(starts_with(s@, pos + 1, topo_items(gv))) by {
                    lemma_starts_with_byte(s@, old_at, 0x2c);
                    lemma_starts_with_concat(s@, pos + 1, topo_items(gv0), seq![0x2cu8]);
                    lemma_starts_with_concat(
                        s@,
                        pos + 1,
                        topo_items(gv0) + seq![0x2cu8],
                        pair_bytes(newp),
                    );
                    assert(topo_items(gv) =~= (topo_items(gv0) + seq![0x2cu8]) + pair_bytes(newp));
                }
                assert(crate::topology::pair_keys(gv).no_duplicates()) by {
                    let ks = crate::topology::pair_keys(gv);
                    let ks0 = crate::topology::pair_keys(gv0);
                    assert(ks =~= ks0.push(item.0.0));
                    assert forall|a: int, b2: int|
                        0 <= a < ks.len() && 0 <= b2 < ks.len() && a != b2 implies ks[a]
                        != ks[b2] by {
                        if a < ks0.len() && b2 < ks0.len() {
                            assert(ks[a] == ks0[a] && ks[b2] == ks0[b2]);
                        } else if a < ks0.len() {
                            assert(ks[b2] == item.0.0);
                            assert(ks[a] == ks0[a]);
                            assert(gv0[a].0 == ks0[a]);
                        } else if b2 < ks0.len() {
                            assert(ks[a] == item.0.0);
                            assert(ks[b2] == ks0[b2]);
                            assert(gv0[b2].0 == ks0[b2]);
                        }
                    }
                }
                assert forall|vs: Seq<(NodeId, Seq<NodeId>)>|
                    starts_with(s@, pos as int, #[trigger] topo_object(vs)) implies exists|
                        rest: Seq<(NodeId, Seq<NodeId>)>,
                    |
                        vs == gv + rest && starts_with(
                            s@,
                            at as int,
                            #[trigger] topo_cont(rest) + seq![0x7du8],
                        ) by {
                    let rest0 = choose|rest: Seq<(NodeId, Seq<NodeId>)>|
                        vs == gv0 + rest && starts_with(
                            s@,
                            old_at,
                            #[trigger] topo_cont(rest) + seq![0x7du8],
                        );
                    topo_cont_match_head(s@, old_at, rest0);
                    assert(rest0.len() > 0);
                    assert(rest0[0] == newp);
                    let rest1 = rest0.drop_first();
                    assert(vs == gv + rest1) by {
                        assert(vs =~= gv + rest1);
                    }
                    assert(starts_with(s@, at as int, topo_cont(rest1) + seq![0x7du8]));
                }
            }
        } else {
            proof {
                assert forall|vs: Seq<(NodeId, Seq<NodeId>)>|
                    !starts_with(s@, pos as int, #[trigger] topo_object(vs)) by {
                    if starts_with(s@, pos as int, topo_object(vs)) {
                        let rest = choose|rest: Seq<(NodeId, Seq<NodeId>)>|
                            vs == gv0 + rest && starts_with(
                                s@,
                                at as int,
                                #[trigger] topo_cont(rest) + seq![0x7du8],
                            );
                        topo_cont_head(s@, at as int, rest);
                    }
                }
            }
            return None;
        }
    }
}

/// Reports whether `got` already binds `key`.
fn contains_key(got: &Vec<(NodeId, Vec<NodeId>)>, key: NodeId) -> (r: bool)
    ensures
        r == exists|w: int|
            0 <= w < crate::topology::pairs_view(got@).len() && #[trigger] crate::topology::pairs_view(
                got@,
            )[w].0 == key,
{
    let n = got.len();
    let mut i: usize = 0;
    while i < n
        invariant
            0 <= i <= n,
            n == got@.len(),
            forall|k: int| 0 <= k < i ==> crate::topology::pairs_view(got@)[k].0 != key,
        decreases n - i,
    {
        if got[i].0.0 == key.0 {
            proof {
                assert(crate::topology::pairs_view(got@)[i as int].0 == key);
            }
            return true;
        }
        proof {
            assert(crate::topology::pairs_view(got@)[i as int].0 == got@[i as int].0);
        }
        i = i + 1;
    }
    false
}

/// `{"src":"`
pub open spec fn lit_src() -> Seq<u8> {
    seq![0x7bu8, 0x22, 0x73, 0x72, 0x63, 0x22, 0x3a, 0x22]
}

/// `,"dest":"`
pub open spec fn lit_dest() -> Seq<u8> {
    seq![0x2cu8, 0x22, 0x64, 0x65, 0x73, 0x74, 0x22, 0x3a, 0x22]
}

/// `,"body":{"type":"`
pub open spec fn lit_body_type() -> Seq<u8> {
    seq![
        0x2cu8,
        0x22,
        0x62,
        0x6f,
        0x64,
        0x79,
        0x22,
        0x3a,
        0x7b,
        0x22,
        0x74,
        0x79,
        0x70,
        0x65,
        0x22,
        0x3a,
        0x22,
    ]
}

/// `,"msg_id":`
pub open spec fn lit_msg_id() -> Seq<u8> {
    seq![0x2cu8, 0x22, 0x6d, 0x73, 0x67, 0x5f, 0x69, 0x64, 0x22, 0x3a]
}

/// `,"in_reply_to":`
pub open spec fn lit_in_reply_to() -> Seq<u8> {
    seq![0x2cu8, 0x22, 0x69, 0x6e, 0x5f, 0x72, 0x65, 0x70, 0x6c, 0x79, 0x5f, 0x74, 0x6f, 0x22, 0x3a]
}

/// `,"echo":"`
pub open spec fn lit_echo() -> Seq<u8> {
    seq![0x2cu8, 0x22, 0x65, 0x63, 0x68, 0x6f, 0x22, 0x3a, 0x22]
}

/// `,"node_id":`
pub open spec fn lit_node_id() -> Seq<u8> {
    seq![0x2cu8, 0x22, 0x6e, 0x6f, 0x64, 0x65, 0x5f, 0x69, 0x64, 0x22, 0x3a]
}

/// `,"node_ids":`
pub open spec fn lit_node_ids() -> Seq<u8> {
    seq![0x2cu8, 0x22, 0x6e, 0x6f, 0x64, 0x65, 0x5f, 0x69, 0x64, 0x73, 0x22, 0x3a]
}

/// `,"message":`
pub open spec fn lit_message() -> Seq<u8> {
    seq![0x2cu8, 0x22, 0x6d, 0x65, 0x73, 0x73, 0x61, 0x67, 0x65, 0x22, 0x3a]
}

/// `,"messages":`
pub open spec fn lit_messages() -> Seq<u8> {
    seq![0x2cu8, 0x22, 0x6d, 0x65, 0x73, 0x73, 0x61, 0x67, 0x65, 0x73, 0x22, 0x3a]
}

/// `,"id":`
pub open spec fn lit_id() -> Seq<u8> {
    seq![0x2cu8, 0x22, 0x69, 0x64, 0x22, 0x3a]
}

/// `,"topology":`
pub open spec fn lit_topology() -> Seq<u8> {
    seq![0x2cu8, 0x22, 0x74, 0x6f, 0x70, 0x6f, 0x6c, 0x6f, 0x67, 0x79, 0x22, 0x3a]
}

/// `,"code":`
pub open spec fn lit_code() -> Seq<u8> {
    seq![0x2cu8, 0x22, 0x63, 0x6f, 0x64, 0x65, 0x22, 0x3a]
}

/// `,"text":"`
pub open spec fn lit_text() -> Seq<u8> {
    seq![0x2cu8, 0x22, 0x74, 0x65, 0x78, 0x74, 0x22, 0x3a, 0x22]
}

/// `}}`
pub open spec fn lit_end() -> Seq<u8> {
    seq![0x7du8, 0x7d]
}

/// The tag constant written on the wire.
pub open spec fn tg_echo() -> Seq<u8> {
    seq![0x65u8, 0x63, 0x68, 0x6f]
}

/// The tag constant written on the wire.
pub open spec fn tg_echo_ok() -> Seq<u8> {
    seq![0x65u8, 0x63, 0x68, 0x6f, 0x5f, 0x6f, 0x6b]
}

/// The tag constant written on the wire.
pub open spec fn tg_init() -> Seq<u8> {
    seq![0x69u8, 0x6e, 0x69, 0x74]
}

/// The tag constant written on the wire.
pub open spec fn tg_init_ok() -> Seq<u8> {
    seq![0x69u8, 0x6e, 0x69, 0x74, 0x5f, 0x6f, 0x6b]
}

/// The tag constant written on the wire.
pub open spec fn tg_broadcast() -> Seq<u8> {
    seq![0x62u8, 0x72, 0x6f, 0x61, 0x64, 0x63, 0x61, 0x73, 0x74]
}

/// The tag constant written on the wire.
pub open spec fn tg_broadcast_ok() -> Seq<u8> {
    seq![0x62u8, 0x72, 0x6f, 0x61, 0x64, 0x63, 0x61, 0x73, 0x74, 0x5f, 0x6f, 0x6b]
}

/// The tag constant written on the wire.
pub open spec fn tg_read() -> Seq<u8> {
    seq![0x72u8, 0x65, 0x61, 0x64]
}

/// The tag constant written on the wire.
pub open spec fn tg_read_ok() -> Seq<u8> {
    seq![0x72u8, 0x65, 0x61, 0x64, 0x5f, 0x6f, 0x6b]
}

/// The tag constant written on the wire.
pub open spec fn tg_generate() -> Seq<u8> {
    seq![0x67u8, 0x65, 0x6e, 0x65, 0x72, 0x61, 0x74, 0x65]
}

/// The tag constant written on the wire.
pub open spec fn tg_generate_ok() -> Seq<u8> {
    seq![0x67u8, 0x65, 0x6e, 0x65, 0x72, 0x61, 0x74, 0x65, 0x5f, 0x6f, 0x6b]
}

/// The tag constant written on the wire.
pub open spec fn tg_topology() -> Seq<u8> {
    seq![0x74u8, 0x6f, 0x70, 0x6f, 0x6c, 0x6f, 0x67, 0x79]
}

/// The tag constant written on the wire.
pub open spec fn tg_topology_ok() -> Seq<u8> {
    seq![0x74u8, 0x6f, 0x70, 0x6f, 0x6c, 0x6f, 0x67, 0x79, 0x5f, 0x6f, 0x6b]
}

/// The tag constant written on the wire.
pub open spec fn tg_error() -> Seq<u8> {
    seq![0x65u8, 0x72, 0x72, 0x6f, 0x72]
}

/// The `type` tag of a payload.
pub open spec fn tag_bytes(p: Payload) -> Seq<u8> {
    match p {
        Payload::Echo { .. } => tg_echo(),
        Payload::EchoOk { .. } => tg_echo_ok(),
        Payload::Init { .. } => tg_init(),
        Payload::InitOk => tg_init_ok(),
        Payload::Broadcast { .. } => tg_broadcast(),
        Payload::BroadcastOk => tg_broadcast_ok(),
        Payload::Read => tg_read(),
        Payload::ReadOk { .. } => tg_read_ok(),
        Payload::Generate => tg_generate(),
        Payload::GenerateOk { .. } => tg_generate_ok(),
        Payload::Topology { .. } => tg_topology(),
        Payload::TopologyOk => tg_topology_ok(),
        Payload::Error { .. } => tg_error(),
    }
}

/// The `msg_id` field's bytes: nothing when absent.
pub open spec fn msgid_bytes(o: Option<u64>) -> Seq<u8> {
    match o {
        Some(v) => lit_msg_id() + dec_digits(v as nat),
        None => Seq::empty(),
    }
}

/// The `in_reply_to` field's bytes: nothing when absent.
pub open spec fn irt_bytes(o: Option<u64>) -> Seq<u8> {
    match o {
        Some(v) => lit_in_reply_to() + dec_digits(v as nat),
        None => Seq::empty(),
    }
}

/// The payload-specific fields of a body.
pub open spec fn payload_fields(p: Payload) -> Seq<u8> {
    match p {
        Payload::Echo { echo } => lit_echo() + escape(echo@) + seq![0x22u8],
        Payload::EchoOk { echo } => lit_echo() + escape(echo@) + seq![0x22u8],
        Payload::Init { node_id, node_ids } => lit_node_id() + node_item(node_id)
            + lit_node_ids() + nid_array(node_ids@),
        Payload::Broadcast { message } => lit_message() + dec_digits(message as nat),
        Payload::ReadOk { messages } => lit_messages() + u64_array(messages@),
        Payload::GenerateOk { id } => lit_id() + dec_digits(id as nat),
        Payload::Topology { topology } => lit_topology() + topo_object(
            crate::topology::pairs_view(topology@),
        ),
        Payload::Error { code, text } => lit_code() + dec_digits(code.spec_code() as nat)
            + lit_text() + escape(text@) + seq![0x22u8],
        _ => Seq::empty(),
    }
}

/// The canonical line of an envelope, without the trailing newline.
pub open spec fn spec_render(m: Message) -> Seq<u8> {
    lit_src() + (spec_peer_text(m.src) + seq![0x22u8]) + lit_dest() + (spec_peer_text(m.dest)
        + seq![0x22u8]) + lit_body_type() + (tag_bytes(m.body.value) + seq![0x22u8])
        + msgid_bytes(m.body.msg_id) + irt_bytes(m.body.in_reply_to) + payload_fields(
        m.body.value,
    ) + lit_end()
}

/// Two envelopes with the same content render alike: rendering reads
/// only through the views of the carried lists.
pub open spec fn payload_eqv(a: Payload, b: Payload) -> bool {
    match (a, b) {
        (Payload::Echo { echo: e1 }, Payload::Echo { echo: e2 }) => e1@ == e2@,
        (Payload::EchoOk { echo: e1 }, Payload::EchoOk { echo: e2 }) => e1@ == e2@,
        (
            Payload::Init { node_id: n1, node_ids: v1 },
            Payload::Init { node_id: n2, node_ids: v2 },
        ) => n1 == n2 && v1@ == v2@,
        (Payload::InitOk, Payload::InitOk) => true,
        (Payload::Broadcast { message: m1 }, Payload::Broadcast { message: m2 }) => m1 == m2,
        (Payload::BroadcastOk, Payload::BroadcastOk) => true,
        (Payload::Read, Payload::Read) => true,
        (Payload::ReadOk { messages: v1 }, Payload::ReadOk { messages: v2 }) => v1@ == v2@,
        (Payload::Generate, Payload::Generate) => true,
        (Payload::GenerateOk { id: i1 }, Payload::GenerateOk { id: i2 }) => i1 == i2,
        (Payload::Topology { topology: t1 }, Payload::Topology { topology: t2 }) => crate::topology::pairs_view(
            t1@,
        ) == crate::topology::pairs_view(t2@),
        (Payload::TopologyOk, Payload::TopologyOk) => true,
        (
            Payload::Error { code: c1, text: t1 },
            Payload::Error { code: c2, text: t2 },
        ) => c1 == c2 && t1@ == t2@,
        _ => false,
    }
}

/// Content equality of envelopes: equal fields, with the carried lists
/// compared by their contents.
pub open spec fn message_eqv(a: Message, b: Message) -> bool {
    &&& a.src == b.src
    &&& a.dest == b.dest
    &&& a.body.msg_id == b.body.msg_id
    &&& a.body.in_reply_to == b.body.in_reply_to
    &&& payload_eqv(a.body.value, b.body.value)
}

// Exec builders for the grammar's literals.
fn make_lit_src() -> (r: Vec<u8>)
    ensures
        r@ == lit_src(),
{
    let mut v: Vec<u8> = Vec::new();
    v.push(0x7b);
    v.push(0x22);
    v.push(0x73);
    v.push(0x72);
    v.push(0x63);
    v.push(0x22);
    v.push(0x3a);
    v.push(0x22);
    proof {
        assert(v@ =~= lit_src());
    }
    v
}

fn make_lit_dest() -> (r: Vec<u8>)
    ensures
        r@ == lit_dest(),
{
    let mut v: Vec<u8> = Vec::new();
    v.push(0x2c);
    v.push(0x22);
    v.push(0x64);
    v.push(0x65);
    v.push(0x73);
    v.push(0x74);
    v.push(0x22);
    v.push(0x3a);
    v.push(0x22);
    proof {
        assert(v@ =~= lit_dest());
    }
    v
}

fn make_lit_body_type() -> (r: Vec<u8>)
    ensures
        r@ == lit_body_type(),
{
    let mut v: Vec<u8> = Vec::new();
    v.push(0x2c);
    v.push(0x22);
    v.push(0x62);
    v.push(0x6f);
    v.push(0x64);
    v.push(0x79);
    v.push(0x22);
    v.push(0x3a);
    v.push(0x7b);
    v.push(0x22);
    v.push(0x74);
    v.push(0x79);
    v.push(0x70);
    v.push(0x65);
    v.push(0x22);
    v.push(0x3a);
    v.push(0x22);
    proof {
        assert(v@ =~= lit_body_type());
    }
    v
}

fn make_lit_msg_id() -> (r: Vec<u8>)
    ensures
        r@ == lit_msg_id(),
{
    let mut v: Vec<u8> = Vec::new();
    v.push(0x2c);
    v.push(0x22);
    v.push(0x6d);
    v.push(0x73);
    v.push(0x67);
    v.push(0x5f);
    v.push(0x69);
    v.push(0x64);
    v.push(0x22);
    v.push(0x3a);
    proof {
        assert(v@ =~= lit_msg_id());
    }
    v
}

fn make_lit_in_reply_to() -> (r: Vec<u8>)
    ensures
        r@ == lit_in_reply_to(),
{
    let mut v: Vec<u8> = Vec::new();
    v.push(0x2c);
    v.push(0x22);
    v.push(0x69);
    v.push(0x6e);
    v.push(0x5f);
    v.push(0x72);
    v.push(0x65);
    v.push(0x70);
    v.push(0x6c);
    v.push(0x79);
    v.push(0x5f);
    v.push(0x74);
    v.push(0x6f);
    v.push(0x22);
    v.push(0x3a);
    proof {
        assert(v@ =~= lit_in_reply_to());
    }
    v
}

fn make_lit_echo() -> (r: Vec<u8>)
    ensures
        r@ == lit_echo(),
{
    let mut v: Vec<u8> = Vec::new();
    v.push(0x2c);
    v.push(0x22);
    v.push(0x65);
    v.push(0x63);
    v.push(0x68);
    v.push(0x6f);
    v.push(0x22);
    v.push(0x3a);
    v.push(0x22);
    proof {
        assert(v@ =~= lit_echo());
    }
    v
}

fn make_lit_node_id() -> (r: Vec<u8>)
    ensures
        r@ == lit_node_id(),
{
    let mut v: Vec<u8> = Vec::new();
    v.push(0x2c);
    v.push(0x22);
    v.push(0x6e);
    v.push(0x6f);
    v.push(0x64);
    v.push(0x65);
    v.push(0x5f);
    v.push(0x69);
    v.push(0x64);
    v.push(0x22);
    v.push(0x3a);
    proof {
        assert(v@ =~= lit_node_id());
    }
    v
}

fn make_lit_node_ids() -> (r: Vec<u8>)
    ensures
        r@ == lit_node_ids(),
{
    let mut v: Vec<u8> = Vec::new();
    v.push(0x2c);
    v.push(0x22);
    v.push(0x6e);
    v.push(0x6f);
    v.push(0x64);
    v.push(0x65);
    v.push(0x5f);
    v.push(0x69);
    v.push(0x64);
    v.push(0x73);
    v.push(0x22);
    v.push(0x3a);
    proof {
        assert(v@ =~= lit_node_ids());
    }
    v
}

fn make_lit_message() -> (r: Vec<u8>)
    ensures
        r@ == lit_message(),
{
    let mut v: Vec<u8> = Vec::new();
    v.push(0x2c);
    v.push(0x22);
    v.push(0x6d);
    v.push(0x65);
    v.push(0x73);
    v.push(0x73);
    v.push(0x61);
    v.push(0x67);
    v.push(0x65);
    v.push(0x22);
    v.push(0x3a);
    proof {
        assert(v@ =~= lit_message());
    }
    v
}

fn make_lit_messages() -> (r: Vec<u8>)
    ensures
        r@ == lit_messages(),
{
    let mut v: Vec<u8> = Vec::new();
    v.push(0x2c);
    v.push(0x22);
    v.push(0x6d);
    v.push(0x65);
    v.push(0x73);
    v.push(0x73);
    v.push(0x61);
    v.push(0x67);
    v.push(0x65);
    v.push(0x73);
    v.push(0x22);
    v.push(0x3a);
    proof {
        assert(v@ =~= lit_messages());
    }
    v
}

fn make_lit_id() -> (r: Vec<u8>)
    ensures
        r@ == lit_id(),
{
    let mut v: Vec<u8> = Vec::new();
    v.push(0x2c);
    v.push(0x22);
    v.push(0x69);
    v.push(0x64);
    v.push(0x22);
    v.push(0x3a);
    proof {
        assert(v@ =~= lit_id());
    }
    v
}

fn make_lit_topology() -> (r: Vec<u8>)
    ensures
        r@ == lit_topology(),
{
    let mut v: Vec<u8> = Vec::new();
    v.push(0x2c);
    v.push(0x22);
    v.push(0x74);
    v.push(0x6f);
    v.push(0x70);
    v.push(0x6f);
    v.push(0x6c);
    v.push(0x6f);
    v.push(0x67);
    v.push(0x79);
    v.push(0x22);
    v.push(0x3a);
    proof {
        assert(v@ =~= lit_topology());
    }
    v
}

fn make_lit_code() -> (r: Vec<u8>)
    ensures
        r@ == lit_code(),
{
    let mut v: Vec<u8> = Vec::new();
    v.push(0x2c);
    v.push(0x22);
    v.push(0x63);
    v.push(0x6f);
    v.push(0x64);
    v.push(0x65);
    v.push(0x22);
    v.push(0x3a);
    proof {
        assert(v@ =~= lit_code());
    }
    v
}

fn make_lit_text() -> (r: Vec<u8>)
    ensures
        r@ == lit_text(),
{
    let mut v: Vec<u8> = Vec::new();
    v.push(0x2c);
    v.push(0x22);
    v.push(0x74);
    v.push(0x65);
    v.push(0x78);
    v.push(0x74);
    v.push(0x22);
    v.push(0x3a);
    v.push(0x22);
    proof {
        assert(v@ =~= lit_text());
    }
    v
}

fn make_lit_end() -> (r: Vec<u8>)
    ensures
        r@ == lit_end(),
{
    let mut v: Vec<u8> = Vec::new();
    v.push(0x7d);
    v.push(0x7d);
    proof {
        assert(v@ =~= lit_end());
    }
    v
}

/// Writes the `type` tag of `p` onto `out`.
fn emit_tag(out: &mut Vec<u8>, p: &Payload)
    ensures
        final(out)@ == old(out)@ + tag_bytes(*p),
{
    let tag: Vec<u8> = match p {
        Payload::Echo { .. } => {
            let mut v: Vec<u8> = Vec::new();
            v.push(0x65);
            v.push(0x63);
            v.push(0x68);
            v.push(0x6f);
            v
        },
        Payload::EchoOk { .. } => {
            let mut v: Vec<u8> = Vec::new();
            v.push(0x65);
            v.push(0x63);
            v.push(0x68);
            v.push(0x6f);
            v.push(0x5f);
            v.push(0x6f);
            v.push(0x6b);
            v
        },
        Payload::Init { .. } => {
            let mut v: Vec<u8> = Vec::new();
            v.push(0x69);
            v.push(0x6e);
            v.push(0x69);
            v.push(0x74);
            v
        },
        Payload::InitOk => {
            let mut v: Vec<u8> = Vec::new();
            v.push(0x69);
            v.push(0x6e);
            v.push(0x69);
            v.push(0x74);
            v.push(0x5f);
            v.push(0x6f);
            v.push(0x6b);
            v
        },
        Payload::Broadcast { .. } => {
            let mut v: Vec<u8> = Vec::new();
            v.push(0x62);
            v.push(0x72);
            v.push(0x6f);
            v.push(0x61);
            v.push(0x64);
            v.push(0x63);
            v.push(0x61);
            v.push(0x73);
            v.push(0x74);
            v
        },
        Payload::BroadcastOk => {
            let mut v: Vec<u8> = Vec::new();
            v.push(0x62);
            v.push(0x72);
            v.push(0x6f);
            v.push(0x61);
            v.push(0x64);
            v.push(0x63);
            v.push(0x61);
            v.push(0x73);
            v.push(0x74);
            v.push(0x5f);
            v.push(0x6f);
            v.push(0x6b);
            v
        },
        Payload::Read => {
            let mut v: Vec<u8> = Vec::new();
            v.push(0x72);
            v.push(0x65);
            v.push(0x61);
            v.push(0x64);
            v
        },
        Payload::ReadOk { .. } => {
            let mut v: Vec<u8> = Vec::new();
            v.push(0x72);
            v.push(0x65);
            v.push(0x61);
            v.push(0x64);
            v.push(0x5f);
            v.push(0x6f);
            v.push(0x6b);
            v
        },
        Payload::Generate => {
            let mut v: Vec<u8> = Vec::new();
            v.push(0x67);
            v.push(0x65);
            v.push(0x6e);
            v.push(0x65);
            v.push(0x72);
            v.push(0x61);
            v.push(0x74);
            v.push(0x65);
            v
        },
        Payload::GenerateOk { .. } => {
            let mut v: Vec<u8> = Vec::new();
            v.push(0x67);
            v.push(0x65);
            v.push(0x6e);
            v.push(0x65);
            v.push(0x72);
            v.push(0x61);
            v.push(0x74);
            v.push(0x65);
            v.push(0x5f);
            v.push(0x6f);
            v.push(0x6b);
            v
        },
        Payload::Topology { .. } => {
            let mut v: Vec<u8> = Vec::new();
            v.push(0x74);
            v.push(0x6f);
            v.push(0x70);
            v.push(0x6f);
            v.push(0x6c);
            v.push(0x6f);
            v.push(0x67);
            v.push(0x79);
            v
        },
        Payload::TopologyOk => {
            let mut v: Vec<u8> = Vec::new();
            v.push(0x74);
            v.push(0x6f);
            v.push(0x70);
            v.push(0x6f);
            v.push(0x6c);
            v.push(0x6f);
            v.push(0x67);
            v.push(0x79);
            v.push(0x5f);
            v.push(0x6f);
            v.push(0x6b);
            v
        },
        Payload::Error { .. } => {
            let mut v: Vec<u8> = Vec::new();
            v.push(0x65);
            v.push(0x72);
            v.push(0x72);
            v.push(0x6f);
            v.push(0x72);
            v
        },
    };
    proof {
        assert(tag@ =~= tag_bytes(*p));
    }
    let mut t = tag;
    let ghost pre = out@;
    out.append(&mut t);
    proof {
        assert(final(out)@ =~= pre + tag_bytes(*p));
    }
}

/// Writes the canonical line of `m`, without a trailing newline.
#[verifier::rlimit(60)]
pub fn render(m: &Message) -> (r: Vec<u8>)
    ensures
        r@ == spec_render(*m),
{
    let mut out: Vec<u8> = Vec::new();
    let mut l = make_lit_src();
    out.append(&mut l);
    emit_peer(&mut out, &m.src);
    out.push(0x22);
    let mut l = make_lit_dest();
    out.append(&mut l);
    emit_peer(&mut out, &m.dest);
    out.push(0x22);
    let mut l = make_lit_body_type();
    out.append(&mut l);
    emit_tag(&mut out, &m.body.value);
    out.push(0x22);
    let ghost head = out@;
    proof {
        assert(head =~= lit_src() + (spec_peer_text(m.src) + seq![0x22u8]) + lit_dest() + (
        spec_peer_text(m.dest) + seq![0x22u8]) + lit_body_type() + (tag_bytes(m.body.value)
            + seq![0x22u8]));
    }
    match m.body.msg_id {
        Some(v) => {
            let mut l = make_lit_msg_id();
            out.append(&mut l);
            emit_u64(&mut out, v);
        },
        None => {},
    }
    proof {
        assert(out@ =~= head + msgid_bytes(m.body.msg_id));
    }
    let ghost head2 = out@;
    match m.body.in_reply_to {
        Some(v) => {
            let mut l = make_lit_in_reply_to();
            out.append(&mut l);
            emit_u64(&mut out, v);
        },
        None => {},
    }
    proof {
        assert(out@ =~= head2 + irt_bytes(m.body.in_reply_to));
    }
    let ghost head3 = out@;
    match &m.body.value {
        Payload::Echo { echo } => {
            let mut l = make_lit_echo();
            out.append(&mut l);
            emit_escaped(&mut out, echo);
            out.push(0x22);
        },
        Payload::EchoOk { echo } => {
            let mut l = make_lit_echo();
            out.append(&mut l);
            emit_escaped(&mut out, echo);
            out.push(0x22);
        },
        Payload::Init { node_id, node_ids } => {
            let mut l = make_lit_node_id();
            out.append(&mut l);
            emit_node_item(&mut out, *node_id);
            let mut l = make_lit_node_ids();
            out.append(&mut l);
            emit_nid_array(&mut out, node_ids);
        },
        Payload::Broadcast { message } => {
            let mut l = make_lit_message();
            out.append(&mut l);
            emit_u64(&mut out, *message);
        },
        Payload::ReadOk { messages } => {
            let mut l = make_lit_messages();
            out.append(&mut l);
            emit_u64_array(&mut out, messages);
        },
        Payload::GenerateOk { id } => {
            let mut l = make_lit_id();
            out.append(&mut l);
            emit_u64(&mut out, *id);
        },
        Payload::Topology { topology } => {
            let mut l = make_lit_topology();
            out.append(&mut l);
            emit_topology(&mut out, topology);
        },
        Payload::Error { code, text } => {
            let mut l = make_lit_code();
            out.append(&mut l);
            emit_u64(&mut out, code.code());
            let mut l = make_lit_text();
            out.append(&mut l);
            emit_escaped(&mut out, text);
            out.push(0x22);
        },
        _ => {},
    }
    proof {
        assert(out@ =~= head3 + payload_fields(m.body.value));
    }
    let mut l = make_lit_end();
    out.append(&mut l);
    proof {
        assert(out@ =~= spec_render(*m));
    }
    out
}

/// A peer text matched at a position, terminated by the first quote
/// after it, fills exactly the scanned span.
proof fn peer_text_scan_unique(s: Seq<u8>, pos: int, q: int, p: PeerId)
    requires
        starts_with(s, pos, spec_peer_text(p) + seq![0x22u8]),
        pos <= q < s.len(),
        s[q] == 0x22,
        forall|k: int| pos <= k < q ==> s[k] != 0x22,
    ensures
        q == pos + spec_peer_text(p).len(),
        s.subrange(pos, q) == spec_peer_text(p),
{
    let t = spec_peer_text(p);
    peer_text_has_no_quote(p);
    lemma_starts_with_concat(s, pos, t, seq![0x22u8]);
    assert forall|k: int| 0 <= k < t.len() implies s[pos + k] == t[k] by {
        lemma_starts_with_index(s, pos, t, k);
    }
    lemma_starts_with_byte(s, pos + t.len(), 0x22);
    assert(q == pos + t.len()) by {
        if q < pos + t.len() {
            assert(s[q] == t[q - pos]);
        }
        if q > pos + t.len() {
            assert(s[pos + t.len()] != 0x22);
        }
    }
    assert(s.subrange(pos, q) =~= t);
}

/// Equal peer texts name equal peers.
proof fn lemma_peer_text_injective(p1: PeerId, p2: PeerId)
    requires
        spec_peer_text(p1) == spec_peer_text(p2),
    ensures
        p1 == p2,
{
    let t1 = spec_peer_text(p1);
    let t2 = spec_peer_text(p2);
    let v1: u64 = match p1 {
        PeerId::Node(n) => n.0,
        PeerId::Client(c) => c.0,
    };
    let v2: u64 = match p2 {
        PeerId::Node(n) => n.0,
        PeerId::Client(c) => c.0,
    };
    match p1 {
        PeerId::Node(n) => {
            assert(t1 == seq![0x6eu8] + dec_digits(n.0 as nat));
            assert(t1 == seq![0x6eu8] + dec_digits(v1 as nat));
        },
        PeerId::Client(c) => {
            assert(t1 == seq![0x63u8] + dec_digits(c.0 as nat));
            assert(t1 == seq![0x63u8] + dec_digits(v1 as nat));
        },
    }
    match p2 {
        PeerId::Node(n) => {
            assert(t2 == seq![0x6eu8] + dec_digits(n.0 as nat));
            assert(t2 == seq![0x6eu8] + dec_digits(v2 as nat));
        },
        PeerId::Client(c) => {
            assert(t2 == seq![0x63u8] + dec_digits(c.0 as nat));
            assert(t2 == seq![0x63u8] + dec_digits(v2 as nat));
        },
    }
    assert(t1[0] == t2[0]);
    assert(dec_digits(v1 as nat) =~= dec_digits(v2 as nat)) by {
        assert(t1.len() == 1 + dec_digits(v1 as nat).len());
        assert(t2.len() == 1 + dec_digits(v2 as nat).len());
        assert forall|k: int| 0 <= k < dec_digits(v1 as nat).len() implies dec_digits(
            v1 as nat,
        )[k] == dec_digits(v2 as nat)[k] by {
            assert(t1[k + 1] == dec_digits(v1 as nat)[k]);
            assert(t2[k + 1] == dec_digits(v2 as nat)[k]);
        }
    }
    lemma_dec_value_of_digits(v1 as nat);
    lemma_dec_value_of_digits(v2 as nat);
    assert(v1 == v2);
}

/// The textual form of a peer id holds no quote: a marker letter and
/// decimal digits only.
proof fn peer_text_has_no_quote(p: PeerId)
    ensures
        forall|k: int| 0 <= k < spec_peer_text(p).len() ==> spec_peer_text(p)[k] != 0x22,
{
    let t = spec_peer_text(p);
    match p {
        PeerId::Node(nid) => {
            lemma_dec_digits_canonical(nid.0 as nat);
            assert forall|k: int| 0 <= k < t.len() implies t[k] != 0x22 by {
                if k > 0 {
                    assert(t[k] == dec_digits(nid.0 as nat)[k - 1]);
                    assert(is_dec_digit(dec_digits(nid.0 as nat)[k - 1]));
                }
            }
        },
        PeerId::Client(cid) => {
            lemma_dec_digits_canonical(cid.0 as nat);
            assert forall|k: int| 0 <= k < t.len() implies t[k] != 0x22 by {
                if k > 0 {
                    assert(t[k] == dec_digits(cid.0 as nat)[k - 1]);
                    assert(is_dec_digit(dec_digits(cid.0 as nat)[k - 1]));
                }
            }
        },
    }
}

/// Reads one line as an envelope. What is accepted is exactly the
/// canonical rendering: whatever comes back renders to the input, and
/// the rendering of any well-formed envelope is accepted and read back
/// with the same content — parsing a rendered envelope returns it.
#[verifier::rlimit(100)]
#[verifier::spinoff_prover]
pub fn parse(s: &[u8]) -> (r: Option<Message>)
    ensures
        r matches Some(m) ==> s@ == spec_render(m) && crate::node::msg_wf(m),
        forall|m: Message|
            crate::node::msg_wf(m) && s@ == spec_render(m) ==> r is Some && message_eqv(r->0, m),
{
    let n = s.len();
    let l_src = make_lit_src();
    if !match_lit(s, 0, l_src.as_slice()) {
        proof {
            assert forall|m: Message|
                crate::node::msg_wf(m) && s@ == spec_render(m) implies false by {
                render_decomp_header(s@, m);
            }
        }
        return None;
    }
    let sp = match parse_peer_at(s, 8) {
        Some(p) => p,
        None => {
            proof {
                assert forall|m: Message|
                    crate::node::msg_wf(m) && s@ == spec_render(m) implies false by {
                    render_decomp_header(s@, m);
                    assert(p_src(m) == 8);
                }
            }
            return None;
        },
    };
    let l_dest = make_lit_dest();
    if !match_lit(s, sp.1, l_dest.as_slice()) {
        proof {
            assert forall|m: Message|
                crate::node::msg_wf(m) && s@ == spec_render(m) implies false by {
                render_decomp_header(s@, m);
                assert(m.src == sp.0);
                assert(p_dest_lit(m) == sp.1);
            }
        }
        return None;
    }
    proof {
        assert(sp.1 + 9 <= s@.len());
    }
    let dp = match parse_peer_at(s, sp.1 + 9) {
        Some(p) => p,
        None => {
            proof {
                assert forall|m: Message|
                    crate::node::msg_wf(m) && s@ == spec_render(m) implies false by {
                    render_decomp_header(s@, m);
                    assert(m.src == sp.0);
                    assert(p_dest(m) == sp.1 + 9);
                }
            }
            return None;
        },
    };
    let l_bt = make_lit_body_type();
    if !match_lit(s, dp.1, l_bt.as_slice()) {
        proof {
            assert forall|m: Message|
                crate::node::msg_wf(m) && s@ == spec_render(m) implies false by {
                render_decomp_header(s@, m);
                assert(m.src == sp.0);
                assert(m.dest == dp.0);
                assert(p_bt(m) == dp.1);
            }
        }
        return None;
    }
    proof {
        assert(dp.1 + 17 <= s@.len());
    }
    let pos3 = dp.1 + 17;
    proof {
        assert(header_state(s@, sp.0, dp.0, pos3 as int));
    }
    let pr = tag_probe(&Payload::Echo { echo: Vec::new() });
    if match_lit(s, pos3, pr.as_slice()) {
        proof {
            assert(pos3 + 5 <= s@.len());
        }
        return branch_echo(s, sp.0, dp.0, pos3, pos3 + 5);
    }
    proof {
        assert(!starts_with(s@, pos3 as int, tg_echo() + seq![0x22u8]));
    }
    let pr = tag_probe(&Payload::EchoOk { echo: Vec::new() });
    if match_lit(s, pos3, pr.as_slice()) {
        proof {
            assert(pos3 + 8 <= s@.len());
        }
        return branch_echo_ok(s, sp.0, dp.0, pos3, pos3 + 8);
    }
    proof {
        assert(!starts_with(s@, pos3 as int, tg_echo_ok() + seq![0x22u8]));
    }
    let pr = tag_probe(&Payload::Init { node_id: NodeId(0), node_ids: Vec::new() });
    if match_lit(s, pos3, pr.as_slice()) {
        proof {
            assert(pos3 + 5 <= s@.len());
        }
        return branch_init(s, sp.0, dp.0, pos3, pos3 + 5);
    }
    proof {
        assert(!starts_with(s@, pos3 as int, tg_init() + seq![0x22u8]));
    }
    let pr = tag_probe(&Payload::InitOk);
    if match_lit(s, pos3, pr.as_slice()) {
        proof {
            assert(pos3 + 8 <= s@.len());
        }
        return branch_init_ok(s, sp.0, dp.0, pos3, pos3 + 8);
    }
    proof {
        assert(!starts_with(s@, pos3 as int, tg_init_ok() + seq![0x22u8]));
    }
    let pr = tag_probe(&Payload::Broadcast { message: 0 });
    if match_lit(s, pos3, pr.as_slice()) {
        proof {
            assert(pos3 + 10 <= s@.len());
        }
        return branch_broadcast(s, sp.0, dp.0, pos3, pos3 + 10);
    }
    proof {
        assert(!starts_with(s@, pos3 as int, tg_broadcast() + seq![0x22u8]));
    }
    let pr = tag_probe(&Payload::BroadcastOk);
    if match_lit(s, pos3, pr.as_slice()) {
        proof {
            assert(pos3 + 13 <= s@.len());
        }
        return branch_broadcast_ok(s, sp.0, dp.0, pos3, pos3 + 13);
    }
    proof {
        assert(!starts_with(s@, pos3 as int, tg_broadcast_ok() + seq![0x22u8]));
    }
    let pr = tag_probe(&Payload::Read);
    if match_lit(s, pos3, pr.as_slice()) {
        proof {
            assert(pos3 + 5 <= s@.len());
        }
        return branch_read(s, sp.0, dp.0, pos3, pos3 + 5);
    }
    proof {
        assert(!starts_with(s@, pos3 as int, tg_read() + seq![0x22u8]));
    }
    let pr = tag_probe(&Payload::ReadOk { messages: Vec::new() });
    if match_lit(s, pos3, pr.as_slice()) {
        proof {
            assert(pos3 + 8 <= s@.len());
        }
        return branch_read_ok(s, sp.0, dp.0, pos3, pos3 + 8);
    }
    proof {
        assert(!starts_with(s@, pos3 as int, tg_read_ok() + seq![0x22u8]));
    }
    let pr = tag_probe(&Payload::Generate);
    if match_lit(s, pos3, pr.as_slice()) {
        proof {
            assert(pos3 + 9 <= s@.len());
        }
        return branch_generate(s, sp.0, dp.0, pos3, pos3 + 9);
    }
    proof {
        assert(!starts_with(s@, pos3 as int, tg_generate() + seq![0x22u8]));
    }
    let pr = tag_probe(&Payload::GenerateOk { id: 0 });
    if match_lit(s, pos3, pr.as_slice()) {
        proof {
            assert(pos3 + 12 <= s@.len());
        }
        return branch_generate_ok(s, sp.0, dp.0, pos3, pos3 + 12);
    }
    proof {
        assert(!starts_with(s@, pos3 as int, tg_generate_ok() + seq![0x22u8]));
    }
    let pr = tag_probe(&Payload::Topology { topology: Vec::new() });
    if match_lit(s, pos3, pr.as_slice()) {
        proof {
            assert(pos3 + 9 <= s@.len());
        }
        return branch_topology(s, sp.0, dp.0, pos3, pos3 + 9);
    }
    proof {
        assert(!starts_with(s@, pos3 as int, tg_topology() + seq![0x22u8]));
    }
    let pr = tag_probe(&Payload::TopologyOk);
    if match_lit(s, pos3, pr.as_slice()) {
        proof {
            assert(pos3 + 12 <= s@.len());
        }
        return branch_topology_ok(s, sp.0, dp.0, pos3, pos3 + 12);
    }
    proof {
        assert(!starts_with(s@, pos3 as int, tg_topology_ok() + seq![0x22u8]));
    }
    let pr = tag_probe(&Payload::Error { code: ErrorCode::Timeout, text: Vec::new() });
    if match_lit(s, pos3, pr.as_slice()) {
        proof {
            assert(pos3 + 6 <= s@.len());
        }
        return branch_error(s, sp.0, dp.0, pos3, pos3 + 6);
    }
    proof {
        assert(!starts_with(s@, pos3 as int, tg_error() + seq![0x22u8]));
        assert forall|m: Message|
            crate::node::msg_wf(m) && s@ == spec_render(m) implies false by {
            render_decomp_header(s@, m);
            assert(m.src == sp.0);
            assert(m.dest == dp.0);
            assert(p_tag(m) == pos3);
            match m.body.value {
                Payload::Echo { .. } => {},
                Payload::EchoOk { .. } => {},
                Payload::Init { .. } => {},
                Payload::InitOk => {},
                Payload::Broadcast { .. } => {},
                Payload::BroadcastOk => {},
                Payload::Read => {},
                Payload::ReadOk { .. } => {},
                Payload::Generate => {},
                Payload::GenerateOk { .. } => {},
                Payload::Topology { .. } => {},
                Payload::TopologyOk => {},
                Payload::Error { .. } => {},
            }
        }
    }
    None
}

} // verus!
