//! Typed identifiers for nodes, clients and messages, with their textual
//! encoding: a node is written `n<decimal>`, a client `c<decimal>`, and a
//! message id is a bare decimal number.

use vstd::prelude::*;

verus! {

/// Identifier of an outbound message, allocated from a per-node counter.
#[derive(Clone, Copy, PartialEq, Eq, Structural, Debug, Hash)]
pub struct MessageId(pub u64);

/// Identifier of a node in the cluster, written `n<decimal>` on the wire.
#[derive(Clone, Copy, PartialEq, Eq, Structural, Debug, Hash, PartialOrd, Ord)]
pub struct NodeId(pub u64);

/// Identifier of a client of the cluster, written `c<decimal>` on the wire.
#[derive(Clone, Copy, PartialEq, Eq, Structural, Debug, Hash)]
pub struct ClientId(pub u64);

/// A peer is either a node or a client; the textual encoding discriminates
/// on the `n`/`c` prefix.
#[derive(Clone, Copy, PartialEq, Eq, Structural, Debug, Hash)]
pub enum PeerId {
    Node(NodeId),
    Client(ClientId),
}

impl MessageId {
    /// The identifier following this one; the counter wraps at the top of
    /// the 64-bit range.
    pub fn next(&self) -> (r: MessageId)
        ensures
            r.0 == if self.0 == u64::MAX { 0u64 } else { (self.0 + 1) as u64 },
    {
        MessageId(self.0.wrapping_add(1))
    }
}

/// The decimal digits of `n`, most significant first, as ASCII bytes.
pub open spec fn dec_digits(n: nat) -> Seq<u8>
    decreases n,
{
    if n < 10 {
        seq![(n + 0x30) as u8]
    } else {
        dec_digits(n / 10).push(((n % 10) + 0x30) as u8)
    }
}

/// `b` is an ASCII decimal digit.
pub open spec fn is_dec_digit(b: u8) -> bool {
    0x30 <= b <= 0x39
}

/// Every byte of `s` is an ASCII decimal digit.
pub open spec fn all_dec_digits(s: Seq<u8>) -> bool {
    forall|i: int| 0 <= i < s.len() ==> is_dec_digit(#[trigger] s[i])
}

/// `s` is the canonical decimal form of some number: at least one digit,
/// and no leading zero unless the number is zero itself.
pub open spec fn is_canonical_dec(s: Seq<u8>) -> bool {
    &&& s.len() >= 1
    &&& all_dec_digits(s)
    &&& (s.len() > 1 ==> s[0] != 0x30)
}

/// The number denoted by a sequence of ASCII digits.
pub open spec fn dec_value(s: Seq<u8>) -> nat
    decreases s.len(),
{
    if s.len() == 0 {
        0
    } else {
        (dec_value(s.drop_last()) * 10 + (s.last() - 0x30)) as nat
    }
}

/// Rendering a number and reading the digits back yields the number.
pub proof fn lemma_dec_value_of_digits(n: nat)
    ensures
        dec_value(dec_digits(n)) == n,
    decreases n,
{
    if n < 10 {
        let s = dec_digits(n);
        assert(s =~= seq![(n + 0x30) as u8]);
        assert(s.drop_last() =~= Seq::<u8>::empty());
        assert(s.last() == (n + 0x30) as u8);
        assert(dec_value(s.drop_last()) == 0);
        assert(dec_value(s) == (0 * 10 + ((n + 0x30) as u8 - 0x30)) as nat);
        assert(dec_value(s) == n);
    } else {
        lemma_dec_value_of_digits(n / 10);
        let s = dec_digits(n);
        assert(s.drop_last() =~= dec_digits(n / 10));
        assert(s.last() == ((n % 10) + 0x30) as u8);
        assert(dec_value(s) == (n / 10) * 10 + n % 10);
        assert((n / 10) * 10 + n % 10 == n) by (nonlinear_arith);
    }
}

/// A decimal rendering has at least one digit, and more than one exactly
/// for numbers of two or more digits.
pub proof fn lemma_dec_digits_len(n: nat)
    ensures
        dec_digits(n).len() >= 1,
        n >= 10 ==> dec_digits(n).len() >= 2,
    decreases n,
{
    if n >= 10 {
        lemma_dec_digits_len(n / 10);
    }
}

/// The rendering of a number is in canonical decimal form.
pub proof fn lemma_dec_digits_canonical(n: nat)
    ensures
        is_canonical_dec(dec_digits(n)),
    decreases n,
{
    if n < 10 {
        let s = dec_digits(n);
        assert(s =~= seq![(n + 0x30) as u8]);
        assert(is_dec_digit(s[0]));
    } else {
        lemma_dec_digits_canonical(n / 10);
        let s = dec_digits(n);
        let p = dec_digits(n / 10);
        assert(s == p.push(((n % 10) + 0x30) as u8));
        assert(s[0] == p[0]);
        assert(n / 10 >= 1);
        if n / 10 < 10 {
            assert(p =~= seq![((n / 10) + 0x30) as u8]);
            assert(p[0] != 0x30);
        } else {
            lemma_dec_digits_len(n / 10);
            assert(p.len() > 1);
            assert(p[0] != 0x30);
        }
        assert(is_dec_digit(s[s.len() - 1]));
        assert forall|i: int| 0 <= i < s.len() implies is_dec_digit(#[trigger] s[i]) by {
            if i < p.len() {
                assert(s[i] == p[i]);
            }
        }
    }
}

/// A canonical digit string whose first digit is not zero denotes a
/// positive number.
proof fn lemma_canonical_dec_positive(s: Seq<u8>)
    requires
        s.len() >= 1,
        all_dec_digits(s),
        s[0] != 0x30,
    ensures
        dec_value(s) >= 1,
    decreases s.len(),
{
    if s.len() == 1 {
        assert(s.drop_last().len() == 0);
    } else {
        let p = s.drop_last();
        assert(p[0] == s[0]);
        assert(all_dec_digits(p)) by {
            assert(forall|i: int| 0 <= i < p.len() ==> p[i] == s[i]);
        }
        lemma_canonical_dec_positive(p);
        assert(dec_value(s) == dec_value(p) * 10 + (s.last() - 0x30));
        assert(dec_value(p) * 10 >= 10) by (nonlinear_arith)
            requires dec_value(p) >= 1;
    }
}

/// Canonical decimal renderings are unique: reading a canonical digit
/// string and rendering the value again gives the same string.
pub proof fn lemma_canonical_dec_unique(s: Seq<u8>)
    requires
        is_canonical_dec(s),
    ensures
        dec_digits(dec_value(s)) == s,
    decreases s.len(),
{
    if s.len() == 1 {
        assert(s.drop_last() =~= Seq::<u8>::empty());
        assert(dec_value(s.drop_last()) == 0);
        assert(s.last() == s[0]);
        assert(is_dec_digit(s[0]));
        assert(dec_value(s) == (s[0] - 0x30));
        assert(dec_value(s) < 10);
        assert(dec_digits(dec_value(s)) =~= seq![s[0]]);
        assert(dec_digits(dec_value(s)) =~= s);
    } else {
        let p = s.drop_last();
        assert(p[0] == s[0]);
        assert(all_dec_digits(p)) by {
            assert(forall|i: int| 0 <= i < p.len() ==> p[i] == s[i]);
        }
        assert(is_canonical_dec(p));
        lemma_canonical_dec_unique(p);
        lemma_canonical_dec_positive(p);
        let v = dec_value(s);
        let d = (s.last() - 0x30) as nat;
        assert(v == dec_value(p) * 10 + d);
        assert(dec_value(p) * 10 >= 10) by (nonlinear_arith)
            requires dec_value(p) >= 1;
        assert(v >= 10);
        assert(v / 10 == dec_value(p) && v % 10 == d) by (nonlinear_arith)
            requires v == dec_value(p) * 10 + d && d < 10;
        assert(dec_digits(v) == dec_digits(dec_value(p)).push((d + 0x30) as u8));
        assert(dec_digits(v) =~= s);
    }
}

/// The canonical decimal rendering of `n` as bytes.
pub fn u64_to_dec(n: u64) -> (r: Vec<u8>)
    ensures
        r@ == dec_digits(n as nat),
    decreases n,
{
    if n < 10 {
        let mut v: Vec<u8> = Vec::new();
        v.push((n as u8) + 0x30);
        v
    } else {
        let mut v = u64_to_dec(n / 10);
        v.push(((n % 10) as u8) + 0x30);
        v
    }
}

/// Reads a whole byte slice as a canonical decimal `u64`. Returns `None`
/// unless the slice is canonical and the value fits in 64 bits.
pub fn dec_to_u64(s: &[u8]) -> (r: Option<u64>)
    ensures
        r matches Some(v) ==> is_canonical_dec(s@) && dec_value(s@) == v,
        r is None ==> !(is_canonical_dec(s@) && dec_value(s@) <= u64::MAX),
{
    let n = s.len();
    if n == 0 {
        return None;
    }
    if n > 1 && s[0] == 0x30 {
        return None;
    }
    let mut acc: u64 = 0;
    let mut i: usize = 0;
    while i < n
        invariant
            0 <= i <= n,
            n == s@.len(),
            n >= 1,
            n > 1 ==> s@[0] != 0x30,
            all_dec_digits(s@.subrange(0, i as int)),
            acc == dec_value(s@.subrange(0, i as int)),
        decreases n - i,
    {
        let b = s[i];
        if b < 0x30 || b > 0x39 {
            assert(!is_dec_digit(s@[i as int]));
            return None;
        }
        let d = (b - 0x30) as u64;
        if acc > (u64::MAX - d) / 10 {
            proof {
                if is_canonical_dec(s@) {
                    let pre = s@.subrange(0, i as int);
                    let cur = s@.subrange(0, i as int + 1);
                    assert(cur.drop_last() =~= pre);
                    assert(cur.last() == s@[i as int]);
                    assert(is_dec_digit(s@[i as int]));
                    assert(dec_value(cur) == acc * 10 + d);
                    lemma_dec_prefix_bound(s@, i as int + 1);
                    assert(acc * 10 + d > u64::MAX) by (nonlinear_arith)
                        requires acc > (u64::MAX - d) / 10 && d <= 9 && acc <= u64::MAX;
                }
            }
            return None;
        }
        assert(acc * 10 + d <= u64::MAX) by (nonlinear_arith)
            requires acc <= (u64::MAX - d) / 10 && d <= 9;
        let next = acc * 10 + d;
        proof {
            let pre = s@.subrange(0, i as int);
            let cur = s@.subrange(0, i as int + 1);
            assert(cur.drop_last() =~= pre);
            assert(cur.last() == s@[i as int]);
        }
        acc = next;
        i = i + 1;
    }
    proof {
        assert(s@.subrange(0, n as int) =~= s@);
    }
    Some(acc)
}

/// A value denoted by a digit string is at least the value of any prefix
/// (scaled): in particular, if a prefix already exceeds the range, the
/// whole string does.
proof fn lemma_dec_prefix_bound(s: Seq<u8>, k: int)
    requires
        0 <= k <= s.len(),
        all_dec_digits(s),
    ensures
        dec_value(s) >= dec_value(s.subrange(0, k)),
    decreases s.len() - k,
{
    if k == s.len() {
        assert(s.subrange(0, k) =~= s);
    } else {
        lemma_dec_prefix_bound(s, k + 1);
        let p = s.subrange(0, k);
        let q = s.subrange(0, k + 1);
        assert(q.drop_last() =~= p);
        assert(is_dec_digit(s[k]));
        assert(q.last() == s[k]);
        assert(dec_value(q) == dec_value(p) * 10 + (q.last() - 0x30));
        assert(dec_value(p) * 10 >= dec_value(p)) by (nonlinear_arith);
    }
}

/// The textual form of a node id: `n` followed by the decimal number.
pub open spec fn spec_node_text(n: NodeId) -> Seq<u8> {
    seq![0x6eu8] + dec_digits(n.0 as nat)
}

/// The textual form of a client id: `c` followed by the decimal number.
pub open spec fn spec_client_text(c: ClientId) -> Seq<u8> {
    seq![0x63u8] + dec_digits(c.0 as nat)
}

/// The textual form of a peer id.
pub open spec fn spec_peer_text(p: PeerId) -> Seq<u8> {
    match p {
        PeerId::Node(n) => spec_node_text(n),
        PeerId::Client(c) => spec_client_text(c),
    }
}

impl NodeId {
    /// Renders this id as `n<decimal>` bytes.
    pub fn encode(&self) -> (r: Vec<u8>)
        ensures
            r@ == spec_node_text(*self),
    {
        let mut v: Vec<u8> = Vec::new();
        v.push(0x6e);
        let mut digits = u64_to_dec(self.0);
        v.append(&mut digits);
        v
    }

    /// Reads an id written as `n<decimal>`; inverse of `encode`.
    pub fn decode(s: &[u8]) -> (r: Option<NodeId>)
        ensures
            r matches Some(n) ==> s@ == spec_node_text(n),
            r is None ==> forall|n: NodeId| s@ != spec_node_text(n),
    {
        if s.len() < 2 || s[0] != 0x6e {
            assert(forall|n: NodeId| #[trigger] spec_node_text(n) != s@) by {
                assert forall|n: NodeId| #[trigger] spec_node_text(n) != s@ by {
                    lemma_dec_digits_canonical(n.0 as nat);
                    assert(spec_node_text(n).len() >= 2);
                    assert(spec_node_text(n)[0] == 0x6e);
                }
            }
            return None;
        }
        let rest = slice_suffix(s, 1);
        match dec_to_u64(rest) {
            Some(v) => {
                proof {
                    lemma_canonical_dec_unique(rest@);
                    assert(s@ =~= seq![0x6eu8] + rest@);
                }
                Some(NodeId(v))
            },
            None => {
                assert forall|n: NodeId| s@ != spec_node_text(n) by {
                    if s@ == spec_node_text(n) {
                        lemma_dec_digits_canonical(n.0 as nat);
                        lemma_dec_value_of_digits(n.0 as nat);
                        assert(rest@ =~= dec_digits(n.0 as nat));
                    }
                }
                None
            },
        }
    }
}

impl ClientId {
    /// Renders this id as `c<decimal>` bytes.
    pub fn encode(&self) -> (r: Vec<u8>)
        ensures
            r@ == spec_client_text(*self),
    {
        let mut v: Vec<u8> = Vec::new();
        v.push(0x63);
        let mut digits = u64_to_dec(self.0);
        v.append(&mut digits);
        v
    }
}

impl PeerId {
    /// Renders this peer id with its `n`/`c` prefix.
    pub fn encode(&self) -> (r: Vec<u8>)
        ensures
            r@ == spec_peer_text(*self),
    {
        match self {
            PeerId::Node(n) => n.encode(),
            PeerId::Client(c) => c.encode(),
        }
    }

    /// Reads a peer id, discriminating on the `n`/`c` prefix; inverse of
    /// `encode`.
    pub fn decode(s: &[u8]) -> (r: Option<PeerId>)
        ensures
            r matches Some(p) ==> s@ == spec_peer_text(p),
            r is None ==> forall|p: PeerId| s@ != spec_peer_text(p),
    {
        if s.len() < 2 || (s[0] != 0x6e && s[0] != 0x63) {
            assert forall|p: PeerId| s@ != spec_peer_text(p) by {
                if s@ == spec_peer_text(p) {
                    match p {
                        PeerId::Node(n) => {
                            lemma_dec_digits_canonical(n.0 as nat);
                        },
                        PeerId::Client(c) => {
                            lemma_dec_digits_canonical(c.0 as nat);
                        },
                    }
                }
            }
            return None;
        }
        let tag = s[0];
        let rest = slice_suffix(s, 1);
        match dec_to_u64(rest) {
            Some(v) => {
                proof {
                    lemma_canonical_dec_unique(rest@);
                    assert(s@ =~= seq![s@[0]] + rest@);
                }
                if tag == 0x6e {
                    Some(PeerId::Node(NodeId(v)))
                } else {
                    Some(PeerId::Client(ClientId(v)))
                }
            },
            None => {
                assert forall|p: PeerId| s@ != spec_peer_text(p) by {
                    if s@ == spec_peer_text(p) {
                        match p {
                            PeerId::Node(n) => {
                                lemma_dec_digits_canonical(n.0 as nat);
                                lemma_dec_value_of_digits(n.0 as nat);
                                assert(rest@ =~= dec_digits(n.0 as nat));
                            },
                            PeerId::Client(c) => {
                                lemma_dec_digits_canonical(c.0 as nat);
                                lemma_dec_value_of_digits(c.0 as nat);
                                assert(rest@ =~= dec_digits(c.0 as nat));
                            },
                        }
                    }
                }
                None
            },
        }
    }
}

/// The suffix of a slice from `from` onward.
pub fn slice_suffix<'a>(s: &'a [u8], from: usize) -> (r: &'a [u8])
    requires
        from <= s@.len(),
    ensures
        r@ == s@.subrange(from as int, s@.len() as int),
{
    vstd::slice::slice_subrange(s, from, s.len())
}

} // verus!
