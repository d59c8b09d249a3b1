use vstd::prelude::*;
use vstd::seq_lib::lemma_concat_associative;
use crate::network::{cidr_text, decimal, Ipv4Cidr};
use crate::segment::OvsVlan;
use crate::segment::{descriptor_text, list_separator, list_tail, quoted, quoted_list};

verus! {

pub open spec fn is_digit(c: u8) -> bool {
    48 <= c <= 57
}

/// The number that a string of ASCII digits denotes.
pub open spec fn digits_value(s: Seq<u8>) -> nat
    decreases s.len(),
{
    if s.len() == 0 {
        0
    } else {
        digits_value(s.drop_last()) * 10 + (s.last() - 48) as nat
    }
}

proof fn lemma_decimal_digits(n: nat)
    ensures
        decimal(n).len() >= 1,
        forall|i: int| 0 <= i < decimal(n).len() ==> is_digit(#[trigger] decimal(n)[i]),
        digits_value(decimal(n)) == n,
    decreases n,
{
    let s = decimal(n);
    if n >= 10 {
        lemma_decimal_digits(n / 10);
        assert(s.drop_last() =~= decimal(n / 10));
        assert(s.last() == (48 + n % 10) as u8);
        assert(n == (n / 10) * 10 + n % 10);
        assert(digits_value(s) == digits_value(s.drop_last()) * 10 + (s.last() - 48) as nat);
    } else {
        assert(s.drop_last() =~= Seq::<u8>::empty());
        assert(digits_value(Seq::<u8>::empty()) == 0);
        assert(digits_value(s) == digits_value(s.drop_last()) * 10 + (s.last() - 48) as nat);
    }
}

/// A decimal number is read up to the first byte that is not a digit.
proof fn lemma_decimal_prefix(a: nat, b: nat, x: Seq<u8>, y: Seq<u8>)
    requires
        decimal(a) + x == decimal(b) + y,
        x.len() > 0,
        y.len() > 0,
        !is_digit(x[0]),
        !is_digit(y[0]),
    ensures
        a == b,
        x == y,
{
    lemma_decimal_digits(a);
    lemma_decimal_digits(b);
    let da = decimal(a);
    let db = decimal(b);
    let s = da + x;
    if da.len() < db.len() {
        assert(s[da.len() as int] == x[0]);
        assert((db + y)[da.len() as int] == db[da.len() as int]);
        assert(false);
    }
    if db.len() < da.len() {
        assert((db + y)[db.len() as int] == y[0]);
        assert(s[db.len() as int] == da[db.len() as int]);
        assert(false);
    }
    assert(da =~= s.subrange(0, da.len() as int));
    assert(db =~= (db + y).subrange(0, db.len() as int));
    assert(x =~= s.subrange(da.len() as int, s.len() as int));
    assert(y =~= (db + y).subrange(db.len() as int, s.len() as int));
}

/// One decimal number, a separator byte, and what follows: both the number
/// and the remainder are determined.
proof fn lemma_field(a: nat, b: nat, sep: u8, x: Seq<u8>, y: Seq<u8>)
    requires
        decimal(a) + (seq![sep] + x) == decimal(b) + (seq![sep] + y),
        !is_digit(sep),
    ensures
        a == b,
        x == y,
{
    lemma_decimal_prefix(a, b, seq![sep] + x, seq![sep] + y);
    assert(x =~= (seq![sep] + x).drop_first());
    assert(y =~= (seq![sep] + y).drop_first());
}

proof fn lemma_octets(x: u32)
    ensures
        x == (x / 16777216) * 16777216 + ((x / 65536) % 256) * 65536 + ((x / 256) % 256) * 256
            + x % 256,
{
    assert(x == (x / 16777216) * 16777216 + ((x / 65536) % 256) * 65536 + ((x / 256) % 256) * 256
        + x % 256) by (bit_vector);
}

/// Splits CIDR text followed by `x` into its first number and the rest.
proof fn lemma_cidr_split(addr: u32, prefix: u8, x: Seq<u8>)
    ensures
        ({
            let a = addr as nat;
            let p8 = decimal(prefix as nat);
            let p6 = decimal(a % 256) + (seq![47u8] + p8);
            let p4 = decimal((a / 256) % 256) + (seq![46u8] + p6);
            let p2 = decimal((a / 65536) % 256) + (seq![46u8] + p4);
            &&& cidr_text(addr, prefix) + x == decimal(a / 16777216) + (seq![46u8] + (p2 + x))
            &&& p2 + x == decimal((a / 65536) % 256) + (seq![46u8] + (p4 + x))
            &&& p4 + x == decimal((a / 256) % 256) + (seq![46u8] + (p6 + x))
            &&& p6 + x == decimal(a % 256) + (seq![47u8] + (p8 + x))
        }),
{
    let a = addr as nat;
    let p8 = decimal(prefix as nat);
    let p6 = decimal(a % 256) + (seq![47u8] + p8);
    let p4 = decimal((a / 256) % 256) + (seq![46u8] + p6);
    let p2 = decimal((a / 65536) % 256) + (seq![46u8] + p4);
    lemma_concat_associative(decimal(a / 16777216), seq![46u8] + p2, x);
    lemma_concat_associative(seq![46u8], p2, x);
    lemma_concat_associative(decimal((a / 65536) % 256), seq![46u8] + p4, x);
    lemma_concat_associative(seq![46u8], p4, x);
    lemma_concat_associative(decimal((a / 256) % 256), seq![46u8] + p6, x);
    lemma_concat_associative(seq![46u8], p6, x);
    lemma_concat_associative(decimal(a % 256), seq![47u8] + p8, x);
    lemma_concat_associative(seq![47u8], p8, x);
}

/// CIDR text followed by a byte that is not a digit determines the network.
proof fn lemma_cidr_prefix(p: Ipv4Cidr, q: Ipv4Cidr, x: Seq<u8>, y: Seq<u8>)
    requires
        cidr_text(p.addr, p.prefix) + x == cidr_text(q.addr, q.prefix) + y,
        x.len() > 0,
        y.len() > 0,
        !is_digit(x[0]),
        !is_digit(y[0]),
    ensures
        p == q,
        x == y,
{
    let a = p.addr as nat;
    let b = q.addr as nat;
    lemma_cidr_split(p.addr, p.prefix, x);
    lemma_cidr_split(q.addr, q.prefix, y);
    let pa8 = decimal(p.prefix as nat);
    let pa6 = decimal(a % 256) + (seq![47u8] + pa8);
    let pa4 = decimal((a / 256) % 256) + (seq![46u8] + pa6);
    let pa2 = decimal((a / 65536) % 256) + (seq![46u8] + pa4);
    let qb8 = decimal(q.prefix as nat);
    let qb6 = decimal(b % 256) + (seq![47u8] + qb8);
    let qb4 = decimal((b / 256) % 256) + (seq![46u8] + qb6);
    let qb2 = decimal((b / 65536) % 256) + (seq![46u8] + qb4);
    lemma_field(a / 16777216, b / 16777216, 46u8, pa2 + x, qb2 + y);
    lemma_field((a / 65536) % 256, (b / 65536) % 256, 46u8, pa4 + x, qb4 + y);
    lemma_field((a / 256) % 256, (b / 256) % 256, 46u8, pa6 + x, qb6 + y);
    lemma_field(a % 256, b % 256, 47u8, pa8 + x, qb8 + y);
    lemma_decimal_prefix(p.prefix as nat, q.prefix as nat, x, y);
    lemma_octets(p.addr);
    lemma_octets(q.addr);
}

/// The bytes `"]\n"` that close a descriptor.
pub open spec fn closing() -> Seq<u8> {
    seq![93u8, 10u8]
}

/// An item of a list (after a separator, or first) followed by the rest and
/// the closing bytes, as one right-nested concatenation.
proof fn lemma_item_split(p: Ipv4Cidr, rest: Seq<Ipv4Cidr>, separated: bool)
    ensures
        ({
            let t = cidr_text(p.addr, p.prefix);
            let l = list_tail(rest) + closing();
            &&& separated ==> list_separator() + quoted(t) + list_tail(rest) + closing()
                == list_separator() + (seq![34u8] + (t + (seq![34u8] + l)))
            &&& !separated ==> quoted(t) + list_tail(rest) + closing() == seq![34u8] + (t + (
            seq![34u8] + l))
        }),
{
    let t = cidr_text(p.addr, p.prefix);
    let l = list_tail(rest) + closing();
    let q = quoted(t);
    lemma_concat_associative(q, list_tail(rest), closing());
    lemma_concat_associative(list_separator() + q, list_tail(rest), closing());
    lemma_concat_associative(list_separator(), q, l);
    lemma_concat_associative(seq![34u8] + t, seq![34u8], l);
    lemma_concat_associative(seq![34u8], t, seq![34u8] + l);
}

#[verifier::rlimit(50)]
proof fn lemma_list_tail_unique(ps: Seq<Ipv4Cidr>, qs: Seq<Ipv4Cidr>)
    requires
        list_tail(ps) + closing() == list_tail(qs) + closing(),
    ensures
        ps == qs,
    decreases ps.len(),
{
    let s = list_tail(ps) + closing();
    let t = list_tail(qs) + closing();
    if ps.len() == 0 && qs.len() > 0 {
        assert(s[0] == 93u8);
        assert(t[0] == 44u8);
    } else if ps.len() > 0 && qs.len() == 0 {
        assert(s[0] == 44u8);
        assert(t[0] == 93u8);
    } else if ps.len() > 0 {
        let p = ps[0];
        let q = qs[0];
        let lp = list_tail(ps.drop_first()) + closing();
        let lq = list_tail(qs.drop_first()) + closing();
        lemma_item_split(p, ps.drop_first(), true);
        lemma_item_split(q, qs.drop_first(), true);
        let x = seq![34u8] + lp;
        let y = seq![34u8] + lq;
        assert(cidr_text(p.addr, p.prefix) + x =~= s.subrange(3, s.len() as int));
        assert(cidr_text(q.addr, q.prefix) + y =~= t.subrange(3, t.len() as int));
        lemma_cidr_prefix(p, q, x, y);
        assert(lp =~= x.drop_first());
        assert(lq =~= y.drop_first());
        lemma_list_tail_unique(ps.drop_first(), qs.drop_first());
        assert(ps =~= seq![p] + ps.drop_first());
        assert(qs =~= seq![q] + qs.drop_first());
    } else {
        assert(ps =~= qs);
    }
}

proof fn lemma_quoted_list_unique(ps: Seq<Ipv4Cidr>, qs: Seq<Ipv4Cidr>)
    requires
        quoted_list(ps) + closing() == quoted_list(qs) + closing(),
    ensures
        ps == qs,
{
    let s = quoted_list(ps) + closing();
    let t = quoted_list(qs) + closing();
    if ps.len() == 0 && qs.len() > 0 {
        assert(s[0] == 93u8);
        assert(t[0] == 34u8);
    } else if ps.len() > 0 && qs.len() == 0 {
        assert(s[0] == 34u8);
        assert(t[0] == 93u8);
    } else if ps.len() > 0 {
        let p = ps[0];
        let q = qs[0];
        let lp = list_tail(ps.drop_first()) + closing();
        let lq = list_tail(qs.drop_first()) + closing();
        lemma_item_split(p, ps.drop_first(), false);
        lemma_item_split(q, qs.drop_first(), false);
        let x = seq![34u8] + lp;
        let y = seq![34u8] + lq;
        assert(cidr_text(p.addr, p.prefix) + x =~= s.drop_first());
        assert(cidr_text(q.addr, q.prefix) + y =~= t.drop_first());
        lemma_cidr_prefix(p, q, x, y);
        assert(lp =~= x.drop_first());
        assert(lq =~= y.drop_first());
        lemma_list_tail_unique(ps.drop_first(), qs.drop_first());
        assert(ps =~= seq![p] + ps.drop_first());
        assert(qs =~= seq![q] + qs.drop_first());
    } else {
        assert(ps =~= qs);
    }
}

/// Two descriptors with the same text are the same descriptor.
pub proof fn lemma_descriptor_text_injective(
    id1: u16,
    ports1: Seq<Ipv4Cidr>,
    id2: u16,
    ports2: Seq<Ipv4Cidr>,
)
    requires
        descriptor_text(id1, ports1) == descriptor_text(id2, ports2),
    ensures
        id1 == id2,
        ports1 == ports2,
{
    lemma_descriptor_split(id1, ports1);
    lemma_descriptor_split(id2, ports2);
    let mid = seq![112u8, 111u8, 114u8, 116u8, 115u8, 32u8, 61u8, 32u8, 91u8];
    let x = mid + (quoted_list(ports1) + closing());
    let y = mid + (quoted_list(ports2) + closing());
    let s = descriptor_text(id1, ports1);
    assert(decimal(id1 as nat) + (seq![10u8] + x) =~= s.subrange(5, s.len() as int));
    assert(decimal(id2 as nat) + (seq![10u8] + y) =~= s.subrange(5, s.len() as int));
    lemma_field(id1 as nat, id2 as nat, 10u8, x, y);
    assert(quoted_list(ports1) + closing() =~= x.subrange(9, x.len() as int));
    assert(quoted_list(ports2) + closing() =~= y.subrange(9, y.len() as int));
    lemma_quoted_list_unique(ports1, ports2);
}

proof fn lemma_descriptor_split(id: u16, ports: Seq<Ipv4Cidr>)
    ensures
        descriptor_text(id, ports) == seq![105u8, 100u8, 32u8, 61u8, 32u8] + (decimal(id as nat)
            + (seq![10u8] + (seq![112u8, 111u8, 114u8, 116u8, 115u8, 32u8, 61u8, 32u8, 91u8] + (
        quoted_list(ports) + closing())))),
{
    let head = seq![105u8, 100u8, 32u8, 61u8, 32u8];
    let nlmid = seq![10u8, 112u8, 111u8, 114u8, 116u8, 115u8, 32u8, 61u8, 32u8, 91u8];
    let mid = seq![112u8, 111u8, 114u8, 116u8, 115u8, 32u8, 61u8, 32u8, 91u8];
    let d = decimal(id as nat);
    let q = quoted_list(ports) + closing();
    assert(closing() == seq![93u8, 10u8]);
    lemma_concat_associative((head + d) + nlmid, quoted_list(ports), closing());
    lemma_concat_associative(head + d, nlmid, q);
    lemma_concat_associative(head, d, nlmid + q);
    assert(nlmid + q =~= seq![10u8] + (mid + q));
}

/// The descriptor that a text is the form of, if any: the inverse of
/// `descriptor_text`.
pub open spec fn descriptor_of(text: Seq<u8>) -> Option<(u16, Seq<Ipv4Cidr>)> {
    if exists|id: u16, ports: Seq<Ipv4Cidr>| descriptor_text(id, ports) == text {
        Some(
            choose|id: u16, ports: Seq<Ipv4Cidr>| #[trigger] descriptor_text(id, ports) == text,
        )
    } else {
        None
    }
}

/// Reading a descriptor back from its text gives the descriptor that was
/// written.
pub proof fn lemma_descriptor_round_trip(id: u16, ports: Seq<Ipv4Cidr>)
    ensures
        descriptor_of(descriptor_text(id, ports)) == Some((id, ports)),
{
    let text = descriptor_text(id, ports);
    assert(descriptor_text(id, ports) == text);
    let (id2, ports2) = choose|i: u16, p: Seq<Ipv4Cidr>| #[trigger] descriptor_text(i, p) == text;
    lemma_descriptor_text_injective(id, ports, id2, ports2);
}

proof fn lemma_decimal_len(n: nat)
    ensures
        n < 100000 ==> decimal(n).len() <= 5,
        n < 10000 ==> decimal(n).len() <= 4,
        n < 1000 ==> decimal(n).len() <= 3,
        n < 100 ==> decimal(n).len() <= 2,
        n < 10 ==> decimal(n).len() == 1,
    decreases n,
{
    if n >= 10 {
        lemma_decimal_len(n / 10);
    }
}

/// What follows the first `d.len()` bytes from `pos`, when they are `d`.
proof fn lemma_skip(b: Seq<u8>, pos: int, d: Seq<u8>, t: Seq<u8>)
    requires
        0 <= pos <= b.len(),
        b.subrange(pos, b.len() as int) == d + t,
    ensures
        b.len() - pos == d.len() + t.len(),
        b.subrange(pos + d.len(), b.len() as int) == t,
        forall|i: int| 0 <= i < d.len() ==> b[pos + i] == #[trigger] d[i],
        t.len() > 0 ==> b[pos + d.len()] == t[0],
{
    let s = b.subrange(pos, b.len() as int);
    assert(s.len() == b.len() - pos);
    assert forall|i: int| 0 <= i < d.len() implies b[pos + i] == #[trigger] d[i] by {
        assert(s[i] == b[pos + i]);
        assert(s[i] == (d + t)[i]);
    }
    assert forall|j: int| 0 <= j < t.len() implies b[pos + d.len() + j] == #[trigger] t[j] by {
        assert(s[d.len() + j] == b[pos + d.len() + j]);
        assert(s[d.len() + j] == (d + t)[d.len() + j]);
    }
    if t.len() > 0 {
        assert(b[pos + d.len() + 0] == t[0]);
    }
    assert(b.subrange(pos + d.len(), b.len() as int) =~= t);
}

/// Takes byte `c` at `pos`.
fn expect(b: &[u8], pos: usize, c: u8) -> (r: Option<usize>)
    requires
        pos <= b@.len(),
    ensures
        r matches Some(e) ==> e == pos + 1 && e <= b@.len(),
        pos < b@.len() && b@[pos as int] == c ==> r == Some((pos + 1) as usize),
{
    if pos < b.len() && b[pos] == c {
        Some(pos + 1)
    } else {
        None
    }
}

/// Takes byte `c` at `pos`, where the bytes from `pos` are `c` and then `t`.
proof fn lemma_expect(b: Seq<u8>, pos: int, c: u8, t: Seq<u8>)
    requires
        0 <= pos <= b.len(),
        b.subrange(pos, b.len() as int) == seq![c] + t,
    ensures
        pos < b.len(),
        b[pos] == c,
        b.subrange(pos + 1, b.len() as int) == t,
{
    lemma_skip(b, pos, seq![c], t);
    assert(seq![c][0] == c);
}

/// Reads a decimal number of one to five digits at `pos`. When the bytes
/// from `pos` are `decimal(n)` followed by a byte that is not a digit (or
/// nothing), that number and the position after it come back.
fn read_number(b: &[u8], pos: usize, Ghost(n): Ghost<nat>, Ghost(rest): Ghost<Seq<u8>>) -> (r:
    Option<(u32, usize)>)
    requires
        pos <= b@.len(),
    ensures
        r matches Some((v, e)) ==> pos < e <= b@.len(),
        b@.subrange(pos as int, b@.len() as int) == decimal(n) + rest && n < 100000 && (rest.len()
            == 0 || !is_digit(rest[0])) ==> r == Some((n as u32, (pos + decimal(n).len()) as usize)),
{
    let ghost hyp = b@.subrange(pos as int, b@.len() as int) == decimal(n) + rest && n < 100000 && (
    rest.len() == 0 || !is_digit(rest[0]));
    let ghost dn = decimal(n);
    proof {
        lemma_decimal_digits(n);
        lemma_decimal_len(n);
        if hyp {
            lemma_skip(b@, pos as int, dn, rest);
        }
    }
    let len = b.len();
    let mut k: usize = 0;
    let mut v: u32 = 0;
    let mut more = true;
    while more && k < 5 && pos + k < len
        invariant
            len == b@.len(),
            pos <= b@.len(),
            k <= 5,
            pos + k <= b@.len(),
            v as nat == digits_value(b@.subrange(pos as int, pos + k)),
            k == 0 ==> v == 0,
            k <= 1 ==> v < 10,
            k <= 2 ==> v < 100,
            k <= 3 ==> v < 1000,
            k <= 4 ==> v < 10000,
            v < 100000,
            !more ==> pos + k < b@.len() && !is_digit(b@[pos + k]),
            hyp ==> k <= dn.len(),
            hyp ==> rest.len() == 0 || !is_digit(rest[0]),
            hyp ==> dn.len() <= 5,
            hyp ==> b@.len() - pos == dn.len() + rest.len(),
            hyp ==> forall|i: int| 0 <= i < dn.len() ==> b@[pos + i] == #[trigger] dn[i],
            hyp ==> rest.len() > 0 ==> b@[pos + dn.len()] == rest[0],
            forall|i: int| 0 <= i < dn.len() ==> is_digit(#[trigger] dn[i]),
        decreases (5 - k) * 2 + if more {
            1int
        } else {
            0int
        },
    {
        let c = b[pos + k];
        if 48 <= c && c <= 57 {
            proof {
                let s = b@.subrange(pos as int, pos + k + 1);
                assert(s.drop_last() =~= b@.subrange(pos as int, pos + k));
                assert(s.last() == c);
                if hyp && k == dn.len() {
                    assert(rest.len() > 0);
                    assert(b@[pos + k] == rest[0]);
                    assert(c == b@[pos + k]);
                    assert(is_digit(c));
                    assert(false);
                }
            }
            v = v * 10 + (c - 48) as u32;
            k = k + 1;
        } else {
            more = false;
        }
    }
    if k == 0 {
        proof {
            if hyp {
                assert(is_digit(dn[0]));
            }
        }
        return None;
    }
    proof {
        if hyp {
            if k < dn.len() {
                assert(is_digit(dn[k as int]));
            }
            assert(k == dn.len());
            assert(b@.subrange(pos as int, pos + k) =~= dn);
        }
    }
    Some((v, pos + k))
}

/// Reads CIDR text at `pos`. When the bytes from `pos` are the text of the
/// valid network `p` followed by a byte that is not a digit, `p` and the
/// position after its text come back.
fn read_cidr(b: &[u8], pos: usize, Ghost(p): Ghost<Ipv4Cidr>, Ghost(rest): Ghost<Seq<u8>>) -> (r:
    Option<(Ipv4Cidr, usize)>)
    requires
        pos <= b@.len(),
    ensures
        r matches Some((c, e)) ==> pos < e <= b@.len() && c.wf(),
        b@.subrange(pos as int, b@.len() as int) == cidr_text(p.addr, p.prefix) + rest && p.wf()
            && rest.len() > 0 && !is_digit(rest[0]) ==> r == Some(
            (p, (pos + cidr_text(p.addr, p.prefix).len()) as usize),
        ),
{
    let len = b.len();
    let ghost hyp = b@.subrange(pos as int, b@.len() as int) == cidr_text(p.addr, p.prefix) + rest
        && p.wf() && rest.len() > 0 && !is_digit(rest[0]);
    let ghost a = p.addr as nat;
    let ghost p8 = decimal(p.prefix as nat);
    let ghost p6 = decimal(a % 256) + (seq![47u8] + p8);
    let ghost p4 = decimal((a / 256) % 256) + (seq![46u8] + p6);
    let ghost p2 = decimal((a / 65536) % 256) + (seq![46u8] + p4);
    proof {
        lemma_cidr_split(p.addr, p.prefix, rest);
        assert(a / 16777216 < 256);
        assert((seq![46u8] + (p2 + rest))[0] == 46u8);
        assert((seq![46u8] + (p4 + rest))[0] == 46u8);
        assert((seq![46u8] + (p6 + rest))[0] == 46u8);
        assert((seq![47u8] + (p8 + rest))[0] == 47u8);
    }
    let (v1, e1) = match read_number(b, pos, Ghost(a / 16777216), Ghost(seq![46u8] + (p2 + rest))) {
        Some(x) => x,
        None => return None,
    };
    proof {
        if hyp {
            lemma_skip(b@, pos as int, decimal(a / 16777216), seq![46u8] + (p2 + rest));
            lemma_expect(b@, e1 as int, 46u8, p2 + rest);
        }
    }
    let f1 = match expect(b, e1, 46) {
        Some(x) => x,
        None => return None,
    };
    let (v2, e2) = match read_number(
        b,
        f1,
        Ghost((a / 65536) % 256),
        Ghost(seq![46u8] + (p4 + rest)),
    ) {
        Some(x) => x,
        None => return None,
    };
    proof {
        if hyp {
            lemma_skip(b@, f1 as int, decimal((a / 65536) % 256), seq![46u8] + (p4 + rest));
            lemma_expect(b@, e2 as int, 46u8, p4 + rest);
        }
    }
    let f2 = match expect(b, e2, 46) {
        Some(x) => x,
        None => return None,
    };
    let (v3, e3) = match read_number(
        b,
        f2,
        Ghost((a / 256) % 256),
        Ghost(seq![46u8] + (p6 + rest)),
    ) {
        Some(x) => x,
        None => return None,
    };
    proof {
        if hyp {
            lemma_skip(b@, f2 as int, decimal((a / 256) % 256), seq![46u8] + (p6 + rest));
            lemma_expect(b@, e3 as int, 46u8, p6 + rest);
        }
    }
    let f3 = match expect(b, e3, 46) {
        Some(x) => x,
        None => return None,
    };
    let (v4, e4) = match read_number(b, f3, Ghost(a % 256), Ghost(seq![47u8] + (p8 + rest))) {
        Some(x) => x,
        None => return None,
    };
    proof {
        if hyp {
            lemma_skip(b@, f3 as int, decimal(a % 256), seq![47u8] + (p8 + rest));
            lemma_expect(b@, e4 as int, 47u8, p8 + rest);
        }
    }
    let f4 = match expect(b, e4, 47) {
        Some(x) => x,
        None => return None,
    };
    let (v5, e5) = match read_number(b, f4, Ghost(p.prefix as nat), Ghost(rest)) {
        Some(x) => x,
        None => return None,
    };
    if v1 > 255 || v2 > 255 || v3 > 255 || v4 > 255 || v5 > 32 {
        return None;
    }
    let addr: u32 = (v1 * 16777216 + v2 * 65536 + v3 * 256 + v4) as u32;
    proof {
        if hyp {
            lemma_octets(p.addr);
            assert(addr == p.addr);
        }
    }
    match Ipv4Cidr::new(addr, v5 as u8) {
        Ok(c) => Some((c, e5)),
        Err(_) => None,
    }
}

/// Whether two byte strings are equal.
fn same_bytes(a: &Vec<u8>, b: &[u8]) -> (r: bool)
    ensures
        r == (a@ == b@),
{
    if a.len() != b.len() {
        return false;
    }
    let mut i: usize = 0;
    while i < a.len()
        invariant
            a@.len() == b@.len(),
            i <= a@.len(),
            forall|j: int| 0 <= j < i ==> a@[j] == b@[j],
        decreases a@.len() - i,
    {
        if a[i] != b[i] {
            return false;
        }
        i += 1;
    }
    assert(a@ =~= b@);
    true
}

/// Every network of `ports` has a prefix of at most 32 bits.
pub open spec fn all_valid(ports: Seq<Ipv4Cidr>) -> bool {
    forall|i: int| 0 <= i < ports.len() ==> (#[trigger] ports[i]).wf()
}

proof fn lemma_list_start(ports: Seq<Ipv4Cidr>)
    ensures
        ports.len() == 0 ==> (quoted_list(ports) + closing())[0] == 93u8,
        ports.len() > 0 ==> (quoted_list(ports) + closing())[0] == 34u8,
        ports.len() == 0 ==> (list_tail(ports) + closing())[0] == 93u8,
        ports.len() > 0 ==> (list_tail(ports) + closing())[0] == 44u8,
        ports.len() == 0 ==> quoted_list(ports) + closing() == closing(),
        ports.len() == 0 ==> list_tail(ports) + closing() == closing(),
{
    if ports.len() == 0 {
        assert(quoted_list(ports) + closing() =~= closing());
        assert(list_tail(ports) + closing() =~= closing());
    } else {
        let t = cidr_text(ports[0].addr, ports[0].prefix);
        lemma_item_split(ports[0], ports.drop_first(), false);
        lemma_item_split(ports[0], ports.drop_first(), true);
        assert((list_separator() + (seq![34u8] + (t + (seq![34u8] + (list_tail(ports.drop_first())
            + closing())))))[0] == 44u8);
    }
}

/// The bytes `ports = [`.
pub open spec fn ports_key() -> Seq<u8> {
    seq![112u8, 111u8, 114u8, 116u8, 115u8, 32u8, 61u8, 32u8, 91u8]
}

/// Reads `id = <number>\nports = [`. When the bytes are that header for `id`
/// followed by `q`, `id` and the position of `q` come back.
fn read_header(bytes: &[u8], Ghost(id): Ghost<u16>, Ghost(q): Ghost<Seq<u8>>) -> (r: Option<
    (u16, usize),
>)
    ensures
        r matches Some((v, e)) ==> e <= bytes@.len(),
        bytes@ == seq![105u8, 100u8, 32u8, 61u8, 32u8] + (decimal(id as nat) + (seq![10u8] + (
        ports_key() + q))) ==> (r matches Some((v, e)) && v == id && bytes@.subrange(
            e as int,
            bytes@.len() as int,
        ) == q),
{
    let len = bytes.len();
    let ghost head = seq![105u8, 100u8, 32u8, 61u8, 32u8];
    let ghost mid = ports_key();
    let ghost hyp = bytes@ == head + (decimal(id as nat) + (seq![10u8] + (mid + q)));
    proof {
        if hyp {
            assert(bytes@.subrange(0, bytes@.len() as int) =~= bytes@);
            lemma_skip(bytes@, 0, head, decimal(id as nat) + (seq![10u8] + (mid + q)));
            assert(head[0] == 105u8 && head[1] == 100u8 && head[2] == 32u8 && head[3] == 61u8
                && head[4] == 32u8);
            assert((seq![10u8] + (mid + q))[0] == 10u8);
        }
    }
    let pos = match expect(bytes, 0, 105) {
        Some(x) => x,
        None => return None,
    };
    let pos = match expect(bytes, pos, 100) {
        Some(x) => x,
        None => return None,
    };
    let pos = match expect(bytes, pos, 32) {
        Some(x) => x,
        None => return None,
    };
    let pos = match expect(bytes, pos, 61) {
        Some(x) => x,
        None => return None,
    };
    let pos = match expect(bytes, pos, 32) {
        Some(x) => x,
        None => return None,
    };
    let (v, pos) = match read_number(bytes, pos, Ghost(id as nat), Ghost(seq![10u8] + (mid + q))) {
        Some(x) => x,
        None => return None,
    };
    if v > 65535 {
        return None;
    }
    proof {
        if hyp {
            lemma_skip(bytes@, 5, decimal(id as nat), seq![10u8] + (mid + q));
            lemma_expect(bytes@, pos as int, 10u8, mid + q);
            lemma_skip(bytes@, pos + 1, mid, q);
            assert(mid[0] == 112u8 && mid[1] == 111u8 && mid[2] == 114u8 && mid[3] == 116u8
                && mid[4] == 115u8 && mid[5] == 32u8 && mid[6] == 61u8 && mid[7] == 32u8 && mid[8]
                == 91u8);
        }
    }
    let pos = match expect(bytes, pos, 10) {
        Some(x) => x,
        None => return None,
    };
    let pos = match expect(bytes, pos, 112) {
        Some(x) => x,
        None => return None,
    };
    let pos = match expect(bytes, pos, 111) {
        Some(x) => x,
        None => return None,
    };
    let pos = match expect(bytes, pos, 114) {
        Some(x) => x,
        None => return None,
    };
    let pos = match expect(bytes, pos, 116) {
        Some(x) => x,
        None => return None,
    };
    let pos = match expect(bytes, pos, 115) {
        Some(x) => x,
        None => return None,
    };
    let pos = match expect(bytes, pos, 32) {
        Some(x) => x,
        None => return None,
    };
    let pos = match expect(bytes, pos, 61) {
        Some(x) => x,
        None => return None,
    };
    let pos = match expect(bytes, pos, 32) {
        Some(x) => x,
        None => return None,
    };
    let pos = match expect(bytes, pos, 91) {
        Some(x) => x,
        None => return None,
    };
    Some((v as u16, pos))
}

/// Reads one quoted network. When the bytes from `pos` are the quoted text
/// of the valid network `p` followed by `l`, `p` and the position of `l`
/// come back.
fn read_item(bytes: &[u8], pos: usize, Ghost(p): Ghost<Ipv4Cidr>, Ghost(l): Ghost<Seq<u8>>) -> (r:
    Option<(Ipv4Cidr, usize)>)
    requires
        pos <= bytes@.len(),
    ensures
        r matches Some((c, e)) ==> pos < e <= bytes@.len() && c.wf(),
        bytes@.subrange(pos as int, bytes@.len() as int) == seq![34u8] + (cidr_text(p.addr, p.prefix)
            + (seq![34u8] + l)) && p.wf() ==> (r matches Some((c, e)) && c == p && bytes@.subrange(
            e as int,
            bytes@.len() as int,
        ) == l),
{
    let len = bytes.len();
    let ghost t = cidr_text(p.addr, p.prefix);
    let ghost hyp = bytes@.subrange(pos as int, bytes@.len() as int) == seq![34u8] + (t + (seq![34u8]
        + l)) && p.wf();
    proof {
        if hyp {
            lemma_expect(bytes@, pos as int, 34u8, t + (seq![34u8] + l));
            assert((seq![34u8] + l)[0] == 34u8);
        }
    }
    let pos = match expect(bytes, pos, 34) {
        Some(x) => x,
        None => return None,
    };
    let (c, e) = match read_cidr(bytes, pos, Ghost(p), Ghost(seq![34u8] + l)) {
        Some(x) => x,
        None => return None,
    };
    proof {
        if hyp {
            lemma_skip(bytes@, pos as int, t, seq![34u8] + l);
            lemma_expect(bytes@, e as int, 34u8, l);
        }
    }
    let e = match expect(bytes, e, 34) {
        Some(x) => x,
        None => return None,
    };
    Some((c, e))
}

/// Reads the `, "<cidr>"` items after the first. When the networks read so
/// far are the first ones of the valid list `all` and the bytes from `pos`
/// are the rest of its text and the closing bytes, the whole list and the
/// position of the closing bytes come back.
fn read_tail(bytes: &[u8], start: usize, found: Vec<Ipv4Cidr>, Ghost(all): Ghost<Seq<Ipv4Cidr>>) -> (r:
    Option<(Vec<Ipv4Cidr>, usize)>)
    requires
        start <= bytes@.len(),
        forall|i: int| 0 <= i < found@.len() ==> (#[trigger] found@[i]).wf(),
    ensures
        r matches Some((v, e)) ==> e <= bytes@.len() && forall|i: int|
            0 <= i < v@.len() ==> (#[trigger] v@[i]).wf(),
        ({
            &&& all_valid(all)
            &&& found@.len() <= all.len()
            &&& found@ == all.subrange(0, found@.len() as int)
            &&& bytes@.subrange(start as int, bytes@.len() as int) == list_tail(
                all.subrange(found@.len() as int, all.len() as int),
            ) + closing()
        }) ==> (r matches Some((v, e)) && v@ == all && bytes@.subrange(
            e as int,
            bytes@.len() as int,
        ) == closing()),
{
    let len = bytes.len();
    let ghost hyp = all_valid(all) && found@.len() <= all.len() && found@ == all.subrange(
        0,
        found@.len() as int,
    ) && bytes@.subrange(start as int, bytes@.len() as int) == list_tail(
        all.subrange(found@.len() as int, all.len() as int),
    ) + closing();
    let mut ports = found;
    let mut pos = start;
    while pos < len && bytes[pos] == 44
        invariant
            len == bytes@.len(),
            hyp == (all_valid(all) && found@.len() <= all.len() && found@ == all.subrange(
                0,
                found@.len() as int,
            ) && bytes@.subrange(start as int, bytes@.len() as int) == list_tail(
                all.subrange(found@.len() as int, all.len() as int),
            ) + closing()),
            pos <= len,
            forall|i: int| 0 <= i < ports@.len() ==> (#[trigger] ports@[i]).wf(),
            hyp ==> all_valid(all),
            hyp ==> ports@.len() <= all.len(),
            hyp ==> ports@ == all.subrange(0, ports@.len() as int),
            hyp ==> bytes@.subrange(pos as int, len as int) == list_tail(
                all.subrange(ports@.len() as int, all.len() as int),
            ) + closing(),
        decreases len - pos,
    {
        let ghost i = ports@.len() as int;
        let ghost rem = all.subrange(i, all.len() as int);
        let ghost l2 = list_tail(rem.drop_first()) + closing();
        let ghost gp = if hyp && rem.len() > 0 {
            rem[0]
        } else {
            Ipv4Cidr { addr: 0, prefix: 0 }
        };
        proof {
            if hyp {
                lemma_list_start(rem);
                assert(bytes@[pos as int] == bytes@.subrange(pos as int, len as int)[0]);
                assert(rem.len() > 0);
                assert(gp == rem[0]);
                lemma_item_split(rem[0], rem.drop_first(), true);
                let t = cidr_text(gp.addr, gp.prefix);
                assert(list_tail(rem) == list_separator() + quoted(t) + list_tail(rem.drop_first()));
                assert(list_separator() + (seq![34u8] + (t + (seq![34u8] + l2))) =~= seq![44u8] + (
                seq![32u8] + (seq![34u8] + (t + (seq![34u8] + l2)))));
                lemma_expect(
                    bytes@,
                    pos as int,
                    44u8,
                    seq![32u8] + (seq![34u8] + (t + (seq![34u8] + l2))),
                );
                lemma_expect(bytes@, pos + 1, 32u8, seq![34u8] + (t + (seq![34u8] + l2)));
                assert(rem[0] == all[i]);
            }
        }
        pos = match expect(bytes, pos, 44) {
            Some(x) => x,
            None => return None,
        };
        pos = match expect(bytes, pos, 32) {
            Some(x) => x,
            None => return None,
        };
        let (c, e) = match read_item(bytes, pos, Ghost(gp), Ghost(l2)) {
            Some(x) => x,
            None => return None,
        };
        pos = e;
        ports.push(c);
        proof {
            if hyp {
                assert(ports@ =~= all.subrange(0, i + 1));
                assert(rem.drop_first() =~= all.subrange(i + 1, all.len() as int));
            }
        }
    }
    proof {
        if hyp {
            let rem = all.subrange(ports@.len() as int, all.len() as int);
            lemma_list_start(rem);
            if rem.len() > 0 {
                assert(bytes@[pos as int] == bytes@.subrange(pos as int, len as int)[0]);
            }
            assert(ports@ =~= all);
        }
    }
    Some((ports, pos))
}

/// Reads the quoted networks of a list. When the bytes from `pos` are the
/// text of the valid list `all` and the closing bytes, the list and the
/// position of the closing bytes come back.
fn read_list(bytes: &[u8], pos: usize, Ghost(all): Ghost<Seq<Ipv4Cidr>>) -> (r: Option<
    (Vec<Ipv4Cidr>, usize),
>)
    requires
        pos <= bytes@.len(),
    ensures
        r matches Some((v, e)) ==> e <= bytes@.len() && forall|i: int|
            0 <= i < v@.len() ==> (#[trigger] v@[i]).wf(),
        all_valid(all) && bytes@.subrange(pos as int, bytes@.len() as int) == quoted_list(all)
            + closing() ==> (r matches Some((v, e)) && v@ == all && bytes@.subrange(
            e as int,
            bytes@.len() as int,
        ) == closing()),
{
    let len = bytes.len();
    let ghost hyp = all_valid(all) && bytes@.subrange(pos as int, bytes@.len() as int)
        == quoted_list(all) + closing();
    proof {
        if hyp {
            lemma_list_start(all);
        }
    }
    let ports: Vec<Ipv4Cidr> = Vec::new();
    if pos < len && bytes[pos] == 34 {
        let ghost p0 = if hyp && all.len() > 0 {
            all[0]
        } else {
            Ipv4Cidr { addr: 0, prefix: 0 }
        };
        let ghost l = list_tail(all.drop_first()) + closing();
        proof {
            if hyp {
                if all.len() == 0 {
                    assert(bytes@[pos as int] == bytes@.subrange(pos as int, len as int)[0]);
                }
                lemma_item_split(p0, all.drop_first(), false);
            }
        }
        let (c, e) = match read_item(bytes, pos, Ghost(p0), Ghost(l)) {
            Some(x) => x,
            None => return None,
        };
        let mut ports = ports;
        ports.push(c);
        proof {
            if hyp {
                assert(ports@ =~= all.subrange(0, 1));
                assert(all.drop_first() =~= all.subrange(1, all.len() as int));
            }
        }
        read_tail(bytes, e, ports, Ghost(all))
    } else {
        proof {
            if hyp {
                if all.len() > 0 {
                    assert(bytes@.subrange(pos as int, len as int).len() == len - pos);
                    assert((quoted_list(all) + closing()).len() > 0);
                    assert(bytes@[pos as int] == bytes@.subrange(pos as int, len as int)[0]);
                }
                assert(ports@ =~= all);
            }
        }
        Some((ports, pos))
    }
}

impl OvsVlan {
    /// Reads a descriptor back from its text form: `None` unless the bytes
    /// are the text of a descriptor whose networks are all valid.
    pub fn decode(bytes: &[u8]) -> (r: Option<OvsVlan>)
        ensures
            r matches Some(d) ==> d.wf() && descriptor_of(bytes@) == Some((d.id, d.ports@)),
            descriptor_of(bytes@) is Some && all_valid(descriptor_of(bytes@)->Some_0.1) ==> (r matches Some(
                d,
            ) && d.id == descriptor_of(bytes@)->Some_0.0 && d.ports@ == descriptor_of(bytes@)->Some_0.1),
    {
        let len = bytes.len();
        let ghost g = match descriptor_of(bytes@) {
            Some(x) => x,
            None => (0u16, Seq::<Ipv4Cidr>::empty()),
        };
        let ghost hyp = descriptor_of(bytes@) is Some && all_valid(g.1);
        let ghost q = quoted_list(g.1) + closing();
        proof {
            if hyp {
                assert(descriptor_text(g.0, g.1) == bytes@);
                lemma_descriptor_split(g.0, g.1);
            }
        }
        let (id, pos) = match read_header(bytes, Ghost(g.0), Ghost(q)) {
            Some(x) => x,
            None => return None,
        };
        let (ports, pos) = match read_list(bytes, pos, Ghost(g.1)) {
            Some(x) => x,
            None => return None,
        };
        proof {
            if hyp {
                assert(closing() == seq![93u8] + seq![10u8]);
                lemma_expect(bytes@, pos as int, 93u8, seq![10u8]);
                lemma_expect(bytes@, pos + 1, 10u8, Seq::<u8>::empty());
            }
        }
        let pos = match expect(bytes, pos, 93) {
            Some(x) => x,
            None => return None,
        };
        let pos = match expect(bytes, pos, 10) {
            Some(x) => x,
            None => return None,
        };
        if pos != len {
            return None;
        }
        let d = OvsVlan { id, ports };
        let encoded = d.encode();
        if !same_bytes(&encoded, bytes) {
            return None;
        }
        proof {
            lemma_descriptor_round_trip(d.id, d.ports@);
        }
        Some(d)
    }
}

} // verus!
