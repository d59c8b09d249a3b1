use vstd::prelude::*;
use crate::cache::ProvisionError;
use crate::network::{cidr_text, decimal, push_decimal, Ipv4Cidr};

verus! {

/// The step of segment allocation from the last identifier issued: the next
/// one, or exhaustion once the 16-bit space is used up (never a wrap).
pub open spec fn allocate_spec(last: u16) -> (u16, Result<u16, ProvisionError>) {
    if last < u16::MAX {
        ((last + 1) as u16, Ok((last + 1) as u16))
    } else {
        (last, Err(ProvisionError::Exhausted))
    }
}

/// `n` allocations in a row: the last identifier after them and each result.
pub open spec fn allocations(last: u16, n: nat) -> (u16, Seq<Result<u16, ProvisionError>>)
    decreases n,
{
    if n == 0 {
        (last, Seq::empty())
    } else {
        let (l, got) = allocations(last, (n - 1) as nat);
        let (l2, r) = allocate_spec(l);
        (l2, got.push(r))
    }
}

/// The state of segment identifier allocation: the last identifier issued.
pub struct SegmentAllocator {
    last: u16,
}

impl SegmentAllocator {
    pub closed spec fn last_id(&self) -> u16 {
        self.last
    }

    /// An allocator whose first identifier will be `base + 1`.
    pub fn new(base: u16) -> (r: SegmentAllocator)
        ensures
            r.last_id() == base,
    {
        SegmentAllocator { last: base }
    }

    pub fn last_issued(&self) -> (r: u16)
        ensures
            r == self.last_id(),
    {
        self.last
    }

    /// Issues the next segment identifier.
    pub fn allocate(&mut self) -> (r: Result<u16, ProvisionError>)
        ensures
            (final(self).last_id(), r) == allocate_spec(old(self).last_id()),
    {
        if self.last < u16::MAX {
            self.last = self.last + 1;
            Ok(self.last)
        } else {
            Err(ProvisionError::Exhausted)
        }
    }
}

/// Segment identifiers are strictly increasing from the base: the `i`-th
/// allocation (from 0) issues `base + i + 1`, for as long as that fits in 16
/// bits.
pub proof fn lemma_allocations_increase(base: u16, n: nat)
    requires
        base + n <= u16::MAX,
    ensures
        allocations(base, n) == ((base + n) as u16, Seq::new(
            n,
            |i: int| Ok::<u16, ProvisionError>((base + i + 1) as u16),
        )),
    decreases n,
{
    if n > 0 {
        lemma_allocations_increase(base, (n - 1) as nat);
        let (l, got) = allocations(base, (n - 1) as nat);
        assert(got.push(Ok::<u16, ProvisionError>((base + n) as u16)) =~= Seq::new(
            n,
            |i: int| Ok::<u16, ProvisionError>((base + i + 1) as u16),
        ));
    } else {
        assert(Seq::<Result<u16, ProvisionError>>::empty() =~= Seq::new(
            n,
            |i: int| Ok::<u16, ProvisionError>((base + i + 1) as u16),
        ));
    }
}

/// The address of host `host` on segment `id`: `10.<high byte>.<low byte>.<host>`.
pub open spec fn segment_host(id: u16, host: u8) -> u32 {
    (10 * 16777216 + (id as nat) * 256 + host as nat) as u32
}

/// The two /24 networks of segment `id`: this machine's interface (host 2)
/// and the target host's interface (host 1).
pub fn segment_networks(id: u16) -> (r: (Ipv4Cidr, Ipv4Cidr))
    ensures
        r.0 == (Ipv4Cidr { addr: segment_host(id, 2), prefix: 24 }),
        r.1 == (Ipv4Cidr { addr: segment_host(id, 1), prefix: 24 }),
{
    let base: u32 = 167772160 + (id as u32) * 256;
    (Ipv4Cidr { addr: base + 2, prefix: 24 }, Ipv4Cidr { addr: base + 1, prefix: 24 })
}

/// The bytes `", "`.
pub open spec fn list_separator() -> Seq<u8> {
    seq![44u8, 32u8]
}

/// `t` between double quotes.
pub open spec fn quoted(t: Seq<u8>) -> Seq<u8> {
    seq![34u8] + t + seq![34u8]
}

/// `", "` and the quoted CIDR text of each network, in order.
pub open spec fn list_tail(ports: Seq<Ipv4Cidr>) -> Seq<u8>
    decreases ports.len(),
{
    if ports.len() == 0 {
        Seq::empty()
    } else {
        list_separator() + quoted(cidr_text(ports[0].addr, ports[0].prefix)) + list_tail(
            ports.drop_first(),
        )
    }
}

/// The networks in CIDR notation, each quoted, separated by `", "`.
pub open spec fn quoted_list(ports: Seq<Ipv4Cidr>) -> Seq<u8> {
    if ports.len() == 0 {
        Seq::empty()
    } else {
        quoted(cidr_text(ports[0].addr, ports[0].prefix)) + list_tail(ports.drop_first())
    }
}

proof fn lemma_list_tail_push(ports: Seq<Ipv4Cidr>, p: Ipv4Cidr)
    ensures
        list_tail(ports.push(p)) == list_tail(ports) + list_separator() + quoted(
            cidr_text(p.addr, p.prefix),
        ),
    decreases ports.len(),
{
    if ports.len() > 0 {
        assert(ports.push(p).drop_first() =~= ports.drop_first().push(p));
        assert(ports.push(p)[0] == ports[0]);
        lemma_list_tail_push(ports.drop_first(), p);
        let sep = list_separator();
        let q0 = quoted(cidr_text(ports[0].addr, ports[0].prefix));
        let qp = quoted(cidr_text(p.addr, p.prefix));
        let rest = list_tail(ports.drop_first());
        assert(list_tail(ports.push(p)) == sep + q0 + list_tail(ports.push(p).drop_first()));
        assert(list_tail(ports) == sep + q0 + rest);
        assert(sep + q0 + (rest + sep + qp) =~= sep + q0 + rest + sep + qp);
    } else {
        assert(ports.push(p).drop_first() =~= Seq::<Ipv4Cidr>::empty());
        assert(ports.push(p)[0] == p);
        assert(list_tail(ports.push(p).drop_first()) == Seq::<u8>::empty());
        assert(list_tail(ports) == Seq::<u8>::empty());
        assert(list_tail(ports.push(p)) =~= list_tail(ports) + list_separator() + quoted(
            cidr_text(p.addr, p.prefix),
        ));
    }
}

/// Appending a network to a list appends its quoted text, after a separator
/// unless the list was empty.
proof fn lemma_quoted_list_push(ports: Seq<Ipv4Cidr>, p: Ipv4Cidr)
    ensures
        quoted_list(ports.push(p)) == quoted_list(ports) + (if ports.len() == 0 {
            Seq::<u8>::empty()
        } else {
            list_separator()
        }) + quoted(cidr_text(p.addr, p.prefix)),
{
    if ports.len() > 0 {
        assert(ports.push(p).drop_first() =~= ports.drop_first().push(p));
        assert(ports.push(p)[0] == ports[0]);
        lemma_list_tail_push(ports.drop_first(), p);
        assert(quoted_list(ports.push(p)) =~= quoted_list(ports) + list_separator() + quoted(
            cidr_text(p.addr, p.prefix),
        ));
    } else {
        assert(ports.push(p).drop_first() =~= Seq::<Ipv4Cidr>::empty());
        assert(quoted_list(ports.push(p)) =~= quoted_list(ports) + Seq::<u8>::empty() + quoted(
            cidr_text(p.addr, p.prefix),
        ));
    }
}

/// The text form of a segment descriptor, two TOML lines with keys in this
/// order: `id = <id>` and `ports = ["<cidr>", ...]`, each ended by a newline.
pub open spec fn descriptor_text(id: u16, ports: Seq<Ipv4Cidr>) -> Seq<u8> {
    // "id = "
    seq![105u8, 100u8, 32u8, 61u8, 32u8] + decimal(id as nat)
    // "\nports = ["
    + seq![10u8, 112u8, 111u8, 114u8, 116u8, 115u8, 32u8, 61u8, 32u8, 91u8] + quoted_list(ports)
    // "]\n"
    + seq![93u8, 10u8]
}

/// A segment descriptor: which interfaces to create on segment `id`.
#[derive(Debug)]
pub struct OvsVlan {
    pub id: u16,
    pub ports: Vec<Ipv4Cidr>,
}

impl OvsVlan {
    pub open spec fn wf(&self) -> bool {
        forall|i: int| 0 <= i < self.ports@.len() ==> (#[trigger] self.ports@[i]).wf()
    }

    /// The descriptor in its text form.
    pub fn encode(&self) -> (r: Vec<u8>)
        requires
            self.wf(),
        ensures
            r@ == descriptor_text(self.id, self.ports@),
    {
        let mut out: Vec<u8> = Vec::new();
        out.push(105);
        out.push(100);
        out.push(32);
        out.push(61);
        out.push(32);
        push_decimal(&mut out, self.id as u64);
        out.push(10);
        out.push(112);
        out.push(111);
        out.push(114);
        out.push(116);
        out.push(115);
        out.push(32);
        out.push(61);
        out.push(32);
        out.push(91);
        let ghost head = out@;
        let mut i: usize = 0;
        while i < self.ports.len()
            invariant
                self.wf(),
                i <= self.ports@.len(),
                out@ == head + quoted_list(self.ports@.subrange(0, i as int)),
            decreases self.ports@.len() - i,
        {
            let ghost before = out@;
            if i > 0 {
                out.push(44);
                out.push(32);
            }
            out.push(34);
            let mut text = self.ports[i].to_text();
            out.append(&mut text);
            out.push(34);
            proof {
                let ps = self.ports@.subrange(0, i as int);
                assert(self.ports@.subrange(0, i + 1) =~= ps.push(self.ports@[i as int]));
                lemma_quoted_list_push(ps, self.ports@[i as int]);
                assert(out@ =~= head + quoted_list(self.ports@.subrange(0, i + 1)));
            }
            i += 1;
        }
        out.push(93);
        out.push(10);
        assert(self.ports@.subrange(0, self.ports@.len() as int) =~= self.ports@);
        assert(out@ =~= descriptor_text(self.id, self.ports@));
        out
    }
}

} // verus!
