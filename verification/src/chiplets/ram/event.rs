//! Memory events and their order.

use vstd::prelude::*;

use crate::bytes;

verus! {

/// One access to memory.
#[derive(Clone, Copy, Debug, PartialEq, Eq, Structural)]
pub struct MemoryEvent {
    pub addr: u32,
    /// When the access happened.
    pub clk: u32,
    /// The value read or written.
    pub val: u32,
    pub is_write: bool,
}

impl MemoryEvent {
    /// Address above clock: ordering by this number orders by address, then
    /// by clock.
    pub open spec fn key(self) -> nat {
        self.addr as nat * 0x1_0000_0000 + self.clk as nat
    }

    pub fn new(addr: u32, clk: u32, val: u32, is_write: bool) -> (r: Self)
        ensures
            r == (MemoryEvent { addr, clk, val, is_write }),
    {
        MemoryEvent { addr, clk, val, is_write }
    }

    /// A write event.
    pub fn write(addr: u32, clk: u32, val: u32) -> (r: Self)
        ensures
            r == (MemoryEvent { addr, clk, val, is_write: true }),
    {
        MemoryEvent::new(addr, clk, val, true)
    }

    /// A read event.
    pub fn read(addr: u32, clk: u32, val: u32) -> (r: Self)
        ensures
            r == (MemoryEvent { addr, clk, val, is_write: false }),
    {
        MemoryEvent::new(addr, clk, val, false)
    }

    /// The address bytes, least significant first.
    pub fn addr_bytes(&self) -> (r: [u8; 4])
        ensures
            r@ == bytes::le_bytes(self.addr as nat, 4),
    {
        bytes::le_bytes4(self.addr)
    }

    /// The clock bytes, least significant first.
    pub fn clk_bytes(&self) -> (r: [u8; 4])
        ensures
            r@ == bytes::le_bytes(self.clk as nat, 4),
    {
        bytes::le_bytes4(self.clk)
    }

    /// The value bytes, least significant first.
    pub fn val_bytes(&self) -> (r: [u8; 4])
        ensures
            r@ == bytes::le_bytes(self.val as nat, 4),
    {
        bytes::le_bytes4(self.val)
    }

    /// The number that orders events by address, then clock.
    pub fn sort_key(&self) -> (r: u64)
        ensures
            r as nat == self.key(),
    {
        let (addr, clk): (u64, u64) = (self.addr as u64, self.clk as u64);
        assert((addr << 32) | clk == addr * 0x1_0000_0000 + clk) by (bit_vector)
            requires
                addr <= 0xffff_ffff,
                clk <= 0xffff_ffff,
        ;
        (addr << 32) | clk
    }
}

/// Keys never fall.
pub open spec fn ascending(events: Seq<MemoryEvent>) -> bool {
    forall|i: int, j: int|
        0 <= i <= j < events.len() ==> (#[trigger] events[i]).key() <= (#[trigger] events[j]).key()
}

/// Keys always rise.
pub open spec fn strictly_ascending(events: Seq<MemoryEvent>) -> bool {
    forall|i: int, j: int|
        0 <= i < j < events.len() ==> (#[trigger] events[i]).key() < (#[trigger] events[j]).key()
}

/// The events with key `k`, in the order they have.
pub open spec fn with_key(events: Seq<MemoryEvent>, k: nat) -> Seq<MemoryEvent> {
    events.filter(|e: MemoryEvent| e.key() == k)
}

/// `sorted` is `events` in the order of their keys, those with equal keys
/// keeping the order they had.
pub open spec fn is_sorting(events: Seq<MemoryEvent>, sorted: Seq<MemoryEvent>) -> bool {
    &&& ascending(sorted)
    &&& sorted.to_multiset() == events.to_multiset()
    &&& forall|k: nat| #[trigger] with_key(sorted, k) == with_key(events, k)
}

/// `slice::sort_by_key`: a permutation of the slice in the order of the
/// keys, which keeps the order of equal keys.
#[verifier::external_body]
pub(crate) fn sort_by_key(events: &mut Vec<MemoryEvent>)
    ensures
        is_sorting(old(events)@, final(events)@),
{
    events.sort_by_key(|e| e.sort_key());
}

/// The events in the order of their keys.
pub fn sort_events(events: &[MemoryEvent]) -> (r: Vec<MemoryEvent>)
    ensures
        is_sorting(events@, r@),
        r@.len() == events@.len(),
{
    let mut r: Vec<MemoryEvent> = Vec::with_capacity(events.len());
    for i in 0..events.len()
        invariant
            r@ =~= events@.take(i as int),
    {
        r.push(events[i]);
    }
    assert(r@ =~= events@);
    sort_by_key(&mut r);
    proof {
        events@.to_multiset_ensures();
        r@.to_multiset_ensures();
    }
    r
}

/// Where no two events have the same key, there is only one order.
pub proof fn law_sorting_is_unique(a: Seq<MemoryEvent>, b: Seq<MemoryEvent>)
    requires
        strictly_ascending(a),
        ascending(b),
        a.to_multiset() == b.to_multiset(),
    ensures
        a == b,
    decreases a.len(),
{
    a.to_multiset_ensures();
    b.to_multiset_ensures();
    if a.len() == 0 {
        assert(a =~= b);
    } else {
        let (x, y) = (a[0], b[0]);
        assert(a.contains(x) && b.contains(y));
        assert(b.to_multiset().count(x) > 0);
        assert(a.to_multiset().count(y) > 0);
        let i = choose|i: int| 0 <= i < a.len() && a[i] == y;
        let j = choose|j: int| 0 <= j < b.len() && b[j] == x;
        assert(a[i] == y && b[j] == x);
        if i > 0 {
            assert(a[0].key() < a[i].key());
            assert(b[0].key() <= b[j].key());
        }
        assert(x == y);
        assert(a.remove(0) =~= a.skip(1));
        assert(b.remove(0) =~= b.skip(1));
        assert(a.remove(0).to_multiset() =~= a.to_multiset().remove(a[0]));
        assert(b.remove(0).to_multiset() =~= b.to_multiset().remove(b[0]));
        law_sorting_is_unique(a.skip(1), b.skip(1));
        assert(a =~= seq![x] + a.skip(1));
        assert(b =~= seq![y] + b.skip(1));
    }
}

/// Events are ordered by address, and at one address by time.
pub proof fn law_address_then_time(a: MemoryEvent, b: MemoryEvent)
    ensures
        a.key() < b.key() <==> a.addr < b.addr || (a.addr == b.addr && a.clk < b.clk),
        a.key() == b.key() <==> a.addr == b.addr && a.clk == b.clk,
{
}

} // verus!
