//! The two rules a sorted table follows.

use vstd::prelude::*;

use super::event;
use super::event::MemoryEvent;

verus! {

/// A table's values make sense: a read repeats the value of the event
/// before it at the same address, and reads zero where there is none.
pub open spec fn consistent(events: Seq<MemoryEvent>) -> bool {
    &&& events.len() > 0 && !events[0].is_write ==> events[0].val == 0
    &&& forall|i: int| 0 <= i < events.len() - 1 ==> #[trigger] follows(events, i)
}

/// The event after `i` agrees with event `i`.
pub open spec fn follows(events: Seq<MemoryEvent>, i: int) -> bool {
    let (cur, next) = (events[i], events[i + 1]);
    next.is_write || next.val == (if cur.addr == next.addr {
        cur.val
    } else {
        0
    })
}

/// Whether the keys rise from each event to the next.
pub fn verify_sorted(events: &[MemoryEvent]) -> (r: bool)
    ensures
        r == event::strictly_ascending(events@),
{
    if events.len() == 0 {
        return true;
    }
    for i in 0..events.len() - 1
        invariant
            events@.len() > 0,
            forall|a: int, b: int|
                0 <= a < b <= i ==> (#[trigger] events@[a]).key() < (#[trigger] events@[b]).key(),
    {
        if events[i].sort_key() >= events[i + 1].sort_key() {
            proof {
                assert(!(events@[i as int].key() < events@[i + 1].key()));
            }
            return false;
        }
    }
    true
}

/// Whether the values make sense: see [`consistent`].
pub fn verify_consistency(events: &[MemoryEvent]) -> (r: bool)
    ensures
        r == consistent(events@),
{
    if events.len() == 0 {
        return true;
    }
    if !events[0].is_write && events[0].val != 0 {
        return false;
    }
    for i in 0..events.len() - 1
        invariant
            events@.len() > 0,
            !events@[0].is_write ==> events@[0].val == 0,
            forall|k: int| 0 <= k < i ==> #[trigger] follows(events@, k),
    {
        if events[i].addr == events[i + 1].addr {
            if !events[i + 1].is_write && events[i].val != events[i + 1].val {
                assert(!follows(events@, i as int));
                return false;
            }
        } else {
            if !events[i + 1].is_write && events[i + 1].val != 0 {
                assert(!follows(events@, i as int));
                return false;
            }
        }
    }
    true
}

/// The value of the latest write to `addr` among the first `n` events, zero
/// where there is none.
pub open spec fn last_written(events: Seq<MemoryEvent>, addr: u32, n: int) -> u32
    decreases n,
{
    if n <= 0 {
        0
    } else if events[n - 1].addr == addr && events[n - 1].is_write {
        events[n - 1].val
    } else {
        last_written(events, addr, n - 1)
    }
}

/// In a table sorted by address and time, the rules mean that memory
/// behaves: every read returns the value of the latest earlier write to its
/// address, and zero where nothing was written.
pub proof fn law_reads_return_the_last_write(events: Seq<MemoryEvent>, i: int)
    requires
        event::strictly_ascending(events),
        consistent(events),
        0 <= i < events.len(),
    ensures
        !events[i].is_write ==> events[i].val == last_written(events, events[i].addr, i),
        events[i].val == last_written(events, events[i].addr, i + 1),
    decreases i,
{
    let e = events[i];
    if i > 0 {
        assert(follows(events, i - 1));
        let prev = events[i - 1];
        assert(prev.key() < e.key());
        if prev.addr == e.addr {
            law_reads_return_the_last_write(events, i - 1);
        } else {
            assert(prev.addr < e.addr);
            lemma_fresh(events, i, i);
        }
    }
    assert(last_written(events, e.addr, i + 1) == if e.is_write {
        e.val
    } else {
        last_written(events, e.addr, i)
    });
}

/// No earlier event is at an address above the one before.
proof fn lemma_fresh(events: Seq<MemoryEvent>, i: int, n: int)
    requires
        event::strictly_ascending(events),
        0 < i < events.len(),
        events[i - 1].addr < events[i].addr,
        0 <= n <= i,
    ensures
        last_written(events, events[i].addr, n) == 0,
    decreases n,
{
    if n > 0 {
        if n < i {
            assert(events[n - 1].key() < events[i - 1].key());
        }
        assert(events[n - 1].addr < events[i].addr);
        lemma_fresh(events, i, n - 1);
    }
}

/// Where a table behaves as memory does, the rules hold.
pub proof fn law_behaving_tables_are_consistent(events: Seq<MemoryEvent>)
    requires
        event::strictly_ascending(events),
        forall|i: int|
            0 <= i < events.len() && !events[i].is_write ==> (#[trigger] events[i]).val
                == last_written(events, events[i].addr, i),
    ensures
        consistent(events),
{
    assert forall|i: int| 0 <= i < events.len() - 1 implies #[trigger] follows(events, i) by {
        let (cur, next) = (events[i], events[i + 1]);
        assert(cur.key() < next.key());
        if !next.is_write {
            assert(next.val == last_written(events, next.addr, i + 1));
            if cur.addr != next.addr {
                lemma_fresh(events, i + 1, i + 1);
            } else if !cur.is_write {
                assert(cur.val == last_written(events, cur.addr, i));
            }
        }
    }
    if events.len() > 0 && !events[0].is_write {
        assert(events[0].val == last_written(events, events[0].addr, 0));
    }
}

} // verus!
