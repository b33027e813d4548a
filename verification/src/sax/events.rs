//! The events that the parser reports, as a mask of bits and as a table of switches.

use vstd::prelude::*;

verus! {

/// The bits of a mask that stand for an event: there are ten events.
pub const EVENT_MASK: u32 = 0b11_1111_1111;

/// Whether the mask `events` has the bit of event number `event`.
pub open spec fn event_enabled(events: u32, event: int) -> bool {
    events & (1u32 << event as u32) != 0
}

/// The switches of the ten events, as the mask `events` sets them.
pub open spec fn enabled_events(events: u32) -> Seq<bool> {
    Seq::new(10, |event: int| event_enabled(events, event))
}

/// What an event adds to a mask: its weight where it is switched on.
pub open spec fn weight(on: bool, value: int) -> int {
    if on {
        value
    } else {
        0
    }
}

/// The mask of ten switches: the binary number that has them as its digits, the first event's
/// as the lowest.
pub open spec fn mask_of(events: Seq<bool>) -> u32 {
    (weight(events[0], 1) + weight(events[1], 2) + weight(events[2], 4) + weight(events[3], 8)
        + weight(events[4], 16) + weight(events[5], 32) + weight(events[6], 64) + weight(
        events[7],
        128,
    ) + weight(events[8], 256) + weight(events[9], 512)) as u32
}

/// A mask of events comes back from the table of switches that it sets.
pub proof fn lemma_mask_of_lookup(mask: u32)
    requires
        mask <= EVENT_MASK,
    ensures
        mask_of(enabled_events(mask)) == mask,
{
    let e = enabled_events(mask);
    let (e0, e1, e2, e3, e4) = (e[0], e[1], e[2], e[3], e[4]);
    let (e5, e6, e7, e8, e9) = (e[5], e[6], e[7], e[8], e[9]);
    assert((if e0 { 1u32 } else { 0 }) + (if e1 { 2u32 } else { 0 }) + (if e2 { 4u32 } else { 0 })
        + (if e3 { 8u32 } else { 0 }) + (if e4 { 16u32 } else { 0 }) + (if e5 { 32u32 } else { 0 })
        + (if e6 { 64u32 } else { 0 }) + (if e7 { 128u32 } else { 0 })
        + (if e8 { 256u32 } else { 0 }) + (if e9 { 512u32 } else { 0 }) == mask) by (bit_vector)
        requires
            mask <= 1023,
            e0 == (mask & (1u32 << 0u32) != 0),
            e1 == (mask & (1u32 << 1u32) != 0),
            e2 == (mask & (1u32 << 2u32) != 0),
            e3 == (mask & (1u32 << 3u32) != 0),
            e4 == (mask & (1u32 << 4u32) != 0),
            e5 == (mask & (1u32 << 5u32) != 0),
            e6 == (mask & (1u32 << 6u32) != 0),
            e7 == (mask & (1u32 << 7u32) != 0),
            e8 == (mask & (1u32 << 8u32) != 0),
            e9 == (mask & (1u32 << 9u32) != 0),
    ;
}

/// A table of ten switches comes back from its mask, which has no bit that stands for no event.
pub proof fn lemma_lookup_of_mask(events: Seq<bool>)
    requires
        events.len() == 10,
    ensures
        mask_of(events) <= EVENT_MASK,
        enabled_events(mask_of(events)) == events,
{
    let mask = mask_of(events);
    let (e0, e1, e2, e3, e4) = (events[0], events[1], events[2], events[3], events[4]);
    let (e5, e6, e7, e8, e9) = (events[5], events[6], events[7], events[8], events[9]);
    assert({
        &&& e0 == (mask & (1u32 << 0u32) != 0)
        &&& e1 == (mask & (1u32 << 1u32) != 0)
        &&& e2 == (mask & (1u32 << 2u32) != 0)
        &&& e3 == (mask & (1u32 << 3u32) != 0)
        &&& e4 == (mask & (1u32 << 4u32) != 0)
        &&& e5 == (mask & (1u32 << 5u32) != 0)
        &&& e6 == (mask & (1u32 << 6u32) != 0)
        &&& e7 == (mask & (1u32 << 7u32) != 0)
        &&& e8 == (mask & (1u32 << 8u32) != 0)
        &&& e9 == (mask & (1u32 << 9u32) != 0)
    }) by (bit_vector)
        requires
            (if e0 { 1u32 } else { 0 }) + (if e1 { 2u32 } else { 0 }) + (if e2 { 4u32 } else { 0 })
                + (if e3 { 8u32 } else { 0 }) + (if e4 { 16u32 } else { 0 })
                + (if e5 { 32u32 } else { 0 }) + (if e6 { 64u32 } else { 0 })
                + (if e7 { 128u32 } else { 0 }) + (if e8 { 256u32 } else { 0 })
                + (if e9 { 512u32 } else { 0 }) == mask,
    ;
    assert(enabled_events(mask) =~= events);
}

/// The mask that has the bits of the events that are switched on, and no other.
pub fn events_mask(events: &[bool; 10]) -> (mask: u32)
    ensures
        mask == mask_of(events@),
        mask <= EVENT_MASK,
        mask <= 1023,
        forall|i: int| 0 <= i < 10 ==> #[trigger] events@[i] == (mask & (1u32 << i as u32) != 0),
{
    let mut mask: u32 = 0;
    let mut index: u32 = 0;
    assert(0u32 < 1u32 << 0u32) by (bit_vector);
    while index < 10
        invariant
            index <= 10,
            mask < 1u32 << index,
            forall|j: int| 0 <= j < index ==> #[trigger] events@[j] == event_enabled(mask, j),
        decreases 10 - index,
    {
        let ghost before = mask;
        let bit: u32 = events[index as usize] as u32;
        mask = mask | (bit << index);
        proof {
            assert(mask < 1u32 << ((index + 1) as u32)) by (bit_vector)
                requires
                    mask == before | (bit << index),
                    before < 1u32 << index,
                    bit <= 1,
                    index < 10,
            ;
            assert forall|j: int| 0 <= j < index + 1 implies #[trigger] events@[j]
                == event_enabled(mask, j) by {
                let k = j as u32;
                assert((mask & (1u32 << k) != 0) == (if k == index {
                    bit == 1
                } else {
                    before & (1u32 << k) != 0
                })) by (bit_vector)
                    requires
                        mask == before | (bit << index),
                        before < 1u32 << index,
                        bit <= 1,
                        k <= index,
                        index < 10,
                ;
            }
        }
        index = index + 1;
    }
    proof {
        assert(enabled_events(mask) =~= events@);
        assert(1u32 << 10u32 == 1024) by (bit_vector);
        lemma_mask_of_lookup(mask);
    }
    mask
}

/// The table of switches that the mask `events` sets. Bits that stand for no event are ignored.
pub fn generate_event_lookup(events: u32) -> (lookup: [bool; 10])
    ensures
        lookup@ == enabled_events(events),
        forall|i: int| 0 <= i < 10 ==> #[trigger] lookup@[i] == (events & (1u32 << i as u32) != 0),
{
    let mut event_lookup: [bool; 10] = [false; 10];
    let mut i: usize = 0;
    while i < 10
        invariant
            i <= 10,
            forall|j: int| 0 <= j < i ==> event_lookup@[j] == event_enabled(events, j),
        decreases 10 - i,
    {
        event_lookup[i] = events & (1u32 << i as u32) != 0;
        i = i + 1;
    }
    assert(event_lookup@ =~= enabled_events(events));
    event_lookup
}

} // verus!
