use vstd::prelude::*;

verus! {

pub const MAX_SLOTS: usize = 4;

/// Identity of the controller behind a DSU slot, as shown to the user.
#[derive(Clone, Copy, Debug, PartialEq, Eq)]
pub struct ControllerInfo {
    pub id: u64,
    pub name: &'static str,
    pub transport: &'static str,
}

/// Connection state of one DSU slot.
#[derive(Clone, Copy, Debug)]
pub struct SlotStatus {
    pub connected: bool,
    pub controller: Option<ControllerInfo>,
}

/// The state of a slot nobody occupies.
pub open spec fn vacant(s: SlotStatus) -> bool {
    !s.connected && s.controller is None
}

impl SlotStatus {
    pub fn vacant() -> (r: Self)
        ensures
            vacant(r),
    {
        SlotStatus { connected: false, controller: None }
    }
}

/// Records that `controller` now occupies `slot`.  Slots past the last DSU
/// slot are ignored.
pub fn publish_slot_connected(slots: &mut [SlotStatus; 4], slot: u8, controller: ControllerInfo)
    ensures
        (slot as usize) < MAX_SLOTS ==> final(slots)@ == old(slots)@.update(
            slot as int,
            SlotStatus { connected: true, controller: Some(controller) },
        ),
        (slot as usize) >= MAX_SLOTS ==> final(slots)@ == old(slots)@,
{
    if (slot as usize) < MAX_SLOTS {
        slots[slot as usize] = SlotStatus { connected: true, controller: Some(controller) };
    }
}

/// Records that `slot` is vacant again.  Slots past the last DSU slot are
/// ignored.
pub fn publish_slot_disconnected(slots: &mut [SlotStatus; 4], slot: u8)
    ensures
        (slot as usize) < MAX_SLOTS ==> final(slots)@ == old(slots)@.update(
            slot as int,
            SlotStatus { connected: false, controller: None },
        ),
        (slot as usize) >= MAX_SLOTS ==> final(slots)@ == old(slots)@,
{
    if (slot as usize) < MAX_SLOTS {
        slots[slot as usize] = SlotStatus::vacant();
    }
}

/// Connecting and then disconnecting a slot leaves it vacant and every other
/// slot as it was.
pub proof fn law_disconnect_undoes_connect(
    slots: Seq<SlotStatus>,
    slot: int,
    controller: ControllerInfo,
)
    requires
        0 <= slot < slots.len(),
    ensures
        vacant(
            slots.update(
                slot,
                SlotStatus { connected: true, controller: Some(controller) },
            ).update(slot, SlotStatus { connected: false, controller: None })[slot],
        ),
        forall|i: int|
            0 <= i < slots.len() && i != slot ==> slots.update(
                slot,
                SlotStatus { connected: true, controller: Some(controller) },
            ).update(slot, SlotStatus { connected: false, controller: None })[i] == slots[i],
{
}

} // verus!
