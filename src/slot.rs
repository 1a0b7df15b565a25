//! The lifecycle stage of one slot of a join.
use vstd::prelude::*;

verus! {

/// Where one slot's result cell stands.
///
/// The only transitions are `Pending -> Ready -> Consumed`.
#[derive(Clone, Copy, Debug, PartialEq, Eq, Structural)]
pub enum SlotState {
    /// The operation has not completed; its cell holds nothing.
    Pending,
    /// The operation completed; its result waits in the cell.
    Ready,
    /// The result was moved out into the aggregate.
    Consumed,
}

impl SlotState {
    pub fn is_pending(&self) -> (r: bool)
        ensures
            r == (*self == SlotState::Pending),
    {
        matches!(self, SlotState::Pending)
    }

    pub fn is_ready(&self) -> (r: bool)
        ensures
            r == (*self == SlotState::Ready),
    {
        matches!(self, SlotState::Ready)
    }

    pub fn is_consumed(&self) -> (r: bool)
        ensures
            r == (*self == SlotState::Consumed),
    {
        matches!(self, SlotState::Consumed)
    }

    /// Moves a pending slot to `Ready`.
    pub fn set_ready(&mut self)
        requires
            *old(self) == SlotState::Pending,
        ensures
            *final(self) == SlotState::Ready,
    {
        *self = SlotState::Ready;
    }

    /// Moves a ready slot to `Consumed`.
    pub fn set_consumed(&mut self)
        requires
            *old(self) == SlotState::Ready,
        ensures
            *final(self) == SlotState::Consumed,
    {
        *self = SlotState::Consumed;
    }

    /// The name of the stage, as the debug rendering writes it.
    pub open spec fn name(self) -> Seq<char> {
        match self {
            SlotState::Pending => "Pending"@,
            SlotState::Ready => "Ready"@,
            SlotState::Consumed => "Consumed"@,
        }
    }

    /// The name of the stage.
    pub fn as_str(&self) -> (r: &'static str)
        ensures
            r@ == self.name(),
    {
        match self {
            SlotState::Pending => "Pending",
            SlotState::Ready => "Ready",
            SlotState::Consumed => "Consumed",
        }
    }
}

} // verus!
