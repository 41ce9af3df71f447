//! The event vocabulary of the higher-level state machine.

use vstd::prelude::*;

verus! {

/// The reply to a processed event.
pub struct EventOutCommand {}

/// A transfer settled on the second layer.
pub struct L2TransferEvent {}

/// A withdrawal settled on the second layer.
pub struct L2WithdrawEvent {}

/// An order submitted for matching.
pub struct OrderSubmit {}

/// An event the state machine reacts to.
pub enum StateEvent {
    L2Transfer(L2TransferEvent),
    L2Withdraw(L2WithdrawEvent),
    Order(OrderSubmit),
}

} // verus!
