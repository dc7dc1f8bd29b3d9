use vstd::prelude::*;

use crate::grid::Localization;

verus! {

/// Messages between the coordinator and the agents. The coordinator sends
/// `Tick` and `Collect`; an agent answers a `Tick` with one of the others.
/// An extraction request carries the deposit's id, the quantity asked for and
/// the rate in percent.
#[derive(Clone, Copy, Debug)]
pub enum EventType {
    Tick,
    Moved(Localization),
    Deposit((u16, u16)),
    Collect((u16, u16)),
    Extract(u32, (u16, u16)),
    Nothing,
}

} // verus!
