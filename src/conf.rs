use vstd::prelude::*;

verus! {

/// The identity of an agent: its process id and the loopback port it listens on.
#[derive(Clone, Copy, Debug, PartialEq, Eq, Structural)]
pub struct Child {
    pub pid: u32,
    pub socket: u16,
}

/// The configuration written by the launcher: the agents, in order.
#[derive(Clone, Debug)]
pub struct Conf {
    pub children: Vec<Child>,
}

} // verus!
