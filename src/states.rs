use vstd::prelude::*;

verus! {

/// The first state of a chain of five.
#[derive(Debug, PartialEq, Eq, Structural)]
pub struct Start;

/// The state after `Start`.
#[derive(Debug, PartialEq, Eq, Structural)]
pub struct State1;

/// The state after `State1`.
#[derive(Debug, PartialEq, Eq, Structural)]
pub struct State2;

/// The state after `State2`.
#[derive(Debug, PartialEq, Eq, Structural)]
pub struct State3;

/// The last state, after `State3`.
#[derive(Debug, PartialEq, Eq, Structural)]
pub struct End;

impl Default for Start {
    fn default() -> (r: Self)
        ensures
            r == Start,
    {
        Start
    }
}

/// A state of the chain.
pub trait MachineState {}

impl MachineState for Start {}

impl MachineState for State1 {}

impl MachineState for State2 {}

impl MachineState for State3 {}

impl MachineState for End {}

/// A state that moves on to exactly one other state, fixed by its type.
pub trait HasNextState {
    type Next: MachineState;

    fn next_state(self) -> Self::Next;
}

impl HasNextState for Start {
    type Next = State1;

    fn next_state(self) -> State1 {
        State1
    }
}

impl HasNextState for State1 {
    type Next = State2;

    fn next_state(self) -> State2 {
        State2
    }
}

impl HasNextState for State2 {
    type Next = State3;

    fn next_state(self) -> State3 {
        State3
    }
}

impl HasNextState for State3 {
    type Next = End;

    fn next_state(self) -> End {
        End
    }
}

} // verus!
