//! A player at the table: a name and a stack of chips.

use vstd::prelude::*;
use vstd::string::StringExecFns;

verus! {

/// A player at the table.
#[derive(Debug, Clone)]
pub struct Player {
    name: String,
    stack: u32,
}

impl View for Player {
    type V = (Seq<char>, u32);

    /// The name and the stack.
    closed spec fn view(&self) -> (Seq<char>, u32) {
        (self.name@, self.stack)
    }
}

impl Player {
    /// A player called `name` who brings `stack` chips.
    pub fn new(name: &str, stack: u32) -> (player: Player)
        ensures
            player@ == (name@, stack),
    {
        let name = String::from_str(name);
        Player { name, stack }
    }

    /// The player's name.
    pub fn name(&self) -> (name: &str)
        ensures
            name@ == self@.0,
    {
        self.name.as_str()
    }

    /// The chips the player has.
    pub fn stack(&self) -> (stack: u32)
        ensures
            stack == self@.1,
    {
        self.stack
    }
}

} // verus!
