use vstd::prelude::*;
use crate::vector::Vector3i;

verus! {

/// A player, as the world sees it: a name and the block the player is in.
///
/// `pos` is the player's position rounded toward zero on each axis.
#[derive(Clone, Debug)]
pub struct Player {
    pub pos: Vector3i,
    pub name: Option<String>,
}

impl Player {
    pub fn get_name(&self) -> (r: &Option<String>)
        ensures
            *r == self.name,
    {
        &self.name
    }

    pub fn set_name(&mut self, new_name: Option<String>)
        ensures
            final(self).name == new_name,
            final(self).pos == old(self).pos,
    {
        self.name = new_name;
    }

    pub fn new(name: Option<String>, position: Vector3i) -> (p: Self)
        ensures
            p.name == name,
            p.pos == position,
    {
        Self { name: name, pos: position }
    }
}

} // verus!
