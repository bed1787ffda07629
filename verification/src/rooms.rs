use vstd::prelude::*;

verus! {

/// The room a player asking for a room of `capacity` players joins: the first
/// room of that capacity, or `None` when there is none and a new room is opened.
pub fn choose_room(capacities: &Vec<u8>, capacity: u8) -> (r: Option<usize>)
    ensures
        match r {
            Some(i) => i < capacities@.len() && capacities@[i as int] == capacity && forall|k: int|
                0 <= k < i ==> capacities@[k] != capacity,
            None => forall|k: int| 0 <= k < capacities@.len() ==> capacities@[k] != capacity,
        },
{
    let mut i: usize = 0;
    while i < capacities.len()
        invariant
            i <= capacities@.len(),
            forall|k: int| 0 <= k < i ==> capacities@[k] != capacity,
        decreases capacities@.len() - i,
    {
        if capacities[i] == capacity {
            return Some(i);
        }
        i = i + 1;
    }
    None
}

/// Where a player asking for a room of `capacity` players goes, given the
/// capacities of the open rooms: the index of the first room of that capacity,
/// or, when there is none, the index a new room takes at the end of the list,
/// with `true` to say that the room must be opened.
pub fn room_slot(capacities: &Vec<u8>, capacity: u8) -> (r: (usize, bool))
    ensures
        r.1 <==> forall|k: int| 0 <= k < capacities@.len() ==> capacities@[k] != capacity,
        r.1 ==> r.0 == capacities@.len(),
        !r.1 ==> r.0 < capacities@.len() && capacities@[r.0 as int] == capacity && forall|k: int|
            0 <= k < r.0 ==> capacities@[k] != capacity,
{
    match choose_room(capacities, capacity) {
        Some(i) => (i, false),
        None => (capacities.len(), true),
    }
}

/// A room of `capacity` players is complete, and its game can start, when it
/// holds exactly that many players. A count above 255 cannot be compared with a
/// capacity and is not accepted.
pub fn room_is_full(capacity: u8, players: usize) -> (r: bool)
    requires
        players <= 255,
    ensures
        r == (capacity == players),
{
    capacity == players as u8
}

} // verus!
