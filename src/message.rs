use vstd::prelude::*;

verus! {

/// A calendar day in the viewer's local time.
#[derive(Clone, Copy, Debug, PartialEq, Eq, Structural)]
pub struct Day {
    pub year: i32,
    pub month: i32,
    pub day: i32,
}

/// What the index knows of a chat message: its id (larger is more recent),
/// the album it was sent in (0 for none) and the local day it was sent on.
#[derive(Clone, Copy, Debug, PartialEq, Eq, Structural)]
pub struct Message {
    pub id: i64,
    pub album_id: i64,
    pub day: Day,
}

impl Message {
    pub fn new(id: i64, album_id: i64, day: Day) -> (r: Message)
        ensures
            r.id == id,
            r.album_id == album_id,
            r.day == day,
    {
        Message { id, album_id, day }
    }
}

} // verus!
