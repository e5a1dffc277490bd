//! Whose turn it is, and whether the machine is thinking: the rules by which the
//! program around the library starts a search in the background, waits for it without
//! standing still, and takes its move. At most one search is under way at any time.
use vstd::prelude::*;

verus! {

/// The state of play between the human, who is side `1`, and the machine, side `-1`.
#[derive(Clone, Copy, Debug)]
pub struct Turns {
    player: i32,
    thinking: bool,
}

impl Turns {
    /// The side to move.
    pub closed spec fn player(&self) -> int {
        self.player as int
    }

    /// A search is under way.
    pub closed spec fn thinking(&self) -> bool {
        self.thinking
    }

    /// The side to move is one of the two, and a search is under way only while the
    /// machine is to move.
    pub open spec fn wf(&self) -> bool {
        &&& self.player() == 1 || self.player() == -1
        &&& self.thinking() ==> self.player() == -1
    }

    /// The start of a game: the human is to move, no search is under way.
    pub fn new() -> (t: Turns)
        ensures
            t.wf(),
            t.player() == 1,
            !t.thinking(),
    {
        Turns { player: 1, thinking: false }
    }

    /// The side to move.
    pub fn to_move(&self) -> (p: i32)
        ensures
            p == self.player(),
    {
        self.player
    }

    /// Whether a search is under way.
    pub fn is_thinking(&self) -> (b: bool)
        ensures
            b == self.thinking(),
    {
        self.thinking
    }

    /// Whether the human may move or clear the board now.
    pub fn human_may_move(&self) -> (b: bool)
        ensures
            b == (self.player() == 1),
    {
        self.player == 1
    }

    /// Once per frame: whether a search is to be started now. It is if the machine is
    /// to move and no search is under way; the search then counts as under way.
    pub fn frame(&mut self) -> (start: bool)
        requires
            old(self).wf(),
        ensures
            final(self).wf(),
            start == (old(self).player() == -1 && !old(self).thinking()),
            final(self).player() == old(self).player(),
            final(self).thinking() == (old(self).player() == -1),
    {
        if self.player == -1 && !self.thinking {
            self.thinking = true;
            true
        } else {
            false
        }
    }

    /// The search has ended and its move is taken: the human is to move.
    pub fn search_done(&mut self)
        requires
            old(self).wf(),
            old(self).thinking(),
        ensures
            final(self).wf(),
            final(self).player() == 1,
            !final(self).thinking(),
    {
        self.thinking = false;
        self.player = 1;
    }

    /// The human has moved, or has passed: the machine is to move.
    pub fn human_done(&mut self)
        requires
            old(self).wf(),
            old(self).player() == 1,
        ensures
            final(self).wf(),
            final(self).player() == -1,
            !final(self).thinking(),
    {
        self.player = -1;
    }
}

} // verus!
