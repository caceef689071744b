use vstd::prelude::*;

verus! {

/// Room depth: the layer of the recursion a room belongs to, from the
/// dance floor at the top down to the metal at the bottom.
#[derive(Debug, Clone, Copy, PartialEq, Eq, Structural, Hash)]
pub enum RoomDepth {
    Floor,
    Board,
    Panel,
    Path,
    Code,
    Metal,
}

/// The position of a depth in the stack, counted from `Floor` (0) to `Metal` (5).
pub open spec fn level(d: RoomDepth) -> nat {
    match d {
        RoomDepth::Floor => 0,
        RoomDepth::Board => 1,
        RoomDepth::Panel => 2,
        RoomDepth::Path => 3,
        RoomDepth::Code => 4,
        RoomDepth::Metal => 5,
    }
}

/// The depth at a given level of the stack, if the level is one of the six.
pub open spec fn depth_at(n: nat) -> Option<RoomDepth> {
    if n == 0 {
        Some(RoomDepth::Floor)
    } else if n == 1 {
        Some(RoomDepth::Board)
    } else if n == 2 {
        Some(RoomDepth::Panel)
    } else if n == 3 {
        Some(RoomDepth::Path)
    } else if n == 4 {
        Some(RoomDepth::Code)
    } else if n == 5 {
        Some(RoomDepth::Metal)
    } else {
        None
    }
}

/// What `deeper` gives for a depth: the next level down, if there is one.
pub open spec fn next_depth(d: RoomDepth) -> Option<RoomDepth> {
    depth_at(level(d) + 1)
}

/// The depth reached after descending `n` times from `d`, or `None` once the
/// bottom has been passed.
pub open spec fn descend(d: RoomDepth, n: nat) -> Option<RoomDepth>
    decreases n,
{
    if n == 0 {
        Some(d)
    } else {
        match next_depth(d) {
            Some(e) => descend(e, (n - 1) as nat),
            None => None,
        }
    }
}

/// Levels and depths correspond one to one: every depth sits at a level
/// below six, and that level names it back.
pub proof fn lemma_level_roundtrip(d: RoomDepth)
    ensures
        level(d) < 6,
        depth_at(level(d)) == Some(d),
{
}

/// Two depths with the same next depth are the same depth: descending never
/// merges two layers.
pub proof fn lemma_deeper_injective(a: RoomDepth, b: RoomDepth)
    requires
        next_depth(a) is Some,
        next_depth(a) == next_depth(b),
    ensures
        a == b,
{
}

/// Descending `n` times from a depth lands `n` levels lower, or nowhere once
/// the count runs past the bottom.
pub proof fn lemma_descend_level(d: RoomDepth, n: nat)
    ensures
        descend(d, n) == depth_at(level(d) + n),
    decreases n,
{
    if n > 0 {
        match next_depth(d) {
            Some(e) => {
                lemma_descend_level(e, (n - 1) as nat);
            },
            None => {},
        }
    }
}

/// The recursion from the dance floor passes every depth once, in order:
/// the `n`-th descent from `Floor` is the depth at level `n`, `Metal` is
/// reached after five steps, and a sixth step ends the chain.
pub proof fn lemma_floor_reaches_every_depth(n: nat)
    ensures
        descend(RoomDepth::Floor, n) == depth_at(n),
        descend(RoomDepth::Floor, 5) == Some(RoomDepth::Metal),
        n >= 6 ==> descend(RoomDepth::Floor, n) is None,
{
    lemma_descend_level(RoomDepth::Floor, n);
    lemma_descend_level(RoomDepth::Floor, 5);
}

impl RoomDepth {
    /// The depth one layer below this one, or `None` at the bottom (`Metal`).
    pub fn deeper(&self) -> (r: Option<RoomDepth>)
        ensures
            r == next_depth(*self),
            r is None <==> *self == RoomDepth::Metal,
            r matches Some(d) ==> level(d) == level(*self) + 1,
    {
        match self {
            RoomDepth::Floor => Some(RoomDepth::Board),
            RoomDepth::Board => Some(RoomDepth::Panel),
            RoomDepth::Panel => Some(RoomDepth::Path),
            RoomDepth::Path => Some(RoomDepth::Code),
            RoomDepth::Code => Some(RoomDepth::Metal),
            RoomDepth::Metal => None,
        }
    }
}

} // verus!
