//! Tower heights: how tall the tower of a new node is.

use vstd::prelude::*;

verus! {

/// The height of the head's tower, and the greatest height a node can have.
pub const MAX_LEVEL: usize = 20;

/// Draws one machine word from `rand::random`, the thread-local generator of
/// the `rand` crate. Nothing is claimed of the word: every value can come
/// back, and two calls may differ. On a thread's first draw the generator
/// seeds itself from the operating system, and it stops the program if that
/// source cannot be had.
#[verifier::external_body]
fn random_word() -> (w: usize) {
    rand::random::<usize>()
}

/// Whether a drawn word counts as heads: its lowest bit is clear.
pub open spec fn is_heads(w: usize) -> bool {
    w % 2 == 0
}

/// The height after one more coin flip, given the height so far: one more
/// on heads below the cap, the same height otherwise.
pub open spec fn climb(level: usize, w: usize) -> usize {
    if level < MAX_LEVEL && is_heads(w) {
        (level + 1) as usize
    } else {
        level
    }
}

/// One step of the height draw on a word `w` that was drawn for it.
/// Returns the new height and whether the draw goes on.
pub fn next_level(level: usize, w: usize) -> (r: (usize, bool))
    ensures
        r.0 == climb(level, w),
        r.1 == (level < MAX_LEVEL && is_heads(w)),
        1 <= level <= MAX_LEVEL ==> 1 <= r.0 <= MAX_LEVEL,
{
    if level < MAX_LEVEL && w % 2 == 0 {
        (level + 1, true)
    } else {
        (level, false)
    }
}

/// Draws a tower height: starts at 1 and grows by one for each fair coin
/// that shows heads, until tails or until the height is `MAX_LEVEL`.
/// Whatever the coins show, the height lies in `1..=MAX_LEVEL`.
pub fn rand_lvl() -> (level: usize)
    ensures
        1 <= level <= MAX_LEVEL,
{
    let mut level: usize = 1;
    let mut flipping: bool = true;
    while flipping && level < MAX_LEVEL
        invariant
            1 <= level <= MAX_LEVEL,
        decreases MAX_LEVEL - level + if flipping { 1int } else { 0int },
    {
        let w: usize = random_word();
        let step = next_level(level, w);
        level = step.0;
        flipping = step.1;
    }
    level
}

} // verus!
