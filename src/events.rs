//! Matching of editing intents against input conditions. Each intent is
//! bound to a disjunction of groups, each group a conjunction of primitive
//! conditions; the caller evaluates the primitives for the current frame.
use vstd::prelude::*;

verus! {

/// How a key or button condition is triggered.
#[derive(Debug, Clone, Copy, PartialEq, Eq, Hash, Structural)]
pub enum EventS {
    /// Edge: pressed during this frame.
    JustPressed,
    /// Level: held down.
    IsDown,
    /// Edge: released during this frame.
    JustReleased,
}

/// Pointer buttons, with the wheel directions as edge-triggered
/// pseudo-buttons.
#[derive(Debug, Clone, Copy, PartialEq, Eq, Hash, Structural)]
pub enum MouseButton2 {
    LeftClick,
    RightClick,
    MiddleClick,
    WheelUp,
    WheelDown,
}

/// Every condition of the group holds.
pub open spec fn group_holds(g: Seq<bool>) -> bool {
    forall|c: int| 0 <= c < g.len() ==> #[trigger] g[c]
}

/// The first group whose conditions all hold, if any; an intent fires
/// exactly when there is one.
pub fn first_satisfied(groups: &Vec<Vec<bool>>) -> (r: Option<usize>)
    ensures
        match r {
            Some(i) => i < groups@.len() && group_holds(groups@[i as int]@) && forall|j: int|
                0 <= j < i ==> !group_holds(#[trigger] groups@[j]@),
            None => forall|j: int| 0 <= j < groups@.len() ==> !group_holds(#[trigger] groups@[j]@),
        },
{
    let mut i: usize = 0;
    while i < groups.len()
        invariant
            i <= groups@.len(),
            forall|j: int| 0 <= j < i ==> !group_holds(#[trigger] groups@[j]@),
        decreases groups@.len() - i,
    {
        let g = &groups[i];
        let mut c: usize = 0;
        let mut all = true;
        while c < g.len()
            invariant
                c <= g@.len(),
                all == forall|k: int| 0 <= k < c ==> #[trigger] g@[k],
            decreases g@.len() - c,
        {
            if !g[c] {
                all = false;
            }
            c = c + 1;
        }
        if all {
            return Some(i);
        }
        i = i + 1;
    }
    None
}

} // verus!
