//! What the repetition mark of a state says of the game before it.

use vstd::prelude::*;
use crate::board::state::StateInfo;
use crate::board::transition;

verus! {

/// The position of `st`, appended to `states`, stood `i` plies before: with the same side to move,
/// since the last irreversible move and the last null move, and by its key.
pub open spec fn stood(states: Seq<StateInfo>, st: StateInfo, i: int) -> bool {
    &&& 4 <= i <= states.len()
    &&& i % 2 == 0
    &&& i <= st.rule50
    &&& i <= st.plies_from_null
    &&& states[states.len() - i].key == st.key
}

proof fn lemma_repeats(states: Seq<StateInfo>, st: StateInfo, i: int)
    requires
        4 <= i,
        i % 2 == 0,
    ensures
        ({
            let r = transition::repeats_from(
                states,
                st.key,
                states.len() as int,
                transition::lesser(st.rule50 as int, st.plies_from_null as int),
                i,
            );
            let d = if r < 0 {
                -r
            } else {
                r
            };
            &&& r == 0 ==> forall|k: int| i <= k ==> !#[trigger] stood(states, st, k)
            &&& r != 0 ==> {
                &&& i <= d
                &&& stood(states, st, d)
                &&& forall|k: int| i <= k < d ==> !#[trigger] stood(states, st, k)
                &&& (r < 0) == (states[states.len() - d].repetition != 0)
            }
        }),
    decreases states.len() - i + 2,
{
    let end = transition::lesser(st.rule50 as int, st.plies_from_null as int);
    if i <= end && states.len() - i >= 0 && states[states.len() - i].key != st.key {
        lemma_repeats(states, st, i + 2);
        assert(!stood(states, st, i));
        assert(!stood(states, st, i + 1));
    }
}

/// A state is marked exactly when its position stood before, with the distance to the last time it
/// did; the mark is negative when that time was a repetition already.
pub proof fn law_marks_tell_the_last_time(states: Seq<StateInfo>, st: StateInfo)
    ensures
        ({
            let r = transition::repetition_of(states, st);
            let d = if r < 0 {
                -r
            } else {
                r
            };
            &&& (r != 0) == exists|k: int| #[trigger] stood(states, st, k)
            &&& r != 0 ==> {
                &&& stood(states, st, d)
                &&& forall|k: int| #[trigger] stood(states, st, k) ==> d <= k
                &&& (r < 0) == (states[states.len() - d].repetition != 0)
            }
        }),
{
    lemma_repeats(states, st, 4);
}

} // verus!
