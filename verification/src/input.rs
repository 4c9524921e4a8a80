//! The program's small decisions on input and time: when the secret key
//! pushes its message, and when the animation moves to its next frame.

use vstd::prelude::*;

verus! {

/// The time that must pass between two pushes of the secret message: 220 ms.
pub const MACRO_DEBOUNCE_NANOS: u128 = 220_000_000;

/// The secret key is pressed (`pressed`) or released, while it was `down`
/// and the last push was `since_last_push` nanoseconds ago (`None`: never).
/// Returns whether the key is down afterwards and whether to push the
/// message: only a fresh press pushes, and only once 220 ms have passed
/// since the last push.
pub fn macro_key_step(down: bool, pressed: bool, since_last_push: Option<u128>) -> (r: (bool, bool))
    ensures
        r == (if pressed {
            (true, !down && match since_last_push {
                Some(n) => n >= MACRO_DEBOUNCE_NANOS,
                None => true,
            })
        } else {
            (false, false)
        }),
{
    if !pressed {
        return (false, false);
    }
    if down {
        return (true, false);
    }
    let can_push = match since_last_push {
        Some(n) => n >= MACRO_DEBOUNCE_NANOS,
        None => true,
    };
    (true, can_push)
}

/// The frame to show next when the current one's time is `due`: the
/// following frame, wrapping round after the last, for an animation of
/// more than one frame; `None` (stay) otherwise.
pub fn next_frame(current: usize, count: usize, due: bool) -> (r: Option<usize>)
    requires
        count > 1 && due ==> current < usize::MAX,
    ensures
        r == (if count > 1 && due {
            Some(((current + 1) % (count as int)) as usize)
        } else {
            None
        }),
{
    if count > 1 && due {
        Some((current + 1) % count)
    } else {
        None
    }
}

} // verus!
