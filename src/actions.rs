//! What a packet asks its player to do: a movement direction and a fire flag.

use vstd::prelude::*;
use crate::codec::{has_flag, INPUT_DOWN, INPUT_FIRE, INPUT_LEFT, INPUT_RIGHT, INPUT_UP};

verus! {

pub open spec fn flag_value(input: u32, flag: u32) -> int {
    if has_flag(input, flag) {
        1
    } else {
        0
    }
}

/// The movement direction a flag word asks for: right minus left on the
/// horizontal axis, up minus down on the vertical one. Opposing flags cancel.
pub open spec fn direction_of(input: u32) -> (int, int) {
    (
        flag_value(input, INPUT_RIGHT) - flag_value(input, INPUT_LEFT),
        flag_value(input, INPUT_UP) - flag_value(input, INPUT_DOWN),
    )
}

/// The movement direction of a flag word, each component in -1..=1.
pub fn direction(input: u32) -> (r: (i64, i64))
    ensures
        r.0 == direction_of(input).0,
        r.1 == direction_of(input).1,
        has_flag(input, INPUT_LEFT) && has_flag(input, INPUT_RIGHT) ==> r.0 == 0,
        has_flag(input, INPUT_UP) && has_flag(input, INPUT_DOWN) ==> r.1 == 0,
{
    let mut x: i64 = 0;
    let mut y: i64 = 0;
    if input & INPUT_UP != 0 {
        y = y + 1;
    }
    if input & INPUT_DOWN != 0 {
        y = y - 1;
    }
    if input & INPUT_RIGHT != 0 {
        x = x + 1;
    }
    if input & INPUT_LEFT != 0 {
        x = x - 1;
    }
    (x, y)
}

/// Whether the fire flag is set.
pub fn has_fired(input: u32) -> (r: bool)
    ensures
        r == has_flag(input, INPUT_FIRE),
{
    input & INPUT_FIRE != 0
}

} // verus!
