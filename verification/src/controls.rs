//! Simulation speed presets offered by the dish controls.

use vstd::prelude::*;

verus! {

/// Label of a speed preset; an unknown speed reads as `1×`.
pub open spec fn speed_text(speed: u32) -> Seq<char> {
    if speed == 1 { "1×"@ }
    else if speed == 2 { "2×"@ }
    else if speed == 4 { "4×"@ }
    else if speed == 6 { "6×"@ }
    else if speed == 8 { "8×"@ }
    else if speed == 10 { "10×"@ }
    else if speed == 20 { "20×"@ }
    else if speed == 50 { "50×"@ }
    else if speed == 100 { "100×"@ }
    else { "1×"@ }
}

/// Label shown for a speed multiplier.
pub fn speed_label(speed: u32) -> (s: &'static str)
    ensures
        s@ == speed_text(speed),
{
    match speed {
        1 => "1×",
        2 => "2×",
        4 => "4×",
        6 => "6×",
        8 => "8×",
        10 => "10×",
        20 => "20×",
        50 => "50×",
        100 => "100×",
        _ => "1×",
    }
}

} // verus!
