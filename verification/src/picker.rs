//! The dial of the hour picker: 24 buttons, hours 0 to 11 on the outer ring and
//! 12 to 23 on the inner one, 30 degrees apart.
use vstd::prelude::*;
use crate::text::{decimal, push_decimal, string_from_chars};

verus! {

/// The label of the button for `hour`: "00" for midnight, the plain number otherwise.
pub fn dial_label(hour: u32) -> (s: String)
    ensures
        s@ == (if hour == 0 { seq!['0', '0'] } else { decimal(hour as nat) }),
{
    let mut out: Vec<char> = Vec::new();
    if hour == 0 {
        out.push('0');
        out.push('0');
    } else {
        push_decimal(&mut out, hour as u128);
    }
    proof {
        if hour == 0 {
            assert(out@ =~= seq!['0', '0']);
        } else {
            assert(out@ =~= decimal(hour as nat));
        }
    }
    string_from_chars(&out)
}

/// The button for `hour` sits on the outer ring.
pub fn on_outer_ring(hour: u32) -> (b: bool)
    ensures
        b == (hour < 12),
{
    hour < 12
}

/// The angle of the button for `hour`, in degrees clockwise from the top.
pub fn dial_bearing_degrees(hour: u32) -> (d: u32)
    requires
        hour < 24,
    ensures
        d == (hour % 12) * 30,
{
    (hour % 12) * 30
}

/// The button for `hour` is disabled when the picked date is today and the hour
/// is still to come.
pub fn hour_disabled(picked_is_today: bool, hour: u32, current_hour: u32) -> (b: bool)
    ensures
        b == (picked_is_today && hour > current_hour),
{
    picked_is_today && hour > current_hour
}

/// The button for `hour` is shown selected when the picked date is the chosen one
/// and the hour is the chosen hour.
pub fn hour_selected(picked_is_chosen_date: bool, hour: u32, chosen_hour: u32) -> (b: bool)
    ensures
        b == (picked_is_chosen_date && hour == chosen_hour),
{
    picked_is_chosen_date && hour == chosen_hour
}

} // verus!
