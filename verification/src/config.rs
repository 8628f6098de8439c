//! The settings that have fixed defaults without floating point.

use vstd::prelude::*;

use crate::text::{chars_to_string, push_str};

verus! {

/// The model asked when the settings name none.
pub fn default_model() -> (r: String)
    ensures
        r@ == "gpt-4o-mini"@,
{
    let mut out: Vec<char> = Vec::new();
    push_str(&mut out, "gpt-4o-mini");
    chars_to_string(out.as_slice())
}

/// The number of reviews allowed per day when the settings name none.
pub fn default_daily_limit() -> (r: i32)
    ensures
        r == 50,
{
    50
}

} // verus!
