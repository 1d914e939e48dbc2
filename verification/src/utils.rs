//! Text for optional prices.
use crate::decimal::{decimal_format_5, decimal_text_5, Dec};
use vstd::prelude::*;

verus! {

/// A price with five decimals, or `n/a`.
pub fn fmt_opt(v: Option<&Dec>) -> (r: String)
    requires
        v matches Some(d) ==> d.valid() && d.fits_text_5(),
    ensures
        v matches Some(d) ==> r@ == decimal_text_5(d@),
        v is None ==> r@ == "n/a"@,
{
    match v {
        Some(d) => decimal_format_5(d),
        None => String::from_str("n/a"),
    }
}

} // verus!
