//! Design tokens that carry a decision: which of the two grounds the
//! interface is drawn on.
use vstd::prelude::*;

verus! {

/// The two grounds: dark is the default.
#[derive(Clone, Copy, PartialEq, Eq, Debug, Structural)]
pub enum Mode {
    Dark,
    Light,
}

/// The ground for a stored preference: light only when light was chosen.
pub fn mode_for(prefer_light: Option<bool>) -> (r: Mode)
    ensures
        r == (if prefer_light == Some(true) { Mode::Light } else { Mode::Dark }),
{
    match prefer_light {
        Some(true) => Mode::Light,
        Some(false) => Mode::Dark,
        None => Mode::Dark,
    }
}

} // verus!
