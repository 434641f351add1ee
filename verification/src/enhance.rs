//! Enhance: the confirm modal's decisions — which handle a drag moves, what
//! the panel reports, what exact entry accepts, and how the 256 luminance
//! bins are gathered into the bars the histogram draws.
use vstd::prelude::*;
use crate::model::{EffectMode, EffectSpec};
use crate::raster::bin_sum;
use crate::text::{chars_of, is_digit, string_of};

verus! {

/// Which handle a drag is moving.
#[derive(Debug, Clone, Copy, PartialEq, Eq, Structural)]
pub enum Handle {
    Black,
    Gamma,
    White,
    Angle,
}

/// What the modal asks for.
#[derive(Debug, Clone, PartialEq)]
pub enum EnhanceEvent {
    /// The spec changed: recompute the proxy.
    SpecChanged(EffectSpec),
    Cancel,
    Confirm,
}

/// What one frame of the panel reports. A change always wins, because it is
/// what gets written, even when the same frame confirmed or cancelled;
/// otherwise Confirm, unless a full-resolution write is running, then
/// Cancel.
pub fn panel_outcome(next: EffectSpec, changed: bool, cancel_clicked: bool, confirm_clicked: bool, writing: bool) -> (r: Option<EnhanceEvent>)
    ensures
        r == (if changed {
            Some(EnhanceEvent::SpecChanged(next))
        } else if confirm_clicked && !writing {
            Some(EnhanceEvent::Confirm)
        } else if cancel_clicked {
            Some(EnhanceEvent::Cancel)
        } else {
            None
        }),
{
    if changed {
        Some(EnhanceEvent::SpecChanged(next))
    } else if confirm_clicked && !writing {
        Some(EnhanceEvent::Confirm)
    } else if cancel_clicked {
        Some(EnhanceEvent::Cancel)
    } else {
        None
    }
}

/// Touching a levels handle means working on levels: the spec is switched
/// to them rather than silently editing a mode that is not selected.
pub fn levels_touched(spec: EffectSpec) -> (r: EffectSpec)
    ensures
        r == (EffectSpec { mode: EffectMode::Levels, ..spec }),
{
    EffectSpec { mode: EffectMode::Levels, ..spec }
}

/// One press of a rotation button: `delta` more quarter turns, or `None`
/// where the count would leave its range.
pub fn quarter_turned(spec: EffectSpec, delta: i32) -> (r: Option<EffectSpec>)
    ensures
        r == (if i32::MIN <= spec.quarter_turns + delta <= i32::MAX {
            Some(EffectSpec { quarter_turns: (spec.quarter_turns + delta) as i32, ..spec })
        } else {
            None
        }),
{
    match spec.quarter_turns.checked_add(delta) {
        Some(t) => Some(EffectSpec { quarter_turns: t, ..spec }),
        None => None,
    }
}

/// A character exact entry accepts: a digit or a decimal point.
pub open spec fn accepted(c: char) -> bool {
    is_digit(c) || c == '.'
}

/// The characters of `text` that exact entry accepts, in order.
pub open spec fn accepted_chars(text: Seq<char>) -> Seq<char>
    decreases text.len(),
{
    if text.len() == 0 {
        text
    } else if accepted(text.last()) {
        accepted_chars(text.drop_last()).push(text.last())
    } else {
        accepted_chars(text.drop_last())
    }
}

/// Append what was typed to the entry buffer, keeping digits and points.
pub fn type_into(buffer: &mut String, text: &str)
    ensures
        final(buffer)@ == old(buffer)@ + accepted_chars(text@),
{
    let typed = chars_of(text);
    let mut out = chars_of(buffer.as_str());
    let mut i: usize = 0;
    while i < typed.len()
        invariant
            0 <= i <= typed@.len(),
            typed@ == text@,
            out@ == old(buffer)@ + accepted_chars(typed@.subrange(0, i as int)),
        decreases typed@.len() - i,
    {
        assert(typed@.subrange(0, i + 1).drop_last() =~= typed@.subrange(0, i as int));
        let c = typed[i];
        if ('0' <= c && c <= '9') || c == '.' {
            out.push(c);
        }
        i += 1;
        assert(out@ =~= old(buffer)@ + accepted_chars(typed@.subrange(0, i as int)));
    }
    assert(typed@.subrange(0, typed@.len() as int) =~= typed@);
    *buffer = string_of(&out);
}

/// Backspace in the entry buffer: the last character goes, if any.
pub fn erase_last(buffer: &mut String)
    ensures
        final(buffer)@ == (if old(buffer)@.len() > 0 { old(buffer)@.drop_last() } else { old(buffer)@ }),
{
    let mut cs = chars_of(buffer.as_str());
    if cs.len() > 0 {
        cs.pop();
    }
    *buffer = string_of(&cs);
}

// ---------------------------------------------------------------------------
// Histogram bars
// ---------------------------------------------------------------------------

/// Bars drawn across the 256 luminance bins.
pub const BARS: usize = 56;

/// The first bin of bar `i`: the bins are shared out as evenly as they go,
/// the first `256 % BARS` bars taking one more.
pub open spec fn bar_start(i: int) -> int {
    i * 4 + if i < 32 { i } else { 32 }
}

/// The bins of each bar, `(sum, width)`: every bin is counted in exactly
/// one bar.
pub fn bar_sums(bins: &Vec<u32>) -> (r: Vec<(u64, usize)>)
    requires
        bins@.len() == 256,
    ensures
        r@.len() == BARS,
        forall|i: int| 0 <= i < BARS ==> (#[trigger] r@[i]).1 == bar_start(i + 1) - bar_start(i)
            && r@[i].0 == bin_sum(bins@, bar_start(i), bar_start(i + 1)),
{
    let mut out: Vec<(u64, usize)> = Vec::new();
    let mut start: usize = 0;
    let mut i: usize = 0;
    while i < BARS
        invariant
            0 <= i <= BARS,
            bins@.len() == 256,
            start == bar_start(i as int),
            out@.len() == i,
            forall|k: int| 0 <= k < i ==> (#[trigger] out@[k]).1 == bar_start(k + 1) - bar_start(k)
                && out@[k].0 == bin_sum(bins@, bar_start(k), bar_start(k + 1)),
        decreases BARS - i,
    {
        let width: usize = if i < 32 { 5 } else { 4 };
        let end = start + width;
        let mut sum: u64 = 0;
        let mut b: usize = start;
        while b < end
            invariant
                start <= b <= end,
                end == bar_start(i + 1),
                end <= 256,
                bins@.len() == 256,
                sum == bin_sum(bins@, start as int, b as int),
                sum <= (b - start) * 0xffff_ffff,
            decreases end - b,
        {
            sum = sum + bins[b] as u64;
            b += 1;
        }
        out.push((sum, width));
        start = end;
        i += 1;
    }
    out
}

/// The bars partition the bins: the first starts at bin 0, the last ends at
/// bin 256, and every bar holds four or five bins.
pub proof fn lemma_every_bin_is_counted_exactly_once()
    ensures
        bar_start(0) == 0,
        bar_start(BARS as int) == 256,
        forall|i: int| 0 <= i < BARS ==> 4 <= #[trigger] bar_start(i + 1) - bar_start(i) <= 5,
{
}

} // verus!
