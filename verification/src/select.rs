//! Select: where keepers go, and what the written copy is called.
//!
//! Two invariants, enforced here rather than trusted: copies only, never
//! moves, and originals are never touched. A destination that resolves to
//! the working folder itself is refused, and a name already taken gets a
//! counter rather than being overwritten.
use vstd::prelude::*;
use crate::clock::{is_date_stamp, today_stamp};
use crate::model::{Destination, EffectMode, EffectSpec, resolved, suffix_of};
use crate::pathname::{same_path, same_path_str};
use crate::text::{decimal, push_decimal, push_str, string_of};

verus! {

/// What the destination surfaces ask the composition root to do.
#[derive(Debug, Clone, PartialEq)]
pub enum SelectEvent {
    SetDestination(Destination),
    BrowseForDestination,
    ToggleMenu,
    CloseMenu,
}

/// The destination menu's own state.
pub struct SelectState {
    pub menu_open: bool,
    /// Highlighted row while the menu is driven from the keyboard.
    pub index: usize,
    /// Set on the frame the menu opens, so the click that opened it is not
    /// also read as a click outside it.
    pub just_opened: bool,
    /// Plain-text refusal shown in the status bar.
    pub notice: Option<String>,
}

impl Default for SelectState {
    fn default() -> (r: SelectState)
        ensures
            !r.menu_open && r.index == 0 && !r.just_opened && r.notice is None,
    {
        SelectState { menu_open: false, index: 0, just_opened: false, notice: None }
    }
}

/// One frame of input to the open destination menu.
#[derive(Clone, Copy, Debug)]
pub struct MenuInput {
    /// The row clicked, if any.
    pub clicked_row: Option<usize>,
    /// The "choose another folder" footer was clicked.
    pub browse_clicked: bool,
    pub down: bool,
    pub up: bool,
    pub escape: bool,
    pub enter: bool,
    /// A click landed outside the menu.
    pub click_outside: bool,
}

/// The highlighted row after one frame of keys, for a list of `len` rows.
pub open spec fn stepped_index(index: int, len: int, down: bool, up: bool) -> int {
    let top = if len > 0 { len - 1 } else { 0 };
    let i0 = if index < top { index } else { top };
    let i1 = if down { if i0 + 1 < top { i0 + 1 } else { top } } else { i0 };
    if up { if i1 > 0 { i1 - 1 } else { 0 } } else { i1 }
}

/// What one frame of input asks of the open menu; later inputs win over
/// earlier ones, and a click outside counts only when nothing else was
/// asked and the menu did not open this frame.
pub open spec fn menu_choice(opts: Seq<Destination>, input: MenuInput, index: int, just_opened: bool) -> Option<SelectEvent> {
    if input.enter && index < opts.len() {
        Some(SelectEvent::SetDestination(opts[index]))
    } else if input.escape {
        Some(SelectEvent::CloseMenu)
    } else if input.browse_clicked {
        Some(SelectEvent::BrowseForDestination)
    } else if input.clicked_row matches Some(i) && i < opts.len() {
        Some(SelectEvent::SetDestination(opts[input.clicked_row->0 as int]))
    } else if !just_opened && input.click_outside {
        Some(SelectEvent::CloseMenu)
    } else {
        None
    }
}

impl SelectState {
    pub fn open(&mut self)
        ensures
            final(self).menu_open,
            final(self).just_opened,
            final(self).index == 0,
            final(self).notice == old(self).notice,
    {
        self.menu_open = true;
        self.just_opened = true;
        self.index = 0;
    }

    /// React to one frame of input while the menu is shown over `opts`.
    pub fn menu_step(&mut self, opts: &Vec<Destination>, input: MenuInput) -> (r: Option<SelectEvent>)
        ensures
            !old(self).menu_open ==> r is None && *final(self) == *old(self),
            old(self).menu_open ==> {
                &&& final(self).index == stepped_index(old(self).index as int, opts@.len() as int, input.down, input.up)
                &&& r == menu_choice(opts@, input, final(self).index as int, old(self).just_opened)
                &&& final(self).menu_open
                &&& !final(self).just_opened
                &&& final(self).notice == old(self).notice
            },
    {
        if !self.menu_open {
            return None;
        }
        let len = opts.len();
        let top = if len > 0 { len - 1 } else { 0 };
        if self.index > top {
            self.index = top;
        }
        let mut event: Option<SelectEvent> = None;
        match input.clicked_row {
            Some(i) => {
                if i < len {
                    event = Some(SelectEvent::SetDestination(opts[i].clone()));
                }
            },
            None => {},
        }
        if input.browse_clicked {
            event = Some(SelectEvent::BrowseForDestination);
        }
        if input.down {
            self.index = if self.index + 1 < top { self.index + 1 } else { top };
        }
        if input.up {
            self.index = if self.index > 0 { self.index - 1 } else { 0 };
        }
        if input.escape {
            event = Some(SelectEvent::CloseMenu);
        }
        if input.enter && self.index < len {
            event = Some(SelectEvent::SetDestination(opts[self.index].clone()));
        }
        if event.is_none() && !self.just_opened && input.click_outside {
            event = Some(SelectEvent::CloseMenu);
        }
        self.just_opened = false;
        event
    }
}

// ---------------------------------------------------------------------------
// The choices on offer
// ---------------------------------------------------------------------------

/// The destinations on offer with the dated subfolder named `date`.
pub fn options_dated(remembered: &Vec<String>, date: String) -> (r: Vec<Destination>)
    ensures
        r@.len() == remembered@.len() + 2,
        r@[0] matches Destination::InWorkingFolder(n) && n@ == "selection"@,
        forall|i: int| 0 <= i < remembered@.len() ==> #[trigger] r@[i + 1] == Destination::Absolute(remembered@[i]),
        r@.last() matches Destination::Dated { root, date: d } && root@ == "selection"@ && d == date,
{
    let mut out: Vec<Destination> = Vec::new();
    out.push(Destination::InWorkingFolder("selection".to_owned()));
    let mut i: usize = 0;
    while i < remembered.len()
        invariant
            0 <= i <= remembered@.len(),
            out@.len() == i + 1,
            out@[0] matches Destination::InWorkingFolder(n) && n@ == "selection"@,
            forall|k: int| 0 <= k < i ==> #[trigger] out@[k + 1] == Destination::Absolute(remembered@[k]),
        decreases remembered@.len() - i,
    {
        out.push(Destination::Absolute(remembered[i].clone()));
        i += 1;
    }
    out.push(Destination::Dated { root: "selection".to_owned(), date });
    out
}

/// The destinations on offer today: the default first, then every
/// remembered absolute folder, then `selection/<today>`.
pub fn options(remembered: &Vec<String>) -> (r: Vec<Destination>)
    ensures
        r@.len() == remembered@.len() + 2,
        r@[0] matches Destination::InWorkingFolder(n) && n@ == "selection"@,
        forall|i: int| 0 <= i < remembered@.len() ==> #[trigger] r@[i + 1] == Destination::Absolute(remembered@[i]),
        r@.last() matches Destination::Dated { root, date } && root@ == "selection"@
            && exists|days: u64| days <= u64::MAX / 86_400 && #[trigger] is_date_stamp(days as int, date@),
{
    let date = today_stamp();
    options_dated(remembered, date)
}

// ---------------------------------------------------------------------------
// Refusing a destination
// ---------------------------------------------------------------------------

/// The refusal for a destination that is the working folder itself.
pub open spec fn culled_folder_refusal() -> Seq<char> {
    "that folder is the one being culled — pick another"@
}

/// The folder a destination names, unless it is the working folder itself:
/// the tool would then re-read its own output on the next scan.
pub fn check_destination(destination: &Destination, working: &str) -> (r: Result<String, String>)
    ensures
        match r {
            Ok(dir) => dir@ == resolved(*destination, working@) && !same_path(dir@, working@),
            Err(message) => same_path(resolved(*destination, working@), working@)
                && message@ == culled_folder_refusal(),
        },
{
    let dir = destination.resolve(working);
    if same_path_str(dir.as_str(), working) {
        return Err("that folder is the one being culled — pick another".to_owned());
    }
    Ok(dir)
}

// ---------------------------------------------------------------------------
// Naming the copy
// ---------------------------------------------------------------------------

/// The file name for a kept copy: the stem, the effect's suffix, a `_n`
/// counter from the second candidate on, and the extension.
pub open spec fn output_name_text(stem: Seq<char>, mode: EffectMode, extension: Seq<char>, counter: nat) -> Seq<char> {
    if counter <= 1 {
        stem + suffix_of(mode) + "."@ + extension
    } else {
        stem + suffix_of(mode) + "_"@ + decimal(counter) + "."@ + extension
    }
}

/// The file name of candidate `counter` (1 for the plain name).
pub fn output_name(stem: &str, mode: EffectMode, extension: &str, counter: u32) -> (r: String)
    ensures
        r@ == output_name_text(stem@, mode, extension@, counter as nat),
{
    let mut out: Vec<char> = Vec::new();
    push_str(&mut out, stem);
    push_str(&mut out, mode.suffix());
    if counter > 1 {
        push_str(&mut out, "_");
        push_decimal(&mut out, counter as u64);
    }
    push_str(&mut out, ".");
    push_str(&mut out, extension);
    assert(out@ =~= output_name_text(stem@, mode, extension@, counter as nat));
    string_of(&out)
}

/// The highest counter tried before a taken name is used anyway.
pub const MAX_COUNTER: u32 = 100;

/// After learning whether candidate `counter` is taken: `None` to use it,
/// or the next counter to try. A free name is used; a taken plain name
/// moves to `_2`; then up the counters to `MAX_COUNTER`.
pub open spec fn counter_after(counter: u32, taken: bool) -> Option<u32> {
    if !taken {
        None
    } else if counter <= 1 {
        Some(2u32)
    } else if counter < MAX_COUNTER {
        Some((counter + 1) as u32)
    } else {
        None
    }
}

/// The next candidate to try, or `None` to use candidate `counter`.
pub fn next_counter(counter: u32, taken: bool) -> (r: Option<u32>)
    ensures
        r == counter_after(counter, taken),
{
    if !taken {
        None
    } else if counter <= 1 {
        Some(2)
    } else if counter < MAX_COUNTER {
        Some(counter + 1)
    } else {
        None
    }
}

/// The counter walk from the plain name only climbs, never passes
/// `MAX_COUNTER`, and stops at the first free name.
pub proof fn lemma_counter_walk_is_bounded(counter: u32, taken: bool)
    requires
        1 <= counter <= MAX_COUNTER,
    ensures
        !taken ==> counter_after(counter, taken) is None,
        counter_after(counter, taken) matches Some(next) ==> counter < next <= MAX_COUNTER,
{
}

/// A taken name is never written over: from the plain name, each taken
/// candidate moves to the very next counter, so candidates 1, 2, 3, ... are
/// tried in turn and none is skipped or reused, up to `MAX_COUNTER`; only a
/// free name, or the last counter, is used.
pub proof fn lemma_taken_names_are_tried_one_by_one(counter: u32)
    ensures
        1 <= counter < MAX_COUNTER ==> counter_after(counter, true) == Some((counter + 1) as u32),
        counter == MAX_COUNTER ==> counter_after(counter, true) is None,
        counter_after(counter, false) is None,
{
}

// ---------------------------------------------------------------------------
// The write path's messages
// ---------------------------------------------------------------------------

/// One frame to write.
pub struct WriteJob {
    pub source: String,
    pub destination_dir: String,
    pub stem: String,
    pub extension: String,
    pub spec: EffectSpec,
    /// Identifies the frame so it can be marked kept when this lands.
    pub frame_id: String,
}

/// How a write ended.
#[derive(Debug, Clone)]
pub struct WriteOutcome {
    pub frame_id: String,
    pub written: Option<String>,
    /// Set when the name collided and a counter was appended.
    pub renamed: bool,
    pub error: Option<String>,
}

} // verus!
