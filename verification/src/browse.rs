//! Browse: which frames you are looking at and where you are in them — the
//! folder picker's recent list, the folder switcher, the filmstrip's cells
//! and the counts beside them.
use vstd::prelude::*;
use crate::model::{Frame, Judgement};
use crate::pathname::{same_path, same_path_str};
use crate::select::{MenuInput, stepped_index};
use crate::session::{
    Session, SessionStore, age_label, age_text, kept_frames,
    progress_text, session_for,
};
use crate::clock::now_secs;
use crate::table::{count_where, lookup};
use crate::text::{push_str, string_of};

verus! {

/// What the browse surfaces ask the composition root to do.
#[derive(Debug, Clone, PartialEq)]
pub enum BrowseEvent {
    /// Open a folder without tearing anything down.
    OpenFolder(String),
    /// Show the system folder picker.
    BrowseForFolder,
    /// Move the cursor to an absolute index.
    SelectFrame(usize),
    ToggleSwitcher,
    CloseSwitcher,
}

/// The browse surfaces' own state.
pub struct BrowseState {
    pub switcher_open: bool,
    /// Set on the frame the switcher opens, so the click that opened it is
    /// not also read as a click outside it.
    pub switcher_just_opened: bool,
    /// Highlighted row while the switcher is driven from the keyboard.
    pub switcher_index: usize,
    /// Highlighted row in the folder picker's recent list.
    pub recent_index: usize,
    /// Set when the cursor moves, so the strip scrolls to it exactly once.
    pub scroll_to_cursor: bool,
}

impl Default for BrowseState {
    fn default() -> (r: BrowseState)
        ensures
            !r.switcher_open && !r.switcher_just_opened && r.switcher_index == 0
                && r.recent_index == 0 && !r.scroll_to_cursor,
    {
        BrowseState {
            switcher_open: false,
            switcher_just_opened: false,
            switcher_index: 0,
            recent_index: 0,
            scroll_to_cursor: false,
        }
    }
}

/// How many recent folders the picker lists.
pub const PICKER_RECENT: usize = 6;

/// The switcher's choice for one frame of input over `rows` (the folders it
/// lists), with the highlighted row already stepped to `index`.
pub open spec fn switcher_choice(rows: Seq<String>, input: MenuInput, index: int, just_opened: bool) -> Option<BrowseEvent> {
    if input.enter && index < rows.len() {
        Some(BrowseEvent::OpenFolder(rows[index]))
    } else if input.escape {
        Some(BrowseEvent::CloseSwitcher)
    } else if input.browse_clicked {
        Some(BrowseEvent::BrowseForFolder)
    } else if input.clicked_row matches Some(i) && i < rows.len() {
        Some(BrowseEvent::OpenFolder(rows[input.clicked_row->0 as int]))
    } else if !just_opened && input.click_outside {
        Some(BrowseEvent::CloseSwitcher)
    } else {
        None
    }
}

impl BrowseState {
    pub fn close_popovers(&mut self)
        ensures
            !final(self).switcher_open,
            !final(self).switcher_just_opened,
            final(self).switcher_index == old(self).switcher_index,
            final(self).recent_index == old(self).recent_index,
            final(self).scroll_to_cursor == old(self).scroll_to_cursor,
    {
        self.switcher_open = false;
        self.switcher_just_opened = false;
    }

    pub fn open_switcher(&mut self)
        ensures
            final(self).switcher_open,
            final(self).switcher_just_opened,
            final(self).switcher_index == 0,
            final(self).recent_index == old(self).recent_index,
            final(self).scroll_to_cursor == old(self).scroll_to_cursor,
    {
        self.switcher_open = true;
        self.switcher_just_opened = true;
        self.switcher_index = 0;
    }

    /// React to one frame of input while the switcher lists `rows`. With
    /// nothing to switch between it closes and asks for the system picker
    /// instead of showing an empty menu.
    pub fn switcher_step(&mut self, rows: &Vec<String>, input: MenuInput) -> (r: Option<BrowseEvent>)
        ensures
            !old(self).switcher_open ==> r is None && *final(self) == *old(self),
            old(self).switcher_open && rows@.len() == 0 ==> {
                &&& r == Some(BrowseEvent::BrowseForFolder)
                &&& !final(self).switcher_open
                &&& final(self).switcher_just_opened == old(self).switcher_just_opened
                &&& final(self).switcher_index == old(self).switcher_index
            },
            old(self).switcher_open && rows@.len() > 0 ==> {
                &&& final(self).switcher_index == stepped_index(old(self).switcher_index as int, rows@.len() as int, input.down, input.up)
                &&& r == switcher_choice(rows@, input, final(self).switcher_index as int, old(self).switcher_just_opened)
                &&& final(self).switcher_open
                &&& !final(self).switcher_just_opened
            },
            final(self).recent_index == old(self).recent_index,
            final(self).scroll_to_cursor == old(self).scroll_to_cursor,
    {
        if !self.switcher_open {
            return None;
        }
        let len = rows.len();
        if len == 0 {
            self.switcher_open = false;
            return Some(BrowseEvent::BrowseForFolder);
        }
        let top = len - 1;
        if self.switcher_index > top {
            self.switcher_index = top;
        }
        let mut event: Option<BrowseEvent> = None;
        match input.clicked_row {
            Some(i) => {
                if i < len {
                    event = Some(BrowseEvent::OpenFolder(rows[i].clone()));
                }
            },
            None => {},
        }
        if input.browse_clicked {
            event = Some(BrowseEvent::BrowseForFolder);
        }
        if input.down {
            self.switcher_index = if self.switcher_index + 1 < top { self.switcher_index + 1 } else { top };
        }
        if input.up {
            self.switcher_index = if self.switcher_index > 0 { self.switcher_index - 1 } else { 0 };
        }
        if input.escape {
            event = Some(BrowseEvent::CloseSwitcher);
        }
        if input.enter && self.switcher_index < len {
            event = Some(BrowseEvent::OpenFolder(rows[self.switcher_index].clone()));
        }
        if event.is_none() && !self.switcher_just_opened && input.click_outside {
            event = Some(BrowseEvent::CloseSwitcher);
        }
        self.switcher_just_opened = false;
        event
    }

    /// Clicks on the folder picker: the button asks for the system picker,
    /// a recent row opens its folder. The highlight is kept on the rows.
    pub fn picker_clicks(&mut self, recent: &Vec<String>, clicked_row: Option<usize>, browse_clicked: bool) -> (r: Option<BrowseEvent>)
        ensures
            ({
                let n = if recent@.len() < PICKER_RECENT { recent@.len() as int } else { PICKER_RECENT as int };
                &&& n > 0 ==> final(self).recent_index == (if old(self).recent_index < n - 1 { old(self).recent_index as int } else { n - 1 })
                &&& n == 0 ==> final(self).recent_index == old(self).recent_index
                &&& r == (if n > 0 && (clicked_row matches Some(i) && i < n) {
                        Some(BrowseEvent::OpenFolder(recent@[clicked_row->0 as int]))
                    } else if browse_clicked {
                        Some(BrowseEvent::BrowseForFolder)
                    } else {
                        None
                    })
            }),
            final(self).switcher_open == old(self).switcher_open,
            final(self).switcher_just_opened == old(self).switcher_just_opened,
            final(self).switcher_index == old(self).switcher_index,
            final(self).scroll_to_cursor == old(self).scroll_to_cursor,
    {
        let n = if recent.len() < PICKER_RECENT { recent.len() } else { PICKER_RECENT };
        let mut event: Option<BrowseEvent> = None;
        if browse_clicked {
            event = Some(BrowseEvent::BrowseForFolder);
        }
        if n > 0 {
            if self.recent_index > n - 1 {
                self.recent_index = n - 1;
            }
            match clicked_row {
                Some(i) => {
                    if i < n {
                        event = Some(BrowseEvent::OpenFolder(recent[i].clone()));
                    }
                },
                None => {},
            }
        }
        event
    }

    /// Keys on the folder picker: `↑ ↓` move through the recent folders,
    /// `O` asks for the system picker, `↵` opens the highlighted folder.
    pub fn picker_keys(&mut self, recent: &Vec<String>, down: bool, up: bool, o: bool, enter: bool) -> (r: Option<BrowseEvent>)
        ensures
            ({
                let n = if recent@.len() < PICKER_RECENT { recent@.len() as int } else { PICKER_RECENT as int };
                let i1 = if down && n > 0 {
                    if old(self).recent_index + 1 < n - 1 { old(self).recent_index + 1 } else { n - 1 }
                } else {
                    old(self).recent_index as int
                };
                let i2 = if up { if i1 > 0 { i1 - 1 } else { 0 } } else { i1 };
                &&& final(self).recent_index == i2
                &&& r == (if o {
                        Some(BrowseEvent::BrowseForFolder)
                    } else if enter && n > 0 && i2 < recent@.len() {
                        Some(BrowseEvent::OpenFolder(recent@[i2]))
                    } else {
                        None
                    })
            }),
            final(self).switcher_open == old(self).switcher_open,
            final(self).switcher_just_opened == old(self).switcher_just_opened,
            final(self).switcher_index == old(self).switcher_index,
            final(self).scroll_to_cursor == old(self).scroll_to_cursor,
    {
        let n = if recent.len() < PICKER_RECENT { recent.len() } else { PICKER_RECENT };
        if down && n > 0 {
            self.recent_index = if self.recent_index < n - 1 && self.recent_index + 1 < n - 1 {
                self.recent_index + 1
            } else {
                n - 1
            };
        }
        if up {
            self.recent_index = if self.recent_index > 0 { self.recent_index - 1 } else { 0 };
        }
        if o {
            return Some(BrowseEvent::BrowseForFolder);
        }
        if enter && n > 0 && self.recent_index < recent.len() {
            return Some(BrowseEvent::OpenFolder(recent[self.recent_index].clone()));
        }
        None
    }
}

// ---------------------------------------------------------------------------
// Rows and counts
// ---------------------------------------------------------------------------

/// One switcher row: the folder, its progress line, and whether it is the
/// active folder.
pub open spec fn switcher_row(store: SessionStore, active: Option<Seq<char>>, p: String) -> (Seq<char>, Seq<char>, bool) {
    (p@, progress_text(session_for(store.sessions@, p@)), match active {
        Some(a) => same_path(a, p@),
        None => false,
    })
}

/// Rows offered by the switcher: every recent folder, most recent first,
/// with its progress and the active one marked.
pub fn switcher_rows(store: &SessionStore, active: Option<&str>) -> (r: Vec<(String, String, bool)>)
    ensures
        r@.len() == store.recent@.len(),
        forall|i: int| 0 <= i < r@.len() ==>
            (#[trigger] r@[i]).0@ == switcher_row(*store, match active { Some(a) => Some(a@), None => None }, store.recent@[i]).0
            && r@[i].1@ == switcher_row(*store, match active { Some(a) => Some(a@), None => None }, store.recent@[i]).1
            && r@[i].2 == switcher_row(*store, match active { Some(a) => Some(a@), None => None }, store.recent@[i]).2,
{
    let mut out: Vec<(String, String, bool)> = Vec::new();
    let mut i: usize = 0;
    while i < store.recent.len()
        invariant
            0 <= i <= store.recent@.len(),
            out@.len() == i,
            forall|k: int| 0 <= k < i ==>
                (#[trigger] out@[k]).0@ == switcher_row(*store, match active { Some(a) => Some(a@), None => None }, store.recent@[k]).0
                && out@[k].1@ == switcher_row(*store, match active { Some(a) => Some(a@), None => None }, store.recent@[k]).1
                && out@[k].2 == switcher_row(*store, match active { Some(a) => Some(a@), None => None }, store.recent@[k]).2,
        decreases store.recent@.len() - i,
    {
        let p = &store.recent[i];
        let meta = store.progress_line(p.as_str());
        let is_current = match active {
            Some(a) => same_path_str(a, p.as_str()),
            None => false,
        };
        out.push((p.clone(), meta, is_current));
        i += 1;
    }
    out
}

/// The line under a recent folder on the picker: its progress, and how long
/// ago it was last opened when that is known, as seen at `now`.
pub open spec fn recent_meta_text(store: SessionStore, folder: Seq<char>, now: u64) -> Seq<char> {
    match session_for(store.sessions@, folder) {
        Some(p) => if p.last_opened_secs > 0 {
            progress_text(session_for(store.sessions@, folder)) + " · "@ + age_text(p.last_opened_secs, now)
        } else {
            progress_text(session_for(store.sessions@, folder))
        },
        None => progress_text(session_for(store.sessions@, folder)),
    }
}

impl SessionStore {
    /// Index of the entry `session_for` picks for `folder`.
    fn lookup_index(&self, folder: &str) -> (r: Option<usize>)
        ensures
            match r {
                Some(i) => i < self.sessions@.len() && session_for(self.sessions@, folder@) == Some(self.sessions@[i as int].1),
                None => session_for(self.sessions@, folder@) is None,
            },
    {
        let mut i: usize = self.sessions.len();
        assert(self.sessions@.subrange(0, i as int) =~= self.sessions@);
        while i > 0
            invariant
                i <= self.sessions@.len(),
                session_for(self.sessions@, folder@) == session_for(self.sessions@.subrange(0, i as int), folder@),
            decreases i,
        {
            assert(self.sessions@.subrange(0, i as int).drop_last() =~= self.sessions@.subrange(0, i - 1));
            i -= 1;
            if same_path_str(self.sessions[i].0.as_str(), folder) {
                return Some(i);
            }
        }
        None
    }

    /// The recent-list line for `folder`, as seen at `now`.
    pub fn recent_meta_at(&self, folder: &str, now: u64) -> (r: String)
        ensures
            r@ == recent_meta_text(*self, folder@, now),
    {
        let progress = self.progress_line(folder);
        match self.lookup_index(folder) {
            Some(i) => {
                let secs = self.sessions[i].1.last_opened_secs;
                if secs > 0 {
                    let age = age_label(secs, now);
                    let mut out: Vec<char> = Vec::new();
                    push_str(&mut out, progress.as_str());
                    push_str(&mut out, " · ");
                    push_str(&mut out, age.as_str());
                    string_of(&out)
                } else {
                    progress
                }
            },
            None => progress,
        }
    }

    /// The recent-list line for `folder`, against the system clock.
    pub fn recent_meta(&self, folder: &str) -> (r: String)
        ensures
            exists|now: u64| r@ == #[trigger] recent_meta_text(*self, folder@, now),
    {
        let now = now_secs();
        self.recent_meta_at(folder, now)
    }
}

/// Position (1-based, at most the frame count), frame count, kept and passed
/// counts for the status bar.
pub fn counts(session: &Session) -> (r: (usize, usize, usize, usize))
    requires
        session.wf(),
    ensures
        r.0 == (if session.cursor as int + 1 <= session.frames@.len() { session.cursor as int + 1 } else { session.frames@.len() as int }),
        r.1 == session.frames@.len(),
        r.2 == kept_frames(session.frames@, session.judgement@, session.present()),
        r.3 == count_where(session.judgement@, |j: Judgement| j == Judgement::Passed),
{
    let len = session.frames.len();
    let next = session.cursor.saturating_add(1);
    let position = if next < len { next } else { len };
    (position, len, session.kept_count(), session.passed_count())
}

/// The state word under a filmstrip cell, and whether it is the accent.
pub open spec fn judgement_word(in_destination: bool, judgement: Option<Judgement>) -> (Seq<char>, bool) {
    if in_destination {
        ("KEPT"@, true)
    } else {
        match judgement {
            Some(Judgement::Kept) => ("KEPT"@, true),
            Some(Judgement::Passed) => ("passed"@, false),
            None => ("—"@, false),
        }
    }
}

/// The state word for a frame: kept (in this session or already in the
/// destination), passed, or not yet judged.
pub fn judgement_label(session: &Session, frame: &Frame) -> (r: (&'static str, bool))
    requires
        session.wf(),
    ensures
        (r.0@, r.1) == judgement_word(session.present().contains(frame.id@), lookup(session.judgement@, frame.id@)),
{
    if session.is_in_destination(frame.id.as_str()) {
        return ("KEPT", true);
    }
    match session.judgement_of(frame.id.as_str()) {
        Some(Judgement::Kept) => ("KEPT", true),
        Some(Judgement::Passed) => ("passed", false),
        None => ("—", false),
    }
}

// ---------------------------------------------------------------------------
// Filmstrip cells
// ---------------------------------------------------------------------------

/// The interface colours a cell is drawn in.
#[derive(Clone, Copy, Debug, PartialEq, Eq, Structural)]
pub enum Tone {
    Sodium,
    RailCurrent,
    Hair,
    Fg,
    FgDisabled,
}

/// How one filmstrip cell is drawn: judgement is carried by form (the rail
/// and the notch) as well as colour.
pub struct CellLook {
    pub current: bool,
    pub kept: bool,
    pub passed: bool,
    pub in_destination: bool,
    pub rail: Tone,
    pub label: Tone,
    pub state_text: &'static str,
    pub state: Tone,
    /// The notch is shown in full.
    pub notch_full: bool,
}

/// The look of cell `index` for `frame`; `flashing` is whether its keep
/// acknowledgement is still running.
pub fn cell_look(session: &Session, frame: &Frame, index: usize, flashing: bool) -> (r: CellLook)
    requires
        session.wf(),
    ensures
        ({
            let judgement = lookup(session.judgement@, frame.id@);
            let in_dest = session.present().contains(frame.id@);
            let kept = judgement == Some(Judgement::Kept) || in_dest;
            let current = index == session.cursor;
            let word = judgement_word(in_dest, judgement);
            &&& r.current == current
            &&& r.kept == kept
            &&& r.passed == (judgement == Some(Judgement::Passed))
            &&& r.in_destination == in_dest
            &&& r.rail == (if flashing || kept { Tone::Sodium } else if current { Tone::RailCurrent } else { Tone::Hair })
            &&& r.label == (if kept { Tone::Sodium } else if current { Tone::Fg } else { Tone::FgDisabled })
            &&& r.state_text@ == (if current && !kept { "▸"@ } else { word.0 })
            &&& r.state == (if word.1 { Tone::Sodium } else if current { Tone::Fg } else { Tone::FgDisabled })
            &&& r.notch_full == kept
        }),
{
    let current = index == session.cursor;
    let judgement = session.judgement_of(frame.id.as_str());
    let in_destination = session.is_in_destination(frame.id.as_str());
    let kept = match judgement {
        Some(Judgement::Kept) => true,
        _ => false,
    } || in_destination;
    let passed = match judgement {
        Some(Judgement::Passed) => true,
        _ => false,
    };
    let rail = if flashing || kept { Tone::Sodium } else if current { Tone::RailCurrent } else { Tone::Hair };
    let label = if kept { Tone::Sodium } else if current { Tone::Fg } else { Tone::FgDisabled };
    let (word, accent) = judgement_label(session, frame);
    let state_text = if current && !kept { "▸" } else { word };
    let state = if accent { Tone::Sodium } else if current { Tone::Fg } else { Tone::FgDisabled };
    CellLook { current, kept, passed, in_destination, rail, label, state_text, state, notch_full: kept }
}

} // verus!
