//! The composition root's decisions: what a frame's keys ask for, which
//! frames are decoded ahead of the cursor and in what order, and how scan
//! progress is shown. The window, the loaders and the painting act on them.
use vstd::prelude::*;

verus! {

/// Thumbnails are decoded into this box.
pub const THUMB_BOX: u32 = 300;
/// Canvas previews.
pub const PREVIEW_DIM: u32 = 2048;
/// The enhance proxy.
pub const PROXY_DIM: u32 = 1600;
/// Thumbnail texture budget in bytes.
pub const THUMB_BUDGET: usize = 268_435_456;
/// Preview texture budget in bytes.
pub const PREVIEW_BUDGET: usize = 536_870_912;
/// How far either side of the cursor thumbnails are queued.
pub const THUMB_PREFETCH: usize = 24;
/// How far either side of the cursor previews are decoded ahead of time.
pub const PREVIEW_PREFETCH: usize = 10;

// ---------------------------------------------------------------------------
// Keys
// ---------------------------------------------------------------------------

/// The keys pressed this frame, and the modifiers held.
#[derive(Clone, Copy, Debug)]
pub struct KeyInput {
    /// `→` or `↓`.
    pub next: bool,
    /// `←` or `↑`.
    pub prev: bool,
    pub enter: bool,
    pub escape: bool,
    /// Backspace or Delete.
    pub pass: bool,
    pub e: bool,
    pub o: bool,
    pub s: bool,
    /// `[`.
    pub rotate_left: bool,
    /// `]`.
    pub rotate_right: bool,
    pub slash: bool,
    /// `Z` held down.
    pub z_down: bool,
    pub shift: bool,
    /// Command or Control held.
    pub ctrl: bool,
}

/// Where the keyboard is.
#[derive(Clone, Copy, Debug)]
pub struct KeyContext {
    /// The folder switcher or the destination menu is open: they own the keys.
    pub popover_open: bool,
    pub enhance_open: bool,
    /// A readout in the enhance panel is being typed into.
    pub editing: bool,
    pub has_session: bool,
}

/// What the keys ask for, in the order they are acted on.
#[derive(Clone, Copy, Debug, PartialEq, Eq, Structural)]
pub enum Command {
    CloseEnhance,
    ConfirmEnhance,
    Next,
    Prev,
    OpenEnhance,
    KeepAsShot,
    Pass,
    BrowseFolder,
    OpenSwitcher,
    BrowseDestination,
    OpenDestinationMenu,
    Rotate(i32),
    ToggleShortcuts,
}

/// The commands of one frame of keys, and the zoom state when it is theirs
/// to set.
pub struct KeyPlan {
    pub zoom: Option<bool>,
    pub commands: Vec<Command>,
}

pub open spec fn when(b: bool, c: Command) -> Seq<Command> {
    if b { seq![c] } else { Seq::empty() }
}

/// The gallery's keys: `→ ←` move, `↵` opens enhance (with Ctrl it keeps
/// as shot), Delete passes, `E` enhances, `O` switches folder (with Shift
/// the system picker), `S` the destination (with Shift the system picker),
/// `[ ]` rotate, `/` shows every shortcut.
pub open spec fn gallery_commands(k: KeyInput) -> Seq<Command> {
    when(k.next, Command::Next)
        + when(k.prev, Command::Prev)
        + when(k.enter && !k.ctrl, Command::OpenEnhance)
        + when(k.enter && k.ctrl, Command::KeepAsShot)
        + when(k.pass, Command::Pass)
        + when(k.e, Command::OpenEnhance)
        + when(k.o && k.shift, Command::BrowseFolder)
        + when(k.o && !k.shift, Command::OpenSwitcher)
        + when(k.s && k.shift, Command::BrowseDestination)
        + when(k.s && !k.shift, Command::OpenDestinationMenu)
        + when(k.rotate_left || k.rotate_right, Command::Rotate(if k.rotate_left { -1i32 } else { 1i32 }))
        + when(k.slash, Command::ToggleShortcuts)
}

/// What one frame of keys asks for: nothing while a popover owns the keys;
/// in the enhance modal Escape closes it and Enter confirms unless a
/// readout is being typed into; otherwise the gallery's keys.
pub open spec fn key_commands(cx: KeyContext, k: KeyInput) -> Seq<Command> {
    if cx.popover_open {
        Seq::empty()
    } else if cx.enhance_open {
        if k.escape {
            seq![Command::CloseEnhance]
        } else if k.enter && !cx.editing {
            seq![Command::ConfirmEnhance]
        } else {
            Seq::empty()
        }
    } else if !cx.has_session {
        Seq::empty()
    } else {
        gallery_commands(k)
    }
}

/// A key context in the gallery: a folder is open and no popover or modal
/// owns the keys.
pub open spec fn in_gallery(cx: KeyContext) -> bool {
    cx.has_session && !cx.popover_open && !cx.enhance_open
}

proof fn lemma_when_contains(b: bool, c: Command, x: Command)
    ensures
        (when(b, c)).contains(x) == (b && x == c),
{
    if b {
        assert(seq![c][0] == c);
    }
}

proof fn lemma_concat_contains(a: Seq<Command>, b: Seq<Command>, x: Command)
    ensures
        (a + b).contains(x) == (a.contains(x) || b.contains(x)),
{
    if a.contains(x) {
        let i = choose|i: int| 0 <= i < a.len() && a[i] == x;
        assert((a + b)[i] == x);
    }
    if b.contains(x) {
        let i = choose|i: int| 0 <= i < b.len() && b[i] == x;
        assert((a + b)[a.len() + i] == x);
    }
    if (a + b).contains(x) {
        let i = choose|i: int| 0 <= i < (a + b).len() && (a + b)[i] == x;
        if i < a.len() {
            assert(a[i] == x);
        } else {
            assert(b[i - a.len()] == x);
        }
    }
}

proof fn lemma_gallery_contains(k: KeyInput, x: Command)
    requires
        x == Command::Next || x == Command::Prev,
    ensures
        gallery_commands(k).contains(x) == ((x == Command::Next && k.next) || (x == Command::Prev && k.prev)),
{
    let rot = Command::Rotate(if k.rotate_left { -1i32 } else { 1i32 });
    let s1 = when(k.next, Command::Next);
    let s2 = s1 + when(k.prev, Command::Prev);
    let s3 = s2 + when(k.enter && !k.ctrl, Command::OpenEnhance);
    let s4 = s3 + when(k.enter && k.ctrl, Command::KeepAsShot);
    let s5 = s4 + when(k.pass, Command::Pass);
    let s6 = s5 + when(k.e, Command::OpenEnhance);
    let s7 = s6 + when(k.o && k.shift, Command::BrowseFolder);
    let s8 = s7 + when(k.o && !k.shift, Command::OpenSwitcher);
    let s9 = s8 + when(k.s && k.shift, Command::BrowseDestination);
    let s10 = s9 + when(k.s && !k.shift, Command::OpenDestinationMenu);
    let s11 = s10 + when(k.rotate_left || k.rotate_right, rot);
    lemma_when_contains(k.next, Command::Next, x);
    lemma_when_contains(k.prev, Command::Prev, x);
    lemma_when_contains(k.enter && !k.ctrl, Command::OpenEnhance, x);
    lemma_when_contains(k.enter && k.ctrl, Command::KeepAsShot, x);
    lemma_when_contains(k.pass, Command::Pass, x);
    lemma_when_contains(k.e, Command::OpenEnhance, x);
    lemma_when_contains(k.o && k.shift, Command::BrowseFolder, x);
    lemma_when_contains(k.o && !k.shift, Command::OpenSwitcher, x);
    lemma_when_contains(k.s && k.shift, Command::BrowseDestination, x);
    lemma_when_contains(k.s && !k.shift, Command::OpenDestinationMenu, x);
    lemma_when_contains(k.rotate_left || k.rotate_right, rot, x);
    lemma_when_contains(k.slash, Command::ToggleShortcuts, x);
    lemma_concat_contains(s1, when(k.prev, Command::Prev), x);
    lemma_concat_contains(s2, when(k.enter && !k.ctrl, Command::OpenEnhance), x);
    lemma_concat_contains(s3, when(k.enter && k.ctrl, Command::KeepAsShot), x);
    lemma_concat_contains(s4, when(k.pass, Command::Pass), x);
    lemma_concat_contains(s5, when(k.e, Command::OpenEnhance), x);
    lemma_concat_contains(s6, when(k.o && k.shift, Command::BrowseFolder), x);
    lemma_concat_contains(s7, when(k.o && !k.shift, Command::OpenSwitcher), x);
    lemma_concat_contains(s8, when(k.s && k.shift, Command::BrowseDestination), x);
    lemma_concat_contains(s9, when(k.s && !k.shift, Command::OpenDestinationMenu), x);
    lemma_concat_contains(s10, when(k.rotate_left || k.rotate_right, rot), x);
    lemma_concat_contains(s11, when(k.slash, Command::ToggleShortcuts), x);
}

proof fn lemma_nothing_appended(a: Seq<Command>, b: bool, c: Command)
    requires
        !b,
    ensures
        a + when(b, c) == a,
{
    assert(a + when(b, c) =~= a);
}

/// No key but the arrows is pressed this frame.
pub open spec fn only_arrows(k: KeyInput) -> bool {
    !k.enter && !k.pass && !k.e && !k.o && !k.s && !k.rotate_left && !k.rotate_right && !k.slash
}

#[verifier::spinoff_prover]
proof fn lemma_gallery_of_arrows(k: KeyInput)
    requires
        only_arrows(k),
    ensures
        gallery_commands(k) == when(k.next, Command::Next) + when(k.prev, Command::Prev),
{
    let rot = Command::Rotate(if k.rotate_left { -1i32 } else { 1i32 });
    let s2 = when(k.next, Command::Next) + when(k.prev, Command::Prev);
    lemma_nothing_appended(s2, k.enter && !k.ctrl, Command::OpenEnhance);
    lemma_nothing_appended(s2, k.enter && k.ctrl, Command::KeepAsShot);
    lemma_nothing_appended(s2, k.pass, Command::Pass);
    lemma_nothing_appended(s2, k.e, Command::OpenEnhance);
    lemma_nothing_appended(s2, k.o && k.shift, Command::BrowseFolder);
    lemma_nothing_appended(s2, k.o && !k.shift, Command::OpenSwitcher);
    lemma_nothing_appended(s2, k.s && k.shift, Command::BrowseDestination);
    lemma_nothing_appended(s2, k.s && !k.shift, Command::OpenDestinationMenu);
    lemma_nothing_appended(s2, k.rotate_left || k.rotate_right, rot);
    lemma_nothing_appended(s2, k.slash, Command::ToggleShortcuts);
    assert(gallery_commands(k) == s2);
}

/// In the gallery a frame in which only the next key is pressed plans
/// exactly one step forward, and one in which only the previous key is
/// pressed exactly one step back.
pub proof fn lemma_a_lone_arrow_is_one_step(cx: KeyContext, k: KeyInput)
    requires
        in_gallery(cx),
        only_arrows(k),
    ensures
        k.next && !k.prev ==> key_commands(cx, k) == seq![Command::Next],
        k.prev && !k.next ==> key_commands(cx, k) == seq![Command::Prev],
{
    lemma_gallery_of_arrows(k);
    if k.next && !k.prev {
        assert(when(k.next, Command::Next) + when(k.prev, Command::Prev) =~= seq![Command::Next]);
    }
    if k.prev && !k.next {
        assert(when(k.next, Command::Next) + when(k.prev, Command::Prev) =~= seq![Command::Prev]);
    }
}

/// In the gallery the next key, `→` or `↓`, moves forward and only it
/// does; the previous key, `←` or `↑`, moves back and only it does: a
/// frame of keys plans `Next` exactly when `next` is pressed and `Prev`
/// exactly when `prev` is.
pub proof fn lemma_arrows_move_the_way_they_point(cx: KeyContext, k: KeyInput)
    requires
        in_gallery(cx),
    ensures
        key_commands(cx, k).contains(Command::Next) == k.next,
        key_commands(cx, k).contains(Command::Prev) == k.prev,
{
    lemma_gallery_contains(k, Command::Next);
    lemma_gallery_contains(k, Command::Prev);
}

fn push_when(out: &mut Vec<Command>, b: bool, c: Command)
    ensures
        final(out)@ == old(out)@ + when(b, c),
{
    if b {
        out.push(c);
    }
    assert(final(out)@ =~= old(out)@ + when(b, c));
}

/// Plan one frame of keys.
pub fn plan_keys(cx: KeyContext, k: KeyInput) -> (r: KeyPlan)
    ensures
        r.commands@ == key_commands(cx, k),
        r.zoom == (if !cx.popover_open && !cx.enhance_open && cx.has_session { Some(k.z_down) } else { None::<bool> }),
{
    let mut out: Vec<Command> = Vec::new();
    if cx.popover_open {
        assert(out@ =~= key_commands(cx, k));
        return KeyPlan { zoom: None, commands: out };
    }
    if cx.enhance_open {
        if k.escape {
            out.push(Command::CloseEnhance);
        } else if k.enter && !cx.editing {
            out.push(Command::ConfirmEnhance);
        }
        assert(out@ =~= key_commands(cx, k));
        return KeyPlan { zoom: None, commands: out };
    }
    if !cx.has_session {
        assert(out@ =~= key_commands(cx, k));
        return KeyPlan { zoom: None, commands: out };
    }
    push_when(&mut out, k.next, Command::Next);
    push_when(&mut out, k.prev, Command::Prev);
    push_when(&mut out, k.enter && !k.ctrl, Command::OpenEnhance);
    push_when(&mut out, k.enter && k.ctrl, Command::KeepAsShot);
    push_when(&mut out, k.pass, Command::Pass);
    push_when(&mut out, k.e, Command::OpenEnhance);
    push_when(&mut out, k.o && k.shift, Command::BrowseFolder);
    push_when(&mut out, k.o && !k.shift, Command::OpenSwitcher);
    push_when(&mut out, k.s && k.shift, Command::BrowseDestination);
    push_when(&mut out, k.s && !k.shift, Command::OpenDestinationMenu);
    push_when(&mut out, k.rotate_left || k.rotate_right, Command::Rotate(if k.rotate_left { -1 } else { 1 }));
    push_when(&mut out, k.slash, Command::ToggleShortcuts);
    assert(out@ =~= key_commands(cx, k));
    KeyPlan { zoom: Some(k.z_down), commands: out }
}

// ---------------------------------------------------------------------------
// The decode window
// ---------------------------------------------------------------------------

/// The frames at distance `offset` from the cursor, ahead first, as
/// `(index, distance)`, for a folder of `len` frames.
pub open spec fn ring(cursor: int, len: int, offset: int) -> Seq<(int, int)> {
    if offset == 0 {
        if 0 <= cursor < len { seq![(cursor, 0int)] } else { Seq::empty() }
    } else {
        (if 0 <= cursor + offset < len { seq![(cursor + offset, offset)] } else { Seq::empty() })
            + (if 0 <= cursor - offset < len { seq![(cursor - offset, offset)] } else { Seq::empty() })
    }
}

/// Walking outwards from the cursor, `0, +1, -1, +2, -2, …` up to `upto`.
pub open spec fn window_order(cursor: int, len: int, upto: int) -> Seq<(int, int)>
    decreases upto + 1,
{
    if upto < 0 {
        Seq::empty()
    } else {
        window_order(cursor, len, upto - 1) + ring(cursor, len, upto)
    }
}

/// The frames to decode around the cursor, nearest first, as
/// `(index, distance)`: the frame you are on first, and the direction you
/// are most likely heading never starved.
pub fn decode_window(cursor: usize, len: usize, window: usize) -> (r: Vec<(usize, u32)>)
    requires
        window <= u32::MAX,
    ensures
        r@.len() == window_order(cursor as int, len as int, window as int).len(),
        forall|i: int| 0 <= i < r@.len() ==>
            (#[trigger] r@[i]).0 == window_order(cursor as int, len as int, window as int)[i].0
            && r@[i].1 == window_order(cursor as int, len as int, window as int)[i].1,
{
    let mut out: Vec<(usize, u32)> = Vec::new();
    let mut step: u64 = 0;
    while step <= window as u64
        invariant
            0 <= step <= window + 1,
            window <= u32::MAX,
            out@.len() == window_order(cursor as int, len as int, step - 1).len(),
            forall|i: int| 0 <= i < out@.len() ==>
                (#[trigger] out@[i]).0 == window_order(cursor as int, len as int, step - 1)[i].0
                && out@[i].1 == window_order(cursor as int, len as int, step - 1)[i].1,
        decreases window + 1 - step,
    {
        let offset = step as usize;
        let ghost before = window_order(cursor as int, len as int, offset - 1);
        let ghost ring_now = ring(cursor as int, len as int, offset as int);
        let ghost start = out@;
        if offset == 0 {
            if cursor < len {
                out.push((cursor, 0));
            }
        } else {
            if offset <= len && cursor < len - offset {
                out.push((cursor + offset, offset as u32));
            }
            let ghost mid = out@;
            if cursor >= offset && cursor - offset < len {
                out.push((cursor - offset, offset as u32));
            }
            assert(out@.len() == mid.len() + (if 0 <= cursor - offset < len { 1int } else { 0 }));
        }
        proof {
            let after = window_order(cursor as int, len as int, offset as int);
            assert(after == before + ring_now);
            assert(out@.len() == after.len());
            assert forall|i: int| 0 <= i < out@.len() implies
                (#[trigger] out@[i]).0 == after[i].0 && out@[i].1 == after[i].1 by {
                if i < start.len() {
                    assert(out@[i] == start[i]);
                    assert(after[i] == before[i]);
                } else {
                    assert(after[i] == ring_now[i - before.len()]);
                }
            }
        }
        step += 1;
    }
    out
}

/// Every entry of the walk is a frame of the folder, no nearer than an
/// entry before it, and within `upto` of the cursor.
pub proof fn lemma_window_is_nearest_first(cursor: int, len: int, upto: int)
    ensures
        forall|i: int| 0 <= i < window_order(cursor, len, upto).len() ==> {
            let e = #[trigger] window_order(cursor, len, upto)[i];
            &&& 0 <= e.0 < len
            &&& 0 <= e.1 <= upto
            &&& (e.0 == cursor + e.1 || e.0 == cursor - e.1)
        },
        forall|i: int, j: int| 0 <= i < j < window_order(cursor, len, upto).len() ==>
            (#[trigger] window_order(cursor, len, upto)[i]).1 <= (#[trigger] window_order(cursor, len, upto)[j]).1,
        forall|i: int, j: int| 0 <= i < j < window_order(cursor, len, upto).len() ==>
            (#[trigger] window_order(cursor, len, upto)[i]).0 != (#[trigger] window_order(cursor, len, upto)[j]).0,
    decreases upto + 1,
{
    if upto >= 0 {
        lemma_window_is_nearest_first(cursor, len, upto - 1);
        let w = window_order(cursor, len, upto - 1);
        let g = ring(cursor, len, upto);
        let all = window_order(cursor, len, upto);
        assert(all == w + g);
        assert forall|i: int| 0 <= i < g.len() implies
            0 <= (#[trigger] g[i]).0 < len && g[i].1 == upto && (g[i].0 == cursor + upto || g[i].0 == cursor - upto) by {}
        assert forall|i: int| 0 <= i < all.len() implies {
            let e = #[trigger] all[i];
            &&& 0 <= e.0 < len
            &&& 0 <= e.1 <= upto
            &&& (e.0 == cursor + e.1 || e.0 == cursor - e.1)
        } by {
            if i < w.len() {
                assert(all[i] == w[i]);
            } else {
                assert(all[i] == g[i - w.len()]);
            }
        }
        assert forall|i: int, j: int| 0 <= i < j < all.len() implies
            (#[trigger] all[i]).1 <= (#[trigger] all[j]).1 && all[i].0 != all[j].0 by {
            if j < w.len() {
                assert(all[i] == w[i] && all[j] == w[j]);
            } else if i < w.len() {
                assert(all[i] == w[i]);
                assert(all[j] == g[j - w.len()]);
                assert(w[i].1 <= upto - 1);
            } else {
                assert(all[i] == g[i - w.len()]);
                assert(all[j] == g[j - w.len()]);
                assert(i - w.len() == 0 && j - w.len() == 1);
            }
        }
    }
}

// ---------------------------------------------------------------------------
// What the canvas shows
// ---------------------------------------------------------------------------

/// What the gallery canvas shows.
#[derive(Clone, Copy, Debug, PartialEq, Eq, Structural)]
pub enum CanvasShows {
    /// The folder has no frames the tool reads, and the scan is over.
    EmptyFolder,
    /// The frame under the cursor failed to decode.
    Unreadable,
    /// The frame's preview.
    Image,
    /// Nothing yet: the preview is still decoding.
    Decoding,
}

/// What the canvas shows: an empty folder only once the scan is over, a
/// failed frame as unreadable, its preview once decoded, else that it is
/// still decoding.
pub fn canvas_shows(no_frames: bool, scanning: bool, has_current: bool, current_failed: bool, preview_ready: bool) -> (r: CanvasShows)
    ensures
        r == (if no_frames && !scanning {
            CanvasShows::EmptyFolder
        } else if !has_current {
            CanvasShows::Decoding
        } else if current_failed {
            CanvasShows::Unreadable
        } else if preview_ready {
            CanvasShows::Image
        } else {
            CanvasShows::Decoding
        }),
{
    if no_frames && !scanning {
        CanvasShows::EmptyFolder
    } else if !has_current {
        CanvasShows::Decoding
    } else if current_failed {
        CanvasShows::Unreadable
    } else if preview_ready {
        CanvasShows::Image
    } else {
        CanvasShows::Decoding
    }
}

// ---------------------------------------------------------------------------
// Scan progress
// ---------------------------------------------------------------------------

/// `(probed, total)` after the scanner reports `found` frames probed; the
/// total always stays ahead of what has been probed, so the bar never
/// reads as finished early.
pub fn scan_progress(scanning: Option<(usize, usize)>, found: usize) -> (r: (usize, usize))
    requires
        found < usize::MAX,
    ensures
        r.0 == found,
        ({
            let t0: int = match scanning { Some((_, t)) => t as int, None => 0 };
            let t1: int = if t0 > found { t0 } else { found as int };
            r.1 == (if t1 > found + 1 { t1 } else { found + 1 })
        }),
{
    let t0 = match scanning {
        Some((_, t)) => t,
        None => 0,
    };
    let t1 = if t0 > found { t0 } else { found };
    (found, if t1 > found + 1 { t1 } else { found + 1 })
}

} // verus!
