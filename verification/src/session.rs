//! Per-folder sessions: cursor, judgements, per-frame edits, destination,
//! and which frames are already present in the destination.
use vstd::prelude::*;
use crate::model::{Destination, EffectMode, EffectSpec, suffix_of, Frame, Judgement, default_effect, effect_spec_eq, frame_id_of, frame_stem_of, is_supported, is_supported_path};
use crate::pathname::{extension, extension_chars, file_name, file_stem, last_index_of, lemma_last_index_of, lemma_last_index_past, stem_of, join, lemma_file_name_of_join, find_last, file_name_chars, stem_chars, same_path, same_path_str};
use crate::select::{WriteOutcome, output_name_text};
use crate::clock::now_secs;
use crate::natural::{Order3, lemma_decimal_digits, lemma_natural_antisymmetric, lemma_natural_transitive, name_after, natural_order};
use crate::table::{FrameTable, lookup, count_where, drop_key};
use crate::text::{chars_of, chars_eq, lower, lower_char, ascii_lower, is_digit, slice_chars, string_of, decimal, push_all, push_decimal, push_str};

verus! {

// ---------------------------------------------------------------------------
// Matching files already in the destination
// ---------------------------------------------------------------------------

pub open spec fn ends_with(s: Seq<char>, t: Seq<char>) -> bool {
    s.len() >= t.len() && s.subrange(s.len() - t.len(), s.len() as int) == t
}

/// The four suffixes a write appends are told apart: no two are equal and
/// none ends with another, so stripping the one a name ends with is never
/// ambiguous.
pub proof fn lemma_suffixes_are_told_apart(a: EffectMode, b: EffectMode)
    requires
        a != b,
    ensures
        suffix_of(a) != suffix_of(b),
        !ends_with(suffix_of(a), suffix_of(b)),
{
    reveal_strlit("_ORIG");
    reveal_strlit("_WBV");
    reveal_strlit("_WBRGB");
    reveal_strlit("_CUSTOM");
    let (x, y) = (suffix_of(a), suffix_of(b));
    // Each ends in its own letter.
    assert(x.last() != y.last());
    if ends_with(x, y) {
        assert(x.subrange(x.len() - y.len(), x.len() as int)[y.len() - 1] == x.last());
    }
}

/// Drop a trailing `_<digits>` collision counter.
pub open spec fn strip_counter(base: Seq<char>) -> Seq<char> {
    let cut = last_index_of(base, '_');
    if cut >= 0 && cut + 1 < base.len()
        && (forall|j: int| cut < j < base.len() ==> is_digit(#[trigger] base[j])) {
        base.subrange(0, cut)
    } else {
        base
    }
}

/// Drop the first effect suffix (lower case, in mode order) that ends the name.
pub open spec fn strip_effect_suffix(base: Seq<char>) -> Seq<char> {
    if ends_with(base, "_orig"@) {
        base.subrange(0, base.len() - 5)
    } else if ends_with(base, "_wbv"@) {
        base.subrange(0, base.len() - 4)
    } else if ends_with(base, "_wbrgb"@) {
        base.subrange(0, base.len() - 6)
    } else if ends_with(base, "_custom"@) {
        base.subrange(0, base.len() - 7)
    } else {
        base
    }
}

/// The lower-case stem of the original frame that a file written into the
/// destination was kept from: counter first, then effect suffix.
pub open spec fn kept_base(stem: Seq<char>) -> Seq<char> {
    strip_effect_suffix(strip_counter(lower(stem)))
}

/// The kept base of a listed path, when it has a file stem.
pub open spec fn base_of_path(p: Seq<char>) -> Option<Seq<char>> {
    match file_stem(p) {
        Some(st) => Some(kept_base(st)),
        None => None,
    }
}

/// Some file of the listing was kept from a frame with this lower-case stem.
pub open spec fn listed_base(listing: Seq<Seq<char>>, base: Seq<char>) -> bool {
    exists|i: int| 0 <= i < listing.len() && #[trigger] base_of_path(listing[i]) == Some(base)
}

/// The lower-case form of each mode's suffix.
pub open spec fn lower_suffix(mode: EffectMode) -> Seq<char> {
    match mode {
        EffectMode::Original => "_orig"@,
        EffectMode::WbValue => "_wbv"@,
        EffectMode::WbRgb => "_wbrgb"@,
        EffectMode::Levels => "_custom"@,
    }
}

proof fn lemma_lower_suffix(mode: EffectMode)
    ensures
        lower(suffix_of(mode)) == lower_suffix(mode),
        lower_suffix(mode).len() >= 4,
        lower_suffix(mode)[0] == '_',
        forall|i: int| 1 <= i < lower_suffix(mode).len() ==> !is_digit(#[trigger] lower_suffix(mode)[i])
            && lower_suffix(mode)[i] != '_',
{
    reveal_strlit("_ORIG");
    reveal_strlit("_WBV");
    reveal_strlit("_WBRGB");
    reveal_strlit("_CUSTOM");
    reveal_strlit("_orig");
    reveal_strlit("_wbv");
    reveal_strlit("_wbrgb");
    reveal_strlit("_custom");
    assert(lower(suffix_of(mode)) =~= lower_suffix(mode));
}

proof fn lemma_lower_concat(a: Seq<char>, b: Seq<char>)
    ensures
        lower(a + b) == lower(a) + lower(b),
{
    assert(lower(a + b) =~= lower(a) + lower(b));
}

proof fn lemma_ends_with_appended(a: Seq<char>, t: Seq<char>)
    ensures
        ends_with(a + t, t),
        (a + t).subrange(0, (a + t).len() - t.len()) == a,
{
    assert((a + t).subrange((a + t).len() - t.len(), (a + t).len() as int) =~= t);
    assert((a + t).subrange(0, (a + t).len() - t.len()) =~= a);
}

proof fn lemma_ends_differently(s: Seq<char>, t: Seq<char>)
    requires
        s.len() > 0,
        t.len() > 0,
        s.last() != t.last(),
    ensures
        !ends_with(s, t),
{
    if s.len() >= t.len() {
        assert(s.subrange(s.len() - t.len(), s.len() as int)[t.len() - 1] == s.last());
    }
}

/// Stripping the effect suffix from a lower-case stem followed by a mode's
/// lower-case suffix gives the stem back.
proof fn lemma_strip_effect_suffix(low: Seq<char>, mode: EffectMode)
    ensures
        strip_effect_suffix(low + lower_suffix(mode)) == low,
{
    reveal_strlit("_orig");
    reveal_strlit("_wbv");
    reveal_strlit("_wbrgb");
    reveal_strlit("_custom");
    let t = lower_suffix(mode);
    let x = low + t;
    lemma_ends_with_appended(low, t);
    assert(x.last() == t.last());
    match mode {
        EffectMode::Original => {},
        EffectMode::WbValue => {
            lemma_ends_differently(x, "_orig"@);
        },
        EffectMode::WbRgb => {
            lemma_ends_differently(x, "_orig"@);
            lemma_ends_differently(x, "_wbv"@);
        },
        EffectMode::Levels => {
            lemma_ends_differently(x, "_orig"@);
            lemma_ends_differently(x, "_wbv"@);
            lemma_ends_differently(x, "_wbrgb"@);
        },
    }
}

/// A written copy is always recognised as kept from its frame, whatever the
/// case of the frame's name: the kept base of the stem of the file name
/// written for a frame with stem `stem` (any mode, any extension without a
/// dot, any collision counter) is the frame's lower-case stem, the very
/// value opening a session compares against.
pub proof fn lemma_written_copy_is_recognised(stem: Seq<char>, mode: EffectMode, ext: Seq<char>, counter: nat)
    requires
        forall|i: int| 0 <= i < ext.len() ==> ext[i] != '.',
    ensures
        kept_base(stem_of(output_name_text(stem, mode, ext, counter))) == lower(stem),
{
    reveal_strlit("_");
    reveal_strlit(".");
    let suf = suffix_of(mode);
    let tail: Seq<char> = if counter <= 1 { Seq::empty() } else { "_"@ + decimal(counter) };
    let body = stem + suf + tail;
    let name = output_name_text(stem, mode, ext, counter);
    lemma_lower_suffix(mode);
    lemma_decimal_digits(counter);
    assert(suf.len() == lower(suf).len());
    // The extension's dot is the last one.
    assert(name =~= (body + seq!['.']) + ext);
    lemma_last_index_past(body + seq!['.'], ext, '.');
    assert(last_index_of(body + seq!['.'], '.') == body.len());
    assert(stem_of(name) =~= body);
    // Lower-casing leaves the counter alone.
    let ls = lower(stem);
    let lt = lower_suffix(mode);
    lemma_lower_concat(stem + suf, tail);
    lemma_lower_concat(stem, suf);
    assert(lower(tail) =~= tail);
    let lb = lower(body);
    assert(lb == ls + lt + tail);
    // The counter is stripped, and only it.
    let head = ls + seq!['_'];
    let letters = lt.subrange(1, lt.len() as int);
    assert(lt =~= seq!['_'] + letters);
    if counter <= 1 {
        assert(lb =~= head + letters);
        lemma_last_index_past(head, letters, '_');
        assert(last_index_of(head, '_') == ls.len());
        assert(!is_digit(lb[ls.len() + 1int]));
        assert(strip_counter(lb) == lb);
        assert(lb =~= ls + lt);
    } else {
        let dec = decimal(counter);
        let front = ls + lt;
        assert(lb =~= (front + seq!['_']) + dec);
        lemma_last_index_past(front + seq!['_'], dec, '_');
        assert(last_index_of(front + seq!['_'], '_') == front.len());
        assert forall|j: int| front.len() < j < lb.len() implies is_digit(#[trigger] lb[j]) by {
            assert(lb[j] == dec[j - front.len() - 1]);
        }
        assert(strip_counter(lb) =~= front);
    }
    lemma_strip_effect_suffix(ls, mode);
}

/// A frame whose copy lies in the destination listing, under any folder,
/// mode, extension and counter, is among the frames already kept there.
pub proof fn lemma_written_copy_marks_its_frame(
    frames: Seq<Frame>,
    i: int,
    listing: Seq<Seq<char>>,
    k: int,
    dir: Seq<char>,
    mode: EffectMode,
    ext: Seq<char>,
    counter: nat,
)
    requires
        0 <= i < frames.len(),
        0 <= k < listing.len(),
        forall|j: int| 0 <= j < frames[i].stem@.len() ==> frames[i].stem@[j] != '/',
        forall|j: int| 0 <= j < ext.len() ==> ext[j] != '.' && ext[j] != '/',
        listing[k] == join(dir, output_name_text(frames[i].stem@, mode, ext, counter)),
    ensures
        already_kept_ids(frames, listing).contains(frames[i].id@),
{
    reveal_strlit("_");
    reveal_strlit(".");
    let stem = frames[i].stem@;
    let name = output_name_text(stem, mode, ext, counter);
    let suf = suffix_of(mode);
    lemma_lower_suffix(mode);
    assert(suf.len() == lower(suf).len());
    assert(name.len() >= 5);
    lemma_decimal_digits(counter);
    assert forall|j: int| 0 <= j < name.len() implies name[j] != '/' by {
        reveal_strlit("_ORIG");
        reveal_strlit("_WBV");
        reveal_strlit("_WBRGB");
        reveal_strlit("_CUSTOM");
        let tail: Seq<char> = if counter <= 1 { Seq::empty() } else { "_"@ + decimal(counter) };
        assert(name =~= stem + suf + tail + "."@ + ext);
        if j < stem.len() {
        } else if j < stem.len() + suf.len() {
            assert(name[j] == suf[j - stem.len()]);
        } else if j < stem.len() + suf.len() + tail.len() {
            assert(name[j] == tail[j - stem.len() - suf.len()]);
        } else if j == stem.len() + suf.len() + tail.len() {
        } else {
            assert(name[j] == ext[j - stem.len() - suf.len() - tail.len() - 1]);
        }
    }
    lemma_file_name_of_join(dir, name);
    lemma_written_copy_is_recognised(stem, mode, ext, counter);
    assert(base_of_path(listing[k]) == Some(lower(stem)));
    assert(listed_base(listing, lower(stem)));
}

fn ends_with_chars(s: &Vec<char>, t: &str) -> (r: bool)
    ensures
        r == ends_with(s@, t@),
{
    let tc = chars_of(t);
    if s.len() < tc.len() {
        return false;
    }
    let tail = slice_chars(s, s.len() - tc.len(), s.len());
    chars_eq(&tail, &tc)
}

fn strip_counter_chars(base: Vec<char>) -> (r: Vec<char>)
    ensures
        r@ == strip_counter(base@),
{
    proof { lemma_last_index_of(base@, '_'); }
    match find_last(&base, '_') {
        None => base,
        Some(cut) => {
            assert(cut < base.len());
            if cut + 1 >= base.len() {
                return base;
            }
            let mut j = cut + 1;
            while j < base.len()
                invariant
                    cut < j <= base.len(),
                    cut as int == last_index_of(base@, '_'),
                    forall|k: int| cut < k < j ==> is_digit(base@[k]),
                decreases base.len() - j,
            {
                if !('0' <= base[j] && base[j] <= '9') {
                    assert(!is_digit(base@[j as int]));
                    return base;
                }
                j += 1;
            }
            slice_chars(&base, 0, cut)
        },
    }
}

fn strip_effect_suffix_chars(base: Vec<char>) -> (r: Vec<char>)
    ensures
        r@ == strip_effect_suffix(base@),
{
    proof {
        reveal_strlit("_orig");
        reveal_strlit("_wbv");
        reveal_strlit("_wbrgb");
        reveal_strlit("_custom");
    }
    if ends_with_chars(&base, "_orig") {
        slice_chars(&base, 0, base.len() - 5)
    } else if ends_with_chars(&base, "_wbv") {
        slice_chars(&base, 0, base.len() - 4)
    } else if ends_with_chars(&base, "_wbrgb") {
        slice_chars(&base, 0, base.len() - 6)
    } else if ends_with_chars(&base, "_custom") {
        slice_chars(&base, 0, base.len() - 7)
    } else {
        base
    }
}

fn kept_base_chars(stem: &Vec<char>) -> (r: Vec<char>)
    ensures
        r@ == kept_base(stem@),
{
    let low = ascii_lower(stem);
    let c = strip_counter_chars(low);
    strip_effect_suffix_chars(c)
}

// ---------------------------------------------------------------------------
// Session
// ---------------------------------------------------------------------------

/// What is remembered of a folder between sittings.
pub struct PersistedSession {
    pub cursor_id: Option<String>,
    pub judgement: FrameTable<Judgement>,
    pub edits: FrameTable<EffectSpec>,
    pub destination: Destination,
    /// Absolute destinations offered again next time this folder is opened.
    pub remembered_destinations: Vec<String>,
    pub frame_count: usize,
    pub last_opened_secs: u64,
}

pub fn copy_strings(v: &Vec<String>) -> (r: Vec<String>)
    ensures
        r@ == v@,
{
    let mut out: Vec<String> = Vec::new();
    let mut i: usize = 0;
    while i < v.len()
        invariant
            0 <= i <= v.len(),
            out@ == v@.subrange(0, i as int),
        decreases v.len() - i,
    {
        out.push(v[i].clone());
        i += 1;
        assert(out@ =~= v@.subrange(0, i as int));
    }
    assert(v@.subrange(0, v.len() as int) =~= v@);
    out
}

impl PersistedSession {
    pub open spec fn wf(&self) -> bool {
        self.judgement.wf() && self.edits.wf()
    }

    /// A folder that has never been opened.
    pub fn empty() -> (r: PersistedSession)
        ensures
            r.wf(),
            r.cursor_id is None,
            r.judgement@ == Seq::<(Seq<char>, Judgement)>::empty(),
            r.edits@ == Seq::<(Seq<char>, EffectSpec)>::empty(),
            r.destination matches Destination::InWorkingFolder(n) && n@ == "selection"@,
            r.remembered_destinations@ == Seq::<String>::empty(),
            r.frame_count == 0,
            r.last_opened_secs == 0,
    {
        PersistedSession {
            cursor_id: None,
            judgement: FrameTable::new(),
            edits: FrameTable::new(),
            destination: Destination::default(),
            remembered_destinations: Vec::new(),
            frame_count: 0,
            last_opened_secs: 0,
        }
    }

    /// A copy of the record.
    pub fn duplicate(&self) -> (r: PersistedSession)
        ensures
            r.cursor_id == self.cursor_id,
            r.judgement@ == self.judgement@,
            r.edits@ == self.edits@,
            r.destination == self.destination,
            r.remembered_destinations@ == self.remembered_destinations@,
            r.frame_count == self.frame_count,
            r.last_opened_secs == self.last_opened_secs,
    {
        PersistedSession {
            cursor_id: match &self.cursor_id {
                Some(c) => Some(c.clone()),
                None => None,
            },
            judgement: self.judgement.duplicate(),
            edits: self.edits.duplicate(),
            destination: self.destination.clone(),
            remembered_destinations: copy_strings(&self.remembered_destinations),
            frame_count: self.frame_count,
            last_opened_secs: self.last_opened_secs,
        }
    }
}

/// The strings held, as character sequences.
pub open spec fn string_set(v: Seq<String>) -> Set<Seq<char>> {
    Set::new(|id: Seq<char>| exists|q: int| 0 <= q < v.len() && #[trigger] v[q]@ == id)
}

/// The identities of frames whose lower-case stem is among `bases`.
pub open spec fn ids_with_stem_in(frames: Seq<Frame>, bases: Seq<Seq<char>>) -> Set<Seq<char>> {
    Set::new(|id: Seq<char>| exists|j: int| 0 <= j < frames.len() && #[trigger] frames[j].id@ == id
        && bases.contains(lower(frames[j].stem@)))
}

/// Index of the first frame with this identity.
pub open spec fn index_of_id(frames: Seq<Frame>, id: Seq<char>) -> Option<int>
    decreases frames.len(),
{
    if frames.len() == 0 {
        None
    } else if frames[0].id@ == id {
        Some(0)
    } else {
        match index_of_id(frames.drop_first(), id) {
            Some(i) => Some(i + 1),
            None => None,
        }
    }
}

/// Frames kept in this session or already present in the destination.
pub open spec fn kept_frames(frames: Seq<Frame>, judgement: Seq<(Seq<char>, Judgement)>, present: Set<Seq<char>>) -> nat
    decreases frames.len(),
{
    if frames.len() == 0 {
        0
    } else {
        kept_frames(frames.drop_last(), judgement, present)
            + if lookup(judgement, frames.last().id@) == Some(Judgement::Kept) || present.contains(frames.last().id@) {
                1nat
            } else {
                0nat
            }
    }
}

/// The identities of frames whose lower-case stem was kept into a
/// destination with this listing.
pub open spec fn already_kept_ids(frames: Seq<Frame>, listing: Seq<Seq<char>>) -> Set<Seq<char>> {
    Set::new(|id: Seq<char>| exists|i: int| 0 <= i < frames.len() && #[trigger] frames[i].id@ == id
        && listed_base(listing, lower(frames[i].stem@)))
}

pub open spec fn clamp_cursor(cursor: int, delta: int, len: int) -> int {
    let next = cursor + delta;
    if next < 0 { 0 } else if next > len - 1 { len - 1 } else { next }
}

/// A live session: the persisted state plus the scanned frames.
pub struct Session {
    pub folder: String,
    pub frames: Vec<Frame>,
    pub cursor: usize,
    pub judgement: FrameTable<Judgement>,
    pub edits: FrameTable<EffectSpec>,
    pub destination: Destination,
    pub remembered_destinations: Vec<String>,
    /// Frames found already present in the destination when it was last scanned.
    pub already_in_destination: Vec<String>,
}

impl Session {
    pub open spec fn wf(&self) -> bool {
        self.judgement.wf() && self.edits.wf()
    }

    /// The identities already present in the destination.
    pub open spec fn present(&self) -> Set<Seq<char>> {
        string_set(self.already_in_destination@)
    }

    /// Open a folder's session on its scanned frames, resuming at the frame
    /// the cursor was on, and mark the frames already present in the
    /// destination, given the paths listed there (`None` when it cannot be
    /// read).
    pub fn open(folder: String, persisted: PersistedSession, frames: Vec<Frame>, listing: Option<Vec<String>>) -> (r: Session)
        requires
            persisted.wf(),
        ensures
            r.wf(),
            r.folder@ == folder@,
            r.frames@ == frames@,
            r.cursor == reopened_cursor(frames@, persisted.cursor_id),
            r.judgement@ == persisted.judgement@,
            r.edits@ == persisted.edits@,
            r.destination == persisted.destination,
            r.remembered_destinations@ == persisted.remembered_destinations@,
            r.present() == (match listing {
                Some(l) => already_kept_ids(frames@, l@.map_values(|p: String| p@)),
                None => Set::<Seq<char>>::empty(),
            }),
    {
        let cursor = match &persisted.cursor_id {
            Some(c) => match position_of_id(&frames, c.as_str()) {
                Some(i) => i,
                None => 0,
            },
            None => 0,
        };
        let mut session = Session {
            folder,
            frames,
            cursor,
            judgement: persisted.judgement,
            edits: persisted.edits,
            destination: persisted.destination,
            remembered_destinations: persisted.remembered_destinations,
            already_in_destination: Vec::new(),
        };
        session.rescan_destination(listing);
        session
    }

    pub fn current(&self) -> (r: Option<&Frame>)
        ensures
            r == (if self.cursor < self.frames.len() { Some(&self.frames[self.cursor as int]) } else { None }),
    {
        if self.cursor < self.frames.len() {
            Some(&self.frames[self.cursor])
        } else {
            None
        }
    }

    pub fn is_empty(&self) -> (r: bool)
        ensures
            r == (self.frames.len() == 0),
    {
        self.frames.len() == 0
    }

    /// Move the cursor by `delta`, clamped to the frames.
    pub fn advance(&mut self, delta: isize)
        ensures
            final(self).cursor == (if old(self).frames.len() == 0 { old(self).cursor as int } else {
                clamp_cursor(old(self).cursor as int, delta as int, old(self).frames.len() as int)
            }),
            final(self).frames == old(self).frames,
            final(self).folder == old(self).folder,
            final(self).judgement == old(self).judgement,
            final(self).edits == old(self).edits,
            final(self).destination == old(self).destination,
            final(self).remembered_destinations == old(self).remembered_destinations,
            final(self).already_in_destination == old(self).already_in_destination,
    {
        if self.frames.len() == 0 {
            return;
        }
        let last = self.frames.len() - 1;
        if delta >= 0 {
            let step = delta as usize;
            self.cursor = if self.cursor <= last && step <= last - self.cursor { self.cursor + step } else { last };
        } else {
            let back: usize = (-(delta + 1)) as usize + 1;
            let next = if self.cursor >= back { self.cursor - back } else { 0 };
            self.cursor = if next > last { last } else { next };
        }
    }

    /// Move the cursor to `index`, clamped to the last frame.
    pub fn select_frame(&mut self, index: usize)
        ensures
            final(self).cursor == (if old(self).frames.len() == 0 { 0 } else if index < old(self).frames.len() { index as int } else { old(self).frames.len() - 1 }),
            final(self).frames == old(self).frames,
            final(self).folder == old(self).folder,
            final(self).judgement == old(self).judgement,
            final(self).edits == old(self).edits,
            final(self).destination == old(self).destination,
            final(self).remembered_destinations == old(self).remembered_destinations,
            final(self).already_in_destination == old(self).already_in_destination,
    {
        let top = if self.frames.len() > 0 { self.frames.len() - 1 } else { 0 };
        self.cursor = if index < top { index } else { top };
    }

    pub fn judgement_of(&self, id: &str) -> (r: Option<Judgement>)
        requires
            self.wf(),
        ensures
            r == lookup(self.judgement@, id@),
    {
        self.judgement.get(id)
    }

    /// The edit for a frame, or the identity edit.
    pub fn effect_of(&self, id: &str) -> (r: EffectSpec)
        requires
            self.wf(),
        ensures
            r == (match lookup(self.edits@, id@) { Some(e) => e, None => default_effect() }),
    {
        match self.edits.get(id) {
            Some(e) => e,
            None => EffectSpec::default(),
        }
    }

    /// Record a frame's edit; the identity edit is not stored.
    pub fn set_effect(&mut self, id: String, spec: EffectSpec)
        requires
            old(self).wf(),
        ensures
            final(self).wf(),
            final(self).edits@ == (if effect_spec_eq(spec, default_effect()) {
                drop_key(old(self).edits@, id@)
            } else {
                drop_key(old(self).edits@, id@).push((id@, spec))
            }),
            final(self).judgement == old(self).judgement,
            final(self).frames == old(self).frames,
            final(self).cursor == old(self).cursor,
            final(self).already_in_destination == old(self).already_in_destination,
            final(self).folder == old(self).folder,
            final(self).destination == old(self).destination,
            final(self).remembered_destinations == old(self).remembered_destinations,
    {
        let d = EffectSpec::default();
        if spec == d {
            self.edits.remove(id.as_str());
        } else {
            self.edits.insert(id, spec);
        }
    }

    /// Frames kept in this session or already present in the destination.
    pub fn kept_count(&self) -> (r: usize)
        requires
            self.wf(),
        ensures
            r == kept_frames(self.frames@, self.judgement@, self.present()),
    {
        let mut n: usize = 0;
        let mut i: usize = 0;
        while i < self.frames.len()
            invariant
                0 <= i <= self.frames.len(),
                self.wf(),
                n == kept_frames(self.frames@.subrange(0, i as int), self.judgement@, self.present()),
                n <= i,
            decreases self.frames.len() - i,
        {
            let id = self.frames[i].id.as_str();
            let kept = match self.judgement.get(id) {
                Some(Judgement::Kept) => true,
                _ => false,
            };
            let counted = kept || self.is_in_destination(id);
            assert(self.frames@.subrange(0, i + 1).drop_last() =~= self.frames@.subrange(0, i as int));
            if counted {
                n += 1;
            }
            i += 1;
        }
        assert(self.frames@.subrange(0, self.frames.len() as int) =~= self.frames@);
        n
    }

    pub fn passed_count(&self) -> (r: usize)
        ensures
            r == count_where(self.judgement@, |j: Judgement| j == Judgement::Passed),
    {
        let mut n: usize = 0;
        let mut i: usize = 0;
        while i < self.judgement.len()
            invariant
                0 <= i <= self.judgement@.len(),
                n == count_where(self.judgement@.subrange(0, i as int), |j: Judgement| j == Judgement::Passed),
                n <= i,
            decreases self.judgement@.len() - i,
        {
            assert(self.judgement@.subrange(0, i + 1).drop_last() =~= self.judgement@.subrange(0, i as int));
            if self.judgement.value_at(i) == Judgement::Passed {
                n += 1;
            }
            i += 1;
        }
        assert(self.judgement@.subrange(0, self.judgement@.len() as int) =~= self.judgement@);
        n
    }

    pub fn seen_count(&self) -> (r: usize)
        ensures
            r == self.judgement@.len(),
    {
        self.judgement.len()
    }

    pub fn is_in_destination(&self, id: &str) -> (r: bool)
        ensures
            r == self.present().contains(id@),
    {
        let mut i: usize = 0;
        while i < self.already_in_destination.len()
            invariant
                0 <= i <= self.already_in_destination.len(),
                forall|j: int| 0 <= j < i ==> self.already_in_destination[j]@ != id@,
            decreases self.already_in_destination.len() - i,
        {
            if crate::text::str_eq(self.already_in_destination[i].as_str(), id) {
                assert(self.already_in_destination[i as int]@ == id@);
                return true;
            }
            i += 1;
        }
        false
    }

    /// Work out which frames are already present in the destination, given
    /// the paths listed there (`None` when it cannot be read). A listed file
    /// counts for a frame when its lower-case stem, less any `_<digits>`
    /// counter and then any effect suffix, equals the frame's lower-case stem.
    pub fn rescan_destination(&mut self, listing: Option<Vec<String>>)
        ensures
            final(self).present() == (match listing {
                Some(l) => already_kept_ids(old(self).frames@, l@.map_values(|p: String| p@)),
                None => Set::<Seq<char>>::empty(),
            }),
            final(self).frames == old(self).frames,
            final(self).folder == old(self).folder,
            final(self).cursor == old(self).cursor,
            final(self).judgement == old(self).judgement,
            final(self).edits == old(self).edits,
            final(self).destination == old(self).destination,
            final(self).remembered_destinations == old(self).remembered_destinations,
    {
        let ghost given = listing;
        self.already_in_destination = match listing {
            Some(l) => {
                let b = listed_bases(&l);
                proof {
                    let lv = l@.map_values(|p: String| p@);
                    lemma_bases_of(lv);
                }
                ids_with_listed_stem(&self.frames, &b)
            },
            None => Vec::new(),
        };
        proof {
            match given {
                Some(l) => {
                    let lv = l@.map_values(|p: String| p@);
                    assert(self.present() =~= already_kept_ids(old(self).frames@, lv));
                },
                None => {
                    assert(self.present() =~= Set::<Seq<char>>::empty());
                },
            }
        }
    }
}

/// The kept bases of the listed paths, in order.
fn listed_bases(listing: &Vec<String>) -> (r: Vec<Vec<char>>)
    ensures
        r@.map_values(|v: Vec<char>| v@) == bases_of(listing@.map_values(|p: String| p@)),
{
    let ghost lv = listing@.map_values(|p: String| p@);
    let mut bases: Vec<Vec<char>> = Vec::new();
    let mut i: usize = 0;
    while i < listing.len()
        invariant
            0 <= i <= listing.len(),
            lv == listing@.map_values(|p: String| p@),
            bases@.map_values(|v: Vec<char>| v@) == bases_of(lv.subrange(0, i as int)),
        decreases listing.len() - i,
    {
        let p = chars_of(listing[i].as_str());
        let ghost prev = bases@.map_values(|v: Vec<char>| v@);
        assert(lv.subrange(0, i + 1).drop_last() =~= lv.subrange(0, i as int));
        assert(lv.subrange(0, i + 1).last() == lv[i as int]);
        match file_name_chars(&p) {
            Some(name) => {
                let st = stem_chars(&name);
                let b = kept_base_chars(&st);
                assert(base_of_path(lv[i as int]) == Some(b@));
                bases.push(b);
                assert(bases@.map_values(|v: Vec<char>| v@) =~= prev.push(b@));
            },
            None => {
                assert(base_of_path(lv[i as int]) is None);
            },
        }
        i += 1;
    }
    assert(lv.subrange(0, lv.len() as int) =~= lv);
    bases
}

/// Whether `x` is among `bases`.
fn contains_chars(bases: &Vec<Vec<char>>, x: &Vec<char>) -> (r: bool)
    ensures
        r == bases@.map_values(|v: Vec<char>| v@).contains(x@),
{
    let ghost bv = bases@.map_values(|v: Vec<char>| v@);
    let mut k: usize = 0;
    while k < bases.len()
        invariant
            0 <= k <= bases.len(),
            bv == bases@.map_values(|v: Vec<char>| v@),
            forall|q: int| 0 <= q < k ==> bv[q] != x@,
        decreases bases.len() - k,
    {
        if chars_eq(&bases[k], x) {
            assert(bv[k as int] == x@);
            return true;
        }
        k += 1;
    }
    false
}

/// The identities of the frames whose lower-case stem is among `bases`.
#[verifier::spinoff_prover]
fn ids_with_listed_stem(frames: &Vec<Frame>, bases: &Vec<Vec<char>>) -> (r: Vec<String>)
    ensures
        string_set(r@) == ids_with_stem_in(frames@, bases@.map_values(|v: Vec<char>| v@)),
{
    let ghost bv = bases@.map_values(|v: Vec<char>| v@);
    let mut out: Vec<String> = Vec::new();
    let mut f: usize = 0;
    while f < frames.len()
        invariant
            0 <= f <= frames.len(),
            bv == bases@.map_values(|v: Vec<char>| v@),
            string_set(out@) == ids_with_stem_in(frames@.subrange(0, f as int), bv),
        decreases frames.len() - f,
    {
        let low = ascii_lower(&chars_of(frames[f].stem.as_str()));
        let found = contains_chars(bases, &low);
        let ghost before = out@;
        if found {
            out.push(frames[f].id.clone());
        }
        proof {
            let pre = frames@.subrange(0, f as int);
            let post = frames@.subrange(0, f + 1);
            assert forall|id: Seq<char>| string_set(out@).contains(id) <==> ids_with_stem_in(post, bv).contains(id) by {
                if string_set(out@).contains(id) {
                    let q = choose|q: int| 0 <= q < out@.len() && #[trigger] out@[q]@ == id;
                    if q < before.len() {
                        assert(before[q]@ == id);
                        assert(string_set(before).contains(id));
                        let j = choose|j: int| 0 <= j < pre.len() && #[trigger] pre[j].id@ == id
                            && bv.contains(lower(pre[j].stem@));
                        assert(post[j] == pre[j]);
                    } else {
                        assert(post[f as int].id@ == id);
                    }
                }
                if ids_with_stem_in(post, bv).contains(id) {
                    let j = choose|j: int| 0 <= j < post.len() && #[trigger] post[j].id@ == id
                        && bv.contains(lower(post[j].stem@));
                    if j < f {
                        assert(pre[j] == post[j]);
                        assert(pre[j].id@ == id && bv.contains(lower(pre[j].stem@)));
                        assert(ids_with_stem_in(pre, bv).contains(id));
                        let q = choose|q: int| 0 <= q < before.len() && #[trigger] before[q]@ == id;
                        assert(out@[q]@ == id);
                    } else {
                        assert(out@[out@.len() - 1]@ == id);
                    }
                }
            }
            assert(string_set(out@) =~= ids_with_stem_in(post, bv));
        }
        f += 1;
    }
    assert(frames@.subrange(0, frames.len() as int) =~= frames@);
    out
}

/// The kept bases of the listed paths that have a file stem, in order.
pub open spec fn bases_of(listing: Seq<Seq<char>>) -> Seq<Seq<char>>
    decreases listing.len(),
{
    if listing.len() == 0 {
        Seq::empty()
    } else {
        match base_of_path(listing.last()) {
            Some(b) => bases_of(listing.drop_last()).push(b),
            None => bases_of(listing.drop_last()),
        }
    }
}

proof fn lemma_bases_of(listing: Seq<Seq<char>>)
    ensures
        forall|b: Seq<char>|
            #![trigger bases_of(listing).contains(b)]
            #![trigger listed_base(listing, b)]
            bases_of(listing).contains(b) <==> listed_base(listing, b),
    decreases listing.len(),
{
    if listing.len() > 0 {
        let init = listing.drop_last();
        lemma_bases_of(init);
        assert forall|b: Seq<char>| bases_of(listing).contains(b) <==> listed_base(listing, b) by {
            if bases_of(listing).contains(b) {
                let q = choose|q: int| 0 <= q < bases_of(listing).len() && bases_of(listing)[q] == b;
                if q < bases_of(init).len() {
                    assert(bases_of(init)[q] == b);
                    assert(bases_of(init).contains(b));
                    assert(listed_base(init, b));
                    let j = choose|j: int| 0 <= j < init.len() && #[trigger] base_of_path(init[j]) == Some(b);
                    assert(listing[j] == init[j]);
                } else {
                    assert(base_of_path(listing[listing.len() - 1]) == Some(b));
                }
            }
            if listed_base(listing, b) {
                let j = choose|j: int| 0 <= j < listing.len() && #[trigger] base_of_path(listing[j]) == Some(b);
                if j < listing.len() - 1 {
                    assert(init[j] == listing[j]);
                    assert(listed_base(init, b));
                    assert(bases_of(init).contains(b));
                    let q = choose|q: int| 0 <= q < bases_of(init).len() && bases_of(init)[q] == b;
                    assert(bases_of(listing)[q] == b);
                } else {
                    assert(bases_of(listing).last() == b);
                    assert(bases_of(listing)[bases_of(listing).len() - 1] == b);
                }
            }
        }
    }
}

proof fn lemma_index_of_id(frames: Seq<Frame>, id: Seq<char>, i: int)
    requires
        0 <= i <= frames.len(),
        forall|j: int| 0 <= j < i ==> frames[j].id@ != id,
    ensures
        i < frames.len() && frames[i].id@ == id ==> index_of_id(frames, id) == Some(i),
        i == frames.len() ==> index_of_id(frames, id) is None,
    decreases i,
{
    if i > 0 {
        lemma_index_of_id(frames.drop_first(), id, i - 1);
    } else if frames.len() > 0 {
    }
}

/// Position of the first frame with this identity.
pub fn position_of_id(frames: &Vec<Frame>, id: &str) -> (r: Option<usize>)
    ensures
        match r {
            Some(k) => index_of_id(frames@, id@) == Some(k as int),
            None => index_of_id(frames@, id@) is None,
        },
{
    let mut i: usize = 0;
    while i < frames.len()
        invariant
            0 <= i <= frames.len(),
            forall|j: int| 0 <= j < i ==> frames@[j].id@ != id@,
        decreases frames.len() - i,
    {
        if crate::text::str_eq(frames[i].id.as_str(), id) {
            proof { lemma_index_of_id(frames@, id@, i as int); }
            return Some(i);
        }
        i += 1;
    }
    proof { lemma_index_of_id(frames@, id@, i as int); }
    None
}


// ---------------------------------------------------------------------------
// Saving a session
// ---------------------------------------------------------------------------

impl PersistedSession {
    /// The same record: equal fields, the tables compared by their entries.
    pub open spec fn same_as(&self, other: &PersistedSession) -> bool {
        &&& self.cursor_id == other.cursor_id
        &&& self.judgement@ == other.judgement@
        &&& self.edits@ == other.edits@
        &&& self.destination == other.destination
        &&& self.remembered_destinations@ == other.remembered_destinations@
        &&& self.frame_count == other.frame_count
        &&& self.last_opened_secs == other.last_opened_secs
    }

    /// The record of a folder that has never been opened.
    pub open spec fn is_blank(&self) -> bool {
        &&& self.cursor_id is None
        &&& self.judgement@ == Seq::<(Seq<char>, Judgement)>::empty()
        &&& self.edits@ == Seq::<(Seq<char>, EffectSpec)>::empty()
        &&& self.destination matches Destination::InWorkingFolder(n) && n@ == "selection"@
        &&& self.remembered_destinations@ == Seq::<String>::empty()
        &&& self.frame_count == 0
        &&& self.last_opened_secs == 0
    }
}

impl Session {
    /// The identity of the frame under the cursor, if the cursor is on one.
    pub open spec fn cursor_id(&self) -> Option<String> {
        if self.cursor < self.frames.len() { Some(self.frames[self.cursor as int].id) } else { None }
    }

    /// The record to keep of this session, stamped as last opened at `now`.
    pub fn to_persisted_at(&self, now: u64) -> (r: PersistedSession)
        requires
            self.wf(),
        ensures
            r.wf(),
            r.cursor_id == self.cursor_id(),
            r.judgement@ == self.judgement@,
            r.edits@ == self.edits@,
            r.destination == self.destination,
            r.remembered_destinations@ == self.remembered_destinations@,
            r.frame_count == self.frames.len(),
            r.last_opened_secs == now,
    {
        PersistedSession {
            cursor_id: match self.current() {
                Some(f) => Some(f.id.clone()),
                None => None,
            },
            judgement: self.judgement.duplicate(),
            edits: self.edits.duplicate(),
            destination: self.destination.clone(),
            remembered_destinations: copy_strings(&self.remembered_destinations),
            frame_count: self.frames.len(),
            last_opened_secs: now,
        }
    }

    /// The record to keep of this session, stamped with the current time.
    pub fn to_persisted(&self) -> (r: PersistedSession)
        requires
            self.wf(),
        ensures
            r.wf(),
            r.cursor_id == self.cursor_id(),
            r.judgement@ == self.judgement@,
            r.edits@ == self.edits@,
            r.destination == self.destination,
            r.remembered_destinations@ == self.remembered_destinations@,
            r.frame_count == self.frames.len(),
    {
        self.to_persisted_at(now_secs())
    }
}

/// Entries of `t` with value `which`.
fn count_judged(t: &FrameTable<Judgement>, which: Judgement) -> (r: usize)
    ensures
        r == count_where(t@, |j: Judgement| j == which),
{
    let mut n: usize = 0;
    let mut i: usize = 0;
    while i < t.len()
        invariant
            0 <= i <= t@.len(),
            n == count_where(t@.subrange(0, i as int), |j: Judgement| j == which),
            n <= i,
        decreases t@.len() - i,
    {
        assert(t@.subrange(0, i + 1).drop_last() =~= t@.subrange(0, i as int));
        if t.value_at(i) == which {
            n += 1;
        }
        i += 1;
    }
    assert(t@.subrange(0, t@.len() as int) =~= t@);
    n
}

// ---------------------------------------------------------------------------
// Store
// ---------------------------------------------------------------------------

/// How many folders the recent list holds.
pub const MAX_RECENT: usize = 12;

/// The paths held, as character sequences.
pub open spec fn paths(v: Seq<String>) -> Seq<Seq<char>> {
    v.map_values(|p: String| p@)
}

/// The entries of `s` that do not name `folder`, in order.
pub open spec fn other_paths(s: Seq<Seq<char>>, folder: Seq<char>) -> Seq<Seq<char>>
    decreases s.len(),
{
    if s.len() == 0 {
        s
    } else if same_path(s.last(), folder) {
        other_paths(s.drop_last(), folder)
    } else {
        other_paths(s.drop_last(), folder).push(s.last())
    }
}

/// The recent list after `folder` was opened: it comes first, no other
/// entry names it, and the list holds at most `MAX_RECENT` folders.
pub open spec fn recent_after(recent: Seq<Seq<char>>, folder: Seq<char>) -> Seq<Seq<char>> {
    let r = seq![folder] + other_paths(recent, folder);
    if r.len() > MAX_RECENT { r.take(MAX_RECENT as int) } else { r }
}

/// No two entries name the same folder.
pub open spec fn distinct_paths(s: Seq<Seq<char>>) -> bool {
    forall|i: int, j: int| 0 <= i < s.len() && 0 <= j < s.len() && i != j ==> !same_path(#[trigger] s[i], #[trigger] s[j])
}

/// The session stored last under a path naming `folder`.
pub open spec fn session_for(s: Seq<(String, PersistedSession)>, folder: Seq<char>) -> Option<PersistedSession>
    decreases s.len(),
{
    if s.len() == 0 {
        None
    } else if same_path(s.last().0@, folder) {
        Some(s.last().1)
    } else {
        session_for(s.drop_last(), folder)
    }
}

/// The stored sessions whose path does not name `folder`, in order.
pub open spec fn without_folder(s: Seq<(String, PersistedSession)>, folder: Seq<char>) -> Seq<(String, PersistedSession)>
    decreases s.len(),
{
    if s.len() == 0 {
        s
    } else if same_path(s.last().0@, folder) {
        without_folder(s.drop_last(), folder)
    } else {
        without_folder(s.drop_last(), folder).push(s.last())
    }
}

/// What the switcher shows of a folder's progress.
pub open spec fn progress_text(p: Option<PersistedSession>) -> Seq<char> {
    match p {
        None => "not started"@,
        Some(s) => {
            let seen = s.judgement@.len();
            let kept = count_where(s.judgement@, |j: Judgement| j == Judgement::Kept);
            if seen == 0 {
                decimal(s.frame_count as nat) + " frames · not started"@
            } else {
                decimal(s.frame_count as nat) + " frames · "@ + decimal(seen) + " seen · "@
                    + decimal(kept) + " kept"@
            }
        },
    }
}

/// Every folder's session, the recent folders, and the theme preference.
pub struct SessionStore {
    pub sessions: Vec<(String, PersistedSession)>,
    pub recent: Vec<String>,
    pub prefer_light_theme: Option<bool>,
}

impl Default for SessionStore {
    fn default() -> (r: SessionStore)
        ensures
            r.wf(),
            r.sessions@ == Seq::<(String, PersistedSession)>::empty(),
            r.recent@ == Seq::<String>::empty(),
            r.prefer_light_theme is None,
    {
        SessionStore { sessions: Vec::new(), recent: Vec::new(), prefer_light_theme: None }
    }
}

impl SessionStore {
    /// Every stored session is well formed.
    pub open spec fn wf(&self) -> bool {
        forall|i: int| 0 <= i < self.sessions.len() ==> (#[trigger] self.sessions[i]).1.wf()
    }

    /// Put `folder` first in the recent list, drop any other entry naming it,
    /// and keep at most `MAX_RECENT` entries.
    pub fn touch_recent(&mut self, folder: &str)
        ensures
            paths(final(self).recent@) == recent_after(paths(old(self).recent@), folder@),
            final(self).sessions == old(self).sessions,
            final(self).prefer_light_theme == old(self).prefer_light_theme,
    {
        let ghost before = paths(self.recent@);
        let mut next: Vec<String> = Vec::new();
        next.push(folder.to_owned());
        let mut i: usize = 0;
        while i < self.recent.len()
            invariant
                0 <= i <= self.recent.len(),
                before == paths(self.recent@),
                paths(next@) == seq![folder@] + other_paths(before.subrange(0, i as int), folder@),
            decreases self.recent.len() - i,
        {
            let ghost prev = paths(next@);
            assert(before.subrange(0, i + 1).drop_last() =~= before.subrange(0, i as int));
            assert(before.subrange(0, i + 1).last() == self.recent@[i as int]@);
            if !same_path_str(self.recent[i].as_str(), folder) {
                next.push(self.recent[i].clone());
                assert(paths(next@) =~= prev.push(self.recent@[i as int]@));
            }
            i += 1;
        }
        assert(before.subrange(0, before.len() as int) =~= before);
        let ghost full = paths(next@);
        next.truncate(MAX_RECENT);
        proof {
            if full.len() > MAX_RECENT {
                assert(paths(next@) =~= full.take(MAX_RECENT as int));
            } else {
                assert(paths(next@) =~= full);
            }
        }
        self.recent = next;
    }

    /// Index of the entry `session_for` picks for `folder`.
    fn find(&self, folder: &str) -> (r: Option<usize>)
        ensures
            match r {
                Some(i) => i < self.sessions.len() && session_for(self.sessions@, folder@) == Some(self.sessions@[i as int].1),
                None => session_for(self.sessions@, folder@) is None,
            },
    {
        let mut i: usize = self.sessions.len();
        assert(self.sessions@.subrange(0, i as int) =~= self.sessions@);
        while i > 0
            invariant
                i <= self.sessions.len(),
                session_for(self.sessions@, folder@) == session_for(self.sessions@.subrange(0, i as int), folder@),
            decreases i,
        {
            let ghost pre = self.sessions@.subrange(0, i as int);
            assert(pre.drop_last() =~= self.sessions@.subrange(0, i - 1));
            i -= 1;
            if same_path_str(self.sessions[i].0.as_str(), folder) {
                return Some(i);
            }
        }
        None
    }

    /// The session kept for `folder`, or a blank one.
    pub fn get(&self, folder: &str) -> (r: PersistedSession)
        requires
            self.wf(),
        ensures
            r.wf(),
            match session_for(self.sessions@, folder@) {
                Some(p) => r.same_as(&p),
                None => r.is_blank(),
            },
    {
        match self.find(folder) {
            Some(i) => self.sessions[i].1.duplicate(),
            None => PersistedSession::empty(),
        }
    }

    /// Keep `session` for `folder`, replacing whatever was kept for it.
    pub fn put(&mut self, folder: String, session: PersistedSession)
        requires
            old(self).wf(),
            session.wf(),
        ensures
            final(self).wf(),
            final(self).sessions@ == without_folder(old(self).sessions@, folder@).push((folder, session)),
            final(self).recent == old(self).recent,
            final(self).prefer_light_theme == old(self).prefer_light_theme,
    {
        let ghost start = self.sessions@;
        let ghost mut k: int = 0;
        let mut i: usize = 0;
        while i < self.sessions.len()
            invariant
                0 <= i <= self.sessions.len(),
                0 <= k <= start.len(),
                forall|j: int| 0 <= j < start.len() ==> (#[trigger] start[j]).1.wf(),
                self.sessions@.subrange(0, i as int) == without_folder(start.subrange(0, k), folder@),
                self.sessions@.subrange(i as int, self.sessions@.len() as int) == start.subrange(k, start.len() as int),
                self.recent == old(self).recent,
                self.prefer_light_theme == old(self).prefer_light_theme,
            decreases self.sessions.len() - i,
        {
            let ghost cur = self.sessions@;
            assert(k < start.len() && start[k] == cur[i as int]) by {
                assert(cur.subrange(i as int, cur.len() as int).len() > 0);
                assert(start.subrange(k, start.len() as int).len() > 0);
                assert(cur.subrange(i as int, cur.len() as int)[0] == cur[i as int]);
                assert(start.subrange(k, start.len() as int)[0] == start[k]);
            }
            assert(start.subrange(0, k + 1).drop_last() =~= start.subrange(0, k));
            assert(start.subrange(0, k + 1).last() == start[k]);
            if same_path_str(self.sessions[i].0.as_str(), folder.as_str()) {
                self.sessions.remove(i);
                proof {
                    assert(self.sessions@.subrange(0, i as int) =~= cur.subrange(0, i as int));
                    assert(self.sessions@.subrange(i as int, self.sessions@.len() as int)
                        =~= cur.subrange(i + 1, cur.len() as int));
                    lemma_tail_shift(start, cur, k, i as int);
                    k = k + 1;
                }
            } else {
                proof {
                    assert(cur.subrange(0, i + 1) =~= cur.subrange(0, i as int).push(cur[i as int]));
                    lemma_tail_shift(start, cur, k, i as int);
                    k = k + 1;
                }
                i += 1;
            }
        }
        proof {
            assert(k == start.len()) by {
                assert(self.sessions@.subrange(i as int, self.sessions@.len() as int).len() == 0);
            }
            assert(start.subrange(0, k) =~= start);
            assert(self.sessions@ =~= self.sessions@.subrange(0, i as int));
            lemma_without_folder_from(start, folder@);
        }
        self.sessions.push((folder, session));
    }

    /// "412 frames · 120 seen · 38 kept", "412 frames · not started", or
    /// "not started" for a folder with no session.
    pub fn progress_line(&self, folder: &str) -> (r: String)
        ensures
            r@ == progress_text(session_for(self.sessions@, folder@)),
    {
        let mut out: Vec<char> = Vec::new();
        match self.find(folder) {
            None => {
                push_str(&mut out, "not started");
            },
            Some(i) => {
                let s = &self.sessions[i].1;
                let seen = s.judgement.len();
                push_decimal(&mut out, s.frame_count as u64);
                if seen == 0 {
                    push_str(&mut out, " frames · not started");
                } else {
                    let kept = count_judged(&s.judgement, Judgement::Kept);
                    push_str(&mut out, " frames · ");
                    push_decimal(&mut out, seen as u64);
                    push_str(&mut out, " seen · ");
                    push_decimal(&mut out, kept as u64);
                    push_str(&mut out, " kept");
                }
            },
        }
        proof {
            match session_for(self.sessions@, folder@) {
                None => { assert(out@ =~= progress_text(session_for(self.sessions@, folder@))); },
                Some(p) => { assert(out@ =~= progress_text(session_for(self.sessions@, folder@))); },
            }
        }
        string_of(&out)
    }
}

proof fn lemma_tail_shift<A>(start: Seq<A>, cur: Seq<A>, k: int, i: int)
    requires
        0 <= k < start.len(),
        0 <= i < cur.len(),
        cur.subrange(i, cur.len() as int) == start.subrange(k, start.len() as int),
    ensures
        cur.subrange(i + 1, cur.len() as int) == start.subrange(k + 1, start.len() as int),
{
    let a = cur.subrange(i, cur.len() as int);
    let b = start.subrange(k, start.len() as int);
    assert(a.len() == b.len());
    assert forall|q: int| 0 <= q < b.len() - 1 implies
        #[trigger] cur.subrange(i + 1, cur.len() as int)[q] == start.subrange(k + 1, start.len() as int)[q] by {
        assert(a[q + 1] == b[q + 1]);
    }
    assert(cur.subrange(i + 1, cur.len() as int) =~= start.subrange(k + 1, start.len() as int));
}

/// Every session kept by `without_folder` is one of the sessions given.
proof fn lemma_without_folder_from(s: Seq<(String, PersistedSession)>, folder: Seq<char>)
    ensures
        forall|j: int| 0 <= j < without_folder(s, folder).len() ==>
            exists|q: int| 0 <= q < s.len() && #[trigger] without_folder(s, folder)[j] == s[q],
        forall|j: int| 0 <= j < without_folder(s, folder).len() ==>
            !same_path((#[trigger] without_folder(s, folder)[j]).0@, folder),
    decreases s.len(),
{
    if s.len() > 0 {
        lemma_without_folder_from(s.drop_last(), folder);
        let w = without_folder(s.drop_last(), folder);
        if !same_path(s.last().0@, folder) {
            assert forall|j: int| 0 <= j < without_folder(s, folder).len() implies
                exists|q: int| 0 <= q < s.len() && #[trigger] without_folder(s, folder)[j] == s[q] by {
                if j < w.len() {
                    let q = choose|q: int| 0 <= q < s.drop_last().len() && #[trigger] w[j] == s.drop_last()[q];
                    assert(without_folder(s, folder)[j] == s[q]);
                } else {
                    assert(without_folder(s, folder)[j] == s[s.len() - 1]);
                }
            }
        } else {
            assert forall|j: int| 0 <= j < without_folder(s, folder).len() implies
                exists|q: int| 0 <= q < s.len() && #[trigger] without_folder(s, folder)[j] == s[q] by {
                let q = choose|q: int| 0 <= q < s.drop_last().len() && #[trigger] w[j] == s.drop_last()[q];
                assert(without_folder(s, folder)[j] == s[q]);
            }
        }
    }
}

/// "2 days ago", as the recent list shows the age of a folder's last
/// opening `secs`, seen at `now` (both in seconds since the epoch).
pub open spec fn age_text(secs: u64, now: u64) -> Seq<char> {
    let delta: nat = if now > secs { (now - secs) as nat } else { 0 };
    if secs == 0 {
        "never"@
    } else if delta < 60 {
        "just now"@
    } else if delta < 3600 {
        decimal(delta / 60) + " min ago"@
    } else if delta < 86_400 {
        decimal(delta / 3600) + " h ago"@
    } else if delta < 172_800 {
        "yesterday"@
    } else if delta < 2_592_000 {
        decimal(delta / 86_400) + " days ago"@
    } else {
        decimal(delta / 604_800) + " weeks ago"@
    }
}

/// The age of an opening at `secs`, seen at `now`.
pub fn age_label(secs: u64, now: u64) -> (r: String)
    ensures
        r@ == age_text(secs, now),
{
    let mut out: Vec<char> = Vec::new();
    let delta = now.saturating_sub(secs);
    if secs == 0 {
        push_str(&mut out, "never");
    } else if delta < 60 {
        push_str(&mut out, "just now");
    } else if delta < 3600 {
        push_decimal(&mut out, delta / 60);
        push_str(&mut out, " min ago");
    } else if delta < 86_400 {
        push_decimal(&mut out, delta / 3600);
        push_str(&mut out, " h ago");
    } else if delta < 172_800 {
        push_str(&mut out, "yesterday");
    } else if delta < 2_592_000 {
        push_decimal(&mut out, delta / 86_400);
        push_str(&mut out, " days ago");
    } else {
        push_decimal(&mut out, delta / 604_800);
        push_str(&mut out, " weeks ago");
    }
    assert(out@ =~= age_text(secs, now));
    string_of(&out)
}

/// "2 days ago" for the recent list, against the system clock.
pub fn relative_age(secs: u64) -> (r: String)
    ensures
        exists|now: u64| r@ == #[trigger] age_text(secs, now),
{
    let now = now_secs();
    age_label(secs, now)
}


// ---------------------------------------------------------------------------
// Laws
// ---------------------------------------------------------------------------

proof fn lemma_other_paths(s: Seq<Seq<char>>, folder: Seq<char>)
    ensures
        forall|j: int| 0 <= j < other_paths(s, folder).len() ==> !same_path(#[trigger] other_paths(s, folder)[j], folder),
        forall|j: int| 0 <= j < other_paths(s, folder).len() ==>
            exists|q: int| 0 <= q < s.len() && #[trigger] other_paths(s, folder)[j] == s[q],
        distinct_paths(s) ==> distinct_paths(other_paths(s, folder)),
        other_paths(s, folder).len() <= s.len(),
    decreases s.len(),
{
    if s.len() > 0 {
        let init = s.drop_last();
        lemma_other_paths(init, folder);
        let w = other_paths(init, folder);
        let r = other_paths(s, folder);
        assert forall|j: int| 0 <= j < r.len() implies exists|q: int| 0 <= q < s.len() && #[trigger] r[j] == s[q] by {
            if j < w.len() {
                let q = choose|q: int| 0 <= q < init.len() && #[trigger] w[j] == init[q];
                assert(r[j] == s[q]);
            } else {
                assert(r[j] == s[s.len() - 1]);
            }
        }
        if distinct_paths(s) {
            assert(distinct_paths(init)) by {
                assert forall|a: int, b: int| 0 <= a < init.len() && 0 <= b < init.len() && a != b
                    implies !same_path(#[trigger] init[a], #[trigger] init[b]) by {
                    assert(init[a] == s[a] && init[b] == s[b]);
                }
            }
            if !same_path(s.last(), folder) {
                assert forall|a: int, b: int| 0 <= a < r.len() && 0 <= b < r.len() && a != b
                    implies !same_path(#[trigger] r[a], #[trigger] r[b]) by {
                    if a < w.len() && b < w.len() {
                        assert(r[a] == w[a] && r[b] == w[b]);
                    } else if a < w.len() {
                        let q = choose|q: int| 0 <= q < init.len() && #[trigger] w[a] == init[q];
                        assert(r[a] == s[q] && r[b] == s[s.len() - 1]);
                    } else if b < w.len() {
                        let q = choose|q: int| 0 <= q < init.len() && #[trigger] w[b] == init[q];
                        assert(r[b] == s[q] && r[a] == s[s.len() - 1]);
                    }
                }
            }
        }
    }
}

/// Opening a folder puts it first in the recent list, keeps no other entry
/// naming it, holds at most `MAX_RECENT` entries, and keeps a list free of
/// repeats free of repeats.
pub proof fn lemma_recent_is_most_recent_first_and_deduped(recent: Seq<Seq<char>>, folder: Seq<char>)
    ensures
        recent_after(recent, folder).len() >= 1,
        recent_after(recent, folder)[0] == folder,
        recent_after(recent, folder).len() <= MAX_RECENT,
        forall|j: int| 1 <= j < recent_after(recent, folder).len() ==>
            !same_path(#[trigger] recent_after(recent, folder)[j], folder),
        distinct_paths(recent) ==> distinct_paths(recent_after(recent, folder)),
{
    lemma_other_paths(recent, folder);
    let o = other_paths(recent, folder);
    let full = seq![folder] + o;
    let r = recent_after(recent, folder);
    assert forall|j: int| 1 <= j < r.len() implies !same_path(#[trigger] r[j], folder) by {
        assert(r[j] == full[j]);
        assert(full[j] == o[j - 1]);
    }
    if distinct_paths(recent) {
        assert forall|a: int, b: int| 0 <= a < r.len() && 0 <= b < r.len() && a != b
            implies !same_path(#[trigger] r[a], #[trigger] r[b]) by {
            assert(r[a] == full[a] && r[b] == full[b]);
            if a > 0 && b > 0 {
                assert(full[a] == o[a - 1] && full[b] == o[b - 1]);
            } else if a == 0 {
                assert(full[b] == o[b - 1]);
            } else {
                assert(full[a] == o[a - 1]);
            }
        }
    }
}

proof fn lemma_without_folder_keeps_others(s: Seq<(String, PersistedSession)>, folder: Seq<char>, other: Seq<char>)
    requires
        !same_path(folder, other),
    ensures
        session_for(without_folder(s, folder), other) == session_for(s, other),
    decreases s.len(),
{
    if s.len() > 0 {
        lemma_without_folder_keeps_others(s.drop_last(), folder, other);
        if !same_path(s.last().0@, folder) {
            assert(without_folder(s, folder).drop_last() =~= without_folder(s.drop_last(), folder));
        }
    }
}

/// Reading a folder's session back after storing one: a path naming the
/// stored folder gives what was stored, any other path gives what it gave
/// before.
pub proof fn lemma_put_then_get(s: Seq<(String, PersistedSession)>, key: String, p: PersistedSession, other: Seq<char>)
    ensures
        session_for(without_folder(s, key@).push((key, p)), other)
            == (if same_path(key@, other) { Some(p) } else { session_for(s, other) }),
{
    let w = without_folder(s, key@);
    assert(w.push((key, p)).drop_last() =~= w);
    if !same_path(key@, other) {
        lemma_without_folder_keeps_others(s, key@, other);
    }
}

/// Returning to a folder lands on the frame that was left: when the frames
/// have distinct identities, the saved cursor identity is found again at
/// the cursor's position.
pub proof fn lemma_resume_lands_on_the_same_frame(frames: Seq<Frame>, cursor: int)
    requires
        0 <= cursor < frames.len(),
        forall|a: int, b: int| 0 <= a < frames.len() && 0 <= b < frames.len() && a != b
            ==> (#[trigger] frames[a]).id@ != (#[trigger] frames[b]).id@,
    ensures
        index_of_id(frames, frames[cursor].id@) == Some(cursor),
{
    assert forall|j: int| 0 <= j < cursor implies frames[j].id@ != frames[cursor].id@ by {
        assert(frames[j].id@ != frames[cursor].id@);
    }
    lemma_index_of_id(frames, frames[cursor].id@, cursor);
}

/// What `Session::open` makes of a stored cursor identity over `frames`.
pub open spec fn reopened_cursor(frames: Seq<Frame>, cursor_id: Option<String>) -> int {
    match cursor_id {
        Some(c) => match index_of_id(frames, c@) { Some(i) => i, None => 0 },
        None => 0,
    }
}

/// Storing a session and opening its folder again over the same frames
/// puts the cursor back where it was: `to_persisted` keeps the identity of
/// the frame under the cursor, and `open` finds it again, when the frames'
/// identities are distinct (an empty folder reopens at 0).
pub proof fn lemma_reopening_restores_the_cursor(s: Session)
    requires
        s.cursor < s.frames.len() || (s.frames.len() == 0 && s.cursor == 0),
        forall|a: int, b: int| 0 <= a < s.frames.len() && 0 <= b < s.frames.len() && a != b
            ==> (#[trigger] s.frames@[a]).id@ != (#[trigger] s.frames@[b]).id@,
    ensures
        reopened_cursor(s.frames@, s.cursor_id()) == s.cursor,
{
    if s.cursor < s.frames.len() {
        lemma_resume_lands_on_the_same_frame(s.frames@, s.cursor as int);
    }
}

/// Leaving a folder and coming back restores it: after `put` stores what
/// `to_persisted` made of a session under its folder, `get` reads that
/// record back, and `open` over the same frames gives back the cursor, the
/// judgements, the edits and the destination that were left (when the
/// frames' identities are distinct).
pub proof fn lemma_leaving_and_returning_restores_the_session(
    s: Session,
    stored: Seq<(String, PersistedSession)>,
    p: PersistedSession,
    read: PersistedSession,
    r: Session,
)
    requires
        s.cursor < s.frames.len() || (s.frames.len() == 0 && s.cursor == 0),
        forall|a: int, b: int| 0 <= a < s.frames.len() && 0 <= b < s.frames.len() && a != b
            ==> (#[trigger] s.frames@[a]).id@ != (#[trigger] s.frames@[b]).id@,
        p.cursor_id == s.cursor_id(),
        p.judgement@ == s.judgement@,
        p.edits@ == s.edits@,
        p.destination == s.destination,
        match session_for(without_folder(stored, s.folder@).push((s.folder, p)), s.folder@) {
            Some(q) => read.same_as(&q),
            None => read.is_blank(),
        },
        r.frames@ == s.frames@,
        r.cursor == reopened_cursor(s.frames@, read.cursor_id),
        r.judgement@ == read.judgement@,
        r.edits@ == read.edits@,
        r.destination == read.destination,
    ensures
        r.cursor == s.cursor,
        r.judgement@ == s.judgement@,
        r.edits@ == s.edits@,
        r.destination == s.destination,
{
    lemma_put_then_get(stored, s.folder, p, s.folder@);
    lemma_reopening_restores_the_cursor(s);
}

// ---------------------------------------------------------------------------
// Judging frames
// ---------------------------------------------------------------------------

/// The status line after a write landed under a different name.
pub open spec fn renamed_notice(written: Seq<char>) -> Seq<char> {
    "a different file had that name — wrote "@ + match file_name(written) {
        Some(n) => n,
        None => Seq::<char>::empty(),
    }
}

/// What a finished write has to say: its error, or the name it was written
/// under when that differs from the frame's.
pub open spec fn write_notice(outcome: WriteOutcome) -> Option<Seq<char>> {
    match outcome.error {
        Some(message) => Some(message@),
        None => if outcome.renamed && outcome.written is Some {
            Some(renamed_notice(outcome.written->0@))
        } else {
            None
        },
    }
}

/// The lower-case extension a kept copy is written with: the frame's own,
/// or `jpg` when it has none.
pub open spec fn output_extension_of(path: Seq<char>) -> Seq<char> {
    lower(match extension(path) {
        Some(e) => e,
        None => "jpg"@,
    })
}

/// The extension a kept copy of `path` is written with.
pub fn output_extension(path: &str) -> (r: String)
    ensures
        r@ == output_extension_of(path@),
{
    let p = chars_of(path);
    let e = match file_name_chars(&p) {
        Some(name) => {
            assert(file_name(path@) == Some(name@));
            match extension_chars(&name) {
                Some(e) => e,
                None => chars_of("jpg"),
            }
        },
        None => chars_of("jpg"),
    };
    string_of(&ascii_lower(&e))
}

impl Session {
    /// Mark a frame kept with the edit it is written with.
    pub fn mark_kept(&mut self, id: String, spec: EffectSpec)
        requires
            old(self).wf(),
        ensures
            final(self).wf(),
            final(self).judgement@ == drop_key(old(self).judgement@, id@).push((id@, Judgement::Kept)),
            final(self).edits@ == (if effect_spec_eq(spec, default_effect()) {
                drop_key(old(self).edits@, id@)
            } else {
                drop_key(old(self).edits@, id@).push((id@, spec))
            }),
            final(self).frames == old(self).frames,
            final(self).cursor == old(self).cursor,
            final(self).destination == old(self).destination,
            final(self).already_in_destination == old(self).already_in_destination,
    {
        let key = id.clone();
        self.judgement.insert(key, Judgement::Kept);
        self.set_effect(id, spec);
    }

    /// Pass the frame under the cursor and step to the next; false when the
    /// cursor is on no frame.
    pub fn pass_current(&mut self) -> (r: bool)
        requires
            old(self).wf(),
        ensures
            final(self).wf(),
            r == (old(self).cursor < old(self).frames.len()),
            r ==> final(self).judgement@ == drop_key(old(self).judgement@, old(self).frames@[old(self).cursor as int].id@)
                .push((old(self).frames@[old(self).cursor as int].id@, Judgement::Passed)),
            r ==> final(self).cursor == clamp_cursor(old(self).cursor as int, 1, old(self).frames.len() as int),
            !r ==> *final(self) == *old(self),
            final(self).frames == old(self).frames,
            final(self).edits == old(self).edits,
            final(self).already_in_destination == old(self).already_in_destination,
    {
        if self.cursor >= self.frames.len() {
            return false;
        }
        let id = self.frames[self.cursor].id.clone();
        self.judgement.insert(id, Judgement::Passed);
        self.advance(1);
        true
    }

    /// Turn the frame under the cursor by `delta` quarter turns; false when
    /// the cursor is on no frame.
    pub fn rotate_current(&mut self, delta: i32) -> (r: bool)
        requires
            old(self).wf(),
            old(self).cursor < old(self).frames.len() ==> ({
                let e = match lookup(old(self).edits@, old(self).frames@[old(self).cursor as int].id@) {
                    Some(e) => e,
                    None => default_effect(),
                };
                i32::MIN <= e.quarter_turns + delta <= i32::MAX
            }),
        ensures
            final(self).wf(),
            r == (old(self).cursor < old(self).frames.len()),
            r ==> ({
                let id = old(self).frames@[old(self).cursor as int].id@;
                let e = match lookup(old(self).edits@, id) { Some(e) => e, None => default_effect() };
                let turned = EffectSpec { quarter_turns: (e.quarter_turns + delta) as i32, ..e };
                final(self).edits@ == (if effect_spec_eq(turned, default_effect()) {
                    drop_key(old(self).edits@, id)
                } else {
                    drop_key(old(self).edits@, id).push((id, turned))
                })
            }),
            !r ==> final(self).edits == old(self).edits,
            final(self).judgement == old(self).judgement,
            final(self).frames == old(self).frames,
            final(self).cursor == old(self).cursor,
            final(self).already_in_destination == old(self).already_in_destination,
    {
        if self.cursor >= self.frames.len() {
            return false;
        }
        let id = self.frames[self.cursor].id.clone();
        let mut spec = self.effect_of(id.as_str());
        spec.quarter_turns = spec.quarter_turns + delta;
        self.set_effect(id, spec);
        true
    }

    /// Point the session at a destination; an absolute folder not yet
    /// remembered is remembered for next time.
    pub fn adopt_destination(&mut self, destination: Destination)
        ensures
            final(self).destination == destination,
            final(self).remembered_destinations@ == (match destination {
                Destination::Absolute(p) => if exists|i: int| 0 <= i < old(self).remembered_destinations@.len()
                    && same_path(#[trigger] old(self).remembered_destinations@[i]@, p@) {
                    old(self).remembered_destinations@
                } else {
                    old(self).remembered_destinations@.push(p)
                },
                _ => old(self).remembered_destinations@,
            }),
            final(self).frames == old(self).frames,
            final(self).cursor == old(self).cursor,
            final(self).judgement == old(self).judgement,
            final(self).edits == old(self).edits,
            final(self).already_in_destination == old(self).already_in_destination,
    {
        match &destination {
            Destination::Absolute(p) => {
                let mut found = false;
                let mut i: usize = 0;
                while i < self.remembered_destinations.len()
                    invariant
                        0 <= i <= self.remembered_destinations@.len(),
                        found == exists|k: int| 0 <= k < i && same_path(#[trigger] self.remembered_destinations@[k]@, p@),
                    decreases self.remembered_destinations@.len() - i,
                {
                    if same_path_str(self.remembered_destinations[i].as_str(), p.as_str()) {
                        found = true;
                    }
                    i += 1;
                }
                if !found {
                    self.remembered_destinations.push(p.clone());
                }
            },
            _ => {},
        }
        self.destination = destination;
    }

    /// Take in a finished write: a failed one must not leave the frame marked
    /// kept; a successful one marks it present in the destination. Gives the
    /// line for the status bar, if there is one.
    pub fn record_write(&mut self, outcome: &WriteOutcome) -> (r: Option<String>)
        requires
            old(self).wf(),
        ensures
            final(self).wf(),
            match r {
                Some(s) => write_notice(*outcome) == Some(s@),
                None => write_notice(*outcome) is None,
            },
            outcome.error is Some ==> final(self).judgement@ == drop_key(old(self).judgement@, outcome.frame_id@)
                && final(self).present() == old(self).present(),
            outcome.error is None ==> final(self).judgement@ == old(self).judgement@
                && final(self).present() == old(self).present().insert(outcome.frame_id@),
            final(self).frames == old(self).frames,
            final(self).cursor == old(self).cursor,
            final(self).edits == old(self).edits,
            final(self).destination == old(self).destination,
    {
        match &outcome.error {
            Some(message) => {
                self.judgement.remove(outcome.frame_id.as_str());
                Some(message.clone())
            },
            None => {
                let ghost before = self.already_in_destination@;
                if !self.is_in_destination(outcome.frame_id.as_str()) {
                    self.already_in_destination.push(outcome.frame_id.clone());
                    proof {
                        assert(self.already_in_destination@ == before.push(outcome.frame_id));
                        assert forall|id: Seq<char>| #[trigger] string_set(self.already_in_destination@).contains(id)
                            == string_set(before).insert(outcome.frame_id@).contains(id) by {
                            if string_set(before).contains(id) {
                                let q = choose|q: int| 0 <= q < before.len() && #[trigger] before[q]@ == id;
                                assert(self.already_in_destination@[q] == before[q]);
                            }
                            if id == outcome.frame_id@ {
                                assert(self.already_in_destination@[before.len() as int]@ == id);
                            }
                            if string_set(self.already_in_destination@).contains(id) {
                                let q = choose|q: int| 0 <= q < self.already_in_destination@.len()
                                    && #[trigger] self.already_in_destination@[q]@ == id;
                                if q < before.len() {
                                    assert(before[q] == self.already_in_destination@[q]);
                                }
                            }
                        }
                        assert(string_set(self.already_in_destination@) =~= string_set(before).insert(outcome.frame_id@));
                    }
                } else {
                    assert(string_set(before) =~= string_set(before).insert(outcome.frame_id@));
                }
                if outcome.renamed {
                    match &outcome.written {
                        Some(p) => {
                            let mut out: Vec<char> = Vec::new();
                            push_str(&mut out, "a different file had that name — wrote ");
                            let pc = chars_of(p.as_str());
                            match file_name_chars(&pc) {
                                Some(n) => push_all(&mut out, &n),
                                None => {},
                            }
                            assert(out@ =~= renamed_notice(p@));
                            Some(string_of(&out))
                        },
                        None => None,
                    }
                } else {
                    None
                }
            },
        }
    }
}


// ---------------------------------------------------------------------------
// Reading the record back
// ---------------------------------------------------------------------------

/// The text without the byte-order marks it starts with: several editors
/// add one on save, and it is not valid JSON.
pub open spec fn strip_byte_order_marks(s: Seq<char>) -> Seq<char>
    decreases s.len(),
{
    if s.len() > 0 && s[0] == '\u{feff}' {
        strip_byte_order_marks(s.drop_first())
    } else {
        s
    }
}

/// Drop the byte-order marks a saved record may start with.
pub fn without_byte_order_marks(text: &str) -> (r: String)
    ensures
        r@ == strip_byte_order_marks(text@),
{
    let cs = chars_of(text);
    let mut i: usize = 0;
    assert(cs@.subrange(0, cs@.len() as int) =~= cs@);
    while i < cs.len() && cs[i] == '\u{feff}'
        invariant
            0 <= i <= cs@.len(),
            cs@ == text@,
            strip_byte_order_marks(text@) == strip_byte_order_marks(cs@.subrange(i as int, cs@.len() as int)),
        decreases cs@.len() - i,
    {
        assert(cs@.subrange(i as int, cs@.len() as int).drop_first() =~= cs@.subrange(i + 1, cs@.len() as int));
        i += 1;
    }
    let rest = slice_chars(&cs, i, cs.len());
    string_of(&rest)
}

// ---------------------------------------------------------------------------
// Scanning
// ---------------------------------------------------------------------------

/// Each name is naturally no later than every name after it.
pub open spec fn in_name_order(s: Seq<Frame>) -> bool {
    forall|i: int, j: int| 0 <= i < j < s.len() ==>
        natural_order((#[trigger] s[i]).id@, (#[trigger] s[j]).id@) != Order3::Greater
}

/// Whether a frame's name compares equal to `name`.
pub open spec fn same_name_as(name: Seq<char>) -> spec_fn(Frame) -> bool {
    |f: Frame| natural_order(f.id@, name) == Order3::Equal
}

/// The frames whose names compare equal to `name`, in the order they stand.
pub open spec fn named_like(s: Seq<Frame>, name: Seq<char>) -> Seq<Frame> {
    s.filter(same_name_as(name))
}

/// Inserting `x` in front of frames whose names all come after it adds `x`
/// to the end of its own name's frames and changes no other name's.
proof fn lemma_named_like_insert(o: Seq<Frame>, k: int, x: Frame, name: Seq<char>)
    requires
        0 <= k <= o.len(),
        forall|j: int| k <= j < o.len() ==> natural_order(x.id@, (#[trigger] o[j]).id@) == Order3::Less,
    ensures
        named_like(o.insert(k, x), name) == (if natural_order(x.id@, name) == Order3::Equal {
            named_like(o, name).push(x)
        } else {
            named_like(o, name)
        }),
{
    let p = same_name_as(name);
    let pre = o.subrange(0, k);
    let post = o.subrange(k, o.len() as int);
    assert(o.insert(k, x) =~= pre + (seq![x] + post));
    assert(o =~= pre + post);
    Seq::filter_distributes_over_add(pre, seq![x] + post, p);
    Seq::filter_distributes_over_add(pre, post, p);
    post.lemma_filter_prepend(x, p);
    if p(x) {
        assert forall|j: int| 0 <= j < post.len() implies !p(#[trigger] post[j]) by {
            let f = post[j];
            assert(f == o[k + j]);
            if p(f) {
                // Both compare equal to `name`, so neither comes after the other.
                lemma_natural_antisymmetric(x.id@, name);
                lemma_natural_transitive(f.id@, name, x.id@);
                lemma_natural_antisymmetric(x.id@, f.id@);
            }
        }
        assert(post.all(|f: Frame| !p(f)));
        post.lemma_all_neg_filter_empty(p);
        assert(post.filter(p) =~= Seq::<Frame>::empty());
        assert(named_like(o.insert(k, x), name) =~= named_like(o, name).push(x));
    } else {
        assert(named_like(o.insert(k, x), name) =~= named_like(o, name));
    }
}

/// No frame has a name in the empty sequence.
proof fn lemma_named_like_empty(name: Seq<char>)
    ensures
        named_like(Seq::<Frame>::empty(), name) == Seq::<Frame>::empty(),
{
    reveal(Seq::filter);
}

/// The frames in natural order of their names: `_DSC9` before `_DSC10`. A
/// frame goes after every frame already placed whose name is not later, so
/// names that compare equal (`IMG_007` and `IMG_7`) keep the order they came
/// in.
pub fn sort_by_name(frames: Vec<Frame>) -> (r: Vec<Frame>)
    ensures
        r@.to_multiset() == frames@.to_multiset(),
        in_name_order(r@),
        forall|name: Seq<char>| #[trigger] named_like(r@, name) == named_like(frames@, name),
{
    broadcast use vstd::seq_lib::to_multiset_remove, vstd::seq_lib::to_multiset_insert;
    let ghost all = frames@;
    let mut rest = frames;
    let mut out: Vec<Frame> = Vec::new();
    proof {
        assert(out@ =~= Seq::<Frame>::empty());
        vstd::seq_lib::lemma_seq_union_to_multiset_commutative(out@, rest@);
        assert(out@ + rest@ =~= rest@);
    }
    proof {
        assert forall|name: Seq<char>| #[trigger] named_like(all, name) == named_like(out@, name) + named_like(rest@, name) by {
            lemma_named_like_empty(name);
            assert(named_like(out@, name) + named_like(rest@, name) =~= named_like(rest@, name));
        }
    }
    while rest.len() > 0
        invariant
            (out@ + rest@).to_multiset() == all.to_multiset(),
            in_name_order(out@),
            forall|name: Seq<char>| #[trigger] named_like(all, name) == named_like(out@, name) + named_like(rest@, name),
        decreases rest@.len(),
    {
        let ghost before_out = out@;
        let ghost before_rest = rest@;
        let x = rest.remove(0);
        let mut k: usize = 0;
        while k < out.len() && !name_after(&out[k], &x)
            invariant
                0 <= k <= out@.len(),
                out@ == before_out,
                forall|j: int| 0 <= j < k ==> natural_order((#[trigger] out@[j]).id@, x.id@) != Order3::Greater,
            decreases out@.len() - k,
        {
            k += 1;
        }
        out.insert(k, x);
        proof {
            let o = before_out;
            let n = out@;
            assert(n == o.insert(k as int, x));
            assert forall|i: int, j: int| 0 <= i < j < n.len() implies
                natural_order((#[trigger] n[i]).id@, (#[trigger] n[j]).id@) != Order3::Greater by {
                if j < k {
                    assert(n[i] == o[i] && n[j] == o[j]);
                } else if j == k {
                    assert(n[i] == o[i] && n[j] == x);
                } else if i < k {
                    assert(n[i] == o[i] && n[j] == o[j - 1]);
                } else if i == k {
                    assert(n[i] == x && n[j] == o[j - 1]);
                    assert(natural_order(o[k as int].id@, x.id@) == Order3::Greater);
                    lemma_natural_antisymmetric(x.id@, o[k as int].id@);
                    if j - 1 > k {
                        lemma_natural_transitive(x.id@, o[k as int].id@, o[j - 1].id@);
                    }
                } else {
                    assert(n[i] == o[i - 1] && n[j] == o[j - 1]);
                }
            }
            assert(before_rest == seq![x] + rest@) by {
                assert(before_rest.remove(0) =~= rest@);
                assert(before_rest =~= seq![before_rest[0]] + before_rest.remove(0));
            }
            assert((o + before_rest).to_multiset() == (n + rest@).to_multiset()) by {
                broadcast use vstd::multiset::group_multiset_axioms;
                vstd::seq_lib::to_multiset_insert(o, k as int, x);
                vstd::seq_lib::lemma_multiset_commutative(o, before_rest);
                vstd::seq_lib::lemma_multiset_commutative(n, rest@);
                vstd::seq_lib::lemma_multiset_commutative(seq![x], rest@);
                vstd::seq_lib::to_multiset_build(Seq::<Frame>::empty(), x);
                assert(Seq::<Frame>::empty().push(x) =~= seq![x]);
                Seq::<Frame>::empty().to_multiset_ensures();
                vstd::multiset::lemma_multiset_empty_len(Seq::<Frame>::empty().to_multiset());
                assert(Seq::<Frame>::empty().to_multiset() =~= vstd::multiset::Multiset::<Frame>::empty());
                assert(seq![x].to_multiset() =~= vstd::multiset::Multiset::<Frame>::empty().insert(x));
                assert(o.to_multiset().add(before_rest.to_multiset()) =~= o.to_multiset().insert(x).add(rest@.to_multiset()));
            }
            assert forall|j: int| k <= j < o.len() implies natural_order(x.id@, (#[trigger] o[j]).id@) == Order3::Less by {
                // `o[k]` comes after `x`, and nothing after `o[k]` comes before it.
                assert(natural_order(o[k as int].id@, x.id@) == Order3::Greater);
                lemma_natural_antisymmetric(x.id@, o[k as int].id@);
                lemma_natural_antisymmetric(x.id@, o[j].id@);
                if j > k && natural_order(x.id@, o[j].id@) != Order3::Less {
                    lemma_natural_transitive(o[k as int].id@, o[j].id@, x.id@);
                }
            }
            assert forall|name: Seq<char>| #[trigger] named_like(all, name) == named_like(n, name) + named_like(rest@, name) by {
                lemma_named_like_insert(o, k as int, x, name);
                rest@.lemma_filter_prepend(x, same_name_as(name));
                assert(named_like(all, name) == named_like(o, name) + named_like(before_rest, name));
                if natural_order(x.id@, name) == Order3::Equal {
                    assert(named_like(n, name) + named_like(rest@, name) =~= named_like(o, name) + named_like(before_rest, name));
                } else {
                    assert(named_like(before_rest, name) =~= named_like(rest@, name));
                }
            }
        }
    }
    proof {
        assert(out@ + rest@ =~= out@);
        assert forall|name: Seq<char>| #[trigger] named_like(out@, name) == named_like(all, name) by {
            lemma_named_like_empty(name);
            assert(rest@ =~= Seq::<Frame>::empty());
            assert(named_like(all, name) =~= named_like(out@, name));
        }
    }
    out
}



/// The listed files, `(path, size, modified)`, that the scanner accepts.
pub open spec fn supported_entries(entries: Seq<(String, u64, Option<u64>)>) -> Seq<(String, u64, Option<u64>)>
    decreases entries.len(),
{
    if entries.len() == 0 {
        entries
    } else if is_supported_path(entries.last().0@) {
        supported_entries(entries.drop_last()).push(entries.last())
    } else {
        supported_entries(entries.drop_last())
    }
}

/// `f` is the frame made of entry `e`.
pub open spec fn frame_of(f: Frame, e: (String, u64, Option<u64>)) -> bool {
    &&& f.path@ == e.0@
    &&& f.id@ == frame_id_of(e.0@)
    &&& f.stem@ == frame_stem_of(e.0@)
    &&& f.file_size == e.1
    &&& f.modified == e.2
    &&& f.dimensions is None
    &&& f.exif is None
}

/// A frame for each listed file the scanner accepts, in listing order.
pub fn supported_frames(entries: Vec<(String, u64, Option<u64>)>) -> (r: Vec<Frame>)
    ensures
        r@.len() == supported_entries(entries@).len(),
        forall|k: int| 0 <= k < r@.len() ==> frame_of(#[trigger] r@[k], supported_entries(entries@)[k]),
{
    let mut out: Vec<Frame> = Vec::new();
    let mut i: usize = 0;
    while i < entries.len()
        invariant
            0 <= i <= entries@.len(),
            out@.len() == supported_entries(entries@.subrange(0, i as int)).len(),
            forall|k: int| 0 <= k < out@.len() ==> frame_of(#[trigger] out@[k], supported_entries(entries@.subrange(0, i as int))[k]),
        decreases entries@.len() - i,
    {
        let ghost pre = entries@.subrange(0, i as int);
        let ghost post = entries@.subrange(0, i + 1);
        assert(post.drop_last() =~= pre);
        assert(post.last() == entries@[i as int]);
        let e = &entries[i];
        if is_supported(e.0.as_str()) {
            let f = Frame::new(e.0.clone(), e.1, e.2);
            out.push(f);
            proof {
                assert forall|k: int| 0 <= k < out@.len() implies frame_of(#[trigger] out@[k], supported_entries(post)[k]) by {
                    if k < out@.len() - 1 {
                        assert(supported_entries(post)[k] == supported_entries(pre)[k]);
                    }
                }
            }
        }
        i += 1;
    }
    assert(entries@.subrange(0, entries@.len() as int) =~= entries@);
    out
}

/// The frames of a folder listing, in natural order of their names: every
/// listed file the scanner accepts, and nothing else; frames whose names
/// compare equal stay in the order they were listed.
pub fn frames_in_folder(entries: Vec<(String, u64, Option<u64>)>) -> (r: Vec<Frame>)
    ensures
        in_name_order(r@),
        exists|made: Seq<Frame>| {
            &&& made.len() == supported_entries(entries@).len()
            &&& (forall|k: int| 0 <= k < made.len() ==> frame_of(#[trigger] made[k], supported_entries(entries@)[k]))
            &&& r@.to_multiset() == #[trigger] made.to_multiset()
            &&& forall|name: Seq<char>| #[trigger] named_like(r@, name) == named_like(made, name)
        },
{
    let made = supported_frames(entries);
    let ghost m = made@;
    let r = sort_by_name(made);
    assert(r@.to_multiset() == m.to_multiset());
    assert(forall|name: Seq<char>| #[trigger] named_like(r@, name) == named_like(m, name));
    r
}

} // verus!
