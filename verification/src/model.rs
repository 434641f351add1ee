//! Shared value types: frames, judgements, effects and destinations.
use vstd::prelude::*;
use vstd::std_specs::cmp::PartialEqSpecImpl;
use crate::pathname::{file_name, file_stem, extension, extension_of, lemma_file_name_lower, lemma_extension_of_lower, join, join_str, file_name_chars, stem_chars, extension_chars, lemma_file_name_of_join};
use crate::text::{chars_of, string_of, lower, lower_char, ascii_lower, str_eq};

verus! {

// ---------------------------------------------------------------------------
// Frames
// ---------------------------------------------------------------------------

/// The identity of a frame: the file name of its path, or empty.
pub open spec fn frame_id_of(path: Seq<char>) -> Seq<char> {
    match file_name(path) {
        Some(n) => n,
        None => Seq::empty(),
    }
}

/// A frame's identity is its file name, whatever folder holds it, so a
/// moved card dump keeps its identities; the root has the empty identity.
pub proof fn lemma_frame_id_ignores_the_folder(dir: Seq<char>, name: Seq<char>)
    requires
        name.len() > 0,
        forall|i: int| 0 <= i < name.len() ==> name[i] != '/',
        name != seq!['.'],
        name != seq!['.', '.'],
    ensures
        frame_id_of(join(dir, name)) == name,
        frame_id_of(seq!['/']) == Seq::<char>::empty(),
{
    lemma_file_name_of_join(dir, name);
    reveal_with_fuel(file_name, 2);
    assert(seq!['/'].subrange(0, 0) =~= Seq::<char>::empty());
    assert(seq!['/'].subrange(1, 1) =~= Seq::<char>::empty());
}

/// Stable identity for a frame within a session: its file name.
pub fn frame_id(path: &str) -> (r: String)
    ensures
        r@ == frame_id_of(path@),
{
    let p = chars_of(path);
    match file_name_chars(&p) {
        Some(n) => string_of(&n),
        None => String::new(),
    }
}

/// Whether a path is accepted does not depend on the case of its letters:
/// a camera's `DSC_0001.JPG` is accepted exactly when `dsc_0001.jpg` is.
pub proof fn lemma_accepted_whatever_the_case(path: Seq<char>)
    ensures
        is_supported_path(path) == is_supported_path(lower(path)),
{
    lemma_file_name_lower(path);
    match file_name(path) {
        Some(n) => {
            lemma_extension_of_lower(n);
            match extension_of(n) {
                Some(e) => {
                    assert(lower(lower(e)) =~= lower(e));
                },
                None => {},
            }
        },
        None => {},
    }
}

/// The extensions, lower case, that the scanner accepts.
pub open spec fn supported_extension(e: Seq<char>) -> bool {
    e == "jpg"@ || e == "jpeg"@ || e == "png"@ || e == "bmp"@ || e == "gif"@ || e == "tif"@
        || e == "tiff"@ || e == "webp"@
}

pub open spec fn is_supported_path(path: Seq<char>) -> bool {
    match extension(path) {
        Some(e) => supported_extension(lower(e)),
        None => false,
    }
}

/// The extensions, lower case, that the scanner accepts.
pub fn supported_extensions() -> (r: Vec<&'static str>)
    ensures
        r.len() == 8,
        forall|e: Seq<char>| supported_extension(e) <==> exists|i: int| 0 <= i < r.len() && r[i]@ == e,
{
    let v = vec!["jpg", "jpeg", "png", "bmp", "gif", "tif", "tiff", "webp"];
    assert forall|e: Seq<char>| supported_extension(e) implies exists|i: int| 0 <= i < v.len() && v[i]@ == e by {
        if e == "jpg"@ { assert(v[0]@ == e); }
        else if e == "jpeg"@ { assert(v[1]@ == e); }
        else if e == "png"@ { assert(v[2]@ == e); }
        else if e == "bmp"@ { assert(v[3]@ == e); }
        else if e == "gif"@ { assert(v[4]@ == e); }
        else if e == "tif"@ { assert(v[5]@ == e); }
        else if e == "tiff"@ { assert(v[6]@ == e); }
        else { assert(v[7]@ == e); }
    }
    v
}

/// Whether the path names a file the scanner accepts, by its extension.
pub fn is_supported(path: &str) -> (r: bool)
    ensures
        r == is_supported_path(path@),
{
    let p = chars_of(path);
    let name = match file_name_chars(&p) {
        Some(n) => n,
        None => { return false; },
    };
    let e = match extension_chars(&name) {
        Some(e) => e,
        None => { return false; },
    };
    let low = string_of(&ascii_lower(&e));
    assert(file_name(path@) == Some(name@));
    assert(extension(path@) == Some(e@));
    assert(low@ == lower(e@));
    let known = supported_extensions();
    let mut i: usize = 0;
    while i < known.len()
        invariant
            0 <= i <= known.len(),
            known.len() == 8,
            forall|e: Seq<char>| supported_extension(e) <==> exists|k: int| 0 <= k < known.len() && known[k]@ == e,
            forall|k: int| 0 <= k < i ==> known[k]@ != low@,
            is_supported_path(path@) == supported_extension(low@),
        decreases known.len() - i,
    {
        if str_eq(known[i], low.as_str()) {
            assert(known[i as int]@ == low@);
            assert(supported_extension(low@));
            return true;
        }
        i += 1;
    }
    false
}

/// Human-readable list of the accepted formats.
pub fn supported_label() -> (r: String)
    ensures
        r@ == "JPEG, PNG, BMP, GIF, TIFF, WebP"@,
{
    "JPEG, PNG, BMP, GIF, TIFF, WebP".to_owned()
}

/// A file in the working folder.
#[derive(Clone, Debug)]
pub struct Frame {
    pub path: String,
    pub id: String,
    /// Name without extension.
    pub stem: String,
    pub file_size: u64,
    /// Modification time, in whole seconds since the Unix epoch.
    pub modified: Option<u64>,
    /// Filled in once the header has been read.
    pub dimensions: Option<(u32, u32)>,
    pub exif: Option<ExifSummary>,
}

/// The stem shown for a frame: the file stem, or the identity when the path
/// has no file name.
pub open spec fn frame_stem_of(path: Seq<char>) -> Seq<char> {
    match file_stem(path) {
        Some(s) => s,
        None => frame_id_of(path),
    }
}

impl Frame {
    pub fn new(path: String, file_size: u64, modified: Option<u64>) -> (r: Frame)
        ensures
            r.path@ == path@,
            r.id@ == frame_id_of(path@),
            r.stem@ == frame_stem_of(path@),
            r.file_size == file_size,
            r.modified == modified,
            r.dimensions is None,
            r.exif is None,
    {
        let id = frame_id(path.as_str());
        let p = chars_of(path.as_str());
        let stem = match file_name_chars(&p) {
            Some(n) => string_of(&stem_chars(&n)),
            None => id.clone(),
        };
        Frame { path, id, stem, file_size, modified, dimensions: None, exif: None }
    }

    /// A copy of the frame.
    pub fn duplicate(&self) -> (r: Frame)
        ensures
            r == *self,
    {
        Frame {
            path: self.path.clone(),
            id: self.id.clone(),
            stem: self.stem.clone(),
            file_size: self.file_size,
            modified: self.modified,
            dimensions: self.dimensions,
            exif: match &self.exif {
                Some(e) => Some(e.duplicate()),
                None => None,
            },
        }
    }
}

// ---------------------------------------------------------------------------
// EXIF summary
// ---------------------------------------------------------------------------

/// The four values the info bar shows.
#[derive(Clone, Debug, Default, PartialEq, Eq)]
pub struct ExifSummary {
    pub shutter: Option<String>,
    pub aperture: Option<String>,
    pub iso: Option<String>,
    pub focal: Option<String>,
}

/// The present parts of a summary, in display order.
pub open spec fn present_parts(e: ExifSummary) -> Seq<Seq<char>> {
    let a = match e.shutter { Some(s) => seq![s@], None => Seq::empty() };
    let b = match e.aperture { Some(s) => seq![s@], None => Seq::empty() };
    let c = match e.iso { Some(s) => seq![s@], None => Seq::empty() };
    let d = match e.focal { Some(s) => seq![s@], None => Seq::empty() };
    a + b + c + d
}

/// Parts joined by a separator.
pub open spec fn joined(parts: Seq<Seq<char>>, sep: Seq<char>) -> Seq<char>
    decreases parts.len(),
{
    if parts.len() == 0 {
        Seq::empty()
    } else if parts.len() == 1 {
        parts[0]
    } else {
        joined(parts.drop_last(), sep) + sep + parts.last()
    }
}

fn opt_string_copy(o: &Option<String>) -> (r: Option<String>)
    ensures
        r == *o,
{
    match o {
        Some(s) => Some(s.clone()),
        None => None,
    }
}

impl ExifSummary {
    pub fn is_empty(&self) -> (r: bool)
        ensures
            r == (self.shutter is None && self.aperture is None && self.iso is None && self.focal is None),
    {
        self.shutter.is_none() && self.aperture.is_none() && self.iso.is_none() && self.focal.is_none()
    }

    /// A copy of the summary.
    pub fn duplicate(&self) -> (r: ExifSummary)
        ensures
            r == *self,
    {
        ExifSummary {
            shutter: opt_string_copy(&self.shutter),
            aperture: opt_string_copy(&self.aperture),
            iso: opt_string_copy(&self.iso),
            focal: opt_string_copy(&self.focal),
        }
    }

    /// The present values joined with `" · "`, e.g. `1/640 · f/2.8 · ISO 400 · 85mm`.
    pub fn line(&self) -> (r: String)
        ensures
            r@ == joined(present_parts(*self), " · "@),
    {
        let mut out: Vec<char> = Vec::new();
        let mut parts: Vec<&String> = Vec::new();
        if let Some(s) = &self.shutter { parts.push(s); }
        if let Some(s) = &self.aperture { parts.push(s); }
        if let Some(s) = &self.iso { parts.push(s); }
        if let Some(s) = &self.focal { parts.push(s); }
        let ghost ps = parts@.map_values(|s: &String| s@);
        assert(ps =~= present_parts(*self));
        let mut i: usize = 0;
        while i < parts.len()
            invariant
                0 <= i <= parts.len(),
                ps == parts@.map_values(|s: &String| s@),
                out@ == joined(ps.subrange(0, i as int), " · "@),
            decreases parts.len() - i,
        {
            let piece = chars_of(parts[i].as_str());
            if i > 0 {
                crate::text::push_str(&mut out, " · ");
            }
            crate::text::push_all(&mut out, &piece);
            i += 1;
            assert(ps.subrange(0, i as int).drop_last() =~= ps.subrange(0, i - 1));
            assert(i == 1 ==> ps.subrange(0, i as int)[0] == ps[0]);
        }
        assert(ps.subrange(0, parts.len() as int) =~= ps);
        string_of(&out)
    }
}

// ---------------------------------------------------------------------------
// Judgement
// ---------------------------------------------------------------------------

/// Two-way judgement; a frame absent from the judgement table is unjudged.
#[derive(Clone, Copy, Debug, PartialEq, Eq, Structural)]
pub enum Judgement {
    Kept,
    Passed,
}

// ---------------------------------------------------------------------------
// Effects
// ---------------------------------------------------------------------------

#[derive(Clone, Copy, Debug, PartialEq, Eq, Structural)]
pub enum EffectMode {
    /// No colour operation: the frame is written as it is.
    Original,
    /// White balance on the value channel only.
    WbValue,
    /// Per-channel white balance.
    WbRgb,
    /// Manual levels: black point, white point, gamma.
    Levels,
}

impl Default for EffectMode {
    fn default() -> (r: EffectMode)
        ensures
            r == EffectMode::Original,
    {
        EffectMode::Original
    }
}

pub open spec fn suffix_of(mode: EffectMode) -> Seq<char> {
    match mode {
        EffectMode::Original => "_ORIG"@,
        EffectMode::WbValue => "_WBV"@,
        EffectMode::WbRgb => "_WBRGB"@,
        EffectMode::Levels => "_CUSTOM"@,
    }
}

impl EffectMode {
    /// Suffix appended to the file written into the destination.
    pub fn suffix(self) -> (r: &'static str)
        ensures
            r@ == suffix_of(self),
    {
        match self {
            EffectMode::Original => "_ORIG",
            EffectMode::WbValue => "_WBV",
            EffectMode::WbRgb => "_WBRGB",
            EffectMode::Levels => "_CUSTOM",
        }
    }

    /// Every suffix, in mode order.
    pub fn all_suffixes() -> (r: Vec<&'static str>)
        ensures
            r.len() == 4,
            r[0]@ == suffix_of(EffectMode::Original),
            r[1]@ == suffix_of(EffectMode::WbValue),
            r[2]@ == suffix_of(EffectMode::WbRgb),
            r[3]@ == suffix_of(EffectMode::Levels),
    {
        vec!["_ORIG", "_WBV", "_WBRGB", "_CUSTOM"]
    }

    pub fn label(self) -> (r: &'static str)
        ensures
            r@ == (match self {
                EffectMode::Original => "None"@,
                EffectMode::WbValue => "WB · V"@,
                EffectMode::WbRgb => "WB · RGB"@,
                EffectMode::Levels => "Levels"@,
            }),
    {
        match self {
            EffectMode::Original => "None",
            EffectMode::WbValue => "WB · V",
            EffectMode::WbRgb => "WB · RGB",
            EffectMode::Levels => "Levels",
        }
    }
}

/// `low <= high - LEVELS_MIN_SPAN`.
pub const LEVELS_MIN_SPAN: u8 = 4;
/// The IEEE-754 single-precision bits of 1.0.
pub const ONE_F32_BITS: u32 = 0x3f80_0000;

/// Whether the IEEE-754 single-precision value with these bits is a NaN.
pub open spec fn f32_bits_nan(b: u32) -> bool {
    b % 0x8000_0000 > 0x7f80_0000
}

/// Whether the IEEE-754 single-precision value with these bits is zero
/// (of either sign).
pub open spec fn f32_bits_zero(b: u32) -> bool {
    b % 0x8000_0000 == 0
}

/// IEEE-754 equality of two single-precision values given by their bits:
/// NaN equals nothing, and the two zeros are equal.
pub open spec fn f32_bits_eq(a: u32, b: u32) -> bool {
    !f32_bits_nan(a) && !f32_bits_nan(b) && (a == b || (f32_bits_zero(a) && f32_bits_zero(b)))
}

pub fn f32_bits_equal(a: u32, b: u32) -> (r: bool)
    ensures
        r == f32_bits_eq(a, b),
{
    let ma = a % 0x8000_0000;
    let mb = b % 0x8000_0000;
    ma <= 0x7f80_0000 && mb <= 0x7f80_0000 && (a == b || (ma == 0 && mb == 0))
}

/// The per-frame edit. The two real-valued parameters are held as their
/// IEEE-754 single-precision bit patterns.
#[derive(Clone, Copy, Debug)]
pub struct EffectSpec {
    pub mode: EffectMode,
    pub low: u8,
    pub high: u8,
    /// Bits of the gamma, a single-precision value.
    pub gamma_bits: u32,
    /// Whole 90 degree steps, applied before the fine angle.
    pub quarter_turns: i32,
    /// Bits of the fine rotation in degrees, a single-precision value.
    pub angle_bits: u32,
}

pub open spec fn effect_spec_eq(a: EffectSpec, b: EffectSpec) -> bool {
    &&& a.mode == b.mode
    &&& a.low == b.low
    &&& a.high == b.high
    &&& f32_bits_eq(a.gamma_bits, b.gamma_bits)
    &&& a.quarter_turns == b.quarter_turns
    &&& f32_bits_eq(a.angle_bits, b.angle_bits)
}

pub open spec fn default_effect() -> EffectSpec {
    EffectSpec {
        mode: EffectMode::Original,
        low: 0,
        high: 255,
        gamma_bits: ONE_F32_BITS,
        quarter_turns: 0,
        angle_bits: 0,
    }
}

impl Default for EffectSpec {
    fn default() -> (r: EffectSpec)
        ensures
            r == default_effect(),
    {
        EffectSpec {
            mode: EffectMode::Original,
            low: 0,
            high: 255,
            gamma_bits: ONE_F32_BITS,
            quarter_turns: 0,
            angle_bits: 0,
        }
    }
}

impl PartialEq for EffectSpec {
    fn eq(&self, other: &Self) -> (r: bool) {
        self.mode == other.mode && self.low == other.low && self.high == other.high
            && f32_bits_equal(self.gamma_bits, other.gamma_bits)
            && self.quarter_turns == other.quarter_turns
            && f32_bits_equal(self.angle_bits, other.angle_bits)
    }
}

impl PartialEqSpecImpl for EffectSpec {
    open spec fn obeys_eq_spec() -> bool {
        true
    }

    open spec fn eq_spec(&self, other: &Self) -> bool {
        effect_spec_eq(*self, *other)
    }
}

/// The clamped black point: never above `high - LEVELS_MIN_SPAN`.
pub open spec fn clamped_low(v: u8, high: u8) -> u8 {
    let cap: int = if high >= LEVELS_MIN_SPAN { high - LEVELS_MIN_SPAN } else { 0 };
    if v <= cap { v } else { cap as u8 }
}

/// The clamped white point: never below `low + LEVELS_MIN_SPAN`.
pub open spec fn clamped_high(v: u8, low: u8) -> u8 {
    let floor: int = if low + LEVELS_MIN_SPAN <= 255 { low + LEVELS_MIN_SPAN } else { 255 };
    if v >= floor { v } else { floor as u8 }
}

impl EffectSpec {
    /// No colour operation and no rotation.
    pub fn is_identity(&self) -> (r: bool)
        ensures
            r == (self.mode == EffectMode::Original && self.quarter_turns % 4 == 0
                && f32_bits_eq(self.angle_bits, 0)),
    {
        self.mode == EffectMode::Original && self.quarter_turns % 4 == 0
            && f32_bits_equal(self.angle_bits, 0)
    }

    pub fn set_low(&mut self, v: u8)
        ensures
            *final(self) == (EffectSpec { low: clamped_low(v, old(self).high), ..*old(self) }),
    {
        let cap = self.high.saturating_sub(LEVELS_MIN_SPAN);
        self.low = if v <= cap { v } else { cap };
    }

    pub fn set_high(&mut self, v: u8)
        ensures
            *final(self) == (EffectSpec { high: clamped_high(v, old(self).low), ..*old(self) }),
    {
        let floor = self.low.saturating_add(LEVELS_MIN_SPAN);
        self.high = if v >= floor { v } else { floor };
    }

    /// Levels handles moved far enough to crush shadows or blow highlights.
    pub fn is_clipping(&self) -> (r: bool)
        ensures
            r == (self.mode == EffectMode::Levels && (self.low > 26 || self.high < 232)),
    {
        self.mode == EffectMode::Levels && (self.low > 26 || self.high < 232)
    }
}

/// The levels span invariant: the black point sits at least
/// `LEVELS_MIN_SPAN` below the white point.
pub open spec fn levels_span_ok(s: EffectSpec) -> bool {
    s.low + LEVELS_MIN_SPAN <= s.high
}

/// Both levels setters keep the span invariant, whatever value they are given.
pub proof fn lemma_setters_keep_span(s: EffectSpec, v: u8)
    requires
        levels_span_ok(s),
    ensures
        levels_span_ok(EffectSpec { low: clamped_low(v, s.high), ..s }),
        levels_span_ok(EffectSpec { high: clamped_high(v, s.low), ..s }),
{
}

/// Setting the white point and then the black point always leaves them at
/// least `LEVELS_MIN_SPAN` apart, from any starting spec.
pub proof fn lemma_high_then_low_is_spaced(s: EffectSpec, h: u8, l: u8)
    ensures
        ({
            let s1 = EffectSpec { high: clamped_high(h, s.low), ..s };
            let s2 = EffectSpec { low: clamped_low(l, s1.high), ..s1 };
            s2.low <= s2.high - LEVELS_MIN_SPAN || s2.high < LEVELS_MIN_SPAN
        }),
{
}

// ---------------------------------------------------------------------------
// Destination
// ---------------------------------------------------------------------------

/// Where keepers are written. Copies only; originals are never touched.
#[derive(Debug, PartialEq, Eq)]
pub enum Destination {
    /// A relative folder inside the working folder. Default is `selection`.
    InWorkingFolder(String),
    /// Any absolute path, including another drive.
    Absolute(String),
    /// `<working>/<root>/<date>`: a second pass over an already-culled shoot.
    Dated { root: String, date: String },
}

impl Clone for Destination {
    fn clone(&self) -> (r: Destination)
        ensures
            r == *self,
    {
        match self {
            Destination::InWorkingFolder(n) => Destination::InWorkingFolder(n.clone()),
            Destination::Absolute(p) => Destination::Absolute(p.clone()),
            Destination::Dated { root, date } => Destination::Dated { root: root.clone(), date: date.clone() },
        }
    }
}

impl Default for Destination {
    fn default() -> (r: Destination)
        ensures
            r matches Destination::InWorkingFolder(n) && n@ == "selection"@,
    {
        Destination::InWorkingFolder("selection".to_owned())
    }
}

/// The folder a destination names, for a given working folder.
pub open spec fn resolved(d: Destination, working: Seq<char>) -> Seq<char> {
    match d {
        Destination::InWorkingFolder(name) => join(working, name@),
        Destination::Absolute(p) => p@,
        Destination::Dated { root, date } => join(join(working, root@), date@),
    }
}

pub open spec fn chip_label_of(d: Destination) -> Seq<char> {
    match d {
        Destination::InWorkingFolder(name) => name@ + "/"@,
        Destination::Absolute(p) => match file_name(p@) {
            Some(n) => n,
            None => p@,
        },
        Destination::Dated { root, date } => root@ + "/"@ + date@,
    }
}

pub open spec fn full_label_of(d: Destination) -> Seq<char> {
    match d {
        Destination::InWorkingFolder(name) => ".\\"@ + name@ + "\\"@,
        Destination::Absolute(p) => p@ + "\\"@,
        Destination::Dated { root, date } => ".\\"@ + root@ + "\\"@ + date@ + "\\"@,
    }
}

impl Destination {
    pub fn resolve(&self, working: &str) -> (r: String)
        ensures
            r@ == resolved(*self, working@),
    {
        match self {
            Destination::InWorkingFolder(name) => join_str(working, name.as_str()),
            Destination::Absolute(p) => p.clone(),
            Destination::Dated { root, date } => {
                let first = join_str(working, root.as_str());
                join_str(first.as_str(), date.as_str())
            },
        }
    }

    /// Short form for the info-bar chip.
    pub fn chip_label(&self) -> (r: String)
        ensures
            r@ == chip_label_of(*self),
    {
        let mut out: Vec<char> = Vec::new();
        match self {
            Destination::InWorkingFolder(name) => {
                crate::text::push_str(&mut out, name.as_str());
                crate::text::push_str(&mut out, "/");
            },
            Destination::Absolute(p) => {
                let pc = chars_of(p.as_str());
                match file_name_chars(&pc) {
                    Some(n) => crate::text::push_all(&mut out, &n),
                    None => crate::text::push_all(&mut out, &pc),
                }
            },
            Destination::Dated { root, date } => {
                crate::text::push_str(&mut out, root.as_str());
                crate::text::push_str(&mut out, "/");
                crate::text::push_str(&mut out, date.as_str());
            },
        }
        assert(out@ =~= chip_label_of(*self));
        string_of(&out)
    }

    /// Full form for the destination popover rows.
    pub fn full_label(&self) -> (r: String)
        ensures
            r@ == full_label_of(*self),
    {
        let mut out: Vec<char> = Vec::new();
        match self {
            Destination::InWorkingFolder(name) => {
                crate::text::push_str(&mut out, ".\\");
                crate::text::push_str(&mut out, name.as_str());
                crate::text::push_str(&mut out, "\\");
            },
            Destination::Absolute(p) => {
                crate::text::push_str(&mut out, p.as_str());
                crate::text::push_str(&mut out, "\\");
            },
            Destination::Dated { root, date } => {
                crate::text::push_str(&mut out, ".\\");
                crate::text::push_str(&mut out, root.as_str());
                crate::text::push_str(&mut out, "\\");
                crate::text::push_str(&mut out, date.as_str());
                crate::text::push_str(&mut out, "\\");
            },
        }
        assert(out@ =~= full_label_of(*self));
        string_of(&out)
    }

    pub fn note(&self) -> (r: &'static str)
        ensures
            r@ == (match *self {
                Destination::InWorkingFolder(_) => "Inside the working folder — the default convention"@,
                Destination::Absolute(_) => "An absolute folder, remembered per working folder"@,
                Destination::Dated { .. } => "A dated subfolder, so two passes never collide"@,
            }),
    {
        match self {
            Destination::InWorkingFolder(_) => "Inside the working folder — the default convention",
            Destination::Absolute(_) => "An absolute folder, remembered per working folder",
            Destination::Dated { .. } => "A dated subfolder, so two passes never collide",
        }
    }
}

} // verus!
