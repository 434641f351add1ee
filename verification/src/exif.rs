//! Carrying a JPEG's EXIF block over to a freshly encoded copy: finding the
//! `APP1 / Exif` segment by walking the marker segments, and splicing one in
//! right after the start-of-image marker. And what is read from a frame's
//! EXIF: its orientation, the JPEG thumbnail embedded in it, and the
//! exposure time and sensitivity as the info bar shows them.
use vstd::prelude::*;
use ::exif::{In, Reader, Tag};
use std::io::Cursor;
use crate::decode::embedded_range;
use crate::text::push_str;
use crate::pathname::{extension, extension_chars, file_name, file_name_chars};
use crate::text::{ascii_lower, chars_of, lower, string_of, str_eq};

verus! {

// ---------------------------------------------------------------------------
// The segment walk
// ---------------------------------------------------------------------------

/// The payload starts with the six bytes `Exif\0\0`.
pub open spec fn starts_with_exif(p: Seq<u8>) -> bool {
    p.len() >= 6 && p[0] == 0x45u8 && p[1] == 0x78u8 && p[2] == 0x69u8 && p[3] == 0x66u8
        && p[4] == 0u8 && p[5] == 0u8
}

/// A marker that stands alone, with no length field.
pub open spec fn standalone_marker(m: u8) -> bool {
    m == 0xD8u8 || m == 0x01u8 || (0xD0u8 <= m && m <= 0xD7u8)
}

/// The big-endian length field at `i + 2`.
pub open spec fn length_at(j: Seq<u8>, i: int) -> int {
    j[i + 2] as int * 256 + j[i + 3] as int
}

/// Walking the marker segments from `i`: the bounds of the first
/// `APP1 / Exif` segment, marker and length included, before the scan
/// starts; `None` when the walk ends, meets a malformed segment or reaches
/// the start of scan or end of image.
pub open spec fn app1_from(j: Seq<u8>, i: int) -> Option<(int, int)>
    decreases j.len() - i,
{
    if i < 0 || i + 4 > j.len() {
        None
    } else if j[i] != 0xFFu8 {
        None
    } else if standalone_marker(j[i + 1]) {
        app1_from(j, i + 2)
    } else if j[i + 1] == 0xDAu8 || j[i + 1] == 0xD9u8 {
        None
    } else if length_at(j, i) < 2 || i + 2 + length_at(j, i) > j.len() {
        None
    } else if j[i + 1] == 0xE1u8 && starts_with_exif(j.subrange(i + 4, i + 2 + length_at(j, i))) {
        Some((i, i + 2 + length_at(j, i)))
    } else {
        app1_from(j, i + 2 + length_at(j, i))
    }
}

/// The bounds of the `APP1 / Exif` segment of a JPEG, if it has one.
pub open spec fn app1_segment(j: Seq<u8>) -> Option<(int, int)> {
    if j.len() < 4 || j[0] != 0xFFu8 || j[1] != 0xD8u8 {
        None
    } else {
        app1_from(j, 2)
    }
}

/// Find the whole `APP1 / Exif` segment in a JPEG, marker and length
/// included.
pub fn find_app1(jpeg: &[u8]) -> (r: Option<&[u8]>)
    ensures
        match app1_segment(jpeg@) {
            Some((a, b)) => r matches Some(s) && 0 <= a <= b <= jpeg@.len() && s@ == jpeg@.subrange(a, b),
            None => r is None,
        },
{
    let n = jpeg.len();
    if n < 4 || jpeg[0] != 0xFF || jpeg[1] != 0xD8 {
        return None;
    }
    let mut i: usize = 2;
    while i <= n && n - i >= 4
        invariant
            n == jpeg@.len(),
            2 <= i,
            app1_segment(jpeg@) == app1_from(jpeg@, i as int),
        decreases n - i,
    {
        if jpeg[i] != 0xFF {
            return None;
        }
        let marker = jpeg[i + 1];
        if marker == 0xD8 || marker == 0x01 || (0xD0 <= marker && marker <= 0xD7) {
            i += 2;
            continue;
        }
        if marker == 0xDA || marker == 0xD9 {
            return None;
        }
        let len = jpeg[i + 2] as usize * 256 + jpeg[i + 3] as usize;
        assert(len == length_at(jpeg@, i as int));
        if len < 2 || len > n - i - 2 {
            return None;
        }
        if marker == 0xE1 {
            let payload = &jpeg[i + 4..i + 2 + len];
            if payload.len() >= 6 && payload[0] == 0x45 && payload[1] == 0x78 && payload[2] == 0x69
                && payload[3] == 0x66 && payload[4] == 0 && payload[5] == 0 {
                assert(starts_with_exif(jpeg@.subrange(i + 4, i + 2 + len)));
                return Some(&jpeg[i..i + 2 + len]);
            }
            assert(!starts_with_exif(jpeg@.subrange(i + 4, i + 2 + len)));
        }
        i += 2 + len;
    }
    None
}

/// Splice an `APP1` segment in immediately after the start-of-image marker.
pub fn insert_app1(jpeg: &[u8], app1: &[u8]) -> (r: Vec<u8>)
    requires
        jpeg@.len() >= 2,
    ensures
        r@ == jpeg@.subrange(0, 2) + app1@ + jpeg@.subrange(2, jpeg@.len() as int),
{
    let mut out: Vec<u8> = Vec::new();
    out.push(jpeg[0]);
    out.push(jpeg[1]);
    let mut k: usize = 0;
    while k < app1.len()
        invariant
            0 <= k <= app1@.len(),
            jpeg@.len() >= 2,
            out@ == jpeg@.subrange(0, 2) + app1@.subrange(0, k as int),
        decreases app1@.len() - k,
    {
        out.push(app1[k]);
        k += 1;
        assert(out@ =~= jpeg@.subrange(0, 2) + app1@.subrange(0, k as int));
    }
    let mut i: usize = 2;
    while i < jpeg.len()
        invariant
            2 <= i <= jpeg@.len(),
            out@ == jpeg@.subrange(0, 2) + app1@ + jpeg@.subrange(2, i as int),
        decreases jpeg@.len() - i,
    {
        out.push(jpeg[i]);
        i += 1;
        assert(out@ =~= jpeg@.subrange(0, 2) + app1@ + jpeg@.subrange(2, i as int));
    }
    assert(app1@.subrange(0, app1@.len() as int) =~= app1@);
    out
}

/// Give freshly encoded JPEG bytes the EXIF block of the original's bytes:
/// unchanged when they already carry one or the original has none,
/// otherwise the original's `APP1 / Exif` segment spliced in after SOI.
pub fn splice_exif(encoded: Vec<u8>, original: &[u8]) -> (r: Vec<u8>)
    requires
        encoded@.len() >= 2,
    ensures
        r@ == (if app1_segment(encoded@) is Some {
            encoded@
        } else {
            match app1_segment(original@) {
                Some((a, b)) => encoded@.subrange(0, 2) + original@.subrange(a, b)
                    + encoded@.subrange(2, encoded@.len() as int),
                None => encoded@,
            }
        }),
{
    if find_app1(encoded.as_slice()).is_some() {
        return encoded;
    }
    match find_app1(original) {
        Some(app1) => insert_app1(encoded.as_slice(), app1),
        None => encoded,
    }
}

/// A segment `FF E1`, its length field covering the rest, and a payload
/// that starts `Exif\0\0`.
pub open spec fn is_exif_segment(s: Seq<u8>) -> bool {
    &&& s.len() >= 10
    &&& s[0] == 0xFFu8
    &&& s[1] == 0xE1u8
    &&& length_at(s, 0) == s.len() - 2
    &&& starts_with_exif(s.subrange(4, s.len() as int))
}

/// What is spliced in is found again: after inserting an EXIF segment into
/// a JPEG, the segment walk finds exactly that segment, and the
/// start-of-image marker stays first.
pub proof fn lemma_inserted_app1_is_found(bare: Seq<u8>, app1: Seq<u8>)
    requires
        bare.len() >= 2,
        bare[0] == 0xFFu8,
        bare[1] == 0xD8u8,
        is_exif_segment(app1),
    ensures
        ({
            let merged = bare.subrange(0, 2) + app1 + bare.subrange(2, bare.len() as int);
            &&& app1_segment(merged) == Some((2int, 2 + app1.len() as int))
            &&& merged.subrange(2, 2 + app1.len() as int) == app1
            &&& merged[0] == 0xFFu8 && merged[1] == 0xD8u8
        }),
{
    let merged = bare.subrange(0, 2) + app1 + bare.subrange(2, bare.len() as int);
    assert(merged[2] == app1[0]);
    assert(merged[3] == app1[1]);
    assert(merged[4] == app1[2]);
    assert(merged[5] == app1[3]);
    assert(length_at(merged, 2) == length_at(app1, 0));
    assert(merged.subrange(2, 2 + app1.len() as int) =~= app1);
    assert(merged.subrange(6, 2 + app1.len() as int) =~= app1.subrange(4, app1.len() as int));
}

// ---------------------------------------------------------------------------
// File names
// ---------------------------------------------------------------------------

/// The path's extension, in any case, is `jpg` or `jpeg`.
pub open spec fn names_jpeg(path: Seq<char>) -> bool {
    match extension(path) {
        Some(e) => lower(e) == "jpg"@ || lower(e) == "jpeg"@,
        None => false,
    }
}

/// Whether the path names a JPEG, by its extension.
pub fn is_jpeg(path: &str) -> (r: bool)
    ensures
        r == names_jpeg(path@),
{
    let p = chars_of(path);
    let name = match file_name_chars(&p) {
        Some(n) => n,
        None => { return false; },
    };
    let e = match extension_chars(&name) {
        Some(e) => e,
        None => { return false; },
    };
    assert(file_name(path@) == Some(name@));
    assert(extension(path@) == Some(e@));
    let low = string_of(&ascii_lower(&e));
    str_eq(low.as_str(), "jpg") || str_eq(low.as_str(), "jpeg")
}


// ---------------------------------------------------------------------------
// Reading a frame's EXIF
// ---------------------------------------------------------------------------

/// The whole-number fields the decode path reads.
#[derive(Clone, Copy, Debug, PartialEq, Eq, Structural)]
pub enum ExifNumber {
    /// `Orientation`, in the primary image.
    Orientation,
    /// `JPEGInterchangeFormat`, the embedded thumbnail's offset.
    ThumbnailOffset,
    /// `JPEGInterchangeFormatLength`, the embedded thumbnail's length.
    ThumbnailLength,
}

/// The text fields the info bar shows.
#[derive(Clone, Copy, Debug, PartialEq, Eq, Structural)]
pub enum ExifText {
    /// `ExposureTime`.
    ExposureTime,
    /// `PhotographicSensitivity`.
    Sensitivity,
}

/// What kamadak-exif reads as the first whole number of field `which` in
/// the EXIF of a file's `bytes`, if the EXIF parses and has the field.
pub uninterp spec fn exif_number(bytes: Seq<u8>, which: ExifNumber) -> Option<u32>;

/// The TIFF block kamadak-exif holds for the EXIF of a file's `bytes`,
/// which the thumbnail offset counts from.
pub uninterp spec fn exif_block(bytes: Seq<u8>) -> Option<Seq<u8>>;

/// How kamadak-exif displays field `which` of the EXIF of a file's `bytes`.
pub uninterp spec fn exif_display(bytes: Seq<u8>, which: ExifText) -> Option<Seq<char>>;

/// `exif::Reader::read_from_container` over the bytes, then `get_field`
/// and `Value::get_uint(0)`. Claims that the result is `exif_number` of
/// the bytes and the field, and no more.
#[verifier::external_body]
fn read_exif_number(bytes: &[u8], which: ExifNumber) -> (r: Option<u32>)
    ensures
        r == exif_number(bytes@, which),
{
    let exif = Reader::new().read_from_container(&mut Cursor::new(bytes)).ok()?;
    let (tag, ifd) = match which {
        ExifNumber::Orientation => (Tag::Orientation, In::PRIMARY),
        ExifNumber::ThumbnailOffset => (Tag::JPEGInterchangeFormat, In::THUMBNAIL),
        ExifNumber::ThumbnailLength => (Tag::JPEGInterchangeFormatLength, In::THUMBNAIL),
    };
    exif.get_field(tag, ifd)?.value.get_uint(0)
}

/// `exif::Reader::read_from_container` over the bytes, then `Exif::buf`.
/// Claims that the result is `exif_block` of the bytes, and no more.
#[verifier::external_body]
fn read_exif_block(bytes: &[u8]) -> (r: Option<Vec<u8>>)
    ensures
        match r {
            Some(b) => exif_block(bytes@) == Some(b@),
            None => exif_block(bytes@) is None,
        },
{
    let exif = Reader::new().read_from_container(&mut Cursor::new(bytes)).ok()?;
    Some(exif.buf().to_vec())
}

/// `exif::Reader::read_from_container` over the bytes, then `get_field`
/// in the primary image and its `display_value`, as a string. Claims that
/// the result is `exif_display` of the bytes and the field, and no more.
#[verifier::external_body]
fn read_exif_display(bytes: &[u8], which: ExifText) -> (r: Option<String>)
    ensures
        match r {
            Some(t) => exif_display(bytes@, which) == Some(t@),
            None => exif_display(bytes@, which) is None,
        },
{
    let exif = Reader::new().read_from_container(&mut Cursor::new(bytes)).ok()?;
    let tag = match which {
        ExifText::ExposureTime => Tag::ExposureTime,
        ExifText::Sensitivity => Tag::PhotographicSensitivity,
    };
    Some(exif.get_field(tag, In::PRIMARY)?.display_value().to_string())
}

/// The orientation tag of a file, 1 when it has none, taken as 16 bits.
pub fn orientation_of(bytes: &[u8]) -> (r: u16)
    ensures
        r == (match exif_number(bytes@, ExifNumber::Orientation) { Some(v) => (v % 65536) as u16, None => 1u16 }),
{
    crate::decode::orientation_value(read_exif_number(bytes, ExifNumber::Orientation))
}

/// The JPEG thumbnail embedded in a file's EXIF: the part of the TIFF block
/// its offset and length name, when both are there, it is not empty and it
/// lies inside the block.
pub open spec fn embedded_jpeg(bytes: Seq<u8>) -> Option<Seq<u8>> {
    match (exif_number(bytes, ExifNumber::ThumbnailOffset), exif_number(bytes, ExifNumber::ThumbnailLength), exif_block(bytes)) {
        (Some(o), Some(l), Some(b)) => if l == 0 || o as int + l as int > b.len() {
            None
        } else {
            Some(b.subrange(o as int, o as int + l as int))
        },
        _ => None,
    }
}

/// The bytes of the JPEG thumbnail embedded in a file's EXIF, if there is a
/// usable one.
pub fn embedded_thumbnail(bytes: &[u8]) -> (r: Option<Vec<u8>>)
    ensures
        match r {
            Some(t) => embedded_jpeg(bytes@) == Some(t@),
            None => embedded_jpeg(bytes@) is None,
        },
{
    let offset = match read_exif_number(bytes, ExifNumber::ThumbnailOffset) {
        Some(v) => v,
        None => return None,
    };
    let length = match read_exif_number(bytes, ExifNumber::ThumbnailLength) {
        Some(v) => v,
        None => return None,
    };
    let block = match read_exif_block(bytes) {
        Some(b) => b,
        None => return None,
    };
    match embedded_range(offset as usize, length as usize, block.len()) {
        Some((start, end)) => {
            let mut out: Vec<u8> = Vec::new();
            let mut i: usize = start;
            while i < end
                invariant
                    start <= i <= end,
                    end <= block@.len(),
                    out@ == block@.subrange(start as int, i as int),
                decreases end - i,
            {
                out.push(block[i]);
                i += 1;
                assert(out@ =~= block@.subrange(start as int, i as int));
            }
            Some(out)
        },
        None => None,
    }
}

/// The text with every ` s` taken out, left to right.
pub open spec fn without_seconds_unit(s: Seq<char>) -> Seq<char>
    decreases s.len(),
{
    if s.len() >= 2 && s[0] == ' ' && s[1] == 's' {
        without_seconds_unit(s.subrange(2, s.len() as int))
    } else if s.len() == 0 {
        s
    } else {
        seq![s[0]] + without_seconds_unit(s.drop_first())
    }
}

/// The exposure time and the sensitivity as the info bar shows them: the
/// time without its ` s` unit, the sensitivity after `ISO `.
pub fn exposure_words(bytes: &[u8]) -> (r: (Option<String>, Option<String>))
    ensures
        match r.0 {
            Some(t) => exif_display(bytes@, ExifText::ExposureTime) matches Some(d) && t@ == without_seconds_unit(d),
            None => exif_display(bytes@, ExifText::ExposureTime) is None,
        },
        match r.1 {
            Some(t) => exif_display(bytes@, ExifText::Sensitivity) matches Some(d) && t@ == "ISO "@ + d,
            None => exif_display(bytes@, ExifText::Sensitivity) is None,
        },
{
    let shutter = match read_exif_display(bytes, ExifText::ExposureTime) {
        Some(t) => {
            let cs = chars_of(t.as_str());
            let mut out: Vec<char> = Vec::new();
            let mut i: usize = 0;
            assert(out@ + without_seconds_unit(cs@.subrange(0, cs@.len() as int)) =~= without_seconds_unit(cs@)) by {
                assert(cs@.subrange(0, cs@.len() as int) =~= cs@);
            }
            while i < cs.len()
                invariant
                    0 <= i <= cs@.len(),
                    out@ + without_seconds_unit(cs@.subrange(i as int, cs@.len() as int)) == without_seconds_unit(cs@),
                decreases cs@.len() - i,
            {
                let ghost rest = cs@.subrange(i as int, cs@.len() as int);
                if i + 1 < cs.len() && cs[i] == ' ' && cs[i + 1] == 's' {
                    assert(rest.subrange(2, rest.len() as int) =~= cs@.subrange(i + 2, cs@.len() as int));
                    i += 2;
                } else {
                    assert(rest.drop_first() =~= cs@.subrange(i + 1, cs@.len() as int));
                    let ghost before = out@;
                    out.push(cs[i]);
                    i += 1;
                    assert(before.push(rest[0]) + without_seconds_unit(rest.drop_first())
                        =~= before + (seq![rest[0]] + without_seconds_unit(rest.drop_first())));
                }
            }
            assert(cs@.subrange(cs@.len() as int, cs@.len() as int) =~= Seq::<char>::empty());
            assert(out@ + Seq::<char>::empty() =~= out@);
            Some(string_of(&out))
        },
        None => None,
    };
    let iso = match read_exif_display(bytes, ExifText::Sensitivity) {
        Some(t) => {
            let mut out: Vec<char> = Vec::new();
            push_str(&mut out, "ISO ");
            push_str(&mut out, t.as_str());
            Some(string_of(&out))
        },
        None => None,
    };
    (shutter, iso)
}

} // verus!
