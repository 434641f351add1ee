//! The window chrome's words: what the info bar and the status bar say.
use vstd::prelude::*;
use crate::model::{Destination, ExifSummary, joined, present_parts};
use crate::select::SelectEvent;
use crate::text::{decimal, push_decimal, push_str, string_of};

verus! {

/// What the info bar shows about the frame under the cursor.
pub struct InfoBar<'a> {
    pub filename: &'a str,
    pub exif: Option<&'a ExifSummary>,
    pub already_kept: bool,
    pub destination: &'a Destination,
    pub destination_open: bool,
}

/// What the info bar asks for.
pub enum InfoEvent {
    Keep,
    Select(SelectEvent),
}

impl<'a> InfoBar<'a> {
    /// The exposure line, when the frame has any exposure data.
    pub fn exif_text(&self) -> (r: Option<String>)
        ensures
            r matches Some(s) ==> self.exif matches Some(e) && s@ == joined(present_parts(*e), " · "@) && s@.len() > 0,
            r is None ==> (self.exif matches Some(e) ==> joined(present_parts(*e), " · "@).len() == 0),
    {
        match self.exif {
            Some(e) => {
                let line = e.line();
                if line.as_str().unicode_len() > 0 {
                    Some(line)
                } else {
                    None
                }
            },
            None => None,
        }
    }
}

/// What the status bar shows.
pub struct Status<'a> {
    pub position: usize,
    pub total: usize,
    pub kept: usize,
    pub passed: usize,
    pub decode_ms: u32,
    /// A refusal or confirmation, shown as a plain line.
    pub notice: Option<&'a str>,
    pub show_all_shortcuts: bool,
}

/// The status bar's left side: a notice takes all of it; otherwise the
/// position, the kept and passed counts, and the last decode time when
/// there is one.
pub open spec fn status_words(position: nat, total: nat, kept: nat, passed: nat, decode_ms: nat, notice: Option<Seq<char>>) -> Seq<Seq<char>> {
    match notice {
        Some(n) => seq![n],
        None => {
            let counts = seq![
                decimal(position) + " / "@ + decimal(total),
                decimal(kept) + " kept"@,
                decimal(passed) + " passed"@,
            ];
            if decode_ms > 0 { counts.push("decode "@ + decimal(decode_ms) + "ms"@) } else { counts }
        },
    }
}

/// The shortcut hints on the right, always showing the four core keys.
pub open spec fn hint_words(show_all: bool) -> Seq<Seq<char>> {
    if show_all {
        seq!["← → navigate"@, "↵ enhance"@, "^↵ keep as shot"@, "Del pass"@, "Z zoom"@, "[ ] rotate"@, "O folder"@, "S destination"@]
    } else {
        seq!["← → navigate"@, "↵ enhance"@, "^↵ keep as shot"@, "Del pass"@, "/ more"@]
    }
}

fn number_then(n: u64, tail: &str) -> (r: String)
    ensures
        r@ == decimal(n as nat) + tail@,
{
    let mut out: Vec<char> = Vec::new();
    push_decimal(&mut out, n);
    push_str(&mut out, tail);
    string_of(&out)
}

impl<'a> Status<'a> {
    /// The status bar's left side, item by item.
    pub fn items(&self) -> (r: Vec<String>)
        ensures
            r@.map_values(|s: String| s@) == status_words(
                self.position as nat,
                self.total as nat,
                self.kept as nat,
                self.passed as nat,
                self.decode_ms as nat,
                match self.notice { Some(n) => Some(n@), None => None },
            ),
    {
        let mut out: Vec<String> = Vec::new();
        match self.notice {
            Some(n) => {
                out.push(n.to_owned());
            },
            None => {
                let mut first: Vec<char> = Vec::new();
                push_decimal(&mut first, self.position as u64);
                push_str(&mut first, " / ");
                push_decimal(&mut first, self.total as u64);
                out.push(string_of(&first));
                out.push(number_then(self.kept as u64, " kept"));
                out.push(number_then(self.passed as u64, " passed"));
                if self.decode_ms > 0 {
                    let mut d: Vec<char> = Vec::new();
                    push_str(&mut d, "decode ");
                    push_decimal(&mut d, self.decode_ms as u64);
                    push_str(&mut d, "ms");
                    out.push(string_of(&d));
                }
            },
        }
        assert(out@.map_values(|s: String| s@) =~= status_words(
            self.position as nat,
            self.total as nat,
            self.kept as nat,
            self.passed as nat,
            self.decode_ms as nat,
            match self.notice { Some(n) => Some(n@), None => None },
        ));
        out
    }

    /// The shortcut hints, left to right.
    pub fn hints(&self) -> (r: Vec<&'static str>)
        ensures
            r@.map_values(|s: &str| s@) == hint_words(self.show_all_shortcuts),
    {
        let out: Vec<&'static str> = if self.show_all_shortcuts {
            vec!["← → navigate", "↵ enhance", "^↵ keep as shot", "Del pass", "Z zoom", "[ ] rotate", "O folder", "S destination"]
        } else {
            vec!["← → navigate", "↵ enhance", "^↵ keep as shot", "Del pass", "/ more"]
        };
        assert(out@.map_values(|s: &str| s@) =~= hint_words(self.show_all_shortcuts));
        out
    }
}

} // verus!
