//! Subtitle tools: shifting the times of a SubRip text, the arguments that
//! extract or list subtitle streams with ffmpeg, how a stream is shown, and
//! the keys of the side-by-side comparison pager.
use vstd::prelude::*;

pub mod round_trip;
pub mod srt;

pub use srt::OverlapFixMode;
pub use srt::SrtError;
pub use srt::SrtFile;
pub use srt::SrtTime;
pub use srt::SubtitleEntry;

use crate::text::{decimal, push_decimal, push_str_chars, string_from, trim, trim_chars, chars_of};
use srt::{
    all_shift_valid, doc_text, parse_doc, repair_outcome, unit_view, shifted_all, EntryView, SrtErrorView,
};

verus! {

broadcast use vstd::string::group_string_axioms;

/// The outcome of a call, without the text it returns.
pub open spec fn outcome_of(r: Result<String, SrtError>) -> Result<(), SrtErrorView> {
    match r {
        Ok(_) => Ok(()),
        Err(e) => Err(e@),
    }
}

/// What shifting the SubRip text `text` by `ms` milliseconds and settling
/// overlaps in `mode` returns.
pub open spec fn shift_text_outcome(
    text: Seq<char>,
    ms: int,
    mode: OverlapFixMode,
    r: Result<String, SrtError>,
) -> bool {
    match parse_doc(text) {
        Err(e) => r is Err && r->Err_0@ == e,
        Ok(es) => if !all_shift_valid(es, ms) {
            r matches Err(SrtError::InvalidTsError)
        } else {
            exists|after: Seq<EntryView>|
                #[trigger] repair_outcome(shifted_all(es, ms), mode, after, outcome_of(r)) && (r is Ok
                    ==> r->Ok_0@ == doc_text(after))
        },
    }
}

/// Shifts every time of a SubRip text by `ms` milliseconds, settles the
/// overlaps in `mode`, and returns the new text. Fails with the parse
/// error when the text is not a document, with `InvalidTsError` when a
/// shifted time reaches 100 hours, and with the overlap error when an
/// overlap cannot be settled.
pub fn update_srt_time(text: &str, ms: i64, mode: OverlapFixMode) -> (r: Result<String, SrtError>)
    ensures
        shift_text_outcome(text@, ms as int, mode, r),
{
    let mut srt_file = match SrtFile::read(text) {
        Ok(f) => f,
        Err(e) => return Err(e),
    };
    let ghost es = srt_file@;
    let adjusted = srt_file.adjust_timestamps(ms, mode);
    match adjusted {
        Ok(()) => {
            let out = srt_file.write();
            let r: Result<String, SrtError> = Ok(out);
            proof {
                assert(all_shift_valid(es, ms as int));
                assert(repair_outcome(shifted_all(es, ms as int), mode, srt_file@, outcome_of(r)));
            }
            r
        },
        Err(e) => {
            let r: Result<String, SrtError> = Err(e);
            proof {
                if all_shift_valid(es, ms as int) {
                    assert(outcome_of(r) == unit_view(adjusted));
                    assert(repair_outcome(shifted_all(es, ms as int), mode, srt_file@, outcome_of(r)));
                }
            }
            r
        },
    }
}

/// The ffmpeg arguments that copy the first subtitle stream of `file` into
/// `sub`.
pub fn extract_sub_srt_args(file: &str, sub: &str) -> (r: Vec<String>)
    ensures
        r@.len() == 7,
        r@[0]@ == "-i"@,
        r@[1]@ == file@,
        r@[2]@ == "-map"@,
        r@[3]@ == "0:s:0"@,
        r@[4]@ == "-c"@,
        r@[5]@ == "copy"@,
        r@[6]@ == sub@,
{
    let mut r: Vec<String> = Vec::new();
    r.push(string_from("-i"));
    r.push(string_from(file));
    r.push(string_from("-map"));
    r.push(string_from("0:s:0"));
    r.push(string_from("-c"));
    r.push(string_from("copy"));
    r.push(string_from(sub));
    r
}

/// The ffprobe arguments that describe the subtitle streams of `file` as
/// JSON.
pub fn list_sub_stream_args(file: &str) -> (r: Vec<String>)
    ensures
        r@.len() == 9,
        r@[0]@ == "-v"@,
        r@[1]@ == "quiet"@,
        r@[2]@ == "-print_format"@,
        r@[3]@ == "json"@,
        r@[4]@ == "-show_streams"@,
        r@[5]@ == "-select_streams"@,
        r@[6]@ == "s"@,
        r@[7]@ == "--"@,
        r@[8]@ == file@,
{
    let mut r: Vec<String> = Vec::new();
    r.push(string_from("-v"));
    r.push(string_from("quiet"));
    r.push(string_from("-print_format"));
    r.push(string_from("json"));
    r.push(string_from("-show_streams"));
    r.push(string_from("-select_streams"));
    r.push(string_from("s"));
    r.push(string_from("--"));
    r.push(string_from(file));
    r
}

/// One subtitle stream of a media container.
#[derive(Debug, Clone)]
pub struct SubtitleStreamInfo {
    /// The stream's index in the container.
    pub index: u32,
    pub codec_name: String,
    /// The duration in milliseconds.
    pub duration: u32,
    pub language: Option<String>,
    pub title: Option<String>,
}

/// How the subtitle streams are printed.
#[derive(Debug, Clone, Copy, PartialEq, Eq, Structural)]
pub enum OutputFormat {
    Json,
    Table,
    List,
}

/// An optional tag, or `N/A` when it is absent.
pub open spec fn tag_text(t: Option<String>) -> Seq<char> {
    match t {
        Some(s) => s@,
        None => "N/A"@,
    }
}

/// The line that shows a stream in list form.
pub open spec fn list_line_text(s: SubtitleStreamInfo) -> Seq<char> {
    "Index("@ + decimal(s.index as nat) + ") Codec Name("@ + s.codec_name@ + ") Duration("@
        + decimal(s.duration as nat) + "ms) Language("@ + tag_text(s.language) + ") Title("@
        + tag_text(s.title) + ")"@
}

fn push_tag(out: &mut String, t: &Option<String>)
    ensures
        final(out)@ == old(out)@ + tag_text(*t),
{
    match t {
        Some(s) => push_str_chars(out, s.as_str()),
        None => push_str_chars(out, "N/A"),
    }
}

fn tag_string(t: &Option<String>) -> (r: String)
    ensures
        r@ == tag_text(*t),
{
    let mut r = String::new();
    push_tag(&mut r, t);
    r
}

impl SubtitleStreamInfo {
    /// The stream as one line:
    /// `Index(..) Codec Name(..) Duration(..ms) Language(..) Title(..)`.
    pub fn to_list_line(&self) -> (r: String)
        ensures
            r@ == list_line_text(*self),
    {
        let mut r = string_from("Index(");
        push_decimal(&mut r, self.index as u64);
        push_str_chars(&mut r, ") Codec Name(");
        push_str_chars(&mut r, self.codec_name.as_str());
        push_str_chars(&mut r, ") Duration(");
        push_decimal(&mut r, self.duration as u64);
        push_str_chars(&mut r, "ms) Language(");
        push_tag(&mut r, &self.language);
        push_str_chars(&mut r, ") Title(");
        push_tag(&mut r, &self.title);
        push_str_chars(&mut r, ")");
        r
    }

    /// The stream as the cells of a table row: index, codec, duration,
    /// language and title.
    pub fn table_cells(&self) -> (r: Vec<String>)
        ensures
            r@.len() == 5,
            r@[0]@ == decimal(self.index as nat),
            r@[1]@ == self.codec_name@,
            r@[2]@ == decimal(self.duration as nat),
            r@[3]@ == tag_text(self.language),
            r@[4]@ == tag_text(self.title),
    {
        let mut r: Vec<String> = Vec::new();
        let mut idx = String::new();
        push_decimal(&mut idx, self.index as u64);
        r.push(idx);
        r.push(string_from(self.codec_name.as_str()));
        let mut dur = String::new();
        push_decimal(&mut dur, self.duration as u64);
        r.push(dur);
        r.push(tag_string(&self.language));
        r.push(tag_string(&self.title));
        r
    }
}

/// What a key typed at the comparison pager asks for.
#[derive(Debug, Clone, Copy, PartialEq, Eq, Structural)]
pub enum PagerKey {
    /// Show this many more entries.
    Show(u32),
    Quit,
    /// Anything else: ask again.
    Invalid,
}

/// The pager's reading of a typed line: `n` or a digit `1`-`9` shows that
/// many more entries (`n` one), `q` quits, anything else is invalid;
/// whitespace around the key is ignored.
pub open spec fn pager_key_spec(input: Seq<char>) -> PagerKey {
    let t = trim(input);
    if t.len() == 1 && t[0] == 'n' {
        PagerKey::Show(1)
    } else if t.len() == 1 && t[0] == 'q' {
        PagerKey::Quit
    } else if t.len() == 1 && '1' <= t[0] && t[0] <= '9' {
        PagerKey::Show(((t[0] as u32) - ('0' as u32)) as u32)
    } else {
        PagerKey::Invalid
    }
}

/// Reads a line typed at the comparison pager.
pub fn pager_key(input: &str) -> (r: PagerKey)
    ensures
        r == pager_key_spec(input@),
{
    let t = trim_chars(&chars_of(input));
    if t.len() != 1 {
        return PagerKey::Invalid;
    }
    let c = t[0];
    if c == 'n' {
        PagerKey::Show(1)
    } else if c == 'q' {
        PagerKey::Quit
    } else if '1' <= c && c <= '9' {
        PagerKey::Show(c as u32 - '0' as u32)
    } else {
        PagerKey::Invalid
    }
}

} // verus!
