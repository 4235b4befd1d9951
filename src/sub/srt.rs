//! SubRip (SRT) documents: parsing from text, serialising back, overlap
//! detection and repair, and shifting every timestamp by a fixed offset.
//!
//! Times are signed millisecond counts. A document is read in one pass,
//! changed in place by `adjust_timestamps` and `fix_ts_overlap`, and written
//! out again by `write`.
use vstd::prelude::*;

use crate::text::{
    digit_char, lemma_digit_char, lemma_three_places, lemma_two_places, chars_of, decimal, digit_value, is_blank, is_blank_chars, is_digit, lines_of,
    parse_i64, parse_i64_spec, parse_u32, parse_u32_spec, push_chars, push_decimal, push_padded,
    push_signed_padded, push_str_chars, signed_padded, split_lines, string_from, string_of, trim,
    trim_chars, views_of, zero_pad,
};

verus! {

broadcast use vstd::string::group_string_axioms;

/// Declares `std::io::Error` so that a read failure can be carried in an
/// `SrtError`.
#[verifier::external_type_specification]
#[verifier::external_body]
pub struct ExIoError(std::io::Error);

/// Why an operation on a subtitle document failed.
#[derive(Debug)]
pub enum SrtError {
    /// A malformed or invalid timestamp line; carries the offending text.
    ParseTimeError(String),
    /// A malformed index line or a missing line; carries the offending text.
    ParseTextError(String),
    /// The stream the document came from could not be read.
    IoError(std::io::Error),
    /// An overlap that cannot be repaired; carries both ranges.
    OverlapError(String),
    /// A shifted timestamp reached the 100-hour ceiling.
    InvalidTsError,
}

/// What an `SrtError` says, with its text as characters.
pub enum SrtErrorView {
    ParseTime(Seq<char>),
    ParseText(Seq<char>),
    Io,
    Overlap(Seq<char>),
    InvalidTs,
}

impl View for SrtError {
    type V = SrtErrorView;

    open spec fn view(&self) -> SrtErrorView {
        match self {
            SrtError::ParseTimeError(m) => SrtErrorView::ParseTime(m@),
            SrtError::ParseTextError(m) => SrtErrorView::ParseText(m@),
            SrtError::IoError(_) => SrtErrorView::Io,
            SrtError::OverlapError(m) => SrtErrorView::Overlap(m@),
            SrtError::InvalidTsError => SrtErrorView::InvalidTs,
        }
    }
}

/// The human-readable message of an error.
pub open spec fn error_message(e: SrtErrorView) -> Seq<char> {
    match e {
        SrtErrorView::ParseTime(m) => "Parse time error: "@ + m,
        SrtErrorView::ParseText(m) => "Parse error occurred while read content: "@ + m,
        SrtErrorView::Io => "IO error"@,
        SrtErrorView::Overlap(m) => "Failed to fix overlapping entries. The problematic line is "@
            + m,
        SrtErrorView::InvalidTs => "Generated an invalid timestamp."@,
    }
}

impl SrtError {
    /// The human-readable message of this error.
    pub fn message(&self) -> (r: String)
        ensures
            r@ == error_message(self@),
    {
        let mut r = String::new();
        match self {
            SrtError::ParseTimeError(m) => {
                push_str_chars(&mut r, "Parse time error: ");
                push_str_chars(&mut r, m.as_str());
            },
            SrtError::ParseTextError(m) => {
                push_str_chars(&mut r, "Parse error occurred while read content: ");
                push_str_chars(&mut r, m.as_str());
            },
            SrtError::IoError(_) => {
                push_str_chars(&mut r, "IO error");
            },
            SrtError::OverlapError(m) => {
                push_str_chars(&mut r, "Failed to fix overlapping entries. The problematic line is ");
                push_str_chars(&mut r, m.as_str());
            },
            SrtError::InvalidTsError => {
                push_str_chars(&mut r, "Generated an invalid timestamp.");
            },
        }
        r
    }
}

/// How `fix_ts_overlap` settles two overlapping neighbours.
#[derive(Clone, Copy, Debug, PartialEq, Eq, Structural)]
pub enum OverlapFixMode {
    /// Keep the first entry: the later one starts when the earlier one ends.
    Before,
    /// Keep the second entry: the earlier one ends when the later one starts.
    After,
}

// ---------------------------------------------------------------------------
// Timestamps
// ---------------------------------------------------------------------------

/// The format's ceiling: a valid timestamp lies below 100 hours.
pub const MAX_TS_MS: i64 = 360_000_000;

/// `H:MM:SS,mmm` for a non-negative count of milliseconds; the hour field
/// is at least two digits wide and grows as needed.
pub open spec fn clock_text(a: nat) -> Seq<char> {
    let ms = a % 1000;
    let secs = a / 1000;
    let s = secs % 60;
    let mins = secs / 60;
    let m = mins % 60;
    let h = mins / 60;
    zero_pad(decimal(h), 2) + seq![':'] + zero_pad(decimal(m), 2) + seq![':'] + zero_pad(
        decimal(s),
        2,
    ) + seq![','] + zero_pad(decimal(ms), 3)
}

/// A signed millisecond count rendered as `[-]HH:MM:SS,mmm`.
pub open spec fn timestamp_text(ms: int) -> Seq<char> {
    if ms < 0 {
        seq!['-'] + clock_text((-ms) as nat)
    } else {
        clock_text(ms as nat)
    }
}

/// The separator between the two timestamps of a range line.
pub open spec fn arrow() -> Seq<char> {
    seq![' ', '-', '-', '>', ' ']
}

/// A range rendered as `begin --> end`.
pub open spec fn range_text(beg: int, end: int) -> Seq<char> {
    timestamp_text(beg) + arrow() + timestamp_text(end)
}

/// Twelve characters at `o` shaped `DD:DD:DD,DDD`.
pub open spec fn stamp_shape(l: Seq<char>, o: int) -> bool {
    &&& is_digit(l[o])
    &&& is_digit(l[o + 1])
    &&& l[o + 2] == ':'
    &&& is_digit(l[o + 3])
    &&& is_digit(l[o + 4])
    &&& l[o + 5] == ':'
    &&& is_digit(l[o + 6])
    &&& is_digit(l[o + 7])
    &&& l[o + 8] == ','
    &&& is_digit(l[o + 9])
    &&& is_digit(l[o + 10])
    &&& is_digit(l[o + 11])
}

/// The whole line is `DD:DD:DD,DDD --> DD:DD:DD,DDD`.
pub open spec fn time_line_shape(l: Seq<char>) -> bool {
    &&& l.len() == 29
    &&& stamp_shape(l, 0)
    &&& l.subrange(12, 17) == arrow()
    &&& stamp_shape(l, 17)
}

pub open spec fn two_digits(l: Seq<char>, o: int) -> int {
    10 * digit_value(l[o]) + digit_value(l[o + 1])
}

pub open spec fn three_digits(l: Seq<char>, o: int) -> int {
    100 * digit_value(l[o]) + 10 * digit_value(l[o + 1]) + digit_value(l[o + 2])
}

/// The text of the error for fields out of range, as
/// `"invalid timestamp: {:02}:{:02}:{:02}.{:03}"` renders them.
pub open spec fn invalid_fields_text(h: int, m: int, s: int, ms: int) -> Seq<char> {
    "invalid timestamp: "@ + signed_padded(h, 2) + seq![':'] + signed_padded(m, 2) + seq![':']
        + signed_padded(s, 2) + seq!['.'] + signed_padded(ms, 3)
}

/// Hours, minutes, seconds and milliseconds combined into milliseconds,
/// when each lies in its range (hours 0-99, minutes and seconds 0-59,
/// milliseconds 0-999).
pub open spec fn fields_spec(h: int, m: int, s: int, ms: int) -> Result<int, SrtErrorView> {
    if h > 99 || h < 0 || m > 59 || m < 0 || s > 59 || s < 0 || ms > 999 || ms < 0 {
        Err(SrtErrorView::ParseTime(invalid_fields_text(h, m, s, ms)))
    } else {
        Ok(h * 3_600_000 + m * 60_000 + s * 1000 + ms)
    }
}

/// The timestamp that starts at `o` in a line of the right shape.
pub open spec fn stamp_at(l: Seq<char>, o: int) -> Result<int, SrtErrorView> {
    fields_spec(
        two_digits(l, o),
        two_digits(l, o + 3),
        two_digits(l, o + 6),
        three_digits(l, o + 9),
    )
}

/// The text of the error for a range that ends before it begins.
pub open spec fn reversed_range_text() -> Seq<char> {
    "endtime is greater then begintime"@
}

/// What a timestamp line decodes to: the begin and end in milliseconds.
pub open spec fn time_line_spec(l: Seq<char>) -> Result<(int, int), SrtErrorView> {
    if !time_line_shape(l) {
        Err(SrtErrorView::ParseTime(l))
    } else {
        match stamp_at(l, 0) {
            Err(e) => Err(e),
            Ok(b) => match stamp_at(l, 17) {
                Err(e) => Err(e),
                Ok(e) => if e < b {
                    Err(SrtErrorView::ParseTime(reversed_range_text()))
                } else {
                    Ok((b, e))
                },
            },
        }
    }
}

/// What `from_seg` gives for four number fields.
pub open spec fn seg_spec(h: Seq<char>, m: Seq<char>, s: Seq<char>, ms: Seq<char>) -> Result<
    int,
    SrtErrorView,
> {
    match (parse_i64_spec(h), parse_i64_spec(m), parse_i64_spec(s), parse_i64_spec(ms)) {
        (None, _, _, _) => Err(SrtErrorView::ParseTime("invalid hour value "@ + h)),
        (Some(_), None, _, _) => Err(SrtErrorView::ParseTime("invalid minute value "@ + m)),
        (Some(_), Some(_), None, _) => Err(SrtErrorView::ParseTime("invalid second value "@ + s)),
        (Some(_), Some(_), Some(_), None) => Err(
            SrtErrorView::ParseTime("invalid millisecond value "@ + ms),
        ),
        (Some(hv), Some(mv), Some(sv), Some(msv)) => fields_spec(
            hv as int,
            mv as int,
            sv as int,
            msv as int,
        ),
    }
}

/// A range is valid when both ends lie below 100 hours.
pub open spec fn valid_range(beg: int, end: int) -> bool {
    beg < MAX_TS_MS && end < MAX_TS_MS
}

/// A time range `[beg_ts, end_ts]` in milliseconds, with its duration.
#[derive(Debug, Default, Clone, PartialEq, Eq)]
pub struct SrtTime {
    beg_ts: i64,
    end_ts: i64,
    dur: i64,
}

impl SrtTime {
    /// The range starts at or after zero, ends no earlier than it starts,
    /// and its duration is the difference.
    pub closed spec fn wf(&self) -> bool {
        &&& 0 <= self.beg_ts <= self.end_ts
        &&& self.dur == self.end_ts - self.beg_ts
    }

    pub closed spec fn beg(&self) -> int {
        self.beg_ts as int
    }

    pub closed spec fn end(&self) -> int {
        self.end_ts as int
    }

    pub fn new(beg_ts: i64, end_ts: i64) -> (r: Self)
        requires
            0 <= beg_ts <= end_ts,
        ensures
            r.wf(),
            r.beg() == beg_ts,
            r.end() == end_ts,
    {
        SrtTime { beg_ts, end_ts, dur: end_ts - beg_ts }
    }

    pub fn beg_ts(&self) -> (r: i64)
        ensures
            r == self.beg(),
    {
        self.beg_ts
    }

    pub fn end_ts(&self) -> (r: i64)
        ensures
            r == self.end(),
    {
        self.end_ts
    }

    /// The duration in whole seconds.
    pub fn entry_dur_secs(&self) -> (r: i64)
        requires
            self.wf(),
        ensures
            r == (self.end() - self.beg()) / 1000,
    {
        self.dur / 1000
    }

    /// The duration in milliseconds.
    pub fn entry_dur_millis(&self) -> (r: i64)
        requires
            self.wf(),
        ensures
            r == self.end() - self.beg(),
    {
        self.dur
    }

    fn update_beg_ts(&mut self, new_ts: i64)
        requires
            0 <= new_ts <= old(self).end(),
        ensures
            final(self).wf(),
            final(self).beg() == new_ts,
            final(self).end() == old(self).end(),
    {
        self.beg_ts = new_ts;
        self.dur = self.end_ts - self.beg_ts;
    }

    fn update_end_ts(&mut self, new_ts: i64)
        requires
            0 <= old(self).beg() <= new_ts,
        ensures
            final(self).wf(),
            final(self).beg() == old(self).beg(),
            final(self).end() == new_ts,
    {
        self.end_ts = new_ts;
        self.dur = self.end_ts - self.beg_ts;
    }

    /// Both ends lie below the 100-hour ceiling.
    pub fn is_valid(&self) -> (r: bool)
        ensures
            r == valid_range(self.beg(), self.end()),
    {
        self.beg_ts < MAX_TS_MS && self.end_ts < MAX_TS_MS
    }

    /// Renders a millisecond count as `[-]HH:MM:SS,mmm`; hours beyond 99
    /// take as many digits as they need.
    pub fn dur_to_timestamp(ms: i64) -> (r: String)
        ensures
            r@ == timestamp_text(ms as int),
    {
        let mut r = String::new();
        let a: u64 = if ms < 0 {
            r.push('-');
            if ms == i64::MIN {
                0x8000_0000_0000_0000
            } else {
                (-ms) as u64
            }
        } else {
            ms as u64
        };
        let ghost start = r@;
        let msp = a % 1000;
        let secs = a / 1000;
        let s = secs % 60;
        let mins = secs / 60;
        let m = mins % 60;
        let h = mins / 60;
        push_padded(&mut r, h, 2);
        r.push(':');
        push_padded(&mut r, m, 2);
        r.push(':');
        push_padded(&mut r, s, 2);
        r.push(',');
        push_padded(&mut r, msp, 3);
        assert(r@ =~= start + clock_text(a as nat));
        r
    }

    /// The range as its line: `begin --> end`.
    pub fn to_line(&self) -> (r: String)
        ensures
            r@ == range_text(self.beg(), self.end()),
    {
        let mut r = Self::dur_to_timestamp(self.beg_ts);
        push_str_chars(&mut r, " --> ");
        proof {
            reveal_strlit(" --> ");
        }
        let e = Self::dur_to_timestamp(self.end_ts);
        push_str_chars(&mut r, e.as_str());
        assert(" --> "@ == arrow());
        r
    }

    /// Combines the four fields into milliseconds, or reports the fields as
    /// out of range.
    fn from_fields(h: i64, m: i64, s: i64, ms: i64) -> (r: Result<i64, SrtError>)
        ensures
            match r {
                Ok(v) => fields_spec(h as int, m as int, s as int, ms as int) == Ok::<
                    int,
                    SrtErrorView,
                >(v as int),
                Err(e) => fields_spec(h as int, m as int, s as int, ms as int) == Err::<
                    int,
                    SrtErrorView,
                >(e@),
            },
    {
        if h > 99 || h < 0 || m > 59 || m < 0 || s > 59 || s < 0 || ms > 999 || ms < 0 {
            let mut t = string_from("invalid timestamp: ");
            push_signed_padded(&mut t, h, 2);
            t.push(':');
            push_signed_padded(&mut t, m, 2);
            t.push(':');
            push_signed_padded(&mut t, s, 2);
            t.push('.');
            push_signed_padded(&mut t, ms, 3);
            assert(t@ =~= invalid_fields_text(h as int, m as int, s as int, ms as int));
            Err(SrtError::ParseTimeError(t))
        } else {
            Ok(h * 3_600_000 + m * 60_000 + s * 1000 + ms)
        }
    }

    /// Parses the four fields of a timestamp, each as a signed decimal
    /// number, and combines them into milliseconds.
    pub fn from_seg(h: &str, m: &str, s: &str, ms: &str) -> (r: Result<i64, SrtError>)
        ensures
            match r {
                Ok(v) => seg_spec(h@, m@, s@, ms@) == Ok::<int, SrtErrorView>(v as int),
                Err(e) => seg_spec(h@, m@, s@, ms@) == Err::<int, SrtErrorView>(e@),
            },
    {
        let hv = match parse_i64(&chars_of(h)) {
            Some(v) => v,
            None => {
                let mut t = string_from("invalid hour value ");
                push_str_chars(&mut t, h);
                return Err(SrtError::ParseTimeError(t));
            },
        };
        let mv = match parse_i64(&chars_of(m)) {
            Some(v) => v,
            None => {
                let mut t = string_from("invalid minute value ");
                push_str_chars(&mut t, m);
                return Err(SrtError::ParseTimeError(t));
            },
        };
        let sv = match parse_i64(&chars_of(s)) {
            Some(v) => v,
            None => {
                let mut t = string_from("invalid second value ");
                push_str_chars(&mut t, s);
                return Err(SrtError::ParseTimeError(t));
            },
        };
        let msv = match parse_i64(&chars_of(ms)) {
            Some(v) => v,
            None => {
                let mut t = string_from("invalid millisecond value ");
                push_str_chars(&mut t, ms);
                return Err(SrtError::ParseTimeError(t));
            },
        };
        Self::from_fields(hv, mv, sv, msv)
    }

    /// Parses a timestamp line from its characters.
    fn from_chars(l: &Vec<char>) -> (r: Result<SrtTime, SrtError>)
        ensures
            match r {
                Ok(t) => t.wf() && time_line_spec(l@) == Ok::<(int, int), SrtErrorView>(
                    (t.beg(), t.end()),
                ),
                Err(e) => time_line_spec(l@) == Err::<(int, int), SrtErrorView>(e@),
            },
    {
        if !Self::shape_ok(l) {
            return Err(SrtError::ParseTimeError(string_of(l)));
        }
        let beg_ts = match Self::stamp_from(l, 0) {
            Ok(v) => v,
            Err(e) => return Err(e),
        };
        let end_ts = match Self::stamp_from(l, 17) {
            Ok(v) => v,
            Err(e) => return Err(e),
        };
        if end_ts < beg_ts {
            return Err(SrtError::ParseTimeError(string_from("endtime is greater then begintime")));
        }
        Ok(SrtTime { beg_ts, end_ts, dur: end_ts - beg_ts })
    }

    /// Parses a line `HH:MM:SS,mmm --> HH:MM:SS,mmm`.
    pub fn from_line(ts_line: &str) -> (r: Result<SrtTime, SrtError>)
        ensures
            match r {
                Ok(t) => t.wf() && time_line_spec(ts_line@) == Ok::<(int, int), SrtErrorView>(
                    (t.beg(), t.end()),
                ),
                Err(e) => time_line_spec(ts_line@) == Err::<(int, int), SrtErrorView>(e@),
            },
            !time_line_shape(ts_line@) ==> (r matches Err(SrtError::ParseTimeError(m)) && m@
                == ts_line@),
            r is Ok ==> 0 <= r->Ok_0.beg() <= r->Ok_0.end() < MAX_TS_MS,
    {
        let r = Self::from_chars(&chars_of(ts_line));
        proof {
            if r is Ok {
                lemma_time_line_bounded(ts_line@);
            }
        }
        r
    }

    fn digit_at(l: &Vec<char>, k: usize) -> (r: bool)
        requires
            k < l.len(),
        ensures
            r == is_digit(l@[k as int]),
    {
        '0' <= l[k] && l[k] <= '9'
    }

    fn stamp_shape_ok(l: &Vec<char>, o: usize) -> (r: bool)
        requires
            o + 12 <= l.len(),
        ensures
            r == stamp_shape(l@, o as int),
    {
        Self::digit_at(l, o) && Self::digit_at(l, o + 1) && l[o + 2] == ':' && Self::digit_at(
            l,
            o + 3,
        ) && Self::digit_at(l, o + 4) && l[o + 5] == ':' && Self::digit_at(l, o + 6)
            && Self::digit_at(l, o + 7) && l[o + 8] == ',' && Self::digit_at(l, o + 9)
            && Self::digit_at(l, o + 10) && Self::digit_at(l, o + 11)
    }

    fn shape_ok(l: &Vec<char>) -> (r: bool)
        ensures
            r == time_line_shape(l@),
    {
        if l.len() != 29 {
            return false;
        }
        let arrow_ok = l[12] == ' ' && l[13] == '-' && l[14] == '-' && l[15] == '>' && l[16]
            == ' ';
        assert(arrow_ok == (l@.subrange(12, 17) == arrow())) by {
            if l@.subrange(12, 17) == arrow() {
                assert(l@.subrange(12, 17)[0] == l@[12]);
                assert(l@.subrange(12, 17)[1] == l@[13]);
                assert(l@.subrange(12, 17)[2] == l@[14]);
                assert(l@.subrange(12, 17)[3] == l@[15]);
                assert(l@.subrange(12, 17)[4] == l@[16]);
            }
            if arrow_ok {
                assert(l@.subrange(12, 17) =~= arrow());
            }
        }
        Self::stamp_shape_ok(l, 0) && arrow_ok && Self::stamp_shape_ok(l, 17)
    }

    fn digit_val(l: &Vec<char>, k: usize) -> (r: i64)
        requires
            k < l.len(),
            is_digit(l@[k as int]),
        ensures
            r == digit_value(l@[k as int]),
            0 <= r <= 9,
    {
        (l[k] as u32 - '0' as u32) as i64
    }

    fn stamp_from(l: &Vec<char>, o: usize) -> (r: Result<i64, SrtError>)
        requires
            o + 12 <= l.len(),
            stamp_shape(l@, o as int),
        ensures
            match r {
                Ok(v) => stamp_at(l@, o as int) == Ok::<int, SrtErrorView>(v as int),
                Err(e) => stamp_at(l@, o as int) == Err::<int, SrtErrorView>(e@),
            },
    {
        let h = 10 * Self::digit_val(l, o) + Self::digit_val(l, o + 1);
        let m = 10 * Self::digit_val(l, o + 3) + Self::digit_val(l, o + 4);
        let s = 10 * Self::digit_val(l, o + 6) + Self::digit_val(l, o + 7);
        let ms = 100 * Self::digit_val(l, o + 9) + 10 * Self::digit_val(l, o + 10)
            + Self::digit_val(l, o + 11);
        Self::from_fields(h, m, s, ms)
    }
}

/// A decoded range lies in `[0, 100h)` with its end no earlier than its
/// begin.
pub proof fn lemma_time_line_bounded(l: Seq<char>)
    requires
        time_line_spec(l) is Ok,
    ensures
        0 <= time_line_spec(l)->Ok_0.0 <= time_line_spec(l)->Ok_0.1 < MAX_TS_MS,
{
}


// ---------------------------------------------------------------------------
// Entries and documents
// ---------------------------------------------------------------------------

/// An entry as a value: its index, its range in milliseconds and its text.
pub struct EntryView {
    pub index: u32,
    pub beg: int,
    pub end: int,
    pub text: Seq<char>,
}

/// One subtitle cue: a sequence index, a time range and its text, whose
/// lines are joined with `'\n'`.
#[derive(Debug, Default, Clone, PartialEq)]
pub struct SubtitleEntry {
    pub index: u32,
    timestamp: SrtTime,
    pub text: String,
}

impl View for SubtitleEntry {
    type V = EntryView;

    closed spec fn view(&self) -> EntryView {
        EntryView {
            index: self.index,
            beg: self.timestamp.beg(),
            end: self.timestamp.end(),
            text: self.text@,
        }
    }
}

impl SubtitleEntry {
    pub closed spec fn wf(&self) -> bool {
        self.timestamp.wf()
    }

    pub fn new(index: u32, timestamp: SrtTime, text: String) -> (r: Self)
        requires
            timestamp.wf(),
        ensures
            r.wf(),
            r@ == (EntryView { index, beg: timestamp.beg(), end: timestamp.end(), text: text@ }),
    {
        SubtitleEntry { index, timestamp, text }
    }

    pub fn timestamp(&self) -> (r: &SrtTime)
        ensures
            r.beg() == self@.beg,
            r.end() == self@.end,
            self.wf() ==> r.wf(),
    {
        &self.timestamp
    }

    /// The three cells that show this entry: its index, its range line and
    /// its text.
    pub fn to_entry_str(&self) -> (r: Vec<String>)
        ensures
            r@.len() == 3,
            r@[0]@ == decimal(self@.index as nat),
            r@[1]@ == range_text(self@.beg, self@.end),
            r@[2]@ == self@.text,
    {
        let mut idx = String::new();
        push_decimal(&mut idx, self.index as u64);
        let mut r: Vec<String> = Vec::new();
        r.push(idx);
        r.push(self.timestamp.to_line());
        r.push(self.text.clone());
        r
    }
}

/// A subtitle document: its entries in file order.
#[derive(Debug)]
pub struct SrtFile {
    entries: Vec<SubtitleEntry>,
}

impl View for SrtFile {
    type V = Seq<EntryView>;

    closed spec fn view(&self) -> Seq<EntryView> {
        self.entries@.map_values(|e: SubtitleEntry| e@)
    }
}

/// The lines of an entry's text joined with `'\n'`.
pub open spec fn join_lines(ls: Seq<Seq<char>>) -> Seq<char>
    decreases ls.len(),
{
    if ls.len() == 0 {
        Seq::empty()
    } else if ls.len() == 1 {
        ls[0]
    } else {
        join_lines(ls.drop_last()) + seq!['\n'] + ls.last()
    }
}

/// The first blank line at or after `k`, or the number of lines.
pub open spec fn block_end(ls: Seq<Seq<char>>, k: int) -> int
    decreases ls.len() - k,
{
    if k < 0 || k >= ls.len() {
        ls.len() as int
    } else if is_blank(ls[k]) {
        k
    } else {
        block_end(ls, k + 1)
    }
}

pub proof fn lemma_block_end_bounds(ls: Seq<Seq<char>>, k: int)
    requires
        0 <= k <= ls.len(),
    ensures
        k <= block_end(ls, k) <= ls.len(),
    decreases ls.len() - k,
{
    if k < ls.len() && !is_blank(ls[k]) {
        lemma_block_end_bounds(ls, k + 1);
    }
}

/// The text of the error for an index line that is the last line.
pub open spec fn missing_ts_text() -> Seq<char> {
    "missing timestamp line"@
}

/// Reads entries from line `i` on, after the entries `acc` already read:
/// blank lines are skipped; an entry is an index line, a timestamp line,
/// and text lines up to the next blank line or the end.
pub open spec fn parse_from(ls: Seq<Seq<char>>, i: int, acc: Seq<EntryView>) -> Result<
    Seq<EntryView>,
    SrtErrorView,
>
    decreases ls.len() + 1 - i
        via parse_from_decreases
{
    if i < 0 || i >= ls.len() {
        Ok(acc)
    } else if is_blank(ls[i]) {
        parse_from(ls, i + 1, acc)
    } else {
        match parse_u32_spec(trim(ls[i])) {
            None => Err(SrtErrorView::ParseText(ls[i])),
            Some(index) => if i + 1 >= ls.len() {
                Err(SrtErrorView::ParseText(missing_ts_text()))
            } else {
                match time_line_spec(ls[i + 1]) {
                    Err(e) => Err(e),
                    Ok((b, e)) => {
                        let j = block_end(ls, i + 2);
                        parse_from(
                            ls,
                            j + 1,
                            acc.push(
                                EntryView {
                                    index,
                                    beg: b,
                                    end: e,
                                    text: join_lines(ls.subrange(i + 2, j)),
                                },
                            ),
                        )
                    },
                }
            },
        }
    }
}

#[via_fn]
proof fn parse_from_decreases(ls: Seq<Seq<char>>, i: int, acc: Seq<EntryView>) {
    if 0 <= i && i + 2 <= ls.len() {
        lemma_block_end_bounds(ls, i + 2);
    }
}

/// What a whole text parses to.
pub open spec fn parse_doc(s: Seq<char>) -> Result<Seq<EntryView>, SrtErrorView> {
    parse_from(lines_of(s), 0, Seq::empty())
}

/// An entry as it is written: index line, range line, text, blank line.
pub open spec fn entry_text(e: EntryView) -> Seq<char> {
    decimal(e.index as nat) + seq!['\n'] + range_text(e.beg, e.end) + seq!['\n'] + e.text + seq![
        '\n',
        '\n',
    ]
}

/// A document as it is written: its entries one after the other.
pub open spec fn doc_text(es: Seq<EntryView>) -> Seq<char>
    decreases es.len(),
{
    if es.len() == 0 {
        Seq::empty()
    } else {
        doc_text(es.drop_last()) + entry_text(es.last())
    }
}

impl SrtFile {
    /// Every range is well formed.
    pub closed spec fn wf(&self) -> bool {
        forall|i: int| 0 <= i < self.entries@.len() ==> (#[trigger] self.entries@[i]).wf()
    }

    pub fn new(entries: Vec<SubtitleEntry>) -> (r: Self)
        requires
            forall|i: int| 0 <= i < entries@.len() ==> (#[trigger] entries@[i]).wf(),
        ensures
            r.wf(),
            r@ == entries@.map_values(|e: SubtitleEntry| e@),
    {
        SrtFile { entries }
    }

    /// The entries, in file order, for reading only.
    pub fn entries(&self) -> (r: &Vec<SubtitleEntry>)
        ensures
            r@.map_values(|e: SubtitleEntry| e@) == self@,
            self.wf() ==> forall|i: int| 0 <= i < r@.len() ==> (#[trigger] r@[i]).wf(),
    {
        &self.entries
    }

    /// Parses a whole SubRip text.
    pub fn read(text: &str) -> (r: Result<Self, SrtError>)
        ensures
            match r {
                Ok(f) => f.wf() && parse_doc(text@) == Ok::<Seq<EntryView>, SrtErrorView>(f@),
                Err(e) => parse_doc(text@) == Err::<Seq<EntryView>, SrtErrorView>(e@),
            },
    {
        let chars = chars_of(text);
        let lines = split_lines(&chars);
        let ghost ls = lines_of(text@);
        let mut entries: Vec<SubtitleEntry> = Vec::new();
        assert(entries@.map_values(|e: SubtitleEntry| e@) =~= Seq::<EntryView>::empty());
        let mut i: usize = 0;
        while i < lines.len()
            invariant
                i <= lines.len(),
                views_of(lines@) == ls,
                parse_doc(text@) == parse_from(ls, i as int, entries@.map_values(|e: SubtitleEntry| e@)),
                forall|k: int| 0 <= k < entries@.len() ==> (#[trigger] entries@[k]).wf(),
            decreases lines.len() - i,
        {
            assert(lines@[i as int]@ == ls[i as int]);
            if is_blank_chars(&lines[i]) {
                i = i + 1;
            } else {
                let t = trim_chars(&lines[i]);
                let index = match parse_u32(&t) {
                    Some(v) => v,
                    None => {
                        return Err(SrtError::ParseTextError(string_of(&lines[i])));
                    },
                };
                if i + 1 >= lines.len() {
                    return Err(SrtError::ParseTextError(string_from("missing timestamp line")));
                }
                assert(lines@[i + 1]@ == ls[i + 1]);
                let timestamp = match SrtTime::from_chars(&lines[i + 1]) {
                    Ok(t) => t,
                    Err(e) => {
                        return Err(e);
                    },
                };
                let mut text = String::new();
                let mut k: usize = i + 2;
                while k < lines.len() && !is_blank_chars(&lines[k])
                    invariant
                        i + 2 <= k <= lines.len(),
                        views_of(lines@) == ls,
                        block_end(ls, i + 2) == block_end(ls, k as int),
                        text@ == join_lines(ls.subrange(i + 2, k as int)),
                    decreases lines.len() - k,
                {
                    assert(lines@[k as int]@ == ls[k as int]);
                    let ghost prev = ls.subrange(i + 2, k as int);
                    assert(ls.subrange(i + 2, k + 1).drop_last() == prev);
                    if k > i + 2 {
                        text.push('\n');
                    }
                    push_chars(&mut text, &lines[k]);
                    k = k + 1;
                }
                proof {
                    if k < lines.len() {
                        assert(lines@[k as int]@ == ls[k as int]);
                    }
                    lemma_block_end_bounds(ls, i + 2);
                }
                let ghost before = entries@;
                let entry = SubtitleEntry { index, timestamp, text };
                entries.push(entry);
                assert(entries@.map_values(|e: SubtitleEntry| e@) =~= before.map_values(
                    |e: SubtitleEntry| e@,
                ).push(entry@));
                let ghost acc = before.map_values(|e: SubtitleEntry| e@);
                assert(block_end(ls, i + 2) == k);
                assert(parse_from(ls, i as int, acc) == parse_from(ls, k + 1, acc.push(entry@)));
                if k < lines.len() {
                    i = k + 1;
                } else {
                    i = k;
                }
            }
        }
        Ok(SrtFile { entries })
    }

    /// The document as SubRip text: for each entry its index line, its
    /// range line, its text and a blank line.
    pub fn write(&self) -> (r: String)
        ensures
            r@ == doc_text(self@),
    {
        let mut r = String::new();
        let mut i: usize = 0;
        while i < self.entries.len()
            invariant
                i <= self.entries@.len(),
                r@ == doc_text(self@.take(i as int)),
            decreases self.entries@.len() - i,
        {
            let e = &self.entries[i];
            push_entry(&mut r, e);
            proof {
                let es = self@.take(i + 1);
                assert(es.drop_last() == self@.take(i as int));
                assert(es.last() == e@);
            }
            i = i + 1;
        }
        assert(self@.take(self.entries@.len() as int) == self@);
        r
    }
}

/// Appends one entry as it is written.
fn push_entry(out: &mut String, e: &SubtitleEntry)
    ensures
        final(out)@ == old(out)@ + entry_text(e@),
{
    let ghost start = out@;
    push_decimal(out, e.index as u64);
    out.push('\n');
    let line = e.timestamp.to_line();
    push_chars_of_string(out, &line);
    out.push('\n');
    push_chars_of_string(out, &e.text);
    out.push('\n');
    out.push('\n');
    assert(out@ =~= start + entry_text(e@));
}

/// Appends the characters of `s` to `out`.
fn push_chars_of_string(out: &mut String, s: &String)
    ensures
        final(out)@ == old(out)@ + s@,
{
    push_str_chars(out, s.as_str());
}


// ---------------------------------------------------------------------------
// Overlaps, repair and shifting
// ---------------------------------------------------------------------------

/// Entry `i` starts before the entry just above it ends.
pub open spec fn overlaps_at(es: Seq<EntryView>, i: int) -> bool {
    1 <= i < es.len() && es[i].beg < es[i - 1].end
}

/// Some entry starts before its predecessor ends.
pub open spec fn has_overlap(es: Seq<EntryView>) -> bool {
    exists|i: int| overlaps_at(es, i)
}

/// The overlap at `i` cannot be settled in `mode` without a range that
/// ends before it begins.
pub open spec fn fails_at(es: Seq<EntryView>, i: int, mode: OverlapFixMode) -> bool {
    overlaps_at(es, i) && match mode {
        OverlapFixMode::Before => es[i - 1].end > es[i].end,
        OverlapFixMode::After => es[i].beg < es[i - 1].beg,
    }
}

/// `k` is the first overlap that cannot be settled.
pub open spec fn first_failure(es: Seq<EntryView>, mode: OverlapFixMode, k: int) -> bool {
    fails_at(es, k, mode) && forall|j: int| 1 <= j < k ==> !#[trigger] fails_at(es, j, mode)
}

/// The text of the error for the overlap at `i`: both ranges.
pub open spec fn overlap_text(es: Seq<EntryView>, i: int, mode: OverlapFixMode) -> Seq<char> {
    (match mode {
        OverlapFixMode::Before => "Fixing current entry would result in non-positive duration: prev("@,
        OverlapFixMode::After => "Fixing previous entry would result in non-positive duration: prev("@,
    }) + range_text(es[i - 1].beg, es[i - 1].end) + ") curr("@ + range_text(es[i].beg, es[i].end)
        + ")"@
}

/// Entry `i` after repair. Every overlap is settled from the values before
/// the repair: in `Before` mode the later entry starts where the earlier
/// one ended, in `After` mode the earlier entry ends where the later one
/// started.
pub open spec fn repaired_entry(es: Seq<EntryView>, i: int, mode: OverlapFixMode) -> EntryView {
    match mode {
        OverlapFixMode::Before => if overlaps_at(es, i) {
            EntryView { index: es[i].index, beg: es[i - 1].end, end: es[i].end, text: es[i].text }
        } else {
            es[i]
        },
        OverlapFixMode::After => if overlaps_at(es, i + 1) {
            EntryView { index: es[i].index, beg: es[i].beg, end: es[i + 1].beg, text: es[i].text }
        } else {
            es[i]
        },
    }
}

pub open spec fn repaired(es: Seq<EntryView>, mode: OverlapFixMode) -> Seq<EntryView> {
    Seq::new(es.len(), |i: int| repaired_entry(es, i, mode))
}

/// What a repair of `es` in `mode` leaves (`after`) and returns (`r`): when
/// some overlap cannot be settled, the entries unchanged and an error that
/// names the first such overlap; otherwise every overlap settled.
pub open spec fn repair_outcome(
    es: Seq<EntryView>,
    mode: OverlapFixMode,
    after: Seq<EntryView>,
    r: Result<(), SrtErrorView>,
) -> bool {
    if exists|k: int| fails_at(es, k, mode) {
        &&& after == es
        &&& exists|k: int|
            first_failure(es, mode, k) && r == Err::<(), SrtErrorView>(
                SrtErrorView::Overlap(#[trigger] overlap_text(es, k, mode)),
            )
    } else {
        after == repaired(es, mode) && r == Ok::<(), SrtErrorView>(())
    }
}

pub open spec fn unit_view(r: Result<(), SrtError>) -> Result<(), SrtErrorView> {
    match r {
        Ok(_) => Ok(()),
        Err(e) => Err(e@),
    }
}

/// An entry moved by `delta` milliseconds; an entry that a negative delta
/// would move below zero stays where it is.
pub open spec fn shifted(e: EntryView, delta: int) -> EntryView {
    if delta < 0 && e.beg < -delta {
        e
    } else {
        EntryView { index: e.index, beg: e.beg + delta, end: e.end + delta, text: e.text }
    }
}

pub open spec fn shifted_all(es: Seq<EntryView>, delta: int) -> Seq<EntryView> {
    Seq::new(es.len(), |i: int| shifted(es[i], delta))
}

/// The moved entry still lies below the 100-hour ceiling.
pub open spec fn shift_valid(e: EntryView, delta: int) -> bool {
    valid_range(shifted(e, delta).beg, shifted(e, delta).end)
}

/// Every moved entry still lies below the 100-hour ceiling.
pub open spec fn all_shift_valid(es: Seq<EntryView>, delta: int) -> bool {
    forall|j: int| 0 <= j < es.len() ==> #[trigger] shift_valid(es[j], delta)
}

/// A shift that stopped at entry `k`, the first whose moved range is not
/// valid: the entries before it moved, those after it untouched, and entry
/// `k` itself moved or, when its end would leave the range of `i64`, left
/// as it was.
pub open spec fn stopped_at(es: Seq<EntryView>, cur: Seq<EntryView>, k: int, delta: int) -> bool {
    &&& 0 <= k < es.len() == cur.len()
    &&& !shift_valid(es[k], delta)
    &&& forall|j: int| 0 <= j < k ==> #[trigger] shift_valid(es[j], delta)
    &&& forall|j: int| 0 <= j < k ==> #[trigger] cur[j] == shifted(es[j], delta)
    &&& forall|j: int| k < j < es.len() ==> #[trigger] cur[j] == es[j]
    &&& (cur[k] == shifted(es[k], delta) || cur[k] == es[k])
}

impl SrtFile {
    /// Whether some entry starts before the entry just above it ends.
    pub fn check_ts_overlap(&self) -> (r: bool)
        ensures
            r == has_overlap(self@),
            self@.len() <= 1 ==> !r,
    {
        let n = self.entries.len();
        let mut i: usize = 1;
        while i < n
            invariant
                n == self.entries@.len() == self@.len(),
                1 <= i,
                forall|j: int| 1 <= j < i ==> !#[trigger] overlaps_at(self@, j),
            decreases n - i,
        {
            assert(self@[i as int] == self.entries@[i as int]@);
            assert(self@[i - 1] == self.entries@[i - 1]@);
            if self.entries[i].timestamp.beg_ts < self.entries[i - 1].timestamp.end_ts {
                assert(overlaps_at(self@, i as int));
                return true;
            }
            i = i + 1;
        }
        false
    }

    /// Settles every overlap between neighbours in `mode`, planning every
    /// change from the ranges as they were before, and changing nothing when
    /// some overlap cannot be settled.
    pub fn fix_ts_overlap(&mut self, mode: OverlapFixMode) -> (r: Result<(), SrtError>)
        requires
            old(self).wf(),
        ensures
            final(self).wf(),
            repair_outcome(old(self)@, mode, final(self)@, unit_view(r)),
    {
        let ghost es = self@;
        if !self.check_ts_overlap() {
            assert(repaired(es, mode) =~= es);
            return Ok(());
        }
        let n = self.entries.len();
        // Check the plan: each overlap, settled from the ranges as they are now,
        // must leave a range that ends no earlier than it begins.
        let mut i: usize = 1;
        while i < n
            invariant
                n == self.entries@.len() == es.len(),
                self@ == es,
                self.wf(),
                1 <= i,
                forall|j: int| 1 <= j < i ==> !#[trigger] fails_at(es, j, mode),
            decreases n - i,
        {
            let prev = &self.entries[i - 1].timestamp;
            let curr = &self.entries[i].timestamp;
            assert(es[i as int] == self.entries@[i as int]@);
            assert(es[i - 1] == self.entries@[i - 1]@);
            if curr.beg_ts < prev.end_ts {
                let bad = match mode {
                    OverlapFixMode::Before => prev.end_ts > curr.end_ts,
                    OverlapFixMode::After => curr.beg_ts < prev.beg_ts,
                };
                if bad {
                    let msg = overlap_message(prev, curr, mode);
                    assert(msg@ == overlap_text(es, i as int, mode));
                    assert(fails_at(es, i as int, mode));
                    assert(first_failure(es, mode, i as int));
                    return Err(SrtError::OverlapError(msg));
                }
            }
            i = i + 1;
        }
        assert forall|k: int| !fails_at(es, k, mode) by {
            if 1 <= k < n {
                assert(!fails_at(es, k, mode));
            }
        }
        // Commit the plan.
        let mut fixed: Vec<SubtitleEntry> = Vec::new();
        let mut j: usize = 0;
        while j < n
            invariant
                n == self.entries@.len() == es.len(),
                self@ == es,
                self.wf(),
                j <= n,
                forall|k: int| !#[trigger] fails_at(es, k, mode),
                fixed@.len() == j,
                forall|k: int| 0 <= k < j ==> (#[trigger] fixed@[k]).wf() && fixed@[k]@
                    == repaired_entry(es, k, mode),
            decreases n - j,
        {
            let e = &self.entries[j];
            assert(es[j as int] == e@);
            assert(e.wf());
            let (b, t) = match mode {
                OverlapFixMode::Before => {
                    if j >= 1 && e.timestamp.beg_ts < self.entries[j - 1].timestamp.end_ts {
                        assert(es[j - 1] == self.entries@[j - 1]@);
                        assert(self.entries@[j - 1].wf());
                        assert(!fails_at(es, j as int, mode));
                        (self.entries[j - 1].timestamp.end_ts, e.timestamp.end_ts)
                    } else {
                        (e.timestamp.beg_ts, e.timestamp.end_ts)
                    }
                },
                OverlapFixMode::After => {
                    if j + 1 < n && self.entries[j + 1].timestamp.beg_ts < e.timestamp.end_ts {
                        assert(es[j + 1] == self.entries@[j + 1]@);
                        assert(!fails_at(es, j + 1, mode));
                        (e.timestamp.beg_ts, self.entries[j + 1].timestamp.beg_ts)
                    } else {
                        (e.timestamp.beg_ts, e.timestamp.end_ts)
                    }
                },
            };
            let entry = SubtitleEntry {
                index: e.index,
                timestamp: SrtTime::new(b, t),
                text: e.text.clone(),
            };
            fixed.push(entry);
            j = j + 1;
        }
        self.entries = fixed;
        assert(self@ =~= repaired(es, mode));
        Ok(())
    }

    /// Moves every entry by `delta` milliseconds and then settles overlaps
    /// in `fix_mode`. An entry that a negative delta would move below zero
    /// is left as it is. When a moved entry reaches the 100-hour ceiling the
    /// call fails, and the entries before it stay moved.
    pub fn adjust_timestamps(&mut self, delta: i64, fix_mode: OverlapFixMode) -> (r: Result<
        (),
        SrtError,
    >)
        requires
            old(self).wf(),
        ensures
            final(self).wf(),
            all_shift_valid(old(self)@, delta as int)
                ==> repair_outcome(
                shifted_all(old(self)@, delta as int),
                fix_mode,
                final(self)@,
                unit_view(r),
            ),
            !all_shift_valid(old(self)@, delta as int)
                ==> (r matches Err(SrtError::InvalidTsError)) && exists|k: int|
                stopped_at(old(self)@, final(self)@, k, delta as int),
    {
        let ghost es = self@;
        let n = self.entries.len();
        let mut j: usize = 0;
        while j < n
            invariant
                n == self.entries@.len() == es.len(),
                es == old(self)@,
                self.wf(),
                j <= n,
                forall|i: int| 0 <= i < j ==> #[trigger] shift_valid(es[i], delta as int),
                forall|i: int| 0 <= i < j ==> #[trigger] self@[i] == shifted(es[i], delta as int),
                forall|i: int| j <= i < n ==> #[trigger] self@[i] == es[i],
            decreases n - j,
        {
            let ghost view_before = self@;
            let ghost before = self.entries@;
            assert(self@[j as int] == before[j as int]@);
            let ok = shift_entry(&mut self.entries[j], delta);
            assert(self.entries@ == before.update(j as int, self.entries@[j as int]));
            assert(self@ =~= view_before.update(j as int, self.entries@[j as int]@));
            if !ok {
                proof {
                    assert forall|i: int| 0 <= i < j implies #[trigger] self@[i] == shifted(
                        es[i],
                        delta as int,
                    ) by {
                        assert(self@[i] == view_before[i]);
                    }
                    assert forall|i: int| j < i < n implies #[trigger] self@[i] == es[i] by {
                        assert(self@[i] == view_before[i]);
                    }
                    assert(stopped_at(es, self@, j as int, delta as int));
                }
                return Err(SrtError::InvalidTsError);
            }
            j = j + 1;
        }
        assert(self@ =~= shifted_all(es, delta as int));
        self.fix_ts_overlap(fix_mode)
    }
}

/// Moves one entry by `delta` as `shifted` says, unless its end would leave
/// the range of `i64`; tells whether the moved entry is valid.
fn shift_entry(e: &mut SubtitleEntry, delta: i64) -> (ok: bool)
    requires
        old(e).wf(),
    ensures
        final(e).wf(),
        ok == shift_valid(old(e)@, delta as int),
        ok ==> final(e)@ == shifted(old(e)@, delta as int),
        final(e)@ == shifted(old(e)@, delta as int) || final(e)@ == old(e)@,
{
    let b = e.timestamp.beg_ts;
    let t = e.timestamp.end_ts;
    if delta < 0 {
        if b + delta >= 0 {
            e.timestamp = SrtTime::new(b + delta, t + delta);
        }
    } else if t <= i64::MAX - delta {
        e.timestamp = SrtTime::new(b + delta, t + delta);
    } else {
        return false;
    }
    e.timestamp.is_valid()
}

/// The text of the error for an overlap that cannot be settled.
fn overlap_message(prev: &SrtTime, curr: &SrtTime, mode: OverlapFixMode) -> (r: String)
    ensures
        forall|es: Seq<EntryView>, i: int|
            1 <= i < es.len() && es[i - 1].beg == prev.beg() && es[i - 1].end == prev.end()
                && es[i].beg == curr.beg() && es[i].end == curr.end() ==> r@ == #[trigger] overlap_text(
                es,
                i,
                mode,
            ),
{
    let mut r = match mode {
        OverlapFixMode::Before => string_from(
            "Fixing current entry would result in non-positive duration: prev(",
        ),
        OverlapFixMode::After => string_from(
            "Fixing previous entry would result in non-positive duration: prev(",
        ),
    };
    let p = prev.to_line();
    push_chars_of_string(&mut r, &p);
    push_str_chars(&mut r, ") curr(");
    let c = curr.to_line();
    push_chars_of_string(&mut r, &c);
    push_str_chars(&mut r, ")");
    r
}


// ---------------------------------------------------------------------------
// Laws
// ---------------------------------------------------------------------------

/// A timestamp below the ceiling renders as twelve characters
/// `DD:DD:DD,DDD` that decode back to it.
proof fn lemma_stamp_round_trip(l: Seq<char>, o: int, d: int)
    requires
        0 <= d < MAX_TS_MS,
        0 <= o,
        o + 12 <= l.len(),
        l.subrange(o, o + 12) == timestamp_text(d),
    ensures
        stamp_shape(l, o),
        stamp_at(l, o) == Ok::<int, SrtErrorView>(d),
{
    let a = d as nat;
    let ms = a % 1000;
    let secs = a / 1000;
    let s = secs % 60;
    let mins = secs / 60;
    let m = mins % 60;
    let h = mins / 60;
    assert(h < 100);
    lemma_two_places(h);
    lemma_two_places(m);
    lemma_two_places(s);
    lemma_three_places(ms);
    let c = timestamp_text(d);
    assert(c =~= seq![
        digit_char((h / 10) as int), digit_char((h % 10) as int), ':',
        digit_char((m / 10) as int), digit_char((m % 10) as int), ':',
        digit_char((s / 10) as int), digit_char((s % 10) as int), ',',
        digit_char((ms / 100) as int), digit_char(((ms / 10) % 10) as int),
        digit_char((ms % 10) as int),
    ]);
    assert forall|k: int| 0 <= k < 12 implies l[o + k] == #[trigger] c[k] by {
        assert(l.subrange(o, o + 12)[k] == l[o + k]);
    }
    lemma_digit_char((h / 10) as int);
    lemma_digit_char((h % 10) as int);
    lemma_digit_char((m / 10) as int);
    lemma_digit_char((m % 10) as int);
    lemma_digit_char((s / 10) as int);
    lemma_digit_char((s % 10) as int);
    lemma_digit_char((ms / 100) as int);
    lemma_digit_char(((ms / 10) % 10) as int);
    lemma_digit_char((ms % 10) as int);
    assert(l[o] == c[0] && l[o + 1] == c[1] && l[o + 2] == c[2] && l[o + 3] == c[3]);
    assert(l[o + 4] == c[4] && l[o + 5] == c[5] && l[o + 6] == c[6] && l[o + 7] == c[7]);
    assert(l[o + 8] == c[8] && l[o + 9] == c[9] && l[o + 10] == c[10] && l[o + 11] == c[11]);
    assert(two_digits(l, o) == h);
    assert(two_digits(l, o + 3) == m);
    assert(two_digits(l, o + 6) == s);
    assert(three_digits(l, o + 9) == ms);
    assert(a == secs * 1000 + ms);
    assert(secs == mins * 60 + s);
    assert(mins == h * 60 + m);
    assert(d == h * 3_600_000 + m * 60_000 + s * 1000 + ms);
}

/// A timestamp below the ceiling takes twelve characters.
proof fn lemma_timestamp_len(d: int)
    requires
        0 <= d < MAX_TS_MS,
    ensures
        timestamp_text(d).len() == 12,
{
    let a = d as nat;
    lemma_two_places(a / 1000 / 60 / 60);
    lemma_two_places((a / 1000 / 60) % 60);
    lemma_two_places((a / 1000) % 60);
    lemma_three_places(a % 1000);
}

/// Rendering a valid range as its line and parsing that line gives the
/// range back: for all `0 <= beg <= end < 100h`,
/// `from_line(range_text(beg, end))` decodes to `(beg, end)`.
pub proof fn lemma_range_line_round_trip(beg: int, end: int)
    requires
        0 <= beg <= end < MAX_TS_MS,
    ensures
        time_line_spec(range_text(beg, end)) == Ok::<(int, int), SrtErrorView>((beg, end)),
{
    let l = range_text(beg, end);
    let tb = timestamp_text(beg);
    let te = timestamp_text(end);
    lemma_timestamp_len(beg);
    lemma_timestamp_len(end);
    assert(l.subrange(0, 12) =~= tb);
    assert(l.subrange(12, 17) =~= arrow());
    assert(l.subrange(17, 29) =~= te);
    lemma_stamp_round_trip(l, 0, beg);
    lemma_stamp_round_trip(l, 17, end);
}

} // verus!
