//! The fields of an FGD DEM dataset that the converter reads: the grid limits, the
//! envelope corners and the value column of the tuple list, and the scanner that
//! picks the grid metadata out of a stream of XML events.
use vstd::prelude::*;

use crate::text::{
    decimal_usize, digits_value, int_error_message, is_digit, lemma_numeral_value, parse_usize, string_rows, tuple_list_fields,
    tuple_list_values, usize_from_str, words, words_of, IntErrorKind,
};

verus! {

/// The number of grid cells along one axis of an envelope whose first and last
/// cell indices are `low` and `high`.
pub open spec fn axis_cells(low: usize, high: usize) -> int {
    high - low + 1
}

/// Whether the grid envelope `low`..=`high` has a shape that `usize` can hold.
pub open spec fn valid_limits(low: (usize, usize), high: (usize, usize)) -> bool {
    &&& low.0 <= high.0
    &&& low.1 <= high.1
    &&& axis_cells(low.0, high.0) <= usize::MAX
    &&& axis_cells(low.1, high.1) <= usize::MAX
}

/// Whether the grid envelope `low`..=`high` has a shape that `usize` can hold.
pub fn limits_valid(low: (usize, usize), high: (usize, usize)) -> (b: bool)
    ensures
        b == valid_limits(low, high),
{
    low.0 <= high.0 && low.1 <= high.1 && high.0 - low.0 < usize::MAX && high.1 - low.1 < usize::MAX
}

/// The shape (columns, rows) of the grid envelope `low`..=`high`: both ends are
/// inclusive.
pub fn grid_shape(low: (usize, usize), high: (usize, usize)) -> (shape: (usize, usize))
    requires
        valid_limits(low, high),
    ensures
        shape.0 == axis_cells(low.0, high.0),
        shape.1 == axis_cells(low.1, high.1),
{
    (high.0 - low.0 + 1, high.1 - low.1 + 1)
}

/// The two unsigned integers that start the whitespace-separated text `s`; none
/// when it has fewer than two words or one of them is no unsigned integer.
pub open spec fn grid_pair_of(s: Seq<char>) -> Option<(usize, usize)> {
    let w = words(s);
    if w.len() >= 2 && decimal_usize(w[0]) is Some && decimal_usize(w[1]) is Some {
        Some((decimal_usize(w[0])->0, decimal_usize(w[1])->0))
    } else {
        None
    }
}

/// The grid index pair written in `text` (such as `0 0` or `224 149`).
pub fn parse_grid_pair(text: &str) -> (res: Option<(usize, usize)>)
    ensures
        res == grid_pair_of(text@),
{
    let w = words_of(text);
    if w.len() < 2 {
        return None;
    }
    assert(w@[0]@ == words(text@)[0]);
    assert(w@[1]@ == words(text@)[1]);
    let x = parse_usize(w[0].as_str());
    let y = parse_usize(w[1].as_str());
    match (x, y) {
        (Ok(x), Ok(y)) => Some((x, y)),
        _ => None,
    }
}

/// The first two words of the coordinate text `text` (such as
/// `35.0 138.75`), for reading as numbers; none when it has fewer than two.
pub fn coordinate_words(text: &str) -> (res: Option<(String, String)>)
    ensures
        match res {
            Some((x, y)) => words(text@).len() >= 2 && x@ == words(text@)[0] && y@
                == words(text@)[1],
            None => words(text@).len() < 2,
        },
{
    let w = words_of(text);
    if w.len() < 2 {
        return None;
    }
    assert(w@[0]@ == words(text@)[0]);
    assert(w@[1]@ == words(text@)[1]);
    let mut w = w;
    w.truncate(2);
    let y = w.pop().unwrap();
    let x = w.pop().unwrap();
    Some((x, y))
}

/// Which element's text the metadata scanner will read next.
#[derive(Clone, Copy, Debug, PartialEq, Eq, Structural)]
pub enum Capture {
    Idle,
    LowerCorner,
    UpperCorner,
    Low,
    High,
}

/// One of the two corners of a dataset's envelope.
#[derive(Clone, Copy, Debug, PartialEq, Eq, Structural)]
pub enum Corner {
    Lower,
    Upper,
}

/// What the scanner makes of a text event.
#[derive(Debug)]
pub enum TextOutcome {
    /// The text was not one the scanner waits for, or it held fewer than two words.
    Ignored,
    /// The grid limit in the text was recorded.
    Limit,
    /// The text holds the two coordinates of a corner, to be read as numbers by
    /// the caller.
    Corner(Corner, String, String),
}

/// Why the grid metadata of a dataset could not be read.
#[derive(Clone, Copy, Debug, PartialEq, Eq, Structural)]
pub enum MetadataError {
    /// The text of a grid limit holds a word that is no unsigned integer.
    InvalidInteger(IntErrorKind),
    MissingLowerCorner,
    MissingUpperCorner,
    MissingLow,
    MissingHigh,
}

impl MetadataError {
    /// The message that describes the error.
    pub fn message(&self) -> (m: String)
        ensures
            m@ == error_message(*self)@,
    {
        match self {
            MetadataError::InvalidInteger(e) => e.message(),
            MetadataError::MissingLowerCorner => "missing lowerCorner".to_owned(),
            MetadataError::MissingUpperCorner => "missing upperCorner".to_owned(),
            MetadataError::MissingLow => "missing GridEnvelope/low".to_owned(),
            MetadataError::MissingHigh => "missing GridEnvelope/high".to_owned(),
        }
    }
}

/// The message of each metadata error.
pub open spec fn error_message(e: MetadataError) -> &'static str {
    match e {
        MetadataError::InvalidInteger(k) => int_error_message(k),
        MetadataError::MissingLowerCorner => "missing lowerCorner",
        MetadataError::MissingUpperCorner => "missing upperCorner",
        MetadataError::MissingLow => "missing GridEnvelope/low",
        MetadataError::MissingHigh => "missing GridEnvelope/high",
    }
}

/// The local names of the four elements the scanner reads, as ASCII bytes:
/// `lowerCorner`, `upperCorner`, `low` and `high`.
pub open spec fn lower_corner_name() -> Seq<u8> {
    seq![108u8, 111, 119, 101, 114, 67, 111, 114, 110, 101, 114]
}

pub open spec fn upper_corner_name() -> Seq<u8> {
    seq![117u8, 112, 112, 101, 114, 67, 111, 114, 110, 101, 114]
}

pub open spec fn low_name() -> Seq<u8> {
    seq![108u8, 111, 119]
}

pub open spec fn high_name() -> Seq<u8> {
    seq![104u8, 105, 103, 104]
}

/// The capture that an element with local name `name` starts.
pub open spec fn capture_for(name: Seq<u8>) -> Capture {
    if name == lower_corner_name() {
        Capture::LowerCorner
    } else if name == upper_corner_name() {
        Capture::UpperCorner
    } else if name == low_name() {
        Capture::Low
    } else if name == high_name() {
        Capture::High
    } else {
        Capture::Idle
    }
}

fn bytes_equal(a: &[u8], b: &Vec<u8>) -> (res: bool)
    ensures
        res == (a@ == b@),
{
    if a.len() != b.len() {
        return false;
    }
    for i in 0..a.len()
        invariant
            a@.len() == b@.len(),
            forall|j: int| 0 <= j < i ==> a@[j] == b@[j],
    {
        if a[i] != b[i] {
            return false;
        }
    }
    assert(a@ =~= b@);
    true
}

/// The state of a scan for the grid metadata of a dataset: which element's text
/// comes next, and what was found so far.
#[derive(Debug)]
pub struct MetadataScanner {
    pub capture: Capture,
    pub lower_seen: bool,
    pub upper_seen: bool,
    pub low: Option<(usize, usize)>,
    pub high: Option<(usize, usize)>,
}

/// The two integers that start the text `text` of a grid limit, read left to
/// right: the error is that of the first word that is no unsigned integer.
pub open spec fn limit_pair(text: Seq<char>) -> Result<(usize, usize), IntErrorKind> {
    let w = words(text);
    match usize_from_str(w[0]) {
        Err(e) => Err(e),
        Ok(x) => match usize_from_str(w[1]) {
            Err(e) => Err(e),
            Ok(y) => Ok((x, y)),
        },
    }
}

fn read_limit_pair(x: &str, y: &str) -> (res: Result<(usize, usize), IntErrorKind>)
    ensures
        res == (match usize_from_str(x@) {
            Err(e) => Err(e),
            Ok(a) => match usize_from_str(y@) {
                Err(e) => Err(e),
                Ok(b) => Ok((a, b)),
            },
        }),
{
    let a = parse_usize(x)?;
    let b = parse_usize(y)?;
    Ok((a, b))
}

/// The scanner after the text `text`, or the error it stops with.
pub open spec fn after_text(s: MetadataScanner, text: Seq<char>) -> Result<
    MetadataScanner,
    MetadataError,
> {
    let w = words(text);
    let idle = MetadataScanner { capture: Capture::Idle, ..s };
    if w.len() < 2 {
        Ok(idle)
    } else {
        match s.capture {
            Capture::Idle => Ok(idle),
            Capture::LowerCorner => Ok(MetadataScanner { lower_seen: true, ..idle }),
            Capture::UpperCorner => Ok(MetadataScanner { upper_seen: true, ..idle }),
            Capture::Low => match limit_pair(text) {
                Ok(p) => Ok(MetadataScanner { low: Some(p), ..idle }),
                Err(e) => Err(MetadataError::InvalidInteger(e)),
            },
            Capture::High => match limit_pair(text) {
                Ok(p) => Ok(MetadataScanner { high: Some(p), ..idle }),
                Err(e) => Err(MetadataError::InvalidInteger(e)),
            },
        }
    }
}

/// Whether all four fields have been found.
pub open spec fn scan_complete(s: MetadataScanner) -> bool {
    s.lower_seen && s.upper_seen && s.low is Some && s.high is Some
}

/// The grid limits (low, high) of a finished scan, or the first field that is
/// missing, in the order lower corner, upper corner, low, high.
pub open spec fn scan_result(s: MetadataScanner) -> Result<
    ((usize, usize), (usize, usize)),
    MetadataError,
> {
    if !s.lower_seen {
        Err(MetadataError::MissingLowerCorner)
    } else if !s.upper_seen {
        Err(MetadataError::MissingUpperCorner)
    } else if s.low is None {
        Err(MetadataError::MissingLow)
    } else if s.high is None {
        Err(MetadataError::MissingHigh)
    } else {
        Ok((s.low->0, s.high->0))
    }
}

impl MetadataScanner {
    /// A scanner that has seen nothing yet.
    pub fn new() -> (s: Self)
        ensures
            s.capture == Capture::Idle,
            !s.lower_seen,
            !s.upper_seen,
            s.low is None,
            s.high is None,
    {
        MetadataScanner {
            capture: Capture::Idle,
            lower_seen: false,
            upper_seen: false,
            low: None,
            high: None,
        }
    }

    /// An element with local name `name` starts: its text is captured when it is
    /// one of the four the scanner reads, and nothing is otherwise.
    pub fn on_start(&mut self, name: &[u8])
        ensures
            *final(self) == (MetadataScanner { capture: capture_for(name@), ..*old(self) }),
    {
        let c = if bytes_equal(name, &vec![108u8, 111, 119, 101, 114, 67, 111, 114, 110, 101, 114]) {
            Capture::LowerCorner
        } else if bytes_equal(name, &vec![117u8, 112, 112, 101, 114, 67, 111, 114, 110, 101, 114]) {
            Capture::UpperCorner
        } else if bytes_equal(name, &vec![108u8, 111, 119]) {
            Capture::Low
        } else if bytes_equal(name, &vec![104u8, 105, 103, 104]) {
            Capture::High
        } else {
            Capture::Idle
        };
        self.capture = c;
    }

    /// A text event: a corner's two words are handed back for the caller to read,
    /// a grid limit is read and recorded, and the capture ends.
    pub fn on_text(&mut self, text: &str) -> (res: Result<TextOutcome, MetadataError>)
        ensures
            match after_text(*old(self), text@) {
                Ok(next) => *final(self) == next && res is Ok,
                Err(e) => res == Err::<TextOutcome, MetadataError>(e) && *final(self) == (
                MetadataScanner { capture: Capture::Idle, ..*old(self) }),
            },
            res matches Ok(TextOutcome::Corner(corner, x, y)) ==> {
                &&& words(text@).len() >= 2
                &&& x@ == words(text@)[0]
                &&& y@ == words(text@)[1]
                &&& corner == (if old(self).capture == Capture::LowerCorner {
                    Corner::Lower
                } else {
                    Corner::Upper
                })
            },
            res matches Ok(TextOutcome::Corner(_, _, _)) <==> (words(text@).len() >= 2 && (
            old(self).capture == Capture::LowerCorner || old(self).capture
                == Capture::UpperCorner)),
            res matches Ok(TextOutcome::Limit) <==> (words(text@).len() >= 2 && (old(self).capture
                == Capture::Low || old(self).capture == Capture::High) && limit_pair(text@) is Ok),
    {
        let capture = self.capture;
        self.capture = Capture::Idle;
        let w = coordinate_words(text);
        match w {
            None => Ok(TextOutcome::Ignored),
            Some((x, y)) => match capture {
                Capture::Idle => Ok(TextOutcome::Ignored),
                Capture::LowerCorner => {
                    self.lower_seen = true;
                    Ok(TextOutcome::Corner(Corner::Lower, x, y))
                },
                Capture::UpperCorner => {
                    self.upper_seen = true;
                    Ok(TextOutcome::Corner(Corner::Upper, x, y))
                },
                Capture::Low => match read_limit_pair(x.as_str(), y.as_str()) {
                    Ok(p) => {
                        self.low = Some(p);
                        Ok(TextOutcome::Limit)
                    },
                    Err(e) => Err(MetadataError::InvalidInteger(e)),
                },
                Capture::High => match read_limit_pair(x.as_str(), y.as_str()) {
                    Ok(p) => {
                        self.high = Some(p);
                        Ok(TextOutcome::Limit)
                    },
                    Err(e) => Err(MetadataError::InvalidInteger(e)),
                },
            },
        }
    }

    /// Whether all four fields have been found, so that the scan can stop.
    pub fn is_complete(&self) -> (b: bool)
        ensures
            b == scan_complete(*self),
    {
        self.lower_seen && self.upper_seen && self.low.is_some() && self.high.is_some()
    }

    /// The grid limits found, or the first missing field.
    pub fn finish(&self) -> (res: Result<((usize, usize), (usize, usize)), MetadataError>)
        ensures
            res == scan_result(*self),
    {
        if !self.lower_seen {
            return Err(MetadataError::MissingLowerCorner);
        }
        if !self.upper_seen {
            return Err(MetadataError::MissingUpperCorner);
        }
        match (self.low, self.high) {
            (None, _) => Err(MetadataError::MissingLow),
            (Some(_), None) => Err(MetadataError::MissingHigh),
            (Some(low), Some(high)) => Ok((low, high)),
        }
    }
}

/// An event of the XML reader, as the metadata scan sees it.
pub enum ScanEvent {
    /// An element starts; its local name.
    Start(Seq<u8>),
    /// Text content.
    Text(Seq<char>),
    /// The input ends.
    End,
    /// The reader fails (malformed XML, or text that cannot be decoded).
    Broken,
    /// Anything else (end tags, comments, declarations, ...).
    Other,
}

/// The scanner after an event that does not end the scan.
pub open spec fn after_event(s: MetadataScanner, e: ScanEvent) -> Result<
    MetadataScanner,
    MetadataError,
> {
    match e {
        ScanEvent::Start(name) => Ok(MetadataScanner { capture: capture_for(name), ..s }),
        ScanEvent::Text(t) => after_text(s, t),
        _ => Ok(s),
    }
}

/// A scan over the events `evs`, as the converter drives it: events are read one
/// by one until the input ends, the reader or the scanner fails (`Err(None)` for
/// the reader, `Err(Some(e))` for the scanner), or all four fields have been
/// found, at which point reading stops.
pub open spec fn run_scan(s: MetadataScanner, evs: Seq<ScanEvent>) -> Result<
    MetadataScanner,
    Option<MetadataError>,
>
    decreases evs.len(),
{
    if evs.len() == 0 {
        Ok(s)
    } else {
        match evs[0] {
            ScanEvent::End => Ok(s),
            ScanEvent::Broken => Err(None),
            e => match after_event(s, e) {
                Err(err) => Err(Some(err)),
                Ok(next) => if scan_complete(next) {
                    Ok(next)
                } else {
                    run_scan(next, evs.drop_first())
                },
            },
        }
    }
}

/// What follows the point where the scan has found all four fields does not
/// matter: whatever comes after (malformed XML included), the scan ends as it
/// would without it.
pub proof fn lemma_content_after_fields_ignored(
    s: MetadataScanner,
    p: Seq<ScanEvent>,
    t: Seq<ScanEvent>,
)
    requires
        !scan_complete(s),
        run_scan(s, p) matches Ok(c) && scan_complete(c),
    ensures
        run_scan(s, p + t) == run_scan(s, p),
    decreases p.len(),
{
    assert(p.len() > 0);
    assert((p + t)[0] == p[0]);
    assert((p + t).drop_first() == p.drop_first() + t);
    match p[0] {
        ScanEvent::End => {},
        ScanEvent::Broken => {},
        e => match after_event(s, e) {
            Err(_) => {},
            Ok(next) => if !scan_complete(next) {
                lemma_content_after_fields_ignored(next, p.drop_first(), t);
            },
        },
    }
}

/// A scan that has found all four fields ends with the grid limits it found: the
/// early stop of the reader loses nothing.
pub proof fn lemma_complete_scan_succeeds(s: MetadataScanner)
    requires
        scan_complete(s),
    ensures
        scan_result(s) == Ok::<((usize, usize), (usize, usize)), MetadataError>((s.low->0, s.high->0)),
{
}

/// The metadata scan reads an element's text as the full parse of the dataset
/// does, whenever the full parse reads it: the grid limits it records are the
/// ones the full parse reads, and a corner counts as found exactly when its text
/// holds the two words that the full parse reads as its coordinates (`on_text`
/// hands back those words, the ones `coordinate_words` gives).
pub proof fn lemma_scan_agrees_with_full_parse(s: MetadataScanner, text: Seq<char>)
    requires
        words(text).len() >= 2,
    ensures
        s.capture == Capture::LowerCorner ==> after_text(s, text) == Ok::<
            MetadataScanner,
            MetadataError,
        >(MetadataScanner { capture: Capture::Idle, lower_seen: true, ..s }),
        s.capture == Capture::UpperCorner ==> after_text(s, text) == Ok::<
            MetadataScanner,
            MetadataError,
        >(MetadataScanner { capture: Capture::Idle, upper_seen: true, ..s }),
        s.capture == Capture::Low && grid_pair_of(text) is Some ==> after_text(s, text) == Ok::<
            MetadataScanner,
            MetadataError,
        >(MetadataScanner { capture: Capture::Idle, low: grid_pair_of(text), ..s }),
        s.capture == Capture::High && grid_pair_of(text) is Some ==> after_text(s, text) == Ok::<
            MetadataScanner,
            MetadataError,
        >(MetadataScanner { capture: Capture::Idle, high: grid_pair_of(text), ..s }),
{
    let w = words(text);
    if grid_pair_of(text) is Some {
        assert(usize_from_str(w[0]) is Ok && usize_from_str(w[1]) is Ok);
    }
}

/// Grid limits are accepted exactly when, on each axis separately, `low` is at
/// most `high` and the axis's cell count fits in a `usize`; how the two axes
/// compare plays no part, so swapping the axes keeps the verdict.
pub proof fn lemma_limits_accepted(low: (usize, usize), high: (usize, usize))
    ensures
        valid_limits(low, high) <==> (low.0 <= high.0 && low.1 <= high.1 && high.0 - low.0
            < usize::MAX && high.1 - low.1 < usize::MAX),
        valid_limits(low, high) <==> valid_limits((low.1, low.0), (high.1, high.0)),
        valid_limits(low, high) ==> axis_cells(low.0, high.0) == high.0 - low.0 + 1
            && axis_cells(low.1, high.1) == high.1 - low.1 + 1,
{
}

/// A grid limit text whose first two words are numerals of ASCII digits reads as
/// their values, however large, when both fit in a `usize`, and as nothing
/// otherwise.
pub proof fn lemma_grid_pair_reads_numerals(text: Seq<char>)
    requires
        words(text).len() >= 2,
        words(text)[0].len() > 0,
        words(text)[1].len() > 0,
        forall|i: int| 0 <= i < words(text)[0].len() ==> is_digit(#[trigger] words(text)[0][i]),
        forall|i: int| 0 <= i < words(text)[1].len() ==> is_digit(#[trigger] words(text)[1][i]),
    ensures
        digits_value(words(text)[0]) <= usize::MAX && digits_value(words(text)[1]) <= usize::MAX
            ==> grid_pair_of(text) == Some(
            (digits_value(words(text)[0]) as usize, digits_value(words(text)[1]) as usize),
        ),
        digits_value(words(text)[0]) > usize::MAX || digits_value(words(text)[1]) > usize::MAX
            ==> grid_pair_of(text) is None,
{
    lemma_numeral_value(words(text)[0]);
    lemma_numeral_value(words(text)[1]);
}

/// Only the four elements `lowerCorner`, `upperCorner`, `low` and `high` start a
/// capture, each its own; every other element name leaves the scanner idle.
pub proof fn lemma_capture_names(name: Seq<u8>)
    ensures
        name == seq![108u8, 111, 119, 101, 114, 67, 111, 114, 110, 101, 114] ==> capture_for(name)
            == Capture::LowerCorner,
        name == seq![117u8, 112, 112, 101, 114, 67, 111, 114, 110, 101, 114] ==> capture_for(name)
            == Capture::UpperCorner,
        name == seq![108u8, 111, 119] ==> capture_for(name) == Capture::Low,
        name == seq![104u8, 105, 103, 104] ==> capture_for(name) == Capture::High,
        name != seq![108u8, 111, 119, 101, 114, 67, 111, 114, 110, 101, 114] && name != seq![
            117u8,
            112,
            112,
            101,
            114,
            67,
            111,
            114,
            110,
            101,
            114,
        ] && name != seq![108u8, 111, 119] && name != seq![104u8, 105, 103, 104] ==> capture_for(
            name,
        ) == Capture::Idle,
{
    assert(lower_corner_name().len() == 11);
    assert(upper_corner_name().len() == 11);
    assert(low_name().len() == 3);
    assert(high_name().len() == 4);
    assert(lower_corner_name()[0] != upper_corner_name()[0]);
}

} // verus!
