//! Scanning of the text content of GML elements: whitespace-separated pairs,
//! line and comma splitting of tuple lists, and unsigned decimal integers.
use vstd::prelude::*;

verus! {

broadcast use vstd::string::group_string_axioms;

/// The Unicode `White_Space` property: the characters that `char::is_whitespace`
/// accepts.
pub open spec fn is_unicode_whitespace(c: char) -> bool {
    let u = c as u32;
    ||| 0x9 <= u <= 0xD
    ||| u == 0x20
    ||| u == 0x85
    ||| u == 0xA0
    ||| u == 0x1680
    ||| 0x2000 <= u <= 0x200A
    ||| u == 0x2028
    ||| u == 0x2029
    ||| u == 0x202F
    ||| u == 0x205F
    ||| u == 0x3000
}

/// Whether `c` has the Unicode `White_Space` property.
pub fn is_whitespace(c: char) -> (b: bool)
    ensures
        b == is_unicode_whitespace(c),
{
    let u = c as u32;
    (0x9 <= u && u <= 0xD) || u == 0x20 || u == 0x85 || u == 0xA0 || u == 0x1680 || (0x2000 <= u
        && u <= 0x200A) || u == 0x2028 || u == 0x2029 || u == 0x202F || u == 0x205F || u == 0x3000
}

/// The characters of `s`, one by one.
pub fn chars_of(s: &str) -> (v: Vec<char>)
    ensures
        v@ == s@,
{
    let mut v: Vec<char> = Vec::new();
    for c in it: s.chars()
        invariant
            it.seq() == s@,
            v@ == s@.take(it.index() as int),
    {
        v.push(c);
    }
    v
}

#[verifier::external_body]
fn push_char(s: &mut String, c: char)
    ensures
        final(s)@ == old(s)@.push(c),
{
    s.push(c);
}

/// A `String` holding the characters of `v`.
pub fn string_from_chars(v: &Vec<char>) -> (s: String)
    ensures
        s@ == v@,
{
    let mut s = String::new();
    for i in 0..v.len()
        invariant
            s@ == v@.take(i as int),
    {
        push_char(&mut s, v[i]);
        assert(v@.take(i + 1) == v@.take(i as int).push(v@[i as int]));
    }
    assert(v@.take(v.len() as int) == v@);
    s
}

/// The abstract contents of a vector of character vectors.
pub open spec fn char_rows(v: Seq<Vec<char>>) -> Seq<Seq<char>> {
    v.map_values(|r: Vec<char>| r@)
}

/// The abstract contents of a vector of strings.
pub open spec fn string_rows(v: Seq<String>) -> Seq<Seq<char>> {
    v.map_values(|r: String| r@)
}

/// The maximal runs of non-whitespace characters of `s`, in order: what
/// `str::split_whitespace` yields.
pub open spec fn words(s: Seq<char>) -> Seq<Seq<char>>
    decreases s.len(),
{
    if s.len() == 0 {
        seq![]
    } else {
        let p = s.drop_last();
        let c = s.last();
        if is_unicode_whitespace(c) {
            words(p)
        } else if p.len() > 0 && !is_unicode_whitespace(p.last()) {
            let w = words(p);
            w.update(w.len() - 1, w.last().push(c))
        } else {
            words(p).push(seq![c])
        }
    }
}

/// The whitespace-separated words of `v`.
pub fn words_of_chars(v: &Vec<char>) -> (res: Vec<Vec<char>>)
    ensures
        char_rows(res@) == words(v@),
{
    let mut done: Vec<Vec<char>> = Vec::new();
    let mut cur: Vec<char> = Vec::new();
    let mut in_word = false;
    for i in 0..v.len()
        invariant
            in_word == (i > 0 && !is_unicode_whitespace(v@[i - 1])),
            in_word ==> words(v@.take(i as int)) == char_rows(done@).push(cur@),
            !in_word ==> words(v@.take(i as int)) == char_rows(done@),
            !in_word ==> cur@.len() == 0,
    {
        let c = v[i];
        let ghost t = v@.take(i + 1);
        let ghost old_done = done@;
        let ghost old_cur = cur@;
        assert(t.drop_last() == v@.take(i as int));
        assert(t.last() == c);
        if is_whitespace(c) {
            if in_word {
                done.push(cur);
                cur = Vec::new();
                assert(char_rows(done@) == char_rows(old_done).push(old_cur));
            }
            in_word = false;
        } else {
            cur.push(c);
            if in_word {
                let ghost w = words(v@.take(i as int));
                assert(char_rows(done@).push(cur@) == w.update(w.len() - 1, w.last().push(c)));
            } else {
                assert(cur@ == seq![c]);
            }
            in_word = true;
        }
    }
    let ghost old_done = done@;
    if in_word {
        done.push(cur);
        assert(char_rows(done@) == char_rows(old_done).push(cur@));
    }
    assert(v@.take(v.len() as int) == v@);
    done
}

/// The pieces of `s` between occurrences of `sep`, as `str::split` yields them:
/// always at least one piece, empty pieces included.
pub open spec fn split_on(s: Seq<char>, sep: char) -> Seq<Seq<char>>
    decreases s.len(),
{
    if s.len() == 0 {
        seq![seq![]]
    } else {
        let p = split_on(s.drop_last(), sep);
        if s.last() == sep {
            p.push(seq![])
        } else {
            p.update(p.len() - 1, p.last().push(s.last()))
        }
    }
}

/// `split_on` never yields an empty list of pieces.
pub proof fn lemma_split_on_nonempty(s: Seq<char>, sep: char)
    ensures
        split_on(s, sep).len() >= 1,
    decreases s.len(),
{
    if s.len() > 0 {
        lemma_split_on_nonempty(s.drop_last(), sep);
    }
}

/// The pieces of `v` between occurrences of `sep`.
pub fn split_chars(v: &Vec<char>, sep: char) -> (res: Vec<Vec<char>>)
    ensures
        char_rows(res@) == split_on(v@, sep),
{
    let mut done: Vec<Vec<char>> = Vec::new();
    let mut cur: Vec<char> = Vec::new();
    for i in 0..v.len()
        invariant
            split_on(v@.take(i as int), sep) == char_rows(done@).push(cur@),
    {
        let c = v[i];
        let ghost t = v@.take(i + 1);
        let ghost old_done = done@;
        let ghost old_cur = cur@;
        assert(t.drop_last() == v@.take(i as int));
        assert(t.last() == c);
        if c == sep {
            done.push(cur);
            cur = Vec::new();
            assert(char_rows(done@) == char_rows(old_done).push(old_cur));
        } else {
            cur.push(c);
        }
    }
    done.push(cur);
    assert(v@.take(v.len() as int) == v@);
    done
}

/// A line without the carriage return that ends it, if any.
pub open spec fn strip_cr(l: Seq<char>) -> Seq<char> {
    if l.len() > 0 && l.last() == '\r' {
        l.drop_last()
    } else {
        l
    }
}

/// The lines of `s`, as `str::lines` yields them: split at each line feed, each
/// line ended by a line feed loses one carriage return before it, and a final
/// line feed does not start an empty last line.
pub open spec fn lines(s: Seq<char>) -> Seq<Seq<char>> {
    let segs = split_on(s, '\n');
    let ended = segs.drop_last().map_values(|l: Seq<char>| strip_cr(l));
    if segs.last().len() > 0 {
        ended.push(segs.last())
    } else {
        ended
    }
}

fn strip_cr_chars(l: Vec<char>) -> (res: Vec<char>)
    ensures
        res@ == strip_cr(l@),
{
    let mut l = l;
    let n = l.len();
    if n > 0 && l[n - 1] == '\r' {
        l.pop();
    }
    l
}

/// A copy of `v`.
pub fn copy_chars(v: &Vec<char>) -> (res: Vec<char>)
    ensures
        res@ == v@,
{
    let mut res: Vec<char> = Vec::new();
    for i in 0..v.len()
        invariant
            res@ == v@.take(i as int),
    {
        res.push(v[i]);
        assert(v@.take(i + 1) == v@.take(i as int).push(v@[i as int]));
    }
    assert(v@.take(v.len() as int) == v@);
    res
}

/// The lines of `s`.
pub fn lines_of(s: &Vec<char>) -> (res: Vec<Vec<char>>)
    ensures
        char_rows(res@) == lines(s@),
{
    let segs = split_chars(s, '\n');
    proof {
        lemma_split_on_nonempty(s@, '\n');
    }
    let ghost all = split_on(s@, '\n');
    let n = segs.len();
    let mut res: Vec<Vec<char>> = Vec::new();
    for k in 0..n - 1
        invariant
            n == all.len(),
            n >= 1,
            char_rows(segs@) == all,
            char_rows(res@) == all.subrange(0, k as int).map_values(|l: Seq<char>| strip_cr(l)),
    {
        let ghost old_res = res@;
        let piece = copy_chars(&segs[k]);
        assert(piece@ == all[k as int]);
        let line = strip_cr_chars(piece);
        res.push(line);
        assert(res@ == old_res.push(line));
        assert(char_rows(res@) == char_rows(old_res).push(strip_cr(all[k as int])));
        assert(all.subrange(0, k + 1) == all.subrange(0, k as int).push(all[k as int]));
        assert(char_rows(res@) =~= all.subrange(0, k + 1).map_values(|l: Seq<char>| strip_cr(l)));
    }
    let ghost before = res@;
    let last = copy_chars(&segs[n - 1]);
    assert(last@ == all.last());
    assert(all.subrange(0, n - 1) == all.drop_last());
    if last.len() > 0 {
        res.push(last);
        assert(char_rows(res@) == char_rows(before).push(last@));
    }
    res
}

/// Whether `c` is one of the ASCII digits `0` to `9`.
pub open spec fn is_digit(c: char) -> bool {
    48 <= (c as u32) <= 57
}

/// The value of the ASCII digit `c`.
pub open spec fn digit_value(c: char) -> nat {
    ((c as u32) - 48) as nat
}

/// The value of the decimal numeral `s` (most significant digit first).
pub open spec fn digits_value(s: Seq<char>) -> nat
    decreases s.len(),
{
    if s.len() == 0 {
        0
    } else {
        digits_value(s.drop_last()) * 10 + digit_value(s.last())
    }
}

/// Why a text is no unsigned integer, as `usize::from_str` reports it.
#[derive(Clone, Copy, Debug, PartialEq, Eq, Structural)]
pub enum IntErrorKind {
    /// The text is empty.
    Empty,
    /// A character is no digit (or a lone sign stands where digits should).
    InvalidDigit,
    /// The value does not fit in a `usize`.
    PosOverflow,
}

impl IntErrorKind {
    /// The message that describes the error, as std words it.
    pub fn message(&self) -> (m: String)
        ensures
            m@ == int_error_message(*self)@,
    {
        match self {
            IntErrorKind::Empty => "cannot parse integer from empty string".to_owned(),
            IntErrorKind::InvalidDigit => "invalid digit found in string".to_owned(),
            IntErrorKind::PosOverflow => "number too large to fit in target type".to_owned(),
        }
    }
}

/// The message of each integer parse error.
pub open spec fn int_error_message(e: IntErrorKind) -> &'static str {
    match e {
        IntErrorKind::Empty => "cannot parse integer from empty string",
        IntErrorKind::InvalidDigit => "invalid digit found in string",
        IntErrorKind::PosOverflow => "number too large to fit in target type",
    }
}

/// Reading the digits `d` from left to right as `usize::from_str` does: each
/// character must be a digit, and the value read so far must stay within
/// `usize`; the first character that breaks either rule decides the error.
pub open spec fn scan_digits(d: Seq<char>) -> Result<nat, IntErrorKind>
    decreases d.len(),
{
    if d.len() == 0 {
        Ok(0)
    } else {
        match scan_digits(d.drop_last()) {
            Err(e) => Err(e),
            Ok(v) => if !is_digit(d.last()) {
                Err(IntErrorKind::InvalidDigit)
            } else if v * 10 + digit_value(d.last()) > usize::MAX {
                Err(IntErrorKind::PosOverflow)
            } else {
                Ok(v * 10 + digit_value(d.last()))
            },
        }
    }
}

/// `s` without one leading plus sign, if it has one.
pub open spec fn unsigned_digits(s: Seq<char>) -> Seq<char> {
    if s.len() > 0 && s[0] == '+' {
        s.drop_first()
    } else {
        s
    }
}

/// What `usize::from_str` gives for `s`: an optional plus sign followed by ASCII
/// digits whose value fits in a `usize`, or the error that std reports.
pub open spec fn usize_from_str(s: Seq<char>) -> Result<usize, IntErrorKind> {
    if s.len() == 0 {
        Err(IntErrorKind::Empty)
    } else if s.len() == 1 && (s[0] == '+' || s[0] == '-') {
        Err(IntErrorKind::InvalidDigit)
    } else {
        match scan_digits(unsigned_digits(s)) {
            Ok(v) => Ok(v as usize),
            Err(e) => Err(e),
        }
    }
}

/// The unsigned integer that `s` spells, if it spells one.
pub open spec fn decimal_usize(s: Seq<char>) -> Option<usize> {
    match usize_from_str(s) {
        Ok(v) => Some(v),
        Err(_) => None,
    }
}

/// Once a prefix of the digits is refused, so is the whole, for the same reason.
pub proof fn lemma_scan_error_extends(d: Seq<char>, j: int)
    requires
        0 <= j <= d.len(),
        scan_digits(d.take(j)) is Err,
    ensures
        scan_digits(d) == scan_digits(d.take(j)),
    decreases d.len() - j,
{
    if j < d.len() {
        assert(d.take(j + 1).drop_last() == d.take(j));
        lemma_scan_error_extends(d, j + 1);
    } else {
        assert(d.take(j) == d);
    }
}

/// The unsigned decimal integer that `s` spells, read as `usize::from_str`
/// reads it.
pub fn parse_usize(s: &str) -> (res: Result<usize, IntErrorKind>)
    ensures
        res == usize_from_str(s@),
{
    let v = chars_of(s);
    let n = v.len();
    if n == 0 {
        return Err(IntErrorKind::Empty);
    }
    if n == 1 && (v[0] == '+' || v[0] == '-') {
        return Err(IntErrorKind::InvalidDigit);
    }
    let start: usize = if v[0] == '+' {
        1
    } else {
        0
    };
    let ghost d = unsigned_digits(v@);
    assert(d == v@.subrange(start as int, n as int));
    assert(d.take(0) == Seq::<char>::empty());
    let mut value: usize = 0;
    let mut i: usize = start;
    while i < n
        invariant
            n == v.len(),
            v@ == s@,
            d == unsigned_digits(s@),
            start <= i <= n,
            d == v@.subrange(start as int, n as int),
            scan_digits(d.take(i - start)) == Ok::<nat, IntErrorKind>(value as nat),
        decreases n - i,
    {
        let c = v[i];
        let ghost t = d.take(i - start + 1);
        assert(t.drop_last() == d.take(i - start));
        assert(t.last() == c);
        let code = c as u32;
        if !(48 <= code && code <= 57) {
            proof {
                lemma_scan_error_extends(d, i - start + 1);
            }
            return Err(IntErrorKind::InvalidDigit);
        }
        let digit = (code - 48) as usize;
        match value.checked_mul(10) {
            Some(m) => match m.checked_add(digit) {
                Some(next) => {
                    value = next;
                },
                None => {
                    proof {
                        lemma_scan_error_extends(d, i - start + 1);
                    }
                    return Err(IntErrorKind::PosOverflow);
                },
            },
            None => {
                proof {
                    lemma_scan_error_extends(d, i - start + 1);
                }
                return Err(IntErrorKind::PosOverflow);
            },
        }
        i = i + 1;
    }
    assert(d.take(n - start) == d);
    Ok(value)
}

/// The whitespace-separated words of `s`, as `str::split_whitespace` yields them.
pub fn words_of(s: &str) -> (res: Vec<String>)
    ensures
        string_rows(res@) == words(s@),
{
    let v = chars_of(s);
    let ws = words_of_chars(&v);
    strings_from_rows(&ws)
}

/// Strings holding the rows of `rows`.
pub fn strings_from_rows(rows: &Vec<Vec<char>>) -> (res: Vec<String>)
    ensures
        string_rows(res@) == char_rows(rows@),
{
    let mut res: Vec<String> = Vec::new();
    for i in 0..rows.len()
        invariant
            string_rows(res@) == char_rows(rows@).take(i as int),
    {
        let ghost old_res = res@;
        let t = string_from_chars(&rows[i]);
        res.push(t);
        assert(string_rows(res@) == string_rows(old_res).push(t@));
        assert(char_rows(rows@).take(i + 1) == char_rows(rows@).take(i as int).push(rows@[i as int]@));
    }
    assert(char_rows(rows@).take(rows.len() as int) == char_rows(rows@));
    res
}

/// The second comma-separated field of `line`, if `line` holds a comma.
pub open spec fn second_field(line: Seq<char>) -> Option<Seq<char>> {
    let f = split_on(line, ',');
    if f.len() >= 2 {
        Some(f[1])
    } else {
        None
    }
}

/// The value column of a GML tuple list: for each line `type,value` of `s`, the
/// `value` field; none where some line holds no comma.
pub open spec fn tuple_list_fields(s: Seq<char>) -> Option<Seq<Seq<char>>> {
    let ls = lines(s);
    if forall|k: int| 0 <= k < ls.len() ==> (#[trigger] second_field(ls[k])) is Some {
        Some(ls.map_values(|l: Seq<char>| second_field(l)->0))
    } else {
        None
    }
}

/// The value column of the tuple list `s`: the second comma-separated field of
/// each line; `None` when some line holds no comma.
pub fn tuple_list_values(s: &str) -> (res: Option<Vec<String>>)
    ensures
        match res {
            Some(v) => tuple_list_fields(s@) == Some(string_rows(v@)),
            None => tuple_list_fields(s@) is None,
        },
{
    let v = chars_of(s);
    let ls = lines_of(&v);
    let ghost all = lines(s@);
    let mut fields: Vec<Vec<char>> = Vec::new();
    for k in 0..ls.len()
        invariant
            char_rows(ls@) == all,
            all == lines(s@),
            fields@.len() == k,
            forall|j: int| 0 <= j < k ==> (#[trigger] second_field(all[j])) is Some,
            forall|j: int| 0 <= j < k ==> second_field(all[j]) == Some(#[trigger] fields@[j]@),
    {
        let parts = split_chars(&ls[k], ',');
        assert(ls@[k as int]@ == all[k as int]);
        if parts.len() < 2 {
            assert(second_field(all[k as int]) is None);
            return None;
        }
        let f = copy_chars(&parts[1]);
        assert(f@ == char_rows(parts@)[1]);
        fields.push(f);
    }
    let res = strings_from_rows(&fields);
    assert(string_rows(res@) =~= all.map_values(|l: Seq<char>| second_field(l)->0));
    Some(res)
}

/// A text without the separator is a single piece.
pub proof fn lemma_split_on_whole(y: Seq<char>, sep: char)
    requires
        !y.contains(sep),
    ensures
        split_on(y, sep) == seq![y],
    decreases y.len(),
{
    if y.len() > 0 {
        assert(!y.drop_last().contains(sep)) by {
            if y.drop_last().contains(sep) {
                let i = choose|i: int| 0 <= i < y.drop_last().len() && y.drop_last()[i] == sep;
                assert(y[i] == sep);
            }
        }
        lemma_split_on_whole(y.drop_last(), sep);
        assert(y.last() != sep) by {
            assert(y[y.len() - 1] == y.last());
        }
        assert(y.drop_last().push(y.last()) == y);
    } else {
        assert(y == Seq::<char>::empty());
    }
}

/// Splitting at one occurrence of the separator: the pieces before it, then the
/// pieces after it.
pub proof fn lemma_split_on_join(x: Seq<char>, y: Seq<char>, sep: char)
    ensures
        split_on(x + seq![sep] + y, sep) == split_on(x, sep) + split_on(y, sep),
    decreases y.len(),
{
    let xs = x + seq![sep];
    if y.len() == 0 {
        assert(xs + y == xs);
        assert(xs.drop_last() == x);
        assert(split_on(y, sep) == seq![Seq::<char>::empty()]);
    } else {
        let s = xs + y;
        assert(s.drop_last() == xs + y.drop_last());
        assert(s.last() == y.last());
        lemma_split_on_join(x, y.drop_last(), sep);
        lemma_split_on_nonempty(y.drop_last(), sep);
        let a = split_on(x, sep);
        let b = split_on(y.drop_last(), sep);
        if y.last() == sep {
            assert((a + b).push(Seq::<char>::empty()) == a + b.push(Seq::<char>::empty()));
        } else {
            assert((a + b).update((a + b).len() - 1, (a + b).last().push(y.last())) == a + b.update(
                b.len() - 1,
                b.last().push(y.last()),
            ));
        }
    }
}

/// The value field of a line is exactly the text between its first and its
/// second comma (or the end of the line), of whatever length; a line without a
/// comma has none.
pub proof fn lemma_second_field_between_commas(line: Seq<char>, p: int, q: int)
    requires
        0 <= p < q <= line.len(),
        line[p] == ',',
        forall|i: int| 0 <= i < p ==> line[i] != ',',
        forall|i: int| p < i < q ==> line[i] != ',',
        q == line.len() || line[q] == ',',
    ensures
        second_field(line) == Some(line.subrange(p + 1, q)),
{
    let a = line.take(p);
    let rest = line.skip(p + 1);
    assert(line == a + seq![','] + rest);
    assert(!a.contains(',')) by {
        if a.contains(',') {
            let i = choose|i: int| 0 <= i < a.len() && a[i] == ',';
            assert(line[i] == ',');
        }
    }
    lemma_split_on_join(a, rest, ',');
    lemma_split_on_whole(a, ',');
    let b = line.subrange(p + 1, q);
    assert(!b.contains(',')) by {
        if b.contains(',') {
            let i = choose|i: int| 0 <= i < b.len() && b[i] == ',';
            assert(line[p + 1 + i] == ',');
        }
    }
    lemma_split_on_whole(b, ',');
    if q == line.len() {
        assert(rest == b);
    } else {
        let rest2 = line.skip(q + 1);
        assert(rest == b + seq![','] + rest2);
        lemma_split_on_join(b, rest2, ',');
    }
}

/// A line without a comma has no value field.
pub proof fn lemma_second_field_needs_comma(line: Seq<char>)
    requires
        !line.contains(','),
    ensures
        second_field(line) is None,
{
    lemma_split_on_whole(line, ',');
}

/// A tuple list has a value column exactly when every one of its lines holds a
/// comma, and then the column has one entry per line, the line's value field.
pub proof fn lemma_tuple_list_fields(s: Seq<char>)
    ensures
        tuple_list_fields(s) is Some <==> forall|k: int|
            0 <= k < lines(s).len() ==> (#[trigger] lines(s)[k]).contains(','),
        tuple_list_fields(s) is Some ==> {
            &&& (tuple_list_fields(s)->0).len() == lines(s).len()
            &&& forall|k: int|
                0 <= k < lines(s).len() ==> (tuple_list_fields(s)->0)[k] == second_field(
                    #[trigger] lines(s)[k],
                )->0
        },
{
    let ls = lines(s);
    assert forall|k: int| 0 <= k < ls.len() implies (#[trigger] second_field(ls[k]) is Some
        <==> ls[k].contains(',')) by {
        let line = ls[k];
        if line.contains(',') {
            let p = choose|i: int| 0 <= i < line.len() && line[i] == ',';
            let a = line.take(p);
            let rest = line.skip(p + 1);
            assert(line == a + seq![','] + rest);
            lemma_split_on_join(a, rest, ',');
            lemma_split_on_nonempty(a, ',');
            lemma_split_on_nonempty(rest, ',');
        } else {
            lemma_second_field_needs_comma(line);
        }
    }
    if forall|k: int| 0 <= k < ls.len() ==> (#[trigger] ls[k]).contains(',') {
        assert forall|k: int| 0 <= k < ls.len() implies (#[trigger] second_field(ls[k])) is Some by {
            assert(ls[k].contains(','));
        }
    }
    if tuple_list_fields(s) is Some {
        assert forall|k: int| 0 <= k < ls.len() implies (#[trigger] ls[k]).contains(',') by {
            assert(second_field(ls[k]) is Some);
        }
    }
}

/// A numeral of ASCII digits reads, left to right, as its value while that value
/// fits in a `usize`.
pub proof fn lemma_scan_digits_value(d: Seq<char>)
    requires
        forall|i: int| 0 <= i < d.len() ==> is_digit(#[trigger] d[i]),
        digits_value(d) <= usize::MAX,
    ensures
        scan_digits(d) == Ok::<nat, IntErrorKind>(digits_value(d)),
    decreases d.len(),
{
    if d.len() > 0 {
        let p = d.drop_last();
        assert forall|i: int| 0 <= i < p.len() implies is_digit(#[trigger] p[i]) by {
            assert(p[i] == d[i]);
        }
        lemma_scan_digits_value(p);
        assert(is_digit(d[d.len() - 1]));
    }
}

/// A non-empty numeral of ASCII digits whose value fits in a `usize` is read as
/// that value, however large; one whose value does not fit overflows.
pub proof fn lemma_numeral_value(d: Seq<char>)
    requires
        d.len() > 0,
        forall|i: int| 0 <= i < d.len() ==> is_digit(#[trigger] d[i]),
    ensures
        digits_value(d) <= usize::MAX ==> usize_from_str(d) == Ok::<usize, IntErrorKind>(
            digits_value(d) as usize,
        ),
        digits_value(d) > usize::MAX ==> usize_from_str(d) == Err::<usize, IntErrorKind>(
            IntErrorKind::PosOverflow,
        ),
{
    assert(is_digit(d[0]));
    if digits_value(d) <= usize::MAX {
        lemma_scan_digits_value(d);
    } else {
        lemma_scan_digits_overflow(d);
    }
}

/// A numeral of ASCII digits whose value does not fit in a `usize` overflows.
pub proof fn lemma_scan_digits_overflow(d: Seq<char>)
    requires
        forall|i: int| 0 <= i < d.len() ==> is_digit(#[trigger] d[i]),
        digits_value(d) > usize::MAX,
    ensures
        scan_digits(d) == Err::<nat, IntErrorKind>(IntErrorKind::PosOverflow),
    decreases d.len(),
{
    let p = d.drop_last();
    assert forall|i: int| 0 <= i < p.len() implies is_digit(#[trigger] p[i]) by {
        assert(p[i] == d[i]);
    }
    assert(is_digit(d[d.len() - 1]));
    if digits_value(p) <= usize::MAX {
        lemma_scan_digits_value(p);
    } else {
        lemma_scan_digits_overflow(p);
    }
}

} // verus!
