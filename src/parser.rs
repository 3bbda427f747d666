//! Reading text into events, one complete line at a time.
use vstd::prelude::*;
use vstd::string::StrSliceExecFns;
use crate::grammar::{
    Line, classify, eol_len, is_eol_char, lemma_colon_index_at, lemma_eol_index_at,
    lemma_next_event_bounds, lemma_next_line_bounds, next_event, next_line, parse_events,
    parse_stream, strip_space,
};

verus! {

/// One comment or field line; the text borrows from the input.
#[derive(Debug, PartialEq, Eq)]
pub enum RawEventLine<'a> {
    Comment(&'a str),
    Field(&'a str, Option<&'a str>),
}

impl<'a> View for RawEventLine<'a> {
    type V = Line;

    open spec fn view(&self) -> Line {
        match self {
            RawEventLine::Comment(c) => Line::Comment(c@),
            RawEventLine::Field(n, v) => Line::Field(
                n@,
                match v {
                    Some(x) => Some(x@),
                    None => None,
                },
            ),
        }
    }
}

/// The lines of one event, in the order they came.
#[derive(Debug, PartialEq, Eq)]
pub struct RawEvent<'a>(pub Vec<RawEventLine<'a>>);

impl<'a> View for RawEvent<'a> {
    type V = Seq<Line>;

    open spec fn view(&self) -> Seq<Line> {
        self.0@.map_values(|l: RawEventLine<'a>| l@)
    }
}

pub open spec fn events_view<'a>(es: Seq<RawEvent<'a>>) -> Seq<Seq<Line>> {
    es.map_values(|e: RawEvent<'a>| e@)
}

pub fn is_lf(c: char) -> (r: bool)
    ensures
        r == (c == '\n'),
{
    c == '\u{000A}'
}

pub fn is_cr(c: char) -> (r: bool)
    ensures
        r == (c == '\r'),
{
    c == '\u{000D}'
}

pub fn is_space(c: char) -> (r: bool)
    ensures
        r == (c == ' '),
{
    c == '\u{0020}'
}

pub fn is_colon(c: char) -> (r: bool)
    ensures
        r == (c == ':'),
{
    c == '\u{003A}'
}

pub fn is_bom(c: char) -> (r: bool)
    ensures
        r == (c == '\u{feff}'),
{
    c == '\u{feff}'
}

/// Any scalar value but CR, LF and colon.
pub fn is_name_char(c: char) -> (r: bool)
    ensures
        r == !(is_eol_char(c) || c == ':'),
{
    ('\u{0000}' <= c && c <= '\u{0009}') || ('\u{000B}' <= c && c <= '\u{000C}') || ('\u{000E}'
        <= c && c <= '\u{0039}') || ('\u{003B}' <= c && c <= '\u{10FFFF}')
}

/// Any scalar value but CR and LF.
pub fn is_any_char(c: char) -> (r: bool)
    ensures
        r == !is_eol_char(c),
{
    ('\u{0000}' <= c && c <= '\u{0009}') || ('\u{000B}' <= c && c <= '\u{000C}') || ('\u{000E}'
        <= c && c <= '\u{10FFFF}')
}

/// The characters of `s`, for indexing.
fn char_vec(s: &str) -> (r: Vec<char>)
    ensures
        r@ == s@,
{
    let mut v: Vec<char> = Vec::new();
    for c in it: s.chars()
        invariant
            v@ == it.seq().take(it.index() as int),
    {
        v.push(c);
    }
    v
}


/// The length of the terminator that starts at `j`, or `None` where it is a
/// carriage return that ends the text and may yet be followed by a line feed.
fn end_of_line(cs: &Vec<char>, j: usize) -> (r: Option<usize>)
    requires
        j < cs.len(),
        is_eol_char(cs@[j as int]),
    ensures
        r is None <==> (cs@[j as int] == '\r' && j + 1 == cs.len()),
        r matches Some(n) ==> n == eol_len(cs@, j as int),
{
    if is_cr(cs[j]) {
        if j + 1 == cs.len() {
            None
        } else if is_lf(cs[j + 1]) {
            Some(2)
        } else {
            Some(1)
        }
    } else {
        Some(1)
    }
}

/// The comment that spans `start..end`, its colon included.
fn comment<'a>(input: &'a str, cs: &Vec<char>, start: usize, end: usize) -> (r: RawEventLine<'a>)
    requires
        cs@ == input@,
        start < end <= cs.len(),
        cs@[start as int] == ':',
    ensures
        r@ == classify(cs@.subrange(start as int, end as int)),
{
    let text = input.substring_char(start + 1, end);
    assert(text@ =~= cs@.subrange(start as int, end as int).skip(1));
    RawEventLine::Comment(text)
}

/// The field that spans `start..end`: a name, then a colon, at most one space
/// and the value, unless the line holds no colon.
fn field<'a>(input: &'a str, cs: &Vec<char>, start: usize, end: usize) -> (r: RawEventLine<'a>)
    requires
        cs@ == input@,
        start < end <= cs.len(),
        cs@[start as int] != ':',
    ensures
        r@ == classify(cs@.subrange(start as int, end as int)),
{
    let ghost l = cs@.subrange(start as int, end as int);
    let mut k = start;
    while k < end && !is_colon(cs[k])
        invariant
            start <= k <= end <= cs.len(),
            forall|i: int| start <= i < k ==> #[trigger] cs@[i] != ':',
        decreases end - k,
    {
        k += 1;
    }
    proof {
        lemma_colon_index_at(l, 0, (k - start) as int);
    }
    let name = input.substring_char(start, k);
    assert(name@ =~= l.take((k - start) as int));
    if k == end {
        assert(name@ =~= l);
        RawEventLine::Field(name, None)
    } else {
        let from = if k + 1 < end && is_space(cs[k + 1]) {
            k + 2
        } else {
            k + 1
        };
        let value = input.substring_char(from, end);
        assert(value@ =~= strip_space(l.skip((k - start) as int + 1)));
        RawEventLine::Field(name, Some(value))
    }
}


/// The line at `pos`: `None` while its terminator is not certain; else the
/// comment or field it holds (`None` for a blank line) and where the next
/// line starts.
fn line<'a>(input: &'a str, cs: &Vec<char>, pos: usize) -> (r: Option<
    (Option<RawEventLine<'a>>, usize),
>)
    requires
        cs@ == input@,
        pos <= cs.len(),
    ensures
        match next_line(cs@.skip(pos as int)) {
            None => r is None,
            Some((l, n)) => r matches Some((x, p)) && p == pos + n && (l.len() == 0 ==> x is None)
                && (l.len() > 0 ==> (x matches Some(y) && y@ == classify(l))),
        },
{
    let ghost s = cs@.skip(pos as int);
    let mut j = pos;
    while j < cs.len() && is_any_char(cs[j])
        invariant
            pos <= j <= cs.len(),
            forall|k: int| pos <= k < j ==> !is_eol_char(#[trigger] cs@[k]),
        decreases cs.len() - j,
    {
        j += 1;
    }
    proof {
        assert forall|k: int| 0 <= k < j - pos implies !is_eol_char(#[trigger] s[k]) by {
            assert(s[k] == cs@[k + pos]);
        }
        lemma_eol_index_at(s, 0, j - pos);
    }
    if j == cs.len() {
        return None;
    }
    let n = match end_of_line(cs, j) {
        None => {
            return None;
        },
        Some(n) => n,
    };
    assert(eol_len(s, j - pos) == eol_len(cs@, j as int));
    let ghost l = s.take(j - pos);
    assert(l =~= cs@.subrange(pos as int, j as int));
    if j == pos {
        Some((None, j + n))
    } else if is_colon(cs[pos]) {
        Some((Some(comment(input, cs, pos, j)), j + n))
    } else {
        Some((Some(field(input, cs, pos, j)), j + n))
    }
}

/// `o` with `ls` put before its lines and `k` added to its length.
spec fn prefixed(ls: Seq<Line>, k: int, o: Option<(Seq<Line>, int)>) -> Option<(Seq<Line>, int)> {
    match o {
        None => None,
        Some((ev, m)) => Some((ls + ev, k + m)),
    }
}

/// The event that starts at `pos` and the index after its blank line, or
/// `None` while that blank line has not come.
fn event<'a>(input: &'a str, cs: &Vec<char>, pos: usize) -> (r: Option<(RawEvent<'a>, usize)>)
    requires
        cs@ == input@,
        pos <= cs.len(),
    ensures
        match next_event(cs@.skip(pos as int)) {
            None => r is None,
            Some((ev, n)) => r matches Some((e, p)) && e@ == ev && p == pos + n,
        },
{
    let mut lines: Vec<RawEventLine<'a>> = Vec::new();
    let mut p = pos;
    assert(RawEvent(lines)@ =~= Seq::<Line>::empty());
    loop
        invariant
            cs@ == input@,
            pos <= p <= cs.len(),
            next_event(cs@.skip(pos as int)) == prefixed(
                RawEvent(lines)@,
                p - pos,
                next_event(cs@.skip(p as int)),
            ),
        decreases cs.len() - p,
    {
        let ghost sp = cs@.skip(p as int);
        proof {
            lemma_next_line_bounds(sp);
        }
        match line(input, cs, p) {
            None => {
                return None;
            },
            Some((None, q)) => {
                let e = RawEvent(lines);
                assert(e@ + Seq::<Line>::empty() =~= e@);
                return Some((e, q));
            },
            Some((Some(l), q)) => {
                let ghost before = RawEvent(lines)@;
                let ghost n = q - p;
                assert(sp.skip(n) =~= cs@.skip(q as int));
                lines.push(l);
                assert(RawEvent(lines)@ =~= before.push(l@));
                proof {
                    if let Some((ev, m)) = next_event(cs@.skip(q as int)) {
                        assert(before + (seq![l@] + ev) =~= before.push(l@) + ev);
                    }
                }
                p = q;
            },
        }
    }
}

/// The events from `start` on, and the text that is left.
fn events_from<'a>(input: &'a str, cs: &Vec<char>, start: usize) -> (r: (&'a str, Vec<RawEvent<'a>>))
    requires
        cs@ == input@,
        start <= cs.len(),
    ensures
        parse_events(cs@.skip(start as int)) == (events_view(r.1@), r.0@),
{
    let mut out: Vec<RawEvent<'a>> = Vec::new();
    let mut p = start;
    assert(events_view(out@) =~= Seq::<Seq<Line>>::empty());
    loop
        invariant
            cs@ == input@,
            start <= p <= cs.len(),
            parse_events(cs@.skip(start as int)) == (
                events_view(out@) + parse_events(cs@.skip(p as int)).0,
                parse_events(cs@.skip(p as int)).1,
            ),
        decreases cs.len() - p,
    {
        let ghost sp = cs@.skip(p as int);
        proof {
            lemma_next_event_bounds(sp);
        }
        match event(input, cs, p) {
            None => {
                let rest = input.substring_char(p, cs.len());
                assert(rest@ =~= sp);
                assert(events_view(out@) + Seq::<Seq<Line>>::empty() =~= events_view(out@));
                return (rest, out);
            },
            Some((e, q)) => {
                let ghost before = events_view(out@);
                let ghost n = q - p;
                assert(sp.skip(n) =~= cs@.skip(q as int));
                out.push(e);
                assert(events_view(out@) =~= before.push(e@));
                assert(before + (seq![e@] + parse_events(cs@.skip(q as int)).0) =~= before.push(e@)
                    + parse_events(cs@.skip(q as int)).0);
                p = q;
            },
        }
    }
}

/// The complete events at the start of `input`, in order, and the text after
/// them, which is to be put before the next piece of input. An event whose
/// blank line comes first, with no lines, is returned too.
pub fn events<'a>(input: &'a str) -> (r: (&'a str, Vec<RawEvent<'a>>))
    ensures
        parse_events(input@) == (events_view(r.1@), r.0@),
{
    let cs = char_vec(input);
    assert(cs@.skip(0) =~= cs@);
    events_from(input, &cs, 0)
}

/// As `events`, after one leading byte order mark is skipped.
pub fn stream<'a>(input: &'a str) -> (r: (&'a str, Vec<RawEvent<'a>>))
    ensures
        parse_stream(input@) == (events_view(r.1@), r.0@),
{
    let cs = char_vec(input);
    if cs.len() > 0 && is_bom(cs[0]) {
        events_from(input, &cs, 1)
    } else {
        assert(cs@.skip(0) =~= cs@);
        events_from(input, &cs, 0)
    }
}

} // verus!
