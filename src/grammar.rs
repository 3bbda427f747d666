//! The line grammar of an event stream, as spec functions over characters.
//!
//! ```text
//! stream      = [ bom ] *event
//! event       = *( comment / field ) end-of-line
//! comment     = colon *any-char end-of-line
//! field       = 1*name-char [ colon [ space ] *any-char ] end-of-line
//! end-of-line = ( cr lf / cr / lf )
//! ```
//!
//! Input arrives in pieces, so a line is only read once its terminator is
//! certain: a carriage return that ends the text may still be followed by a
//! line feed, and is therefore not yet a terminator.
use vstd::prelude::*;

verus! {

/// What a comment or field line holds.
pub enum Line {
    Comment(Seq<char>),
    Field(Seq<char>, Option<Seq<char>>),
}

pub open spec fn is_eol_char(c: char) -> bool {
    c == '\n' || c == '\r'
}

/// The first index at or after `i` that holds CR or LF, or the length of `s`.
pub open spec fn eol_index(s: Seq<char>, i: int) -> int
    decreases s.len() - i,
{
    if i < 0 || i >= s.len() {
        s.len() as int
    } else if is_eol_char(s[i]) {
        i
    } else {
        eol_index(s, i + 1)
    }
}

/// The first index at or after `i` that holds a colon, or the length of `s`.
pub open spec fn colon_index(s: Seq<char>, i: int) -> int
    decreases s.len() - i,
{
    if i < 0 || i >= s.len() {
        s.len() as int
    } else if s[i] == ':' {
        i
    } else {
        colon_index(s, i + 1)
    }
}

/// The number of characters of the terminator at `j`: CRLF is one terminator.
pub open spec fn eol_len(s: Seq<char>, j: int) -> int {
    if s[j] == '\r' && j + 1 < s.len() && s[j + 1] == '\n' {
        2
    } else {
        1
    }
}

/// The first line of `s` without its terminator, and how many characters the
/// line and its terminator span; `None` while the terminator is not certain.
pub open spec fn next_line(s: Seq<char>) -> Option<(Seq<char>, int)> {
    let j = eol_index(s, 0);
    if j >= s.len() || (s[j] == '\r' && j + 1 == s.len()) {
        None
    } else {
        Some((s.take(j), j + eol_len(s, j)))
    }
}

/// A value loses at most one leading space.
pub open spec fn strip_space(v: Seq<char>) -> Seq<char> {
    if v.len() > 0 && v[0] == ' ' {
        v.skip(1)
    } else {
        v
    }
}

/// How a non-empty line without terminator is read.
pub open spec fn classify(l: Seq<char>) -> Line {
    if l[0] == ':' {
        Line::Comment(l.skip(1))
    } else {
        let k = colon_index(l, 0);
        if k >= l.len() {
            Line::Field(l, None)
        } else {
            Line::Field(l.take(k), Some(strip_space(l.skip(k + 1))))
        }
    }
}

pub proof fn lemma_eol_index_bounds(s: Seq<char>, i: int)
    requires
        0 <= i <= s.len(),
    ensures
        i <= eol_index(s, i) <= s.len(),
        eol_index(s, i) < s.len() ==> is_eol_char(s[eol_index(s, i)]),
        forall|k: int| i <= k < eol_index(s, i) ==> !is_eol_char(#[trigger] s[k]),
    decreases s.len() - i,
{
    if i < s.len() && !is_eol_char(s[i]) {
        lemma_eol_index_bounds(s, i + 1);
    }
}

pub proof fn lemma_next_line_bounds(s: Seq<char>)
    ensures
        next_line(s) matches Some((l, n)) ==> 1 <= n <= s.len() && l.len() < n && l
            == s.take(l.len() as int) && forall|k: int| 0 <= k < l.len() ==> !is_eol_char(
            #[trigger] l[k],
        ),
{
    lemma_eol_index_bounds(s, 0);
}

/// One event at the start of `s`: its lines, and how many characters it spans
/// with the blank line that ends it; `None` while that blank line has not come.
pub open spec fn next_event(s: Seq<char>) -> Option<(Seq<Line>, int)>
    decreases s.len(),
{
    match next_line(s) {
        None => None,
        Some((l, n)) => if l.len() == 0 {
            Some((seq![], n))
        } else if 1 <= n <= s.len() {
            match next_event(s.skip(n)) {
                None => None,
                Some((ev, m)) => Some((seq![classify(l)] + ev, n + m)),
            }
        } else {
            None
        },
    }
}

pub proof fn lemma_next_event_bounds(s: Seq<char>)
    ensures
        next_event(s) matches Some((ev, n)) ==> 1 <= n <= s.len(),
    decreases s.len(),
{
    lemma_next_line_bounds(s);
    if let Some((l, n)) = next_line(s) {
        if l.len() != 0 {
            lemma_next_event_bounds(s.skip(n));
        }
    }
}

/// The complete events at the start of `s`, in order, and the rest of `s`,
/// which waits for more input.
pub open spec fn parse_events(s: Seq<char>) -> (Seq<Seq<Line>>, Seq<char>)
    decreases s.len(),
{
    match next_event(s) {
        None => (seq![], s),
        Some((ev, n)) => if 1 <= n <= s.len() {
            let rest = parse_events(s.skip(n));
            (seq![ev] + rest.0, rest.1)
        } else {
            (seq![], s)
        },
    }
}

/// A whole stream: one leading byte order mark is skipped.
pub open spec fn parse_stream(s: Seq<char>) -> (Seq<Seq<Line>>, Seq<char>) {
    if s.len() > 0 && s[0] == '\u{feff}' {
        parse_events(s.skip(1))
    } else {
        parse_events(s)
    }
}

pub proof fn lemma_eol_index_at(s: Seq<char>, i: int, j: int)
    requires
        0 <= i <= j <= s.len(),
        forall|k: int| i <= k < j ==> !is_eol_char(#[trigger] s[k]),
        j == s.len() || is_eol_char(s[j]),
    ensures
        eol_index(s, i) == j,
    decreases j - i,
{
    if i < j {
        lemma_eol_index_at(s, i + 1, j);
    }
}

pub proof fn lemma_colon_index_at(s: Seq<char>, i: int, j: int)
    requires
        0 <= i <= j <= s.len(),
        forall|k: int| i <= k < j ==> #[trigger] s[k] != ':',
        j == s.len() || s[j] == ':',
    ensures
        colon_index(s, i) == j,
    decreases j - i,
{
    if i < j {
        lemma_colon_index_at(s, i + 1, j);
    }
}


proof fn lemma_eol_index_extend(t: Seq<char>, u: Seq<char>, i: int)
    requires
        0 <= i <= t.len(),
        eol_index(t, i) < t.len(),
    ensures
        eol_index(t + u, i) == eol_index(t, i),
    decreases t.len() - i,
{
    if !is_eol_char(t[i]) {
        lemma_eol_index_extend(t, u, i + 1);
    }
}

proof fn lemma_next_line_extend(t: Seq<char>, u: Seq<char>)
    requires
        next_line(t) is Some,
    ensures
        next_line(t + u) == next_line(t),
{
    lemma_eol_index_bounds(t, 0);
    lemma_eol_index_extend(t, u, 0);
    let j = eol_index(t, 0);
    assert((t + u).take(j) =~= t.take(j));
}

/// An event that is complete in `t` stays the same when more text follows.
pub proof fn lemma_next_event_extend(t: Seq<char>, u: Seq<char>)
    requires
        next_event(t) is Some,
    ensures
        next_event(t + u) == next_event(t),
    decreases t.len(),
{
    lemma_next_line_extend(t, u);
    lemma_next_line_bounds(t);
    let (l, n) = next_line(t).unwrap();
    if l.len() != 0 {
        assert((t + u).skip(n) =~= t.skip(n) + u);
        lemma_next_event_extend(t.skip(n), u);
    }
}

/// Text read in two pieces, with what the first leaves put before the second,
/// gives the events of the whole text, and the same rest.
pub proof fn lemma_parse_events_split(t: Seq<char>, u: Seq<char>)
    ensures
        parse_events(t + u) == (
            parse_events(t).0 + parse_events(parse_events(t).1 + u).0,
            parse_events(parse_events(t).1 + u).1,
        ),
    decreases t.len(),
{
    lemma_next_event_bounds(t);
    match next_event(t) {
        None => {
            assert(parse_events(t).0 + parse_events(t + u).0 =~= parse_events(t + u).0);
        },
        Some((ev, n)) => {
            lemma_next_event_extend(t, u);
            assert((t + u).skip(n) =~= t.skip(n) + u);
            lemma_parse_events_split(t.skip(n), u);
            let r = parse_events(t.skip(n)).1;
            assert(seq![ev] + (parse_events(t.skip(n)).0 + parse_events(r + u).0) =~= (seq![ev]
                + parse_events(t.skip(n)).0) + parse_events(r + u).0);
        },
    }
}

/// What reading leaves holds no complete event.
pub proof fn lemma_parse_events_rest(s: Seq<char>)
    ensures
        next_event(parse_events(s).1) is None,
    decreases s.len(),
{
    lemma_next_event_bounds(s);
    if let Some((ev, n)) = next_event(s) {
        lemma_parse_events_rest(s.skip(n));
    }
}

/// Text given in `pieces`, each read after the rest that the reading before
/// it left, starting from `rest`: the events found, and what is left.
pub open spec fn feed(rest: Seq<char>, pieces: Seq<Seq<char>>) -> (Seq<Seq<Line>>, Seq<char>)
    decreases pieces.len(),
{
    if pieces.len() == 0 {
        (seq![], rest)
    } else {
        let first = parse_events(rest + pieces[0]);
        let others = feed(first.1, pieces.drop_first());
        (first.0 + others.0, others.1)
    }
}

/// However text is cut into pieces, reading them one after another gives the
/// same events, and the same rest, as reading it whole.
pub proof fn lemma_feed_pieces(pieces: Seq<Seq<char>>)
    ensures
        feed(seq![], pieces) == parse_events(pieces.flatten()),
{
    lemma_eol_index_bounds(Seq::<char>::empty(), 0);
    lemma_feed_after(seq![], pieces);
    assert(Seq::<char>::empty() + pieces.flatten() =~= pieces.flatten());
}

proof fn lemma_feed_after(rest: Seq<char>, pieces: Seq<Seq<char>>)
    requires
        next_event(rest) is None,
    ensures
        feed(rest, pieces) == parse_events(rest + pieces.flatten()),
    decreases pieces.len(),
{
    if pieces.len() == 0 {
        assert(rest + pieces.flatten() =~= rest);
    } else {
        let f = pieces.drop_first().flatten();
        assert(rest + pieces.flatten() =~= (rest + pieces[0]) + f);
        lemma_parse_events_split(rest + pieces[0], f);
        lemma_parse_events_rest(rest + pieces[0]);
        lemma_feed_after(parse_events(rest + pieces[0]).1, pieces.drop_first());
    }
}


pub open spec fn no_eol(s: Seq<char>) -> bool {
    forall|k: int| 0 <= k < s.len() ==> !is_eol_char(#[trigger] s[k])
}

/// A line that text can carry: no line breaks, and a field name that is not
/// empty and holds no colon.
pub open spec fn line_wf(x: Line) -> bool {
    match x {
        Line::Comment(c) => no_eol(c),
        Line::Field(n, v) => {
            &&& n.len() > 0
            &&& no_eol(n)
            &&& forall|k: int| 0 <= k < n.len() ==> #[trigger] n[k] != ':'
            &&& v matches Some(w) ==> no_eol(w)
        },
    }
}

/// The text of a line, without its terminator.
pub open spec fn line_text(x: Line) -> Seq<char> {
    match x {
        Line::Comment(c) => seq![':'] + c,
        Line::Field(n, None) => n,
        Line::Field(n, Some(v)) => n + seq![':', ' '] + v,
    }
}

/// The text of an event's lines, each ended by a line feed.
pub open spec fn render_lines(ls: Seq<Line>) -> Seq<char>
    decreases ls.len(),
{
    if ls.len() == 0 {
        seq![]
    } else {
        line_text(ls[0]) + seq!['\n'] + render_lines(ls.drop_first())
    }
}

/// The text of an event: its lines, then a blank line.
pub open spec fn render_event(ls: Seq<Line>) -> Seq<char> {
    render_lines(ls) + seq!['\n']
}

proof fn lemma_line_text(x: Line, rest: Seq<char>)
    requires
        line_wf(x),
    ensures
        next_line(line_text(x) + seq!['\n'] + rest) == Some(
            (line_text(x), line_text(x).len() as int + 1),
        ),
        line_text(x).len() > 0,
        classify(line_text(x)) == x,
{
    let l = line_text(x);
    let s = l + seq!['\n'] + rest;
    match x {
        Line::Comment(c) => {
            assert(l.skip(1) =~= c);
        },
        Line::Field(n, v) => {
            lemma_colon_index_at(l, 0, n.len() as int);
            assert(l.take(n.len() as int) =~= n);
            if let Some(w) = v {
                assert(l.skip(n.len() as int + 1) =~= seq![' '] + w);
                assert((seq![' '] + w).skip(1) =~= w);
            }
        },
    }
    assert(no_eol(l)) by {
        assert forall|k: int| 0 <= k < l.len() implies !is_eol_char(#[trigger] l[k]) by {
            match x {
                Line::Comment(c) => {
                    if k > 0 {
                        assert(l[k] == c[k - 1]);
                    }
                },
                Line::Field(n, v) => {
                    if k >= n.len() + 2 {
                        if let Some(w) = v {
                            assert(l[k] == w[k - n.len() - 2]);
                        }
                    }
                },
            }
        }
    }
    lemma_eol_index_at(s, 0, l.len() as int);
    assert(s.take(l.len() as int) =~= l);
}

proof fn lemma_render_lines(ls: Seq<Line>, rest: Seq<char>)
    requires
        forall|i: int| 0 <= i < ls.len() ==> line_wf(#[trigger] ls[i]),
    ensures
        next_event(render_lines(ls) + seq!['\n'] + rest) == Some(
            (ls, render_lines(ls).len() as int + 1),
        ),
    decreases ls.len(),
{
    let s = render_lines(ls) + seq!['\n'] + rest;
    if ls.len() == 0 {
        assert(s =~= seq!['\n'] + rest);
        lemma_eol_index_at(s, 0, 0);
        assert(s.take(0) =~= Seq::<char>::empty());
    } else {
        let x = ls[0];
        let tail = render_lines(ls.drop_first()) + seq!['\n'] + rest;
        assert(s =~= line_text(x) + seq!['\n'] + tail);
        lemma_line_text(x, tail);
        assert(s.skip(line_text(x).len() as int + 1) =~= tail);
        lemma_render_lines(ls.drop_first(), rest);
        assert(seq![x] + ls.drop_first() =~= ls);
    }
}

/// An event written out as text is read back as exactly that event, however
/// the text is cut into pieces.
pub proof fn lemma_round_trip(ls: Seq<Line>, pieces: Seq<Seq<char>>)
    requires
        forall|i: int| 0 <= i < ls.len() ==> line_wf(#[trigger] ls[i]),
        pieces.flatten() == render_event(ls),
    ensures
        feed(seq![], pieces) == (seq![ls], Seq::<char>::empty()),
{
    let s = render_event(ls);
    lemma_render_lines(ls, seq![]);
    assert(render_lines(ls) + seq!['\n'] + Seq::<char>::empty() =~= s);
    lemma_next_event_bounds(s);
    assert(s.skip(s.len() as int) =~= Seq::<char>::empty());
    lemma_eol_index_bounds(Seq::<char>::empty(), 0);
    assert(next_line(Seq::<char>::empty()) is None);
    assert(parse_events(Seq::<char>::empty()) == (Seq::<Seq<Line>>::empty(), Seq::<char>::empty()));
    assert(seq![ls] + Seq::<Seq<Line>>::empty() =~= seq![ls]);
    assert(parse_events(s) == (seq![ls], Seq::<char>::empty()));
    lemma_feed_pieces(pieces);
}

/// A field whose colon ends the line has an empty value; a field without a
/// colon has none.
pub proof fn lemma_field_values(n: Seq<char>)
    requires
        n.len() > 0,
        forall|k: int| 0 <= k < n.len() ==> #[trigger] n[k] != ':',
    ensures
        classify(n + seq![':']) == Line::Field(n, Some(Seq::<char>::empty())),
        classify(n) == Line::Field(n, None),
{
    let l = n + seq![':'];
    lemma_colon_index_at(l, 0, n.len() as int);
    lemma_colon_index_at(n, 0, n.len() as int);
    assert(l.take(n.len() as int) =~= n);
    assert(l.skip(n.len() as int + 1) =~= Seq::<char>::empty());
    assert(l[0] == n[0]);
}

} // verus!
