//! Streams rows out of a relational dump table.
//!
//! A dump is one large text artifact: a preamble, then a literal marker
//! introducing the value-tuple list, then the tuples themselves. The
//! scanner skips to the marker, then reads fixed-size chunks and extracts
//! every non-overlapping row match in order. A row may straddle two chunks;
//! when a chunk held at least one match, the cursor is repositioned to just
//! after the last matched row so the unmatched tail is rescanned with the
//! next chunk, and a straddling row is extracted exactly once. Rows longer
//! than one chunk are an accepted limitation of the fixed, short row
//! schemas.
//!
//! Three row grammars cover the three tables, all in the article namespace
//! (a literal `0` in the namespace field):
//! page `(id,0,'title',fields)`, link target `(id,0,'title')`, and page
//! link `(from,0,target)`. An identifier is a digit run whose value fits
//! 32 bits; a title is any bytes with backslash escapes, closed by an
//! unescaped quote; the trailing fields of a page row are a non-empty run
//! of word, digit, dot, comma or quote bytes.

use vstd::prelude::*;

verus! {

pub const LPAREN: u8 = 40;

pub const RPAREN: u8 = 41;

pub const COMMA: u8 = 44;

pub const QUOTE: u8 = 39;

pub const BACKSLASH: u8 = 92;

/// Which of the three dump tables' rows to match.
#[derive(Clone, Copy, Debug)]
pub enum RowPattern {
    Page,
    LinkTarget,
    PageLink,
}

/// One matched row: the captured fields of a tuple.
#[derive(Debug, PartialEq, Eq)]
pub enum Row {
    Page { id: u32, title: Vec<u8> },
    LinkTarget { id: u32, title: Vec<u8> },
    PageLink { from: u32, target: u32 },
}

/// The mathematical value of a matched row.
pub enum RowV {
    Page { id: u32, title: Seq<u8> },
    LinkTarget { id: u32, title: Seq<u8> },
    PageLink { from: u32, target: u32 },
}

impl View for Row {
    type V = RowV;

    open spec fn view(&self) -> RowV {
        match self {
            Row::Page { id, title } => RowV::Page { id: *id, title: title@ },
            Row::LinkTarget { id, title } => RowV::LinkTarget { id: *id, title: title@ },
            Row::PageLink { from, target } => RowV::PageLink { from: *from, target: *target },
        }
    }
}

/// The values of a sequence of matched rows.
pub open spec fn views(rs: Seq<Row>) -> Seq<RowV> {
    rs.map_values(|r: Row| r@)
}

/// A decimal digit byte.
pub open spec fn is_digit(b: u8) -> bool {
    48 <= b <= 57
}

/// A byte the trailing fields of a page row may hold: ASCII letters,
/// digits, underscore, dot, comma or quote.
pub open spec fn is_tail_char(b: u8) -> bool {
    ||| 97 <= b <= 122
    ||| 65 <= b <= 90
    ||| is_digit(b)
    ||| b == 95
    ||| b == 46
    ||| b == COMMA
    ||| b == QUOTE
}

/// The position just past the digit run starting at `i`.
pub open spec fn digits_end(s: Seq<u8>, i: int, limit: int) -> int
    decreases limit - i when i <= limit
{
    if i < limit && is_digit(s[i]) {
        digits_end(s, i + 1, limit)
    } else {
        i
    }
}

/// The position just past the tail-character run starting at `i`.
pub open spec fn tail_end(s: Seq<u8>, i: int, limit: int) -> int
    decreases limit - i when i <= limit
{
    if i < limit && is_tail_char(s[i]) {
        tail_end(s, i + 1, limit)
    } else {
        i
    }
}

/// The position at which the title starting at `i` stops: at the first
/// unescaped quote, at a trailing lone backslash, or at the end. A
/// backslash escapes the byte after it.
pub open spec fn title_stop(s: Seq<u8>, i: int, limit: int) -> int
    decreases limit - i when i <= limit
{
    if i < limit {
        if s[i] == BACKSLASH {
            if i + 1 < limit {
                title_stop(s, i + 2, limit)
            } else {
                i
            }
        } else if s[i] != QUOTE {
            title_stop(s, i + 1, limit)
        } else {
            i
        }
    } else {
        i
    }
}

/// The decimal value of the digits in `s[i..j]`.
pub open spec fn digits_val(s: Seq<u8>, i: int, j: int) -> int
    decreases j - i,
{
    if j <= i {
        0
    } else {
        digits_val(s, i, j - 1) * 10 + (s[j - 1] - 48)
    }
}

/// Matches `(` digits `,0,` and yields the digits' value and the position
/// after the second comma. The value must fit 32 bits.
pub open spec fn parse_prefix(s: Seq<u8>, i: int, limit: int) -> Option<(u32, int)> {
    if !(0 <= i && i < limit && limit <= s.len() && s[i] == LPAREN) {
        None
    } else {
        let de = digits_end(s, i + 1, limit);
        if de == i + 1 {
            None
        } else if digits_val(s, i + 1, de) > u32::MAX {
            None
        } else if !(de + 3 <= limit && s[de] == COMMA && s[de + 1] == 48 && s[de + 2] == COMMA) {
            None
        } else {
            Some((digits_val(s, i + 1, de) as u32, de + 3))
        }
    }
}

/// Matches `'title'` at `p` and yields the title bytes and the position
/// after the closing quote.
pub open spec fn parse_title(s: Seq<u8>, p: int, limit: int) -> Option<(Seq<u8>, int)> {
    if !(p < limit && s[p] == QUOTE) {
        None
    } else {
        let te = title_stop(s, p + 1, limit);
        if !(te < limit && s[te] == QUOTE) {
            None
        } else {
            Some((s.subrange(p + 1, te), te + 1))
        }
    }
}

/// Matches one whole row of the pattern at `i`, yielding its value and the
/// position just past its closing parenthesis.
pub open spec fn spec_row_at(pat: RowPattern, s: Seq<u8>, i: int, limit: int) -> Option<
    (RowV, int),
> {
    match parse_prefix(s, i, limit) {
        None => None,
        Some((id, p)) => match pat {
            RowPattern::Page => match parse_title(s, p, limit) {
                None => None,
                Some((title, q)) => if !(q < limit && s[q] == COMMA) {
                    None
                } else {
                    let we = tail_end(s, q + 1, limit);
                    if we == q + 1 || !(we < limit && s[we] == RPAREN) {
                        None
                    } else {
                        Some((RowV::Page { id, title }, we + 1))
                    }
                },
            },
            RowPattern::LinkTarget => match parse_title(s, p, limit) {
                None => None,
                Some((title, q)) => if !(q < limit && s[q] == RPAREN) {
                    None
                } else {
                    Some((RowV::LinkTarget { id, title }, q + 1))
                },
            },
            RowPattern::PageLink => {
                let de = digits_end(s, p, limit);
                if de == p || digits_val(s, p, de) > u32::MAX {
                    None
                } else if !(de < limit && s[de] == RPAREN) {
                    None
                } else {
                    Some((RowV::PageLink { from: id, target: digits_val(s, p, de) as u32 }, de + 1))
                }
            },
        },
    }
}

/// A match always lies between its start and the scan limit.
pub proof fn lemma_row_at_bounds(pat: RowPattern, s: Seq<u8>, i: int, limit: int)
    ensures
        spec_row_at(pat, s, i, limit) matches Some(t) ==> i < t.1 <= limit,
{
    if spec_row_at(pat, s, i, limit) is Some {
        lemma_digits_end_bounds(s, i + 1, limit);
        let p = (parse_prefix(s, i, limit)->Some_0).1;
        lemma_title_stop_bounds(s, p + 1, limit);
        lemma_digits_end_bounds(s, p, limit);
        match pat {
            RowPattern::Page => {
                let q = (parse_title(s, p, limit)->Some_0).1;
                lemma_tail_end_bounds(s, q + 1, limit);
            },
            RowPattern::LinkTarget => {},
            RowPattern::PageLink => {},
        }
    }
}

/// A digit run neither moves backward nor passes the limit.
pub proof fn lemma_digits_end_bounds(s: Seq<u8>, i: int, limit: int)
    requires
        i <= limit,
    ensures
        i <= digits_end(s, i, limit) <= limit,
    decreases limit - i,
{
    if i < limit && is_digit(s[i]) {
        lemma_digits_end_bounds(s, i + 1, limit);
    }
}

/// A tail run neither moves backward nor passes the limit.
pub proof fn lemma_tail_end_bounds(s: Seq<u8>, i: int, limit: int)
    requires
        i <= limit,
    ensures
        i <= tail_end(s, i, limit) <= limit,
    decreases limit - i,
{
    if i < limit && is_tail_char(s[i]) {
        lemma_tail_end_bounds(s, i + 1, limit);
    }
}

/// A title stop neither moves backward nor passes the limit.
pub proof fn lemma_title_stop_bounds(s: Seq<u8>, i: int, limit: int)
    requires
        i <= limit,
    ensures
        i <= title_stop(s, i, limit) <= limit,
    decreases limit - i,
{
    if i < limit {
        if s[i] == BACKSLASH {
            if i + 1 < limit {
                lemma_title_stop_bounds(s, i + 2, limit);
            }
        } else if s[i] != QUOTE {
            lemma_title_stop_bounds(s, i + 1, limit);
        }
    }
}

/// All non-overlapping row matches of the pattern in `s[i..limit]`, in
/// order: the scan tries each position left to right and continues just
/// past each match it finds.
pub open spec fn scan_from(pat: RowPattern, s: Seq<u8>, i: int, limit: int) -> Seq<RowV>
    decreases limit - i when i <= limit
{
    if i >= limit {
        Seq::empty()
    } else {
        match spec_row_at(pat, s, i, limit) {
            Some(t) => if i < t.1 <= limit {
                seq![t.0] + scan_from(pat, s, t.1, limit)
            } else {
                seq![t.0]
            },
            None => scan_from(pat, s, i + 1, limit),
        }
    }
}

/// The cursor position after scanning `s[i..limit]`: the end of the last
/// match found, or `last` if the region holds no match.
pub open spec fn scan_end(pat: RowPattern, s: Seq<u8>, i: int, limit: int, last: int) -> int
    decreases limit - i when i <= limit
{
    if i >= limit {
        last
    } else {
        match spec_row_at(pat, s, i, limit) {
            Some(t) => if i < t.1 <= limit {
                scan_end(pat, s, t.1, limit, t.1)
            } else {
                t.1
            },
            None => scan_end(pat, s, i + 1, limit, last),
        }
    }
}

/// The cursor lands on `last` or just past a match within the region.
pub proof fn lemma_scan_end_bounds(pat: RowPattern, s: Seq<u8>, i: int, limit: int, last: int)
    requires
        0 <= i <= limit <= s.len(),
    ensures
        scan_end(pat, s, i, limit, last) == last || i < scan_end(pat, s, i, limit, last) <= limit,
    decreases limit - i,
{
    if i < limit {
        lemma_row_at_bounds(pat, s, i, limit);
        match spec_row_at(pat, s, i, limit) {
            Some(t) => {
                lemma_scan_end_bounds(pat, s, t.1, limit, t.1);
            },
            None => {
                lemma_scan_end_bounds(pat, s, i + 1, limit, last);
            },
        }
    }
}

/// Everything the chunked pass extracts from `s`, starting the cursor at
/// `pos`: each chunk's matches in order, with the cursor repositioned to
/// the end of a chunk's last match — or to the chunk's end when it held no
/// match — before the next chunk is scanned. A final short chunk ends the
/// pass.
pub open spec fn scan_chunks(pat: RowPattern, s: Seq<u8>, pos: int, chunk: int) -> Seq<RowV>
    decreases s.len() - pos when 0 <= pos <= s.len() && chunk >= 1
{
    if pos >= s.len() {
        Seq::empty()
    } else {
        let read = if s.len() - pos < chunk {
            s.len() - pos
        } else {
            chunk
        };
        let hi = pos + read;
        let rows = scan_from(pat, s, pos, hi);
        if read < chunk {
            rows
        } else {
            let newpos = scan_end(pat, s, pos, hi, hi);
            if pos < newpos <= s.len() {
                rows + scan_chunks(pat, s, newpos, chunk)
            } else {
                rows
            }
        }
    }
}

/// The six marker bytes introducing the value-tuple list stand at `i`.
pub open spec fn marker_at(s: Seq<u8>, i: int) -> bool {
    &&& s[i] == 86
    &&& s[i + 1] == 65
    &&& s[i + 2] == 76
    &&& s[i + 3] == 85
    &&& s[i + 4] == 69
    &&& s[i + 5] == 83
}

/// The first position at or after `i` where the marker stands wholly
/// before `limit`.
pub open spec fn find_marker(s: Seq<u8>, i: int, limit: int) -> Option<int>
    decreases limit - i when i <= limit
{
    if i + 6 > limit {
        None
    } else if marker_at(s, i) {
        Some(i)
    } else {
        find_marker(s, i + 1, limit)
    }
}

/// The initial chunk of the dump holds the value-tuple marker.
pub open spec fn has_marker(s: Seq<u8>, chunk: int) -> bool {
    find_marker(s, 0, if s.len() < chunk {
        s.len() as int
    } else {
        chunk
    }) is Some
}

/// Where the chunked scan starts: just past the marker and its trailing
/// space, clamped to the end of the dump.
pub open spec fn scan_start(s: Seq<u8>, chunk: int) -> int {
    let p = find_marker(s, 0, if s.len() < chunk {
        s.len() as int
    } else {
        chunk
    })->Some_0;
    if p + 7 > s.len() {
        s.len() as int
    } else {
        p + 7
    }
}

/// Every row the chunked scan extracts from a dump table.
pub open spec fn table_rows(pat: RowPattern, s: Seq<u8>, chunk: int) -> Seq<RowV> {
    scan_chunks(pat, s, scan_start(s, chunk), chunk)
}

/// The dump held no value-tuple marker in its initial chunk.
#[derive(Debug, PartialEq, Eq)]
pub struct ScanError;

/// The position just past the digit run starting at `i`.
fn digits_end_exec(s: &Vec<u8>, i: usize, limit: usize) -> (r: usize)
    requires
        i <= limit <= s@.len(),
    ensures
        r == digits_end(s@, i as int, limit as int),
        i <= r <= limit,
{
    let mut j = i;
    while j < limit && 48 <= s[j] && s[j] <= 57
        invariant
            i <= j <= limit,
            limit <= s@.len(),
            digits_end(s@, i as int, limit as int) == digits_end(s@, j as int, limit as int),
        decreases limit - j,
    {
        j += 1;
    }
    j
}

/// The position just past the tail-character run starting at `i`.
fn tail_end_exec(s: &Vec<u8>, i: usize, limit: usize) -> (r: usize)
    requires
        i <= limit <= s@.len(),
    ensures
        r == tail_end(s@, i as int, limit as int),
        i <= r <= limit,
{
    let mut j = i;
    while j < limit && tail_char(s[j])
        invariant
            i <= j <= limit,
            limit <= s@.len(),
            tail_end(s@, i as int, limit as int) == tail_end(s@, j as int, limit as int),
        decreases limit - j,
    {
        j += 1;
    }
    j
}

/// Whether a byte may stand in the trailing fields of a page row.
fn tail_char(b: u8) -> (r: bool)
    ensures
        r == is_tail_char(b),
{
    (97 <= b && b <= 122) || (65 <= b && b <= 90) || (48 <= b && b <= 57) || b == 95 || b == 46
        || b == COMMA || b == QUOTE
}

/// The position at which the title starting at `i` stops.
fn title_stop_exec(s: &Vec<u8>, i: usize, limit: usize) -> (r: usize)
    requires
        i <= limit <= s@.len(),
    ensures
        r == title_stop(s@, i as int, limit as int),
        i <= r <= limit,
{
    let mut j = i;
    loop
        invariant_except_break
            i <= j <= limit,
            limit <= s@.len(),
            title_stop(s@, i as int, limit as int) == title_stop(s@, j as int, limit as int),
        ensures
            i <= j <= limit,
            j == title_stop(s@, i as int, limit as int),
        decreases limit - j,
    {
        if j >= limit {
            break ;
        }
        let b = s[j];
        if b == BACKSLASH {
            if j + 1 < limit {
                j += 2;
            } else {
                break ;
            }
        } else if b != QUOTE {
            j += 1;
        } else {
            break ;
        }
    }
    j
}

/// Every byte of a digit run is a digit.
proof fn lemma_digits_end_digits(s: Seq<u8>, i: int, limit: int)
    requires
        i <= limit,
    ensures
        forall|q: int| i <= q < digits_end(s, i, limit) ==> is_digit(#[trigger] s[q]),
    decreases limit - i,
{
    lemma_digits_end_bounds(s, i, limit);
    if i < limit && is_digit(s[i]) {
        lemma_digits_end_digits(s, i + 1, limit);
        lemma_digits_end_bounds(s, i + 1, limit);
    }
}

/// The value of the digits in `s[i..j]`, or nothing if it does not fit
/// 32 bits.
fn digits_value_exec(s: &Vec<u8>, i: usize, j: usize) -> (r: Option<u32>)
    requires
        i <= j <= s@.len(),
        forall|q: int| i <= q < j ==> is_digit(#[trigger] s@[q]),
    ensures
        match r {
            Some(v) => digits_val(s@, i as int, j as int) == v,
            None => digits_val(s@, i as int, j as int) > u32::MAX,
        },
{
    let mut val: u64 = 0;
    let mut q = i;
    while q < j
        invariant
            i <= q <= j <= s@.len(),
            forall|t: int| i <= t < j ==> is_digit(#[trigger] s@[t]),
            val <= u32::MAX ==> val == digits_val(s@, i as int, q as int),
            val > u32::MAX ==> u32::MAX < val <= 0xffff_ffff * 10 + 9 && digits_val(
                s@,
                i as int,
                q as int,
            ) > u32::MAX,
        decreases j - q,
    {
        let d = s[q];
        proof {
            let dv = digits_val(s@, i as int, q as int);
            assert(digits_val(s@, i as int, q as int + 1) == dv * 10 + (s@[q as int] - 48));
            if dv > u32::MAX {
                assert(dv * 10 >= dv) by (nonlinear_arith)
                    requires
                        dv >= 0,
                ;
            }
        }
        if val <= 0xffff_ffff {
            val = val * 10 + (d as u64 - 48);
        }
        q += 1;
    }
    if val > 0xffff_ffff {
        None
    } else {
        Some(val as u32)
    }
}

/// Matches one whole row of the pattern at `i`, as `spec_row_at` states.
fn parse_row_at(pat: RowPattern, s: &Vec<u8>, i: usize, limit: usize) -> (r: Option<(Row, usize)>)
    requires
        i <= limit <= s@.len(),
    ensures
        match r {
            Some(t) => spec_row_at(pat, s@, i as int, limit as int) == Some((t.0@, t.1 as int))
                && i < t.1 <= limit,
            None => spec_row_at(pat, s@, i as int, limit as int) is None,
        },
{
    if i >= limit {
        return None;
    }
    if s[i] != LPAREN {
        return None;
    }
    let de = digits_end_exec(s, i + 1, limit);
    if de == i + 1 {
        return None;
    }
    proof {
        lemma_digits_end_digits(s@, i as int + 1, limit as int);
    }
    let id = match digits_value_exec(s, i + 1, de) {
        Some(v) => v,
        None => {
            return None;
        },
    };
    if limit - de < 3 {
        return None;
    }
    if s[de] != COMMA || s[de + 1] != 48 || s[de + 2] != COMMA {
        return None;
    }
    let p = de + 3;
    proof {
        assert(parse_prefix(s@, i as int, limit as int) == Some((id, p as int)));
    }
    match pat {
        RowPattern::Page => {
            let (title, q) = match parse_title_exec(s, p, limit) {
                Some(t) => t,
                None => {
                    return None;
                },
            };
            if q >= limit || s[q] != COMMA {
                return None;
            }
            let we = tail_end_exec(s, q + 1, limit);
            if we == q + 1 || we >= limit {
                return None;
            }
            if s[we] != RPAREN {
                return None;
            }
            let row = Row::Page { id, title };
            proof {
                assert(row@ == (spec_row_at(pat, s@, i as int, limit as int)->Some_0).0);
            }
            Some((row, we + 1))
        },
        RowPattern::LinkTarget => {
            let (title, q) = match parse_title_exec(s, p, limit) {
                Some(t) => t,
                None => {
                    return None;
                },
            };
            if q >= limit || s[q] != RPAREN {
                return None;
            }
            let row = Row::LinkTarget { id, title };
            proof {
                assert(row@ == (spec_row_at(pat, s@, i as int, limit as int)->Some_0).0);
            }
            Some((row, q + 1))
        },
        RowPattern::PageLink => {
            let de2 = digits_end_exec(s, p, limit);
            if de2 == p {
                return None;
            }
            proof {
                lemma_digits_end_digits(s@, p as int, limit as int);
            }
            let target = match digits_value_exec(s, p, de2) {
                Some(v) => v,
                None => {
                    return None;
                },
            };
            if de2 >= limit || s[de2] != RPAREN {
                return None;
            }
            Some((Row::PageLink { from: id, target }, de2 + 1))
        },
    }
}

/// Matches `'title'` at `p`, copying the title bytes out.
fn parse_title_exec(s: &Vec<u8>, p: usize, limit: usize) -> (r: Option<(Vec<u8>, usize)>)
    requires
        p <= limit <= s@.len(),
    ensures
        match r {
            Some(t) => parse_title(s@, p as int, limit as int) == Some((t.0@, t.1 as int)) && p
                < t.1 <= limit,
            None => parse_title(s@, p as int, limit as int) is None,
        },
{
    if p >= limit || s[p] != QUOTE {
        return None;
    }
    let te = title_stop_exec(s, p + 1, limit);
    if te >= limit {
        return None;
    }
    if s[te] != QUOTE {
        return None;
    }
    let mut title: Vec<u8> = Vec::new();
    let mut j = p + 1;
    while j < te
        invariant
            p + 1 <= j <= te <= s@.len(),
            title@.len() == j - p - 1,
            forall|q: int| 0 <= q < title@.len() ==> #[trigger] title@[q] == s@[p + 1 + q],
        decreases te - j,
    {
        title.push(s[j]);
        j += 1;
    }
    proof {
        assert(title@ =~= s@.subrange(p as int + 1, te as int));
    }
    Some((title, te + 1))
}

/// Scans `s[lo..hi]`, appending every match to `out` in order, and returns
/// the cursor: the end of the last match, or `last` if none was found.
fn scan_region(
    pat: RowPattern,
    s: &Vec<u8>,
    lo: usize,
    hi: usize,
    out: &mut Vec<Row>,
    last: usize,
) -> (cursor: usize)
    requires
        lo <= hi <= s@.len(),
        last <= s@.len(),
    ensures
        views(final(out)@) == views(old(out)@) + scan_from(pat, s@, lo as int, hi as int),
        cursor as int == scan_end(pat, s@, lo as int, hi as int, last as int),
        cursor <= s@.len(),
{
    let ghost out0 = out@;
    let mut i = lo;
    let mut cur = last;
    while i < hi
        invariant
            lo <= i,
            i <= hi <= s@.len(),
            cur <= s@.len(),
            views(out@).take(views(out0).len() as int) == views(out0),
            views(out@).len() >= views(out0).len(),
            scan_from(pat, s@, lo as int, hi as int) == views(out@).skip(
                views(out0).len() as int,
            ) + scan_from(pat, s@, i as int, hi as int),
            scan_end(pat, s@, lo as int, hi as int, last as int) == scan_end(
                pat,
                s@,
                i as int,
                hi as int,
                cur as int,
            ),
        decreases hi - i,
    {
        match parse_row_at(pat, s, i, hi) {
            Some((row, e)) => {
                let ghost prev = views(out@);
                let ghost taken = views(out@).skip(views(out0).len() as int);
                out.push(row);
                proof {
                    assert(views(out@) =~= prev.push(row@));
                    assert(views(out@).take(views(out0).len() as int) =~= views(out0));
                    assert(views(out@).skip(views(out0).len() as int) =~= taken.push(row@));
                    assert(scan_from(pat, s@, i as int, hi as int) == seq![row@] + scan_from(
                        pat,
                        s@,
                        e as int,
                        hi as int,
                    ));
                    assert(taken.push(row@) + scan_from(pat, s@, e as int, hi as int) =~= taken + (
                    seq![row@] + scan_from(pat, s@, e as int, hi as int)));
                }
                cur = e;
                i = e;
            },
            None => {
                i += 1;
            },
        }
    }
    proof {
        assert(scan_from(pat, s@, i as int, hi as int) =~= Seq::<RowV>::empty());
        assert(views(out@).skip(views(out0).len() as int) + Seq::<RowV>::empty() =~= views(
            out@,
        ).skip(views(out0).len() as int));
        assert(views(out@) =~= views(out0) + views(out@).skip(views(out0).len() as int));
    }
    cur
}

/// Finds the value-tuple marker in `s[..limit]`.
fn find_marker_exec(s: &Vec<u8>, limit: usize) -> (r: Option<usize>)
    requires
        limit <= s@.len(),
    ensures
        match r {
            Some(p) => find_marker(s@, 0, limit as int) == Some(p as int) && p + 6 <= limit,
            None => find_marker(s@, 0, limit as int) is None,
        },
{
    let mut i: usize = 0;
    while limit - i >= 6
        invariant
            i <= limit <= s@.len(),
            limit - i < 6 || i + 6 <= limit,
            find_marker(s@, 0, limit as int) == find_marker(s@, i as int, limit as int),
        decreases limit - i,
    {
        if s[i] == 86 && s[i + 1] == 65 && s[i + 2] == 76 && s[i + 3] == 85 && s[i + 4] == 69
            && s[i + 5] == 83 {
            return Some(i);
        }
        i += 1;
    }
    None
}

/// Extracts every row of the pattern from a dump table's bytes.
///
/// The scan starts just past the value-tuple marker, which must stand in
/// the initial chunk, and proceeds chunk by chunk as `scan_chunks` states;
/// a missing marker is a format error. `chunk_size` is the fixed read size;
/// rows longer than one chunk are not extracted.
pub fn parse_sql_file(file: &Vec<u8>, pattern: RowPattern, chunk_size: usize) -> (r: Result<
    Vec<Row>,
    ScanError,
>)
    requires
        chunk_size >= 1,
    ensures
        match r {
            Ok(rows) => has_marker(file@, chunk_size as int) && views(rows@) == table_rows(
                pattern,
                file@,
                chunk_size as int,
            ),
            Err(e) => !has_marker(file@, chunk_size as int),
        },
{
    let len = file.len();
    let first_limit = if len < chunk_size {
        len
    } else {
        chunk_size
    };
    let marker = match find_marker_exec(file, first_limit) {
        Some(p) => p,
        None => {
            return Err(ScanError);
        },
    };
    let start = if len - marker < 7 {
        len
    } else {
        marker + 7
    };
    let ghost start0 = start as int;
    let mut rows: Vec<Row> = Vec::new();
    let mut pos = start;
    loop
        invariant_except_break
            chunk_size >= 1,
            len == file@.len(),
            pos <= len,
            start0 <= len,
            views(rows@) + scan_chunks(pattern, file@, pos as int, chunk_size as int)
                == scan_chunks(pattern, file@, start0, chunk_size as int),
        ensures
            views(rows@) == scan_chunks(pattern, file@, start0, chunk_size as int),
        decreases len - pos,
    {
        let read = if len - pos < chunk_size {
            len - pos
        } else {
            chunk_size
        };
        let hi = pos + read;
        let ghost before = views(rows@);
        let cursor = scan_region(pattern, file, pos, hi, &mut rows, hi);
        proof {
            lemma_scan_end_bounds(pattern, file@, pos as int, hi as int, hi as int);
        }
        if read < chunk_size {
            proof {
                if pos < len {
                    assert(scan_chunks(pattern, file@, pos as int, chunk_size as int)
                        == scan_from(pattern, file@, pos as int, hi as int));
                } else {
                    assert(scan_chunks(pattern, file@, pos as int, chunk_size as int) =~= Seq::<
                        RowV,
                    >::empty());
                    assert(scan_from(pattern, file@, pos as int, hi as int) =~= Seq::<
                        RowV,
                    >::empty());
                }
                assert(views(rows@) =~= before + scan_from(pattern, file@, pos as int, hi as int));
                assert(before + scan_chunks(pattern, file@, pos as int, chunk_size as int) =~=
                views(rows@));
            }
            break ;
        }
        proof {
            assert(pos < len);
            assert(scan_chunks(pattern, file@, pos as int, chunk_size as int) == scan_from(
                pattern,
                file@,
                pos as int,
                hi as int,
            ) + scan_chunks(pattern, file@, cursor as int, chunk_size as int));
            assert(views(rows@) =~= before + scan_from(pattern, file@, pos as int, hi as int));
            assert((before + scan_from(pattern, file@, pos as int, hi as int)) + scan_chunks(
                pattern,
                file@,
                cursor as int,
                chunk_size as int,
            ) =~= before + (scan_from(pattern, file@, pos as int, hi as int) + scan_chunks(
                pattern,
                file@,
                cursor as int,
                chunk_size as int,
            )));
        }
        pos = cursor;
    }
    Ok(rows)
}

/// A chunk that covers the whole rest of the dump makes the chunked pass a
/// single whole-input scan.
pub proof fn lemma_single_chunk_scan(pat: RowPattern, s: Seq<u8>, pos: int, chunk: int)
    requires
        0 <= pos <= s.len(),
        chunk > s.len() - pos,
    ensures
        scan_chunks(pat, s, pos, chunk) == scan_from(pat, s, pos, s.len() as int),
{
    if pos >= s.len() {
        assert(scan_from(pat, s, pos, s.len() as int) =~= Seq::<RowV>::empty());
    }
}

/// A run under a nearer limit is the same run clipped at that limit.
proof fn lemma_digits_end_clip(s: Seq<u8>, i: int, l1: int, l2: int)
    requires
        i <= l1 <= l2,
    ensures
        digits_end(s, i, l1) == (if digits_end(s, i, l2) < l1 {
            digits_end(s, i, l2)
        } else {
            l1
        }),
    decreases l1 - i,
{
    lemma_digits_end_bounds(s, i, l2);
    if i < l1 && is_digit(s[i]) {
        lemma_digits_end_clip(s, i + 1, l1, l2);
    }
}

/// A run under a nearer limit is the same run clipped at that limit.
proof fn lemma_tail_end_clip(s: Seq<u8>, i: int, l1: int, l2: int)
    requires
        i <= l1 <= l2,
    ensures
        tail_end(s, i, l1) == (if tail_end(s, i, l2) < l1 {
            tail_end(s, i, l2)
        } else {
            l1
        }),
    decreases l1 - i,
{
    lemma_tail_end_bounds(s, i, l2);
    if i < l1 && is_tail_char(s[i]) {
        lemma_tail_end_clip(s, i + 1, l1, l2);
    }
}

/// A title closed by a quote under the nearer limit closes identically
/// under the farther one.
proof fn lemma_title_stop_up(s: Seq<u8>, i: int, l1: int, l2: int)
    requires
        i <= l1 <= l2 <= s.len(),
        title_stop(s, i, l1) < l1,
        s[title_stop(s, i, l1)] == QUOTE,
    ensures
        title_stop(s, i, l2) == title_stop(s, i, l1),
    decreases l1 - i,
{
    if i < l1 {
        if s[i] == BACKSLASH {
            if i + 1 < l1 {
                lemma_title_stop_up(s, i + 2, l1, l2);
            }
        } else if s[i] != QUOTE {
            lemma_title_stop_up(s, i + 1, l1, l2);
        }
    }
}

/// A title closed by a quote before the nearer limit closes identically
/// under it.
proof fn lemma_title_stop_down(s: Seq<u8>, i: int, l1: int, l2: int)
    requires
        i <= l1 <= l2 <= s.len(),
        title_stop(s, i, l2) < l1,
        s[title_stop(s, i, l2)] == QUOTE,
    ensures
        title_stop(s, i, l1) == title_stop(s, i, l2),
    decreases l1 - i,
{
    if i < l2 {
        if s[i] == BACKSLASH {
            if i + 1 < l2 {
                lemma_title_stop_bounds(s, i + 2, l2);
                lemma_title_stop_down(s, i + 2, l1, l2);
            }
        } else if s[i] != QUOTE {
            lemma_title_stop_bounds(s, i + 1, l2);
            lemma_title_stop_down(s, i + 1, l1, l2);
        }
    }
}

/// A row matched under a nearer limit matches identically under a farther
/// one.
proof fn lemma_row_at_up(pat: RowPattern, s: Seq<u8>, i: int, l1: int, l2: int)
    requires
        l1 <= l2 <= s.len(),
        spec_row_at(pat, s, i, l1) is Some,
    ensures
        spec_row_at(pat, s, i, l2) == spec_row_at(pat, s, i, l1),
{
    let de = digits_end(s, i + 1, l1);
    lemma_digits_end_clip(s, i + 1, l1, l2);
    assert(de < l1);
    let p = de + 3;
    match pat {
        RowPattern::Page => {
            let te = title_stop(s, p + 1, l1);
            lemma_title_stop_up(s, p + 1, l1, l2);
            let q = te + 1;
            let we = tail_end(s, q + 1, l1);
            lemma_tail_end_clip(s, q + 1, l1, l2);
            assert(we < l1);
        },
        RowPattern::LinkTarget => {
            let te = title_stop(s, p + 1, l1);
            lemma_title_stop_up(s, p + 1, l1, l2);
        },
        RowPattern::PageLink => {
            let de2 = digits_end(s, p, l1);
            lemma_digits_end_clip(s, p, l1, l2);
            assert(de2 < l1);
        },
    }
}

/// A row matched wholly before a nearer limit matches identically under it.
proof fn lemma_row_at_down(pat: RowPattern, s: Seq<u8>, i: int, l1: int, l2: int)
    requires
        l1 <= l2 <= s.len(),
        spec_row_at(pat, s, i, l2) matches Some(t) && t.1 <= l1,
    ensures
        spec_row_at(pat, s, i, l1) == spec_row_at(pat, s, i, l2),
{
    let t = spec_row_at(pat, s, i, l2)->Some_0;
    lemma_row_at_bounds(pat, s, i, l2);
    let de = digits_end(s, i + 1, l2);
    lemma_digits_end_bounds(s, i + 1, l2);
    let p = de + 3;
    match pat {
        RowPattern::Page => {
            let te = title_stop(s, p + 1, l2);
            lemma_title_stop_bounds(s, p + 1, l2);
            let q = te + 1;
            let we = tail_end(s, q + 1, l2);
            lemma_tail_end_bounds(s, q + 1, l2);
            assert(t.1 == we + 1);
            assert(de + 3 <= t.1 - 5);
            lemma_digits_end_clip(s, i + 1, l1, l2);
            assert(te < l1);
            lemma_title_stop_down(s, p + 1, l1, l2);
            assert(we < l1);
            lemma_tail_end_clip(s, q + 1, l1, l2);
        },
        RowPattern::LinkTarget => {
            let te = title_stop(s, p + 1, l2);
            lemma_title_stop_bounds(s, p + 1, l2);
            assert(t.1 == te + 2);
            assert(de + 3 <= t.1 - 2);
            lemma_digits_end_clip(s, i + 1, l1, l2);
            assert(te < l1);
            lemma_title_stop_down(s, p + 1, l1, l2);
        },
        RowPattern::PageLink => {
            let de2 = digits_end(s, p, l2);
            lemma_digits_end_bounds(s, p, l2);
            assert(t.1 == de2 + 1);
            assert(de + 3 <= t.1 - 1);
            lemma_digits_end_clip(s, i + 1, l1, l2);
            assert(de2 < l1);
            lemma_digits_end_clip(s, p, l1, l2);
        },
    }
}

/// Every row the whole-input scan would take from cursor `i` on ends
/// within the open window, and each later row within one chunk of the row
/// before it. This is the density a chunked pass needs: a chunk read from
/// the cursor always covers the next whole row.
pub open spec fn fits_from(
    pat: RowPattern,
    s: Seq<u8>,
    i: int,
    w: int,
    chunk: int,
) -> bool
    decreases s.len() - i when i <= s.len()
{
    if i >= s.len() {
        true
    } else {
        match spec_row_at(pat, s, i, s.len() as int) {
            Some(t) => t.1 <= w && (i < t.1 <= s.len() ==> fits_from(
                pat,
                s,
                t.1,
                t.1 + chunk,
                chunk,
            )),
            None => fits_from(pat, s, i + 1, w, chunk),
        }
    }
}

/// No row of the input starts strictly inside another row's span.
pub open spec fn no_inner_matches(pat: RowPattern, s: Seq<u8>) -> bool {
    forall|q: int, p: int|
        #![trigger spec_row_at(pat, s, q, s.len() as int), spec_row_at(pat, s, p, s.len() as int)]
        (spec_row_at(pat, s, q, s.len() as int) matches Some(t) && q < p < t.1)
            ==> spec_row_at(pat, s, p, s.len() as int) is None
}

/// A wider window keeps the density condition.
proof fn lemma_fits_weaken(pat: RowPattern, s: Seq<u8>, i: int, w1: int, w2: int, chunk: int)
    requires
        0 <= i <= s.len(),
        w1 <= w2,
        fits_from(pat, s, i, w1, chunk),
    ensures
        fits_from(pat, s, i, w2, chunk),
    decreases s.len() - i,
{
    if i < s.len() {
        match spec_row_at(pat, s, i, s.len() as int) {
            Some(t) => {},
            None => {
                lemma_fits_weaken(pat, s, i + 1, w1, w2, chunk);
            },
        }
    }
}

/// A region without whole-input matches contributes nothing to the scan.
proof fn lemma_none_region_scan(pat: RowPattern, s: Seq<u8>, a: int, b: int)
    requires
        0 <= a <= b <= s.len(),
        forall|q: int| a <= q < b ==> spec_row_at(pat, s, q, s.len() as int) is None,
    ensures
        scan_from(pat, s, a, s.len() as int) == scan_from(pat, s, b, s.len() as int),
    decreases b - a,
{
    if a < b {
        lemma_none_region_scan(pat, s, a + 1, b);
    }
}

/// A chunk region without local matches yields no rows and leaves the
/// cursor at its fallback.
proof fn lemma_none_region_chunk(pat: RowPattern, s: Seq<u8>, p: int, hi: int, last: int)
    requires
        0 <= p <= hi <= s.len(),
        forall|q: int| p <= q < hi ==> spec_row_at(pat, s, q, hi) is None,
    ensures
        scan_from(pat, s, p, hi) == Seq::<RowV>::empty(),
        scan_end(pat, s, p, hi, last) == last,
    decreases hi - p,
{
    if p < hi {
        lemma_none_region_chunk(pat, s, p + 1, hi, last);
    }
}

/// One chunk of the pass, walked position by position: the rows it finds
/// are exactly the whole-input rows of its region, and the rest of the
/// whole-input scan continues at the repositioned cursor.
proof fn lemma_chunk_walk(
    pat: RowPattern,
    s: Seq<u8>,
    i: int,
    hi: int,
    last: int,
    w: int,
    chunk: int,
)
    requires
        0 <= i <= hi <= s.len(),
        chunk >= 1,
        hi <= w,
        hi <= i + chunk,
        no_inner_matches(pat, s),
        fits_from(pat, s, i, w, chunk),
        (w == hi && last == hi) || (0 <= last <= i && w == last + chunk && fits_from(
            pat,
            s,
            last,
            last + chunk,
            chunk,
        )),
        forall|q: int| last <= q < i ==> spec_row_at(pat, s, q, s.len() as int) is None,
    ensures
        scan_from(pat, s, i, s.len() as int) == scan_from(pat, s, i, hi) + scan_from(
            pat,
            s,
            scan_end(pat, s, i, hi, last),
            s.len() as int,
        ),
        ({
            let c = scan_end(pat, s, i, hi, last);
            &&& 0 <= c <= s.len()
            &&& (c == last || i < c <= hi)
            &&& fits_from(pat, s, c, c + chunk, chunk)
        }),
    decreases hi - i,
{
    let len = s.len() as int;
    if i >= hi {
        assert(scan_from(pat, s, i, hi) == Seq::<RowV>::empty());
        assert(scan_end(pat, s, i, hi, last) == last);
        if last == hi {
            lemma_fits_weaken(pat, s, hi, w, hi + chunk, chunk);
        } else {
            lemma_none_region_scan(pat, s, last, i);
        }
        assert(Seq::<RowV>::empty() + scan_from(pat, s, last, len) =~= scan_from(
            pat,
            s,
            last,
            len,
        ));
    } else {
        match spec_row_at(pat, s, i, hi) {
            Some(t) => {
                lemma_row_at_bounds(pat, s, i, hi);
                lemma_row_at_up(pat, s, i, hi, len);
                assert(spec_row_at(pat, s, i, len) == Some(t));
                assert(t.1 <= w && fits_from(pat, s, t.1, t.1 + chunk, chunk));
                lemma_chunk_walk(pat, s, t.1, hi, t.1, t.1 + chunk, chunk);
                let c = scan_end(pat, s, t.1, hi, t.1);
                assert(scan_end(pat, s, i, hi, last) == c);
                assert(scan_from(pat, s, i, len) == seq![t.0] + scan_from(pat, s, t.1, len));
                assert(scan_from(pat, s, i, hi) == seq![t.0] + scan_from(pat, s, t.1, hi));
                assert(seq![t.0] + (scan_from(pat, s, t.1, hi) + scan_from(pat, s, c, len)) =~= (
                seq![t.0] + scan_from(pat, s, t.1, hi)) + scan_from(pat, s, c, len));
            },
            None => {
                match spec_row_at(pat, s, i, len) {
                    Some(g) => {
                        lemma_row_at_bounds(pat, s, i, len);
                        if g.1 <= hi {
                            lemma_row_at_down(pat, s, i, hi, len);
                            assert(false);
                        }
                        assert forall|q: int| i <= q < hi implies spec_row_at(
                            pat,
                            s,
                            q,
                            hi,
                        ) is None by {
                            if q > i && spec_row_at(pat, s, q, hi) is Some {
                                lemma_row_at_up(pat, s, q, hi, len);
                                assert(spec_row_at(pat, s, i, len) matches Some(t2) && i < q
                                    < t2.1);
                            }
                        }
                        lemma_none_region_chunk(pat, s, i, hi, last);
                        if last == hi {
                            assert(g.1 <= w);
                            assert(false);
                        }
                        lemma_none_region_scan(pat, s, last, i);
                        assert(Seq::<RowV>::empty() + scan_from(pat, s, i, len) =~= scan_from(
                            pat,
                            s,
                            i,
                            len,
                        ));
                    },
                    None => {
                        lemma_chunk_walk(pat, s, i + 1, hi, last, w, chunk);
                        assert(scan_from(pat, s, i, hi) == scan_from(pat, s, i + 1, hi));
                        assert(scan_end(pat, s, i, hi, last) == scan_end(pat, s, i + 1, hi, last));
                        assert(scan_from(pat, s, i, len) == scan_from(pat, s, i + 1, len));
                    },
                }
            },
        }
    }
}

/// On a dump whose rows are dense and self-contained, the chunked pass
/// extracts exactly the whole-input rows: a row straddling a chunk
/// boundary is rescanned whole with the next chunk, neither dropped nor
/// duplicated. Density means every row ends within one chunk of the row
/// before it; self-contained means no row starts inside another row's
/// span.
pub proof fn lemma_chunked_scan_complete(pat: RowPattern, s: Seq<u8>, pos: int, chunk: int)
    requires
        0 <= pos <= s.len(),
        chunk >= 1,
        no_inner_matches(pat, s),
        fits_from(pat, s, pos, pos + chunk, chunk),
    ensures
        scan_chunks(pat, s, pos, chunk) == scan_from(pat, s, pos, s.len() as int),
    decreases s.len() - pos,
{
    let len = s.len() as int;
    if pos >= len {
        assert(scan_from(pat, s, pos, len) == Seq::<RowV>::empty());
    } else if len - pos < chunk {
        assert(scan_chunks(pat, s, pos, chunk) == scan_from(pat, s, pos, len));
    } else {
        let hi = pos + chunk;
        lemma_chunk_walk(pat, s, pos, hi, hi, hi, chunk);
        let c = scan_end(pat, s, pos, hi, hi);
        assert(pos < c <= len);
        lemma_chunked_scan_complete(pat, s, c, chunk);
        assert(scan_chunks(pat, s, pos, chunk) == scan_from(pat, s, pos, hi) + scan_chunks(
            pat,
            s,
            c,
            chunk,
        ));
    }
}

} // verus!
