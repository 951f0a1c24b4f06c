//! The grammar of preload selector lists, such as
//! `"/some_field/1234/*", "/other_field/*/1234"`.

use vstd::prelude::*;
use vstd::string::StrSliceExecFns;

verus! {

/// Which items of a list a selector segment names.
#[derive(Debug, PartialEq, Clone, Copy)]
pub enum ListSegment {
    All,
    Index(u32),
}

/// One segment of a selector path: a field name, as written, or list items.
#[derive(Debug, PartialEq)]
pub enum Segment<'a> {
    Field(&'a str),
    List(ListSegment),
}

/// A selector path, such as `/some_field/1234/*`.
#[derive(Debug, PartialEq)]
pub struct Selector<'a> {
    pub segments: Vec<Segment<'a>>,
}

/// The input does not start with what was to be read.
#[derive(Debug, PartialEq)]
pub struct ParseError;

/// `Segment` with its field name taken as a character sequence.
pub enum SegmentModel {
    Field(Seq<char>),
    List(ListSegment),
}

impl<'a> View for Segment<'a> {
    type V = SegmentModel;

    open spec fn view(&self) -> SegmentModel {
        match self {
            Segment::Field(f) => SegmentModel::Field(f@),
            Segment::List(l) => SegmentModel::List(*l),
        }
    }
}

pub open spec fn segments_model<'a>(s: Seq<Segment<'a>>) -> Seq<SegmentModel> {
    s.map_values(|g: Segment<'a>| g@)
}

impl<'a> View for Selector<'a> {
    type V = Seq<SegmentModel>;

    open spec fn view(&self) -> Seq<SegmentModel> {
        segments_model(self.segments@)
    }
}

pub open spec fn selectors_model<'a>(s: Seq<Selector<'a>>) -> Seq<Seq<SegmentModel>> {
    s.map_values(|x: Selector<'a>| x@)
}

/// Whether a character is alphabetic or numeric, as `char::is_alphanumeric`
/// says.
pub uninterp spec fn char_is_alphanumeric(c: char) -> bool;

/// Relies on char::is_alphanumeric: whether the character has Unicode's
/// Alphabetic or Numeric property.
#[verifier::external_body]
fn is_alphanumeric(c: char) -> (r: bool)
    ensures
        r == char_is_alphanumeric(c),
{
    c.is_alphanumeric()
}

pub open spec fn is_field_char(c: char) -> bool {
    char_is_alphanumeric(c) || c == '_'
}

pub open spec fn is_digit(c: char) -> bool {
    '0' <= c <= '9'
}

pub open spec fn is_space(c: char) -> bool {
    c == ' ' || c == '\t' || c == '\r' || c == '\n'
}

/// `/*` at `p`: the position after it.
pub open spec fn list_all_end(s: Seq<char>, p: int) -> Option<int> {
    if 0 <= p && p + 2 <= s.len() && s[p] == '/' && s[p + 1] == '*' {
        Some(p + 2)
    } else {
        None
    }
}

/// The end of the run of decimal digits starting at `p`.
pub open spec fn digits_end(s: Seq<char>, p: int) -> int
    decreases s.len() - p,
{
    if 0 <= p < s.len() && is_digit(s[p]) {
        digits_end(s, p + 1)
    } else {
        p
    }
}

/// The number the decimal digits between `p` and `q` write.
pub open spec fn digits_value(s: Seq<char>, p: int, q: int) -> nat
    decreases q - p,
{
    if q <= p {
        0
    } else {
        digits_value(s, p, q - 1) * 10 + ((s[q - 1] as u32 - '0' as u32) as nat)
    }
}

/// `/` and a decimal number that fits in `u32` at `p`: the position after it,
/// and the number.
pub open spec fn list_index(s: Seq<char>, p: int) -> Option<(int, u32)> {
    if 0 <= p < s.len() && s[p] == '/' {
        let e = digits_end(s, p + 1);
        if e > p + 1 && digits_value(s, p + 1, e) <= u32::MAX {
            Some((e, digits_value(s, p + 1, e) as u32))
        } else {
            None
        }
    } else {
        None
    }
}

/// A list segment at `p`: `/*` for all items, else `/` and an index.
pub open spec fn list_segment(s: Seq<char>, p: int) -> Option<(int, ListSegment)> {
    match list_all_end(s, p) {
        Some(e) => Some((e, ListSegment::All)),
        None => match list_index(s, p) {
            Some(r) => Some((r.0, ListSegment::Index(r.1))),
            None => None,
        },
    }
}

/// The end of a field name that began at `start` and has reached `q`: runs of
/// letters, digits and `_`, and escapes of `"`, `n` or `\` by a backslash. It
/// stops at the first other character, and fails if that comes first, or if
/// a backslash does not start an escape.
pub open spec fn escaped_end(s: Seq<char>, start: int, q: int) -> Option<int>
    decreases s.len() - q,
{
    if q >= s.len() {
        Some(s.len() as int)
    } else if q < 0 {
        None
    } else if is_field_char(s[q]) {
        escaped_end(s, start, q + 1)
    } else if s[q] == '\\' {
        if q + 1 >= s.len() {
            None
        } else if s[q + 1] == '"' || s[q + 1] == 'n' || s[q + 1] == '\\' {
            escaped_end(s, start, q + 2)
        } else {
            None
        }
    } else if q == start {
        None
    } else {
        Some(q)
    }
}

/// A field segment at `p`: `/` and a field name, kept as written.
pub open spec fn field_segment(s: Seq<char>, p: int) -> Option<(int, Seq<char>)> {
    if 0 <= p < s.len() && s[p] == '/' {
        match escaped_end(s, p + 1, p + 1) {
            Some(e) => Some((e, s.subrange(p + 1, e))),
            None => None,
        }
    } else {
        None
    }
}

/// A segment at `p`: a list segment where one stands there, else a field.
pub open spec fn segment(s: Seq<char>, p: int) -> Option<(int, SegmentModel)> {
    match list_segment(s, p) {
        Some(r) => Some((r.0, SegmentModel::List(r.1))),
        None => match field_segment(s, p) {
            Some(r) => Some((r.0, SegmentModel::Field(r.1))),
            None => None,
        },
    }
}

/// As many segments as follow one another from `p`, and where they end.
pub open spec fn selector(s: Seq<char>, p: int) -> (int, Seq<SegmentModel>)
    decreases s.len() - p,
{
    match segment(s, p) {
        Some(r) => if p < r.0 <= s.len() {
            let rest = selector(s, r.0);
            (rest.0, seq![r.1] + rest.1)
        } else {
            (p, Seq::empty())
        },
        None => (p, Seq::empty()),
    }
}

/// A selector between double quotes at `p`.
pub open spec fn item(s: Seq<char>, p: int) -> Option<(int, Seq<SegmentModel>)> {
    if 0 <= p < s.len() && s[p] == '"' {
        let r = selector(s, p + 1);
        if 0 <= r.0 < s.len() && s[r.0] == '"' {
            Some((r.0 + 1, r.1))
        } else {
            None
        }
    } else {
        None
    }
}

/// The end of the run of blanks starting at `p`.
pub open spec fn spaces_end(s: Seq<char>, p: int) -> int
    decreases s.len() - p,
{
    if 0 <= p < s.len() && is_space(s[p]) {
        spaces_end(s, p + 1)
    } else {
        p
    }
}

/// A comma between optional blanks at `p`: the position after them.
pub open spec fn separator(s: Seq<char>, p: int) -> Option<int> {
    let q = spaces_end(s, p);
    if 0 <= q < s.len() && s[q] == ',' {
        Some(spaces_end(s, q + 1))
    } else {
        None
    }
}

/// The items that follow `p`, each after a separator, and where they end.
pub open spec fn more_items(s: Seq<char>, p: int) -> (int, Seq<Seq<SegmentModel>>)
    decreases s.len() - p,
{
    match separator(s, p) {
        None => (p, Seq::empty()),
        Some(q) => match item(s, q) {
            None => (p, Seq::empty()),
            Some(r) => if p < r.0 <= s.len() {
                let rest = more_items(s, r.0);
                (rest.0, seq![r.1] + rest.1)
            } else {
                (p, Seq::empty())
            },
        },
    }
}

/// A comma-separated list of quoted selectors at the start of `s`, possibly
/// empty, and where it ends.
pub open spec fn preload(s: Seq<char>) -> (int, Seq<Seq<SegmentModel>>) {
    match item(s, 0) {
        None => (0, Seq::empty()),
        Some(r) => if 0 < r.0 <= s.len() {
            let rest = more_items(s, r.0);
            (rest.0, seq![r.1] + rest.1)
        } else {
            (0, Seq::empty())
        },
    }
}

proof fn lemma_escaped_end(s: Seq<char>, start: int, q: int)
    requires
        0 <= start <= q <= s.len(),
    ensures
        escaped_end(s, start, q) matches Some(e) ==> q <= e <= s.len(),
    decreases s.len() - q,
{
    if q < s.len() {
        if is_field_char(s[q]) {
            lemma_escaped_end(s, start, q + 1);
        } else if s[q] == '\\' && q + 1 < s.len() {
            lemma_escaped_end(s, start, q + 2);
        }
    }
}

proof fn lemma_digits_end(s: Seq<char>, p: int)
    requires
        0 <= p,
    ensures
        p <= digits_end(s, p),
        p < s.len() ==> digits_end(s, p) <= s.len(),
        0 <= digits_end(s, p) < s.len() ==> !is_digit(s[digits_end(s, p)]),
        forall|k: int| p <= k < digits_end(s, p) ==> is_digit(#[trigger] s[k]),
    decreases s.len() - p,
{
    if 0 <= p < s.len() && is_digit(s[p]) {
        lemma_digits_end(s, p + 1);
    }
}

proof fn lemma_digits_value_grows(s: Seq<char>, p: int, q: int, r: int)
    requires
        p <= q <= r,
        forall|k: int| p <= k < r ==> is_digit(#[trigger] s[k]),
    ensures
        digits_value(s, p, q) <= digits_value(s, p, r),
    decreases r - q,
{
    if q < r {
        lemma_digits_value_grows(s, p, q, r - 1);
    }
}

fn list_all_at(s: &str, n: usize, p: usize) -> (r: Option<usize>)
    requires
        n == s@.len(),
        p <= n,
    ensures
        r matches Some(e) ==> list_all_end(s@, p as int) == Some(e as int) && p < e <= n,
        r is None ==> list_all_end(s@, p as int) is None,
{
    if n - p >= 2 && s.get_char(p) == '/' && s.get_char(p + 1) == '*' {
        Some(p + 2)
    } else {
        None
    }
}

fn list_index_at(s: &str, n: usize, p: usize) -> (r: Option<(usize, u32)>)
    requires
        n == s@.len(),
        p <= n,
    ensures
        r matches Some(x) ==> list_index(s@, p as int) == Some((x.0 as int, x.1)) && p < x.0 <= n,
        r is None ==> list_index(s@, p as int) is None,
{
    if p >= n || s.get_char(p) != '/' {
        return None;
    }
    let ghost t = s@;
    proof {
        lemma_digits_end(t, p + 1);
    }
    let mut q: usize = p + 1;
    let mut v: u64 = 0;
    while q < n && '0' <= s.get_char(q) && s.get_char(q) <= '9'
        invariant
            n == t.len(),
            t == s@,
            p < n,
            p + 1 <= q <= n,
            q <= digits_end(t, p + 1),
            digits_end(t, p + 1) <= n,
            forall|k: int| p + 1 <= k < digits_end(t, p + 1) ==> is_digit(#[trigger] t[k]),
            digits_end(t, p + 1) < n ==> !is_digit(t[digits_end(t, p + 1)]),
            v == digits_value(t, p + 1, q as int),
            v <= u32::MAX,
        decreases n - q,
    {
        let d = s.get_char(q);
        let dv = (d as u32 - '0' as u32) as u64;
        let next = v * 10 + dv;
        assert(next == digits_value(t, p + 1, q + 1));
        if next > u32::MAX as u64 {
            proof {
                assert(q < digits_end(t, p + 1));
                lemma_digits_value_grows(t, p + 1, q + 1, digits_end(t, p + 1));
            }
            return None;
        }
        v = next;
        q = q + 1;
    }
    assert(q == digits_end(t, p + 1)) by {
        if q < digits_end(t, p + 1) {
            assert(is_digit(t[q as int]));
        }
    }
    if q == p + 1 {
        return None;
    }
    Some((q, v as u32))
}

fn list_segment_at(s: &str, n: usize, p: usize) -> (r: Option<(usize, ListSegment)>)
    requires
        n == s@.len(),
        p <= n,
    ensures
        r matches Some(x) ==> list_segment(s@, p as int) == Some((x.0 as int, x.1)) && p < x.0 <= n,
        r is None ==> list_segment(s@, p as int) is None,
{
    match list_all_at(s, n, p) {
        Some(e) => Some((e, ListSegment::All)),
        None => match list_index_at(s, n, p) {
            Some((e, i)) => Some((e, ListSegment::Index(i))),
            None => None,
        },
    }
}

fn escaped_at(s: &str, n: usize, start: usize) -> (r: Option<usize>)
    requires
        n == s@.len(),
        start <= n,
    ensures
        r matches Some(e) ==> escaped_end(s@, start as int, start as int) == Some(e as int),
        r is None ==> escaped_end(s@, start as int, start as int) is None,
{
    let mut q: usize = start;
    while q < n
        invariant
            n == s@.len(),
            start <= q <= n,
            escaped_end(s@, start as int, start as int) == escaped_end(s@, start as int, q as int),
        decreases n - q,
    {
        let c = s.get_char(q);
        if is_alphanumeric(c) || c == '_' {
            q = q + 1;
        } else if c == '\\' {
            if q + 1 >= n {
                return None;
            }
            let e = s.get_char(q + 1);
            if e == '"' || e == 'n' || e == '\\' {
                q = q + 2;
            } else {
                return None;
            }
        } else if q == start {
            return None;
        } else {
            return Some(q);
        }
    }
    Some(n)
}

fn field_segment_at<'a>(s: &'a str, n: usize, p: usize) -> (r: Option<(usize, &'a str)>)
    requires
        n == s@.len(),
        p <= n,
    ensures
        r matches Some(x) ==> field_segment(s@, p as int) == Some((x.0 as int, x.1@)) && p < x.0
            <= n,
        r is None ==> field_segment(s@, p as int) is None,
{
    if p >= n || s.get_char(p) != '/' {
        return None;
    }
    proof {
        lemma_escaped_end(s@, p + 1, p + 1);
    }
    match escaped_at(s, n, p + 1) {
        Some(e) => Some((e, s.substring_char(p + 1, e))),
        None => None,
    }
}

fn segment_at<'a>(s: &'a str, n: usize, p: usize) -> (r: Option<(usize, Segment<'a>)>)
    requires
        n == s@.len(),
        p <= n,
    ensures
        r matches Some(x) ==> segment(s@, p as int) == Some((x.0 as int, x.1@)) && p < x.0 <= n,
        r is None ==> segment(s@, p as int) is None,
{
    match list_segment_at(s, n, p) {
        Some((e, l)) => Some((e, Segment::List(l))),
        None => match field_segment_at(s, n, p) {
            Some((e, f)) => Some((e, Segment::Field(f))),
            None => None,
        },
    }
}

fn selector_at<'a>(s: &'a str, n: usize, p: usize) -> (r: (usize, Selector<'a>))
    requires
        n == s@.len(),
        p <= n,
    ensures
        r.0 as int == selector(s@, p as int).0,
        r.1@ == selector(s@, p as int).1,
        p <= r.0 <= n,
{
    let mut q: usize = p;
    let mut out: Vec<Segment<'a>> = Vec::new();
    assert(segments_model(out@) =~= Seq::<SegmentModel>::empty());
    assert(selector(s@, p as int).1 =~= segments_model(out@) + selector(s@, p as int).1);
    loop
        invariant
            n == s@.len(),
            p <= q <= n,
            selector(s@, p as int).0 == selector(s@, q as int).0,
            selector(s@, p as int).1 == segments_model(out@) + selector(s@, q as int).1,
        decreases n - q,
    {
        match segment_at(s, n, q) {
            None => {
                assert(segments_model(out@) + selector(s@, q as int).1 =~= segments_model(out@));
                return (q, Selector { segments: out });
            },
            Some((e, g)) => {
                let ghost before = segments_model(out@);
                let ghost gm = g@;
                out.push(g);
                assert(segments_model(out@) =~= before.push(gm));
                assert(before + (seq![gm] + selector(s@, e as int).1) =~= before.push(gm)
                    + selector(s@, e as int).1);
                q = e;
            },
        }
    }
}

fn is_blank(c: char) -> (r: bool)
    ensures
        r == is_space(c),
{
    c == ' ' || c == '\t' || c == '\r' || c == '\n'
}

fn spaces_at(s: &str, n: usize, p: usize) -> (r: usize)
    requires
        n == s@.len(),
        p <= n,
    ensures
        r as int == spaces_end(s@, p as int),
        p <= r <= n,
{
    let mut q: usize = p;
    while q < n && is_blank(s.get_char(q))
        invariant
            n == s@.len(),
            p <= q <= n,
            spaces_end(s@, p as int) == spaces_end(s@, q as int),
        decreases n - q,
    {
        q = q + 1;
    }
    q
}

fn separator_at(s: &str, n: usize, p: usize) -> (r: Option<usize>)
    requires
        n == s@.len(),
        p <= n,
    ensures
        r matches Some(e) ==> separator(s@, p as int) == Some(e as int) && p < e <= n,
        r is None ==> separator(s@, p as int) is None,
{
    let q = spaces_at(s, n, p);
    if q < n && s.get_char(q) == ',' {
        Some(spaces_at(s, n, q + 1))
    } else {
        None
    }
}

fn item_at<'a>(s: &'a str, n: usize, p: usize) -> (r: Option<(usize, Selector<'a>)>)
    requires
        n == s@.len(),
        p <= n,
    ensures
        r matches Some(x) ==> item(s@, p as int) == Some((x.0 as int, x.1@)) && p < x.0 <= n,
        r is None ==> item(s@, p as int) is None,
{
    if p >= n || s.get_char(p) != '"' {
        return None;
    }
    let (q, sel) = selector_at(s, n, p + 1);
    if q < n && s.get_char(q) == '"' {
        Some((q + 1, sel))
    } else {
        None
    }
}

/// Reads a comma-separated list of quoted selectors, such as
/// `"/some_field/1234/*", "/other_field/*/1234"`, from the start of `i`; it
/// stops before the first part that does not continue the list and returns
/// the rest of the input with the selectors read.
pub fn parse_preload<'a>(i: &'a str) -> (r: Result<(&'a str, Vec<Selector<'a>>), ParseError>)
    ensures
        r matches Ok(x) ==> x.0@ == i@.subrange(preload(i@).0, i@.len() as int) && selectors_model(
            x.1@,
        ) == preload(i@).1,
        r is Ok,
{
    let n = i.unicode_len();
    let mut out: Vec<Selector<'a>> = Vec::new();
    let (first_end, first) = match item_at(i, n, 0) {
        None => {
            assert(selectors_model(out@) =~= preload(i@).1);
            return Ok((i.substring_char(0, n), out));
        },
        Some(x) => x,
    };
    let ghost fm = first@;
    out.push(first);
    let mut q: usize = first_end;
    assert(selectors_model(out@) =~= seq![fm]);
    loop
        invariant
            n == i@.len(),
            0 < q <= n,
            preload(i@).0 == more_items(i@, q as int).0,
            preload(i@).1 == selectors_model(out@) + more_items(i@, q as int).1,
        decreases n - q,
    {
        let next = match separator_at(i, n, q) {
            None => None,
            Some(s) => item_at(i, n, s),
        };
        match next {
            None => {
                assert(selectors_model(out@) + more_items(i@, q as int).1 =~= selectors_model(out@));
                return Ok((i.substring_char(q, n), out));
            },
            Some((e, sel)) => {
                let ghost before = selectors_model(out@);
                let ghost sm = sel@;
                out.push(sel);
                assert(selectors_model(out@) =~= before.push(sm));
                assert(before + (seq![sm] + more_items(i@, e as int).1) =~= before.push(sm)
                    + more_items(i@, e as int).1);
                q = e;
            },
        }
    }
}

/// Reads the segments of a selector path from the start of `i`.
pub fn parse_selector<'a>(i: &'a str) -> (r: Result<(&'a str, Selector<'a>), ParseError>)
    ensures
        r matches Ok(x) ==> x.0@ == i@.subrange(selector(i@, 0).0, i@.len() as int) && x.1@
            == selector(i@, 0).1,
        r is Ok,
{
    let n = i.unicode_len();
    let (q, sel) = selector_at(i, n, 0);
    Ok((i.substring_char(q, n), sel))
}

/// Reads a field segment, `/` and a field name, from the start of `i`.
pub fn parse_field_segment<'a>(i: &'a str) -> (r: Result<(&'a str, Segment<'a>), ParseError>)
    ensures
        r is Ok <==> field_segment(i@, 0) is Some,
        r matches Ok(x) ==> x.0@ == i@.subrange((field_segment(i@, 0)->0).0, i@.len() as int)
            && x.1@ == SegmentModel::Field((field_segment(i@, 0)->0).1),
{
    let n = i.unicode_len();
    match field_segment_at(i, n, 0) {
        Some((e, f)) => Ok((i.substring_char(e, n), Segment::Field(f))),
        None => Err(ParseError),
    }
}

/// Reads a list segment, `/*` or `/` and an index, from the start of `i`.
pub fn parse_list_segment<'a>(i: &'a str) -> (r: Result<(&'a str, Segment<'a>), ParseError>)
    ensures
        r is Ok <==> list_segment(i@, 0) is Some,
        r matches Ok(x) ==> x.0@ == i@.subrange((list_segment(i@, 0)->0).0, i@.len() as int)
            && x.1@ == SegmentModel::List((list_segment(i@, 0)->0).1),
{
    let n = i.unicode_len();
    match list_segment_at(i, n, 0) {
        Some((e, l)) => Ok((i.substring_char(e, n), Segment::List(l))),
        None => Err(ParseError),
    }
}

/// Reads `/*` from the start of `i`.
pub fn parse_list_segment_all<'a>(i: &'a str) -> (r: Result<(&'a str, ListSegment), ParseError>)
    ensures
        r is Ok <==> list_all_end(i@, 0) is Some,
        r matches Ok(x) ==> x.0@ == i@.subrange(2, i@.len() as int) && x.1 == ListSegment::All,
{
    let n = i.unicode_len();
    match list_all_at(i, n, 0) {
        Some(e) => Ok((i.substring_char(e, n), ListSegment::All)),
        None => Err(ParseError),
    }
}

/// Reads `/` and a decimal index that fits in `u32` from the start of `i`.
pub fn parse_list_segment_index<'a>(i: &'a str) -> (r: Result<(&'a str, ListSegment), ParseError>)
    ensures
        r is Ok <==> list_index(i@, 0) is Some,
        r matches Ok(x) ==> x.0@ == i@.subrange((list_index(i@, 0)->0).0, i@.len() as int) && x.1
            == ListSegment::Index((list_index(i@, 0)->0).1),
{
    let n = i.unicode_len();
    proof {
        lemma_digits_end(i@, 1);
    }
    match list_index_at(i, n, 0) {
        Some((e, v)) => Ok((i.substring_char(e, n), ListSegment::Index(v))),
        None => Err(ParseError),
    }
}

} // verus!
