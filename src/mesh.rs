//! The line grammar of mesh files. A line, UTF-8 encoded, is split into
//! words at Unicode whitespace; `v x y z` declares the next vertex, `f a b c` a triangle
//! whose corners are 1-based numbers of vertices declared before it (each
//! optionally followed by `/`-separated attributes, which are ignored), and
//! every other line is ignored.
use vstd::prelude::*;

verus! {

/// The bytes `start..end` of a line.
#[derive(Clone, Copy, Debug, PartialEq, Eq, Structural)]
pub struct Span {
    pub start: usize,
    pub end: usize,
}

/// What one line of a mesh file declares.
#[derive(Clone, Copy, Debug, PartialEq, Eq, Structural)]
pub enum MeshLine {
    /// A vertex, with the spans of its three coordinate words.
    Vertex(Span, Span, Span),
    /// A triangle, by the 0-based numbers of its three vertices.
    Face(usize, usize, usize),
    /// A line that declares nothing.
    Other,
}

/// Why a line of a mesh file is refused.
#[derive(Clone, Copy, Debug, PartialEq, Eq, Structural)]
pub enum MeshError {
    /// A vertex line has fewer than three coordinates.
    MissingCoordinate,
    /// A face line has fewer than three corners.
    MissingIndex,
    /// A corner does not start with a vertex number.
    BadIndex,
    /// A corner names a vertex that has not been declared.
    IndexOutOfRange,
}

/// An ASCII whitespace byte: tab, line feed, vertical tab, form feed,
/// carriage return or space.
pub open spec fn is_ascii_space(b: u8) -> bool {
    b == 32u8 || (9u8 <= b && b <= 13u8)
}

/// The three-byte UTF-8 encodings of whitespace: U+1680, U+2000 to U+200A,
/// U+2028, U+2029, U+202F, U+205F and U+3000.
pub open spec fn is_space3(a: u8, b: u8, c: u8) -> bool {
    ||| a == 0xE1u8 && b == 0x9Au8 && c == 0x80u8
    ||| a == 0xE2u8 && b == 0x80u8 && ((0x80u8 <= c && c <= 0x8Au8) || c == 0xA8u8 || c
        == 0xA9u8 || c == 0xAFu8)
    ||| a == 0xE2u8 && b == 0x81u8 && c == 0x9Fu8
    ||| a == 0xE3u8 && b == 0x80u8 && c == 0x80u8
}

/// The length of the encoding of a whitespace character (Unicode
/// `White_Space`, as `split_whitespace` uses) that starts at byte `i` of
/// `s`, or 0 when none starts there. In UTF-8 text no such encoding begins
/// inside another character, so a byte-by-byte scan finds exactly the
/// whitespace characters.
pub open spec fn space_len(s: Seq<u8>, i: int) -> int {
    if i < 0 || i >= s.len() {
        0
    } else if is_ascii_space(s[i]) {
        1
    } else if i + 1 < s.len() && s[i] == 0xC2u8 && (s[i + 1] == 0x85u8 || s[i + 1] == 0xA0u8) {
        2
    } else if i + 2 < s.len() && is_space3(s[i], s[i + 1], s[i + 2]) {
        3
    } else {
        0
    }
}

/// The spans of the words of `s` from byte `i` on, where `current` is the start
/// of the word that byte `i` is inside, if any.
#[verifier::opaque]
pub open spec fn spans_from(s: Seq<u8>, i: int, current: Option<int>) -> Seq<Span>
    decreases s.len() - i,
{
    if i >= s.len() {
        match current {
            Some(a) => seq![Span { start: a as usize, end: s.len() as usize }],
            None => seq![],
        }
    } else if space_len(s, i) > 0 {
        match current {
            Some(a) => seq![Span { start: a as usize, end: i as usize }].add(
                spans_from(s, i + space_len(s, i), None),
            ),
            None => spans_from(s, i + space_len(s, i), None),
        }
    } else {
        match current {
            Some(a) => spans_from(s, i + 1, Some(a)),
            None => spans_from(s, i + 1, Some(i)),
        }
    }
}

/// The spans of the words of `s`, in order.
pub open spec fn words_of(s: Seq<u8>) -> Seq<Span> {
    spans_from(s, 0, None)
}

/// Span `w` covers at least one byte, all of them inside `s`.
pub open spec fn spans_inside(s: Seq<u8>, w: Span) -> bool {
    w.start < w.end <= s.len()
}

/// The bytes of `s` that span `w` covers.
pub open spec fn text(s: Seq<u8>, w: Span) -> Seq<u8> {
    s.subrange(w.start as int, w.end as int)
}

/// The first position at or after `i` that holds a `/`, or the length.
pub open spec fn slash_from(w: Seq<u8>, i: int) -> int
    decreases w.len() - i,
{
    if i >= w.len() || w[i] == 47u8 {
        i
    } else {
        slash_from(w, i + 1)
    }
}

/// The part of a corner word before its first `/`.
pub open spec fn before_slash(w: Seq<u8>) -> Seq<u8> {
    w.subrange(0, slash_from(w, 0))
}

pub open spec fn is_digit(b: u8) -> bool {
    48u8 <= b && b <= 57u8
}

/// The number that a run of decimal digits spells.
pub open spec fn digits_value(d: Seq<u8>) -> nat
    decreases d.len(),
{
    if d.len() == 0 {
        0
    } else {
        digits_value(d.drop_last()) * 10 + (d.last() - 48) as nat
    }
}

/// Every byte of `d` is a decimal digit.
pub open spec fn all_digits(d: Seq<u8>) -> bool {
    forall|i: int| 0 <= i < d.len() ==> is_digit(#[trigger] d[i])
}

/// `w` without its leading `+`, if it has one.
pub open spec fn unsigned_part(w: Seq<u8>) -> Seq<u8> {
    if w.len() > 0 && w[0] == 43u8 {
        w.drop_first()
    } else {
        w
    }
}

/// A `usize` in decimal, as `str::parse` reads it: an optional `+`, then
/// at least one digit and nothing else, with a value that fits.
pub open spec fn parse_usize(w: Seq<u8>) -> Option<nat> {
    let d = unsigned_part(w);
    if d.len() > 0 && all_digits(d) && digits_value(d) <= usize::MAX {
        Some(digits_value(d))
    } else {
        None
    }
}

/// The 0-based vertex of corner word number `i` of a face line, with `n`
/// vertices declared so far.
pub open spec fn corner(s: Seq<u8>, ws: Seq<Span>, i: int, n: nat) -> Result<usize, MeshError> {
    if ws.len() <= i {
        Err(MeshError::MissingIndex)
    } else {
        match parse_usize(before_slash(text(s, ws[i]))) {
            None => Err(MeshError::BadIndex),
            Some(v) => if 1 <= v <= n {
                Ok((v - 1) as usize)
            } else {
                Err(MeshError::IndexOutOfRange)
            },
        }
    }
}

/// What line `s` declares when `n` vertices were declared before it.
pub open spec fn line_meaning(s: Seq<u8>, n: nat) -> Result<MeshLine, MeshError> {
    let ws = words_of(s);
    if ws.len() == 0 {
        Ok(MeshLine::Other)
    } else if text(s, ws[0]) == seq![118u8] {
        if ws.len() < 4 {
            Err(MeshError::MissingCoordinate)
        } else {
            Ok(MeshLine::Vertex(ws[1], ws[2], ws[3]))
        }
    } else if text(s, ws[0]) == seq![102u8] {
        match corner(s, ws, 1, n) {
            Err(e) => Err(e),
            Ok(a) => match corner(s, ws, 2, n) {
                Err(e) => Err(e),
                Ok(b) => match corner(s, ws, 3, n) {
                    Err(e) => Err(e),
                    Ok(c) => Ok(MeshLine::Face(a, b, c)),
                },
            },
        }
    } else {
        Ok(MeshLine::Other)
    }
}

/// The length of the whitespace encoding that starts at byte `i` of
/// `line`, or 0.
fn space_len_at(line: &[u8], i: usize) -> (r: usize)
    requires
        i < line@.len(),
    ensures
        r == space_len(line@, i as int),
{
    let n = line.len();
    let b = line[i];
    if b == 32u8 || (9u8 <= b && b <= 13u8) {
        1
    } else if i + 1 < n && b == 0xC2u8 && (line[i + 1] == 0x85u8 || line[i + 1] == 0xA0u8) {
        2
    } else if n - i > 2 {
        let (c1, c2) = (line[i + 1], line[i + 2]);
        let three = (b == 0xE1u8 && c1 == 0x9Au8 && c2 == 0x80u8) || (b == 0xE2u8 && c1 == 0x80u8
            && ((0x80u8 <= c2 && c2 <= 0x8Au8) || c2 == 0xA8u8 || c2 == 0xA9u8 || c2 == 0xAFu8))
            || (b == 0xE2u8 && c1 == 0x81u8 && c2 == 0x9Fu8) || (b == 0xE3u8 && c1 == 0x80u8 && c2
            == 0x80u8);
        if three {
            3
        } else {
            0
        }
    } else {
        0
    }
}

/// The spans of the words of `line`, in order.
pub fn word_spans(line: &[u8]) -> (r: Vec<Span>)
    ensures
        r@ == words_of(line@),
{
    reveal(spans_from);
    let n = line.len();
    let mut r: Vec<Span> = Vec::new();
    let mut current: Option<usize> = None;
    let mut i: usize = 0;
    while i < n
        invariant
            n == line@.len(),
            i <= n,
            current matches Some(a) ==> a < i,
            r@ + spans_from(line@, i as int, match current {
                Some(a) => Some(a as int),
                None => None,
            }) == words_of(line@),
        decreases n - i,
    {
        let ghost before = r@;
        proof {
            reveal(spans_from);
        }
        let space = space_len_at(line, i);
        if space > 0 {
            if let Some(a) = current {
                r.push(Span { start: a, end: i });
                assert(r@ + spans_from(line@, i + space, None) =~= before + spans_from(
                    line@,
                    i as int,
                    Some(a as int),
                ));
            }
            current = None;
            i = i + space;
        } else {
            if current.is_none() {
                current = Some(i);
            }
            i = i + 1;
        }
    }
    if let Some(a) = current {
        let ghost before = r@;
        r.push(Span { start: a, end: n });
        assert(r@ =~= before + spans_from(line@, n as int, Some(a as int)));
    } else {
        assert(r@ =~= r@ + spans_from(line@, n as int, None));
    }
    r
}

/// A prefix of a digit run spells no more than the whole run.
proof fn lemma_digits_prefix(d: Seq<u8>, m: int)
    requires
        0 <= m <= d.len(),
    ensures
        digits_value(d.subrange(0, m)) <= digits_value(d),
    decreases d.len(),
{
    if m < d.len() {
        assert(d.drop_last().subrange(0, m) =~= d.subrange(0, m));
        lemma_digits_prefix(d.drop_last(), m);
    } else {
        assert(d.subrange(0, m) =~= d);
    }
}

/// The vertex number that corner word `w` of `line` starts with: the text
/// before its first `/`, read as `str::parse::<usize>` reads it.
pub fn parse_index(line: &[u8], w: Span) -> (r: Option<usize>)
    requires
        w.start <= w.end <= line@.len(),
    ensures
        r == match parse_usize(before_slash(text(line@, w))) {
            Some(v) => Some(v as usize),
            None => None::<usize>,
        },
{
    let ghost t = text(line@, w);
    let (start, end) = (w.start, w.end);
    let mut stop = start;
    while stop < end && line[stop] != 47u8
        invariant
            start <= stop <= end <= line@.len(),
            t == line@.subrange(start as int, end as int),
            slash_from(t, 0) == slash_from(t, stop - start),
        decreases end - stop,
    {
        stop = stop + 1;
    }
    let ghost word = before_slash(t);
    assert(word =~= line@.subrange(start as int, stop as int));
    let mut p = start;
    if p < stop && line[p] == 43u8 {
        p = p + 1;
    }
    let ghost d = unsigned_part(word);
    assert(d =~= line@.subrange(p as int, stop as int));
    if p == stop {
        return None;
    }
    let mut value: usize = 0;
    let mut k = p;
    while k < stop
        invariant
            p <= k <= stop <= line@.len(),
            d == line@.subrange(p as int, stop as int),
            d == unsigned_part(word),
            word == before_slash(text(line@, w)),
            value == digits_value(d.subrange(0, k - p)),
            forall|i: int| 0 <= i < k - p ==> is_digit(#[trigger] d[i]),
        decreases stop - k,
    {
        let b = line[k];
        if b < 48u8 || b > 57u8 {
            assert(!is_digit(d[k - p]));
            assert(!all_digits(d));
            return None;
        }
        let digit = (b - 48u8) as usize;
        assert(d.subrange(0, k - p + 1).drop_last() =~= d.subrange(0, k - p));
        if value > (usize::MAX - digit) / 10 {
            proof {
                assert(value * 10 + digit > usize::MAX) by (nonlinear_arith)
                    requires
                        value > (usize::MAX - digit) / 10,
                        0 <= digit <= 9,
                ;
                lemma_digits_prefix(d, k - p + 1);
            }
            return None;
        }
        value = value * 10 + digit;
        k = k + 1;
    }
    assert(d.subrange(0, k - p) =~= d);
    Some(value)
}

/// Every word span lies inside the line and covers at least one byte.
proof fn lemma_spans_inside(s: Seq<u8>, i: int, current: Option<int>)
    requires
        0 <= i <= s.len() <= usize::MAX,
        current matches Some(a) ==> 0 <= a < i,
    ensures
        forall|j: int|
            0 <= j < spans_from(s, i, current).len() ==> spans_inside(
                s,
                #[trigger] spans_from(s, i, current)[j],
            ),
    decreases s.len() - i,
{
    reveal(spans_from);
    let all = spans_from(s, i, current);
    if i < s.len() {
        if space_len(s, i) > 0 {
            let next = i + space_len(s, i);
            lemma_spans_inside(s, next, None);
            if current is None {
                assert(all == spans_from(s, next, None));
            }
            if let Some(a) = current {
                let rest = spans_from(s, next, None);
                assert(all == seq![Span { start: a as usize, end: i as usize }].add(rest));
                assert forall|j: int| 0 <= j < all.len() implies spans_inside(
                    s,
                    #[trigger] all[j],
                ) by {
                    if j > 0 {
                        assert(all[j] == rest[j - 1]);
                    }
                }
            }
        } else {
            match current {
                Some(a) => {
                    lemma_spans_inside(s, i + 1, Some(a));
                    assert(all == spans_from(s, i + 1, Some(a)));
                },
                None => {
                    lemma_spans_inside(s, i + 1, Some(i));
                    assert(all == spans_from(s, i + 1, Some(i)));
                },
            }
        }
    } else if let Some(a) = current {
        assert(all =~= seq![Span { start: a as usize, end: s.len() as usize }]);
        assert(spans_inside(s, all[0]));
    }
}

/// The vertex of corner word number `i` of a face line, with `n` vertices
/// declared so far.
fn corner_vertex(line: &[u8], ws: &Vec<Span>, i: usize, n: usize) -> (r: Result<usize, MeshError>)
    requires
        forall|j: int| 0 <= j < ws@.len() ==> spans_inside(line@, #[trigger] ws@[j]),
    ensures
        r == corner(line@, ws@, i as int, n as nat),
{
    if ws.len() <= i {
        return Err(MeshError::MissingIndex);
    }
    match parse_index(line, ws[i]) {
        None => Err(MeshError::BadIndex),
        Some(v) => if 1 <= v && v <= n {
            Ok(v - 1)
        } else {
            Err(MeshError::IndexOutOfRange)
        },
    }
}

/// What `line` declares when `vertex_count` vertices were declared before it.
pub fn parse_line(line: &[u8], vertex_count: usize) -> (r: Result<MeshLine, MeshError>)
    ensures
        r == line_meaning(line@, vertex_count as nat),
{
    let ws = word_spans(line);
    let length = line.len();
    proof {
        assert(line@.len() == length <= usize::MAX);
        lemma_spans_inside(line@, 0, None);
    }
    if ws.len() == 0 {
        return Ok(MeshLine::Other);
    }
    let first = ws[0];
    let single = first.end - first.start == 1;
    let ghost head = text(line@, first);
    let ghost n = vertex_count as nat;
    assert(ws@ == words_of(line@) && head == text(line@, ws@[0]));
    if single && line[first.start] == 118u8 {
        assert(head =~= seq![118u8]);
        assert(line_meaning(line@, n) == if ws@.len() < 4 {
            Err::<MeshLine, MeshError>(MeshError::MissingCoordinate)
        } else {
            Ok::<MeshLine, MeshError>(MeshLine::Vertex(ws@[1], ws@[2], ws@[3]))
        });
        if ws.len() < 4 {
            Err(MeshError::MissingCoordinate)
        } else {
            Ok(MeshLine::Vertex(ws[1], ws[2], ws[3]))
        }
    } else if single && line[first.start] == 102u8 {
        assert(head =~= seq![102u8]);
        assert(head != seq![118u8]) by {
            assert(head[0] != 118u8);
        }
        assert(line_meaning(line@, n) == match corner(line@, ws@, 1, n) {
            Err(e) => Err(e),
            Ok(a) => match corner(line@, ws@, 2, n) {
                Err(e) => Err(e),
                Ok(b) => match corner(line@, ws@, 3, n) {
                    Err(e) => Err(e),
                    Ok(c) => Ok(MeshLine::Face(a, b, c)),
                },
            },
        });
        let a = match corner_vertex(line, &ws, 1, vertex_count) {
            Ok(a) => a,
            Err(e) => {
                return Err(e);
            },
        };
        let b = match corner_vertex(line, &ws, 2, vertex_count) {
            Ok(b) => b,
            Err(e) => {
                return Err(e);
            },
        };
        let c = match corner_vertex(line, &ws, 3, vertex_count) {
            Ok(c) => c,
            Err(e) => {
                return Err(e);
            },
        };
        Ok(MeshLine::Face(a, b, c))
    } else {
        assert(head != seq![118u8] && head != seq![102u8]) by {
            if single {
                assert(head[0] == line@[first.start as int]);
            } else {
                assert(head.len() != 1);
            }
        }
        assert(line_meaning(line@, n) == Ok::<MeshLine, MeshError>(MeshLine::Other));
        Ok(MeshLine::Other)
    }
}

} // verus!
