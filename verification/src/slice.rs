//! Range selection over the positions of an index.
//!
//! A range is written as in a slice expression, `start..end`, with either
//! side left out for an open end and with optional square brackets around
//! it: `[10..20]`, `50..`, `..5`.

use crate::config::ConfigError;
use crate::record::DocOffset;
use crate::text::{
    all_digits, chars_of, digits, is_digit, lemma_decimal_digits, lemma_number_grows, number,
};
use vstd::prelude::*;

verus! {

/// One end of a range of positions.
#[derive(Clone, Copy, Debug, PartialEq, Eq, Structural)]
pub enum Bound {
    Included(usize),
    Excluded(usize),
    Unbounded,
}

/// Whether `c` is white space.
pub open spec fn is_space(c: char) -> bool {
    let n = c as u32;
    ||| 9 <= n <= 13
    ||| n == 0x20
    ||| n == 0x85
    ||| n == 0xA0
    ||| n == 0x1680
    ||| 0x2000 <= n <= 0x200A
    ||| n == 0x2028
    ||| n == 0x2029
    ||| n == 0x202F
    ||| n == 0x205F
    ||| n == 0x3000
}

/// Whether `c` is trimmed: a square bracket where `brackets` is set, white
/// space otherwise.
pub open spec fn is_trimmed(c: char, brackets: bool) -> bool {
    if brackets {
        c == '[' || c == ']'
    } else {
        is_space(c)
    }
}

/// First position at or after `i` whose character is kept, or the length.
pub open spec fn first_kept(s: Seq<char>, brackets: bool, i: int) -> int
    decreases s.len() - i,
{
    if 0 <= i < s.len() && is_trimmed(s[i], brackets) {
        first_kept(s, brackets, i + 1)
    } else {
        i
    }
}

/// One past the last position before `j` and not before `lo` whose
/// character is kept, or `lo`.
pub open spec fn last_kept(s: Seq<char>, brackets: bool, lo: int, j: int) -> int
    decreases j - lo,
{
    if lo < j <= s.len() && is_trimmed(s[j - 1], brackets) {
        last_kept(s, brackets, lo, j - 1)
    } else {
        j
    }
}

/// `s` without the trimmed characters at its two ends.
pub open spec fn trimmed(s: Seq<char>, brackets: bool) -> Seq<char> {
    let lo = first_kept(s, brackets, 0);
    let hi = last_kept(s, brackets, lo, s.len() as int);
    s.subrange(lo, hi)
}

/// First position at or after `i` where two dots stand side by side, or the
/// length where there is none.
pub open spec fn first_dots(s: Seq<char>, i: int) -> int
    decreases s.len() - i,
{
    if i < 0 || i + 1 >= s.len() {
        s.len() as int
    } else if s[i] == '.' && s[i + 1] == '.' {
        i
    } else {
        first_dots(s, i + 1)
    }
}

/// The two sides of `s` around its separator, where `s` holds the
/// separator `..` exactly once, counted from the left without overlap.
pub open spec fn sides(s: Seq<char>) -> Option<(Seq<char>, Seq<char>)> {
    let at = first_dots(s, 0);
    if at >= s.len() {
        None
    } else {
        let right = s.subrange(at + 2, s.len() as int);
        if first_dots(right, 0) < right.len() {
            None
        } else {
            Some((s.subrange(0, at), right))
        }
    }
}

/// The position that `s` spells: decimal digits, at least one, after an
/// optional plus sign, with a value that fits the machine word.
pub open spec fn spelled(s: Seq<char>) -> Option<usize> {
    let body = if s.len() > 0 && s[0] == '+' {
        s.drop_first()
    } else {
        s
    };
    if body.len() > 0 && all_digits(body) && number(body, body.len()) <= usize::MAX {
        Some(number(body, body.len()) as usize)
    } else {
        None
    }
}

/// The pair of bounds for a start and an end, where 0 and the largest
/// machine word stand for the open ends.
pub open spec fn bounds_of(start: usize, end: usize) -> (Bound, Bound) {
    if start != 0 && end != usize::MAX {
        (Bound::Included(start), Bound::Excluded(end))
    } else if start != 0 {
        (Bound::Included(start), Bound::Unbounded)
    } else if end != usize::MAX {
        (Bound::Unbounded, Bound::Excluded(end))
    } else {
        (Bound::Unbounded, Bound::Unbounded)
    }
}

/// What one side of a range stands for: the open end where the side is
/// empty, the position that it spells where it spells one, and nothing
/// where it is not empty and spells no position.
pub open spec fn side_of(s: Seq<char>) -> Option<Option<usize>> {
    if s.len() == 0 {
        Some(None)
    } else {
        match spelled(s) {
            Some(n) => Some(Some(n)),
            None => None,
        }
    }
}

/// The range from `start` to `end`, where a side that is left out stands
/// for the open end, if the start does not lie after the end.
pub open spec fn range_of(start: Option<usize>, end: Option<usize>) -> Result<
    (Bound, Bound),
    ConfigError,
> {
    let first = match start {
        Some(n) => n,
        None => 0usize,
    };
    let last = match end {
        Some(n) => n,
        None => usize::MAX,
    };
    if first > last {
        Err(ConfigError::InvalidSlice)
    } else {
        Ok(bounds_of(first, last))
    }
}

/// The range that a text stands for.
///
/// White space and then square brackets are trimmed from both ends. What is
/// left has to hold `..` exactly once. Each side is empty, for the open
/// end, or spells a position; a side that is neither makes the range
/// invalid, and so does a start that lies after the end.
pub open spec fn slice_of(s: Seq<char>) -> Result<(Bound, Bound), ConfigError> {
    match sides(trimmed(trimmed(s, false), true)) {
        None => Err(ConfigError::InvalidSlice),
        Some((left, right)) => match (side_of(left), side_of(right)) {
            (Some(start), Some(end)) => range_of(start, end),
            _ => Err(ConfigError::InvalidSlice),
        },
    }
}

/// Whether `c` is white space.
pub fn char_is_space(c: char) -> (r: bool)
    ensures
        r == is_space(c),
{
    let n: u32 = c as u32;
    (9 <= n && n <= 13) || n == 0x20 || n == 0x85 || n == 0xA0 || n == 0x1680 || (0x2000 <= n
        && n <= 0x200A) || n == 0x2028 || n == 0x2029 || n == 0x202F || n == 0x205F || n
        == 0x3000
}

/// Whether `c` is trimmed.
pub fn char_is_trimmed(c: char, brackets: bool) -> (r: bool)
    ensures
        r == is_trimmed(c, brackets),
{
    if brackets {
        c == '[' || c == ']'
    } else {
        char_is_space(c)
    }
}

/// The characters from `lo` up to `hi`.
pub(crate) fn copy_range(chars: &Vec<char>, lo: usize, hi: usize) -> (part: Vec<char>)
    requires
        lo <= hi <= chars@.len(),
    ensures
        part@ == chars@.subrange(lo as int, hi as int),
{
    let mut part: Vec<char> = Vec::new();
    let mut i: usize = lo;
    while i < hi
        invariant
            lo <= i <= hi <= chars@.len(),
            part@ == chars@.subrange(lo as int, i as int),
        decreases hi - i,
    {
        part.push(chars[i]);
        assert(chars@.subrange(lo as int, i + 1) =~= chars@.subrange(lo as int, i as int).push(
            chars@[i as int],
        ));
        i = i + 1;
    }
    part
}

/// The characters without the trimmed ones at the two ends.
pub fn trim(chars: &Vec<char>, brackets: bool) -> (kept: Vec<char>)
    ensures
        kept@ == trimmed(chars@, brackets),
{
    let mut lo: usize = 0;
    while lo < chars.len() && char_is_trimmed(chars[lo], brackets)
        invariant
            lo <= chars@.len(),
            first_kept(chars@, brackets, 0) == first_kept(chars@, brackets, lo as int),
        decreases chars@.len() - lo,
    {
        lo = lo + 1;
    }
    let mut hi: usize = chars.len();
    while hi > lo && char_is_trimmed(chars[hi - 1], brackets)
        invariant
            lo <= hi <= chars@.len(),
            last_kept(chars@, brackets, lo as int, chars@.len() as int) == last_kept(
                chars@,
                brackets,
                lo as int,
                hi as int,
            ),
        decreases hi - lo,
    {
        hi = hi - 1;
    }
    copy_range(chars, lo, hi)
}

/// First position at or after `from` where two dots stand side by side, or
/// the length where there is none.
pub fn find_dots(chars: &Vec<char>, from: usize) -> (at: usize)
    ensures
        at == first_dots(chars@, from as int),
        at <= chars@.len(),
        at < chars@.len() ==> at + 2 <= chars@.len(),
{
    let n = chars.len();
    let mut i: usize = from;
    while i < n && n - i >= 2
        invariant
            n == chars@.len(),
            from <= i,
            first_dots(chars@, from as int) == first_dots(chars@, i as int),
        decreases n - i,
    {
        if chars[i] == '.' && chars[i + 1] == '.' {
            return i;
        }
        i = i + 1;
    }
    n
}

/// The position that the characters spell.
pub fn parse_index(chars: &Vec<char>) -> (r: Option<usize>)
    ensures
        r == spelled(chars@),
{
    let n = chars.len();
    let first: usize = if n > 0 && chars[0] == '+' {
        1
    } else {
        0
    };
    let ghost body = chars@.subrange(first as int, n as int);
    proof {
        if first == 1 {
            assert(body =~= chars@.drop_first());
        } else {
            assert(body =~= chars@);
        }
    }
    if first == n {
        return None;
    }
    let mut value: usize = 0;
    let mut i: usize = first;
    while i < n
        invariant
            first <= i <= n,
            n == chars@.len(),
            body == chars@.subrange(first as int, n as int),
            spelled(chars@) == (if body.len() > 0 && all_digits(body) && number(body, body.len())
                <= usize::MAX {
                Some(number(body, body.len()) as usize)
            } else {
                None
            }),
            forall|k: int| 0 <= k < i - first ==> is_digit(#[trigger] body[k]),
            value == number(body, (i - first) as nat),
        decreases n - i,
    {
        let c = chars[i];
        assert(body[i - first] == c);
        if !('0' <= c && c <= '9') {
            assert(!is_digit(body[i - first]));
            return None;
        }
        let digit: usize = (c as u32 - 48) as usize;
        let next = match value.checked_mul(10) {
            Some(tens) => tens.checked_add(digit),
            None => None,
        };
        match next {
            Some(v) => {
                value = v;
            },
            None => {
                proof {
                    assert(number(body, (i - first + 1) as nat) == value * 10 + digit);
                    if all_digits(body) {
                        lemma_number_grows(body, (i - first + 1) as nat, body.len());
                    }
                }
                return None;
            },
        }
        i = i + 1;
    }
    Some(value)
}

/// What one side of a range stands for.
pub fn parse_side(chars: &Vec<char>) -> (r: Option<Option<usize>>)
    ensures
        r == side_of(chars@),
{
    if chars.len() == 0 {
        Some(None)
    } else {
        match parse_index(chars) {
            Some(n) => Some(Some(n)),
            None => None,
        }
    }
}

/// Reads a range from its text.
pub fn parse_slice(slice: &str) -> (r: Result<(Bound, Bound), ConfigError>)
    ensures
        r == slice_of(slice@),
{
    let chars = chars_of(slice);
    let outer = trim(&chars, false);
    let inner = trim(&outer, true);
    let at = find_dots(&inner, 0);
    if at >= inner.len() {
        return Err(ConfigError::InvalidSlice);
    }
    let left = copy_range(&inner, 0, at);
    let right = copy_range(&inner, at + 2, inner.len());
    if find_dots(&right, 0) < right.len() {
        return Err(ConfigError::InvalidSlice);
    }
    let start = match parse_side(&left) {
        Some(Some(n)) => n,
        Some(None) => 0,
        None => {
            return Err(ConfigError::InvalidSlice);
        },
    };
    let end = match parse_side(&right) {
        Some(Some(n)) => n,
        Some(None) => usize::MAX,
        None => {
            return Err(ConfigError::InvalidSlice);
        },
    };
    if start > end {
        return Err(ConfigError::InvalidSlice);
    }
    if start != 0 && end != usize::MAX {
        Ok((Bound::Included(start), Bound::Excluded(end)))
    } else if start != 0 {
        Ok((Bound::Included(start), Bound::Unbounded))
    } else if end != usize::MAX {
        Ok((Bound::Unbounded, Bound::Excluded(end)))
    } else {
        Ok((Bound::Unbounded, Bound::Unbounded))
    }
}

/// The window of positions `[start, end)` that a range selects in an index
/// of `len` records, where the range lies inside the index.
pub open spec fn window(range: (Bound, Bound), len: int) -> Option<(int, int)> {
    let start = match range.0 {
        Bound::Included(s) => s as int,
        Bound::Excluded(s) => s + 1,
        Bound::Unbounded => 0,
    };
    let end = match range.1 {
        Bound::Included(e) => e + 1,
        Bound::Excluded(e) => e as int,
        Bound::Unbounded => len,
    };
    if start <= end <= len {
        Some((start, end))
    } else {
        None
    }
}

/// The records that a range selects: those at the positions of its window,
/// in order.
pub fn select(records: &Vec<DocOffset>, range: (Bound, Bound)) -> (r: Result<
    Vec<DocOffset>,
    ConfigError,
>)
    ensures
        match r {
            Ok(chosen) => window(range, records@.len() as int) matches Some((start, end))
                && chosen@ == records@.subrange(start, end),
            Err(e) => e == ConfigError::SliceOutOfBounds && window(range, records@.len() as int)
                is None,
        },
{
    let len = records.len();
    let start: usize = match range.0 {
        Bound::Included(s) => s,
        Bound::Excluded(s) => {
            if s == usize::MAX {
                return Err(ConfigError::SliceOutOfBounds);
            }
            s + 1
        },
        Bound::Unbounded => 0,
    };
    let end: usize = match range.1 {
        Bound::Included(e) => {
            if e == usize::MAX {
                return Err(ConfigError::SliceOutOfBounds);
            }
            e + 1
        },
        Bound::Excluded(e) => e,
        Bound::Unbounded => len,
    };
    if start > end || end > len {
        return Err(ConfigError::SliceOutOfBounds);
    }
    let mut chosen: Vec<DocOffset> = Vec::new();
    let mut i: usize = start;
    while i < end
        invariant
            start <= i <= end <= records@.len(),
            chosen@ == records@.subrange(start as int, i as int),
        decreases end - i,
    {
        chosen.push(records[i]);
        assert(records@.subrange(start as int, i + 1) =~= records@.subrange(
            start as int,
            i as int,
        ).push(records@[i as int]));
        i = i + 1;
    }
    Ok(chosen)
}

/// How one side of a range is written: a position in decimal, or nothing
/// for an open end.
pub open spec fn written(side: Option<usize>) -> Seq<char> {
    match side {
        Some(n) => digits(n as nat, 10),
        None => Seq::empty(),
    }
}

/// Among digits no two dots stand side by side.
proof fn lemma_no_dots_in_digits(s: Seq<char>, i: int)
    requires
        all_digits(s),
        0 <= i,
    ensures
        first_dots(s, i) == s.len(),
    decreases s.len() - i,
{
    if i + 1 < s.len() {
        assert(is_digit(s[i]));
        lemma_no_dots_in_digits(s, i + 1);
    }
}

/// The first two dots after digits stand right behind the digits.
proof fn lemma_dots_after_digits(s: Seq<char>, left: Seq<char>, i: int)
    requires
        all_digits(left),
        0 <= i <= left.len(),
        left.len() + 2 <= s.len(),
        forall|k: int| 0 <= k < left.len() ==> s[k] == left[k],
        s[left.len() as int] == '.',
        s[left.len() as int + 1] == '.',
    ensures
        first_dots(s, i) == left.len(),
    decreases left.len() - i,
{
    if i < left.len() {
        assert(is_digit(left[i]));
        lemma_dots_after_digits(s, left, i + 1);
    }
}

/// A side stands for what was written: the position, or the open end.
proof fn lemma_spelled_written(side: Option<usize>)
    ensures
        side_of(written(side)) == Some(side),
        all_digits(written(side)),
{
    match side {
        Some(n) => {
            lemma_decimal_digits(n as nat);
            assert(is_digit(digits(n as nat, 10)[0]));
        },
        None => {},
    }
}

/// The text of a range written in the usual way: the start in decimal or
/// nothing, two dots, and the end in decimal or nothing.
pub open spec fn written_range(start: Option<usize>, end: Option<usize>) -> Seq<char> {
    written(start) + ".."@ + written(end)
}

/// Whether every character of `s` is one that trimming takes away.
pub open spec fn all_trimmed(s: Seq<char>, brackets: bool) -> bool {
    forall|i: int| 0 <= i < s.len() ==> is_trimmed(#[trigger] s[i], brackets)
}

/// A range written in the usual way has the two sides that were written,
/// and neither of its ends is white space or a bracket.
proof fn lemma_written_range(start: Option<usize>, end: Option<usize>)
    ensures
        written_range(start, end).len() >= 2,
        !is_trimmed(written_range(start, end)[0], false),
        !is_trimmed(written_range(start, end)[0], true),
        !is_trimmed(written_range(start, end).last(), false),
        !is_trimmed(written_range(start, end).last(), true),
        sides(written_range(start, end)) == Some((written(start), written(end))),
{
    reveal_strlit("..");
    let left = written(start);
    let right = written(end);
    let s = written_range(start, end);
    lemma_spelled_written(start);
    lemma_spelled_written(end);
    assert(s.len() == left.len() + 2 + right.len());
    assert(s[left.len() as int] == '.');
    assert(s[left.len() as int + 1] == '.');
    assert forall|k: int| 0 <= k < left.len() implies s[k] == left[k] by {}
    assert forall|k: int| 0 <= k < right.len() implies s[left.len() + 2 + k] == right[k] by {}
    assert(!is_trimmed(s[0], false) && !is_trimmed(s[0], true)) by {
        if left.len() > 0 {
            assert(is_digit(left[0]));
        }
    }
    assert(!is_trimmed(s[s.len() - 1], false) && !is_trimmed(s[s.len() - 1], true)) by {
        if right.len() > 0 {
            assert(is_digit(right[right.len() - 1]));
            assert(s[left.len() + 2 + (right.len() - 1)] == right[right.len() - 1]);
        }
    }
    lemma_dots_after_digits(s, left, 0);
    assert(s.subrange(0, left.len() as int) =~= left);
    assert(s.subrange(left.len() as int + 2, s.len() as int) =~= right);
    lemma_no_dots_in_digits(right, 0);
}

/// Trimming takes away what stands around a text whose own ends it keeps.
proof fn lemma_trimmed_wrapped(before: Seq<char>, x: Seq<char>, after: Seq<char>, brackets: bool)
    requires
        all_trimmed(before, brackets),
        all_trimmed(after, brackets),
        x.len() > 0,
        !is_trimmed(x[0], brackets),
        !is_trimmed(x.last(), brackets),
    ensures
        trimmed(before + x + after, brackets) == x,
{
    let s = before + x + after;
    lemma_first_kept(s, before, x, brackets, 0);
    lemma_last_kept(s, before, x, after, brackets, s.len() as int);
    assert(s.subrange(before.len() as int, (before.len() + x.len()) as int) =~= x);
}

/// The first character that is kept is the first one of the inner text.
proof fn lemma_first_kept(s: Seq<char>, before: Seq<char>, x: Seq<char>, brackets: bool, i: int)
    requires
        all_trimmed(before, brackets),
        x.len() > 0,
        !is_trimmed(x[0], brackets),
        before.len() + x.len() <= s.len(),
        forall|k: int| 0 <= k < before.len() ==> s[k] == before[k],
        s[before.len() as int] == x[0],
        0 <= i <= before.len(),
    ensures
        first_kept(s, brackets, i) == before.len(),
    decreases before.len() - i,
{
    if i < before.len() {
        assert(is_trimmed(before[i], brackets));
        lemma_first_kept(s, before, x, brackets, i + 1);
    }
}

/// The last character that is kept is the last one of the inner text.
proof fn lemma_last_kept(
    s: Seq<char>,
    before: Seq<char>,
    x: Seq<char>,
    after: Seq<char>,
    brackets: bool,
    j: int,
)
    requires
        all_trimmed(after, brackets),
        x.len() > 0,
        !is_trimmed(x.last(), brackets),
        s == before + x + after,
        before.len() + x.len() <= j <= s.len(),
    ensures
        last_kept(s, brackets, before.len() as int, j) == before.len() + x.len(),
    decreases j,
{
    if j > before.len() + x.len() {
        assert(s[j - 1] == after[j - 1 - before.len() - x.len()]);
        lemma_last_kept(s, before, x, after, brackets, j - 1);
    } else {
        assert(s[j - 1] == x.last());
    }
}

/// A range that is written in the usual way is read as it was written: the
/// start in decimal or nothing, two dots, and the end in decimal or
/// nothing give the range from that start to that end.
pub proof fn lemma_range_read_as_written(start: Option<usize>, end: Option<usize>)
    ensures
        slice_of(written_range(start, end)) == range_of(start, end),
{
    let empty = Seq::<char>::empty();
    lemma_range_read_wrapped(empty, empty, start, end, empty, empty);
    assert(empty + empty + written_range(start, end) + empty + empty =~= written_range(
        start,
        end,
    ));
}

/// White space and square brackets around a range do not change what it
/// is read as: with any white space before and after it, and any square
/// brackets between the white space and the range, a range written in the
/// usual way gives the range from its start to its end.
pub proof fn lemma_range_read_wrapped(
    space_before: Seq<char>,
    opening: Seq<char>,
    start: Option<usize>,
    end: Option<usize>,
    closing: Seq<char>,
    space_after: Seq<char>,
)
    requires
        all_trimmed(space_before, false),
        all_trimmed(space_after, false),
        all_trimmed(opening, true),
        all_trimmed(closing, true),
    ensures
        slice_of(space_before + opening + written_range(start, end) + closing + space_after)
            == range_of(start, end),
{
    let core = written_range(start, end);
    let inner = opening + core + closing;
    let whole = space_before + opening + core + closing + space_after;
    lemma_written_range(start, end);
    lemma_spelled_written(start);
    lemma_spelled_written(end);
    assert(whole =~= space_before + inner + space_after);
    assert(!is_trimmed(inner[0], false)) by {
        if opening.len() > 0 {
            assert(is_trimmed(opening[0], true));
            assert(inner[0] == opening[0]);
        } else {
            assert(inner[0] == core[0]);
        }
    }
    assert(!is_trimmed(inner.last(), false)) by {
        if closing.len() > 0 {
            assert(is_trimmed(closing.last(), true));
            assert(inner.last() == closing.last());
        } else {
            assert(inner.last() == core.last());
        }
    }
    lemma_trimmed_wrapped(space_before, inner, space_after, false);
    lemma_trimmed_wrapped(opening, core, closing, true);
}

/// Whether a range holds a position.
pub open spec fn holds(range: (Bound, Bound), i: int) -> bool {
    &&& match range.0 {
        Bound::Included(s) => s <= i,
        Bound::Excluded(s) => s < i,
        Bound::Unbounded => true,
    }
    &&& match range.1 {
        Bound::Included(e) => i <= e,
        Bound::Excluded(e) => i < e,
        Bound::Unbounded => true,
    }
}

/// The range from a start to an end is half open: it holds the positions
/// that lie at or after the start, where there is one, and before the end,
/// where there is one.
pub proof fn lemma_range_is_half_open(start: Option<usize>, end: Option<usize>, i: int)
    requires
        0 <= i < usize::MAX,
        range_of(start, end) is Ok,
    ensures
        holds(range_of(start, end)->Ok_0, i) <==> (start matches Some(a) ==> a <= i) && (
        end matches Some(b) ==> i < b),
{
}

/// The window of a range in an index is made of the positions that the
/// range holds.
pub proof fn lemma_window_holds(range: (Bound, Bound), len: int, i: int)
    requires
        0 <= i < len,
        window(range, len) is Some,
    ensures
        window(range, len) matches Some((from, to)) && (holds(range, i) <==> from <= i < to),
{
}

} // verus!
