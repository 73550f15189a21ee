//! Text primitives with the exact meaning of the `str` methods the parsers
//! rely on (`lines`, `trim`, `split_once`, `strip_prefix`, `strip_suffix`,
//! `starts_with`, unsigned `parse`), stated over `Seq<char>` and
//! implemented on character slices.

use vstd::prelude::*;

verus! {

broadcast use vstd::string::group_string_axioms;

/// The characters of `s`.
pub fn chars_of(s: &str) -> (v: Vec<char>)
    ensures
        v@ == s@,
{
    let mut v: Vec<char> = Vec::new();
    for c in it: s.chars()
        invariant
            v@.len() == it.index(),
            forall|k: int| 0 <= k < v@.len() ==> v@[k] == it.seq()[k],
    {
        v.push(c);
    }
    proof {
        assert(v@ =~= s@);
    }
    v
}


// ---------------------------------------------------------------------------
// Specifications
// ---------------------------------------------------------------------------

/// `char::is_whitespace`: the Unicode `White_Space` property.
pub open spec fn is_ws(c: char) -> bool {
    let u = c as u32;
    ||| 0x09 <= u <= 0x0D
    ||| u == 0x20
    ||| u == 0x85
    ||| u == 0xA0
    ||| u == 0x1680
    ||| 0x2000 <= u <= 0x200A
    ||| u == 0x2028
    ||| u == 0x2029
    ||| u == 0x202F
    ||| u == 0x205F
    ||| u == 0x3000
}

/// `str::trim_start`.
pub open spec fn trim_start(s: Seq<char>) -> Seq<char>
    decreases s.len(),
{
    if s.len() > 0 && is_ws(s[0]) {
        trim_start(s.drop_first())
    } else {
        s
    }
}

/// `str::trim_end`.
pub open spec fn trim_end(s: Seq<char>) -> Seq<char>
    decreases s.len(),
{
    if s.len() > 0 && is_ws(s.last()) {
        trim_end(s.drop_last())
    } else {
        s
    }
}

/// `str::trim`.
pub open spec fn trim(s: Seq<char>) -> Seq<char> {
    trim_end(trim_start(s))
}

/// Index of the first `c` in `s`, or `s.len()` when there is none.
pub open spec fn find_char(s: Seq<char>, c: char) -> int
    decreases s.len(),
{
    if s.len() == 0 {
        0
    } else if s[0] == c {
        0
    } else {
        1 + find_char(s.drop_first(), c)
    }
}

/// `s` without one trailing carriage return.
pub open spec fn strip_cr(s: Seq<char>) -> Seq<char> {
    if s.len() > 0 && s.last() == '\r' {
        s.drop_last()
    } else {
        s
    }
}

/// `str::lines`: split at `\n`, drop a `\r` right before a `\n`, and yield
/// no empty line after a final line ending.
pub open spec fn lines(s: Seq<char>) -> Seq<Seq<char>>
    decreases s.len(),
{
    if s.len() == 0 {
        Seq::empty()
    } else {
        let i = find_char(s, '\n');
        if i >= s.len() {
            seq![s]
        } else {
            proof {
                lemma_find_char_bounds(s, '\n');
            }
            seq![strip_cr(s.subrange(0, i))] + lines(s.subrange(i + 1, s.len() as int))
        }
    }
}

/// `str::starts_with` with a string pattern.
pub open spec fn starts_with(s: Seq<char>, p: Seq<char>) -> bool {
    p.len() <= s.len() && s.subrange(0, p.len() as int) == p
}

/// `str::strip_prefix` with a string pattern.
pub open spec fn strip_prefix(s: Seq<char>, p: Seq<char>) -> Option<Seq<char>> {
    if starts_with(s, p) {
        Some(s.subrange(p.len() as int, s.len() as int))
    } else {
        None
    }
}

/// `str::ends_with` with a string pattern.
pub open spec fn ends_with(s: Seq<char>, p: Seq<char>) -> bool {
    p.len() <= s.len() && s.subrange(s.len() - p.len(), s.len() as int) == p
}

/// `str::strip_suffix` with a string pattern.
pub open spec fn strip_suffix(s: Seq<char>, p: Seq<char>) -> Option<Seq<char>> {
    if ends_with(s, p) {
        Some(s.subrange(0, s.len() - p.len()))
    } else {
        None
    }
}

/// `str::split_once` with a character pattern.
pub open spec fn split_once(s: Seq<char>, c: char) -> Option<(Seq<char>, Seq<char>)> {
    let i = find_char(s, c);
    if 0 <= i < s.len() {
        Some((s.subrange(0, i), s.subrange(i + 1, s.len() as int)))
    } else {
        None
    }
}

/// `str::contains` with a character pattern.
pub open spec fn contains_char(s: Seq<char>, c: char) -> bool {
    exists|k: int| 0 <= k < s.len() && s[k] == c
}

/// An ASCII decimal digit.
pub open spec fn is_digit(c: char) -> bool {
    0x30 <= (c as u32) <= 0x39
}

/// The value of an ASCII decimal digit.
pub open spec fn digit_value(c: char) -> nat {
    ((c as u32) - 0x30) as nat
}

/// Only ASCII decimal digits.
pub open spec fn all_digits(d: Seq<char>) -> bool {
    forall|k: int| 0 <= k < d.len() ==> is_digit(d[k])
}

/// The number that the decimal digits `d` spell.
pub open spec fn digits_value(d: Seq<char>) -> nat
    decreases d.len(),
{
    if d.len() == 0 {
        0
    } else {
        digits_value(d.drop_last()) * 10 + digit_value(d.last())
    }
}

/// The digits that an unsigned `parse` reads: one leading `+` is skipped.
pub open spec fn unsigned_digits(s: Seq<char>) -> Seq<char> {
    if s.len() > 0 && s[0] == '+' {
        s.drop_first()
    } else {
        s
    }
}

/// At least one ASCII digit, spelling a number of at most `max`.
pub open spec fn digits_number(d: Seq<char>, max: nat) -> Option<nat> {
    if d.len() > 0 && all_digits(d) && digits_value(d) <= max {
        Some(digits_value(d))
    } else {
        None
    }
}

/// Unsigned `str::parse` (`u32`, `u64`, ...) for a type whose largest
/// value is `max`: an optional `+`, then at least one ASCII digit, and no
/// overflow.
pub open spec fn parse_unsigned(s: Seq<char>, max: nat) -> Option<nat> {
    digits_number(unsigned_digits(s), max)
}

/// `i32` `str::parse`: an optional sign, then at least one ASCII digit,
/// within `i32`'s range.
pub open spec fn parse_i32(s: Seq<char>) -> Option<int> {
    if s.len() > 0 && s[0] == '-' {
        match digits_number(s.drop_first(), 0x8000_0000) {
            Some(v) => Some(-v),
            None => None,
        }
    } else {
        match parse_unsigned(s, 0x7fff_ffff) {
            Some(v) => Some(v as int),
            None => None,
        }
    }
}

// ---------------------------------------------------------------------------
// Lemmas
// ---------------------------------------------------------------------------

/// `find_char` is a position in `s` before which `c` does not occur.
pub proof fn lemma_find_char_bounds(s: Seq<char>, c: char)
    ensures
        0 <= find_char(s, c) <= s.len(),
        find_char(s, c) < s.len() ==> s[find_char(s, c)] == c,
        forall|k: int| 0 <= k < find_char(s, c) ==> s[k] != c,
    decreases s.len(),
{
    if s.len() > 0 && s[0] != c {
        lemma_find_char_bounds(s.drop_first(), c);
        assert forall|k: int| 0 <= k < find_char(s, c) implies s[k] != c by {
            if k > 0 {
                assert(s[k] == s.drop_first()[k - 1]);
            }
        }
    }
}

/// `find_char` is the first position holding `c`.
pub proof fn lemma_find_char_is(s: Seq<char>, c: char, i: int)
    requires
        0 <= i <= s.len(),
        forall|k: int| 0 <= k < i ==> s[k] != c,
        i == s.len() || s[i] == c,
    ensures
        find_char(s, c) == i,
    decreases i,
{
    if i > 0 {
        lemma_find_char_is(s.drop_first(), c, i - 1);
    }
}

/// `trim_start` drops exactly the leading whitespace.
pub proof fn lemma_trim_start_is(s: Seq<char>, i: int)
    requires
        0 <= i <= s.len(),
        forall|k: int| 0 <= k < i ==> is_ws(s[k]),
        i == s.len() || !is_ws(s[i]),
    ensures
        trim_start(s) == s.subrange(i, s.len() as int),
    decreases i,
{
    if i > 0 {
        lemma_trim_start_is(s.drop_first(), i - 1);
        assert(s.drop_first().subrange(i - 1, s.len() - 1) =~= s.subrange(i, s.len() as int));
    } else {
        assert(s.subrange(0, s.len() as int) =~= s);
    }
}

/// `trim_end` drops exactly the trailing whitespace.
pub proof fn lemma_trim_end_is(s: Seq<char>, j: int)
    requires
        0 <= j <= s.len(),
        forall|k: int| j <= k < s.len() ==> is_ws(s[k]),
        j == 0 || !is_ws(s[j - 1]),
    ensures
        trim_end(s) == s.subrange(0, j),
    decreases s.len() - j,
{
    if j < s.len() {
        lemma_trim_end_is(s.drop_last(), j);
        assert(s.drop_last().subrange(0, j) =~= s.subrange(0, j));
    } else {
        assert(s.subrange(0, s.len() as int) =~= s);
    }
}

/// More digits never spell a smaller number.
pub proof fn lemma_digits_value_monotone(d: Seq<char>, k: int)
    requires
        0 <= k <= d.len(),
    ensures
        digits_value(d.subrange(0, k)) <= digits_value(d),
    decreases d.len() - k,
{
    if k < d.len() {
        lemma_digits_value_monotone(d.drop_last(), k);
        assert(d.drop_last().subrange(0, k) =~= d.subrange(0, k));
    } else {
        assert(d.subrange(0, k) =~= d);
    }
}

// ---------------------------------------------------------------------------
// Executable helpers on character slices
// ---------------------------------------------------------------------------

/// `char::is_whitespace`.
pub fn is_whitespace(c: char) -> (r: bool)
    ensures
        r == is_ws(c),
{
    let u = c as u32;
    (0x09 <= u && u <= 0x0D) || u == 0x20 || u == 0x85 || u == 0xA0 || u == 0x1680 || (0x2000
        <= u && u <= 0x200A) || u == 0x2028 || u == 0x2029 || u == 0x202F || u == 0x205F || u
        == 0x3000
}

/// Bounds of `trim(s[lo..hi])` inside `s`.
pub fn trim_range(s: &[char], lo: usize, hi: usize) -> (r: (usize, usize))
    requires
        lo <= hi <= s@.len(),
    ensures
        lo <= r.0 <= r.1 <= hi,
        s@.subrange(r.0 as int, r.1 as int) == trim(s@.subrange(lo as int, hi as int)),
{
    let mut a = lo;
    while a < hi && is_whitespace(s[a])
        invariant
            lo <= a <= hi <= s@.len(),
            forall|k: int| lo <= k < a ==> is_ws(s@[k]),
        decreases hi - a,
    {
        a = a + 1;
    }
    let mut b = hi;
    while b > a && is_whitespace(s[b - 1])
        invariant
            lo <= a <= b <= hi <= s@.len(),
            forall|k: int| b <= k < hi ==> is_ws(s@[k]),
        decreases b - a,
    {
        b = b - 1;
    }
    proof {
        let t = s@.subrange(lo as int, hi as int);
        lemma_trim_start_is(t, a - lo);
        assert(t.subrange(a - lo, t.len() as int) =~= s@.subrange(a as int, hi as int));
        let u = s@.subrange(a as int, hi as int);
        lemma_trim_end_is(u, b - a);
        assert(u.subrange(0, b - a) =~= s@.subrange(a as int, b as int));
    }
    (a, b)
}

/// Position of the first `c` in `s[lo..hi]`, or `hi`.
pub fn find_char_in(s: &[char], lo: usize, hi: usize, c: char) -> (r: usize)
    requires
        lo <= hi <= s@.len(),
    ensures
        lo <= r <= hi,
        r - lo == find_char(s@.subrange(lo as int, hi as int), c),
{
    let mut j = lo;
    while j < hi && s[j] != c
        invariant
            lo <= j <= hi <= s@.len(),
            forall|k: int| lo <= k < j ==> s@[k] != c,
        decreases hi - j,
    {
        j = j + 1;
    }
    proof {
        lemma_find_char_is(s@.subrange(lo as int, hi as int), c, j - lo);
    }
    j
}

/// Bounds of each of `lines(s)` inside `s`.
pub fn line_ranges(s: &[char]) -> (r: Vec<(usize, usize)>)
    ensures
        r@.len() == lines(s@).len(),
        forall|i: int| #![trigger r@[i]] 0 <= i < r@.len() ==> r@[i].0 <= r@[i].1 && r@[i].1 <= s@.len(),
        forall|i: int|
            0 <= i < r@.len() ==> s@.subrange(r@[i].0 as int, r@[i].1 as int) == #[trigger] lines(
                s@,
            )[i],
{
    let n = s.len();
    let mut r: Vec<(usize, usize)> = Vec::new();
    let mut pos: usize = 0;
    let ghost mut done: Seq<Seq<char>> = Seq::empty();
    proof {
        assert(s@.subrange(0, n as int) =~= s@);
        assert(done + lines(s@) =~= lines(s@));
    }
    while pos < n
        invariant
            n == s@.len(),
            pos <= n,
            lines(s@) == done + lines(s@.subrange(pos as int, n as int)),
            r@.len() == done.len(),
            forall|i: int| #![trigger r@[i]] 0 <= i < r@.len() ==> r@[i].0 <= r@[i].1 && r@[i].1 <= s@.len(),
            forall|i: int|
                0 <= i < r@.len() ==> s@.subrange(r@[i].0 as int, r@[i].1 as int) == #[trigger] done[i],
        decreases n - pos,
    {
        let ghost t = s@.subrange(pos as int, n as int);
        let j = find_char_in(s, pos, n, '\n');
        if j == n {
            let ghost old_r = r@;
            r.push((pos, n));
            proof {
                assert(forall|i: int| 0 <= i < old_r.len() ==> r@[i] == old_r[i]);
                assert(lines(t) == seq![t]);
                let old_done = done;
                done = done.push(t);
                assert(forall|i: int| 0 <= i < old_done.len() ==> done[i] == old_done[i]);
                assert(done[old_done.len() as int] == t);
                assert forall|i: int| 0 <= i < r@.len() implies #[trigger] r@[i].0 <= r@[i].1
                    && r@[i].1 <= s@.len() && s@.subrange(r@[i].0 as int, r@[i].1 as int) == done[i] by {
                    if i < old_r.len() {
                        assert(r@[i] == old_r[i]);
                        assert(done[i] == old_done[i]);
                    }
                }

                assert(s@.subrange(n as int, n as int) =~= Seq::<char>::empty());
                assert(lines(s@) =~= done + lines(s@.subrange(n as int, n as int)));
            }
            pos = n;
        } else {
            let end = if j > pos && s[j - 1] == '\r' { j - 1 } else { j };
            let ghost old_r = r@;
            r.push((pos, end));
            proof {
                assert(forall|i: int| 0 <= i < old_r.len() ==> r@[i] == old_r[i]);
                let i = j - pos;
                let line = strip_cr(t.subrange(0, i));
                assert(t.subrange(0, i) =~= s@.subrange(pos as int, j as int));
                assert(line =~= s@.subrange(pos as int, end as int));
                assert(t.subrange(i + 1, t.len() as int) =~= s@.subrange(j + 1, n as int));
                assert(lines(t) == seq![line] + lines(s@.subrange(j + 1, n as int)));
                let old_done = done;
                done = done.push(line);
                assert(forall|i: int| 0 <= i < old_done.len() ==> done[i] == old_done[i]);
                assert(done[old_done.len() as int] == line);
                assert forall|i: int| 0 <= i < r@.len() implies #[trigger] r@[i].0 <= r@[i].1
                    && r@[i].1 <= s@.len() && s@.subrange(r@[i].0 as int, r@[i].1 as int) == done[i] by {
                    if i < old_r.len() {
                        assert(r@[i] == old_r[i]);
                        assert(done[i] == old_done[i]);
                    }
                }

                assert(old_done + (seq![line] + lines(s@.subrange(j + 1, n as int))) =~= done
                    + lines(s@.subrange(j + 1, n as int)));
            }
            pos = j + 1;
        }
    }
    proof {
        assert(s@.subrange(n as int, n as int) =~= Seq::<char>::empty());
        assert(done + lines(Seq::<char>::empty()) =~= done);
        assert(lines(s@) == done);
        assert forall|i: int| 0 <= i < r@.len() implies s@.subrange(r@[i].0 as int, r@[i].1 as int)
            == #[trigger] lines(s@)[i] by {
            assert(s@.subrange(r@[i].0 as int, r@[i].1 as int) == done[i]);
        }
    }
    r
}

/// Whether `s[lo..hi]` equals `p`.
pub fn range_eq(s: &[char], lo: usize, hi: usize, p: &[char]) -> (r: bool)
    requires
        lo <= hi <= s@.len(),
    ensures
        r == (s@.subrange(lo as int, hi as int) == p@),
{
    if hi - lo != p.len() {
        return false;
    }
    let mut k: usize = 0;
    while k < p.len()
        invariant
            lo <= hi <= s@.len(),
            hi - lo == p@.len(),
            k <= p@.len(),
            forall|m: int| 0 <= m < k ==> s@[lo + m] == p@[m],
        decreases p@.len() - k,
    {
        if s[lo + k] != p[k] {
            proof {
                assert(s@.subrange(lo as int, hi as int)[k as int] != p@[k as int]);
            }
            return false;
        }
        k = k + 1;
    }
    proof {
        assert(s@.subrange(lo as int, hi as int) =~= p@);
    }
    true
}

/// Whether `s[lo..hi]` starts with `p`.
pub fn range_starts_with(s: &[char], lo: usize, hi: usize, p: &[char]) -> (r: bool)
    requires
        lo <= hi <= s@.len(),
    ensures
        r == starts_with(s@.subrange(lo as int, hi as int), p@),
{
    if p.len() > hi - lo {
        return false;
    }
    let r = range_eq(s, lo, lo + p.len(), p);
    proof {
        assert(s@.subrange(lo as int, hi as int).subrange(0, p@.len() as int) =~= s@.subrange(
            lo as int,
            lo + p@.len(),
        ));
    }
    r
}

/// Whether `s[lo..hi]` ends with `p`.
pub fn range_ends_with(s: &[char], lo: usize, hi: usize, p: &[char]) -> (r: bool)
    requires
        lo <= hi <= s@.len(),
    ensures
        r == ends_with(s@.subrange(lo as int, hi as int), p@),
{
    if p.len() > hi - lo {
        return false;
    }
    let r = range_eq(s, hi - p.len(), hi, p);
    proof {
        let t = s@.subrange(lo as int, hi as int);
        assert(t.subrange(t.len() - p@.len(), t.len() as int) =~= s@.subrange(
            hi - p@.len(),
            hi as int,
        ));
    }
    r
}

/// Whether `s[lo..hi]` contains `c`.
pub fn range_contains(s: &[char], lo: usize, hi: usize, c: char) -> (r: bool)
    requires
        lo <= hi <= s@.len(),
    ensures
        r == contains_char(s@.subrange(lo as int, hi as int), c),
{
    let j = find_char_in(s, lo, hi, c);
    proof {
        let t = s@.subrange(lo as int, hi as int);
        lemma_find_char_bounds(t, c);
        if j < hi {
            assert(t[j - lo] == c);
        }
    }
    j < hi
}

/// The number spelled by `s[lo..hi]`, which must be ASCII digits only
/// (at least one) and at most `max`.
pub fn parse_digits_range(s: &[char], lo: usize, hi: usize, max: u64) -> (r: Option<u64>)
    requires
        lo <= hi <= s@.len(),
    ensures
        r == (match digits_number(s@.subrange(lo as int, hi as int), max as nat) {
            Some(v) => Some(v as u64),
            None => None::<u64>,
        }),
{
    let ghost d = s@.subrange(lo as int, hi as int);
    if lo == hi {
        return None;
    }
    let mut acc: u64 = 0;
    let mut k = lo;
    while k < hi
        invariant
            lo < hi <= s@.len(),
            lo <= k <= hi,
            d == s@.subrange(lo as int, hi as int),
            all_digits(s@.subrange(lo as int, k as int)),
            acc == digits_value(s@.subrange(lo as int, k as int)),
            acc <= max,
        decreases hi - k,
    {
        let c = s[k];
        let u: u32 = c as u32;
        if u < 0x30 || u > 0x39 {
            proof {
                assert(d[k - lo] == c);
                assert(!is_digit(c));
                assert(!all_digits(d));
            }
            return None;
        }
        let dv = (u - 0x30) as u64;
        let next: u128 = (acc as u128) * 10 + (dv as u128);
        proof {
            let p = s@.subrange(lo as int, k + 1);
            assert(p.drop_last() =~= s@.subrange(lo as int, k as int));
            assert(p.last() == c);
            assert(digits_value(p) == next);
        }
        if next > max as u128 {
            proof {
                lemma_digits_value_monotone(d, k + 1 - lo);
                assert(d.subrange(0, k + 1 - lo) =~= s@.subrange(lo as int, k + 1));
            }
            return None;
        }
        acc = next as u64;
        k = k + 1;
    }
    proof {
        assert(s@.subrange(lo as int, hi as int) =~= d);
    }
    Some(acc)
}

/// Unsigned `parse` of `s[lo..hi]` for a type whose largest value is `max`.
pub fn parse_unsigned_range(s: &[char], lo: usize, hi: usize, max: u64) -> (r: Option<u64>)
    requires
        lo <= hi <= s@.len(),
    ensures
        r == (match parse_unsigned(s@.subrange(lo as int, hi as int), max as nat) {
            Some(v) => Some(v as u64),
            None => None::<u64>,
        }),
{
    let ghost t = s@.subrange(lo as int, hi as int);
    let start = if hi > lo && s[lo] == '+' { lo + 1 } else { lo };
    proof {
        assert(unsigned_digits(t) =~= s@.subrange(start as int, hi as int));
    }
    parse_digits_range(s, start, hi, max)
}

/// `i32` `parse` of `s[lo..hi]`.
pub fn parse_i32_range(s: &[char], lo: usize, hi: usize) -> (r: Option<i32>)
    requires
        lo <= hi <= s@.len(),
    ensures
        r == (match parse_i32(s@.subrange(lo as int, hi as int)) {
            Some(v) => Some(v as i32),
            None => None::<i32>,
        }),
{
    let ghost t = s@.subrange(lo as int, hi as int);
    if hi > lo && s[lo] == '-' {
        proof {
            assert(t.drop_first() =~= s@.subrange(lo + 1, hi as int));
        }
        match parse_digits_range(s, lo + 1, hi, 0x8000_0000) {
            Some(v) => {
                let neg: i64 = 0 - (v as i64);
                Some(neg as i32)
            },
            None => None,
        }
    } else {
        match parse_unsigned_range(s, lo, hi, 0x7fff_ffff) {
            Some(v) => Some(v as i32),
            None => None,
        }
    }
}

/// `str::trim` then unsigned 64-bit `parse`, as a sysfs counter is read.
pub fn parse_trimmed_u64(raw: &str) -> (r: Option<u64>)
    ensures
        r == (match parse_unsigned(trim(raw@), u64::MAX as nat) {
            Some(v) => Some(v as u64),
            None => None::<u64>,
        }),
{
    let cs = chars_of(raw);
    let (a, b) = trim_range(cs.as_slice(), 0, cs.len());
    proof {
        assert(cs@.subrange(0, cs@.len() as int) =~= raw@);
    }
    parse_unsigned_range(cs.as_slice(), a, b, u64::MAX)
}

/// `str::trim` then `i32` `parse`.
pub fn parse_trimmed_i32(raw: &str) -> (r: Option<i32>)
    ensures
        r == (match parse_i32(trim(raw@)) {
            Some(v) => Some(v as i32),
            None => None::<i32>,
        }),
{
    let cs = chars_of(raw);
    let (a, b) = trim_range(cs.as_slice(), 0, cs.len());
    proof {
        assert(cs@.subrange(0, cs@.len() as int) =~= raw@);
    }
    parse_i32_range(cs.as_slice(), a, b)
}

/// `String::push`: appends one character to the end of the string.
#[verifier::external_body]
fn push_char(s: &mut String, c: char)
    ensures
        final(s)@ == old(s)@.push(c),
{
    s.push(c)
}

/// Appends `s[lo..hi]` to `out`.
pub fn append_range(out: &mut String, s: &[char], lo: usize, hi: usize)
    requires
        lo <= hi <= s@.len(),
    ensures
        final(out)@ == old(out)@ + s@.subrange(lo as int, hi as int),
{
    let mut k = lo;
    while k < hi
        invariant
            lo <= k <= hi <= s@.len(),
            out@ == old(out)@ + s@.subrange(lo as int, k as int),
        decreases hi - k,
    {
        push_char(out, s[k]);
        proof {
            assert(old(out)@ + s@.subrange(lo as int, k + 1) =~= (old(out)@ + s@.subrange(
                lo as int,
                k as int,
            )).push(s@[k as int]));
        }
        k = k + 1;
    }
}

/// A new string holding `s[lo..hi]`.
pub fn string_of_range(s: &[char], lo: usize, hi: usize) -> (r: String)
    requires
        lo <= hi <= s@.len(),
    ensures
        r@ == s@.subrange(lo as int, hi as int),
{
    let mut out = String::new();
    append_range(&mut out, s, lo, hi);
    proof {
        assert(Seq::<char>::empty() + s@.subrange(lo as int, hi as int) =~= s@.subrange(
            lo as int,
            hi as int,
        ));
    }
    out
}


/// `str::trim`, as an owned string.
pub fn trimmed(s: &str) -> (r: String)
    ensures
        r@ == trim(s@),
{
    let cs = chars_of(s);
    let (a, b) = trim_range(cs.as_slice(), 0, cs.len());
    proof {
        assert(cs@.subrange(0, cs@.len() as int) =~= s@);
    }
    string_of_range(cs.as_slice(), a, b)
}

/// `str::starts_with` with a string pattern.
pub fn str_starts_with(s: &str, p: &str) -> (r: bool)
    ensures
        r == starts_with(s@, p@),
{
    let cs = chars_of(s);
    let ps = chars_of(p);
    proof {
        assert(cs@.subrange(0, cs@.len() as int) =~= s@);
    }
    range_starts_with(cs.as_slice(), 0, cs.len(), ps.as_slice())
}


/// The ASCII digit for `d < 10`.
pub open spec fn digit_char(d: nat) -> char {
    ((d + 0x30) as u32) as char
}

/// Decimal notation of `n`, as `Display` writes an unsigned integer.
pub open spec fn decimal(n: nat) -> Seq<char>
    decreases n,
{
    if n < 10 {
        seq![digit_char(n)]
    } else {
        decimal(n / 10).push(digit_char(n % 10))
    }
}

/// The first line of `ls` that starts with `p`, without `p`.
pub open spec fn first_prefixed(ls: Seq<Seq<char>>, p: Seq<char>) -> Option<Seq<char>>
    decreases ls.len(),
{
    if ls.len() == 0 {
        None
    } else if starts_with(ls[0], p) {
        strip_prefix(ls[0], p)
    } else {
        first_prefixed(ls.drop_first(), p)
    }
}

/// Some line of `ls`, trimmed, equals `p`.
pub open spec fn has_trimmed_line(ls: Seq<Seq<char>>, p: Seq<char>) -> bool {
    exists|k: int| 0 <= k < ls.len() && trim(#[trigger] ls[k]) == p
}

/// Appends the decimal notation of `n` to `out`.
pub fn append_decimal(out: &mut String, n: u64)
    ensures
        final(out)@ == old(out)@ + decimal(n as nat),
{
    let mut digits: Vec<char> = Vec::new();
    let mut m = n;
    proof {
        assert(decimal(n as nat) =~= decimal(m as nat) + digits@.reverse());
    }
    loop
        invariant_except_break
            decimal(n as nat) == decimal(m as nat) + digits@.reverse(),
        ensures
            decimal(n as nat) == digits@.reverse(),
        decreases m,
    {
        let d = m % 10;
        let c = ((d as u8) + 0x30) as char;
        proof {
            assert(c == digit_char(d as nat));
        }
        let ghost old_digits = digits@;
        digits.push(c);
        proof {
            assert(digits@.reverse() =~= seq![c] + old_digits.reverse());
        }
        if m < 10 {
            proof {
                assert(decimal(m as nat) == seq![c]);
                assert(decimal(n as nat) =~= digits@.reverse());
            }
            break;
        }
        let ghost m0 = m;
        m = m / 10;
        proof {
            assert(decimal(m0 as nat) == decimal(m as nat).push(c));
            assert(decimal(n as nat) =~= decimal(m as nat) + digits@.reverse());
        }
    }
    let mut k = digits.len();
    let ghost start = out@;
    while k > 0
        invariant
            k <= digits@.len(),
            out@ == start + digits@.reverse().subrange(0, (digits@.len() - k) as int),
            decimal(n as nat) == digits@.reverse(),
        decreases k,
    {
        k = k - 1;
        push_char(out, digits[k]);
        proof {
            let rv = digits@.reverse();
            assert(rv[(digits@.len() - k - 1) as int] == digits@[k as int]);
            assert(rv.subrange(0, (digits@.len() - k) as int) =~= rv.subrange(0, (digits@.len() - k - 1) as int).push(digits@[k as int]));
        }
    }
    proof {
        assert(digits@.reverse().subrange(0, digits@.len() as int) =~= digits@.reverse());
    }
}


/// The rest of the first line of `s` that starts with `p`, as bounds in `s`.
pub fn first_prefixed_in(s: &[char], p: &[char]) -> (r: Option<(usize, usize)>)
    ensures
        match first_prefixed(lines(s@), p@) {
            None => r is None,
            Some(v) => r matches Some(b) && b.0 <= b.1 <= s@.len() && s@.subrange(b.0 as int, b.1 as int) == v,
        },
{
    let ls = line_ranges(s);
    let ghost all = lines(s@);
    let mut i: usize = 0;
    proof {
        assert(all.subrange(0, all.len() as int) =~= all);
    }
    while i < ls.len()
        invariant
            all == lines(s@),
            ls@.len() == all.len(),
            forall|k: int| #![trigger ls@[k]] 0 <= k < ls@.len() ==> ls@[k].0 <= ls@[k].1 && ls@[k].1 <= s@.len(),
            forall|k: int|
                0 <= k < ls@.len() ==> s@.subrange(ls@[k].0 as int, ls@[k].1 as int) == #[trigger] all[k],
            i <= ls@.len(),
            first_prefixed(all.subrange(i as int, all.len() as int), p@) == first_prefixed(all, p@),
        decreases ls@.len() - i,
    {
        let (lo, hi) = ls[i];
        proof {
            assert(ls@[i as int].0 <= ls@[i as int].1);
            assert(s@.subrange(lo as int, hi as int) == all[i as int]);
            let rest = all.subrange(i as int, all.len() as int);
            assert(rest[0] == all[i as int]);
            assert(rest.drop_first() =~= all.subrange(i + 1, all.len() as int));
        }
        if range_starts_with(s, lo, hi, p) {
            proof {
                let line = all[i as int];
                assert(line.subrange(p@.len() as int, line.len() as int) =~= s@.subrange(lo + p@.len(), hi as int));
            }
            return Some((lo + p.len(), hi));
        }
        i = i + 1;
    }
    proof {
        assert(all.subrange(i as int, all.len() as int) =~= Seq::<Seq<char>>::empty());
    }
    None
}

/// Whether some line of `s`, trimmed, equals one of `p` or `q`.
pub fn has_trimmed_line_in(s: &[char], p: &[char], q: &[char]) -> (r: bool)
    ensures
        r == (has_trimmed_line(lines(s@), p@) || has_trimmed_line(lines(s@), q@)),
{
    let ls = line_ranges(s);
    let ghost all = lines(s@);
    let mut i: usize = 0;
    while i < ls.len()
        invariant
            all == lines(s@),
            ls@.len() == all.len(),
            forall|k: int| #![trigger ls@[k]] 0 <= k < ls@.len() ==> ls@[k].0 <= ls@[k].1 && ls@[k].1 <= s@.len(),
            forall|k: int|
                0 <= k < ls@.len() ==> s@.subrange(ls@[k].0 as int, ls@[k].1 as int) == #[trigger] all[k],
            i <= ls@.len(),
            forall|k: int| 0 <= k < i ==> trim(#[trigger] all[k]) != p@ && trim(all[k]) != q@,
        decreases ls@.len() - i,
    {
        let (lo, hi) = ls[i];
        proof {
            assert(ls@[i as int].0 <= ls@[i as int].1);
            assert(s@.subrange(lo as int, hi as int) == all[i as int]);
        }
        let (a, b) = trim_range(s, lo, hi);
        if range_eq(s, a, b, p) || range_eq(s, a, b, q) {
            proof {
                assert(trim(all[i as int]) == p@ || trim(all[i as int]) == q@);
            }
            return true;
        }
        i = i + 1;
    }
    false
}

} // verus!
