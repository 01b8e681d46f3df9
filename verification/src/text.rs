//! Character-level text primitives shared by the mesh file readers and
//! writers: Unicode whitespace, trimming, whitespace splitting, line
//! splitting, decimal integers and floating-point literal syntax.
//!
//! Each operation is stated as a spec function over `Seq<char>` and an
//! executable function that works on a range `[lo, hi)` of a `Vec<char>`.
use vstd::prelude::*;

verus! {

// ─── Whitespace ──────────────────────────────────────────────────────────────

/// The characters with the Unicode `White_Space` property.
pub open spec fn is_ws(c: char) -> bool {
    let u = c as u32;
    ||| 9 <= u <= 13
    ||| u == 32
    ||| u == 0x85
    ||| u == 0xA0
    ||| u == 0x1680
    ||| 0x2000 <= u <= 0x200A
    ||| u == 0x2028
    ||| u == 0x2029
    ||| u == 0x202F
    ||| u == 0x205F
    ||| u == 0x3000
}

/// Whether `c` is a Unicode whitespace character.
pub fn is_whitespace(c: char) -> (b: bool)
    ensures
        b == is_ws(c),
{
    let u = c as u32;
    (9 <= u && u <= 13) || u == 32 || u == 0x85 || u == 0xA0 || u == 0x1680 || (0x2000 <= u && u
        <= 0x200A) || u == 0x2028 || u == 0x2029 || u == 0x202F || u == 0x205F || u == 0x3000
}

/// No character of `s` is whitespace.
pub open spec fn no_ws(s: Seq<char>) -> bool {
    forall|i: int| 0 <= i < s.len() ==> !is_ws(#[trigger] s[i])
}

/// `s` with its leading whitespace removed.
pub open spec fn trim_start(s: Seq<char>) -> Seq<char>
    decreases s.len(),
{
    if s.len() > 0 && is_ws(s[0]) {
        trim_start(s.drop_first())
    } else {
        s
    }
}

/// `s` with its trailing whitespace removed.
pub open spec fn trim_end(s: Seq<char>) -> Seq<char>
    decreases s.len(),
{
    if s.len() > 0 && is_ws(s.last()) {
        trim_end(s.drop_last())
    } else {
        s
    }
}

/// `s` with leading and trailing whitespace removed.
pub open spec fn trim(s: Seq<char>) -> Seq<char> {
    trim_end(trim_start(s))
}

/// The bounds of `trim(text[lo..hi])` inside `text`.
pub fn trim_range(text: &Vec<char>, lo: usize, hi: usize) -> (r: (usize, usize))
    requires
        lo <= hi <= text@.len(),
    ensures
        lo <= r.0 <= r.1 <= hi,
        text@.subrange(r.0 as int, r.1 as int) == trim(text@.subrange(lo as int, hi as int)),
{
    let mut a = lo;
    while a < hi && is_whitespace(text[a])
        invariant
            lo <= a <= hi <= text@.len(),
            trim_start(text@.subrange(lo as int, hi as int)) == trim_start(
                text@.subrange(a as int, hi as int),
            ),
        decreases hi - a,
    {
        assert(text@.subrange(a as int, hi as int).drop_first() =~= text@.subrange(
            a + 1,
            hi as int,
        ));
        a = a + 1;
    }
    let mut b = hi;
    while b > a && is_whitespace(text[b - 1])
        invariant
            lo <= a <= b <= hi <= text@.len(),
            trim_start(text@.subrange(lo as int, hi as int)) == text@.subrange(a as int, hi as int),
            trim_end(text@.subrange(a as int, hi as int)) == trim_end(
                text@.subrange(a as int, b as int),
            ),
        decreases b - a,
    {
        assert(text@.subrange(a as int, b as int).drop_last() =~= text@.subrange(
            a as int,
            b - 1,
        ));
        b = b - 1;
    }
    (a, b)
}

/// Removes a trailing carriage return.
pub open spec fn strip_cr(s: Seq<char>) -> Seq<char> {
    if s.len() > 0 && s.last() == '\r' {
        s.drop_last()
    } else {
        s
    }
}

// ─── Whitespace splitting ────────────────────────────────────────────────────

/// Emits the word under construction, if any.
pub open spec fn flush_word(cur: Seq<char>) -> Seq<Seq<char>> {
    if cur.len() > 0 {
        seq![cur]
    } else {
        seq![]
    }
}

/// Splits `s` at whitespace, `cur` being the word read so far.
pub open spec fn split_acc(s: Seq<char>, cur: Seq<char>) -> Seq<Seq<char>>
    decreases s.len(),
{
    if s.len() == 0 {
        flush_word(cur)
    } else if is_ws(s[0]) {
        flush_word(cur) + split_acc(s.drop_first(), seq![])
    } else {
        split_acc(s.drop_first(), cur.push(s[0]))
    }
}

/// The maximal runs of non-whitespace characters of `s`, in order.
pub open spec fn split_ws(s: Seq<char>) -> Seq<Seq<char>> {
    split_acc(s, seq![])
}

/// The subsequences of `text` that the ranges `rs` select.
pub open spec fn ranges_view(text: Seq<char>, rs: Seq<(usize, usize)>) -> Seq<Seq<char>> {
    rs.map_values(|r: (usize, usize)| text.subrange(r.0 as int, r.1 as int))
}

/// Every range of `rs` lies inside `[lo, hi)` and is non-empty.
pub open spec fn ranges_within(rs: Seq<(usize, usize)>, lo: int, hi: int) -> bool {
    forall|k: int|
        0 <= k < rs.len() ==> lo <= (#[trigger] rs[k]).0 < rs[k].1 <= hi
}

/// The ranges of the words of `text[lo..hi]`.
pub fn split_whitespace_ranges(text: &Vec<char>, lo: usize, hi: usize) -> (r: Vec<(usize, usize)>)
    requires
        lo <= hi <= text@.len(),
    ensures
        ranges_view(text@, r@) == split_ws(text@.subrange(lo as int, hi as int)),
        ranges_within(r@, lo as int, hi as int),
{
    let mut out: Vec<(usize, usize)> = Vec::new();
    let mut i = lo;
    let mut start = lo;
    assert(ranges_view(text@, out@) =~= Seq::<Seq<char>>::empty());
    assert(text@.subrange(start as int, i as int) =~= Seq::<char>::empty());
    assert(Seq::<Seq<char>>::empty() + split_ws(text@.subrange(lo as int, hi as int)) =~= split_ws(text@.subrange(lo as int, hi as int)));
    while i < hi
        invariant
            lo <= start <= i <= hi <= text@.len(),
            ranges_within(out@, lo as int, start as int),
            split_ws(text@.subrange(lo as int, hi as int)) == ranges_view(text@, out@) + split_acc(
                text@.subrange(i as int, hi as int),
                text@.subrange(start as int, i as int),
            ),
        decreases hi - i,
    {
        let ghost rest = text@.subrange(i as int, hi as int);
        assert(rest.drop_first() =~= text@.subrange(i + 1, hi as int));
        assert(rest[0] == text@[i as int]);
        if is_whitespace(text[i]) {
            let ghost cur = text@.subrange(start as int, i as int);
            if start < i {
                let ghost old_out = out@;
                out.push((start, i));
                assert(ranges_view(text@, out@) =~= ranges_view(text@, old_out) + seq![cur]);
            } else {
                assert(cur =~= Seq::<char>::empty());
            }
            i = i + 1;
            start = i;
            assert(text@.subrange(start as int, i as int) =~= Seq::<char>::empty());
        } else {
            assert(text@.subrange(start as int, i as int).push(text@[i as int]) =~= text@.subrange(
                start as int,
                i + 1,
            ));
            i = i + 1;
        }
    }
    if start < hi {
        let ghost old_out = out@;
        out.push((start, hi));
        assert(ranges_view(text@, out@) =~= ranges_view(text@, old_out) + seq![
            text@.subrange(start as int, hi as int),
        ]);
    }
    assert(text@.subrange(i as int, hi as int) =~= Seq::<char>::empty());
    assert(ranges_view(text@, out@) =~= split_ws(text@.subrange(lo as int, hi as int)));
    out
}

// ─── Line splitting ──────────────────────────────────────────────────────────

/// Splits `s` into lines, `cur` being the line read so far: a line ends at
/// `'\n'`, which is dropped together with a `'\r'` just before it; a last
/// piece with no `'\n'` after it is a line when it is not empty.
pub open spec fn lines_acc(s: Seq<char>, cur: Seq<char>) -> Seq<Seq<char>>
    decreases s.len(),
{
    if s.len() == 0 {
        flush_word(cur)
    } else if s[0] == '\n' {
        seq![strip_cr(cur)] + lines_acc(s.drop_first(), seq![])
    } else {
        lines_acc(s.drop_first(), cur.push(s[0]))
    }
}

/// The lines of `s`, as a buffered reader yields them.
pub open spec fn lines_of(s: Seq<char>) -> Seq<Seq<char>> {
    lines_acc(s, seq![])
}

/// The ranges of the lines of `text`.
pub fn line_ranges(text: &Vec<char>) -> (r: Vec<(usize, usize)>)
    ensures
        ranges_view(text@, r@) == lines_of(text@),
        forall|k: int| 0 <= k < r@.len() ==> (#[trigger] r@[k]).0 <= r@[k].1 <= text@.len(),
        r@.len() <= text@.len(),
{
    let mut out: Vec<(usize, usize)> = Vec::new();
    let hi = text.len();
    let mut i: usize = 0;
    let mut start: usize = 0;
    assert(ranges_view(text@, out@) =~= Seq::<Seq<char>>::empty());
    assert(text@.subrange(start as int, i as int) =~= Seq::<char>::empty());
    assert(text@.subrange(0, hi as int) =~= text@);
    assert(Seq::<Seq<char>>::empty() + lines_of(text@) =~= lines_of(text@));
    while i < hi
        invariant
            start <= i <= hi == text@.len(),
            forall|k: int| 0 <= k < out@.len() ==> (#[trigger] out@[k]).0 <= out@[k].1 <= start,
            out@.len() <= start,
            lines_of(text@) == ranges_view(text@, out@) + lines_acc(
                text@.subrange(i as int, hi as int),
                text@.subrange(start as int, i as int),
            ),
        decreases hi - i,
    {
        let ghost rest = text@.subrange(i as int, hi as int);
        assert(rest.drop_first() =~= text@.subrange(i + 1, hi as int));
        assert(rest[0] == text@[i as int]);
        if text[i] == '\n' {
            let ghost cur = text@.subrange(start as int, i as int);
            let end = if start < i && text[i - 1] == '\r' {
                i - 1
            } else {
                i
            };
            assert(text@.subrange(start as int, end as int) =~= strip_cr(cur));
            let ghost old_out = out@;
            out.push((start, end));
            assert(ranges_view(text@, out@) =~= ranges_view(text@, old_out) + seq![strip_cr(cur)]);
            i = i + 1;
            start = i;
            assert(text@.subrange(start as int, i as int) =~= Seq::<char>::empty());
        } else {
            assert(text@.subrange(start as int, i as int).push(text@[i as int]) =~= text@.subrange(
                start as int,
                i + 1,
            ));
            i = i + 1;
        }
    }
    if start < hi {
        let ghost old_out = out@;
        out.push((start, hi));
        assert(ranges_view(text@, out@) =~= ranges_view(text@, old_out) + seq![
            text@.subrange(start as int, hi as int),
        ]);
    }
    assert(text@.subrange(i as int, hi as int) =~= Seq::<char>::empty());
    assert(ranges_view(text@, out@) =~= lines_of(text@));
    out
}

/// The text `text[a..b]` as a string.
pub fn range_string(text: &Vec<char>, a: usize, b: usize) -> (s: String)
    requires
        a <= b <= text@.len(),
    ensures
        s@ == text@.subrange(a as int, b as int),
{
    let mut s = String::new();
    let mut k = a;
    while k < b
        invariant
            a <= k <= b <= text@.len(),
            s@ == text@.subrange(a as int, k as int),
        decreases b - k,
    {
        s.push(text[k]);
        k = k + 1;
        assert(s@ =~= text@.subrange(a as int, k as int));
    }
    s
}

/// Whether `text[a..b]` equals `w`.
pub fn range_eq(text: &Vec<char>, a: usize, b: usize, w: &Vec<char>) -> (r: bool)
    requires
        a <= b <= text@.len(),
    ensures
        r == (text@.subrange(a as int, b as int) == w@),
{
    if b - a != w.len() {
        return false;
    }
    let mut k: usize = 0;
    while k < w.len()
        invariant
            b - a == w@.len(),
            a <= b <= text@.len(),
            k <= w@.len(),
            forall|j: int| 0 <= j < k ==> text@[a + j] == w@[j],
        decreases w@.len() - k,
    {
        if text[a + k] != w[k] {
            assert(text@.subrange(a as int, b as int)[k as int] != w@[k as int]);
            return false;
        }
        k = k + 1;
    }
    assert(text@.subrange(a as int, b as int) =~= w@);
    true
}

/// Whether `text[a..b]` begins with `w`.
pub fn range_starts_with(text: &Vec<char>, a: usize, b: usize, w: &Vec<char>) -> (r: bool)
    requires
        a <= b <= text@.len(),
    ensures
        r == (w@.len() <= b - a && text@.subrange(a as int, b as int).take(w@.len() as int) == w@),
{
    if b - a < w.len() {
        return false;
    }
    let r = range_eq(text, a, a + w.len(), w);
    assert(text@.subrange(a as int, b as int).take(w@.len() as int) =~= text@.subrange(
        a as int,
        a + w@.len(),
    ));
    r
}

/// A single space.
pub open spec fn space() -> Seq<char> {
    seq![' ']
}

/// ` w1 w2 ...`: each word preceded by a space.
pub open spec fn spaced(ws: Seq<Seq<char>>) -> Seq<char>
    decreases ws.len(),
{
    if ws.len() == 0 {
        seq![]
    } else {
        spaced(ws.drop_last()) + space() + ws.last()
    }
}

/// The lines of `ls`, each followed by a line feed.
pub open spec fn join_lines(ls: Seq<Seq<char>>) -> Seq<char>
    decreases ls.len(),
{
    if ls.len() == 0 {
        seq![]
    } else {
        join_lines(ls.drop_last()) + ls.last() + seq!['\n']
    }
}

// ─── Decimal integers ────────────────────────────────────────────────────────

/// An ASCII decimal digit.
pub open spec fn is_digit(c: char) -> bool {
    48 <= (c as u32) <= 57
}

/// The value of an ASCII decimal digit.
pub open spec fn digit_val(c: char) -> nat {
    ((c as u32) - 48) as nat
}

/// Every character of `s` is an ASCII decimal digit.
pub open spec fn all_digits(s: Seq<char>) -> bool {
    forall|i: int| 0 <= i < s.len() ==> is_digit(#[trigger] s[i])
}

/// The value of a string of decimal digits.
pub open spec fn digits_value(s: Seq<char>) -> nat
    decreases s.len(),
{
    if s.len() == 0 {
        0
    } else {
        digits_value(s.drop_last()) * 10 + digit_val(s.last())
    }
}

/// A non-empty string of digits, read as a number.
pub open spec fn parse_digits(s: Seq<char>) -> Option<nat> {
    if s.len() > 0 && all_digits(s) {
        Some(digits_value(s))
    } else {
        None
    }
}

/// The value of an unsigned integer literal: an optional `+` and digits.
pub open spec fn parse_unsigned(s: Seq<char>) -> Option<nat> {
    if s.len() > 0 && s[0] == '+' {
        parse_digits(s.drop_first())
    } else {
        parse_digits(s)
    }
}

/// `s` read as a `u64`, as `str::parse::<u64>` reads it.
pub open spec fn parse_u64(s: Seq<char>) -> Option<u64> {
    match parse_unsigned(s) {
        Some(v) => if v <= u64::MAX {
            Some(v as u64)
        } else {
            None
        },
        None => None,
    }
}

/// `s` read as a `usize`, as `str::parse::<usize>` reads it.
pub open spec fn parse_usize(s: Seq<char>) -> Option<usize> {
    match parse_unsigned(s) {
        Some(v) => if v <= usize::MAX {
            Some(v as usize)
        } else {
            None
        },
        None => None,
    }
}

/// `s` read as an `i32`, as `str::parse::<i32>` reads it.
pub open spec fn parse_i32(s: Seq<char>) -> Option<i32> {
    if s.len() > 0 && s[0] == '-' {
        match parse_digits(s.drop_first()) {
            Some(v) => if v <= 0x8000_0000 {
                Some((0 - v) as i32)
            } else {
                None
            },
            None => None,
        }
    } else {
        match parse_unsigned(s) {
            Some(v) => if v <= 0x7fff_ffff {
                Some(v as i32)
            } else {
                None
            },
            None => None,
        }
    }
}

/// The value of `text[lo..hi]` when it is a non-empty string of digits whose
/// value fits in a `u64`; `None` otherwise, and `overflow` tells which.
fn scan_digits(text: &Vec<char>, lo: usize, hi: usize) -> (r: (Option<u64>, bool))
    requires
        lo <= hi <= text@.len(),
    ensures
        match parse_digits(text@.subrange(lo as int, hi as int)) {
            Some(v) => if v <= u64::MAX {
                r.0 == Some(v as u64)
            } else {
                r.0 is None && r.1
            },
            None => r.0 is None && !r.1,
        },
{
    if lo == hi {
        assert(text@.subrange(lo as int, hi as int).len() == 0);
        return (None, false);
    }
    let mut v: u64 = 0;
    let mut big = false;
    let mut i = lo;
    while i < hi
        invariant
            lo <= i <= hi <= text@.len(),
            all_digits(text@.subrange(lo as int, i as int)),
            !big ==> v == digits_value(text@.subrange(lo as int, i as int)),
            big ==> digits_value(text@.subrange(lo as int, i as int)) > u64::MAX,
        decreases hi - i,
    {
        let c = text[i];
        let u = c as u32;
        let ghost pre = text@.subrange(lo as int, i as int);
        let ghost nxt = text@.subrange(lo as int, i + 1);
        assert(nxt.drop_last() =~= pre);
        assert(nxt.last() == c);
        if !(48 <= u && u <= 57) {
            assert(!all_digits(text@.subrange(lo as int, hi as int))) by {
                assert(text@.subrange(lo as int, hi as int)[i - lo] == c);
            }
            return (None, false);
        }
        let d = (u - 48) as u64;
        if !big {
            if v > (u64::MAX - d) / 10 {
                big = true;
                assert(v * 10 + d > u64::MAX) by (nonlinear_arith)
                    requires
                        v > (u64::MAX - d) / 10,
                        d <= 9,
                ;
            } else {
                assert(v * 10 + d <= u64::MAX) by (nonlinear_arith)
                    requires
                        v <= (u64::MAX - d) / 10,
                        d <= 9,
                ;
                v = v * 10 + d;
            }
        } else {
            assert(digits_value(nxt) >= digits_value(pre));
        }
        i = i + 1;
    }
    if big {
        (None, true)
    } else {
        (Some(v), false)
    }
}

/// `text[lo..hi]` read as an unsigned literal (optional `+`, then digits).
fn scan_unsigned(text: &Vec<char>, lo: usize, hi: usize) -> (r: (Option<u64>, bool))
    requires
        lo <= hi <= text@.len(),
    ensures
        match parse_unsigned(text@.subrange(lo as int, hi as int)) {
            Some(v) => if v <= u64::MAX {
                r.0 == Some(v as u64)
            } else {
                r.0 is None && r.1
            },
            None => r.0 is None && !r.1,
        },
{
    let ghost s = text@.subrange(lo as int, hi as int);
    if lo < hi && text[lo] == '+' {
        assert(s.drop_first() =~= text@.subrange(lo + 1, hi as int));
        scan_digits(text, lo + 1, hi)
    } else {
        scan_digits(text, lo, hi)
    }
}

/// `text[lo..hi]` read as a `u64`.
pub fn parse_u64_range(text: &Vec<char>, lo: usize, hi: usize) -> (r: Option<u64>)
    requires
        lo <= hi <= text@.len(),
    ensures
        r == parse_u64(text@.subrange(lo as int, hi as int)),
{
    scan_unsigned(text, lo, hi).0
}

/// `text[lo..hi]` read as a `usize`.
pub fn parse_usize_range(text: &Vec<char>, lo: usize, hi: usize) -> (r: Option<usize>)
    requires
        lo <= hi <= text@.len(),
    ensures
        r == parse_usize(text@.subrange(lo as int, hi as int)),
{
    match scan_unsigned(text, lo, hi).0 {
        Some(v) => {
            if v <= usize::MAX as u64 {
                Some(v as usize)
            } else {
                None
            }
        },
        None => None,
    }
}

/// `text[lo..hi]` read as an `i32`.
pub fn parse_i32_range(text: &Vec<char>, lo: usize, hi: usize) -> (r: Option<i32>)
    requires
        lo <= hi <= text@.len(),
    ensures
        r == parse_i32(text@.subrange(lo as int, hi as int)),
{
    let ghost s = text@.subrange(lo as int, hi as int);
    if lo < hi && text[lo] == '-' {
        assert(s.drop_first() =~= text@.subrange(lo + 1, hi as int));
        match scan_digits(text, lo + 1, hi).0 {
            Some(v) => {
                if v <= 0x8000_0000 {
                    Some((0 - (v as i64)) as i32)
                } else {
                    None
                }
            },
            None => None,
        }
    } else {
        match scan_unsigned(text, lo, hi).0 {
            Some(v) => {
                if v <= 0x7fff_ffff {
                    Some(v as i32)
                } else {
                    None
                }
            },
            None => None,
        }
    }
}

// ─── Floating-point literal syntax ───────────────────────────────────────────

/// The number of leading digits of `s`.
pub open spec fn lead_digits(s: Seq<char>) -> nat
    decreases s.len(),
{
    if s.len() > 0 && is_digit(s[0]) {
        1 + lead_digits(s.drop_first())
    } else {
        0
    }
}

/// An exponent part: empty, or `e`/`E`, an optional sign and digits.
pub open spec fn exponent_ok(s: Seq<char>) -> bool {
    ||| s.len() == 0
    ||| {
        &&& (s[0] == 'e' || s[0] == 'E')
        &&& {
            let t = s.drop_first();
            let u = if t.len() > 0 && (t[0] == '+' || t[0] == '-') {
                t.drop_first()
            } else {
                t
            };
            u.len() > 0 && all_digits(u)
        }
    }
}

/// A decimal number: digits, an optional fraction and an optional exponent,
/// with at least one digit before the exponent.
pub open spec fn decimal_number(s: Seq<char>) -> bool {
    let m = lead_digits(s);
    let rest = s.skip(m as int);
    if rest.len() > 0 && rest[0] == '.' {
        let frac = rest.drop_first();
        let f = lead_digits(frac);
        (m > 0 || f > 0) && exponent_ok(frac.skip(f as int))
    } else {
        m > 0 && exponent_ok(rest)
    }
}

/// ASCII letters compared without regard to case.
pub open spec fn lower(c: char) -> char {
    if 65 <= (c as u32) <= 90 {
        ((c as u32) + 32) as char
    } else {
        c
    }
}

/// `s` equals the lower-case word `w` up to ASCII case.
pub open spec fn eq_ignore_case(s: Seq<char>, w: Seq<char>) -> bool {
    s.len() == w.len() && forall|i: int| 0 <= i < s.len() ==> lower(#[trigger] s[i]) == w[i]
}

/// The syntax that `str::parse::<f64>` accepts: an optional sign, then
/// `inf`, `infinity`, `nan` (in any case) or a decimal number.
pub open spec fn is_float_literal(s: Seq<char>) -> bool {
    let b = if s.len() > 0 && (s[0] == '+' || s[0] == '-') {
        s.drop_first()
    } else {
        s
    };
    ||| eq_ignore_case(b, seq!['i', 'n', 'f'])
    ||| eq_ignore_case(b, seq!['i', 'n', 'f', 'i', 'n', 'i', 't', 'y'])
    ||| eq_ignore_case(b, seq!['n', 'a', 'n'])
    ||| decimal_number(b)
}

/// Whether `c` is an ASCII decimal digit.
pub fn is_ascii_digit(c: char) -> (b: bool)
    ensures
        b == is_digit(c),
{
    let u = c as u32;
    48 <= u && u <= 57
}

/// The end of the run of digits that starts at `i` in `text[..hi]`.
fn digits_end(text: &Vec<char>, i: usize, hi: usize) -> (r: usize)
    requires
        i <= hi <= text@.len(),
    ensures
        i <= r <= hi,
        r - i == lead_digits(text@.subrange(i as int, hi as int)),
{
    let mut j = i;
    while j < hi && is_ascii_digit(text[j])
        invariant
            i <= j <= hi <= text@.len(),
            lead_digits(text@.subrange(i as int, hi as int)) == (j - i) + lead_digits(
                text@.subrange(j as int, hi as int),
            ),
        decreases hi - j,
    {
        assert(text@.subrange(j as int, hi as int).drop_first() =~= text@.subrange(
            j + 1,
            hi as int,
        ));
        j = j + 1;
    }
    j
}

/// Whether `text[lo..hi]` is a non-empty string of digits.
fn all_digits_range(text: &Vec<char>, lo: usize, hi: usize) -> (b: bool)
    requires
        lo <= hi <= text@.len(),
    ensures
        b == (hi > lo && all_digits(text@.subrange(lo as int, hi as int))),
{
    let e = digits_end(text, lo, hi);
    proof {
        lemma_lead_digits_all(text@.subrange(lo as int, hi as int));
    }
    lo < hi && e == hi
}

/// `lead_digits(s) == s.len()` exactly when all of `s` are digits, and the
/// first `lead_digits(s)` characters are digits.
pub proof fn lemma_lead_digits_all(s: Seq<char>)
    ensures
        lead_digits(s) <= s.len(),
        (lead_digits(s) == s.len()) == all_digits(s),
        all_digits(s.take(lead_digits(s) as int)),
        lead_digits(s) < s.len() ==> !is_digit(s[lead_digits(s) as int]),
    decreases s.len(),
{
    if s.len() > 0 {
        lemma_lead_digits_all(s.drop_first());
        if is_digit(s[0]) {
            assert forall|i: int| 0 <= i < s.take(lead_digits(s) as int).len() implies is_digit(
                #[trigger] s.take(lead_digits(s) as int)[i],
            ) by {
                if i > 0 {
                    assert(s.take(lead_digits(s) as int)[i] == s.drop_first().take(
                        lead_digits(s.drop_first()) as int,
                    )[i - 1]);
                }
            }
            if lead_digits(s) != s.len() {
                assert(!all_digits(s.drop_first()));
                let k = choose|k: int| 0 <= k < s.drop_first().len() && !is_digit(s.drop_first()[k]);
                assert(!is_digit(s[k + 1]));
            } else {
                assert forall|i: int| 0 <= i < s.len() implies is_digit(#[trigger] s[i]) by {
                    if i > 0 {
                        assert(s[i] == s.drop_first()[i - 1]);
                    }
                }
            }
        } else {
            assert(!all_digits(s) || s.len() == 0) by {
                assert(!is_digit(s[0]));
            }
        }
    } else {
        assert(s.take(0) =~= s);
    }
}

/// Whether `text[lo..hi]` is an exponent part.
fn exponent_ok_range(text: &Vec<char>, lo: usize, hi: usize) -> (b: bool)
    requires
        lo <= hi <= text@.len(),
    ensures
        b == exponent_ok(text@.subrange(lo as int, hi as int)),
{
    let ghost s = text@.subrange(lo as int, hi as int);
    if lo == hi {
        return true;
    }
    if !(text[lo] == 'e' || text[lo] == 'E') {
        return false;
    }
    let mut k = lo + 1;
    assert(s.drop_first() =~= text@.subrange(lo + 1, hi as int));
    if k < hi && (text[k] == '+' || text[k] == '-') {
        assert(text@.subrange(lo + 1, hi as int).drop_first() =~= text@.subrange(lo + 2, hi as int));
        k = k + 1;
    }
    all_digits_range(text, k, hi)
}

/// Whether `text[lo..hi]` equals the lower-case ASCII word `w` up to case.
fn eq_ignore_case_range(text: &Vec<char>, lo: usize, hi: usize, w: &Vec<char>) -> (b: bool)
    requires
        lo <= hi <= text@.len(),
    ensures
        b == eq_ignore_case(text@.subrange(lo as int, hi as int), w@),
{
    let ghost s = text@.subrange(lo as int, hi as int);
    if hi - lo != w.len() {
        return false;
    }
    let mut i: usize = 0;
    while i < w.len()
        invariant
            hi - lo == w@.len(),
            lo <= hi <= text@.len(),
            s == text@.subrange(lo as int, hi as int),
            i <= w@.len(),
            forall|j: int| 0 <= j < i ==> lower(#[trigger] s[j]) == w@[j],
        decreases w@.len() - i,
    {
        let c = text[lo + i];
        assert(s[i as int] == c);
        let u = c as u32;
        let l = if 65 <= u && u <= 90 {
            ((u + 32) as u8) as char
        } else {
            c
        };
        assert(l == lower(c));
        if l != w[i] {
            return false;
        }
        i = i + 1;
    }
    true
}

/// Whether `text[lo..hi]` is a floating-point literal.
pub fn is_float_literal_range(text: &Vec<char>, lo: usize, hi: usize) -> (b: bool)
    requires
        lo <= hi <= text@.len(),
    ensures
        b == is_float_literal(text@.subrange(lo as int, hi as int)),
{
    let ghost s = text@.subrange(lo as int, hi as int);
    let mut a = lo;
    if lo < hi && (text[lo] == '+' || text[lo] == '-') {
        assert(s.drop_first() =~= text@.subrange(lo + 1, hi as int));
        a = lo + 1;
    } else {
        assert(s =~= text@.subrange(lo as int, hi as int));
    }
    let ghost b = text@.subrange(a as int, hi as int);
    let inf = vec!['i', 'n', 'f'];
    let infinity = vec!['i', 'n', 'f', 'i', 'n', 'i', 't', 'y'];
    let nan = vec!['n', 'a', 'n'];
    assert(inf@ =~= seq!['i', 'n', 'f']);
    assert(infinity@ =~= seq!['i', 'n', 'f', 'i', 'n', 'i', 't', 'y']);
    assert(nan@ =~= seq!['n', 'a', 'n']);
    if eq_ignore_case_range(text, a, hi, &inf) || eq_ignore_case_range(text, a, hi, &infinity)
        || eq_ignore_case_range(text, a, hi, &nan) {
        return true;
    }
    let m = digits_end(text, a, hi);
    assert(b.skip((m - a) as int) =~= text@.subrange(m as int, hi as int));
    if m < hi && text[m] == '.' {
        assert(text@.subrange(m as int, hi as int).drop_first() =~= text@.subrange(
            m + 1,
            hi as int,
        ));
        let f = digits_end(text, m + 1, hi);
        assert(text@.subrange(m + 1, hi as int).skip((f - m - 1) as int) =~= text@.subrange(
            f as int,
            hi as int,
        ));
        (m > a || f > m + 1) && exponent_ok_range(text, f, hi)
    } else {
        m > a && exponent_ok_range(text, m, hi)
    }
}

// ─── Decimal formatting ──────────────────────────────────────────────────────

/// The ASCII character of a decimal digit.
pub open spec fn digit_char(d: nat) -> char {
    ((48 + d) as u32) as char
}

/// The decimal representation of `n`, as `Display` writes it.
pub open spec fn dec(n: nat) -> Seq<char>
    decreases n,
{
    if n < 10 {
        seq![digit_char(n)]
    } else {
        dec(n / 10).push(digit_char(n % 10))
    }
}

/// The decimal representation of a signed integer, as `Display` writes it.
pub open spec fn dec_int(v: int) -> Seq<char> {
    if v < 0 {
        seq!['-'] + dec((0 - v) as nat)
    } else {
        dec(v as nat)
    }
}

/// Appends the decimal representation of `n` to `out`.
pub fn push_dec(out: &mut Vec<char>, n: u64)
    ensures
        final(out)@ == old(out)@ + dec(n as nat),
    decreases n,
{
    if n >= 10 {
        push_dec(out, n / 10);
    }
    let d = (n % 10) as u8;
    let c = (48 + d) as char;
    assert(c == digit_char((n % 10) as nat));
    out.push(c);
    assert(out@ =~= old(out)@ + dec(n as nat));
}

/// Appends the decimal representation of `v` to `out`.
pub fn push_int(out: &mut Vec<char>, v: i64)
    requires
        v > i64::MIN,
    ensures
        final(out)@ == old(out)@ + dec_int(v as int),
{
    if v < 0 {
        out.push('-');
        let ghost mid = out@;
        push_dec(out, (0 - v) as u64);
        assert(out@ =~= old(out)@ + dec_int(v as int));
    } else {
        push_dec(out, v as u64);
    }
}

/// A decimal representation is a non-empty string of digits with the
/// represented value.
pub proof fn lemma_dec(n: nat)
    ensures
        dec(n).len() > 0,
        all_digits(dec(n)),
        digits_value(dec(n)) == n,
        no_ws(dec(n)),
    decreases n,
{
    let d = dec(n);
    assert(digit_val(digit_char(n % 10)) == n % 10);
    assert(is_digit(digit_char(n % 10)));
    if n >= 10 {
        lemma_dec(n / 10);
        assert(d.drop_last() =~= dec(n / 10));
        assert(d.last() == digit_char(n % 10));
        assert(digits_value(d) == digits_value(dec(n / 10)) * 10 + digit_val(d.last()));
        assert((n / 10) * 10 + n % 10 == n);
        assert forall|i: int| 0 <= i < d.len() implies is_digit(#[trigger] d[i]) by {
            if i < d.len() - 1 {
                assert(d[i] == dec(n / 10)[i]);
            }
        }
    } else {
        assert(d.drop_last() =~= Seq::<char>::empty());
        assert(digits_value(d) == digits_value(d.drop_last()) * 10 + digit_val(d.last()));
        assert(digits_value(Seq::<char>::empty()) == 0);
        assert(n % 10 == n);
    }
    assert forall|i: int| 0 <= i < d.len() implies !is_ws(#[trigger] d[i]) by {
        assert(is_digit(d[i]));
    }
}

/// Reading back a decimal representation gives the number.
pub proof fn lemma_parse_dec(n: nat)
    ensures
        parse_unsigned(dec(n)) == Some(n),
        n <= u64::MAX ==> parse_u64(dec(n)) == Some(n as u64),
        n <= usize::MAX ==> parse_usize(dec(n)) == Some(n as usize),
        n <= 0x7fff_ffff ==> parse_i32(dec(n)) == Some(n as i32),
{
    lemma_dec(n);
    assert(is_digit(dec(n)[0]));
}

/// Reading back the representation of a signed integer gives the integer.
pub proof fn lemma_parse_dec_int(v: i32)
    ensures
        parse_i32(dec_int(v as int)) == Some(v),
        dec_int(v as int).len() > 0,
        no_ws(dec_int(v as int)),
{
    if v < 0 {
        let n = (0 - v) as nat;
        lemma_dec(n);
        let s = dec_int(v as int);
        assert(s.drop_first() =~= dec(n));
        assert forall|i: int| 0 <= i < s.len() implies !is_ws(#[trigger] s[i]) by {
            if i > 0 {
                assert(s[i] == dec(n)[i - 1]);
            }
        }
    } else {
        lemma_parse_dec(v as nat);
        lemma_dec(v as nat);
    }
}

} // verus!
