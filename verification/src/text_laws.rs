//! Facts about the text primitives: splitting joined words and lines back
//! apart, and trimming text that has nothing to trim.
use vstd::prelude::*;

use crate::text::{
    all_digits, decimal_number, eq_ignore_case, exponent_ok, flush_word, is_digit,
    is_float_literal, is_ws, lead_digits, lemma_lead_digits_all, lines_acc, lines_of, lower,
    no_ws, split_acc, split_ws, strip_cr, trim, trim_end, trim_start, space, spaced, join_lines,
};

verus! {

/// Every word of `ws` is non-empty and holds no whitespace.
pub open spec fn good_words(ws: Seq<Seq<char>>) -> bool {
    forall|k: int| 0 <= k < ws.len() ==> (#[trigger] ws[k]).len() > 0 && no_ws(ws[k])
}

/// `s` holds no line feed.
pub open spec fn no_newline(s: Seq<char>) -> bool {
    forall|i: int| 0 <= i < s.len() ==> #[trigger] s[i] != '\n'
}

pub proof fn lemma_spaced_append(a: Seq<Seq<char>>, b: Seq<Seq<char>>)
    ensures
        spaced(a + b) == spaced(a) + spaced(b),
    decreases b.len(),
{
    if b.len() == 0 {
        assert(a + b =~= a);
        assert(spaced(a) + spaced(b) =~= spaced(a));
    } else {
        lemma_spaced_append(a, b.drop_last());
        assert((a + b).drop_last() =~= a + b.drop_last());
        assert(spaced(a) + spaced(b) =~= spaced(a) + spaced(b.drop_last()) + space() + b.last());
    }
}

/// Splitting at a space splits each side.
pub proof fn lemma_split_at_space(x: Seq<char>, y: Seq<char>, cur: Seq<char>)
    ensures
        split_acc(x + space() + y, cur) == split_acc(x, cur) + split_acc(y, seq![]),
    decreases x.len(),
{
    let s = x + space() + y;
    if x.len() == 0 {
        assert(s =~= space() + y);
        assert(s.drop_first() =~= y);
        assert(is_ws(s[0]));
    } else {
        assert(s.drop_first() =~= x.drop_first() + space() + y);
        assert(s[0] == x[0]);
        if is_ws(x[0]) {
            lemma_split_at_space(x.drop_first(), y, seq![]);
            assert(flush_word(cur) + split_acc(x.drop_first(), seq![]) + split_acc(y, seq![])
                =~= flush_word(cur) + (split_acc(x.drop_first(), seq![]) + split_acc(y, seq![])));
        } else {
            lemma_split_at_space(x.drop_first(), y, cur.push(x[0]));
        }
    }
}

/// A word without whitespace joins the word under construction.
pub proof fn lemma_split_word(w: Seq<char>, r: Seq<char>, cur: Seq<char>)
    requires
        no_ws(w),
    ensures
        split_acc(w + r, cur) == split_acc(r, cur + w),
    decreases w.len(),
{
    if w.len() == 0 {
        assert(w + r =~= r);
        assert(cur + w =~= cur);
    } else {
        assert((w + r).drop_first() =~= w.drop_first() + r);
        assert((w + r)[0] == w[0]);
        assert(no_ws(w.drop_first())) by {
            assert forall|i: int| 0 <= i < w.drop_first().len() implies !is_ws(
                #[trigger] w.drop_first()[i],
            ) by {
                assert(w.drop_first()[i] == w[i + 1]);
            }
        }
        lemma_split_word(w.drop_first(), r, cur.push(w[0]));
        assert(cur.push(w[0]) + w.drop_first() =~= cur + w);
    }
}

/// A single word splits into itself.
pub proof fn lemma_split_single(w: Seq<char>)
    requires
        w.len() > 0,
        no_ws(w),
    ensures
        split_ws(w) == seq![w],
{
    lemma_split_word(w, seq![], seq![]);
    assert(w + Seq::<char>::empty() =~= w);
    assert(Seq::<char>::empty() + w =~= w);
}

/// A word followed by space-separated words splits into those words.
pub proof fn lemma_split_spaced(w0: Seq<char>, ws: Seq<Seq<char>>)
    requires
        w0.len() > 0,
        no_ws(w0),
        good_words(ws),
    ensures
        split_ws(w0 + spaced(ws)) == seq![w0] + ws,
    decreases ws.len(),
{
    if ws.len() == 0 {
        assert(w0 + spaced(ws) =~= w0);
        lemma_split_single(w0);
        assert(seq![w0] + ws =~= seq![w0]);
    } else {
        let t = ws.drop_last();
        assert(good_words(t)) by {
            assert forall|k: int| 0 <= k < t.len() implies (#[trigger] t[k]).len() > 0 && no_ws(
                t[k],
            ) by {
                assert(t[k] == ws[k]);
            }
        }
        lemma_split_spaced(w0, t);
        assert(w0 + spaced(ws) =~= (w0 + spaced(t)) + space() + ws.last());
        lemma_split_at_space(w0 + spaced(t), ws.last(), seq![]);
        assert(ws[ws.len() - 1].len() > 0 && no_ws(ws[ws.len() - 1]));
        lemma_split_single(ws.last());
        assert(seq![w0] + t + seq![ws.last()] =~= seq![w0] + ws);
    }
}

/// Text that starts and ends with a non-whitespace character trims to
/// itself.
pub proof fn lemma_trim_noop(s: Seq<char>)
    requires
        s.len() > 0,
        !is_ws(s[0]),
        !is_ws(s.last()),
    ensures
        trim(s) == s,
{
}

/// A line without a line feed joins the line under construction.
pub proof fn lemma_lines_word(w: Seq<char>, r: Seq<char>, cur: Seq<char>)
    requires
        no_newline(w),
    ensures
        lines_acc(w + r, cur) == lines_acc(r, cur + w),
    decreases w.len(),
{
    if w.len() == 0 {
        assert(w + r =~= r);
        assert(cur + w =~= cur);
    } else {
        assert((w + r).drop_first() =~= w.drop_first() + r);
        assert((w + r)[0] == w[0]);
        assert(no_newline(w.drop_first())) by {
            assert forall|i: int| 0 <= i < w.drop_first().len() implies #[trigger] w.drop_first()[i]
                != '\n' by {
                assert(w.drop_first()[i] == w[i + 1]);
            }
        }
        lemma_lines_word(w.drop_first(), r, cur.push(w[0]));
        assert(cur.push(w[0]) + w.drop_first() =~= cur + w);
    }
}

/// The first line of a joined run comes first.
pub proof fn lemma_joined_front(a: Seq<char>, t: Seq<Seq<char>>)
    ensures
        join_lines(seq![a] + t) == a + seq!['\n'] + join_lines(t),
    decreases t.len(),
{
    assert(join_lines(Seq::<Seq<char>>::empty()) == Seq::<char>::empty());
    if t.len() == 0 {
        assert(seq![a] + t =~= seq![a]);
        assert(seq![a].drop_last() =~= Seq::<Seq<char>>::empty());
        assert(a + seq!['\n'] + join_lines(t) =~= Seq::<char>::empty() + a + seq!['\n']);
    } else {
        lemma_joined_front(a, t.drop_last());
        assert((seq![a] + t).drop_last() =~= seq![a] + t.drop_last());
        assert(a + seq!['\n'] + join_lines(t) =~= a + seq!['\n'] + join_lines(t.drop_last()) + t.last()
            + seq!['\n']);
    }
}

/// Lines without line feeds and not ending in a carriage return, joined,
/// read back as themselves.
pub proof fn lemma_lines_of_joined(ls: Seq<Seq<char>>)
    requires
        forall|k: int|
            0 <= k < ls.len() ==> no_newline(#[trigger] ls[k]) && (ls[k].len() == 0
                || ls[k].last() != '\r'),
    ensures
        lines_of(join_lines(ls)) == ls,
    decreases ls.len(),
{
    if ls.len() > 0 {
        let a = ls[0];
        let t = ls.drop_first();
        assert(seq![a] + t =~= ls);
        lemma_joined_front(a, t);
        assert(forall|k: int| 0 <= k < t.len() ==> t[k] == ls[k + 1]);
        lemma_lines_of_joined(t);
        let rest = seq!['\n'] + join_lines(t);
        assert(join_lines(ls) =~= a + rest);
        lemma_lines_word(a, rest, seq![]);
        assert(Seq::<char>::empty() + a =~= a);
        assert(rest.drop_first() =~= join_lines(t));
        assert(strip_cr(a) == a);
        assert(seq![a] + t =~= ls);
    } else {
        assert(join_lines(ls) =~= Seq::<char>::empty());
    }
}

/// The characters that can appear in a floating-point literal.
pub open spec fn float_char(c: char) -> bool {
    let u = c as u32;
    ||| is_digit(c)
    ||| u == 43 ||| u == 45 ||| u == 46
    ||| u == 101 ||| u == 69 ||| u == 105 ||| u == 73 ||| u == 110 ||| u == 78
    ||| u == 102 ||| u == 70 ||| u == 116 ||| u == 84 ||| u == 121 ||| u == 89
    ||| u == 97 ||| u == 65
}

/// Every character of `s` may appear in a floating-point literal.
pub open spec fn all_float_chars(s: Seq<char>) -> bool {
    forall|i: int| 0 <= i < s.len() ==> float_char(#[trigger] s[i])
}

proof fn lemma_all_float_chars_concat(a: Seq<char>, b: Seq<char>)
    requires
        all_float_chars(a),
        all_float_chars(b),
    ensures
        all_float_chars(a + b),
{
    assert forall|i: int| 0 <= i < (a + b).len() implies float_char(#[trigger] (a + b)[i]) by {
        if i < a.len() {
            assert((a + b)[i] == a[i]);
        } else {
            assert((a + b)[i] == b[i - a.len()]);
        }
    }
}

proof fn lemma_digits_float_chars(s: Seq<char>)
    requires
        all_digits(s),
    ensures
        all_float_chars(s),
{
    assert forall|i: int| 0 <= i < s.len() implies float_char(#[trigger] s[i]) by {
        assert(is_digit(s[i]));
    }
}

proof fn lemma_exponent_float_chars(s: Seq<char>)
    requires
        exponent_ok(s),
    ensures
        all_float_chars(s),
{
    if s.len() > 0 {
        let t = s.drop_first();
        let u = if t.len() > 0 && (t[0] == '+' || t[0] == '-') {
            t.drop_first()
        } else {
            t
        };
        lemma_digits_float_chars(u);
        assert forall|i: int| 0 <= i < s.len() implies float_char(#[trigger] s[i]) by {
            if i == 0 {
            } else if t.len() > 0 && (t[0] == '+' || t[0] == '-') {
                if i == 1 {
                    assert(s[1] == t[0]);
                } else {
                    assert(s[i] == u[i - 2]);
                }
            } else {
                assert(s[i] == u[i - 1]);
            }
        }
    }
}

proof fn lemma_word_float_chars(b: Seq<char>, w: Seq<char>)
    requires
        eq_ignore_case(b, w),
        all_float_chars(w),
        forall|i: int| 0 <= i < w.len() ==> (w[i] as u32) >= 97,
    ensures
        all_float_chars(b),
{
    assert forall|i: int| 0 <= i < b.len() implies float_char(#[trigger] b[i]) by {
        let c = b[i];
        let u = c as u32;
        assert(lower(c) == w[i]);
        assert(float_char(w[i]));
        if 65 <= u <= 90 {
            assert(((u + 32) as u32) as char == w[i]);
            assert((w[i] as u32) == u + 32);
        }
    }
}

/// A floating-point literal is a non-empty word of literal characters,
/// hence without whitespace or line feed.
pub proof fn lemma_float_literal_word(s: Seq<char>)
    requires
        is_float_literal(s),
    ensures
        s.len() > 0,
        all_float_chars(s),
        no_ws(s),
        no_newline(s),
{
    let signed = s.len() > 0 && (s[0] == '+' || s[0] == '-');
    let b = if signed {
        s.drop_first()
    } else {
        s
    };
    let w1 = seq!['i', 'n', 'f'];
    let w2 = seq!['i', 'n', 'f', 'i', 'n', 'i', 't', 'y'];
    let w3 = seq!['n', 'a', 'n'];
    if eq_ignore_case(b, w1) {
        lemma_word_float_chars(b, w1);
    } else if eq_ignore_case(b, w2) {
        lemma_word_float_chars(b, w2);
    } else if eq_ignore_case(b, w3) {
        lemma_word_float_chars(b, w3);
    } else {
        let m = lead_digits(b);
        lemma_lead_digits_all(b);
        let rest = b.skip(m as int);
        assert(b =~= b.take(m as int) + rest);
        lemma_digits_float_chars(b.take(m as int));
        if rest.len() > 0 && rest[0] == '.' {
            let frac = rest.drop_first();
            let f = lead_digits(frac);
            lemma_lead_digits_all(frac);
            lemma_digits_float_chars(frac.take(f as int));
            lemma_exponent_float_chars(frac.skip(f as int));
            assert(frac =~= frac.take(f as int) + frac.skip(f as int));
            lemma_all_float_chars_concat(frac.take(f as int), frac.skip(f as int));
            assert(rest =~= seq!['.'] + frac);
            lemma_all_float_chars_concat(seq!['.'], frac);
        } else {
            lemma_exponent_float_chars(rest);
        }
        lemma_all_float_chars_concat(b.take(m as int), rest);
    }
    if signed {
        assert(s =~= seq![s[0]] + b);
        lemma_all_float_chars_concat(seq![s[0]], b);
    }
    assert(s.len() > 0);
    assert forall|i: int| 0 <= i < s.len() implies !is_ws(#[trigger] s[i]) && s[i] != '\n' by {
        assert(float_char(s[i]));
    }
}

} // verus!
