//! Text produced and read by the tool: numbers rendered in decimal or
//! hexadecimal, as Rust's `{}` and `{:X}` render unsigned integers, and
//! the splitting of a vector written on the command line into the tokens
//! of its components.

use vstd::prelude::*;
use vstd::string::*;

use vstd::slice::{slice_subrange, slice_to_vec};

use crate::error::VecMathError;

verus! {

/// The digit character for the value `d` (0 to 15), upper-case for
/// hexadecimal digits.
pub open spec fn digit_char(d: nat) -> char {
    "0123456789ABCDEF"@[d as int]
}

/// The digits of `x` in base `base`, most significant first, without
/// leading zeros ("0" for zero).
pub open spec fn render_digits(x: nat, base: nat) -> Seq<char>
    decreases x,
{
    if base < 2 || x < base {
        seq![digit_char(x)]
    } else {
        proof {
            assert(x / base < x) by (nonlinear_arith)
                requires
                    base >= 2,
                    x >= base,
            ;
        }
        render_digits(x / base, base).push(digit_char(x % base))
    }
}

/// The characters of the digits `ds`, given least significant first,
/// in reading order.
spec fn reversed_digit_chars(ds: Seq<u32>) -> Seq<char> {
    Seq::new(ds.len(), |i: int| digit_char(ds[ds.len() - 1 - i] as nat))
}

/// Appends to `out` the digits of `x` in base `base` (10 or 16).
pub fn append_digits(out: &mut String, x: u32, base: u32)
    requires
        base == 10 || base == 16,
    ensures
        final(out)@ == old(out)@ + render_digits(x as nat, base as nat),
{
    let mut ds: Vec<u32> = Vec::new();
    let mut q = x;
    while q >= base
        invariant
            base == 10 || base == 16,
            forall|i: int| 0 <= i < ds@.len() ==> #[trigger] ds@[i] < base,
            render_digits(x as nat, base as nat) == render_digits(q as nat, base as nat)
                + reversed_digit_chars(ds@),
        decreases q,
    {
        let r = q % base;
        proof {
            assert(reversed_digit_chars(ds@.push(r)) =~= seq![digit_char(r as nat)]
                + reversed_digit_chars(ds@));
            assert(render_digits(q as nat, base as nat) == render_digits(
                (q / base) as nat,
                base as nat,
            ).push(digit_char((q % base) as nat)));
            assert(render_digits((q / base) as nat, base as nat).push(digit_char(r as nat))
                + reversed_digit_chars(ds@) =~= render_digits((q / base) as nat, base as nat)
                + (seq![digit_char(r as nat)] + reversed_digit_chars(ds@)));
        }
        ds.push(r);
        q = q / base;
    }
    proof {
        assert(reversed_digit_chars(ds@.push(q)) =~= seq![digit_char(q as nat)]
            + reversed_digit_chars(ds@));
    }
    ds.push(q);
    let alphabet = "0123456789ABCDEF";
    proof {
        reveal_strlit("0123456789ABCDEF");
    }
    let ghost start = out@;
    let ghost all = reversed_digit_chars(ds@);
    let mut j = ds.len();
    while j > 0
        invariant
            j <= ds@.len(),
            alphabet@.len() == 16,
            alphabet@ == "0123456789ABCDEF"@,
            forall|i: int| 0 <= i < ds@.len() ==> #[trigger] ds@[i] < 16,
            all == reversed_digit_chars(ds@),
            out@ == start + all.take(ds@.len() - j),
        decreases j,
    {
        j -= 1;
        let d = ds[j] as usize;
        let piece = alphabet.substring_char(d, d + 1);
        out.append(piece);
        proof {
            assert(piece@ =~= seq![digit_char(d as nat)]);
            assert(all.take(ds@.len() - j) =~= all.take(ds@.len() - j - 1).push(
                digit_char(ds@[j as int] as nat),
            ));
        }
    }
    proof {
        assert(all.take(ds@.len() as int) =~= all);
    }
}

/// `c` is a digit: `0` to `9`, or `A` to `F` for the values ten to
/// fifteen.
pub open spec fn is_digit(c: char) -> bool {
    ('0' <= c && c <= '9') || ('A' <= c && c <= 'F')
}

/// The value of the digit `c`.
pub open spec fn digit_value(c: char) -> nat {
    if '0' <= c && c <= '9' {
        (c as nat - '0' as nat) as nat
    } else {
        (c as nat - 'A' as nat + 10) as nat
    }
}

/// The number that the digits `ds`, most significant first, stand for in
/// base `base`.
pub open spec fn digits_value(ds: Seq<char>, base: nat) -> nat
    decreases ds.len(),
{
    if ds.len() == 0 {
        0
    } else {
        digits_value(ds.drop_last(), base) * base + digit_value(ds.last())
    }
}

proof fn lemma_digit_char_value(d: nat)
    requires
        d < 16,
    ensures
        is_digit(digit_char(d)),
        digit_value(digit_char(d)) == d,
{
    reveal_strlit("0123456789ABCDEF");
    let a = "0123456789ABCDEF"@;
    if d == 0 {
        assert(a[0] == '0');
    } else if d == 1 {
        assert(a[1] == '1');
    } else if d == 2 {
        assert(a[2] == '2');
    } else if d == 3 {
        assert(a[3] == '3');
    } else if d == 4 {
        assert(a[4] == '4');
    } else if d == 5 {
        assert(a[5] == '5');
    } else if d == 6 {
        assert(a[6] == '6');
    } else if d == 7 {
        assert(a[7] == '7');
    } else if d == 8 {
        assert(a[8] == '8');
    } else if d == 9 {
        assert(a[9] == '9');
    } else if d == 10 {
        assert(a[10] == 'A');
    } else if d == 11 {
        assert(a[11] == 'B');
    } else if d == 12 {
        assert(a[12] == 'C');
    } else if d == 13 {
        assert(a[13] == 'D');
    } else if d == 14 {
        assert(a[14] == 'E');
    } else {
        assert(a[15] == 'F');
    }
}

/// Law: the digits rendered for `x` in base `base` (2 to 16) read back as
/// `x`, most significant first; each is a digit below the base, and there
/// is no leading zero (zero itself is the single digit `0`).
pub proof fn lemma_render_digits_value(x: nat, base: nat)
    requires
        2 <= base <= 16,
    ensures
        digits_value(render_digits(x, base), base) == x,
        render_digits(x, base).len() > 0,
        forall|k: int|
            0 <= k < render_digits(x, base).len() ==> is_digit(#[trigger] render_digits(x, base)[k])
                && digit_value(render_digits(x, base)[k]) < base,
        render_digits(x, base)[0] == '0' ==> x == 0 && render_digits(x, base).len() == 1,
    decreases x,
{
    let r = render_digits(x, base);
    if x < base {
        lemma_digit_char_value(x);
        assert(r == seq![digit_char(x)]);
        assert(r.drop_last() =~= Seq::<char>::empty());
        assert(digits_value(r.drop_last(), base) == 0);
        assert(r.last() == digit_char(x));
        assert(digits_value(r, base) == 0 * base + x);
        assert(0 * base == 0);
    } else {
        let q = x / base;
        let m = x % base;
        assert(q < x && m < base && q * base + m == x && q >= 1) by (nonlinear_arith)
            requires
                base >= 2,
                x >= base,
                q == x / base,
                m == x % base,
        ;
        lemma_render_digits_value(q, base);
        lemma_digit_char_value(m);
        let p = render_digits(q, base);
        assert(r == p.push(digit_char(m)));
        assert(r.drop_last() =~= p);
        assert(r.last() == digit_char(m));
        assert(digits_value(r, base) == digits_value(p, base) * base + m);
        assert(digits_value(p, base) * base == q * base);
        assert forall|k: int| 0 <= k < r.len() implies is_digit(#[trigger] r[k]) && digit_value(
            r[k],
        ) < base by {
            if k < p.len() {
                assert(r[k] == p[k]);
            }
        }
        assert(r[0] == p[0]);
    }
}

// ---------------------------------------------------------------------
// Vectors written on the command line
// ---------------------------------------------------------------------

/// The character has the Unicode `White_Space` property, the whitespace
/// of `char::is_whitespace`, `str::trim` and `str::split_whitespace`.
pub open spec fn is_white(c: char) -> bool {
    ||| '\u{9}' <= c <= '\u{D}'
    ||| c == ' '
    ||| c == '\u{85}'
    ||| c == '\u{A0}'
    ||| c == '\u{1680}'
    ||| '\u{2000}' <= c <= '\u{200A}'
    ||| c == '\u{2028}'
    ||| c == '\u{2029}'
    ||| c == '\u{202F}'
    ||| c == '\u{205F}'
    ||| c == '\u{3000}'
}

/// `s` without its leading whitespace.
pub open spec fn trim_start(s: Seq<char>) -> Seq<char>
    decreases s.len(),
{
    if s.len() > 0 && is_white(s[0]) {
        trim_start(s.drop_first())
    } else {
        s
    }
}

/// `s` without its trailing whitespace.
pub open spec fn trim_end(s: Seq<char>) -> Seq<char>
    decreases s.len(),
{
    if s.len() > 0 && is_white(s.last()) {
        trim_end(s.drop_last())
    } else {
        s
    }
}

/// `s` without leading and trailing whitespace, as `str::trim` gives it.
pub open spec fn trim(s: Seq<char>) -> Seq<char> {
    trim_end(trim_start(s))
}

/// `s` without leading and trailing whitespace, as `str::trim` gives it.
pub fn trim_text(s: &str) -> (res: String)
    ensures
        res@ == trim(s@),
{
    let n = s.unicode_len();
    let (a, b) = trimmed_bounds(s, 0, n);
    proof {
        assert(s@.subrange(0, n as int) =~= s@);
    }
    String::from_str(s.substring_char(a, b))
}

/// The index of the first `c` in `s`, or the length of `s` if there is
/// none.
pub open spec fn first_index_of(s: Seq<char>, c: char) -> nat
    decreases s.len(),
{
    if s.len() == 0 {
        0
    } else if s[0] == c {
        0
    } else {
        1 + first_index_of(s.drop_first(), c)
    }
}

/// The pieces of `s` between occurrences of `sep`, as `str::split` gives
/// them: one more piece than there are separators, empty ones included.
pub open spec fn split_on(s: Seq<char>, sep: char) -> Seq<Seq<char>>
    decreases s.len(),
{
    let i = first_index_of(s, sep);
    if i >= s.len() {
        seq![s]
    } else {
        seq![s.subrange(0, i as int)] + split_on(s.subrange(i as int + 1, s.len() as int), sep)
    }
}

/// The trimmed pieces of `pieces` that are not empty.
pub open spec fn nonempty_trimmed(pieces: Seq<Seq<char>>) -> Seq<Seq<char>>
    decreases pieces.len(),
{
    if pieces.len() == 0 {
        Seq::empty()
    } else {
        let t = trim(pieces[0]);
        (if t.len() > 0 {
            seq![t]
        } else {
            Seq::empty()
        }) + nonempty_trimmed(pieces.drop_first())
    }
}

/// The tokens of a comma-separated list: the trimmed pieces between
/// commas, empty ones skipped.
pub open spec fn comma_tokens(s: Seq<char>) -> Seq<Seq<char>> {
    nonempty_trimmed(split_on(s, ','))
}

/// The index of the first whitespace character in `s`, or its length.
pub open spec fn first_white(s: Seq<char>) -> nat
    decreases s.len(),
{
    if s.len() == 0 {
        0
    } else if is_white(s[0]) {
        0
    } else {
        1 + first_white(s.drop_first())
    }
}

/// The first whitespace index lies within `s`, after a leading word
/// character.
pub proof fn lemma_first_white_bound(s: Seq<char>)
    ensures
        first_white(s) <= s.len(),
        s.len() > 0 && !is_white(s[0]) ==> first_white(s) > 0,
    decreases s.len(),
{
    if s.len() > 0 {
        lemma_first_white_bound(s.drop_first());
    }
}

/// The maximal runs of non-whitespace characters of `s`, as
/// `str::split_whitespace` gives them.
pub open spec fn whitespace_words(s: Seq<char>) -> Seq<Seq<char>>
    decreases s.len(),
{
    if s.len() == 0 {
        Seq::empty()
    } else if is_white(s[0]) {
        whitespace_words(s.drop_first())
    } else {
        let i = first_white(s);
        proof {
            lemma_first_white_bound(s);
        }
        seq![s.subrange(0, i as int)] + whitespace_words(s.subrange(i as int, s.len() as int))
    }
}

/// `s` is enclosed in square brackets.
pub open spec fn is_bracketed(s: Seq<char>) -> bool {
    s.len() > 0 && s[0] == '[' && s.last() == ']'
}

/// The ways of reading a vector written on the command line, in the order
/// they are tried: the comma-separated list inside square brackets (when
/// the trimmed text is bracketed), the whitespace-separated words, and the
/// comma-separated list. A way succeeds when it gives at least one token
/// and every token is a number; the first that succeeds is taken.
pub open spec fn vector_readings(arg: Seq<char>) -> Seq<Seq<Seq<char>>> {
    let t = trim(arg);
    let bracketed = if is_bracketed(t) {
        seq![comma_tokens(t.subrange(1, t.len() - 1))]
    } else {
        Seq::empty()
    };
    bracketed + seq![whitespace_words(t), comma_tokens(t)]
}

/// Whether `c` is whitespace.
pub fn char_is_white(c: char) -> (res: bool)
    ensures
        res == is_white(c),
{
    ('\u{9}' <= c && c <= '\u{D}') || c == ' ' || c == '\u{85}' || c == '\u{A0}' || c
        == '\u{1680}' || ('\u{2000}' <= c && c <= '\u{200A}') || c == '\u{2028}' || c
        == '\u{2029}' || c == '\u{202F}' || c == '\u{205F}' || c == '\u{3000}'
}

proof fn lemma_trim_start_skip(s: Seq<char>, a: int)
    requires
        0 <= a <= s.len(),
        forall|k: int| 0 <= k < a ==> is_white(#[trigger] s[k]),
    ensures
        trim_start(s) == trim_start(s.subrange(a, s.len() as int)),
    decreases a,
{
    if a > 0 {
        assert(s.subrange(1, s.len() as int) =~= s.drop_first());
        lemma_trim_start_skip(s.drop_first(), a - 1);
        assert(s.drop_first().subrange(a - 1, s.drop_first().len() as int) =~= s.subrange(
            a,
            s.len() as int,
        ));
    } else {
        assert(s.subrange(0, s.len() as int) =~= s);
    }
}

proof fn lemma_trim_end_skip(s: Seq<char>, b: int)
    requires
        0 <= b <= s.len(),
        forall|k: int| b <= k < s.len() ==> is_white(#[trigger] s[k]),
    ensures
        trim_end(s) == trim_end(s.subrange(0, b)),
    decreases s.len() - b,
{
    if b < s.len() {
        lemma_trim_end_skip(s.drop_last(), b);
        assert(s.drop_last().subrange(0, b) =~= s.subrange(0, b));
    } else {
        assert(s.subrange(0, b) =~= s);
    }
}

proof fn lemma_trim_start_suffix(s: Seq<char>)
    ensures
        trim_start(s).len() <= s.len(),
        trim_start(s) == s.subrange(s.len() - trim_start(s).len(), s.len() as int),
        forall|k: int| 0 <= k < s.len() - trim_start(s).len() ==> is_white(#[trigger] s[k]),
        trim_start(s).len() > 0 ==> !is_white(trim_start(s)[0]),
    decreases s.len(),
{
    if s.len() > 0 && is_white(s[0]) {
        let t = s.drop_first();
        lemma_trim_start_suffix(t);
        let a = s.len() - trim_start(s).len();
        assert(t.subrange(t.len() - trim_start(t).len(), t.len() as int) =~= s.subrange(
            a,
            s.len() as int,
        ));
        assert forall|k: int| 0 <= k < a implies is_white(#[trigger] s[k]) by {
            if k > 0 {
                assert(s[k] == t[k - 1]);
            }
        }
    } else {
        assert(s.subrange(0, s.len() as int) =~= s);
    }
}

proof fn lemma_trim_end_prefix(u: Seq<char>)
    ensures
        trim_end(u).len() <= u.len(),
        trim_end(u) == u.subrange(0, trim_end(u).len() as int),
        forall|k: int| trim_end(u).len() <= k < u.len() ==> is_white(#[trigger] u[k]),
        trim_end(u).len() > 0 ==> !is_white(trim_end(u).last()),
    decreases u.len(),
{
    if u.len() > 0 && is_white(u.last()) {
        let d = u.drop_last();
        lemma_trim_end_prefix(d);
        assert(d.subrange(0, trim_end(d).len() as int) =~= u.subrange(
            0,
            trim_end(u).len() as int,
        ));
        assert forall|k: int| trim_end(u).len() <= k < u.len() implies is_white(
            #[trigger] u[k],
        ) by {
            if k < u.len() - 1 {
                assert(u[k] == d[k]);
            }
        }
    } else {
        assert(u.subrange(0, u.len() as int) =~= u);
    }
}

/// Law: trimming removes exactly the whitespace at both ends. What is left
/// is a contiguous part of `s` with only whitespace before and after it,
/// and, unless it is empty, it starts and ends with a character that is
/// not whitespace.
pub proof fn lemma_trim_strips_ends(s: Seq<char>)
    ensures
        exists|a: int|
            0 <= a && a + trim(s).len() <= s.len() && #[trigger] s.subrange(
                a,
                a + trim(s).len(),
            ) == trim(s) && (forall|k: int| 0 <= k < a ==> is_white(#[trigger] s[k])) && (
            forall|k: int| a + trim(s).len() <= k < s.len() ==> is_white(#[trigger] s[k])),
        trim(s).len() > 0 ==> !is_white(trim(s)[0]) && !is_white(trim(s).last()),
{
    let u = trim_start(s);
    lemma_trim_start_suffix(s);
    lemma_trim_end_prefix(u);
    let a = s.len() - u.len();
    let b = trim(s).len();
    assert(trim(s) == trim_end(u));
    assert(s.subrange(a, a + b) =~= trim(s));
    assert forall|k: int| a + b <= k < s.len() implies is_white(#[trigger] s[k]) by {
        assert(s[k] == u[k - a]);
    }
    if b > 0 {
        assert(trim(s)[0] == u[0]);
    }
}

/// The bounds of `s[from..to]` with leading and trailing whitespace
/// removed.
fn trimmed_bounds(s: &str, from: usize, to: usize) -> (res: (usize, usize))
    requires
        from <= to <= s@.len(),
    ensures
        from <= res.0 <= res.1 <= to,
        trim(s@.subrange(from as int, to as int)) == s@.subrange(res.0 as int, res.1 as int),
{
    let mut a = from;
    while a < to && char_is_white(s.get_char(a))
        invariant
            from <= a <= to <= s@.len(),
            forall|k: int| from <= k < a ==> is_white(#[trigger] s@[k]),
        decreases to - a,
    {
        a += 1;
    }
    let ghost piece = s@.subrange(from as int, to as int);
    proof {
        lemma_trim_start_skip(piece, a - from);
        assert(piece.subrange(a - from, piece.len() as int) =~= s@.subrange(a as int, to as int));
        let rest = s@.subrange(a as int, to as int);
        if rest.len() > 0 {
            assert(!is_white(rest[0]));
        }
        assert(trim_start(piece) == rest);
    }
    let mut b = to;
    while b > a && char_is_white(s.get_char(b - 1))
        invariant
            a <= b <= to <= s@.len(),
            forall|k: int| b <= k < to ==> is_white(#[trigger] s@[k]),
        decreases b - a,
    {
        b -= 1;
    }
    proof {
        let rest = s@.subrange(a as int, to as int);
        lemma_trim_end_skip(rest, b - a);
        assert(rest.subrange(0, b - a) =~= s@.subrange(a as int, b as int));
        let kept = s@.subrange(a as int, b as int);
        if kept.len() > 0 {
            assert(!is_white(kept.last()));
        }
    }
    (a, b)
}

proof fn lemma_first_index_at(s: Seq<char>, c: char, i: int)
    requires
        0 <= i <= s.len(),
        forall|k: int| 0 <= k < i ==> #[trigger] s[k] != c,
        i < s.len() ==> s[i] == c,
    ensures
        first_index_of(s, c) == i,
    decreases i,
{
    if i > 0 {
        lemma_first_index_at(s.drop_first(), c, i - 1);
    }
}

proof fn lemma_first_white_at(s: Seq<char>, i: int)
    requires
        0 <= i <= s.len(),
        forall|k: int| 0 <= k < i ==> !is_white(#[trigger] s[k]),
        i < s.len() ==> is_white(s[i]),
    ensures
        first_white(s) == i,
    decreases i,
{
    if i > 0 {
        lemma_first_white_at(s.drop_first(), i - 1);
    }
}

/// The characters that are not whitespace, as a predicate.
pub open spec fn non_white() -> spec_fn(char) -> bool {
    |c: char| !is_white(c)
}

proof fn lemma_first_white_props(s: Seq<char>)
    ensures
        first_white(s) <= s.len(),
        forall|k: int| 0 <= k < first_white(s) ==> !is_white(#[trigger] s[k]),
        first_white(s) < s.len() ==> is_white(s[first_white(s) as int]),
    decreases s.len(),
{
    if s.len() > 0 && !is_white(s[0]) {
        let t = s.drop_first();
        lemma_first_white_props(t);
        assert forall|k: int| 0 <= k < first_white(s) implies !is_white(#[trigger] s[k]) by {
            if k > 0 {
                assert(s[k] == t[k - 1]);
            }
        }
        if first_white(s) < s.len() {
            assert(s[first_white(s) as int] == t[first_white(t) as int]);
        }
    }
}

proof fn lemma_first_white_concat(s: Seq<char>, u: Seq<char>)
    ensures
        first_white(s) < s.len() ==> first_white(s + u) == first_white(s),
        first_white(s) >= s.len() ==> first_white(s + u) == s.len() + first_white(u),
    decreases s.len(),
{
    lemma_first_white_bound(s);
    if s.len() == 0 {
        assert(s + u =~= u);
    } else {
        assert((s + u)[0] == s[0]);
        if !is_white(s[0]) {
            assert((s + u).drop_first() =~= s.drop_first() + u);
            lemma_first_white_concat(s.drop_first(), u);
        }
    }
}

proof fn lemma_filter_keeps_word(u: Seq<char>)
    requires
        forall|k: int| 0 <= k < u.len() ==> !is_white(#[trigger] u[k]),
    ensures
        u.filter(non_white()) == u,
    decreases u.len(),
{
    reveal(Seq::filter);
    if u.len() > 0 {
        let d = u.drop_last();
        assert forall|k: int| 0 <= k < d.len() implies !is_white(#[trigger] d[k]) by {
            assert(d[k] == u[k]);
        }
        lemma_filter_keeps_word(d);
        assert(d.push(u.last()) =~= u);
    }
}

/// Law: every word of `whitespace_words(s)` is non-empty and holds no
/// whitespace.
pub proof fn lemma_whitespace_words_nonempty(s: Seq<char>)
    ensures
        forall|i: int|
            0 <= i < whitespace_words(s).len() ==> (#[trigger] whitespace_words(s)[i]).len() > 0
                && forall|k: int|
                0 <= k < whitespace_words(s)[i].len() ==> !is_white(
                    #[trigger] whitespace_words(s)[i][k],
                ),
    decreases s.len(),
{
    if s.len() > 0 {
        if is_white(s[0]) {
            lemma_whitespace_words_nonempty(s.drop_first());
            assert(whitespace_words(s) == whitespace_words(s.drop_first()));
        } else {
            let j = first_white(s);
            lemma_first_white_props(s);
            lemma_first_white_bound(s);
            let w = s.subrange(0, j as int);
            let rest = s.subrange(j as int, s.len() as int);
            lemma_whitespace_words_nonempty(rest);
            let ws = whitespace_words(s);
            assert(ws == seq![w] + whitespace_words(rest));
            assert forall|i: int| 0 <= i < ws.len() implies (#[trigger] ws[i]).len() > 0
                && forall|k: int| 0 <= k < ws[i].len() ==> !is_white(#[trigger] ws[i][k]) by {
                if i == 0 {
                    assert(ws[0] == w);
                    assert forall|k: int| 0 <= k < ws[0].len() implies !is_white(
                        #[trigger] ws[0][k],
                    ) by {
                        assert(ws[0][k] == s[k]);
                    }
                } else {
                    assert(ws[i] == whitespace_words(rest)[i - 1]);
                }
            }
        }
    }
}

/// Law: the words of `s`, joined, give `s` with its whitespace removed.
pub proof fn lemma_whitespace_words_join(s: Seq<char>)
    ensures
        whitespace_words(s).flatten() == s.filter(non_white()),
    decreases s.len(),
{
    reveal_with_fuel(Seq::filter, 2);
    if s.len() == 0 {
        assert(whitespace_words(s) =~= Seq::<Seq<char>>::empty());
    } else if is_white(s[0]) {
        let t = s.drop_first();
        lemma_whitespace_words_join(t);
        assert(s =~= seq![s[0]] + t);
        Seq::filter_distributes_over_add(seq![s[0]], t, non_white());
        assert(seq![s[0]].drop_last() =~= Seq::<char>::empty());
        assert(seq![s[0]].filter(non_white()) =~= Seq::<char>::empty());
        assert(Seq::<char>::empty() + t.filter(non_white()) =~= t.filter(non_white()));
    } else {
        let j = first_white(s);
        lemma_first_white_props(s);
        lemma_first_white_bound(s);
        let w = s.subrange(0, j as int);
        let rest = s.subrange(j as int, s.len() as int);
        lemma_whitespace_words_join(rest);
        assert(s =~= w + rest);
        Seq::filter_distributes_over_add(w, rest, non_white());
        assert forall|k: int| 0 <= k < w.len() implies !is_white(#[trigger] w[k]) by {
            assert(w[k] == s[k]);
        }
        lemma_filter_keeps_word(w);
        let ws = whitespace_words(s);
        assert(ws == seq![w] + whitespace_words(rest));
        assert(ws.first() == w);
        assert(ws.drop_first() =~= whitespace_words(rest));
    }
}

/// Law: text without whitespace is one word, and text with nothing in it
/// has none.
pub proof fn lemma_whitespace_words_single(s: Seq<char>)
    requires
        forall|k: int| 0 <= k < s.len() ==> !is_white(#[trigger] s[k]),
    ensures
        s.len() == 0 ==> whitespace_words(s) == Seq::<Seq<char>>::empty(),
        s.len() > 0 ==> whitespace_words(s) == seq![s],
{
    if s.len() > 0 {
        assert(!is_white(s[0]));
        lemma_first_white_at(s, s.len() as int);
        let e = s.subrange(s.len() as int, s.len() as int);
        assert(s.subrange(0, s.len() as int) =~= s);
        assert(e =~= Seq::<char>::empty());
        assert(whitespace_words(e) =~= Seq::<Seq<char>>::empty());
        assert(whitespace_words(s) == seq![s] + whitespace_words(e));
        assert(seq![s] + Seq::<Seq<char>>::empty() =~= seq![s]);
    }
}

/// Law: a whitespace character separates words. The words of `s`, a
/// whitespace character `c`, then `t` are the words of `s` followed by
/// the words of `t`.
pub proof fn lemma_whitespace_words_split(s: Seq<char>, c: char, t: Seq<char>)
    requires
        is_white(c),
    ensures
        whitespace_words(s + seq![c] + t) == whitespace_words(s) + whitespace_words(t),
    decreases s.len(),
{
    let x = s + seq![c] + t;
    let ct = seq![c] + t;
    assert(ct[0] == c);
    assert(ct.drop_first() =~= t);
    assert(whitespace_words(ct) == whitespace_words(t));
    if s.len() == 0 {
        assert(x =~= ct);
        assert(Seq::<Seq<char>>::empty() + whitespace_words(t) =~= whitespace_words(t));
    } else if is_white(s[0]) {
        assert(x[0] == s[0]);
        assert(x.drop_first() =~= s.drop_first() + seq![c] + t);
        lemma_whitespace_words_split(s.drop_first(), c, t);
    } else {
        assert(x[0] == s[0]);
        let j = first_white(s);
        lemma_first_white_bound(s);
        lemma_first_white_bound(x);
        assert(x =~= s + ct);
        lemma_first_white_concat(s, ct);
        let w = s.subrange(0, j as int);
        let srest = s.subrange(j as int, s.len() as int);
        assert(x.subrange(0, j as int) =~= w);
        assert(whitespace_words(s) == seq![w] + whitespace_words(srest));
        if j < s.len() {
            assert(x.subrange(j as int, x.len() as int) =~= srest + seq![c] + t);
            lemma_whitespace_words_split(srest, c, t);
            assert(whitespace_words(x) == seq![w] + whitespace_words(srest + seq![c] + t));
            assert(seq![w] + (whitespace_words(srest) + whitespace_words(t)) =~= seq![w]
                + whitespace_words(srest) + whitespace_words(t));
        } else {
            assert(first_white(ct) == 0);
            assert(x.subrange(j as int, x.len() as int) =~= ct);
            assert(srest =~= Seq::<char>::empty());
            assert(whitespace_words(srest) =~= Seq::<Seq<char>>::empty());
            assert(seq![w] + Seq::<Seq<char>>::empty() =~= seq![w]);
        }
    }
}

proof fn lemma_first_index_concat(s: Seq<char>, u: Seq<char>, c: char)
    ensures
        first_index_of(s, c) < s.len() ==> first_index_of(s + u, c) == first_index_of(s, c),
        first_index_of(s, c) >= s.len() ==> first_index_of(s + u, c) == s.len()
            + first_index_of(u, c),
    decreases s.len(),
{
    if s.len() == 0 {
        assert(s + u =~= u);
    } else {
        assert((s + u)[0] == s[0]);
        if s[0] != c {
            assert((s + u).drop_first() =~= s.drop_first() + u);
            lemma_first_index_concat(s.drop_first(), u, c);
        }
    }
}

proof fn lemma_first_index_bound(s: Seq<char>, c: char)
    ensures
        first_index_of(s, c) <= s.len(),
    decreases s.len(),
{
    if s.len() > 0 {
        lemma_first_index_bound(s.drop_first(), c);
    }
}

/// Law: a separator cuts the text in two. The pieces of `s`, the
/// separator, then `t` are the pieces of `s` followed by the pieces of
/// `t`.
pub proof fn lemma_split_on_concat(s: Seq<char>, sep: char, t: Seq<char>)
    ensures
        split_on(s + seq![sep] + t, sep) == split_on(s, sep) + split_on(t, sep),
    decreases s.len(),
{
    let x = s + seq![sep] + t;
    let st = seq![sep] + t;
    assert(x =~= s + st);
    assert(st[0] == sep);
    assert(first_index_of(st, sep) == 0);
    lemma_first_index_concat(s, st, sep);
    lemma_first_index_bound(s, sep);
    let i = first_index_of(s, sep);
    if i < s.len() {
        let srest = s.subrange(i as int + 1, s.len() as int);
        assert(x.subrange(0, i as int) =~= s.subrange(0, i as int));
        assert(x.subrange(i as int + 1, x.len() as int) =~= srest + seq![sep] + t);
        lemma_split_on_concat(srest, sep, t);
        assert(seq![s.subrange(0, i as int)] + (split_on(srest, sep) + split_on(t, sep))
            =~= seq![s.subrange(0, i as int)] + split_on(srest, sep) + split_on(t, sep));
    } else {
        assert(x.subrange(0, s.len() as int) =~= s);
        assert(x.subrange(s.len() as int + 1, x.len() as int) =~= t);
    }
}

/// Law: text without the separator is one piece.
pub proof fn lemma_split_on_single(s: Seq<char>, sep: char)
    requires
        forall|k: int| 0 <= k < s.len() ==> #[trigger] s[k] != sep,
    ensures
        split_on(s, sep) == seq![s],
{
    lemma_first_index_at(s, sep, s.len() as int);
}

/// Law: trimming twice trims no more than trimming once.
pub proof fn lemma_trim_idempotent(s: Seq<char>)
    ensures
        trim(trim(s)) == trim(s),
{
    let x = trim(s);
    lemma_trim_strips_ends(s);
    if x.len() == 0 {
        assert(trim_start(x) == x);
        assert(trim_end(x) == x);
    } else {
        assert(!is_white(x[0]));
        assert(trim_start(x) == x);
        assert(!is_white(x.last()));
        assert(trim_end(x) == x);
    }
}

proof fn lemma_nonempty_trimmed_concat(a: Seq<Seq<char>>, b: Seq<Seq<char>>)
    ensures
        nonempty_trimmed(a + b) == nonempty_trimmed(a) + nonempty_trimmed(b),
    decreases a.len(),
{
    if a.len() == 0 {
        assert(a + b =~= b);
        assert(Seq::<Seq<char>>::empty() + nonempty_trimmed(b) =~= nonempty_trimmed(b));
    } else {
        assert((a + b)[0] == a[0]);
        assert((a + b).drop_first() =~= a.drop_first() + b);
        lemma_nonempty_trimmed_concat(a.drop_first(), b);
        let head = if trim(a[0]).len() > 0 {
            seq![trim(a[0])]
        } else {
            Seq::<Seq<char>>::empty()
        };
        assert(head + (nonempty_trimmed(a.drop_first()) + nonempty_trimmed(b)) =~= head
            + nonempty_trimmed(a.drop_first()) + nonempty_trimmed(b));
    }
}

proof fn lemma_nonempty_trimmed_tokens(pieces: Seq<Seq<char>>)
    ensures
        forall|i: int|
            0 <= i < nonempty_trimmed(pieces).len() ==> (#[trigger] nonempty_trimmed(pieces)[i]).len()
                > 0 && trim(nonempty_trimmed(pieces)[i]) == nonempty_trimmed(pieces)[i],
    decreases pieces.len(),
{
    if pieces.len() > 0 {
        let rest = pieces.drop_first();
        lemma_nonempty_trimmed_tokens(rest);
        let t = trim(pieces[0]);
        lemma_trim_idempotent(pieces[0]);
        let all = nonempty_trimmed(pieces);
        if t.len() > 0 {
            assert(all == seq![t] + nonempty_trimmed(rest));
            assert forall|i: int| 0 <= i < all.len() implies (#[trigger] all[i]).len() > 0 && trim(
                all[i],
            ) == all[i] by {
                if i > 0 {
                    assert(all[i] == nonempty_trimmed(rest)[i - 1]);
                }
            }
        } else {
            assert(all =~= nonempty_trimmed(rest));
        }
    }
}

/// Law: every token of a comma-separated list is non-empty and has no
/// whitespace at either end.
pub proof fn lemma_comma_tokens_trimmed(s: Seq<char>)
    ensures
        forall|i: int|
            0 <= i < comma_tokens(s).len() ==> (#[trigger] comma_tokens(s)[i]).len() > 0 && trim(
                comma_tokens(s)[i],
            ) == comma_tokens(s)[i],
{
    lemma_nonempty_trimmed_tokens(split_on(s, ','));
}

/// Law: a comma separates tokens. The tokens of `s`, a comma, then `t`
/// are the tokens of `s` followed by the tokens of `t`.
pub proof fn lemma_comma_tokens_concat(s: Seq<char>, t: Seq<char>)
    ensures
        comma_tokens(s + seq![','] + t) == comma_tokens(s) + comma_tokens(t),
{
    lemma_split_on_concat(s, ',', t);
    lemma_nonempty_trimmed_concat(split_on(s, ','), split_on(t, ','));
}

/// Law: text without a comma is one token, trimmed, unless it is blank,
/// when it gives no token.
pub proof fn lemma_comma_tokens_single(s: Seq<char>)
    requires
        forall|k: int| 0 <= k < s.len() ==> #[trigger] s[k] != ',',
    ensures
        trim(s).len() > 0 ==> comma_tokens(s) == seq![trim(s)],
        trim(s).len() == 0 ==> comma_tokens(s) == Seq::<Seq<char>>::empty(),
{
    lemma_split_on_single(s, ',');
    let one = seq![s];
    assert(one[0] == s);
    assert(one.drop_first() =~= Seq::<Seq<char>>::empty());
    assert(nonempty_trimmed(one.drop_first()) =~= Seq::<Seq<char>>::empty());
    assert(comma_tokens(s) == nonempty_trimmed(one));
    if trim(s).len() > 0 {
        assert(seq![trim(s)] + Seq::<Seq<char>>::empty() =~= seq![trim(s)]);
    } else {
        assert(Seq::<Seq<char>>::empty() + Seq::<Seq<char>>::empty() =~= Seq::<
            Seq<char>,
        >::empty());
    }
}

/// The trimmed, non-empty pieces between commas of `s[from..to]`.
fn comma_separated(s: &str, from: usize, to: usize) -> (res: Vec<String>)
    requires
        from <= to <= s@.len(),
    ensures
        res@.map_values(|t: String| t@) == comma_tokens(s@.subrange(from as int, to as int)),
{
    let mut tokens: Vec<String> = Vec::new();
    let mut start = from;
    let mut i = from;
    let ghost whole = s@.subrange(from as int, to as int);
    while i < to
        invariant
            from <= start <= i <= to <= s@.len(),
            whole == s@.subrange(from as int, to as int),
            forall|k: int| start <= k < i ==> #[trigger] s@[k] != ',',
            comma_tokens(whole) == tokens@.map_values(|t: String| t@) + nonempty_trimmed(
                split_on(s@.subrange(start as int, to as int), ','),
            ),
        decreases to - i,
    {
        if s.get_char(i) == ',' {
            let ghost rest = s@.subrange(start as int, to as int);
            proof {
                lemma_first_index_at(rest, ',', i - start);
                assert(rest.subrange(0, i - start) =~= s@.subrange(start as int, i as int));
                assert(rest.subrange(i - start + 1, rest.len() as int) =~= s@.subrange(
                    i + 1,
                    to as int,
                ));
            }
            let ghost before = tokens@.map_values(|t: String| t@);
            let (a, b) = trimmed_bounds(s, start, i);
            if a < b {
                let piece = String::from_str(s.substring_char(a, b));
                tokens.push(piece);
                proof {
                    assert(tokens@.map_values(|t: String| t@) =~= before.push(
                        s@.subrange(a as int, b as int),
                    ));
                }
            }
            proof {
                let pieces = split_on(rest, ',');
                assert(pieces.drop_first() =~= split_on(s@.subrange(i + 1, to as int), ','));
                assert(before + nonempty_trimmed(pieces) =~= tokens@.map_values(|t: String| t@)
                    + nonempty_trimmed(split_on(s@.subrange(i + 1, to as int), ',')));
            }
            start = i + 1;
        }
        i += 1;
    }
    let ghost rest = s@.subrange(start as int, to as int);
    proof {
        lemma_first_index_at(rest, ',', rest.len() as int);
        assert(split_on(rest, ',') == seq![rest]);
        assert(seq![rest].drop_first() =~= Seq::<Seq<char>>::empty());
    }
    let ghost before = tokens@.map_values(|t: String| t@);
    let (a, b) = trimmed_bounds(s, start, to);
    if a < b {
        let piece = String::from_str(s.substring_char(a, b));
        tokens.push(piece);
        proof {
            assert(tokens@.map_values(|t: String| t@) =~= before.push(
                s@.subrange(a as int, b as int),
            ));
        }
    }
    proof {
        let one = seq![rest];
        assert(one[0] == rest);
        assert(one.drop_first() =~= Seq::<Seq<char>>::empty());
        assert(nonempty_trimmed(one.drop_first()) =~= Seq::<Seq<char>>::empty());
        assert(trim(rest) == s@.subrange(a as int, b as int));
        assert(before + nonempty_trimmed(one) =~= tokens@.map_values(|t: String| t@));
    }
    tokens
}

/// The whitespace-separated words of `s[from..to]`.
fn whitespace_separated(s: &str, from: usize, to: usize) -> (res: Vec<String>)
    requires
        from <= to <= s@.len(),
    ensures
        res@.map_values(|t: String| t@) == whitespace_words(
            s@.subrange(from as int, to as int),
        ),
{
    let mut words: Vec<String> = Vec::new();
    let mut i = from;
    while i < to
        invariant
            from <= i <= to <= s@.len(),
            whitespace_words(s@.subrange(from as int, to as int)) == words@.map_values(
                |t: String| t@,
            ) + whitespace_words(s@.subrange(i as int, to as int)),
        decreases to - i,
    {
        let ghost rest = s@.subrange(i as int, to as int);
        if char_is_white(s.get_char(i)) {
            proof {
                assert(rest.drop_first() =~= s@.subrange(i + 1, to as int));
            }
            i += 1;
        } else {
            let mut j = i + 1;
            while j < to && !char_is_white(s.get_char(j))
                invariant
                    i < j <= to <= s@.len(),
                    !is_white(s@[i as int]),
                    forall|k: int| i <= k < j ==> !is_white(#[trigger] s@[k]),
                decreases to - j,
            {
                j += 1;
            }
            proof {
                lemma_first_white_at(rest, j - i);
                assert(rest.subrange(0, j - i) =~= s@.subrange(i as int, j as int));
                assert(rest.subrange(j - i, rest.len() as int) =~= s@.subrange(j as int, to as int));
            }
            let ghost before = words@.map_values(|t: String| t@);
            let word = String::from_str(s.substring_char(i, j));
            words.push(word);
            proof {
                assert(words@.map_values(|t: String| t@) =~= before.push(
                    s@.subrange(i as int, j as int),
                ));
                assert(before + whitespace_words(rest) =~= words@.map_values(|t: String| t@)
                    + whitespace_words(s@.subrange(j as int, to as int)));
            }
            i = j;
        }
    }
    proof {
        assert(s@.subrange(i as int, to as int) =~= Seq::<char>::empty());
        assert(words@.map_values(|t: String| t@) + Seq::<Seq<char>>::empty() =~= words@.map_values(
            |t: String| t@,
        ));
    }
    words
}

/// The token lists of a vector written on the command line, one for each
/// way of reading it, in the order they are tried (see `vector_readings`).
pub fn vector_token_lists(arg: &str) -> (res: Vec<Vec<String>>)
    ensures
        res@.len() == vector_readings(arg@).len(),
        forall|k: int|
            0 <= k < res@.len() ==> (#[trigger] res@[k])@.map_values(|t: String| t@)
                == vector_readings(arg@)[k],
{
    let n = arg.unicode_len();
    let (a, b) = trimmed_bounds(arg, 0, n);
    proof {
        assert(arg@.subrange(0, n as int) =~= arg@);
    }
    let ghost t = arg@.subrange(a as int, b as int);
    let mut lists: Vec<Vec<String>> = Vec::new();
    if a < b && arg.get_char(a) == '[' && arg.get_char(b - 1) == ']' {
        proof {
            assert(arg@.subrange(a + 1, b - 1) =~= t.subrange(1, t.len() - 1));
        }
        lists.push(comma_separated(arg, a + 1, b - 1));
    }
    let ghost bracketed = lists@;
    lists.push(whitespace_separated(arg, a, b));
    lists.push(comma_separated(arg, a, b));
    proof {
        let readings = vector_readings(arg@);
        if is_bracketed(t) {
            assert(bracketed.len() == 1);
        } else {
            assert(bracketed.len() == 0);
        }
        assert(readings.len() == lists@.len());
    }
    lists
}

/// A reading succeeds when it has at least one token and every token
/// parses as a number; `parsed` holds, token by token, whether it does.
pub open spec fn reading_succeeds(parsed: Seq<bool>) -> bool {
    parsed.len() > 0 && forall|i: int| 0 <= i < parsed.len() ==> #[trigger] parsed[i]
}

/// `k` is the first reading that succeeds.
pub open spec fn is_first_success(parsed: Seq<Seq<bool>>, k: int) -> bool {
    &&& 0 <= k < parsed.len()
    &&& reading_succeeds(parsed[k])
    &&& forall|m: int| 0 <= m < k ==> !reading_succeeds(#[trigger] parsed[m])
}

/// Which reading of a command-line vector is taken, given for each reading
/// (as `vector_token_lists` lists them) whether each of its tokens parses
/// as a number: the first that succeeds, or none.
pub fn choose_reading(parsed: &[Vec<bool>]) -> (res: Option<usize>)
    ensures
        res matches Some(k) ==> is_first_success(parsed@.map_values(|p: Vec<bool>| p@), k as int),
        res is None ==> forall|m: int|
            0 <= m < parsed@.len() ==> !reading_succeeds(#[trigger] parsed@[m]@),
{
    let ghost views = parsed@.map_values(|p: Vec<bool>| p@);
    let mut k: usize = 0;
    while k < parsed.len()
        invariant
            k <= parsed@.len(),
            views == parsed@.map_values(|p: Vec<bool>| p@),
            forall|m: int| 0 <= m < k ==> !reading_succeeds(#[trigger] parsed@[m]@),
        decreases parsed.len() - k,
    {
        let tokens = &parsed[k];
        let mut all = tokens.len() > 0;
        let mut i: usize = 0;
        while all && i < tokens.len()
            invariant
                i <= tokens@.len(),
                all ==> tokens@.len() > 0,
                all ==> forall|j: int| 0 <= j < i ==> #[trigger] tokens@[j],
                !all ==> !reading_succeeds(tokens@),
            decreases tokens.len() - i,
        {
            if !tokens[i] {
                all = false;
            }
            i += 1;
        }
        if all {
            proof {
                assert forall|m: int| 0 <= m < k implies !reading_succeeds(#[trigger] views[m]) by {
                    assert(views[m] == parsed@[m]@);
                }
                assert(views[k as int] == tokens@);
            }
            return Some(k);
        }
        k += 1;
    }
    None
}

// ---------------------------------------------------------------------
// JSONL files
// ---------------------------------------------------------------------

/// `s` without a leading byte-order mark (U+FEFF).
pub open spec fn strip_bom(s: Seq<char>) -> Seq<char> {
    if s.len() > 0 && s[0] == '\u{FEFF}' {
        s.drop_first()
    } else {
        s
    }
}

/// The trimmed, non-empty lines among `pieces`, each with its index,
/// counting from `first`.
pub open spec fn numbered_lines(pieces: Seq<Seq<char>>, first: nat) -> Seq<(nat, Seq<char>)>
    decreases pieces.len(),
{
    if pieces.len() == 0 {
        Seq::empty()
    } else {
        let t = trim(pieces[0]);
        (if t.len() > 0 {
            seq![(first, t)]
        } else {
            Seq::empty()
        }) + numbered_lines(pieces.drop_first(), first + 1)
    }
}

/// The lines of a JSONL file that hold a record: after a leading
/// byte-order mark is dropped, the text is cut at each newline, and every
/// line that is not blank is kept, trimmed, with its index (from zero).
/// A carriage return before a newline is whitespace, so trimming removes it.
pub open spec fn record_lines(contents: Seq<char>) -> Seq<(nat, Seq<char>)> {
    numbered_lines(split_on(strip_bom(contents), '\n'), 0)
}

proof fn lemma_numbered_lines_entries(pieces: Seq<Seq<char>>, first: nat)
    ensures
        forall|j: int|
            0 <= j < numbered_lines(pieces, first).len() ==> {
                let e = #[trigger] numbered_lines(pieces, first)[j];
                &&& first <= e.0 < first + pieces.len()
                &&& e.1 == trim(pieces[e.0 - first])
                &&& e.1.len() > 0
            },
        forall|j1: int, j2: int|
            0 <= j1 < j2 < numbered_lines(pieces, first).len() ==> (#[trigger] numbered_lines(
                pieces,
                first,
            )[j1]).0 < (#[trigger] numbered_lines(pieces, first)[j2]).0,
        forall|i: int|
            0 <= i < pieces.len() && trim(#[trigger] pieces[i]).len() > 0 ==> exists|j: int|
                0 <= j < numbered_lines(pieces, first).len() && (#[trigger] numbered_lines(
                    pieces,
                    first,
                )[j]).0 == first + i,
    decreases pieces.len(),
{
    if pieces.len() > 0 {
        let rest = pieces.drop_first();
        let tail = numbered_lines(rest, first + 1);
        lemma_numbered_lines_entries(rest, first + 1);
        let t = trim(pieces[0]);
        let head = if t.len() > 0 {
            seq![(first, t)]
        } else {
            Seq::<(nat, Seq<char>)>::empty()
        };
        let nl = numbered_lines(pieces, first);
        assert(nl == head + tail);
        let h = head.len() as int;
        assert forall|j: int| 0 <= j < nl.len() implies {
            let e = #[trigger] nl[j];
            &&& first <= e.0 < first + pieces.len()
            &&& e.1 == trim(pieces[e.0 - first])
            &&& e.1.len() > 0
        } by {
            if j >= h {
                assert(nl[j] == tail[j - h]);
                assert(pieces[tail[j - h].0 - first] == rest[tail[j - h].0 - (first + 1)]);
            }
        }
        assert forall|j1: int, j2: int| 0 <= j1 < j2 < nl.len() implies (#[trigger] nl[j1]).0
            < (#[trigger] nl[j2]).0 by {
            assert(nl[j2] == tail[j2 - h]);
            if j1 >= h {
                assert(nl[j1] == tail[j1 - h]);
            }
        }
        assert forall|i: int| 0 <= i < pieces.len() && trim(#[trigger] pieces[i]).len() > 0 implies exists|j: int|
            0 <= j < nl.len() && (#[trigger] nl[j]).0 == first + i by {
            if i == 0 {
                assert(nl[0] == (first, t));
            } else {
                assert(pieces[i] == rest[i - 1]);
                let j0 = choose|j: int| 0 <= j < tail.len() && (#[trigger] tail[j]).0 == first + 1
                    + (i - 1);
                assert(nl[j0 + h] == tail[j0]);
            }
        }
    }
}

/// Law: the record lines of a file are its non-blank lines, each
/// trimmed and given with its own index (the first line is line 0), in
/// file order, none left out.
pub proof fn lemma_record_lines_entries(contents: Seq<char>)
    ensures
        forall|j: int|
            0 <= j < record_lines(contents).len() ==> {
                let e = #[trigger] record_lines(contents)[j];
                let lines = split_on(strip_bom(contents), '\n');
                &&& e.0 < lines.len()
                &&& e.1 == trim(lines[e.0 as int])
                &&& e.1.len() > 0
            },
        forall|j1: int, j2: int|
            0 <= j1 < j2 < record_lines(contents).len() ==> (#[trigger] record_lines(
                contents,
            )[j1]).0 < (#[trigger] record_lines(contents)[j2]).0,
        forall|i: int|
            0 <= i < split_on(strip_bom(contents), '\n').len() && trim(
                #[trigger] split_on(strip_bom(contents), '\n')[i],
            ).len() > 0 ==> exists|j: int|
                0 <= j < record_lines(contents).len() && (#[trigger] record_lines(
                    contents,
                )[j]).0 == i,
{
    let lines = split_on(strip_bom(contents), '\n');
    lemma_numbered_lines_entries(lines, 0);
    let nl = record_lines(contents);
    assert forall|i: int| 0 <= i < lines.len() && trim(#[trigger] lines[i]).len() > 0 implies exists|j: int|
        0 <= j < nl.len() && (#[trigger] nl[j]).0 == i by {
        let j0 = choose|j: int| 0 <= j < nl.len() && (#[trigger] nl[j]).0 == 0 + i;
        assert(nl[j0].0 == i);
    }
}

/// The bounds of `s[from..to]` with leading and trailing whitespace
/// removed.
fn trimmed_range(s: &[char], from: usize, to: usize) -> (res: (usize, usize))
    requires
        from <= to <= s@.len(),
    ensures
        from <= res.0 <= res.1 <= to,
        trim(s@.subrange(from as int, to as int)) == s@.subrange(res.0 as int, res.1 as int),
{
    let mut a = from;
    while a < to && char_is_white(s[a])
        invariant
            from <= a <= to <= s@.len(),
            forall|k: int| from <= k < a ==> is_white(#[trigger] s@[k]),
        decreases to - a,
    {
        a += 1;
    }
    let ghost piece = s@.subrange(from as int, to as int);
    proof {
        lemma_trim_start_skip(piece, a - from);
        assert(piece.subrange(a - from, piece.len() as int) =~= s@.subrange(a as int, to as int));
        let rest = s@.subrange(a as int, to as int);
        if rest.len() > 0 {
            assert(!is_white(rest[0]));
        }
        assert(trim_start(piece) == rest);
    }
    let mut b = to;
    while b > a && char_is_white(s[b - 1])
        invariant
            a <= b <= to <= s@.len(),
            forall|k: int| b <= k < to ==> is_white(#[trigger] s@[k]),
        decreases b - a,
    {
        b -= 1;
    }
    proof {
        let rest = s@.subrange(a as int, to as int);
        lemma_trim_end_skip(rest, b - a);
        assert(rest.subrange(0, b - a) =~= s@.subrange(a as int, b as int));
        let kept = s@.subrange(a as int, b as int);
        if kept.len() > 0 {
            assert(!is_white(kept.last()));
        }
    }
    (a, b)
}

/// The record lines of a JSONL file with the characters `contents`, as
/// `record_lines` gives them.
pub fn record_lines_of(contents: &[char]) -> (res: Vec<(usize, Vec<char>)>)
    ensures
        res@.map_values(|p: (usize, Vec<char>)| (p.0 as nat, p.1@)) == record_lines(contents@),
{
    let n = contents.len();
    let skip: usize = if n > 0 && contents[0] == '\u{FEFF}' {
        1
    } else {
        0
    };
    let ghost text = strip_bom(contents@);
    proof {
        assert(text =~= contents@.subrange(skip as int, n as int));
    }
    let mut lines: Vec<(usize, Vec<char>)> = Vec::new();
    let mut start = skip;
    let mut line: usize = 0;
    let mut i = skip;
    while i < n
        invariant
            skip <= start <= i <= n,
            n == contents@.len(),
            line <= start,
            text == contents@.subrange(skip as int, n as int),
            forall|k: int| start <= k < i ==> #[trigger] contents@[k] != '\n',
            record_lines(contents@) == lines@.map_values(
                |p: (usize, Vec<char>)| (p.0 as nat, p.1@),
            ) + numbered_lines(split_on(contents@.subrange(start as int, n as int), '\n'), line as nat),
        decreases n - i,
    {
        if contents[i] == '\n' {
            let ghost rest = contents@.subrange(start as int, n as int);
            proof {
                lemma_first_index_at(rest, '\n', i - start);
                assert(rest.subrange(0, i - start) =~= contents@.subrange(start as int, i as int));
                assert(rest.subrange(i - start + 1, rest.len() as int) =~= contents@.subrange(
                    i + 1,
                    n as int,
                ));
            }
            let ghost before = lines@.map_values(|p: (usize, Vec<char>)| (p.0 as nat, p.1@));
            let (a, b) = trimmed_range(contents, start, i);
            if a < b {
                let piece = slice_to_vec(slice_subrange(contents, a, b));
                lines.push((line, piece));
                proof {
                    assert(lines@.map_values(|p: (usize, Vec<char>)| (p.0 as nat, p.1@)) =~= before.push(
                        (line as nat, contents@.subrange(a as int, b as int)),
                    ));
                }
            }
            proof {
                let pieces = split_on(rest, '\n');
                assert(pieces.drop_first() =~= split_on(contents@.subrange(i + 1, n as int), '\n'));
                assert(before + numbered_lines(pieces, line as nat) =~= lines@.map_values(
                    |p: (usize, Vec<char>)| (p.0 as nat, p.1@),
                ) + numbered_lines(
                    split_on(contents@.subrange(i + 1, n as int), '\n'),
                    (line + 1) as nat,
                ));
            }
            start = i + 1;
            line += 1;
        }
        i += 1;
    }
    let ghost rest = contents@.subrange(start as int, n as int);
    proof {
        lemma_first_index_at(rest, '\n', rest.len() as int);
        assert(split_on(rest, '\n') == seq![rest]);
    }
    let ghost before = lines@.map_values(|p: (usize, Vec<char>)| (p.0 as nat, p.1@));
    let (a, b) = trimmed_range(contents, start, n);
    if a < b {
        let piece = slice_to_vec(slice_subrange(contents, a, b));
        lines.push((line, piece));
        proof {
            assert(lines@.map_values(|p: (usize, Vec<char>)| (p.0 as nat, p.1@)) =~= before.push(
                (line as nat, contents@.subrange(a as int, b as int)),
            ));
        }
    }
    proof {
        let one = seq![rest];
        assert(one[0] == rest);
        assert(one.drop_first() =~= Seq::<Seq<char>>::empty());
        assert(numbered_lines(one.drop_first(), (line + 1) as nat) =~= Seq::<(nat, Seq<char>)>::empty());
        assert(before + numbered_lines(one, line as nat) =~= lines@.map_values(
            |p: (usize, Vec<char>)| (p.0 as nat, p.1@),
        ));
    }
    lines
}

/// The error that refuses text from which no vector can be read.
pub fn unreadable_vector(arg: &str) -> (e: VecMathError)
    ensures
        e matches VecMathError::ParseError(m) && m@ == "cannot parse vector from '"@ + arg@
            + "'. Use [1,2,3] or '1 2 3' or '1,2,3'"@,
{
    let mut m = String::from_str("cannot parse vector from '");
    m.append(arg);
    m.append("'. Use [1,2,3] or '1 2 3' or '1,2,3'");
    VecMathError::ParseError(m)
}

} // verus!
