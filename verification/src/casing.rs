//! Case conversion for identifier names.
//!
//! A name is split into words at separator characters (`-`, `_`, ASCII
//! whitespace) and at camel-case boundaries (a lower-case letter or digit
//! followed by an upper-case letter).  Every word is lower-cased and the
//! words are re-joined with a single separator character: `_` for
//! snake_case, `-` for kebab-case.  Consecutive separators collapse into
//! one word boundary; leading and trailing separators are dropped.

use vstd::prelude::*;

verus! {

/// A character at which words are always split: hyphen, underscore,
/// or ASCII whitespace.
pub open spec fn is_separator(c: char) -> bool {
    c == '-' || c == '_' || c == ' ' || c == '\t' || c == '\n' || c == '\r' || c == '\x0C'
}

/// An ASCII upper-case letter.
pub open spec fn is_upper(c: char) -> bool {
    65 <= (c as u32) && (c as u32) <= 90
}

/// An ASCII lower-case letter.
pub open spec fn is_lower(c: char) -> bool {
    97 <= (c as u32) && (c as u32) <= 122
}

/// An ASCII digit.
pub open spec fn is_digit(c: char) -> bool {
    48 <= (c as u32) && (c as u32) <= 57
}

/// The ASCII lower-case image of a character: upper-case letters map to
/// the corresponding lower-case letter, everything else is unchanged.
pub open spec fn lower_char(c: char) -> char {
    if is_upper(c) {
        (((c as u32) + 32) as u32) as char
    } else {
        c
    }
}

/// A camel-case word boundary between two adjacent characters: a
/// lower-case letter or digit followed by an upper-case letter.
pub open spec fn case_boundary(a: char, b: char) -> bool {
    (is_lower(a) || is_digit(a)) && is_upper(b)
}

/// One step of the conversion state machine, consuming `s` from the front.
///
/// `started` records whether a word character has been emitted yet,
/// `pend` whether a separator was read since the last word character
/// (so the next word character must be preceded by `sep`), and `prev`
/// is the previously read character, consulted for camel-case boundaries.
pub open spec fn convert_from(
    s: Seq<char>,
    sep: char,
    started: bool,
    pend: bool,
    prev: char,
) -> Seq<char>
    decreases s.len(),
{
    if s.len() == 0 {
        Seq::empty()
    } else {
        let c = s[0];
        let rest = s.drop_first();
        if is_separator(c) {
            convert_from(rest, sep, started, started, c)
        } else if !started {
            seq![lower_char(c)] + convert_from(rest, sep, true, false, c)
        } else if pend || case_boundary(prev, c) {
            seq![sep, lower_char(c)] + convert_from(rest, sep, true, false, c)
        } else {
            seq![lower_char(c)] + convert_from(rest, sep, true, false, c)
        }
    }
}

/// The whole conversion: split `s` into words, lower-case them, and join
/// them with `sep`.
pub open spec fn convert(s: Seq<char>, sep: char) -> Seq<char> {
    convert_from(s, sep, false, false, ' ')
}

/// snake_case image of `s`: lower-cased words joined by `_`.
pub open spec fn to_snake_spec(s: Seq<char>) -> Seq<char> {
    convert(s, '_')
}

/// kebab-case image of `s`: lower-cased words joined by `-`.
pub open spec fn to_kebab_spec(s: Seq<char>) -> Seq<char> {
    convert(s, '-')
}

/// Every character of `s` is either the join character `sep` or a word
/// character (neither a separator nor upper-case), and every occurrence
/// of `sep` is followed by a word character (so `sep` never trails and
/// never doubles).
pub open spec fn sep_spaced(s: Seq<char>, sep: char) -> bool {
    &&& forall|i: int|
        0 <= i < s.len() ==> (s[i] == sep || (!is_separator(s[i]) && !is_upper(s[i])))
    &&& forall|i: int|
        0 <= i < s.len() && #[trigger] s[i] == sep ==> i + 1 < s.len() && s[i + 1] != sep
}

/// `s` consists of non-empty words of word characters (no separators, no
/// upper-case letters) joined by single occurrences of `sep`, with no
/// leading or trailing `sep`.
pub open spec fn canonical(s: Seq<char>, sep: char) -> bool {
    &&& sep_spaced(s, sep)
    &&& s.len() > 0 ==> s[0] != sep
}

/// `s` with every occurrence of `a` replaced by `b`.
pub open spec fn swap_sep(s: Seq<char>, a: char, b: char) -> Seq<char> {
    s.map(|_i: int, c: char| if c == a { b } else { c })
}

/// Lower-casing a word character yields a word character.
proof fn lemma_lower_char_word(c: char)
    requires
        !is_separator(c),
    ensures
        !is_separator(lower_char(c)),
        !is_upper(lower_char(c)),
{
}

/// `sep_spaced` is preserved by dropping a prefix: its conditions only
/// look forwards.
proof fn lemma_sep_spaced_skip(t: Seq<char>, a: char, k: int)
    requires
        sep_spaced(t, a),
        0 <= k <= t.len(),
    ensures
        sep_spaced(t.skip(k), a),
{
    let u = t.skip(k);
    assert forall|i: int|
        0 <= i < u.len() implies (u[i] == a || (!is_separator(u[i]) && !is_upper(u[i]))) by {
        assert(u[i] == t[i + k]);
    }
    assert forall|i: int|
        0 <= i < u.len() && #[trigger] u[i] == a implies i + 1 < u.len() && u[i + 1] != a by {
        assert(u[i] == t[i + k]);
        assert(t[i + k + 1] != a);
    }
}

/// The conversion only emits the join character and lower-case word
/// characters, a join character is always followed by a word character,
/// and a fresh conversion (`started == false`) never leads with one.
proof fn lemma_convert_from_shape(s: Seq<char>, sep: char, started: bool, pend: bool, prev: char)
    requires
        is_separator(sep),
    ensures
        sep_spaced(convert_from(s, sep, started, pend, prev), sep),
        !started ==> canonical(convert_from(s, sep, started, pend, prev), sep),
    decreases s.len(),
{
    if s.len() == 0 {
    } else {
        let c = s[0];
        let rest = s.drop_first();
        let r = convert_from(s, sep, started, pend, prev);
        if is_separator(c) {
            lemma_convert_from_shape(rest, sep, started, started, c);
        } else {
            lemma_lower_char_word(c);
            lemma_convert_from_shape(rest, sep, true, false, c);
            let r2 = convert_from(rest, sep, true, false, c);
            let emit: Seq<char> = if started && (pend || case_boundary(prev, c)) {
                seq![sep, lower_char(c)]
            } else {
                seq![lower_char(c)]
            };
            assert(r =~= emit + r2);
            assert forall|i: int|
                0 <= i < r.len() implies (r[i] == sep || (!is_separator(r[i])
                && !is_upper(r[i]))) by {
                if i >= emit.len() {
                    assert(r[i] == r2[i - emit.len()]);
                }
            }
            assert forall|i: int|
                0 <= i < r.len() && #[trigger] r[i] == sep implies i + 1 < r.len() && r[i + 1]
                != sep by {
                if i < emit.len() {
                    assert(emit.len() == 2 && i == 0);
                    assert(r[1] == lower_char(c));
                } else {
                    let j = i - emit.len();
                    assert(r2[j] == sep);
                    assert(j + 1 < r2.len() && r2[j + 1] != sep);
                    assert(r[i + 1] == r2[j + 1]);
                }
            }
            assert(r[0] == emit[0]);
        }
    }
}

/// The conversion of a string that is already in `sep_spaced` form, once
/// a word has been started, rewrites each join character `a` to `b` and
/// keeps everything else unchanged.
proof fn lemma_convert_from_swap(t: Seq<char>, a: char, b: char, prev: char)
    requires
        is_separator(a),
        is_separator(b),
        sep_spaced(t, a),
    ensures
        convert_from(t, b, true, false, prev) == swap_sep(t, a, b),
    decreases t.len(),
{
    let r = convert_from(t, b, true, false, prev);
    let w = swap_sep(t, a, b);
    if t.len() == 0 {
        assert(r =~= w);
    } else {
        let c = t[0];
        let rest = t.drop_first();
        if c == a {
            assert(t[1] != a);
            let c1 = t[1];
            assert(rest[0] == c1);
            assert(!is_separator(c1) && !is_upper(c1));
            let rest2 = rest.drop_first();
            assert(rest2 =~= t.skip(2));
            lemma_sep_spaced_skip(t, a, 2);
            lemma_convert_from_swap(t.skip(2), a, b, c1);
            let r1 = convert_from(rest, b, true, true, c);
            assert(r == r1);
            assert(r1 == seq![b, lower_char(c1)] + convert_from(rest2, b, true, false, c1));
            assert(lower_char(c1) == c1);
            assert(r =~= seq![b, c1] + swap_sep(t.skip(2), a, b));
            assert(w =~= seq![b, c1] + swap_sep(t.skip(2), a, b));
        } else {
            assert(!is_separator(c) && !is_upper(c));
            assert(rest =~= t.skip(1));
            lemma_sep_spaced_skip(t, a, 1);
            lemma_convert_from_swap(t.skip(1), a, b, c);
            assert(r =~= seq![c] + swap_sep(t.skip(1), a, b));
            assert(w =~= seq![c] + swap_sep(t.skip(1), a, b));
        }
    }
}

/// Converting a string that is already canonical for the join character
/// `a` into the convention with join character `b` just replaces every
/// `a` by `b`; in particular, converting it with `b == a` returns it
/// unchanged.
pub proof fn lemma_convert_canonical(t: Seq<char>, a: char, b: char)
    requires
        is_separator(a),
        is_separator(b),
        canonical(t, a),
    ensures
        convert(t, b) == swap_sep(t, a, b),
{
    if t.len() == 0 {
        assert(convert(t, b) =~= swap_sep(t, a, b));
    } else {
        let c = t[0];
        assert(!is_separator(c) && !is_upper(c));
        let rest = t.drop_first();
        assert(rest =~= t.skip(1));
        lemma_sep_spaced_skip(t, a, 1);
        lemma_convert_from_swap(t.skip(1), a, b, c);
        assert(convert(t, b) =~= seq![c] + swap_sep(t.skip(1), a, b));
        assert(swap_sep(t, a, b) =~= seq![c] + swap_sep(t.skip(1), a, b));
    }
}

/// The output of a conversion is canonical for its join character.
pub proof fn lemma_convert_shape(s: Seq<char>, sep: char)
    requires
        is_separator(sep),
    ensures
        canonical(convert(s, sep), sep),
{
    lemma_convert_from_shape(s, sep, false, false, ' ');
}

/// Both conversions are idempotent: converting a conversion's output
/// again is a no-op.
pub proof fn lemma_convert_idempotent(s: Seq<char>, sep: char)
    requires
        is_separator(sep),
    ensures
        convert(convert(s, sep), sep) == convert(s, sep),
{
    let t = convert(s, sep);
    lemma_convert_shape(s, sep);
    lemma_convert_canonical(t, sep, sep);
    assert(swap_sep(t, sep, sep) =~= t);
}

/// Relies on `String::push`: appends the given character to the end of
/// the string.
pub assume_specification[ String::push ](s: &mut String, c: char)
    ensures
        final(s)@ == old(s)@.push(c),
;

/// Relies on `char::to_ascii_lowercase`: maps the ASCII letters `A` to
/// `Z` to `a` to `z` and returns every other character unchanged.
pub assume_specification[ char::to_ascii_lowercase ](c: &char) -> (r: char)
    ensures
        r == lower_char(*c),
;

/// Decides `is_separator`.
fn separator_char(c: char) -> (r: bool)
    ensures
        r == is_separator(c),
{
    c == '-' || c == '_' || c == ' ' || c == '\t' || c == '\n' || c == '\r' || c == '\x0C'
}

/// Decides `case_boundary`.
fn boundary_chars(a: char, b: char) -> (r: bool)
    ensures
        r == case_boundary(a, b),
{
    let ua = a as u32;
    let ub = b as u32;
    ((97 <= ua && ua <= 122) || (48 <= ua && ua <= 57)) && (65 <= ub && ub <= 90)
}

/// Converts `name` to lower-cased words joined by `sep`, walking the
/// characters once with the same state as the specification.
fn convert_str(name: &str, sep: char) -> (r: String)
    ensures
        r@ == convert(name@, sep),
{
    let n = name.unicode_len();
    let mut out = String::new();
    let mut started: bool = false;
    let mut pend: bool = false;
    let mut prev: char = ' ';
    let mut i: usize = 0;
    proof {
        assert(name@.skip(0) =~= name@);
        assert(Seq::<char>::empty() + convert_from(name@, sep, false, false, ' ')
            =~= convert_from(name@, sep, false, false, ' '));
    }
    while i < n
        invariant
            n == name@.len(),
            i <= n,
            !started ==> !pend,
            convert(name@, sep) == out@ + convert_from(
                name@.skip(i as int),
                sep,
                started,
                pend,
                prev,
            ),
        decreases n - i,
    {
        let ghost suffix = name@.skip(i as int);
        let ghost pre_out = out@;
        let c = name.get_char(i);
        proof {
            assert(suffix[0] == name@[i as int]);
            assert(suffix.drop_first() =~= name@.skip(i as int + 1));
        }
        if separator_char(c) {
            proof {
                assert(convert_from(suffix, sep, started, pend, prev) == convert_from(
                    name@.skip(i as int + 1),
                    sep,
                    started,
                    started,
                    c,
                ));
            }
            if started {
                pend = true;
            }
            prev = c;
        } else {
            let lc = c.to_ascii_lowercase();
            if !started {
                out.push(lc);
                started = true;
                proof {
                    assert(convert_from(suffix, sep, false, false, prev) == seq![lower_char(c)]
                        + convert_from(name@.skip(i as int + 1), sep, true, false, c));
                    assert(out@ =~= pre_out + seq![lower_char(c)]);
                }
            } else if pend || boundary_chars(prev, c) {
                out.push(sep);
                out.push(lc);
                pend = false;
                proof {
                    assert(convert_from(suffix, sep, true, true, prev) == seq![
                        sep,
                        lower_char(c),
                    ] + convert_from(name@.skip(i as int + 1), sep, true, false, c));
                    assert(convert_from(suffix, sep, true, false, prev) == (if case_boundary(
                        prev,
                        c,
                    ) {
                        seq![sep, lower_char(c)]
                    } else {
                        seq![lower_char(c)]
                    }) + convert_from(name@.skip(i as int + 1), sep, true, false, c));
                    assert(out@ =~= pre_out + seq![sep, lower_char(c)]);
                }
            } else {
                out.push(lc);
                proof {
                    assert(convert_from(suffix, sep, true, false, prev) == seq![lower_char(c)]
                        + convert_from(name@.skip(i as int + 1), sep, true, false, c));
                    assert(out@ =~= pre_out + seq![lower_char(c)]);
                }
            }
            prev = c;
        }
        i = i + 1;
        proof {
            assert(convert(name@, sep) == out@ + convert_from(
                name@.skip(i as int),
                sep,
                started,
                pend,
                prev,
            ));
        }
    }
    proof {
        assert(name@.skip(n as int) =~= Seq::<char>::empty());
        assert(convert(name@, sep) =~= out@);
    }
    out
}

/// Rewrites `name` to snake_case: lower-cased words joined by `_`.
pub fn to_snake_case(name: &str) -> (r: String)
    ensures
        r@ == to_snake_spec(name@),
{
    convert_str(name, '_')
}

/// Rewrites `name` to kebab-case: lower-cased words joined by `-`.
pub fn to_kebab_case(name: &str) -> (r: String)
    ensures
        r@ == to_kebab_spec(name@),
{
    convert_str(name, '-')
}

} // verus!
