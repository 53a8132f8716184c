//! Character-level text utilities: character classes, trimming, splitting,
//! decimal parsing and printing, and lexicographic ordering. Everything here
//! is specified over `Seq<char>`, the view of `str` and `String`.

use vstd::prelude::*;
use vstd::string::*;

verus! {

// ---------------------------------------------------------------------------
// Character classes
// ---------------------------------------------------------------------------

/// The Unicode `White_Space` code points, the set that `char::is_whitespace`
/// tests and that trimming removes.
pub open spec fn is_space(c: char) -> bool {
    c == ' ' || c == '\t' || c == '\n' || c == '\u{b}' || c == '\u{c}' || c == '\r'
        || c == '\u{85}' || c == '\u{a0}' || c == '\u{1680}' || ('\u{2000}' <= c && c
        <= '\u{200a}') || c == '\u{2028}' || c == '\u{2029}' || c == '\u{202f}' || c == '\u{205f}'
        || c == '\u{3000}'
}

pub fn char_is_space(c: char) -> (r: bool)
    ensures
        r == is_space(c),
{
    c == ' ' || c == '\t' || c == '\n' || c == '\u{b}' || c == '\u{c}' || c == '\r'
        || c == '\u{85}' || c == '\u{a0}' || c == '\u{1680}' || ('\u{2000}' <= c && c
        <= '\u{200a}') || c == '\u{2028}' || c == '\u{2029}' || c == '\u{202f}' || c == '\u{205f}'
        || c == '\u{3000}'
}

/// Whether a character has the Unicode `Alphabetic` property. The set is far
/// too large to write down, so it is left uninterpreted and tied to the
/// standard library through `char_is_alpha`.
pub uninterp spec fn is_alpha(c: char) -> bool;

/// Relies on `char::is_alphabetic`: true exactly for characters with the
/// Unicode `Alphabetic` property, a function of the character alone.
#[verifier::external_body]
pub fn char_is_alpha(c: char) -> (r: bool)
    ensures
        r == is_alpha(c),
{
    c.is_alphabetic()
}

/// Characters admitted inside a clue word or a linked word.
pub open spec fn word_char(c: char) -> bool {
    is_alpha(c) || c == ' '
}

pub open spec fn valid_word(s: Seq<char>) -> bool {
    forall|i: int| 0 <= i < s.len() ==> word_char(#[trigger] s[i])
}

pub fn is_valid_word(v: &Vec<char>) -> (r: bool)
    ensures
        r == valid_word(v@),
{
    let mut i: usize = 0;
    while i < v.len()
        invariant
            i <= v@.len(),
            forall|j: int| 0 <= j < i ==> word_char(#[trigger] v@[j]),
        decreases v@.len() - i,
    {
        let c = v[i];
        if !(char_is_alpha(c) || c == ' ') {
            return false;
        }
        i += 1;
    }
    true
}

// ---------------------------------------------------------------------------
// Conversions between strings and character vectors
// ---------------------------------------------------------------------------

pub fn chars_of(s: &str) -> (r: Vec<char>)
    ensures
        r@ == s@,
{
    let n = s.unicode_len();
    let mut r: Vec<char> = Vec::new();
    let mut i: usize = 0;
    while i < n
        invariant
            i <= n,
            n == s@.len(),
            r@ == s@.take(i as int),
        decreases n - i,
    {
        r.push(s.get_char(i));
        i += 1;
        proof {
            assert(r@ =~= s@.take(i as int));
        }
    }
    proof {
        assert(s@.take(n as int) =~= s@);
    }
    r
}

/// Relies on `String: FromIterator<char>`: collecting characters yields the
/// string of exactly those characters, in order.
#[verifier::external_body]
pub fn string_of(v: &Vec<char>) -> (r: String)
    ensures
        r@ == v@,
{
    v.iter().collect()
}

pub fn push_chars(dst: &mut Vec<char>, src: &Vec<char>)
    ensures
        final(dst)@ == old(dst)@ + src@,
{
    let mut i: usize = 0;
    while i < src.len()
        invariant
            i <= src@.len(),
            dst@ == old(dst)@ + src@.take(i as int),
        decreases src@.len() - i,
    {
        dst.push(src[i]);
        i += 1;
        proof {
            assert(dst@ =~= old(dst)@ + src@.take(i as int));
        }
    }
    proof {
        assert(old(dst)@ + src@.take(src@.len() as int) =~= old(dst)@ + src@);
    }
}

// ---------------------------------------------------------------------------
// Trimming
// ---------------------------------------------------------------------------

pub open spec fn trim_start_spec(s: Seq<char>) -> Seq<char>
    decreases s.len(),
{
    if s.len() > 0 && is_space(s[0]) {
        trim_start_spec(s.skip(1))
    } else {
        s
    }
}

pub open spec fn trim_end_spec(s: Seq<char>) -> Seq<char>
    decreases s.len(),
{
    if s.len() > 0 && is_space(s.last()) {
        trim_end_spec(s.drop_last())
    } else {
        s
    }
}

/// What trimming means: leading and trailing whitespace removed.
pub open spec fn trim_spec(s: Seq<char>) -> Seq<char> {
    trim_end_spec(trim_start_spec(s))
}

pub fn trim_chars(v: &Vec<char>) -> (r: Vec<char>)
    ensures
        r@ == trim_spec(v@),
{
    let n = v.len();
    let mut lo: usize = 0;
    proof {
        assert(v@.skip(0) =~= v@);
    }
    while lo < n && char_is_space(v[lo])
        invariant
            lo <= n,
            n == v@.len(),
            trim_start_spec(v@) == trim_start_spec(v@.skip(lo as int)),
        decreases n - lo,
    {
        proof {
            assert(v@.skip(lo as int).skip(1) =~= v@.skip(lo as int + 1));
        }
        lo += 1;
    }
    proof {
        assert(trim_start_spec(v@) == v@.skip(lo as int));
    }
    let mut hi: usize = n;
    while hi > lo && char_is_space(v[hi - 1])
        invariant
            lo <= hi <= n,
            n == v@.len(),
            trim_start_spec(v@) == v@.skip(lo as int),
            trim_end_spec(v@.skip(lo as int)) == trim_end_spec(v@.subrange(lo as int, hi as int)),
        decreases hi,
    {
        proof {
            assert(v@.subrange(lo as int, hi as int).drop_last() =~= v@.subrange(
                lo as int,
                hi as int - 1,
            ));
        }
        hi -= 1;
    }
    proof {
        assert(v@.skip(lo as int) =~= v@.subrange(lo as int, n as int));
        assert(trim_end_spec(v@.subrange(lo as int, hi as int)) == v@.subrange(
            lo as int,
            hi as int,
        ));
    }
    let mut r: Vec<char> = Vec::new();
    let mut i: usize = lo;
    while i < hi
        invariant
            lo <= i <= hi <= n,
            n == v@.len(),
            r@ == v@.subrange(lo as int, i as int),
        decreases hi - i,
    {
        r.push(v[i]);
        i += 1;
        proof {
            assert(r@ =~= v@.subrange(lo as int, i as int));
        }
    }
    r
}

// ---------------------------------------------------------------------------
// Splitting
// ---------------------------------------------------------------------------

/// Splitting on the two-character separator `", "`, scanning from the left;
/// `acc` holds the characters of the chunk under construction.
pub open spec fn split_sep_rec(s: Seq<char>, acc: Seq<char>) -> Seq<Seq<char>>
    decreases s.len(),
{
    if s.len() >= 2 && s[0] == ',' && s[1] == ' ' {
        seq![acc] + split_sep_rec(s.skip(2), Seq::empty())
    } else if s.len() == 0 {
        seq![acc]
    } else {
        split_sep_rec(s.skip(1), acc.push(s[0]))
    }
}

/// The chunks of a line, as splitting it on `", "` produces them.
pub open spec fn comma_chunks(s: Seq<char>) -> Seq<Seq<char>> {
    split_sep_rec(s, Seq::empty())
}

pub fn split_comma_space(v: &Vec<char>) -> (r: Vec<Vec<char>>)
    ensures
        r.deep_view() == comma_chunks(v@),
{
    let n = v.len();
    let mut r: Vec<Vec<char>> = Vec::new();
    let mut cur: Vec<char> = Vec::new();
    let mut i: usize = 0;
    proof {
        assert(v@.skip(0) =~= v@);
        assert(r.deep_view() + split_sep_rec(v@, Seq::empty()) =~~= comma_chunks(v@));
    }
    while i < n
        invariant
            i <= n,
            n == v@.len(),
            r.deep_view() + split_sep_rec(v@.skip(i as int), cur@) == comma_chunks(v@),
        decreases n - i,
    {
        let ghost prev = r.deep_view();
        let ghost cur_view = cur@;
        let ghost rest = v@.skip(i as int);
        if v[i] == ',' && i + 1 < n && v[i + 1] == ' ' {
            proof {
                assert(rest.len() >= 2 && rest[0] == ',' && rest[1] == ' ');
                assert(rest.skip(2) =~= v@.skip(i as int + 2));
            }
            r.push(cur);
            cur = Vec::new();
            i += 2;
            proof {
                assert(r.deep_view() =~~= prev.push(cur_view));
                assert(prev.push(cur_view) + split_sep_rec(v@.skip(i as int), Seq::empty())
                    =~= prev + (seq![cur_view] + split_sep_rec(
                    v@.skip(i as int),
                    Seq::empty(),
                )));
            }
        } else {
            proof {
                assert(!(rest.len() >= 2 && rest[0] == ',' && rest[1] == ' '));
                assert(rest.len() > 0);
                assert(rest.skip(1) =~= v@.skip(i as int + 1));
                assert(cur@.push(rest[0]) == cur@.push(v@[i as int]));
            }
            cur.push(v[i]);
            i += 1;
        }
    }
    proof {
        assert(v@.skip(n as int) =~= Seq::<char>::empty());
    }
    r.push(cur);
    proof {
        assert(r.deep_view() =~~= comma_chunks(v@));
    }
    r
}

/// Splitting on a single separator character, scanning from the left.
pub open spec fn split_char_rec(s: Seq<char>, sep: char, acc: Seq<char>) -> Seq<Seq<char>>
    decreases s.len(),
{
    if s.len() == 0 {
        seq![acc]
    } else if s[0] == sep {
        seq![acc] + split_char_rec(s.skip(1), sep, Seq::empty())
    } else {
        split_char_rec(s.skip(1), sep, acc.push(s[0]))
    }
}

pub open spec fn split_by(s: Seq<char>, sep: char) -> Seq<Seq<char>> {
    split_char_rec(s, sep, Seq::empty())
}

pub fn split_at_char(v: &Vec<char>, sep: char) -> (r: Vec<Vec<char>>)
    ensures
        r.deep_view() == split_by(v@, sep),
        r@.len() >= 1,
{
    let n = v.len();
    let mut r: Vec<Vec<char>> = Vec::new();
    let mut cur: Vec<char> = Vec::new();
    let mut i: usize = 0;
    proof {
        assert(v@.skip(0) =~= v@);
        assert(r.deep_view() + split_char_rec(v@, sep, Seq::empty()) =~~= split_by(v@, sep));
    }
    while i < n
        invariant
            i <= n,
            n == v@.len(),
            r.deep_view() + split_char_rec(v@.skip(i as int), sep, cur@) == split_by(v@, sep),
        decreases n - i,
    {
        let ghost prev = r.deep_view();
        let ghost cur_view = cur@;
        let ghost rest = v@.skip(i as int);
        proof {
            assert(rest.len() > 0);
            assert(rest[0] == v@[i as int]);
            assert(rest.skip(1) =~= v@.skip(i as int + 1));
        }
        if v[i] == sep {
            r.push(cur);
            cur = Vec::new();
            i += 1;
            proof {
                assert(r.deep_view() =~~= prev.push(cur_view));
                assert(prev.push(cur_view) + split_char_rec(v@.skip(i as int), sep, Seq::empty())
                    =~= prev + (seq![cur_view] + split_char_rec(
                    v@.skip(i as int),
                    sep,
                    Seq::empty(),
                )));
            }
        } else {
            cur.push(v[i]);
            i += 1;
        }
    }
    proof {
        assert(v@.skip(n as int) =~= Seq::<char>::empty());
    }
    r.push(cur);
    proof {
        assert(r.deep_view() =~~= split_by(v@, sep));
    }
    r
}

// ---------------------------------------------------------------------------
// Lines
// ---------------------------------------------------------------------------

/// A line's optional trailing carriage return, removed.
pub open spec fn strip_cr(l: Seq<char>) -> Seq<char> {
    if l.len() > 0 && l.last() == '\r' {
        l.drop_last()
    } else {
        l
    }
}

/// The lines of a text, as `str::lines` yields them: pieces separated by
/// `'\n'`, a final line ending being optional, and a `'\r'` that stood
/// before a `'\n'` removed along with it. A `'\r'` at the very end of the
/// text, with no newline after it, stays part of its line.
pub open spec fn lines_spec(s: Seq<char>) -> Seq<Seq<char>> {
    if s.len() == 0 {
        Seq::empty()
    } else {
        let parts = split_by(s, '\n');
        if parts.last().len() == 0 {
            parts.drop_last().map_values(|l: Seq<char>| strip_cr(l))
        } else {
            parts.drop_last().map_values(|l: Seq<char>| strip_cr(l)).push(parts.last())
        }
    }
}

pub fn lines_of(v: &Vec<char>) -> (r: Vec<Vec<char>>)
    ensures
        r.deep_view() == lines_spec(v@),
{
    if v.len() == 0 {
        let r: Vec<Vec<char>> = Vec::new();
        proof {
            assert(r.deep_view() =~~= lines_spec(v@));
        }
        return r;
    }
    let mut parts = split_at_char(v, '\n');
    let ghost all_parts = parts.deep_view();
    let ends_with_newline = parts[parts.len() - 1].len() == 0;
    if ends_with_newline {
        parts.pop();
        proof {
            assert(parts.deep_view() =~~= all_parts.drop_last());
        }
    }
    let ghost kept = parts.deep_view();
    let ghost target = lines_spec(v@);
    let n = parts.len();
    proof {
        if ends_with_newline {
            assert(target == all_parts.drop_last().map_values(|l: Seq<char>| strip_cr(l)));
            assert(target.len() == kept.len());
            assert(forall|k: int|
                0 <= k < n ==> #[trigger] target[k] == strip_cr(kept[k]));
        } else {
            assert(target == kept.drop_last().map_values(|l: Seq<char>| strip_cr(l)).push(
                kept.last(),
            ));
            assert(target.len() == kept.len());
            assert(forall|k: int|
                0 <= k < n - 1 ==> #[trigger] target[k] == strip_cr(kept.drop_last()[k]));
            assert(forall|k: int|
                0 <= k < n - 1 ==> #[trigger] kept.drop_last()[k] == kept[k]);
            assert(target[n - 1] == kept.last());
        }
    }
    let mut r: Vec<Vec<char>> = Vec::new();
    let mut i: usize = 0;
    while i < n
        invariant
            i <= n,
            n == parts@.len(),
            parts.deep_view() == kept,
            target.len() == n,
            forall|k: int|
                0 <= k < n ==> #[trigger] target[k] == if ends_with_newline || k < n - 1 {
                    strip_cr(kept[k])
                } else {
                    kept[k]
                },
            r.deep_view() == target.take(i as int),
        decreases n - i,
    {
        let ghost prev = r.deep_view();
        let part = &parts[i];
        let m = part.len();
        let mut line: Vec<char> = Vec::new();
        let mut j: usize = 0;
        let strip = ends_with_newline || i + 1 < n;
        let keep = if strip && m > 0 && part[m - 1] == '\r' {
            m - 1
        } else {
            m
        };
        proof {
            assert(part@ == kept[i as int]);
            if strip {
                assert(part@.subrange(0, keep as int) =~= strip_cr(part@));
            } else {
                assert(part@.subrange(0, keep as int) =~= part@);
            }
            assert(part@.subrange(0, keep as int) =~= target[i as int]);
        }
        while j < keep
            invariant
                j <= keep <= part@.len(),
                line@ == part@.subrange(0, j as int),
            decreases keep - j,
        {
            line.push(part[j]);
            j += 1;
            proof {
                assert(line@ =~= part@.subrange(0, j as int));
            }
        }
        r.push(line);
        i += 1;
        proof {
            assert(r.deep_view() =~~= prev.push(target[i as int - 1]));
            assert(target.take(i as int) =~= target.take(i as int - 1).push(
                target[i as int - 1],
            ));
        }
    }
    proof {
        assert(target.take(n as int) =~= target);
    }
    r
}

// ---------------------------------------------------------------------------
// Whitespace-separated words
// ---------------------------------------------------------------------------

/// Splitting at maximal runs of whitespace, scanning from the left; no empty
/// words are produced.
pub open spec fn split_ws_rec(s: Seq<char>, acc: Seq<char>) -> Seq<Seq<char>>
    decreases s.len(),
{
    if s.len() == 0 {
        if acc.len() > 0 {
            seq![acc]
        } else {
            Seq::empty()
        }
    } else if is_space(s[0]) {
        (if acc.len() > 0 {
            seq![acc]
        } else {
            Seq::empty()
        }) + split_ws_rec(s.skip(1), Seq::empty())
    } else {
        split_ws_rec(s.skip(1), acc.push(s[0]))
    }
}

/// The whitespace-separated words of a line.
pub open spec fn ws_words(s: Seq<char>) -> Seq<Seq<char>> {
    split_ws_rec(s, Seq::empty())
}

pub fn split_whitespace(v: &Vec<char>) -> (r: Vec<Vec<char>>)
    ensures
        r.deep_view() == ws_words(v@),
{
    let n = v.len();
    let mut r: Vec<Vec<char>> = Vec::new();
    let mut cur: Vec<char> = Vec::new();
    let mut i: usize = 0;
    proof {
        assert(v@.skip(0) =~= v@);
        assert(r.deep_view() + split_ws_rec(v@, Seq::empty()) =~~= ws_words(v@));
    }
    while i < n
        invariant
            i <= n,
            n == v@.len(),
            r.deep_view() + split_ws_rec(v@.skip(i as int), cur@) == ws_words(v@),
        decreases n - i,
    {
        let ghost prev = r.deep_view();
        let ghost cur_view = cur@;
        let ghost rest = v@.skip(i as int);
        proof {
            assert(rest.len() > 0);
            assert(rest[0] == v@[i as int]);
            assert(rest.skip(1) =~= v@.skip(i as int + 1));
        }
        if char_is_space(v[i]) {
            if cur.len() > 0 {
                r.push(cur);
                cur = Vec::new();
                proof {
                    assert(r.deep_view() =~~= prev.push(cur_view));
                    assert(prev.push(cur_view) + split_ws_rec(
                        v@.skip(i as int + 1),
                        Seq::empty(),
                    ) =~= prev + (seq![cur_view] + split_ws_rec(
                        v@.skip(i as int + 1),
                        Seq::empty(),
                    )));
                }
            } else {
                proof {
                    assert(cur@ =~= Seq::<char>::empty());
                    assert(Seq::<Seq<char>>::empty() + split_ws_rec(
                        v@.skip(i as int + 1),
                        Seq::empty(),
                    ) =~= split_ws_rec(v@.skip(i as int + 1), Seq::empty()));
                }
            }
            i += 1;
        } else {
            cur.push(v[i]);
            i += 1;
        }
    }
    proof {
        assert(v@.skip(n as int) =~= Seq::<char>::empty());
    }
    if cur.len() > 0 {
        let ghost prev = r.deep_view();
        let ghost cur_view = cur@;
        r.push(cur);
        proof {
            assert(r.deep_view() =~~= prev.push(cur_view));
            assert(prev.push(cur_view) =~= prev + seq![cur_view]);
        }
    } else {
        proof {
            assert(r.deep_view() + Seq::<Seq<char>>::empty() =~= r.deep_view());
        }
    }
    r
}

// ---------------------------------------------------------------------------
// Decimal numbers
// ---------------------------------------------------------------------------

pub open spec fn is_digit(c: char) -> bool {
    '0' <= c && c <= '9'
}

pub open spec fn digit_val(c: char) -> int {
    c as int - '0' as int
}

pub open spec fn all_digits(s: Seq<char>) -> bool {
    forall|i: int| 0 <= i < s.len() ==> is_digit(#[trigger] s[i])
}

/// The value of a sequence of decimal digits, most significant first.
pub open spec fn dec_val(s: Seq<char>) -> int
    decreases s.len(),
{
    if s.len() == 0 {
        0
    } else {
        dec_val(s.drop_last()) * 10 + digit_val(s.last())
    }
}

/// What parsing a chunk as a non-negative machine integer yields: an optional
/// leading `'+'`, then at least one digit, and a value that fits in `usize`.
pub open spec fn parse_count_spec(s: Seq<char>) -> Option<int> {
    let t = if s.len() > 0 && s[0] == '+' {
        s.skip(1)
    } else {
        s
    };
    if t.len() > 0 && all_digits(t) && dec_val(t) <= usize::MAX as int {
        Some(dec_val(t))
    } else {
        None
    }
}

pub proof fn lemma_dec_val_nonneg(s: Seq<char>)
    requires
        all_digits(s),
    ensures
        dec_val(s) >= 0,
    decreases s.len(),
{
    if s.len() > 0 {
        assert(all_digits(s.drop_last())) by {
            assert(forall|i: int|
                0 <= i < s.len() - 1 ==> s.drop_last()[i] == #[trigger] s[i]);
        }
        lemma_dec_val_nonneg(s.drop_last());
    }
}

/// A digit sequence's value only grows as more digits follow.
pub proof fn lemma_dec_val_prefix_le(s: Seq<char>, i: int)
    requires
        all_digits(s),
        0 <= i <= s.len(),
    ensures
        dec_val(s.take(i)) <= dec_val(s),
    decreases s.len() - i,
{
    if i == s.len() {
        assert(s.take(i) =~= s);
    } else {
        lemma_dec_val_prefix_le(s, i + 1);
        assert(s.take(i + 1).drop_last() =~= s.take(i));
        assert(s.take(i + 1).last() == s[i]);
        assert(all_digits(s.take(i))) by {
            assert(forall|j: int| 0 <= j < i ==> s.take(i)[j] == #[trigger] s[j]);
        }
        lemma_dec_val_nonneg(s.take(i));
        assert(dec_val(s.take(i)) <= dec_val(s.take(i)) * 10 + digit_val(s[i]));
    }
}

pub fn parse_count(v: &Vec<char>) -> (r: Option<usize>)
    ensures
        match r {
            Some(n) => parse_count_spec(v@) == Some(n as int),
            None => parse_count_spec(v@) is None,
        },
{
    let n = v.len();
    let start: usize = if n > 0 && v[0] == '+' {
        1
    } else {
        0
    };
    let ghost t = if v@.len() > 0 && v@[0] == '+' {
        v@.skip(1)
    } else {
        v@
    };
    proof {
        assert(t =~= v@.subrange(start as int, n as int));
    }
    if start == n {
        return None;
    }
    let mut val: usize = 0;
    let mut i: usize = start;
    proof {
        assert(t.take(0) =~= Seq::<char>::empty());
    }
    while i < n
        invariant
            start <= i <= n,
            n == v@.len(),
            t == v@.subrange(start as int, n as int),
            t == (if v@.len() > 0 && v@[0] == '+' {
                v@.skip(1)
            } else {
                v@
            }),
            all_digits(t.take(i - start)),
            val == dec_val(t.take(i - start)),
        decreases n - i,
    {
        let c = v[i];
        proof {
            assert(t[i - start] == c);
        }
        if !(c >= '0' && c <= '9') {
            proof {
                assert(!all_digits(t));
            }
            return None;
        }
        let d = (c as u32 - '0' as u32) as usize;
        proof {
            assert(t.take(i - start + 1).drop_last() =~= t.take(i - start));
            assert(t.take(i - start + 1).last() == c);
            assert(all_digits(t.take(i - start + 1)));
        }
        if val > (usize::MAX - d) / 10 {
            proof {
                assert(dec_val(t.take(i - start + 1)) == val * 10 + d);
                assert(val * 10 + d > usize::MAX as int) by {
                    vstd::arithmetic::div_mod::lemma_fundamental_div_mod(
                        (usize::MAX - d) as int,
                        10,
                    );
                };
                if all_digits(t) {
                    lemma_dec_val_prefix_le(t, i - start + 1);
                }
            }
            return None;
        }
        val = val * 10 + d;
        i += 1;
    }
    proof {
        assert(t.take(n - start) =~= t);
    }
    Some(val)
}

/// The decimal digits of a non-negative number, most significant first.
pub open spec fn dec_str(n: nat) -> Seq<char>
    decreases n,
{
    if n < 10 {
        seq![((n + '0' as int) as char)]
    } else {
        dec_str(n / 10).push(((n % 10 + '0' as int) as char))
    }
}

pub fn dec_chars(n: usize) -> (r: Vec<char>)
    ensures
        r@ == dec_str(n as nat),
    decreases n,
{
    let d = (n % 10) as u8;
    let zero: u8 = '0' as u8;
    let c = (zero + d) as char;
    proof {
        assert(c == ((n % 10 + '0' as int) as char));
    }
    if n < 10 {
        let mut r: Vec<char> = Vec::new();
        r.push(c);
        proof {
            assert(r@ =~= dec_str(n as nat));
        }
        r
    } else {
        let mut r = dec_chars(n / 10);
        r.push(c);
        proof {
            assert(r@ =~= dec_str(n as nat));
        }
        r
    }
}

// ---------------------------------------------------------------------------
// Lexicographic order on character sequences
// ---------------------------------------------------------------------------

/// Strict lexicographic order by code point, the order `str` comparison uses.
pub open spec fn str_lt(a: Seq<char>, b: Seq<char>) -> bool
    decreases a.len() + b.len(),
{
    if b.len() == 0 {
        false
    } else if a.len() == 0 {
        true
    } else if a[0] != b[0] {
        a[0] < b[0]
    } else {
        str_lt(a.skip(1), b.skip(1))
    }
}

pub open spec fn str_le(a: Seq<char>, b: Seq<char>) -> bool {
    !str_lt(b, a)
}

pub fn lt_chars(a: &Vec<char>, b: &Vec<char>) -> (r: bool)
    ensures
        r == str_lt(a@, b@),
{
    let mut i: usize = 0;
    proof {
        assert(a@.skip(0) =~= a@);
        assert(b@.skip(0) =~= b@);
    }
    while i < a.len() && i < b.len()
        invariant
            i <= a@.len(),
            i <= b@.len(),
            str_lt(a@, b@) == str_lt(a@.skip(i as int), b@.skip(i as int)),
        decreases a@.len() - i,
    {
        let ca = a[i];
        let cb = b[i];
        let ghost sa = a@.skip(i as int);
        let ghost sb = b@.skip(i as int);
        proof {
            assert(sa.len() > 0 && sb.len() > 0);
            assert(sa[0] == ca && sb[0] == cb);
        }
        if ca != cb {
            return ca < cb;
        }
        proof {
            assert(sa.skip(1) =~= a@.skip(i as int + 1));
            assert(sb.skip(1) =~= b@.skip(i as int + 1));
        }
        i += 1;
    }
    proof {
        assert(a@.skip(i as int).len() == 0 || b@.skip(i as int).len() == 0);
    }
    i < b.len()
}


// ---------------------------------------------------------------------------
// Joining
// ---------------------------------------------------------------------------

/// The pieces concatenated with `sep` between consecutive ones.
pub open spec fn join_with(parts: Seq<Seq<char>>, sep: Seq<char>) -> Seq<char>
    decreases parts.len(),
{
    if parts.len() == 0 {
        Seq::empty()
    } else if parts.len() == 1 {
        parts[0]
    } else {
        join_with(parts.drop_last(), sep) + sep + parts.last()
    }
}

pub fn join_strings(parts: &Vec<String>, sep: &str) -> (r: String)
    ensures
        r@ == join_with(parts.deep_view(), sep@),
{
    let mut r = String::new();
    let mut i: usize = 0;
    proof {
        assert(r@ =~= join_with(parts.deep_view().take(0), sep@));
    }
    while i < parts.len()
        invariant
            i <= parts@.len(),
            r@ == join_with(parts.deep_view().take(i as int), sep@),
        decreases parts@.len() - i,
    {
        let ghost dv = parts.deep_view();
        if i > 0 {
            r.append(sep);
        }
        r.append(parts[i].as_str());
        i += 1;
        proof {
            assert(dv.take(i as int).drop_last() =~= dv.take(i as int - 1));
            assert(dv.take(i as int).last() == dv[i as int - 1]);
            assert(dv[i as int - 1] == parts@[i as int - 1]@);
            if i == 1 {
                assert(r@ =~= join_with(dv.take(1), sep@));
            } else {
                assert(r@ =~= join_with(dv.take(i as int - 1), sep@) + sep@ + dv[i as int - 1]);
            }
        }
    }
    proof {
        assert(parts.deep_view().take(parts@.len() as int) =~= parts.deep_view());
    }
    r
}

/// The two-character separator that clue lines use.
pub open spec fn comma_sep() -> Seq<char> {
    seq![',', ' ']
}

/// Unfolding a join from the left.
pub proof fn lemma_join_left(parts: Seq<Seq<char>>, sep: Seq<char>)
    requires
        parts.len() >= 2,
    ensures
        join_with(parts, sep) == parts[0] + sep + join_with(parts.skip(1), sep),
    decreases parts.len(),
{
    if parts.len() == 2 {
        assert(parts.drop_last() =~= seq![parts[0]]);
        assert(parts.skip(1) =~= seq![parts[1]]);
        assert(join_with(parts, sep) == join_with(parts.drop_last(), sep) + sep + parts.last());
    } else {
        lemma_join_left(parts.drop_last(), sep);
        assert(parts.drop_last()[0] == parts[0]);
        assert(parts.drop_last().skip(1) =~= parts.skip(1).drop_last());
        assert(parts.skip(1).len() >= 2);
        assert(join_with(parts.skip(1), sep) == join_with(parts.skip(1).drop_last(), sep) + sep
            + parts.skip(1).last());
        assert(parts.skip(1).last() == parts.last());
        assert(parts[0] + sep + (join_with(parts.skip(1).drop_last(), sep) + sep + parts.last())
            =~= (parts[0] + sep + join_with(parts.drop_last().skip(1), sep)) + sep + parts.last());
    }
}

/// Splitting walks over a comma-free prefix, moving it into the accumulator.
pub proof fn lemma_split_no_comma(a: Seq<char>, rest: Seq<char>, acc: Seq<char>)
    requires
        forall|i: int| 0 <= i < a.len() ==> a[i] != ',',
    ensures
        split_sep_rec(a + rest, acc) == split_sep_rec(rest, acc + a),
    decreases a.len(),
{
    if a.len() == 0 {
        assert(a + rest =~= rest);
        assert(acc + a =~= acc);
    } else {
        let s = a + rest;
        assert(s[0] == a[0]);
        assert(s.skip(1) =~= a.skip(1) + rest);
        assert(forall|i: int| 0 <= i < a.skip(1).len() ==> a.skip(1)[i] != ',');
        lemma_split_no_comma(a.skip(1), rest, acc.push(a[0]));
        assert(acc.push(a[0]) + a.skip(1) =~= acc + a);
    }
}

/// Splitting at a leading separator closes the accumulated chunk.
pub proof fn lemma_split_at_sep(rest: Seq<char>, acc: Seq<char>)
    ensures
        split_sep_rec(comma_sep() + rest, acc) == seq![acc] + split_sep_rec(rest, Seq::empty()),
{
    let s = comma_sep() + rest;
    assert(s.len() >= 2 && s[0] == ',' && s[1] == ' ');
    assert(s.skip(2) =~= rest);
}

/// Splitting a joined sequence of comma-free pieces recovers the pieces.
pub proof fn lemma_chunks_of_joined(parts: Seq<Seq<char>>)
    requires
        parts.len() >= 1,
        forall|k: int, i: int|
            0 <= k < parts.len() && 0 <= i < parts[k].len() ==> #[trigger] parts[k][i] != ',',
    ensures
        comma_chunks(join_with(parts, comma_sep())) == parts,
    decreases parts.len(),
{
    if parts.len() == 1 {
        let w = parts[0];
        assert(w + Seq::<char>::empty() =~= w);
        lemma_split_no_comma(w, Seq::empty(), Seq::empty());
        assert(Seq::<char>::empty() + w =~= w);
        assert(split_sep_rec(Seq::<char>::empty(), w) == seq![w]);
        assert(comma_chunks(join_with(parts, comma_sep())) =~= parts);
    } else {
        lemma_join_left(parts, comma_sep());
        let w = parts[0];
        let rest = join_with(parts.skip(1), comma_sep());
        assert(w + comma_sep() + rest =~= w + (comma_sep() + rest));
        lemma_split_no_comma(w, comma_sep() + rest, Seq::empty());
        assert(Seq::<char>::empty() + w =~= w);
        lemma_split_at_sep(rest, w);
        lemma_chunks_of_joined(parts.skip(1));
        assert(seq![w] + parts.skip(1) =~= parts);
    }
}

/// Trimming leaves a sequence without whitespace at either end unchanged.
pub proof fn lemma_trim_fixed(s: Seq<char>)
    requires
        s.len() == 0 || (!is_space(s[0]) && !is_space(s.last())),
    ensures
        trim_spec(s) == s,
{
    assert(trim_start_spec(s) == s);
    assert(trim_end_spec(s) == s);
}

/// The decimal digits of a number are digits, have its value, and parse back.
pub proof fn lemma_dec_str_val(n: nat)
    ensures
        dec_str(n).len() >= 1,
        all_digits(dec_str(n)),
        dec_val(dec_str(n)) == n,
    decreases n,
{
    if n < 10 {
        let s = dec_str(n);
        assert(s == seq![((n + '0' as int) as char)]);
        assert(is_digit(s[0]));
        assert(s.drop_last() =~= Seq::<char>::empty());
        assert(dec_val(Seq::<char>::empty()) == 0);
        assert(s.last() == s[0]);
        assert(dec_val(s) == dec_val(s.drop_last()) * 10 + digit_val(s.last()));
    } else {
        lemma_dec_str_val(n / 10);
        let s = dec_str(n);
        let c = ((n % 10 + '0' as int) as char);
        assert(s == dec_str(n / 10).push(c));
        assert(is_digit(c));
        assert(forall|i: int|
            0 <= i < s.len() ==> #[trigger] s[i] == if i < s.len() - 1 {
                dec_str(n / 10)[i]
            } else {
                c
            });
        assert(s.drop_last() =~= dec_str(n / 10));
        assert(s.last() == c);
        assert(dec_val(s) == dec_val(dec_str(n / 10)) * 10 + digit_val(c));
        assert(n == (n / 10) * 10 + n % 10) by {
            vstd::arithmetic::div_mod::lemma_fundamental_div_mod(n as int, 10);
        };
    }
}

/// A chunk of decimal digits parses back to its value.
pub proof fn lemma_parse_of_dec_str(n: nat)
    requires
        n <= usize::MAX,
    ensures
        parse_count_spec(dec_str(n)) == Some(n as int),
        trim_spec(dec_str(n)) == dec_str(n),
        forall|i: int| 0 <= i < dec_str(n).len() ==> #[trigger] dec_str(n)[i] != ',',
{
    lemma_dec_str_val(n);
    let s = dec_str(n);
    assert(is_digit(s[0]) && is_digit(s.last()));
    assert(!is_space(s[0]) && !is_space(s.last()));
    lemma_trim_fixed(s);
    assert(s[0] != '+');
    assert(forall|i: int| 0 <= i < s.len() ==> #[trigger] s[i] != ',');
}

} // verus!
