//! Character-level helpers: decimal rendering, padding, whitespace and
//! pattern replacement, all over `Seq<char>` models of strings.

use vstd::prelude::*;

verus! {

/// The character of a decimal digit.
pub open spec fn digit_char(d: nat) -> char {
    (d + 48) as char
}

/// Decimal rendering of a natural number, as `{}` prints it.
pub open spec fn decimal(n: nat) -> Seq<char>
    decreases n,
{
    if n < 10 {
        seq![digit_char(n)]
    } else {
        decimal(n / 10).push(digit_char(n % 10))
    }
}

/// `{:02}`: decimal rendering padded with zeros to at least two characters.
pub open spec fn pad2(n: nat) -> Seq<char> {
    if n < 10 {
        seq!['0', digit_char(n)]
    } else {
        decimal(n)
    }
}

/// Turn a character vector into a `String`.
#[verifier::external_body]
pub(crate) fn string_of(chars: &Vec<char>) -> (s: String)
    ensures
        s@ == chars@,
{
    chars.iter().collect()
}

/// The characters of a string slice.
pub fn chars_of(s: &str) -> (v: Vec<char>)
    ensures
        v@ == s@,
{
    let mut v: Vec<char> = Vec::new();
    for c in iter: s.chars()
        invariant
            iter.seq() == s@,
            v@ == iter.seq().take(iter.index() as int),
    {
        v.push(c);
    }
    v
}

/// Append the decimal rendering of `n`.
pub fn push_decimal(out: &mut Vec<char>, n: u64)
    ensures
        final(out)@ == old(out)@ + decimal(n as nat),
    decreases n,
{
    if n < 10 {
        out.push(((n as u8) + 48) as char);
    } else {
        push_decimal(out, n / 10);
        out.push((((n % 10) as u8) + 48) as char);
    }
}

/// Append `{:02}` of `n`.
pub fn push_pad2(out: &mut Vec<char>, n: u64)
    ensures
        final(out)@ == old(out)@ + pad2(n as nat),
{
    if n < 10 {
        out.push('0');
    }
    push_decimal(out, n);
}


/// `char::is_whitespace`: the Unicode `White_Space` property.
pub open spec fn is_space(c: char) -> bool {
    let u = c as u32;
    ||| 9 <= u <= 13
    ||| u == 32
    ||| u == 0x85
    ||| u == 0xA0
    ||| u == 0x1680
    ||| 0x2000 <= u <= 0x200A
    ||| u == 0x2028
    ||| u == 0x2029
    ||| u == 0x202F
    ||| u == 0x205F
    ||| u == 0x3000
}

pub fn space(c: char) -> (b: bool)
    ensures
        b == is_space(c),
{
    let u = c as u32;
    (9 <= u && u <= 13) || u == 32 || u == 0x85 || u == 0xA0 || u == 0x1680 || (0x2000 <= u
        && u <= 0x200A) || u == 0x2028 || u == 0x2029 || u == 0x202F || u == 0x205F || u == 0x3000
}

/// `str::trim_start`.
pub open spec fn trim_start(s: Seq<char>) -> Seq<char>
    decreases s.len(),
{
    if s.len() > 0 && is_space(s[0]) {
        trim_start(s.drop_first())
    } else {
        s
    }
}

/// `str::trim_end`.
pub open spec fn trim_end(s: Seq<char>) -> Seq<char>
    decreases s.len(),
{
    if s.len() > 0 && is_space(s.last()) {
        trim_end(s.drop_last())
    } else {
        s
    }
}

/// `str::trim`.
pub open spec fn trim(s: Seq<char>) -> Seq<char> {
    trim_end(trim_start(s))
}

pub proof fn lemma_trim_start_shorter(s: Seq<char>)
    ensures
        trim_start(s).len() <= s.len(),
        exists|k: int| 0 <= k <= s.len() && trim_start(s) == #[trigger] s.skip(k),
    decreases s.len(),
{
    if s.len() > 0 && is_space(s[0]) {
        lemma_trim_start_shorter(s.drop_first());
        let k = choose|k: int| 0 <= k <= s.drop_first().len() && trim_start(s.drop_first()) == #[trigger] s.drop_first().skip(k);
        assert(s.drop_first().skip(k) =~= s.skip(k + 1));
    } else {
        assert(s.skip(0) =~= s);
    }
}

/// The index where the leading whitespace of `v[lo..hi]` ends.
pub fn skip_space(v: &Vec<char>, lo: usize, hi: usize) -> (r: usize)
    requires
        lo <= hi <= v.len(),
    ensures
        lo <= r <= hi,
        v@.subrange(r as int, hi as int) == trim_start(v@.subrange(lo as int, hi as int)),
{
    let mut i = lo;
    while i < hi && space(v[i])
        invariant
            lo <= i <= hi <= v.len(),
            trim_start(v@.subrange(i as int, hi as int)) == trim_start(v@.subrange(lo as int, hi as int)),
        decreases hi - i,
    {
        assert(v@.subrange(i as int, hi as int).drop_first() =~= v@.subrange(i + 1, hi as int));
        i = i + 1;
    }
    i
}

/// The index where the trailing whitespace of `v[lo..hi]` starts.
pub fn back_space(v: &Vec<char>, lo: usize, hi: usize) -> (r: usize)
    requires
        lo <= hi <= v.len(),
    ensures
        lo <= r <= hi,
        v@.subrange(lo as int, r as int) == trim_end(v@.subrange(lo as int, hi as int)),
{
    let mut j = hi;
    while j > lo && space(v[j - 1])
        invariant
            lo <= j <= hi <= v.len(),
            trim_end(v@.subrange(lo as int, j as int)) == trim_end(v@.subrange(lo as int, hi as int)),
        decreases j - lo,
    {
        assert(v@.subrange(lo as int, j as int).drop_last() =~= v@.subrange(lo as int, j - 1));
        j = j - 1;
    }
    j
}

/// `v[lo..hi].trim()` as index bounds.
pub fn trim_bounds(v: &Vec<char>, lo: usize, hi: usize) -> (r: (usize, usize))
    requires
        lo <= hi <= v.len(),
    ensures
        lo <= r.0 <= r.1 <= hi,
        v@.subrange(r.0 as int, r.1 as int) == trim(v@.subrange(lo as int, hi as int)),
{
    let a = skip_space(v, lo, hi);
    let b = back_space(v, a, hi);
    (a, b)
}

/// A copy of `v[lo..hi]`.
pub fn copy_range(v: &Vec<char>, lo: usize, hi: usize) -> (r: Vec<char>)
    requires
        lo <= hi <= v.len(),
    ensures
        r@ == v@.subrange(lo as int, hi as int),
{
    let mut r: Vec<char> = Vec::new();
    let mut i = lo;
    while i < hi
        invariant
            lo <= i <= hi <= v.len(),
            r@ == v@.subrange(lo as int, i as int),
        decreases hi - i,
    {
        r.push(v[i]);
        i = i + 1;
        assert(r@ =~= v@.subrange(lo as int, i as int));
    }
    r
}

/// Append all of `extra` to `out`.
pub fn push_all(out: &mut Vec<char>, extra: &Vec<char>)
    ensures
        final(out)@ == old(out)@ + extra@,
{
    let mut i: usize = 0;
    while i < extra.len()
        invariant
            i <= extra.len(),
            out@ == old(out)@ + extra@.take(i as int),
        decreases extra.len() - i,
    {
        out.push(extra[i]);
        i = i + 1;
        assert(out@ =~= old(out)@ + extra@.take(i as int));
    }
    assert(extra@.take(extra.len() as int) =~= extra@);
}

/// `str::replace(pattern, replacement)` for a non-empty pattern: every
/// non-overlapping occurrence, scanning left to right, is replaced.
pub open spec fn replace_all(text: Seq<char>, pat: Seq<char>, rep: Seq<char>) -> Seq<char>
    decreases text.len(),
{
    if pat.len() == 0 || text.len() < pat.len() {
        text
    } else if text.take(pat.len() as int) == pat {
        rep + replace_all(text.skip(pat.len() as int), pat, rep)
    } else {
        seq![text[0]] + replace_all(text.skip(1), pat, rep)
    }
}

/// Whether `pat` occurs in `text` at `at`.
pub fn matches_at(text: &Vec<char>, at: usize, pat: &Vec<char>) -> (b: bool)
    requires
        at + pat.len() <= text.len(),
    ensures
        b == (text@.subrange(at as int, at + pat.len()) == pat@),
{
    let mut k: usize = 0;
    while k < pat.len()
        invariant
            k <= pat.len(),
            at + pat.len() <= text.len(),
            forall|j: int| 0 <= j < k ==> text@[at + j] == pat@[j],
        decreases pat.len() - k,
    {
        if text[at + k] != pat[k] {
            assert(text@.subrange(at as int, at + pat.len())[k as int] != pat@[k as int]);
            return false;
        }
        k = k + 1;
    }
    assert(text@.subrange(at as int, at + pat.len()) =~= pat@);
    true
}

/// Replace every occurrence of a non-empty `pat` by `rep`.
pub fn replace(text: &Vec<char>, pat: &Vec<char>, rep: &Vec<char>) -> (r: Vec<char>)
    requires
        pat.len() > 0,
    ensures
        r@ == replace_all(text@, pat@, rep@),
{
    let mut out: Vec<char> = Vec::new();
    let mut i: usize = 0;
    let n = text.len();
    let plen = pat.len();
    assert(text@.skip(0) =~= text@);
    assert(out@ + replace_all(text@, pat@, rep@) =~= replace_all(text@, pat@, rep@));
    while i < n
        invariant
            i <= n == text.len(),
            plen == pat.len() > 0,
            out@ + replace_all(text@.skip(i as int), pat@, rep@) == replace_all(text@, pat@, rep@),
        decreases n - i,
    {
        let ghost rest = text@.skip(i as int);
        if n - i < plen {
            let ghost before = out@;
            while i < n
                invariant
                    i <= n == text.len(),
                    out@ + text@.skip(i as int) == before + rest,
                decreases n - i,
            {
                assert(text@.skip(i as int) =~= seq![text@[i as int]] + text@.skip(i + 1));
                out.push(text[i]);
                i = i + 1;
            }
            assert(text@.skip(n as int) =~= Seq::<char>::empty());
            assert(out@ =~= before + rest);
            return out;
        }
        if matches_at(text, i, pat) {
            assert(rest.take(plen as int) =~= text@.subrange(i as int, i + plen));
            assert(rest.skip(plen as int) =~= text@.skip(i + plen));
            let ghost before = out@;
            push_all(&mut out, rep);
            i = i + plen;
            assert(out@ + replace_all(text@.skip(i as int), pat@, rep@) =~= before + (rep@ + replace_all(rest.skip(plen as int), pat@, rep@)));
        } else {
            assert(rest.take(plen as int) =~= text@.subrange(i as int, i + plen));
            assert(rest.skip(1) =~= text@.skip(i + 1));
            let ghost before = out@;
            out.push(text[i]);
            i = i + 1;
            assert(out@ + replace_all(text@.skip(i as int), pat@, rep@) =~= before + (seq![rest[0]] + replace_all(rest.skip(1), pat@, rep@)));
        }
    }
    assert(text@.skip(n as int) =~= Seq::<char>::empty());
    assert(out@ + Seq::<char>::empty() =~= out@);
    out
}


pub open spec fn is_digit(c: char) -> bool {
    48 <= (c as u32) <= 57
}

pub open spec fn digit_value(c: char) -> nat {
    ((c as u32) - 48) as nat
}

pub open spec fn is_alpha(c: char) -> bool {
    let u = c as u32;
    (65 <= u <= 90) || (97 <= u <= 122)
}

/// `char::to_ascii_lowercase`.
pub open spec fn to_lower(c: char) -> char {
    let u = c as u32;
    if 65 <= u <= 90 {
        (u + 32) as char
    } else {
        c
    }
}

pub fn lower(c: char) -> (r: char)
    ensures
        r == to_lower(c),
{
    let u = c as u32;
    if 65 <= u && u <= 90 {
        ((u + 32) as u8) as char
    } else {
        c
    }
}

/// Character classes whose leading runs the parsers measure.
#[derive(Clone, Copy, PartialEq, Eq)]
pub enum Class {
    /// ASCII digits and `.`
    Number,
    /// ASCII letters
    Letter,
    /// anything but `.`
    NotDot,
    /// anything but `:`
    NotColon,
    /// ASCII digits
    Digit,
    /// anything but `T`, `t` and a space
    NotDateSep,
}

pub open spec fn in_class(c: char, k: Class) -> bool {
    match k {
        Class::Number => is_digit(c) || c == '.',
        Class::Letter => is_alpha(c),
        Class::NotDot => c != '.',
        Class::NotColon => c != ':',
        Class::Digit => is_digit(c),
        Class::NotDateSep => c != 'T' && c != 't' && c != ' ',
    }
}

pub fn member(c: char, k: Class) -> (b: bool)
    ensures
        b == in_class(c, k),
{
    let u = c as u32;
    match k {
        Class::Number => (48 <= u && u <= 57) || c == '.',
        Class::Letter => (65 <= u && u <= 90) || (97 <= u && u <= 122),
        Class::NotDot => c != '.',
        Class::NotColon => c != ':',
        Class::Digit => 48 <= u && u <= 57,
        Class::NotDateSep => c != 'T' && c != 't' && c != ' ',
    }
}

/// Length of the longest prefix of `s` inside class `k`.
pub open spec fn prefix_len(s: Seq<char>, k: Class) -> nat
    decreases s.len(),
{
    if s.len() > 0 && in_class(s[0], k) {
        1 + prefix_len(s.drop_first(), k)
    } else {
        0
    }
}

pub proof fn lemma_prefix_len(s: Seq<char>, k: Class)
    ensures
        prefix_len(s, k) <= s.len(),
        forall|i: int| 0 <= i < prefix_len(s, k) ==> in_class(#[trigger] s[i], k),
        prefix_len(s, k) < s.len() ==> !in_class(s[prefix_len(s, k) as int], k),
    decreases s.len(),
{
    if s.len() > 0 && in_class(s[0], k) {
        lemma_prefix_len(s.drop_first(), k);
        assert forall|i: int| 0 <= i < prefix_len(s, k) implies in_class(#[trigger] s[i], k) by {
            if i > 0 {
                assert(s[i] == s.drop_first()[i - 1]);
            }
        }
    }
}

/// The end of the run of class `k` that starts at `lo`.
pub fn run_end(v: &Vec<char>, lo: usize, hi: usize, k: Class) -> (r: usize)
    requires
        lo <= hi <= v.len(),
    ensures
        lo <= r <= hi,
        r - lo == prefix_len(v@.subrange(lo as int, hi as int), k),
{
    let mut i = lo;
    while i < hi && member(v[i], k)
        invariant
            lo <= i <= hi <= v.len(),
            prefix_len(v@.subrange(lo as int, hi as int), k) == (i - lo) + prefix_len(
                v@.subrange(i as int, hi as int),
                k,
            ),
        decreases hi - i,
    {
        assert(v@.subrange(i as int, hi as int).drop_first() =~= v@.subrange(i + 1, hi as int));
        i = i + 1;
    }
    i
}

pub open spec fn all_digits(s: Seq<char>) -> bool {
    forall|i: int| 0 <= i < s.len() ==> is_digit(#[trigger] s[i])
}

/// The value of a string of decimal digits.
pub open spec fn digits_value(s: Seq<char>) -> nat
    decreases s.len(),
{
    if s.len() == 0 {
        0
    } else {
        digits_value(s.drop_last()) * 10 + digit_value(s.last())
    }
}

pub open spec fn pow10(n: nat) -> nat
    decreases n,
{
    if n == 0 {
        1
    } else {
        10 * pow10((n - 1) as nat)
    }
}

pub proof fn lemma_digits_value_bound(s: Seq<char>)
    requires
        all_digits(s),
    ensures
        digits_value(s) < pow10(s.len()),
    decreases s.len(),
{
    if s.len() > 0 {
        lemma_digits_value_bound(s.drop_last());
        assert(digit_value(s.last()) <= 9) by {
            assert(is_digit(s[s.len() - 1]));
        }
    }
}

/// Parsing a run of digits with a ceiling: the result is the exact value
/// when that is at most `cap`, and `cap + 1` otherwise.
pub fn digits_capped(v: &Vec<char>, lo: usize, hi: usize, cap: u128) -> (r: u128)
    requires
        lo <= hi <= v.len(),
        all_digits(v@.subrange(lo as int, hi as int)),
        cap < 0x1_0000_0000_0000_0000_0000_0000_0000,
    ensures
        digits_value(v@.subrange(lo as int, hi as int)) <= cap ==> r == digits_value(
            v@.subrange(lo as int, hi as int),
        ),
        digits_value(v@.subrange(lo as int, hi as int)) > cap ==> r == cap + 1,
{
    let mut acc: u128 = 0;
    let mut i = lo;
    while i < hi
        invariant
            lo <= i <= hi <= v.len(),
            all_digits(v@.subrange(lo as int, hi as int)),
            cap < 0x1_0000_0000_0000_0000_0000_0000_0000,
            digits_value(v@.subrange(lo as int, i as int)) <= cap ==> acc == digits_value(
                v@.subrange(lo as int, i as int),
            ),
            digits_value(v@.subrange(lo as int, i as int)) > cap ==> acc == cap + 1,
        decreases hi - i,
    {
        assert(is_digit(v@.subrange(lo as int, hi as int)[i - lo]));
        let d = (v[i] as u32 - 48) as u128;
        let ghost before = digits_value(v@.subrange(lo as int, i as int));
        assert(v@.subrange(lo as int, i + 1).drop_last() =~= v@.subrange(lo as int, i as int));
        assert(digits_value(v@.subrange(lo as int, i + 1)) == before * 10 + d);
        if acc <= cap {
            acc = acc * 10 + d;
            if acc > cap {
                acc = cap + 1;
            }
        } else {
            assert(before * 10 + d > cap) by (nonlinear_arith)
                requires
                    before > cap,
            ;
        }
        i = i + 1;
    }
    acc
}


/// Element-wise equality of two character vectors.
pub fn same(a: &Vec<char>, b: &Vec<char>) -> (r: bool)
    ensures
        r == (a@ == b@),
{
    if a.len() != b.len() {
        return false;
    }
    let mut i: usize = 0;
    while i < a.len()
        invariant
            i <= a.len() == b.len(),
            forall|j: int| 0 <= j < i ==> a@[j] == b@[j],
        decreases a.len() - i,
    {
        if a[i] != b[i] {
            return false;
        }
        i = i + 1;
    }
    assert(a@ =~= b@);
    true
}

/// `str::to_ascii_lowercase` over a character sequence.
pub open spec fn lower_seq(s: Seq<char>) -> Seq<char> {
    s.map_values(|c: char| to_lower(c))
}

/// A lower-cased copy of `v[lo..hi]`.
pub fn lower_range(v: &Vec<char>, lo: usize, hi: usize) -> (r: Vec<char>)
    requires
        lo <= hi <= v.len(),
    ensures
        r@ == lower_seq(v@.subrange(lo as int, hi as int)),
{
    let mut r: Vec<char> = Vec::new();
    let mut i = lo;
    while i < hi
        invariant
            lo <= i <= hi <= v.len(),
            r@ == lower_seq(v@.subrange(lo as int, i as int)),
        decreases hi - i,
    {
        r.push(lower(v[i]));
        i = i + 1;
        assert(r@ =~= lower_seq(v@.subrange(lo as int, i as int)));
    }
    r
}

/// Name for the `Debug` rendering of a string, as `format!("{:?}")` writes it:
/// quoted, with escapes.
pub uninterp spec fn debug_quoted(s: Seq<char>) -> Seq<char>;

/// `format!("{:?}", text)` for the text held in `chars`.
#[verifier::external_body]
pub(crate) fn quote_debug(chars: &Vec<char>) -> (r: Vec<char>)
    ensures
        r@ == debug_quoted(chars@),
{
    let text: String = chars.iter().collect();
    format!("{text:?}").chars().collect()
}


/// `{}` of a signed integer.
pub open spec fn decimal_int(n: int) -> Seq<char> {
    if n < 0 {
        seq!['-'] + decimal((-n) as nat)
    } else {
        decimal(n as nat)
    }
}

/// Append `{}` of a signed integer.
pub fn push_int(out: &mut Vec<char>, n: i64)
    ensures
        final(out)@ == old(out)@ + decimal_int(n as int),
{
    if n < 0 {
        out.push('-');
        let magnitude: u64 = (-(n as i128)) as u64;
        push_decimal(out, magnitude);
    } else {
        push_decimal(out, n as u64);
    }
}

/// Date separators `/` and `.` become `-`.
pub open spec fn dashes(s: Seq<char>) -> Seq<char> {
    s.map_values(|c: char| if c == '/' || c == '.' { '-' } else { c })
}

/// `v[lo..hi]` with `/` and `.` turned into `-`.
pub fn dashes_range(v: &Vec<char>, lo: usize, hi: usize) -> (r: Vec<char>)
    requires
        lo <= hi <= v.len(),
    ensures
        r@ == dashes(v@.subrange(lo as int, hi as int)),
{
    let mut r: Vec<char> = Vec::new();
    let mut i = lo;
    while i < hi
        invariant
            lo <= i <= hi <= v.len(),
            r@ == dashes(v@.subrange(lo as int, i as int)),
        decreases hi - i,
    {
        let c = v[i];
        r.push(if c == '/' || c == '.' { '-' } else { c });
        i = i + 1;
        assert(r@ =~= dashes(v@.subrange(lo as int, i as int)));
    }
    r
}

} // verus!
