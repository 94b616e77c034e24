//! The text side of the configuration file: values rendered as TOML, and
//! `section.key = value` settings written back into the file in place,
//! keeping its comments and its order.
//!
//! A setting whose key is already in its section replaces that line, with
//! the line's indentation kept. A missing key is added at the end of its
//! section; a missing section is created at the end of the file.

use vstd::prelude::*;
use crate::chars::{
    chars_of, copy_range, decimal_int, push_all, push_int, same, skip_space, string_of, trim,
    trim_bounds, trim_start, trim_end, is_space,
};

verus! {

/// A value that can be written back into the TOML file.
#[derive(Debug, Clone)]
pub enum Value {
    Bool(bool),
    Int(i64),
    /// A number already written as TOML text; floating-point settings are
    /// rendered by the caller.
    Raw(String),
    Str(String),
    IntList(Vec<i64>),
}

/// How one character is written inside a TOML basic string.
pub open spec fn escape_char(c: char) -> Seq<char> {
    if c == '"' {
        seq!['\\', '"']
    } else if c == '\\' {
        seq!['\\', '\\']
    } else if c == '\n' {
        seq!['\\', 'n']
    } else if c == '\r' {
        seq!['\\', 'r']
    } else if c == '\t' {
        seq!['\\', 't']
    } else {
        seq![c]
    }
}

/// The escaped characters of a TOML basic string.
pub open spec fn toml_escaped(s: Seq<char>) -> Seq<char>
    decreases s.len(),
{
    if s.len() == 0 {
        Seq::empty()
    } else {
        toml_escaped(s.drop_last()) + escape_char(s.last())
    }
}

/// A TOML basic string: quoted, with `"`, `\`, newline, carriage return
/// and tab escaped.
pub open spec fn toml_string(s: Seq<char>) -> Seq<char> {
    seq!['"'] + toml_escaped(s) + seq!['"']
}


/// A character TOML does not allow raw inside a basic string.
pub open spec fn toml_control(c: char) -> bool {
    (c as int) < 0x20 && c != '\t' || c as int == 0x7f
}

/// The character a TOML escape `\e` stands for, when `e` is one of the
/// simple escapes.
pub open spec fn toml_unescape(e: char) -> Option<char> {
    if e == '"' {
        Some('"')
    } else if e == '\\' {
        Some('\\')
    } else if e == 'n' {
        Some('\n')
    } else if e == 'r' {
        Some('\r')
    } else if e == 't' {
        Some('\t')
    } else if e == 'b' {
        Some('\u{8}')
    } else if e == 'f' {
        Some('\u{c}')
    } else {
        None
    }
}

/// How a TOML reader takes the body of a basic string, after the opening
/// quote: the characters it stands for, and what follows the closing quote;
/// `None` when the string is unterminated, holds a raw control character or
/// an unknown escape.
pub open spec fn read_basic_body(s: Seq<char>) -> Option<(Seq<char>, Seq<char>)>
    decreases s.len(),
{
    if s.len() == 0 {
        None
    } else if s[0] == '"' {
        Some((Seq::empty(), s.drop_first()))
    } else if s[0] == '\\' {
        if s.len() < 2 {
            None
        } else {
            match toml_unescape(s[1]) {
                Some(c) => match read_basic_body(s.skip(2)) {
                    Some((d, rest)) => Some((seq![c] + d, rest)),
                    None => None,
                },
                None => None,
            }
        }
    } else if toml_control(s[0]) {
        None
    } else {
        match read_basic_body(s.drop_first()) {
            Some((d, rest)) => Some((seq![s[0]] + d, rest)),
            None => None,
        }
    }
}

/// A whole basic string `"..."` as a TOML reader reads it.
pub open spec fn read_basic_string(s: Seq<char>) -> Option<Seq<char>> {
    if s.len() > 0 && s[0] == '"' {
        match read_basic_body(s.drop_first()) {
            Some((d, rest)) => if rest.len() == 0 { Some(d) } else { None },
            None => None,
        }
    } else {
        None
    }
}

proof fn lemma_toml_escaped_concat(a: Seq<char>, b: Seq<char>)
    ensures
        toml_escaped(a + b) == toml_escaped(a) + toml_escaped(b),
    decreases b.len(),
{
    if b.len() == 0 {
        assert(a + b =~= a);
        assert(toml_escaped(a) + toml_escaped(b) =~= toml_escaped(a));
    } else {
        lemma_toml_escaped_concat(a, b.drop_last());
        assert((a + b).drop_last() =~= a + b.drop_last());
        assert((a + b).last() == b.last());
        assert(toml_escaped(a) + toml_escaped(b) =~= toml_escaped(a) + toml_escaped(b.drop_last()) + escape_char(b.last()));
    }
}

proof fn lemma_read_escaped(t: Seq<char>, rest: Seq<char>)
    requires
        forall|i: int| 0 <= i < t.len() ==> !toml_control(#[trigger] t[i]) || t[i] == '\n' || t[i] == '\r',
    ensures
        read_basic_body(toml_escaped(t) + seq!['"'] + rest) == Some((t, rest)),
    decreases t.len(),
{
    if t.len() == 0 {
        assert(toml_escaped(t) + seq!['"'] + rest =~= seq!['"'] + rest);
        assert((seq!['"'] + rest).drop_first() =~= rest);
    } else {
        let c = t[0];
        let tail = t.drop_first();
        assert(t =~= seq![c] + tail);
        lemma_toml_escaped_concat(seq![c], tail);
        assert(toml_escaped(seq![c]) =~= escape_char(c)) by {
            assert(seq![c].drop_last() =~= Seq::<char>::empty());
            assert(toml_escaped(seq![c].drop_last()) == Seq::<char>::empty());
            assert(seq![c].last() == c);
            assert(toml_escaped(seq![c]) == toml_escaped(seq![c].drop_last()) + escape_char(c));
        }
        lemma_read_escaped(tail, rest);
        let x = toml_escaped(tail) + seq!['"'] + rest;
        let s = toml_escaped(t) + seq!['"'] + rest;
        assert(s =~= escape_char(c) + x);
        if escape_char(c).len() == 2 {
            assert(s.skip(2) =~= x);
        } else {
            assert(s.drop_first() =~= x);
        }
        assert(seq![c] + tail =~= t);
    }
}

/// A quoted value reads back as the text it quotes: a TOML reader takes
/// [`toml_string`] of any text without raw control characters (newline,
/// carriage return and tab allowed) as exactly that text, and the quoted
/// form is a single line.
pub proof fn lemma_toml_string_reads_back(text: Seq<char>)
    requires
        forall|i: int| 0 <= i < text.len() ==> !toml_control(#[trigger] text[i]) || text[i] == '\n' || text[i] == '\r',
    ensures
        read_basic_string(toml_string(text)) == Some(text),
        !toml_string(text).contains('\n'),
        !toml_string(text).contains('\r'),
{
    lemma_read_escaped(text, Seq::empty());
    let s = toml_string(text);
    assert(s.drop_first() =~= toml_escaped(text) + seq!['"'] + Seq::<char>::empty());
    lemma_escaped_single_line(text);
    assert forall|i: int| 0 <= i < s.len() implies s[i] != '\n' && s[i] != '\r' by {
        if 0 < i < s.len() - 1 {
            assert(s[i] == toml_escaped(text)[i - 1]);
        }
    }
}

proof fn lemma_escaped_single_line(t: Seq<char>)
    ensures
        forall|i: int| 0 <= i < toml_escaped(t).len() ==> #[trigger] toml_escaped(t)[i] != '\n' && toml_escaped(t)[i] != '\r',
    decreases t.len(),
{
    if t.len() > 0 {
        lemma_escaped_single_line(t.drop_last());
        let p = toml_escaped(t.drop_last());
        let e = escape_char(t.last());
        assert forall|i: int| 0 <= i < toml_escaped(t).len() implies #[trigger] toml_escaped(t)[i] != '\n' && toml_escaped(t)[i] != '\r' by {
            if i < p.len() {
                assert(toml_escaped(t)[i] == p[i]);
            } else {
                assert(toml_escaped(t)[i] == e[i - p.len()]);
            }
        }
    }
}

/// The integers separated by `, `.
pub open spec fn int_list_text(v: Seq<i64>) -> Seq<char>
    decreases v.len(),
{
    if v.len() == 0 {
        Seq::empty()
    } else if v.len() == 1 {
        decimal_int(v[0] as int)
    } else {
        int_list_text(v.drop_last()) + ", "@ + decimal_int(v.last() as int)
    }
}

/// The TOML text of a value.
pub open spec fn value_text(v: Value) -> Seq<char> {
    match v {
        Value::Bool(b) => if b {
            "true"@
        } else {
            "false"@
        },
        Value::Int(n) => decimal_int(n as int),
        Value::Raw(t) => t@,
        Value::Str(t) => toml_string(t@),
        Value::IntList(xs) => "["@ + int_list_text(xs@) + "]"@,
    }
}

/// Append `text` as a TOML basic string.
fn push_toml_string(out: &mut Vec<char>, text: &str)
    ensures
        final(out)@ == old(out)@ + toml_string(text@),
{
    let v = chars_of(text);
    out.push('"');
    let ghost start = out@;
    let mut i: usize = 0;
    while i < v.len()
        invariant
            i <= v.len(),
            v@ == text@,
            out@ == start + toml_escaped(v@.take(i as int)),
        decreases v.len() - i,
    {
        let c = v[i];
        if c == '"' {
            out.push('\\');
            out.push('"');
        } else if c == '\\' {
            out.push('\\');
            out.push('\\');
        } else if c == '\n' {
            out.push('\\');
            out.push('n');
        } else if c == '\r' {
            out.push('\\');
            out.push('r');
        } else if c == '\t' {
            out.push('\\');
            out.push('t');
        } else {
            out.push(c);
        }
        assert(v@.take(i + 1).drop_last() =~= v@.take(i as int));
        assert(out@ =~= start + toml_escaped(v@.take(i + 1)));
        i = i + 1;
    }
    assert(v@.take(v.len() as int) =~= v@);
    out.push('"');
    assert(out@ =~= old(out)@ + toml_string(text@));
}

/// Quote `text` as a TOML basic string.
pub fn quote(text: &str) -> (r: String)
    ensures
        r@ == toml_string(text@),
{
    let mut out: Vec<char> = Vec::new();
    push_toml_string(&mut out, text);
    assert(out@ =~= toml_string(text@));
    string_of(&out)
}

impl Value {
    /// The value as TOML text.
    pub fn to_toml(&self) -> (r: String)
        ensures
            r@ == value_text(*self),
    {
        let mut out: Vec<char> = Vec::new();
        match self {
            Value::Bool(b) => {
                if *b {
                    out = chars_of("true");
                } else {
                    out = chars_of("false");
                }
            },
            Value::Int(n) => {
                push_int(&mut out, *n);
                assert(out@ =~= decimal_int(*n as int));
            },
            Value::Raw(t) => {
                out = chars_of(t.as_str());
            },
            Value::Str(t) => {
                push_toml_string(&mut out, t.as_str());
                assert(out@ =~= toml_string(t@));
            },
            Value::IntList(xs) => {
                proof {
                    reveal_strlit(", ");
                    reveal_strlit("[");
                    reveal_strlit("]");
                }
                out.push('[');
                let mut i: usize = 0;
                while i < xs.len()
                    invariant
                        i <= xs.len(),
                        out@ == seq!['['] + int_list_text(xs@.take(i as int)),
                    decreases xs.len() - i,
                {
                    assert(xs@.take(i + 1).drop_last() =~= xs@.take(i as int));
                    if i > 0 {
                        out.push(',');
                        out.push(' ');
                    } else {
                        assert(int_list_text(xs@.take(0)) =~= Seq::<char>::empty());
                        assert(xs@.take(1)[0] == xs[0]);
                    }
                    assert(xs@.take(i + 1).last() == xs[i as int]);
                    proof {
                        reveal_strlit(", ");
                    }
                    push_int(&mut out, xs[i]);
                    assert(out@ =~= seq!['['] + int_list_text(xs@.take(i + 1)));
                    i = i + 1;
                }
                assert(xs@.take(xs.len() as int) =~= xs@);
                out.push(']');
                assert(out@ =~= "["@ + int_list_text(xs@) + "]"@);
            },
        }
        string_of(&out)
    }
}

/// The index of the first `c` in `s`, or `s.len()` when there is none.
pub open spec fn index_of(s: Seq<char>, c: char) -> int
    decreases s.len(),
{
    if s.len() == 0 {
        0
    } else if s[0] == c {
        0
    } else {
        1 + index_of(s.drop_first(), c)
    }
}

proof fn lemma_index_of(s: Seq<char>, c: char)
    ensures
        0 <= index_of(s, c) <= s.len(),
        index_of(s, c) < s.len() ==> s[index_of(s, c)] == c,
        forall|j: int| 0 <= j < index_of(s, c) ==> s[j] != c,
    decreases s.len(),
{
    if s.len() > 0 && s[0] != c {
        lemma_index_of(s.drop_first(), c);
        assert forall|j: int| 0 <= j < index_of(s, c) implies s[j] != c by {
            if j > 0 {
                assert(s[j] == s.drop_first()[j - 1]);
            }
        }
    }
}

/// A character a bare TOML key may hold.
pub open spec fn is_key_char(c: char) -> bool {
    ('a' <= c <= 'z') || ('A' <= c <= 'Z') || ('0' <= c <= '9') || c == '_' || c == '-'
}

/// The key of a `key = value` line: what stands before the first `=`,
/// trimmed, when that is a non-empty bare key.
pub open spec fn key_text(line: Seq<char>) -> Option<Seq<char>> {
    let e = index_of(line, '=');
    let k = trim(line.take(e));
    if e < line.len() && k.len() > 0 && (forall|i: int| 0 <= i < k.len() ==> is_key_char(#[trigger] k[i])) {
        Some(k)
    } else {
        None
    }
}

/// The key of `v[lo..hi]` read as a `key = value` line.
fn key_in(v: &Vec<char>, lo: usize, hi: usize) -> (r: Option<Vec<char>>)
    requires
        lo <= hi <= v.len(),
    ensures
        match r {
            Some(k) => key_text(v@.subrange(lo as int, hi as int)) == Some(k@),
            None => key_text(v@.subrange(lo as int, hi as int)) is None,
        },
{
    let ghost t = v@.subrange(lo as int, hi as int);
    let mut e = lo;
    while e < hi && v[e] != '='
        invariant
            lo <= e <= hi <= v.len(),
            t == v@.subrange(lo as int, hi as int),
            index_of(t, '=') == (e - lo) + index_of(v@.subrange(e as int, hi as int), '='),
        decreases hi - e,
    {
        assert(v@.subrange(e as int, hi as int).drop_first() =~= v@.subrange(e + 1, hi as int));
        e = e + 1;
    }
    assert(index_of(t, '=') == e - lo);
    if e == hi {
        return None;
    }
    assert(t.take(e - lo) =~= v@.subrange(lo as int, e as int));
    let (a, b) = trim_bounds(v, lo, e);
    assert(v@.subrange(a as int, b as int) == trim(t.take(e - lo)));
    if a == b {
        assert(trim(t.take(e - lo)).len() == 0);
        return None;
    }
    let mut i = a;
    while i < b
        invariant
            a <= i <= b <= v.len(),
            lo <= e < hi,
            t == v@.subrange(lo as int, hi as int),
            index_of(t, '=') == e - lo,
            v@.subrange(a as int, b as int) == trim(t.take(e - lo)),
            forall|j: int| a <= j < i ==> is_key_char(#[trigger] v@[j]),
        decreases b - i,
    {
        let c = v[i];
        if !(('a' <= c && c <= 'z') || ('A' <= c && c <= 'Z') || ('0' <= c && c <= '9') || c == '_' || c == '-') {
            assert(v@.subrange(a as int, b as int)[i - a] == c);
            return None;
        }
        i = i + 1;
    }
    let k = copy_range(v, a, b);
    assert forall|j: int| 0 <= j < k@.len() implies is_key_char(#[trigger] k@[j]) by {
        assert(k@[j] == v@[a + j]);
    }
    Some(k)
}

/// The key of a `key = value` line, if the line has one.
pub fn key_of(line: &str) -> (r: Option<String>)
    ensures
        match r {
            Some(k) => key_text(line@) == Some(k@),
            None => key_text(line@) is None,
        },
{
    let v = chars_of(line);
    assert(v@.subrange(0, v.len() as int) =~= v@);
    match key_in(&v, 0, v.len()) {
        Some(k) => Some(string_of(&k)),
        None => None,
    }
}

/// The pieces of `s` between newlines (the last one unterminated).
pub open spec fn split_newlines(s: Seq<char>) -> Seq<Seq<char>>
    decreases s.len(),
{
    if s.len() == 0 {
        seq![Seq::empty()]
    } else {
        let p = split_newlines(s.drop_last());
        if s.last() == '\n' {
            p.push(Seq::empty())
        } else {
            p.drop_last().push(p.last().push(s.last()))
        }
    }
}

/// A line that ended in `\r\n` loses its `\r`.
pub open spec fn strip_cr(l: Seq<char>) -> Seq<char> {
    if l.len() > 0 && l.last() == '\r' {
        l.drop_last()
    } else {
        l
    }
}

/// `str::lines`: the pieces between newlines, a `\r` before a newline
/// dropped, and no empty piece after a final newline.
pub open spec fn lines_of(s: Seq<char>) -> Seq<Seq<char>> {
    let p = split_newlines(s);
    let ended = p.drop_last().map_values(|l: Seq<char>| strip_cr(l));
    if p.last().len() == 0 {
        ended
    } else {
        ended.push(p.last())
    }
}

pub open spec fn char_rows(v: Seq<Vec<char>>) -> Seq<Seq<char>> {
    v.map_values(|l: Vec<char>| l@)
}

proof fn lemma_split_nonempty(s: Seq<char>)
    ensures
        split_newlines(s).len() >= 1,
    decreases s.len(),
{
    if s.len() > 0 {
        lemma_split_nonempty(s.drop_last());
    }
}

/// The lines of `v`.
fn split_lines(v: &Vec<char>) -> (r: Vec<Vec<char>>)
    ensures
        char_rows(r@) == lines_of(v@),
{
    let mut done: Vec<Vec<char>> = Vec::new();
    let mut cur: Vec<char> = Vec::new();
    let ghost mut raw: Seq<Seq<char>> = Seq::empty();
    let mut i: usize = 0;
    assert(v@.take(0) =~= Seq::<char>::empty());
    assert(split_newlines(Seq::<char>::empty()) =~= raw.push(cur@));
    while i < v.len()
        invariant
            i <= v.len(),
            split_newlines(v@.take(i as int)) == raw.push(cur@),
            char_rows(done@) == raw.map_values(|l: Seq<char>| strip_cr(l)),
        decreases v.len() - i,
    {
        let c = v[i];
        assert(v@.take(i + 1).drop_last() =~= v@.take(i as int));
        assert(v@.take(i + 1).last() == c);
        if c == '\n' {
            let ghost piece = cur@;
            let ghost rows = char_rows(done@);
            if cur.len() > 0 && cur[cur.len() - 1] == '\r' {
                cur.pop();
            }
            assert(cur@ == strip_cr(piece));
            let ghost cv = cur@;
            done.push(cur);
            cur = Vec::new();
            proof {
                assert(char_rows(done@) =~= rows.push(cv));
                assert(raw.push(piece).map_values(|l: Seq<char>| strip_cr(l)) =~= raw.map_values(|l: Seq<char>| strip_cr(l)).push(strip_cr(piece)));
                assert(char_rows(done@) =~= raw.push(piece).map_values(|l: Seq<char>| strip_cr(l)));
                raw = raw.push(piece);
                assert(split_newlines(v@.take(i + 1)) =~= raw.push(cur@));
            }
        } else {
            let ghost p = raw.push(cur@);
            cur.push(c);
            assert(p.drop_last() =~= raw);
            assert(split_newlines(v@.take(i + 1)) =~= raw.push(cur@));
        }
        i = i + 1;
    }
    assert(v@.take(v.len() as int) =~= v@);
    let ghost p = raw.push(cur@);
    assert(p.drop_last() =~= raw);
    if cur.len() > 0 {
        done.push(cur);
        assert(char_rows(done@) =~= lines_of(v@));
    } else {
        assert(char_rows(done@) =~= lines_of(v@));
    }
    done
}

/// A `[section]` header line (trimmed).
pub open spec fn is_header(t: Seq<char>) -> bool {
    t.len() > 0 && t[0] == '[' && t.last() == ']'
}

/// The section a header names.
pub open spec fn header_name(t: Seq<char>) -> Seq<char> {
    trim(t.subrange(1, t.len() - 1))
}

/// `section.key`, or the key alone outside any section.
pub open spec fn full_key(section: Seq<char>, key: Seq<char>) -> Seq<char> {
    if section.len() == 0 {
        key
    } else {
        section + "."@ + key
    }
}

/// The index of the first pending setting named `name`, or -1.
pub open spec fn find_pending(pending: Seq<(Seq<char>, Seq<char>)>, name: Seq<char>) -> int
    decreases pending.len(),
{
    if pending.len() == 0 {
        -1
    } else if pending[0].0 == name {
        0
    } else {
        let r = find_pending(pending.drop_first(), name);
        if r < 0 {
            -1
        } else {
            r + 1
        }
    }
}

proof fn lemma_find_pending(pending: Seq<(Seq<char>, Seq<char>)>, name: Seq<char>)
    ensures
        -1 <= find_pending(pending, name) < pending.len(),
        find_pending(pending, name) >= 0 ==> pending[find_pending(pending, name)].0 == name,
        forall|j: int| 0 <= j < pending.len() && (find_pending(pending, name) < 0 || j < find_pending(pending, name))
            ==> (#[trigger] pending[j]).0 != name,
    decreases pending.len(),
{
    if pending.len() > 0 && pending[0].0 != name {
        lemma_find_pending(pending.drop_first(), name);
        assert forall|j: int| 0 <= j < pending.len() && (find_pending(pending, name) < 0 || j < find_pending(pending, name))
            implies (#[trigger] pending[j]).0 != name by {
            if j > 0 {
                assert(pending[j] == pending.drop_first()[j - 1]);
            }
        }
    }
}

/// The leading whitespace of a line.
pub open spec fn indent_of(line: Seq<char>) -> Seq<char> {
    line.take(line.len() - trim_start(line).len())
}

/// The state of the line-by-line pass: the lines written so far, the
/// current section, the sections seen, and the settings not written yet.
pub type ScanState = (Seq<Seq<char>>, Seq<char>, Seq<Seq<char>>, Seq<(Seq<char>, Seq<char>)>);

/// One line of the pass: a header changes the section; a key line of a
/// pending setting of the current section is rewritten (indentation kept)
/// and the setting is done; anything else, comments included, is kept.
pub open spec fn scan_step(st: ScanState, line: Seq<char>) -> ScanState {
    let t = trim(line);
    if is_header(t) {
        (st.0.push(line), header_name(t), st.2.push(header_name(t)), st.3)
    } else if !(t.len() > 0 && t[0] == '#') && key_text(t) is Some && find_pending(
        st.3,
        full_key(st.1, key_text(t)->0),
    ) >= 0 {
        let k = key_text(t)->0;
        let p = find_pending(st.3, full_key(st.1, k));
        (st.0.push(indent_of(line) + k + " = "@ + st.3[p].1), st.1, st.2, st.3.remove(p))
    } else {
        (st.0.push(line), st.1, st.2, st.3)
    }
}

/// The pass over the first `n` lines.
pub open spec fn scan(lines: Seq<Seq<char>>, pending: Seq<(Seq<char>, Seq<char>)>, n: int) -> ScanState
    decreases n,
{
    if n <= 0 {
        (Seq::empty(), Seq::empty(), Seq::empty(), pending)
    } else {
        scan_step(scan(lines, pending, n - 1), lines[n - 1])
    }
}

/// The index of the last `c` in `s`, or -1.
pub open spec fn last_index_of(s: Seq<char>, c: char) -> int
    decreases s.len(),
{
    if s.len() == 0 {
        -1
    } else if s.last() == c {
        s.len() - 1
    } else {
        last_index_of(s.drop_last(), c)
    }
}

/// `rsplit_once('.')`: the section and the key of a setting's name.
pub open spec fn split_key(name: Seq<char>) -> (Seq<char>, Seq<char>) {
    let d = last_index_of(name, '.');
    if d < 0 {
        (Seq::empty(), name)
    } else {
        (name.take(d), name.skip(d + 1))
    }
}

/// The index of the first line reading `header` once trimmed, or -1.
pub open spec fn find_header(out: Seq<Seq<char>>, header: Seq<char>, from: int) -> int
    decreases out.len() - from,
{
    if from < 0 || from >= out.len() {
        -1
    } else if trim(out[from]) == header {
        from
    } else {
        find_header(out, header, from + 1)
    }
}

/// The index of the next header line at or after `from`, or the end.
pub open spec fn section_end(out: Seq<Seq<char>>, from: int) -> int
    decreases out.len() - from,
{
    if from < 0 || from >= out.len() {
        out.len() as int
    } else if is_header(trim(out[from])) {
        from
    } else {
        section_end(out, from + 1)
    }
}

/// `at` moved back over the blank lines just before it, but not before `lo`.
pub open spec fn before_blank_lines(out: Seq<Seq<char>>, lo: int, at: int) -> int
    decreases at - lo,
{
    if at > lo && trim(out[at - 1]).len() == 0 {
        before_blank_lines(out, lo, at - 1)
    } else {
        at
    }
}

/// Add one setting that was not in the file: outside any section at the
/// very end; in a section not seen, under a new header at the end (after
/// a blank line); in a section seen, right after its last line that is not
/// blank.
pub open spec fn append_one(out: Seq<Seq<char>>, seen: Seq<Seq<char>>, entry: (Seq<char>, Seq<char>)) -> (
    Seq<Seq<char>>,
    Seq<Seq<char>>,
) {
    let sec = split_key(entry.0).0;
    let line = split_key(entry.0).1 + " = "@ + entry.1;
    if sec.len() == 0 {
        (out.push(line), seen)
    } else if !seen.contains(sec) {
        let spaced = if out.len() > 0 && trim(out.last()).len() > 0 {
            out.push(Seq::empty())
        } else {
            out
        };
        (spaced.push("["@ + sec + "]"@).push(line), seen.push(sec))
    } else {
        let h = find_header(out, "["@ + sec + "]"@, 0);
        let at = if h < 0 {
            out.len() as int
        } else {
            before_blank_lines(out, h + 1, section_end(out, h + 1))
        };
        (out.insert(at, line), seen)
    }
}

/// The first `n` remaining settings added, in order.
pub open spec fn append_all(
    out: Seq<Seq<char>>,
    seen: Seq<Seq<char>>,
    pending: Seq<(Seq<char>, Seq<char>)>,
    n: int,
) -> (Seq<Seq<char>>, Seq<Seq<char>>)
    decreases n,
{
    if n <= 0 {
        (out, seen)
    } else {
        let prev = append_all(out, seen, pending, n - 1);
        append_one(prev.0, prev.1, pending[n - 1])
    }
}

/// The lines joined by newlines.
pub open spec fn join_lines(ls: Seq<Seq<char>>) -> Seq<char>
    decreases ls.len(),
{
    if ls.len() == 0 {
        Seq::empty()
    } else if ls.len() == 1 {
        ls[0]
    } else {
        join_lines(ls.drop_last()) + seq!['\n'] + ls.last()
    }
}

/// `trim_end_matches('\n')`.
pub open spec fn trim_newlines(s: Seq<char>) -> Seq<char>
    decreases s.len(),
{
    if s.len() > 0 && s.last() == '\n' {
        trim_newlines(s.drop_last())
    } else {
        s
    }
}

/// The lines of the file after writing `updates` (name, TOML text) into
/// `text`.
pub open spec fn patched_lines(text: Seq<char>, updates: Seq<(Seq<char>, Seq<char>)>) -> Seq<Seq<char>> {
    let ls = lines_of(text);
    let st = scan(ls, updates, ls.len() as int);
    append_all(st.0, st.2, st.3, st.3.len() as int).0
}

/// The file after writing `updates` (name, TOML text) into `text`: its
/// lines, with trailing blank lines dropped, ending in one newline.
pub open spec fn patched(text: Seq<char>, updates: Seq<(Seq<char>, Seq<char>)>) -> Seq<char> {
    trim_newlines(join_lines(patched_lines(text, updates))) + seq!['\n']
}

/// The settings as (name, TOML text).
pub open spec fn update_texts(updates: Seq<(&str, Value)>) -> Seq<(Seq<char>, Seq<char>)> {
    updates.map_values(|u: (&str, Value)| (u.0@, value_text(u.1)))
}

pub open spec fn pair_rows(v: Seq<(Vec<char>, Vec<char>)>) -> Seq<(Seq<char>, Seq<char>)> {
    v.map_values(|p: (Vec<char>, Vec<char>)| (p.0@, p.1@))
}

/// A line of the file as it comes out of the write-back: unchanged, or a
/// `key = value` line (not a comment, not a header) rewritten with the
/// same indentation and key and a new value.
pub open spec fn kept_or_rewritten(l: Seq<char>, m: Seq<char>) -> bool {
    l == m || {
        let t = trim(l);
        &&& !is_header(t)
        &&& !(t.len() > 0 && t[0] == '#')
        &&& key_text(t) is Some
        &&& exists|v: Seq<char>| m == indent_of(l) + (key_text(t)->0) + " = "@ + v
    }
}

/// `f` places the lines `a`, in order, among the lines `b`, each kept or
/// rewritten.
pub open spec fn follows(a: Seq<Seq<char>>, b: Seq<Seq<char>>, f: Seq<int>) -> bool {
    &&& f.len() == a.len()
    &&& forall|i: int| 0 <= i < f.len() ==> 0 <= #[trigger] f[i] < b.len()
    &&& forall|i: int| 0 <= i < f.len() ==> kept_or_rewritten(a[i], b[#[trigger] f[i]])
    &&& forall|i: int, j: int| 0 <= i < j < f.len() ==> #[trigger] f[i] < #[trigger] f[j]
}

proof fn lemma_scan_shape(ls: Seq<Seq<char>>, upd: Seq<(Seq<char>, Seq<char>)>, n: int)
    requires
        0 <= n <= ls.len(),
    ensures
        scan(ls, upd, n).0.len() == n,
        forall|i: int| 0 <= i < n ==> kept_or_rewritten(ls[i], #[trigger] scan(ls, upd, n).0[i]),
    decreases n,
{
    if n > 0 {
        lemma_scan_shape(ls, upd, n - 1);
        let prev = scan(ls, upd, n - 1);
        let line = ls[n - 1];
        let t = trim(line);
        let cur = scan(ls, upd, n);
        assert forall|i: int| 0 <= i < n implies kept_or_rewritten(ls[i], #[trigger] cur.0[i]) by {
            if i < n - 1 {
                assert(cur.0[i] == prev.0[i]);
            } else if !is_header(t) && !(t.len() > 0 && t[0] == '#') && key_text(t) is Some && find_pending(
                prev.3,
                full_key(prev.1, key_text(t)->0),
            ) >= 0 {
                let k = key_text(t)->0;
                let p = find_pending(prev.3, full_key(prev.1, k));
                assert(cur.0[i] == indent_of(line) + k + " = "@ + prev.3[p].1);
            }
        }
    }
}

proof fn lemma_section_end(out: Seq<Seq<char>>, from: int)
    requires
        0 <= from,
    ensures
        from <= section_end(out, from) <= out.len() || section_end(out, from) == out.len(),
        0 <= section_end(out, from) <= out.len(),
    decreases out.len() - from,
{
    if from < out.len() && !is_header(trim(out[from])) {
        lemma_section_end(out, from + 1);
    }
}

proof fn lemma_before_blank_lines(out: Seq<Seq<char>>, lo: int, at: int)
    requires
        0 <= lo,
        0 <= at,
    ensures
        0 <= before_blank_lines(out, lo, at) <= at,
    decreases at - lo,
{
    if at > lo && trim(out[at - 1]).len() == 0 {
        lemma_before_blank_lines(out, lo, at - 1);
    }
}

proof fn lemma_append_one_embeds(out: Seq<Seq<char>>, seen: Seq<Seq<char>>, entry: (Seq<char>, Seq<char>), a: Seq<Seq<char>>, f: Seq<int>) -> (g: Seq<int>)
    requires
        follows(a, out, f),
    ensures
        follows(a, append_one(out, seen, entry).0, g),
{
    let sec = split_key(entry.0).0;
    let line = split_key(entry.0).1 + " = "@ + entry.1;
    let next = append_one(out, seen, entry).0;
    if sec.len() == 0 || !seen.contains(sec) {
        assert forall|i: int| 0 <= i < f.len() implies next[#[trigger] f[i]] == out[f[i]] by {}
        f
    } else {
        let h = find_header(out, "["@ + sec + "]"@, 0);
        let at = if h < 0 { out.len() as int } else { before_blank_lines(out, h + 1, section_end(out, h + 1)) };
        if h >= 0 {
            lemma_section_end(out, h + 1);
            lemma_before_blank_lines(out, h + 1, section_end(out, h + 1));
        }
        let g = Seq::new(f.len(), |i: int| if f[i] < at { f[i] } else { f[i] + 1 });
        assert(next == out.insert(at, line));
        assert forall|i: int| 0 <= i < g.len() implies 0 <= #[trigger] g[i] < next.len() && next[g[i]] == out[f[i]] by {}
        assert forall|i: int| 0 <= i < g.len() implies kept_or_rewritten(a[i], next[#[trigger] g[i]]) by {
            assert(next[g[i]] == out[f[i]]);
        }
        assert forall|i: int, j: int| 0 <= i < j < g.len() implies #[trigger] g[i] < #[trigger] g[j] by {
            assert(f[i] < f[j]);
        }
        g
    }
}

proof fn lemma_append_all_embeds(
    out: Seq<Seq<char>>,
    seen: Seq<Seq<char>>,
    pending: Seq<(Seq<char>, Seq<char>)>,
    n: int,
    a: Seq<Seq<char>>,
    f: Seq<int>,
) -> (g: Seq<int>)
    requires
        follows(a, out, f),
        0 <= n <= pending.len(),
    ensures
        follows(a, append_all(out, seen, pending, n).0, g),
    decreases n,
{
    if n <= 0 {
        f
    } else {
        let g0 = lemma_append_all_embeds(out, seen, pending, n - 1, a, f);
        let prev = append_all(out, seen, pending, n - 1);
        lemma_append_one_embeds(prev.0, prev.1, pending[n - 1], a, g0)
    }
}

proof fn lemma_key_char_plain(c: char)
    requires
        is_key_char(c),
    ensures
        !is_space(c),
        c != '=' && c != '[' && c != '#',
{
}

proof fn lemma_indent_spaces(l: Seq<char>)
    ensures
        forall|i: int| 0 <= i < indent_of(l).len() ==> is_space(#[trigger] indent_of(l)[i]),
        indent_of(l) + trim_start(l) == l,
    decreases l.len(),
{
    if l.len() > 0 && is_space(l[0]) {
        lemma_indent_spaces(l.drop_first());
        let r = l.drop_first();
        assert(trim_start(l) == trim_start(r));
        assert(indent_of(l) =~= seq![l[0]] + indent_of(r)) by {
            lemma_trim_start_len(r);
        }
        assert forall|i: int| 0 <= i < indent_of(l).len() implies is_space(#[trigger] indent_of(l)[i]) by {
            if i > 0 {
                assert(indent_of(l)[i] == indent_of(r)[i - 1]);
            }
        }
        assert(indent_of(l) + trim_start(l) =~= seq![l[0]] + (indent_of(r) + trim_start(r)));
        assert(seq![l[0]] + r =~= l);
    } else {
        assert(indent_of(l) =~= Seq::<char>::empty());
        assert(indent_of(l) + trim_start(l) =~= l);
    }
}

proof fn lemma_trim_start_len(l: Seq<char>)
    ensures
        trim_start(l).len() <= l.len(),
    decreases l.len(),
{
    if l.len() > 0 && is_space(l[0]) {
        lemma_trim_start_len(l.drop_first());
    }
}

proof fn lemma_trim_start_spaces(ind: Seq<char>, x: Seq<char>)
    requires
        forall|i: int| 0 <= i < ind.len() ==> is_space(#[trigger] ind[i]),
        x.len() > 0,
        !is_space(x[0]),
    ensures
        trim_start(ind + x) == x,
    decreases ind.len(),
{
    if ind.len() > 0 {
        assert((ind + x).drop_first() =~= ind.drop_first() + x);
        assert forall|i: int| 0 <= i < ind.drop_first().len() implies is_space(#[trigger] ind.drop_first()[i]) by {
            assert(ind.drop_first()[i] == ind[i + 1]);
        }
        lemma_trim_start_spaces(ind.drop_first(), x);
    } else {
        assert(ind + x =~= x);
    }
}

proof fn lemma_trim_end_keeps(x: Seq<char>, j: int)
    requires
        0 <= j < x.len(),
        !is_space(x[j]),
    ensures
        j < trim_end(x).len() <= x.len(),
        trim_end(x) == x.take(trim_end(x).len() as int),
    decreases x.len(),
{
    if is_space(x.last()) {
        assert(j < x.len() - 1);
        lemma_trim_end_keeps(x.drop_last(), j);
        assert(x.drop_last().take(trim_end(x).len() as int) =~= x.take(trim_end(x).len() as int));
    } else {
        assert(x.take(x.len() as int) =~= x);
    }
}

proof fn lemma_index_at(s: Seq<char>, c: char, i: int)
    requires
        0 <= i < s.len(),
        s[i] == c,
        forall|q: int| 0 <= q < i ==> s[q] != c,
    ensures
        index_of(s, c) == i,
    decreases i,
{
    if i > 0 {
        lemma_index_at(s.drop_first(), c, i - 1);
    }
}

/// A line the write-back produces reads again as a line of the same key,
/// with the same indentation.
proof fn lemma_setting_reads_again(ind: Seq<char>, k: Seq<char>, v: Seq<char>)
    requires
        forall|i: int| 0 <= i < ind.len() ==> is_space(#[trigger] ind[i]),
        k.len() > 0,
        forall|i: int| 0 <= i < k.len() ==> is_key_char(#[trigger] k[i]),
    ensures
        ({
            let line = ind + k + " = "@ + v;
            let t = trim(line);
            &&& !is_header(t)
            &&& !(t.len() > 0 && t[0] == '#')
            &&& key_text(t) == Some(k)
            &&& indent_of(line) == ind
        }),
{
    reveal_strlit(" = ");
    let x = k + " = "@ + v;
    let line = ind + k + " = "@ + v;
    assert(line =~= ind + x);
    assert(x[k.len() as int] == ' ');
    lemma_key_char_plain(k[0]);
    assert(x[0] == k[0]);
    lemma_trim_start_spaces(ind, x);
    let n = k.len() as int;
    assert(x[n + 1] == '=');
    lemma_trim_end_keeps(x, n + 1);
    let t = trim_end(x);
    assert(trim(line) == t);
    assert(t[0] == k[0]);
    assert forall|q: int| 0 <= q < n + 1 implies t[q] != '=' by {
        if q < n {
            assert(t[q] == k[q]);
            lemma_key_char_plain(k[q]);
        } else {
            assert(t[q] == ' ');
        }
    }
    assert(t[n + 1] == '=');
    lemma_index_at(t, '=', n + 1);
    let pre = t.take(n + 1);
    assert(pre =~= k + seq![' ']);
    assert(trim_start(pre) == pre);
    lemma_key_char_plain(k[n - 1]);
    assert(pre.drop_last() =~= k);
    assert(trim_end(k) == k);
    assert(trim_end(pre) == k);
    assert(trim(pre) == k);
    // the indentation
    lemma_indent_spaces(line);
    assert(trim_start(line) == x);
    assert(indent_of(line) =~= ind);
}

proof fn lemma_scan_prefix(ls: Seq<Seq<char>>, upd: Seq<(Seq<char>, Seq<char>)>, n: int, m: int)
    requires
        0 <= n <= m <= ls.len(),
    ensures
        scan(ls, upd, n).0 == scan(ls, upd, m).0.take(n),
    decreases m - n,
{
    lemma_scan_shape(ls, upd, n);
    if n < m {
        lemma_scan_prefix(ls, upd, n, m - 1);
        lemma_scan_shape(ls, upd, m - 1);
        lemma_scan_shape(ls, upd, m);
        assert(scan(ls, upd, m).0.take(m - 1) =~= scan(ls, upd, m - 1).0);
        assert(scan(ls, upd, m).0.take(n) =~= scan(ls, upd, m).0.take(m - 1).take(n));
    } else {
        assert(scan(ls, upd, m).0.take(m) =~= scan(ls, upd, m).0);
    }
}

proof fn lemma_scan_again(ls: Seq<Seq<char>>, upd: Seq<(Seq<char>, Seq<char>)>, n: int)
    requires
        0 <= n <= ls.len(),
    ensures
        ({
            let once = scan(ls, upd, ls.len() as int).0;
            let a = scan(ls, upd, n);
            scan(once, upd, n) == (once.take(n), a.1, a.2, a.3)
        }),
    decreases n,
{
    let once = scan(ls, upd, ls.len() as int).0;
    lemma_scan_shape(ls, upd, ls.len() as int);
    if n == 0 {
        assert(once.take(0) =~= Seq::<Seq<char>>::empty());
    } else {
        lemma_scan_again(ls, upd, n - 1);
        lemma_scan_prefix(ls, upd, n, ls.len() as int);
        lemma_scan_shape(ls, upd, n);
        let a = scan(ls, upd, n - 1);
        let line = ls[n - 1];
        let t = trim(line);
        let out = once[n - 1];
        assert(scan(ls, upd, n).0 == a.0.push(scan(ls, upd, n).0[n - 1]));
        assert(out == scan(ls, upd, n).0[n - 1]);
        if !is_header(t) && !(t.len() > 0 && t[0] == '#') && key_text(t) is Some && find_pending(
            a.3,
            full_key(a.1, key_text(t)->0),
        ) >= 0 {
            let k = key_text(t)->0;
            let p = find_pending(a.3, full_key(a.1, k));
            lemma_indent_spaces(line);
            lemma_setting_reads_again(indent_of(line), k, a.3[p].1);
            assert(out == indent_of(line) + k + " = "@ + a.3[p].1);
        } else {
            assert(out == line);
        }
        assert(once.take(n) =~= once.take(n - 1).push(out));
    }
}

/// Writing the same settings a second time rewrites every line to itself:
/// the pass over the lines that the first write produced gives them back
/// unchanged, in the same sections, with the same settings left over to
/// add at the end.
pub proof fn lemma_rewrite_is_stable(lines: Seq<Seq<char>>, updates: Seq<(Seq<char>, Seq<char>)>)
    ensures
        scan(scan(lines, updates, lines.len() as int).0, updates, lines.len() as int) == scan(
            lines,
            updates,
            lines.len() as int,
        ),
{
    lemma_scan_again(lines, updates, lines.len() as int);
    lemma_scan_shape(lines, updates, lines.len() as int);
    let once = scan(lines, updates, lines.len() as int).0;
    assert(once.take(lines.len() as int) =~= once);
}

proof fn lemma_split_extend(s: Seq<char>, l: Seq<char>)
    requires
        !l.contains('\n'),
    ensures
        split_newlines(s + l) == split_newlines(s).drop_last().push(split_newlines(s).last() + l),
    decreases l.len(),
{
    lemma_split_nonempty(s);
    if l.len() == 0 {
        assert(s + l =~= s);
        assert(split_newlines(s).last() + l =~= split_newlines(s).last());
        assert(split_newlines(s).drop_last().push(split_newlines(s).last()) =~= split_newlines(s));
    } else {
        let l0 = l.drop_last();
        assert(!l0.contains('\n')) by {
            if l0.contains('\n') {
                let i = choose|i: int| 0 <= i < l0.len() && l0[i] == '\n';
                assert(l[i] == '\n');
            }
        }
        lemma_split_extend(s, l0);
        assert((s + l).drop_last() =~= s + l0);
        assert((s + l).last() == l.last());
        assert(l.last() != '\n') by {
            assert(l[l.len() - 1] == l.last());
        }
        lemma_split_nonempty(s + l0);
        assert(split_newlines(s + l0).last() == split_newlines(s).last() + l0);
        assert(split_newlines(s).last() + l0 + seq![l.last()] =~= split_newlines(s).last() + l);
        assert(split_newlines(s + l0).drop_last() =~= split_newlines(s).drop_last());
        let q = split_newlines(s + l0);
        assert(split_newlines(s + l) == q.drop_last().push(q.last().push(l.last())));
        assert(q.last().push(l.last()) =~= split_newlines(s).last() + l);
        assert(split_newlines(s + l) =~= split_newlines(s).drop_last().push(split_newlines(s).last() + l));
    }
}

pub open spec fn no_break(l: Seq<char>) -> bool {
    !l.contains('\n') && !l.contains('\r')
}

proof fn lemma_split_join(d: Seq<Seq<char>>)
    requires
        d.len() >= 1,
        forall|i: int| 0 <= i < d.len() ==> !(#[trigger] d[i]).contains('\n'),
    ensures
        split_newlines(join_lines(d)) == d,
        split_newlines(join_lines(d) + seq!['\n']) == d.push(Seq::empty()),
    decreases d.len(),
{
    if d.len() == 1 {
        lemma_split_extend(Seq::empty(), d[0]);
        assert(Seq::<char>::empty() + d[0] =~= d[0]);
        assert(split_newlines(Seq::<char>::empty()) == seq![Seq::<char>::empty()]);
        assert(Seq::<char>::empty() + d[0] =~= d[0]);
        assert(seq![Seq::<char>::empty()].drop_last().push(d[0]) =~= d);
    } else {
        let d0 = d.drop_last();
        assert forall|i: int| 0 <= i < d0.len() implies !(#[trigger] d0[i]).contains('\n') by {
            assert(d0[i] == d[i]);
        }
        lemma_split_join(d0);
        let j0 = join_lines(d0) + seq!['\n'];
        assert(!d.last().contains('\n')) by {
            assert(d[d.len() - 1] == d.last());
        }
        lemma_split_extend(j0, d.last());
        assert(join_lines(d) == j0 + d.last());
        assert(Seq::<char>::empty() + d.last() =~= d.last());
        assert(d0.push(Seq::empty()).drop_last().push(d.last()) =~= d);
    }
    let j = join_lines(d) + seq!['\n'];
    assert(j.drop_last() =~= join_lines(d));
}

/// The index just past the last non-empty line.
pub open spec fn content_len(p: Seq<Seq<char>>) -> int
    decreases p.len(),
{
    if p.len() == 0 {
        0
    } else if p.last().len() == 0 {
        content_len(p.drop_last())
    } else {
        p.len() as int
    }
}

proof fn lemma_content_len(p: Seq<Seq<char>>)
    ensures
        0 <= content_len(p) <= p.len(),
        forall|i: int| content_len(p) <= i < p.len() ==> (#[trigger] p[i]).len() == 0,
        content_len(p) > 0 ==> p[content_len(p) - 1].len() > 0,
        forall|i: int| 0 <= i < p.len() && p[i].len() > 0 ==> i < content_len(p),
    decreases p.len(),
{
    if p.len() > 0 && p.last().len() == 0 {
        lemma_content_len(p.drop_last());
        assert forall|i: int| content_len(p) <= i < p.len() implies (#[trigger] p[i]).len() == 0 by {
            if i < p.len() - 1 {
                assert(p[i] == p.drop_last()[i]);
            }
        }
        assert forall|i: int| 0 <= i < p.len() && p[i].len() > 0 implies i < content_len(p) by {
            if i < p.len() - 1 {
                assert(p[i] == p.drop_last()[i]);
            }
        }
    }
}

proof fn lemma_trim_join(p: Seq<Seq<char>>)
    requires
        content_len(p) > 0,
        forall|i: int| 0 <= i < p.len() ==> !(#[trigger] p[i]).contains('\n'),
    ensures
        trim_newlines(join_lines(p)) == join_lines(p.take(content_len(p))),
    decreases p.len(),
{
    lemma_content_len(p);
    if p.last().len() == 0 {
        let q = p.drop_last();
        assert forall|i: int| 0 <= i < q.len() implies !(#[trigger] q[i]).contains('\n') by {
            assert(q[i] == p[i]);
        }
        lemma_trim_join(q);
        assert(q.take(content_len(q)) =~= p.take(content_len(p)));
        assert(p.len() >= 2);
        assert(join_lines(p) == join_lines(q) + seq!['\n'] + p.last());
        assert(join_lines(p) =~= join_lines(q) + seq!['\n']);
        assert((join_lines(q) + seq!['\n']).drop_last() =~= join_lines(q));
    } else {
        assert(p.take(p.len() as int) =~= p);
        let l = p.last();
        assert(l[l.len() - 1] != '\n') by {
            assert(p[p.len() - 1] == l);
        }
        if p.len() == 1 {
            assert(join_lines(p) == l);
        } else {
            assert(join_lines(p) == join_lines(p.drop_last()) + seq!['\n'] + l);
            assert(join_lines(p).last() == l.last());
        }
    }
}

proof fn lemma_scan_take(ls: Seq<Seq<char>>, upd: Seq<(Seq<char>, Seq<char>)>, n: int, m: int)
    requires
        0 <= n <= m <= ls.len(),
    ensures
        scan(ls.take(m), upd, n) == scan(ls, upd, n),
    decreases n,
{
    if n > 0 {
        lemma_scan_take(ls, upd, n - 1, m);
        assert(ls.take(m)[n - 1] == ls[n - 1]);
    }
}

proof fn lemma_scan_blank_tail(ls: Seq<Seq<char>>, upd: Seq<(Seq<char>, Seq<char>)>, m: int, n: int)
    requires
        0 <= m <= n <= ls.len(),
        forall|i: int| m <= i < ls.len() ==> (#[trigger] ls[i]).len() == 0,
    ensures
        scan(ls, upd, n).1 == scan(ls, upd, m).1,
        scan(ls, upd, n).2 == scan(ls, upd, m).2,
        scan(ls, upd, n).3 == scan(ls, upd, m).3,
    decreases n - m,
{
    if n > m {
        lemma_scan_blank_tail(ls, upd, m, n - 1);
        let line = ls[n - 1];
        assert(line.len() == 0);
        assert(trim_start(line) =~= line);
        assert(trim(line).len() == 0);
        assert(index_of(trim(line), '=') == 0);
    }
}

proof fn lemma_split_pieces(s: Seq<char>)
    ensures
        forall|i: int, j: int|
            0 <= i < split_newlines(s).len() && 0 <= j < split_newlines(s)[i].len() ==> {
                &&& #[trigger] split_newlines(s)[i][j] != '\n'
                &&& s.contains(split_newlines(s)[i][j])
            },
    decreases s.len(),
{
    if s.len() > 0 {
        lemma_split_pieces(s.drop_last());
        lemma_split_nonempty(s.drop_last());
        let p = split_newlines(s.drop_last());
        assert forall|c: char| s.drop_last().contains(c) implies s.contains(c) by {
            let k = choose|k: int| 0 <= k < s.drop_last().len() && s.drop_last()[k] == c;
            assert(s[k] == c);
        }
        assert(s[s.len() - 1] == s.last());
        if s.last() != '\n' {
            let q = split_newlines(s);
            assert forall|i: int, j: int| 0 <= i < q.len() && 0 <= j < q[i].len() implies #[trigger] q[i][j] != '\n' && s.contains(q[i][j]) by {
                if i < p.len() - 1 {
                    assert(q[i] == p[i]);
                } else if j < p.last().len() {
                    assert(q[i][j] == p.last()[j]);
                    assert(p[p.len() - 1] == p.last());
                } else {
                    assert(q[i][j] == s.last());
                }
            }
        } else {
            let q = split_newlines(s);
            assert forall|i: int, j: int| 0 <= i < q.len() && 0 <= j < q[i].len() implies #[trigger] q[i][j] != '\n' && s.contains(q[i][j]) by {
                assert(q[i] == p[i]);
            }
        }
    }
}

proof fn lemma_no_break_concat(a: Seq<char>, b: Seq<char>)
    requires
        no_break(a),
        no_break(b),
    ensures
        no_break(a + b),
{
    if (a + b).contains('\n') || (a + b).contains('\r') {
        let j = choose|j: int| 0 <= j < (a + b).len() && ((a + b)[j] == '\n' || (a + b)[j] == '\r');
        if j < a.len() {
            assert(a[j] == (a + b)[j]);
        } else {
            assert(b[j - a.len()] == (a + b)[j]);
        }
    }
}

proof fn lemma_pending_from(ls: Seq<Seq<char>>, upd: Seq<(Seq<char>, Seq<char>)>, n: int)
    requires
        0 <= n <= ls.len(),
    ensures
        forall|q: int| 0 <= q < scan(ls, upd, n).3.len() ==> upd.contains(#[trigger] scan(ls, upd, n).3[q]),
    decreases n,
{
    if n > 0 {
        lemma_pending_from(ls, upd, n - 1);
        let prev = scan(ls, upd, n - 1);
        let cur = scan(ls, upd, n);
        let t = trim(ls[n - 1]);
        if !is_header(t) && !(t.len() > 0 && t[0] == '#') && key_text(t) is Some && find_pending(
            prev.3,
            full_key(prev.1, key_text(t)->0),
        ) >= 0 {
            let pp = find_pending(prev.3, full_key(prev.1, key_text(t)->0));
            lemma_find_pending(prev.3, full_key(prev.1, key_text(t)->0));
            assert(cur.3 == prev.3.remove(pp));
            assert forall|q: int| 0 <= q < cur.3.len() implies upd.contains(#[trigger] cur.3[q]) by {
                if q < pp {
                    assert(cur.3[q] == prev.3[q]);
                } else {
                    assert(cur.3[q] == prev.3[q + 1]);
                }
            }
        } else {
            assert(cur.3 == prev.3);
        }
    }
}

/// A line the pass rewrites is not empty, and holds no line break when
/// neither the line nor any value does.
proof fn lemma_scan_line_clean(ls: Seq<Seq<char>>, upd: Seq<(Seq<char>, Seq<char>)>, n: int, i: int)
    requires
        0 <= i < n <= ls.len(),
        no_break(ls[i]),
        forall|u: int| 0 <= u < upd.len() ==> no_break(#[trigger] upd[u].1),
    ensures
        scan(ls, upd, n).0[i] != ls[i] ==> scan(ls, upd, n).0[i].len() > 0 && no_break(scan(ls, upd, n).0[i]),
{
    lemma_scan_prefix(ls, upd, i + 1, n);
    lemma_scan_shape(ls, upd, i + 1);
    lemma_scan_shape(ls, upd, i);
    lemma_scan_shape(ls, upd, n);
    assert(scan(ls, upd, n).0.take(i + 1)[i] == scan(ls, upd, n).0[i]);
    let a = scan(ls, upd, i);
    let line = ls[i];
    let t = trim(line);
    let out = scan(ls, upd, i + 1).0[i];
    assert(scan(ls, upd, i + 1).0 == a.0.push(scan(ls, upd, i + 1).0[i]));
    assert(scan(ls, upd, n).0[i] == out);
    if !is_header(t) && !(t.len() > 0 && t[0] == '#') && key_text(t) is Some && find_pending(
        a.3,
        full_key(a.1, key_text(t)->0),
    ) >= 0 {
        let k = key_text(t)->0;
        let pp = find_pending(a.3, full_key(a.1, k));
        lemma_find_pending(a.3, full_key(a.1, k));
        lemma_pending_from(ls, upd, i);
        assert(upd.contains(a.3[pp]));
        let u = choose|u: int| 0 <= u < upd.len() && upd[u] == a.3[pp];
        assert(no_break(upd[u].1));
        let v = a.3[pp].1;
        let ind = indent_of(line);
        lemma_trim_start_len(line);
        assert(out == ind + k + " = "@ + v);
        assert(no_break(ind)) by {
            if ind.contains('\n') || ind.contains('\r') {
                let j = choose|j: int| 0 <= j < ind.len() && (ind[j] == '\n' || ind[j] == '\r');
                assert(ind[j] == line[j]);
            }
        }
        assert(no_break(k)) by {
            if k.contains('\n') || k.contains('\r') {
                let j = choose|j: int| 0 <= j < k.len() && (k[j] == '\n' || k[j] == '\r');
                assert(is_key_char(k[j]));
            }
        }
        reveal_strlit(" = ");
        assert(no_break(" = "@)) by {
            if " = "@.contains('\n') || " = "@.contains('\r') {
                let j = choose|j: int| 0 <= j < " = "@.len() && (" = "@[j] == '\n' || " = "@[j] == '\r');
            }
        }
        lemma_no_break_concat(ind, k);
        lemma_no_break_concat(ind + k, " = "@);
        lemma_no_break_concat(ind + k + " = "@, v);
    }
}

/// Writing the same settings a second time gives back the file of the first
/// write, when every setting was already in the file (none is left to add),
/// the file holds no carriage return, and no value holds a line break.
pub proof fn lemma_patch_again_changes_nothing(text: Seq<char>, updates: Seq<(Seq<char>, Seq<char>)>)
    requires
        updates.len() > 0,
        scan(lines_of(text), updates, lines_of(text).len() as int).3.len() == 0,
        !text.contains('\r'),
        forall|u: int| 0 <= u < updates.len() ==> no_break(#[trigger] updates[u].1),
    ensures
        patched(patched(text, updates), updates) == patched(text, updates),
{
    let ls = lines_of(text);
    let n = ls.len() as int;
    let st = scan(ls, updates, n);
    let p1 = st.0;
    lemma_scan_shape(ls, updates, n);
    assert(patched_lines(text, updates) == p1);
    // every line of the first write is free of line breaks
    lemma_split_pieces(text);
    lemma_split_nonempty(text);
    let sp = split_newlines(text);
    assert forall|i: int| 0 <= i < n implies no_break(#[trigger] ls[i]) by {
        assert(ls[i] == sp[i] || ls[i] == strip_cr(sp[i]));
        assert forall|j: int| 0 <= j < sp[i].len() implies #[trigger] sp[i][j] != '\n' && sp[i][j] != '\r' by {
            assert(text.contains(sp[i][j]));
        }
        if ls[i].contains('\n') || ls[i].contains('\r') {
            let j = choose|j: int| 0 <= j < ls[i].len() && (ls[i][j] == '\n' || ls[i][j] == '\r');
            if ls[i] == strip_cr(sp[i]) && sp[i].len() > 0 && sp[i].last() == '\r' {
                assert(ls[i][j] == sp[i][j]);
            } else {
                assert(ls[i][j] == sp[i][j]);
            }
        }
    }
    assert forall|i: int| 0 <= i < n implies no_break(#[trigger] p1[i]) by {
        assert(kept_or_rewritten(ls[i], p1[i]));
        if p1[i] != ls[i] {
            lemma_scan_line_clean(ls, updates, n, i);
        }
    }
    // the second read of the file gives the lines up to the last non-empty one
    lemma_content_len(p1);
    let m = content_len(p1);
    let g = lemma_scan_writes(ls, updates, n);
    assert(g.len() == 0);
    assert(!g.contains(0));
    assert(has_setting_line(p1, updates[0]));
    let (j0, ind0) = choose|j: int, ind: Seq<char>| 0 <= j < p1.len() && p1[j] == setting_line(ind, updates[0].0, updates[0].1);
    reveal_strlit(" = ");
    assert(p1[j0].len() > 0);
    assert(m > 0);
    let d = p1.take(m);
    assert forall|i: int| 0 <= i < p1.len() implies !(#[trigger] p1[i]).contains('\n') by {
        assert(no_break(p1[i]));
    }
    lemma_trim_join(p1);
    let t1 = patched(text, updates);
    assert(t1 == join_lines(d) + seq!['\n']);
    assert forall|i: int| 0 <= i < d.len() implies !(#[trigger] d[i]).contains('\n') by {
        assert(d[i] == p1[i]);
        assert(no_break(p1[i]));
    }
    lemma_split_join(d);
    assert(split_newlines(t1) == d.push(Seq::empty()));
    assert(d.push(Seq::<char>::empty()).drop_last() =~= d);
    assert(d.map_values(|l: Seq<char>| strip_cr(l)) =~= d) by {
        assert forall|i: int| 0 <= i < d.len() implies strip_cr(#[trigger] d[i]) == d[i] by {
            assert(d[i] == p1[i]);
            assert(no_break(p1[i]));
            if d[i].len() > 0 {
                assert(d[i][d[i].len() - 1] != '\r');
            }
        }
    }
    assert(lines_of(t1) == d);
    // the second pass over those lines changes nothing and leaves nothing to add
    lemma_scan_again(ls, updates, m);
    lemma_scan_take(p1, updates, m, m);
    assert(scan(d, updates, m) == scan(p1, updates, m));
    assert(p1.take(m) =~= d);
    assert forall|i: int| m <= i < ls.len() implies (#[trigger] ls[i]).len() == 0 by {
        assert(p1[i].len() == 0);
        assert(kept_or_rewritten(ls[i], p1[i]));
        if ls[i] != p1[i] {
            lemma_scan_line_clean(ls, updates, n, i);
        }
    }
    lemma_scan_blank_tail(ls, updates, m, n);
    let st2 = scan(d, updates, m);
    assert(st2.3.len() == 0);
    assert(patched_lines(t1, updates) == d);
    lemma_content_len(d);
    assert(d.last() == p1[m - 1]);
    assert(content_len(d) == m);
    assert(d.take(m) =~= d);
    lemma_trim_join(d);
}

/// Writing settings back keeps the file's comments and order: every line
/// of the file is still there, in the same order, either unchanged or,
/// for a `key = value` line, rewritten with its indentation and key kept.
/// New lines are only ever added in between.
pub proof fn lemma_patch_keeps_lines(text: Seq<char>, updates: Seq<(Seq<char>, Seq<char>)>)
    ensures
        exists|f: Seq<int>| follows(lines_of(text), patched_lines(text, updates), f),
{
    let ls = lines_of(text);
    let st = scan(ls, updates, ls.len() as int);
    lemma_scan_shape(ls, updates, ls.len() as int);
    let id = Seq::new(ls.len(), |i: int| i);
    assert(follows(ls, st.0, id)) by {
        assert forall|i: int| 0 <= i < id.len() implies kept_or_rewritten(ls[i], st.0[#[trigger] id[i]]) by {
            assert(id[i] == i);
        }
    }
    let g = lemma_append_all_embeds(st.0, st.2, st.3, st.3.len() as int, ls, id);
    assert(follows(ls, patched_lines(text, updates), g));
}

/// The line a setting named `name` with TOML text `v` is written as, after
/// the indentation `indent`.
pub open spec fn setting_line(indent: Seq<char>, name: Seq<char>, v: Seq<char>) -> Seq<char> {
    indent + split_key(name).1 + " = "@ + v
}

/// Whether some line of `out` writes setting `(name, v)`.
pub open spec fn has_setting_line(out: Seq<Seq<char>>, entry: (Seq<char>, Seq<char>)) -> bool {
    exists|j: int, ind: Seq<char>|
        #![trigger out[j], setting_line(ind, entry.0, entry.1)]
        0 <= j < out.len() && out[j] == setting_line(ind, entry.0, entry.1)
}

proof fn lemma_last_dot(s: Seq<char>)
    requires
        forall|i: int| 0 <= i < s.len() ==> #[trigger] s[i] != '.',
    ensures
        last_index_of(s, '.') == -1,
    decreases s.len(),
{
    if s.len() > 0 {
        lemma_last_dot(s.drop_last());
    }
}

proof fn lemma_last_dot_after(a: Seq<char>, k: Seq<char>)
    requires
        forall|i: int| 0 <= i < k.len() ==> #[trigger] k[i] != '.',
    ensures
        last_index_of(a + "."@ + k, '.') == a.len(),
    decreases k.len(),
{
    reveal_strlit(".");
    if k.len() == 0 {
        assert((a + "."@ + k).last() == '.');
        assert(a + "."@ + k =~= a.push('.'));
    } else {
        assert((a + "."@ + k).drop_last() =~= a + "."@ + k.drop_last());
        assert((a + "."@ + k).last() == k.last());
        lemma_last_dot_after(a, k.drop_last());
    }
}

/// A bare key holds no `.`, so the name `section.key` splits back into
/// the section and the key.
proof fn lemma_split_full_key(section: Seq<char>, k: Seq<char>)
    requires
        forall|i: int| 0 <= i < k.len() ==> is_key_char(#[trigger] k[i]),
    ensures
        split_key(full_key(section, k)).1 == k,
{
    assert forall|i: int| 0 <= i < k.len() implies #[trigger] k[i] != '.' by {
        assert(is_key_char(k[i]));
    }
    if section.len() == 0 {
        lemma_last_dot(k);
    } else {
        lemma_last_dot_after(section, k);
        reveal_strlit(".");
        assert((section + "."@ + k).skip(section.len() as int + 1) =~= k);
    }
}

/// `g` lists, in order, which settings are still pending.
pub open spec fn pending_of(updates: Seq<(Seq<char>, Seq<char>)>, pending: Seq<(Seq<char>, Seq<char>)>, g: Seq<int>) -> bool {
    &&& g.len() == pending.len()
    &&& forall|i: int| 0 <= i < g.len() ==> 0 <= #[trigger] g[i] < updates.len() && pending[i] == updates[g[i]]
    &&& forall|i: int, j: int| 0 <= i < j < g.len() ==> #[trigger] g[i] < #[trigger] g[j]
}

proof fn lemma_scan_writes(ls: Seq<Seq<char>>, updates: Seq<(Seq<char>, Seq<char>)>, n: int) -> (g: Seq<int>)
    requires
        0 <= n <= ls.len(),
    ensures
        pending_of(updates, scan(ls, updates, n).3, g),
        forall|u: int| 0 <= u < updates.len() && !g.contains(u) ==> has_setting_line(scan(ls, updates, n).0, #[trigger] updates[u]),
    decreases n,
{
    if n <= 0 {
        let g = Seq::new(updates.len(), |i: int| i);
        assert forall|u: int| 0 <= u < updates.len() && !g.contains(u) implies has_setting_line(scan(ls, updates, n).0, #[trigger] updates[u]) by {
            assert(g[u] == u);
        }
        g
    } else {
        let g0 = lemma_scan_writes(ls, updates, n - 1);
        let prev = scan(ls, updates, n - 1);
        let cur = scan(ls, updates, n);
        let line = ls[n - 1];
        let t = trim(line);
        assert forall|u: int| 0 <= u < updates.len() && !g0.contains(u) implies has_setting_line(cur.0, #[trigger] updates[u]) by {
            let (j, ind) = choose|j: int, ind: Seq<char>| 0 <= j < prev.0.len() && prev.0[j] == setting_line(ind, updates[u].0, updates[u].1);
            assert(cur.0[j] == prev.0[j]);
        }
        if !is_header(t) && !(t.len() > 0 && t[0] == '#') && key_text(t) is Some && find_pending(
            prev.3,
            full_key(prev.1, key_text(t)->0),
        ) >= 0 {
            let k = key_text(t)->0;
            let name = full_key(prev.1, k);
            let p = find_pending(prev.3, name);
            lemma_find_pending(prev.3, name);
            let u0 = g0[p];
            let g = g0.remove(p);
            lemma_split_full_key(prev.1, k);
            assert(updates[u0] == prev.3[p]);
            assert(cur.0[cur.0.len() - 1] == setting_line(indent_of(line), updates[u0].0, updates[u0].1));
            assert(has_setting_line(cur.0, updates[u0]));
            assert forall|i: int| 0 <= i < g.len() implies 0 <= #[trigger] g[i] < updates.len() && cur.3[i] == updates[g[i]] by {
                if i < p {
                    assert(g[i] == g0[i]);
                } else {
                    assert(g[i] == g0[i + 1]);
                }
            }
            assert forall|i: int, j: int| 0 <= i < j < g.len() implies #[trigger] g[i] < #[trigger] g[j] by {
                let i0 = if i < p { i } else { i + 1 };
                let j0 = if j < p { j } else { j + 1 };
                assert(g[i] == g0[i0] && g[j] == g0[j0]);
                assert(g0[i0] < g0[j0]);
            }
            assert forall|u: int| 0 <= u < updates.len() && !g.contains(u) implies has_setting_line(cur.0, #[trigger] updates[u]) by {
                if g0.contains(u) {
                    let w = choose|w: int| 0 <= w < g0.len() && g0[w] == u;
                    if w != p {
                        let w2 = if w < p { w } else { w - 1 };
                        assert(g[w2] == u);
                        assert(false);
                    }
                }
            }
            g
        } else {
            g0
        }
    }
}

proof fn lemma_append_one_keeps(out: Seq<Seq<char>>, seen: Seq<Seq<char>>, entry: (Seq<char>, Seq<char>), other: (Seq<char>, Seq<char>))
    ensures
        has_setting_line(append_one(out, seen, entry).0, entry),
        has_setting_line(out, other) ==> has_setting_line(append_one(out, seen, entry).0, other),
{
    let sec = split_key(entry.0).0;
    let line = split_key(entry.0).1 + " = "@ + entry.1;
    let next = append_one(out, seen, entry).0;
    assert(line =~= setting_line(Seq::empty(), entry.0, entry.1));
    if sec.len() == 0 || !seen.contains(sec) {
        assert(next[next.len() - 1] == line);
        if has_setting_line(out, other) {
            let (j, ind) = choose|j: int, ind: Seq<char>| 0 <= j < out.len() && out[j] == setting_line(ind, other.0, other.1);
            assert(next[j] == out[j]);
        }
    } else {
        let h = find_header(out, "["@ + sec + "]"@, 0);
        let at = if h < 0 { out.len() as int } else { before_blank_lines(out, h + 1, section_end(out, h + 1)) };
        if h >= 0 {
            lemma_section_end(out, h + 1);
            lemma_before_blank_lines(out, h + 1, section_end(out, h + 1));
        }
        assert(next == out.insert(at, line));
        assert(next[at] == line);
        if has_setting_line(out, other) {
            let (j, ind) = choose|j: int, ind: Seq<char>| 0 <= j < out.len() && out[j] == setting_line(ind, other.0, other.1);
            let j2 = if j < at { j } else { j + 1 };
            assert(next[j2] == out[j]);
        }
    }
}

proof fn lemma_append_all_writes(
    out: Seq<Seq<char>>,
    seen: Seq<Seq<char>>,
    pending: Seq<(Seq<char>, Seq<char>)>,
    n: int,
    other: (Seq<char>, Seq<char>),
)
    requires
        0 <= n <= pending.len(),
    ensures
        has_setting_line(out, other) ==> has_setting_line(append_all(out, seen, pending, n).0, other),
        forall|k: int| 0 <= k < n ==> has_setting_line(append_all(out, seen, pending, n).0, #[trigger] pending[k]),
    decreases n,
{
    if n > 0 {
        lemma_append_all_writes(out, seen, pending, n - 1, other);
        let prev = append_all(out, seen, pending, n - 1);
        lemma_append_one_keeps(prev.0, prev.1, pending[n - 1], other);
        assert forall|k: int| 0 <= k < n implies has_setting_line(append_all(out, seen, pending, n).0, #[trigger] pending[k]) by {
            if k < n - 1 {
                lemma_append_all_writes(out, seen, pending, n - 1, pending[k]);
                lemma_append_one_keeps(prev.0, prev.1, pending[n - 1], pending[k]);
            }
        }
    }
}

/// Writing settings back writes every one of them: for each setting there
/// is a line `key = value` in the file (after some indentation), the key
/// being the last part of the setting's name.
pub proof fn lemma_patch_writes_settings(text: Seq<char>, updates: Seq<(Seq<char>, Seq<char>)>)
    ensures
        forall|u: int| 0 <= u < updates.len() ==> has_setting_line(patched_lines(text, updates), #[trigger] updates[u]),
{
    let ls = lines_of(text);
    let st = scan(ls, updates, ls.len() as int);
    let g = lemma_scan_writes(ls, updates, ls.len() as int);
    assert forall|u: int| 0 <= u < updates.len() implies has_setting_line(patched_lines(text, updates), #[trigger] updates[u]) by {
        lemma_append_all_writes(st.0, st.2, st.3, st.3.len() as int, updates[u]);
        if g.contains(u) {
            let w = choose|w: int| 0 <= w < g.len() && g[w] == u;
            assert(st.3[w] == updates[u]);
        }
    }
}

/// Whether `x` is among `rows`.
fn rows_contain(rows: &Vec<Vec<char>>, x: &Vec<char>) -> (r: bool)
    ensures
        r == char_rows(rows@).contains(x@),
{
    let mut i: usize = 0;
    while i < rows.len()
        invariant
            i <= rows.len(),
            forall|j: int| 0 <= j < i ==> rows@[j]@ != x@,
        decreases rows.len() - i,
    {
        if same(&rows[i], x) {
            assert(char_rows(rows@)[i as int] == x@);
            return true;
        }
        i = i + 1;
    }
    assert(!char_rows(rows@).contains(x@)) by {
        if char_rows(rows@).contains(x@) {
            let j = choose|j: int| 0 <= j < char_rows(rows@).len() && char_rows(rows@)[j] == x@;
            assert(rows@[j]@ == x@);
        }
    }
    false
}

/// The index of the first pending setting named `name`.
fn pending_index(pending: &Vec<(Vec<char>, Vec<char>)>, name: &Vec<char>) -> (r: Option<usize>)
    ensures
        match r {
            Some(p) => find_pending(pair_rows(pending@), name@) == p as int,
            None => find_pending(pair_rows(pending@), name@) == -1,
        },
{
    let ghost pr = pair_rows(pending@);
    proof {
        lemma_find_pending(pr, name@);
    }
    let mut i: usize = 0;
    while i < pending.len()
        invariant
            i <= pending.len(),
            pr == pair_rows(pending@),
            forall|j: int| 0 <= j < i ==> (#[trigger] pr[j]).0 != name@,
        decreases pending.len() - i,
    {
        assert(pr[i as int].0 == pending@[i as int].0@);
        if same(&pending[i].0, name) {
            proof {
                lemma_find_pending(pr, name@);
                let f = find_pending(pr, name@);
                if f >= 0 && f < i {
                    assert(pr[f].0 != name@);
                }
                if f < 0 || f > i {
                    assert(pr[i as int].0 == name@);
                }
            }
            return Some(i);
        }
        i = i + 1;
    }
    proof {
        lemma_find_pending(pr, name@);
        let f = find_pending(pr, name@);
        if f >= 0 {
            assert(pr[f].0 == name@);
        }
    }
    None
}

/// `section.key`, or the key alone.
fn full_key_of(section: &Vec<char>, key: &Vec<char>) -> (r: Vec<char>)
    ensures
        r@ == full_key(section@, key@),
{
    if section.len() == 0 {
        return copy_range(key, 0, key.len());
    }
    let mut r = copy_range(section, 0, section.len());
    r.push('.');
    push_all(&mut r, key);
    proof {
        reveal_strlit(".");
    }
    assert(r@ =~= section@ + "."@ + key@);
    assert(key@.subrange(0, key.len() as int) =~= key@);
    r
}

/// Whether the trimmed line is a section header.
fn header_line(v: &Vec<char>) -> (r: bool)
    ensures
        r == is_header(trim(v@)),
{
    let (a, b) = trim_bounds(v, 0, v.len());
    assert(v@.subrange(0, v.len() as int) =~= v@);
    let ghost t = v@.subrange(a as int, b as int);
    if b > a {
        assert(t[0] == v@[a as int] && t.last() == v@[b - 1]);
    }
    b > a && v[a] == '[' && v[b - 1] == ']'
}

/// Whether the trimmed line reads `h`.
fn trimmed_is(v: &Vec<char>, h: &Vec<char>) -> (r: bool)
    ensures
        r == (trim(v@) == h@),
{
    let (a, b) = trim_bounds(v, 0, v.len());
    assert(v@.subrange(0, v.len() as int) =~= v@);
    let t = copy_range(v, a, b);
    same(&t, h)
}

/// One line of the pass.
fn scan_line(
    line: &Vec<char>,
    out: &mut Vec<Vec<char>>,
    section: &mut Vec<char>,
    seen: &mut Vec<Vec<char>>,
    pending: &mut Vec<(Vec<char>, Vec<char>)>,
)
    ensures
        (char_rows(final(out)@), final(section)@, char_rows(final(seen)@), pair_rows(final(pending)@)) == scan_step(
            (char_rows(old(out)@), old(section)@, char_rows(old(seen)@), pair_rows(old(pending)@)),
            line@,
        ),
{
    let n = line.len();
    assert(line@.subrange(0, n as int) =~= line@);
    let (a, b) = trim_bounds(line, 0, n);
    let ghost t = line@.subrange(a as int, b as int);
    assert(t == trim(line@));
    let ghost rows = char_rows(out@);
    let whole = copy_range(line, 0, n);
    if b > a && line[a] == '[' && line[b - 1] == ']' {
        assert(is_header(t));
        let (c, d) = trim_bounds(line, a + 1, b - 1);
        assert(t.subrange(1, t.len() - 1) =~= line@.subrange(a + 1, b - 1));
        let name = copy_range(line, c, d);
        let name2 = copy_range(line, c, d);
        out.push(whole);
        *section = name;
        seen.push(name2);
        assert(char_rows(out@) =~= rows.push(line@));
        assert(char_rows(seen@) =~= char_rows(old(seen)@).push(header_name(t)));
        return;
    }
    assert(!is_header(t)) by {
        if b > a {
            assert(t[0] == line@[a as int] && t.last() == line@[b - 1]);
        }
    }
    let comment = b > a && line[a] == '#';
    assert(comment == (t.len() > 0 && t[0] == '#')) by {
        if b > a {
            assert(t[0] == line@[a as int]);
        }
    }
    if !comment {
        match key_in(line, a, b) {
            Some(k) => {
                let name = full_key_of(section, &k);
                match pending_index(pending, &name) {
                    Some(p) => {
                        proof {
                            lemma_find_pending(pair_rows(pending@), name@);
                        }
                        let r = skip_space(line, 0, n);
                        let mut text = copy_range(line, 0, r);
                        push_all(&mut text, &k);
                        push_all(&mut text, &chars_of(" = "));
                        let ghost pv = pair_rows(pending@)[p as int].1;
                        assert(pending@[p as int].1@ == pv);
                        push_all(&mut text, &pending[p].1);
                        let ghost pr = pair_rows(pending@);
                        let _ = pending.remove(p);
                        assert(pair_rows(pending@) =~= pr.remove(p as int));
                        assert(indent_of(line@) =~= line@.subrange(0, r as int));
                        assert(text@ == indent_of(line@) + k@ + " = "@ + pv);
                        out.push(text);
                        assert(char_rows(out@) =~= rows.push(indent_of(line@) + k@ + " = "@ + pv));
                        return;
                    },
                    None => {},
                }
            },
            None => {},
        }
    }
    out.push(whole);
    assert(char_rows(out@) =~= rows.push(line@));
}

/// The section and key of a setting's name, split at the last `.`.
fn split_name(name: &Vec<char>) -> (r: (Vec<char>, Vec<char>))
    ensures
        (r.0@, r.1@) == split_key(name@),
{
    let n = name.len();
    let mut j = n;
    assert(name@.take(n as int) =~= name@);
    while j > 0 && name[j - 1] != '.'
        invariant
            j <= n == name.len(),
            last_index_of(name@, '.') == last_index_of(name@.take(j as int), '.'),
        decreases j,
    {
        assert(name@.take(j as int).drop_last() =~= name@.take(j - 1));
        j = j - 1;
    }
    if j == 0 {
        assert(name@.take(0) =~= Seq::<char>::empty());
        (Vec::new(), copy_range(name, 0, n))
    } else {
        assert(name@.take(j as int).last() == '.');
        assert(name@.take(j - 1) =~= name@.subrange(0, j - 1));
        assert(name@.skip(j as int) =~= name@.subrange(j as int, n as int));
        (copy_range(name, 0, j - 1), copy_range(name, j, n))
    }
}

/// `[section]`.
fn header_of(sec: &Vec<char>) -> (r: Vec<char>)
    ensures
        r@ == "["@ + sec@ + "]"@,
{
    let mut r: Vec<char> = Vec::new();
    r.push('[');
    push_all(&mut r, sec);
    r.push(']');
    proof {
        reveal_strlit("[");
        reveal_strlit("]");
    }
    assert(r@ =~= "["@ + sec@ + "]"@);
    r
}

/// Add one setting that was not in the file.
fn append_entry(out: &mut Vec<Vec<char>>, seen: &mut Vec<Vec<char>>, name: &Vec<char>, text: &Vec<char>)
    ensures
        (char_rows(final(out)@), char_rows(final(seen)@)) == append_one(
            char_rows(old(out)@),
            char_rows(old(seen)@),
            (name@, text@),
        ),
{
    let (sec, key) = split_name(name);
    let mut line = key;
    push_all(&mut line, &chars_of(" = "));
    push_all(&mut line, text);
    let ghost rows = char_rows(out@);
    let ghost lv = line@;
    assert(lv == split_key(name@).1 + " = "@ + text@);
    if sec.len() == 0 {
        out.push(line);
        assert(char_rows(out@) =~= rows.push(lv));
        return;
    }
    if !rows_contain(seen, &sec) {
        if out.len() > 0 {
            let last = out.len() - 1;
            let (x, y) = trim_bounds(&out[last], 0, out[last].len());
            assert(out@[last as int]@.subrange(0, out@[last as int]@.len() as int) =~= out@[last as int]@);
            assert(rows.last() == out@[last as int]@);
            if y > x {
                out.push(Vec::new());
            }
        }
        let ghost spaced = char_rows(out@);
        assert(spaced == (if rows.len() > 0 && trim(rows.last()).len() > 0 {
            rows.push(Seq::empty())
        } else {
            rows
        }));
        let header = header_of(&sec);
        let ghost hv = header@;
        out.push(header);
        out.push(line);
        let ghost seen_rows = char_rows(seen@);
        seen.push(sec);
        assert(char_rows(out@) =~= spaced.push(hv).push(lv));
        assert(char_rows(seen@) =~= seen_rows.push(split_key(name@).0));
        return;
    }
    let header = header_of(&sec);
    let mut i: usize = 0;
    let mut found = false;
    while i < out.len() && !found
        invariant
            i <= out.len(),
            rows == char_rows(out@),
            find_header(rows, header@, 0) == find_header(rows, header@, i as int),
            found ==> i < out.len() && trim(rows[i as int]) == header@,
        decreases out.len() - i, if found { 0int } else { 1int },
    {
        if trimmed_is(&out[i], &header) {
            found = true;
        } else {
            i = i + 1;
        }
    }
    let mut at = out.len();
    if found {
        assert(find_header(rows, header@, 0) == i);
        at = i + 1;
        while at < out.len() && !header_line(&out[at])
            invariant
                i < at <= out.len(),
                rows == char_rows(out@),
                section_end(rows, i + 1) == section_end(rows, at as int),
            decreases out.len() - at,
        {
            at = at + 1;
        }
        assert(section_end(rows, at as int) == at);
        let ghost end = at as int;
        while at > i + 1 && blank_line(&out[at - 1])
            invariant
                i + 1 <= at <= end <= out.len(),
                rows == char_rows(out@),
                before_blank_lines(rows, i + 1, end) == before_blank_lines(rows, i + 1, at as int),
            decreases at,
        {
            at = at - 1;
        }
        assert(before_blank_lines(rows, i + 1, at as int) == at);
    } else {
        assert(i == out.len());
        assert(find_header(rows, header@, i as int) == -1);
    }
    out.insert(at, line);
    assert(char_rows(out@) =~= rows.insert(at as int, lv));
}

/// Whether a line is blank once trimmed.
fn blank_line(line: &Vec<char>) -> (r: bool)
    ensures
        r == (trim(line@).len() == 0),
{
    let (x, y) = trim_bounds(line, 0, line.len());
    assert(line@.subrange(0, line@.len() as int) =~= line@);
    y <= x
}

/// Write `updates` into the configuration text `text`, keeping comments
/// and order: the new file's text (ending in one newline).
pub fn patch_toml_text(text: &str, updates: &[(&str, Value)]) -> (r: String)
    ensures
        r@ == patched(text@, update_texts(updates@)),
{
    let v = chars_of(text);
    let lines = split_lines(&v);
    let mut pending: Vec<(Vec<char>, Vec<char>)> = Vec::new();
    let mut u: usize = 0;
    while u < updates.len()
        invariant
            u <= updates.len(),
            pair_rows(pending@) == update_texts(updates@).take(u as int),
        decreases updates.len() - u,
    {
        let name = chars_of(updates[u].0);
        let value = chars_of(updates[u].1.to_toml().as_str());
        let ghost before = pair_rows(pending@);
        pending.push((name, value));
        assert(update_texts(updates@)[u as int] == (updates@[u as int].0@, value_text(updates@[u as int].1)));
        assert(pair_rows(pending@) =~= before.push((name@, value@)));
        assert(update_texts(updates@).take(u + 1) =~= update_texts(updates@).take(u as int).push(update_texts(updates@)[u as int]));
        assert(pair_rows(pending@) =~= update_texts(updates@).take(u + 1));
        u = u + 1;
    }
    assert(update_texts(updates@).take(updates.len() as int) =~= update_texts(updates@));
    let ghost upd = update_texts(updates@);
    let ghost ls = lines_of(text@);
    let mut out: Vec<Vec<char>> = Vec::new();
    let mut section: Vec<char> = Vec::new();
    let mut seen: Vec<Vec<char>> = Vec::new();
    let mut i: usize = 0;
    assert(char_rows(out@) =~= Seq::<Seq<char>>::empty());
    assert(char_rows(seen@) =~= Seq::<Seq<char>>::empty());
    assert(section@ =~= Seq::<char>::empty());
    while i < lines.len()
        invariant
            i <= lines.len(),
            char_rows(lines@) == ls,
            (char_rows(out@), section@, char_rows(seen@), pair_rows(pending@)) == scan(ls, upd, i as int),
        decreases lines.len() - i,
    {
        scan_line(&lines[i], &mut out, &mut section, &mut seen, &mut pending);
        assert(ls[i as int] == lines@[i as int]@);
        i = i + 1;
    }
    let ghost st = scan(ls, upd, ls.len() as int);
    let ghost rest = st.3;
    let mut k: usize = 0;
    while k < pending.len()
        invariant
            k <= pending.len(),
            pair_rows(pending@) == rest,
            (char_rows(out@), char_rows(seen@)) == append_all(st.0, st.2, rest, k as int),
        decreases pending.len() - k,
    {
        append_entry(&mut out, &mut seen, &pending[k].0, &pending[k].1);
        assert(rest[k as int] == (pending@[k as int].0@, pending@[k as int].1@));
        k = k + 1;
    }
    let ghost fin = append_all(st.0, st.2, rest, rest.len() as int);
    let mut body: Vec<char> = Vec::new();
    let mut j: usize = 0;
    while j < out.len()
        invariant
            j <= out.len(),
            char_rows(out@) == fin.0,
            body@ == join_lines(fin.0.take(j as int)),
        decreases out.len() - j,
    {
        assert(fin.0.take(j + 1).drop_last() =~= fin.0.take(j as int));
        assert(fin.0.take(j + 1).last() == out@[j as int]@);
        if j > 0 {
            body.push('\n');
        } else {
            assert(fin.0.take(1)[0] == out@[0]@);
        }
        push_all(&mut body, &out[j]);
        assert(body@ =~= join_lines(fin.0.take(j + 1)));
        j = j + 1;
    }
    assert(fin.0.take(out.len() as int) =~= fin.0);
    let ghost joined = body@;
    while body.len() > 0 && body[body.len() - 1] == '\n'
        invariant
            trim_newlines(body@) == trim_newlines(joined),
        decreases body.len(),
    {
        let ghost before = body@;
        body.pop();
        assert(before.drop_last() =~= body@);
    }
    body.push('\n');
    string_of(&body)
}

} // verus!
