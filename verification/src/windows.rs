//! The decisions behind getting the overlay into the `ZBID_UIACCESS` window
//! band on Windows: which re-launch comes next, the command line it gets
//! (every argument kept, one marker at the end, quoted for
//! `CommandLineToArgvW`) and what the caller does afterwards. The Win32
//! calls themselves are made by the caller.

use vstd::prelude::*;
use crate::chars::{chars_of, lower_range, lower_seq, same, string_of};
use crate::timefmt::join_spaced;

verus! {

/// Set on the process started with administrator rights, so the bootstrap
/// knows how far it got.
pub const MARKER_ELEVATED: &'static str = "--as-elevated";

/// Set on the final instance, the one that actually owns the overlay.
pub const MARKER_UIA: &'static str = "--as-uia";

/// What the caller should do once the bootstrap has had its say.
#[derive(Debug, Clone, Copy, PartialEq, Eq, Structural)]
pub enum Outcome {
    /// Carry on and start the overlay in this process.
    Continue,
    /// A better-privileged instance was started; this one should exit quietly.
    HandedOver,
}

/// The next move of the bootstrap.
#[derive(Debug, Clone, Copy, PartialEq, Eq, Structural)]
pub enum Step {
    /// Nothing to do: start the overlay here.
    Continue,
    /// Ask for administrator rights by re-launching with [`MARKER_ELEVATED`].
    Escalate,
    /// Start the final instance with a UIAccess token and [`MARKER_UIA`].
    RelaunchWithUiAccess,
}

/// The two markers.
pub open spec fn internal_flag(a: Seq<char>) -> bool {
    a == "--as-elevated"@ || a == "--as-uia"@
}

/// Internal flags the argument parser has to tolerate. The bootstrap sets
/// them when it re-launches; a person never types them.
pub fn is_internal_flag(arg: &str) -> (r: bool)
    ensures
        r == internal_flag(arg@),
{
    let a = chars_of(arg);
    same(&a, &chars_of(MARKER_ELEVATED)) || same(&a, &chars_of(MARKER_UIA))
}

/// The arguments without the markers, in order.
pub open spec fn without_flags(args: Seq<Seq<char>>) -> Seq<Seq<char>>
    decreases args.len(),
{
    if args.len() == 0 {
        Seq::empty()
    } else {
        let rest = without_flags(args.drop_last());
        if internal_flag(args.last()) {
            rest
        } else {
            rest.push(args.last())
        }
    }
}

/// How many of the arguments are markers.
pub open spec fn flag_count(args: Seq<Seq<char>>) -> nat
    decreases args.len(),
{
    if args.len() == 0 {
        0
    } else {
        flag_count(args.drop_last()) + if internal_flag(args.last()) { 1nat } else { 0nat }
    }
}

/// What is left after removing the markers holds none.
pub proof fn lemma_no_flags_left(args: Seq<Seq<char>>)
    ensures
        flag_count(without_flags(args)) == 0,
    decreases args.len(),
{
    if args.len() > 0 {
        let rest = without_flags(args.drop_last());
        lemma_no_flags_left(args.drop_last());
        if !internal_flag(args.last()) {
            assert(rest.push(args.last()).drop_last() =~= rest);
        }
    }
}

pub open spec fn string_views(v: Seq<String>) -> Seq<Seq<char>> {
    v.map_values(|s: String| s@)
}

/// The command line for a re-launch: every argument we were given, minus
/// any marker already applied, plus the new one at the end. When `marker`
/// is one of the markers, the result holds exactly one, so a re-launch can
/// never chain into a loop.
pub fn child_args(args: &Vec<String>, marker: &str) -> (r: Vec<String>)
    ensures
        string_views(r@) == without_flags(string_views(args@)).push(marker@),
        flag_count(string_views(r@)) == if internal_flag(marker@) { 1nat } else { 0nat },
{
    let mut r: Vec<String> = Vec::new();
    let mut i: usize = 0;
    while i < args.len()
        invariant
            i <= args.len(),
            string_views(r@) == without_flags(string_views(args@).take(i as int)),
        decreases args.len() - i,
    {
        let keep = !is_internal_flag(args[i].as_str());
        let ghost before = string_views(r@);
        if keep {
            r.push(args[i].clone());
        }
        proof {
            let t = string_views(args@).take(i + 1);
            assert(t.drop_last() =~= string_views(args@).take(i as int));
            assert(t.last() == args@[i as int]@);
            assert(string_views(r@) =~= without_flags(t));
        }
        i = i + 1;
    }
    assert(string_views(args@).take(args.len() as int) =~= string_views(args@));
    let ghost kept = string_views(r@);
    r.push(marker.to_owned());
    proof {
        assert(string_views(r@) =~= kept.push(marker@));
        lemma_no_flags_left(string_views(args@));
        assert(string_views(r@).drop_last() =~= kept);
    }
    r
}

/// Whether `CommandLineToArgvW` needs the argument in quotes.
pub open spec fn needs_quotes(s: Seq<char>) -> bool {
    s.len() == 0 || s.contains(' ') || s.contains('\t') || s.contains('"')
}

/// The end of the run of backslashes starting at `i`.
pub open spec fn backslash_run_end(s: Seq<char>, i: int) -> int
    decreases s.len() - i,
{
    if 0 <= i < s.len() && s[i] == '\\' {
        backslash_run_end(s, i + 1)
    } else {
        i
    }
}

/// How character `i` is written inside the quotes: a quote gets a
/// backslash; a backslash is doubled when its run ends at a quote or at
/// the closing quote; anything else is itself.
pub open spec fn escaped_at(s: Seq<char>, i: int) -> Seq<char> {
    if s[i] == '"' {
        seq!['\\', '"']
    } else if s[i] == '\\' && (backslash_run_end(s, i) == s.len() || s[backslash_run_end(s, i)]
        == '"') {
        seq!['\\', '\\']
    } else {
        seq![s[i]]
    }
}

/// The first `n` characters, escaped.
pub open spec fn escaped(s: Seq<char>, n: int) -> Seq<char>
    decreases n,
{
    if n <= 0 {
        Seq::empty()
    } else {
        escaped(s, n - 1) + escaped_at(s, n - 1)
    }
}

/// One argument as `CommandLineToArgvW` reads it back.
pub open spec fn quoted(s: Seq<char>) -> Seq<char> {
    if !needs_quotes(s) {
        s
    } else {
        seq!['"'] + escaped(s, s.len() as int) + seq!['"']
    }
}

/// Quote one argument the way `CommandLineToArgvW` expects to read it back.
pub fn quote(arg: &str) -> (r: String)
    ensures
        r@ == quoted(arg@),
{
    let s = chars_of(arg);
    let n = s.len();
    let mut plain = n > 0;
    let mut k: usize = 0;
    while k < n
        invariant
            k <= n == s.len(),
            s@ == arg@,
            plain == (n > 0 && forall|j: int| 0 <= j < k ==> s@[j] != ' ' && s@[j] != '\t' && s@[j] != '"'),
        decreases n - k,
    {
        if s[k] == ' ' || s[k] == '\t' || s[k] == '"' {
            plain = false;
        }
        k = k + 1;
    }
    if plain {
        assert(!needs_quotes(arg@));
        return arg.to_owned();
    }
    assert(needs_quotes(arg@)) by {
        if n > 0 {
            let j = choose|j: int| 0 <= j < n && !(s@[j] != ' ' && s@[j] != '\t' && s@[j] != '"');
            assert(s@[j] == ' ' || s@[j] == '\t' || s@[j] == '"');
        }
    }
    let mut out: Vec<char> = Vec::new();
    out.push('"');
    let mut i: usize = 0;
    while i < n
        invariant
            i <= n == s.len(),
            s@ == arg@,
            out@ == seq!['"'] + escaped(s@, i as int),
        decreases n - i,
    {
        if s[i] == '\\' {
            let mut j = i;
            while j < n && s[j] == '\\'
                invariant
                    i <= j <= n == s.len(),
                    backslash_run_end(s@, i as int) == backslash_run_end(s@, j as int),
                    forall|q: int| i <= q < j ==> s@[q] == '\\',
                decreases n - j,
            {
                j = j + 1;
            }
            let doubled = j == n || s[j] == '"';
            let mut k = i;
            while k < j
                invariant
                    i <= k <= j <= n == s.len(),
                    backslash_run_end(s@, k as int) == j,
                    forall|q: int| i <= q < j ==> s@[q] == '\\',
                    doubled == (j == n || s@[j as int] == '"'),
                    out@ == seq!['"'] + escaped(s@, k as int),
                decreases j - k,
            {
                out.push('\\');
                if doubled {
                    out.push('\\');
                }
                assert(out@ =~= seq!['"'] + escaped(s@, k + 1));
                k = k + 1;
            }
            i = j;
        } else {
            if s[i] == '"' {
                out.push('\\');
            }
            out.push(s[i]);
            assert(out@ =~= seq!['"'] + escaped(s@, i + 1));
            i = i + 1;
        }
    }
    out.push('"');
    string_of(&out)
}

/// `n` backslashes.
pub open spec fn backslashes(n: int) -> Seq<char> {
    Seq::new(if n > 0 { n as nat } else { 0 }, |i: int| '\\')
}

pub proof fn lemma_run_end(s: Seq<char>, i: int)
    requires
        0 <= i <= s.len(),
    ensures
        i <= backslash_run_end(s, i) <= s.len(),
        forall|t: int| i <= t < backslash_run_end(s, i) ==> s[t] == '\\',
        backslash_run_end(s, i) == s.len() || s[backslash_run_end(s, i)] != '\\',
        forall|t: int| i <= t < backslash_run_end(s, i) ==> #[trigger] backslash_run_end(s, t) == backslash_run_end(s, i),
    decreases s.len() - i,
{
    if i < s.len() && s[i] == '\\' {
        lemma_run_end(s, i + 1);
    }
}

/// How `CommandLineToArgvW` reads one argument of `s` from index `i`
/// (`inq`: inside quotes): backslashes are literal unless a quote follows
/// them, in which case each pair gives one backslash and an odd one out
/// makes the quote literal; a bare quote opens or closes quoting; a space
/// or tab outside quotes ends the argument. The text read, where the
/// argument ends, and whether quoting was still open there.
pub open spec fn read_arg(s: Seq<char>, i: int, inq: bool) -> (Seq<char>, int, bool)
    decreases s.len() - i,
{
    if i < 0 || i >= s.len() {
        (Seq::empty(), s.len() as int, inq)
    } else if !inq && (s[i] == ' ' || s[i] == '\t') {
        (Seq::empty(), i, false)
    } else if s[i] == '\\' {
        let j = backslash_run_end(s, i);
        proof {
            lemma_run_end(s, i);
        }
        let n = j - i;
        if j < s.len() && s[j] == '"' {
            if n % 2 == 1 {
                let r = read_arg(s, j + 1, inq);
                (backslashes(n / 2) + seq!['"'] + r.0, r.1, r.2)
            } else {
                let r = read_arg(s, j + 1, !inq);
                (backslashes(n / 2) + r.0, r.1, r.2)
            }
        } else {
            let r = read_arg(s, j, inq);
            (backslashes(n) + r.0, r.1, r.2)
        }
    } else if s[i] == '"' {
        read_arg(s, i + 1, !inq)
    } else {
        let r = read_arg(s, i + 1, inq);
        (seq![s[i]] + r.0, r.1, r.2)
    }
}

proof fn lemma_plain_reads(s: Seq<char>, k: int)
    requires
        0 <= k <= s.len(),
        !s.contains(' ') && !s.contains('\t') && !s.contains('"'),
    ensures
        read_arg(s, k, false) == (s.skip(k), s.len() as int, false),
    decreases s.len() - k,
{
    if k < s.len() {
        assert(s[k] != ' ' && s[k] != '\t' && s[k] != '"');
        if s[k] == '\\' {
            let j = backslash_run_end(s, k);
            lemma_run_end(s, k);
            lemma_plain_reads(s, j);
            if j < s.len() {
                assert(s[j] != '"');
            }
            assert(s.skip(k) =~= backslashes(j - k) + s.skip(j));
        } else {
            lemma_plain_reads(s, k + 1);
            assert(s.skip(k) =~= seq![s[k]] + s.skip(k + 1));
        }
    } else {
        assert(s.skip(k) =~= Seq::<char>::empty());
    }
}

proof fn lemma_escaped_prefix(s: Seq<char>, k: int, n: int)
    requires
        0 <= k <= n,
    ensures
        escaped(s, n).len() >= escaped(s, k).len(),
        escaped(s, n).take(escaped(s, k).len() as int) == escaped(s, k),
    decreases n - k,
{
    if n > k {
        lemma_escaped_prefix(s, k, n - 1);
        assert(escaped(s, n).take(escaped(s, n - 1).len() as int) =~= escaped(s, n - 1));
        assert(escaped(s, n).take(escaped(s, k).len() as int) =~= escaped(s, n - 1).take(escaped(s, k).len() as int));
    }
}

/// Where the text of character `k` starts inside the quotes.
pub open spec fn quoted_pos(s: Seq<char>, k: int) -> int {
    1 + escaped(s, k).len() as int
}

proof fn lemma_quoted_at(s: Seq<char>, k: int, t: int)
    requires
        needs_quotes(s),
        0 <= k < s.len(),
        0 <= t < escaped_at(s, k).len(),
    ensures
        quoted_pos(s, k + 1) == quoted_pos(s, k) + escaped_at(s, k).len(),
        quoted(s)[quoted_pos(s, k) + t] == escaped_at(s, k)[t],
        quoted_pos(s, k + 1) <= quoted_pos(s, s.len() as int),
{
    let e = escaped(s, s.len() as int);
    lemma_escaped_prefix(s, k + 1, s.len() as int);
    let a = escaped(s, k).len() as int;
    assert(escaped(s, k + 1) == escaped(s, k) + escaped_at(s, k));
    assert(e[a + t] == e.take(escaped(s, k + 1).len() as int)[a + t]);
    assert(quoted(s) == seq!['"'] + e + seq!['"']);
    assert(quoted(s)[1 + a + t] == e[a + t]);
}

proof fn lemma_quoted_end(s: Seq<char>)
    requires
        needs_quotes(s),
    ensures
        quoted(s).len() == quoted_pos(s, s.len() as int) + 1,
        quoted(s)[quoted_pos(s, s.len() as int)] == '"',
        quoted(s)[0] == '"',
{
}

proof fn lemma_q_run(q: Seq<char>, a: int, b: int)
    requires
        0 <= a <= b <= q.len(),
        forall|t: int| a <= t < b ==> q[t] == '\\',
        b == q.len() || q[b] != '\\',
    ensures
        backslash_run_end(q, a) == b,
    decreases b - a,
{
    if a < b {
        lemma_q_run(q, a + 1, b);
    }
}

/// The backslashes of a run of `s` from `k`, written inside quotes: each
/// doubled or each kept, up to the end of the run.
proof fn lemma_quoted_run(s: Seq<char>, k: int, t: int)
    requires
        needs_quotes(s),
        0 <= k <= t <= backslash_run_end(s, k),
        k < s.len(),
        s[k] == '\\',
    ensures
        ({
            let j = backslash_run_end(s, k);
            let w: int = if j == s.len() || s[j] == '"' { 2 } else { 1 };
            &&& quoted_pos(s, t) == quoted_pos(s, k) + w * (t - k)
            &&& forall|p: int| quoted_pos(s, k) <= p < quoted_pos(s, t) ==> quoted(s)[p] == '\\'
        }),
    decreases t - k,
{
    lemma_run_end(s, k);
    let j = backslash_run_end(s, k);
    let w: int = if j == s.len() || s[j] == '"' { 2 } else { 1 };
    if t > k {
        lemma_quoted_run(s, k, t - 1);
        let u = t - 1;
        assert(s[u] == '\\');
        assert(backslash_run_end(s, u) == j);
        assert(escaped_at(s, u).len() == w);
        assert forall|p: int| quoted_pos(s, k) <= p < quoted_pos(s, t) implies quoted(s)[p] == '\\' by {
            if p >= quoted_pos(s, u) {
                lemma_quoted_at(s, u, p - quoted_pos(s, u));
            }
        }
        lemma_quoted_at(s, u, 0);
    }
}

proof fn lemma_quoted_reads(s: Seq<char>, k: int)
    requires
        needs_quotes(s),
        0 <= k <= s.len(),
    ensures
        read_arg(quoted(s), quoted_pos(s, k), true) == (s.skip(k), quoted(s).len() as int, false),
    decreases s.len() - k,
{
    let q = quoted(s);
    let pk = quoted_pos(s, k);
    lemma_quoted_end(s);
    if k == s.len() {
        assert(read_arg(q, pk + 1, false) == (Seq::<char>::empty(), q.len() as int, false));
        assert(s.skip(k) =~= Seq::<char>::empty());
    } else {
        lemma_escaped_prefix(s, k, s.len() as int);
        let c = s[k];
        if c == '"' {
            lemma_quoted_at(s, k, 0);
            lemma_quoted_at(s, k, 1);
            lemma_q_run(q, pk, pk + 1);
            lemma_quoted_reads(s, k + 1);
            assert(backslashes(0) =~= Seq::<char>::empty());
            assert(s.skip(k) =~= seq!['"'] + s.skip(k + 1));
        } else if c == '\\' {
            lemma_run_end(s, k);
            let j = backslash_run_end(s, k);
            let m = j - k;
            lemma_quoted_run(s, k, j);
            let pj = quoted_pos(s, j);
            if j == s.len() {
                lemma_q_run(q, pk, pj);
                assert(read_arg(q, pj + 1, false) == (Seq::<char>::empty(), q.len() as int, false));
                assert((2 * m) / 2 == m);
                assert(s.skip(k) =~= backslashes(m));
                assert(backslashes(m) + Seq::<char>::empty() =~= backslashes(m));
            } else if s[j] == '"' {
                lemma_quoted_at(s, j, 0);
                lemma_quoted_at(s, j, 1);
                assert forall|p: int| pk <= p < pj + 1 implies q[p] == '\\' by {
                    if p == pj {
                        assert(escaped_at(s, j)[0] == '\\');
                    }
                }
                lemma_q_run(q, pk, pj + 1);
                assert((2 * m + 1) % 2 == 1);
                assert((2 * m + 1) / 2 == m);
                lemma_quoted_reads(s, j + 1);
                assert(s.skip(k) =~= backslashes(m) + seq!['"'] + s.skip(j + 1));
            } else {
                lemma_quoted_at(s, j, 0);
                assert(escaped_at(s, j) == seq![s[j]]);
                lemma_q_run(q, pk, pj);
                lemma_quoted_reads(s, j);
                assert(s.skip(k) =~= backslashes(m) + s.skip(j));
            }
        } else {
            lemma_quoted_at(s, k, 0);
            assert(escaped_at(s, k) == seq![c]);
            lemma_quoted_reads(s, k + 1);
            assert(s.skip(k) =~= seq![c] + s.skip(k + 1));
        }
    }
}

/// What [`quote`] writes reads back: `CommandLineToArgvW` takes the whole
/// quoted text as one argument and gets the original back, whatever
/// spaces, tabs, quotes and backslashes it holds.
pub proof fn lemma_quote_reads_back(s: Seq<char>)
    ensures
        read_arg(quoted(s), 0, false) == (s, quoted(s).len() as int, false),
{
    if needs_quotes(s) {
        lemma_quoted_end(s);
        lemma_quoted_reads(s, 0);
        assert(quoted_pos(s, 0) == 1);
        assert(s.skip(0) =~= s);
    } else {
        lemma_plain_reads(s, 0);
        assert(s.skip(0) =~= s);
    }
}

/// The arguments joined by single spaces, each quoted.
pub open spec fn command_line_text(args: Seq<Seq<char>>) -> Seq<char> {
    join_spaced(args.map_values(|a: Seq<char>| quoted(a)))
}

proof fn lemma_run_end_extends(p: Seq<char>, x: Seq<char>, i: int)
    requires
        0 <= i <= p.len(),
        x.len() > 0,
        x[0] != '\\',
    ensures
        backslash_run_end(p + x, i) == backslash_run_end(p, i),
    decreases p.len() - i,
{
    if i < p.len() && p[i] == '\\' {
        lemma_run_end_extends(p, x, i + 1);
    }
}

/// An argument read to the end of `p` with quoting closed reads the same
/// when a space or tab follows `p`.
proof fn lemma_read_arg_extends(p: Seq<char>, x: Seq<char>, i: int, inq: bool)
    requires
        0 <= i <= p.len(),
        x.len() > 0,
        x[0] == ' ' || x[0] == '\t',
        read_arg(p, i, inq).1 == p.len(),
        !read_arg(p, i, inq).2,
    ensures
        read_arg(p + x, i, inq) == read_arg(p, i, inq),
    decreases p.len() - i,
{
    let s = p + x;
    if i == p.len() {
        assert(s[i] == x[0]);
    } else if !inq && (p[i] == ' ' || p[i] == '\t') {
    } else if p[i] == '\\' {
        lemma_run_end(p, i);
        lemma_run_end_extends(p, x, i);
        let j = backslash_run_end(p, i);
        if j < p.len() && p[j] == '"' {
            let n = j - i;
            if n % 2 == 1 {
                lemma_read_arg_extends(p, x, j + 1, inq);
            } else {
                lemma_read_arg_extends(p, x, j + 1, !inq);
            }
        } else {
            if j == p.len() {
                assert(s[j] == x[0]);
            }
            lemma_read_arg_extends(p, x, j, inq);
        }
    } else if p[i] == '"' {
        lemma_read_arg_extends(p, x, i + 1, !inq);
    } else {
        lemma_read_arg_extends(p, x, i + 1, inq);
    }
}

/// How `CommandLineToArgvW` splits the arguments after the program's name:
/// spaces and tabs between arguments are skipped, and each argument is read
/// by [`read_arg`].
pub open spec fn split_args(s: Seq<char>) -> Seq<Seq<char>>
    decreases s.len(),
{
    if s.len() == 0 {
        Seq::empty()
    } else if s[0] == ' ' || s[0] == '\t' {
        split_args(s.drop_first())
    } else {
        let r = read_arg(s, 0, false);
        if r.1 <= 0 || r.1 > s.len() {
            Seq::empty()
        } else {
            seq![r.0] + split_args(s.skip(r.1))
        }
    }
}

proof fn lemma_join_front(parts: Seq<Seq<char>>)
    requires
        parts.len() >= 2,
    ensures
        join_spaced(parts) == parts[0] + seq![' '] + join_spaced(parts.drop_first()),
    decreases parts.len(),
{
    let d = parts.drop_first();
    if parts.len() > 2 {
        lemma_join_front(parts.drop_last());
        assert(parts.drop_last().drop_first() =~= d.drop_last());
        assert(d.last() == parts.last());
        assert(parts.drop_last()[0] == parts[0]);
        assert(join_spaced(d) == join_spaced(d.drop_last()) + seq![' '] + d.last());
        assert(join_spaced(parts) == join_spaced(parts.drop_last()) + seq![' '] + parts.last());
        assert(join_spaced(parts) =~= parts[0] + seq![' '] + join_spaced(d));
    } else {
        assert(parts.drop_last().len() == 1);
        assert(d.len() == 1);
        assert(join_spaced(parts.drop_last()) == parts[0]);
        assert(join_spaced(d) == parts[1]);
        assert(join_spaced(parts) == join_spaced(parts.drop_last()) + seq![' '] + parts.last());
    }
}

proof fn lemma_quoted_starts(a: Seq<char>)
    ensures
        quoted(a).len() > 0,
        quoted(a)[0] != ' ' && quoted(a)[0] != '\t',
{
    if !needs_quotes(a) {
        assert(a.len() > 0);
        if a[0] == ' ' || a[0] == '\t' {
            assert(a.contains(a[0]));
        }
    }
}

/// The command line reads back as the arguments: `CommandLineToArgvW`
/// splits the arguments, each [`quoted`] and joined by single spaces, into
/// exactly those arguments, empty ones included.
pub proof fn lemma_command_line_splits_back(args: Seq<Seq<char>>)
    ensures
        split_args(command_line_text(args)) == args,
    decreases args.len(),
{
    let qs = args.map_values(|a: Seq<char>| quoted(a));
    if args.len() == 0 {
        assert(command_line_text(args) =~= Seq::<char>::empty());
        assert(split_args(Seq::<char>::empty()) =~= Seq::<Seq<char>>::empty());
    } else {
        let a = args[0];
        let q = quoted(a);
        lemma_quote_reads_back(a);
        lemma_quoted_starts(a);
        let rest = args.drop_first();
        if args.len() == 1 {
            assert(command_line_text(args) == q);
            assert(q.skip(q.len() as int) =~= Seq::<char>::empty());
            assert(split_args(Seq::<char>::empty()) =~= Seq::<Seq<char>>::empty());
            assert(split_args(q) == seq![a] + split_args(q.skip(q.len() as int)));
            assert(seq![a] + Seq::<Seq<char>>::empty() =~= args);
        } else {
            lemma_join_front(qs);
            assert(qs.drop_first() =~= rest.map_values(|a: Seq<char>| quoted(a)));
            let t = command_line_text(rest);
            let s = command_line_text(args);
            assert(s == q + seq![' '] + t);
            let x = seq![' '] + t;
            assert(s =~= q + x);
            lemma_read_arg_extends(q, x, 0, false);
            assert(s[0] == q[0]);
            assert(s.skip(q.len() as int) =~= x);
            assert(x.drop_first() =~= t);
            assert(x[0] == ' ');
            assert(split_args(x) == split_args(x.drop_first()));
            assert(read_arg(s, 0, false) == (a, q.len() as int, false));
            assert(split_args(s) == seq![a] + split_args(s.skip(q.len() as int)));
            lemma_command_line_splits_back(rest);
            assert(seq![a] + rest =~= args);
        }
    }
}

/// The command line a re-launch runs with: [`child_args`], quoted and
/// joined.
pub fn child_command_line(args: &Vec<String>, marker: &str) -> (r: String)
    ensures
        r@ == command_line_text(without_flags(string_views(args@)).push(marker@)),
{
    let child = child_args(args, marker);
    let mut out: Vec<char> = Vec::new();
    let mut i: usize = 0;
    let ghost parts = string_views(child@).map_values(|a: Seq<char>| quoted(a));
    while i < child.len()
        invariant
            i <= child.len(),
            parts == string_views(child@).map_values(|a: Seq<char>| quoted(a)),
            out@ == join_spaced(parts.take(i as int)),
        decreases child.len() - i,
    {
        let q = chars_of(quote(child[i].as_str()).as_str());
        assert(parts.take(i + 1).drop_last() =~= parts.take(i as int));
        if i > 0 {
            out.push(' ');
        } else {
            assert(out@ =~= Seq::<char>::empty());
        }
        let ghost before = out@;
        let mut k: usize = 0;
        while k < q.len()
            invariant
                k <= q.len(),
                out@ == before + q@.take(k as int),
            decreases q.len() - k,
        {
            out.push(q[k]);
            k = k + 1;
            assert(out@ =~= before + q@.take(k as int));
        }
        assert(q@.take(q.len() as int) =~= q@);
        assert(parts.take(i + 1).last() == quoted(child@[i as int]@));
        assert(out@ =~= join_spaced(parts.take(i + 1)));
        i = i + 1;
    }
    assert(parts.take(child.len() as int) =~= parts);
    string_of(&out)
}

/// Climb towards UIAccess: what to do next, given whether the feature is
/// wanted, the arguments this process got, and what this process holds.
///
/// The instance started with the UIAccess token is the finished article;
/// one launched holding UIAccess already has nothing left to do; one
/// without administrator rights (and not started for them) asks for them;
/// one with them starts the final instance.
pub fn bootstrap(wanted: bool, args: &Vec<String>, has_ui_access: bool, is_elevated: bool) -> (r: Step)
    ensures
        r == if !wanted || string_views(args@).contains("--as-uia"@) || has_ui_access {
            Step::Continue
        } else if !string_views(args@).contains("--as-elevated"@) && !is_elevated {
            Step::Escalate
        } else {
            Step::RelaunchWithUiAccess
        },
{
    if !wanted {
        return Step::Continue;
    }
    let uia = chars_of(MARKER_UIA);
    let elevated = chars_of(MARKER_ELEVATED);
    let mut has_uia_marker = false;
    let mut already_elevated = false;
    let mut i: usize = 0;
    while i < args.len()
        invariant
            i <= args.len(),
            uia@ == "--as-uia"@,
            elevated@ == "--as-elevated"@,
            has_uia_marker == string_views(args@).take(i as int).contains("--as-uia"@),
            already_elevated == string_views(args@).take(i as int).contains("--as-elevated"@),
        decreases args.len() - i,
    {
        let a = chars_of(args[i].as_str());
        let ghost t = string_views(args@).take(i + 1);
        assert(t =~= string_views(args@).take(i as int).push(args@[i as int]@));
        if same(&a, &uia) {
            has_uia_marker = true;
            assert(t[i as int] == "--as-uia"@);
        }
        if same(&a, &elevated) {
            already_elevated = true;
            assert(t[i as int] == "--as-elevated"@);
        }
        i = i + 1;
    }
    assert(string_views(args@).take(args.len() as int) =~= string_views(args@));
    if has_uia_marker || has_ui_access {
        Step::Continue
    } else if !already_elevated && !is_elevated {
        Step::Escalate
    } else {
        Step::RelaunchWithUiAccess
    }
}

impl Step {
    /// What the caller does after carrying the step out: a re-launch that
    /// happened hands over, one that failed leaves a normally-working
    /// overlay running here.
    pub fn outcome(self, launched: bool) -> (r: Outcome)
        ensures
            r == if self != Step::Continue && launched {
                Outcome::HandedOver
            } else {
                Outcome::Continue
            },
    {
        match self {
            Step::Continue => Outcome::Continue,
            _ => if launched {
                Outcome::HandedOver
            } else {
                Outcome::Continue
            },
        }
    }
}

/// Whether a process's executable is `winlogon.exe`, in any ASCII case.
pub open spec fn is_winlogon(name: Seq<char>) -> bool {
    lower_seq(name) == "winlogon.exe"@
}

/// The first process (executable name, process id, session id) that is
/// `winlogon.exe` in `session`: a SYSTEM process whose token can be copied
/// for the final instance.
pub fn pick_winlogon(processes: &Vec<(String, u32, u32)>, session: u32) -> (r: Option<u32>)
    ensures
        r matches Some(pid) ==> exists|i: int|
            0 <= i < processes.len() && (#[trigger] processes@[i]).1 == pid && is_winlogon(processes@[i].0@)
                && processes@[i].2 == session && forall|j: int|
                0 <= j < i ==> !(is_winlogon((#[trigger] processes@[j]).0@) && processes@[j].2 == session),
        r is None ==> forall|i: int|
            0 <= i < processes.len() ==> !(is_winlogon((#[trigger] processes@[i]).0@) && processes@[i].2 == session),
{
    let wanted = chars_of("winlogon.exe");
    let mut i: usize = 0;
    while i < processes.len()
        invariant
            i <= processes.len(),
            wanted@ == "winlogon.exe"@,
            forall|j: int| 0 <= j < i ==> !(is_winlogon((#[trigger] processes@[j]).0@) && processes@[j].2 == session),
        decreases processes.len() - i,
    {
        let name = chars_of(processes[i].0.as_str());
        let lowered = lower_range(&name, 0, name.len());
        assert(name@.subrange(0, name.len() as int) =~= name@);
        if same(&lowered, &wanted) && processes[i].2 == session {
            return Some(processes[i].1);
        }
        i = i + 1;
    }
    None
}

} // verus!
