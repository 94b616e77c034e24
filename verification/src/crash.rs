//! Last-resort crash reporting: where the report goes and what it says.
//!
//! A shipped build aborts on panic and a launch from Finder or Explorer
//! discards stderr, so the panic hook writes this report beside the
//! configuration file, where it can be found. Installing the hook and
//! writing the file are the caller's part.

use vstd::prelude::*;
use crate::chars::{chars_of, debug_quoted, decimal, push_all, push_decimal, quote_debug, string_of};
use crate::moment::{formatted, Moment};
use crate::timefmt::datetime_of;

verus! {

/// Name of the report inside the per-user config directory.
pub const REPORT_NAME: &'static str = "crash.log";

/// `dir` joined with `name` the way `Path::join` joins a relative name: a
/// separator goes between them unless `dir` is empty or already ends in
/// one of `separators` (the first of which is the one written).
pub open spec fn joined(dir: Seq<char>, separators: Seq<char>, name: Seq<char>) -> Seq<char> {
    if dir.len() == 0 || separators.contains(dir.last()) {
        dir + name
    } else {
        dir + seq![separators[0]] + name
    }
}

/// Where the report is written: [`REPORT_NAME`] in the per-user
/// configuration directory, when there is one, so it sits beside the
/// configuration. `separators` are the platform's path separators, the
/// preferred one first.
pub fn report_path(config_dir: Option<String>, separators: &str) -> (r: Option<String>)
    requires
        separators@.len() >= 1,
    ensures
        match config_dir {
            Some(d) => r matches Some(p) && p@ == joined(d@, separators@, REPORT_NAME@),
            None => r is None,
        },
{
    match config_dir {
        Some(dir) => {
            let d = chars_of(dir.as_str());
            let seps = chars_of(separators);
            let mut out = d.clone();
            assert(out@ =~= d@);
            if d.len() > 0 {
                let last = d[d.len() - 1];
                let mut ends = false;
                let mut i: usize = 0;
                while i < seps.len()
                    invariant
                        i <= seps.len(),
                        ends == seps@.take(i as int).contains(last),
                    decreases seps.len() - i,
                {
                    let ghost prev = seps@.take(i as int);
                    let ghost next = seps@.take(i + 1);
                    assert(next =~= prev.push(seps@[i as int]));
                    if ends {
                        let ghost k = choose|k: int| 0 <= k < prev.len() && prev[k] == last;
                        assert(next[k] == last);
                    }
                    if seps[i] == last {
                        ends = true;
                        assert(next[i as int] == last);
                    } else if !ends {
                        assert forall|k: int| 0 <= k < next.len() implies next[k] != last by {
                            if k < i {
                                assert(next[k] == prev[k]);
                                if next[k] == last {
                                    assert(prev.contains(last));
                                }
                            }
                        }
                    }
                    i = i + 1;
                }
                assert(seps@.take(seps.len() as int) =~= seps@);
                if !ends {
                    out.push(seps[0]);
                }
            }
            push_all(&mut out, &chars_of(REPORT_NAME));
            Some(string_of(&out))
        },
        None => None,
    }
}

/// Where a panic happened: file, line, column.
pub struct PanicPlace {
    pub file: String,
    pub line: u32,
    pub column: u32,
}

/// `{:?}` of a list of strings: each quoted and escaped, `, `-separated,
/// in brackets.
pub open spec fn debug_list(items: Seq<Seq<char>>) -> Seq<char> {
    "["@ + debug_items(items) + "]"@
}

pub open spec fn debug_items(items: Seq<Seq<char>>) -> Seq<char>
    decreases items.len(),
{
    if items.len() == 0 {
        Seq::empty()
    } else if items.len() == 1 {
        debug_quoted(items[0])
    } else {
        debug_items(items.drop_last()) + ", "@ + debug_quoted(items.last())
    }
}

/// `file:line:column`, or `unknown location`.
pub open spec fn place_text(place: Option<PanicPlace>) -> Seq<char> {
    match place {
        Some(p) => p.file@ + ":"@ + decimal(p.line as nat) + ":"@ + decimal(p.column as nat),
        None => "unknown location"@,
    }
}

/// The text of a crash report.
pub open spec fn report_text(
    version: Seq<char>,
    moment: Moment,
    place: Option<PanicPlace>,
    payload: Seq<char>,
    os: Seq<char>,
    arch: Seq<char>,
    exe: Option<Seq<char>>,
    args: Seq<Seq<char>>,
) -> Seq<char> {
    "--- float-clock "@ + version + " panic ---\n"@
        + "when    : "@ + formatted(moment.millis as int, "%Y-%m-%d %H:%M:%S"@) + "\n"@
        + "where   : "@ + place_text(place) + "\n"@
        + "message : "@ + payload + "\n"@
        + "platform: "@ + os + " "@ + arch + "\n"@
        + (match exe {
            Some(e) => "exe     : "@ + e + "\n"@,
            None => Seq::empty(),
        })
        + "args    : "@ + debug_list(args) + "\n"@
        + "\n"@
}

fn append(out: &mut Vec<char>, s: &str)
    ensures
        final(out)@ == old(out)@ + s@,
{
    push_all(out, &chars_of(s));
}

/// The crash report for a panic with message `payload` at `place`.
pub fn format_report(
    version: &str,
    moment: Moment,
    place: Option<PanicPlace>,
    payload: &str,
    os: &str,
    arch: &str,
    exe: Option<String>,
    args: &Vec<String>,
) -> (r: String)
    requires
        moment.wf(),
    ensures
        r@ == report_text(
            version@,
            moment,
            place,
            payload@,
            os@,
            arch@,
            match exe {
                Some(e) => Some(e@),
                None => None,
            },
            args@.map_values(|a: String| a@),
        ),
{
    let ghost place0 = place;
    let mut out: Vec<char> = Vec::new();
    append(&mut out, "--- float-clock ");
    append(&mut out, version);
    append(&mut out, " panic ---\n");
    append(&mut out, "when    : ");
    append(&mut out, datetime_of(moment).as_str());
    append(&mut out, "\n");
    append(&mut out, "where   : ");
    let ghost before_place = out@;
    match place {
        Some(p) => {
            append(&mut out, p.file.as_str());
            append(&mut out, ":");
            push_decimal(&mut out, p.line as u64);
            append(&mut out, ":");
            push_decimal(&mut out, p.column as u64);
        },
        None => {
            append(&mut out, "unknown location");
        },
    }
    assert(out@ =~= before_place + place_text(place0));
    append(&mut out, "\n");
    append(&mut out, "message : ");
    append(&mut out, payload);
    append(&mut out, "\n");
    append(&mut out, "platform: ");
    append(&mut out, os);
    append(&mut out, " ");
    append(&mut out, arch);
    append(&mut out, "\n");
    let ghost before_exe = out@;
    let ghost exe_view = match &exe {
        Some(e) => Some(e@),
        None => None::<Seq<char>>,
    };
    match &exe {
        Some(e) => {
            append(&mut out, "exe     : ");
            append(&mut out, e.as_str());
            append(&mut out, "\n");
        },
        None => {},
    }
    assert(out@ =~= before_exe + (match exe_view {
        Some(e) => "exe     : "@ + e + "\n"@,
        None => Seq::<char>::empty(),
    }));
    append(&mut out, "args    : ");
    let ghost items = args@.map_values(|a: String| a@);
    let ghost before_list = out@;
    out.push('[');
    let mut i: usize = 0;
    while i < args.len()
        invariant
            i <= args.len(),
            items == args@.map_values(|a: String| a@),
            out@ == before_list + seq!['['] + debug_items(items.take(i as int)),
        decreases args.len() - i,
    {
        assert(items.take(i + 1).drop_last() =~= items.take(i as int));
        assert(items.take(i + 1).last() == args@[i as int]@);
        if i > 0 {
            append(&mut out, ", ");
        } else {
            assert(items.take(1)[0] == args@[0]@);
        }
        let q = quote_debug(&chars_of(args[i].as_str()));
        push_all(&mut out, &q);
        assert(out@ =~= before_list + seq!['['] + debug_items(items.take(i + 1)));
        i = i + 1;
    }
    assert(items.take(args.len() as int) =~= items);
    out.push(']');
    proof {
        reveal_strlit("[");
        reveal_strlit("]");
    }
    assert(out@ =~= before_list + debug_list(items));
    append(&mut out, "\n");
    append(&mut out, "\n");
    string_of(&out)
}

} // verus!
