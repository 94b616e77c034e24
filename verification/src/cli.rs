//! The command line: flags, `--opt value` and `--opt=value`, and the usage
//! text. Turning numbers into floating point and acting on the flags is the
//! caller's part.

use vstd::prelude::*;
use crate::chars::{chars_of, push_all, same, string_of};
use crate::windows::{internal_flag, is_internal_flag};

verus! {

pub const USAGE: &'static str = "\
float-clock - a borderless, transparent T+/- countdown overlay

USAGE:
    float-clock [OPTIONS]

OPTIONS:
    --config <PATH>        use this config file (default: see --config-path)
    --config-path          print the config file that would be used, then exit
    --init-config          write a default config file, then exit
    --force                with --init-config, overwrite an existing file
    --target <WHEN>        override [time] target for this run
    --offset <DURATION>    override [time] offset for this run
    --settings             open the settings window on startup
    --print                print the current state and the upcoming reminders, then exit
    --render-png <PATH>    render the overlay to a PNG, then exit (no window)
    --scale <FACTOR>       with --render-png, the render scale (default 2)
    --now <WHEN>           with --print / --render-png, pretend it is this time
    --diagnose             print environment and render diagnostics, then exit
    --test-notify          send one test notification, then exit
    --no-transparent       force an opaque background (troubleshooting)
    --probe <SECONDS>      read the real pixels back from the GPU after N seconds
                           and print a report (troubleshooting)
    --probe-png <PATH>     with --probe, write the read-back pixels to this PNG
    -h, --help             show this help
    -V, --version          show the version

INTERACTION:
    drag with the left mouse button  ·  right-click locks / unlocks
    (solid frame = locked, dashed = draggable)
    double-click opens the settings window
    Cmd/Ctrl+L lock  ·  Cmd/Ctrl+, settings  ·  Cmd/Ctrl+R reload config
    Cmd/Ctrl+H hide or show  ·  Cmd/Ctrl+Q quit

Both moments get a system notification as they approach: T is the target time
you configure, M is T plus the offset, and the main title counts down to M while
the subtitle counts since T. See config.example.toml for every setting.
";

/// The options of one run, as given. `scale` and `probe` hold the number
/// as written.
#[derive(Debug)]
pub struct Args {
    pub config: Option<String>,
    pub config_path: bool,
    pub init_config: bool,
    pub force: bool,
    pub target: Option<String>,
    pub offset: Option<String>,
    pub print: bool,
    pub render_png: Option<String>,
    pub scale: Option<String>,
    pub now: Option<String>,
    pub diagnose: bool,
    pub test_notify: bool,
    pub settings: bool,
    pub no_transparent: bool,
    pub probe: Option<String>,
    pub probe_png: Option<String>,
}

/// What the command line asks for.
#[derive(Debug)]
pub enum Command {
    /// `-h` / `--help`: print [`USAGE`] and exit.
    Help,
    /// `-V` / `--version`: print the version and exit.
    Version,
    Run(Args),
}

/// The slot of a flag taking a value, or -1.
pub open spec fn value_slot(flag: Seq<char>) -> int {
    if flag == "--config"@ {
        0
    } else if flag == "--target"@ {
        1
    } else if flag == "--offset"@ {
        2
    } else if flag == "--render-png"@ {
        3
    } else if flag == "--scale"@ {
        4
    } else if flag == "--now"@ {
        5
    } else if flag == "--probe-png"@ {
        6
    } else if flag == "--probe"@ {
        7
    } else {
        -1
    }
}

/// The slot of a one-word switch, or -1.
pub open spec fn switch_slot(flag: Seq<char>) -> int {
    if flag == "--config-path"@ {
        0
    } else if flag == "--init-config"@ {
        1
    } else if flag == "--force"@ {
        2
    } else if flag == "--print"@ {
        3
    } else if flag == "--diagnose"@ {
        4
    } else if flag == "--test-notify"@ {
        5
    } else if flag == "--settings"@ {
        6
    } else if flag == "--no-transparent"@ {
        7
    } else {
        -1
    }
}

/// The options as plain values: the value given for each flag that takes
/// one (by slot), and whether each switch was given (by slot).
pub type ArgsModel = (Seq<Option<Seq<char>>>, Seq<bool>);

pub open spec fn opt_view(o: Option<String>) -> Option<Seq<char>> {
    match o {
        Some(s) => Some(s@),
        None => None,
    }
}

impl Args {
    pub open spec fn model(&self) -> ArgsModel {
        (
            seq![
                opt_view(self.config),
                opt_view(self.target),
                opt_view(self.offset),
                opt_view(self.render_png),
                opt_view(self.scale),
                opt_view(self.now),
                opt_view(self.probe_png),
                opt_view(self.probe),
            ],
            seq![
                self.config_path,
                self.init_config,
                self.force,
                self.print,
                self.diagnose,
                self.test_notify,
                self.settings,
                self.no_transparent,
            ],
        )
    }
}

/// Nothing given.
pub open spec fn no_args() -> ArgsModel {
    (seq![None, None, None, None, None, None, None, None], seq![false, false, false, false, false, false, false, false])
}

/// The index of the first `=`, or the length.
pub open spec fn eq_index(s: Seq<char>) -> int
    decreases s.len(),
{
    if s.len() == 0 || s[0] == '=' {
        0
    } else {
        1 + eq_index(s.drop_first())
    }
}

/// `arg.split_once('=')`: the flag, and the value written after the `=`.
pub open spec fn split_flag(arg: Seq<char>) -> (Seq<char>, Option<Seq<char>>) {
    let e = eq_index(arg);
    if e < arg.len() {
        (arg.take(e), Some(arg.skip(e + 1)))
    } else {
        (arg, None)
    }
}

/// How reading the command line ends.
pub type ParseModel = Result<(Option<bool>, ArgsModel), Seq<char>>;

/// Reading the command line from argument `i` on, with the options so far
/// `acc`: `Some(true)` for help, `Some(false)` for version (either ends the
/// reading at once), `None` with the options at the end. A flag taking a
/// value takes what follows its `=`, or else the next argument. The
/// markers a re-launch adds ([`internal_flag`]) are passed over.
pub open spec fn parse_from(argv: Seq<Seq<char>>, i: int, acc: ArgsModel) -> ParseModel
    decreases argv.len() - i,
{
    if i < 0 || i >= argv.len() {
        Ok((None, acc))
    } else if internal_flag(argv[i]) {
        parse_from(argv, i + 1, acc)
    } else {
        let flag = split_flag(argv[i]).0;
        let inline = split_flag(argv[i]).1;
        if flag == "-h"@ || flag == "--help"@ {
            Ok((Some(true), acc))
        } else if flag == "-V"@ || flag == "--version"@ {
            Ok((Some(false), acc))
        } else if value_slot(flag) >= 0 {
            let k = value_slot(flag);
            match inline {
                Some(v) => parse_from(argv, i + 1, (acc.0.update(k, Some(v)), acc.1)),
                None => if i + 1 < argv.len() {
                    parse_from(argv, i + 2, (acc.0.update(k, Some(argv[i + 1])), acc.1))
                } else {
                    Err(flag + " needs a value after it"@)
                },
            }
        } else if switch_slot(flag) >= 0 {
            parse_from(argv, i + 1, (acc.0, acc.1.update(switch_slot(flag), true)))
        } else {
            Err("unrecognised argument: "@ + flag + " (try --help)"@)
        }
    }
}

fn value_slot_of(flag: &Vec<char>) -> (r: i32)
    ensures
        r == value_slot(flag@),
{
    if same(flag, &chars_of("--config")) {
        0
    } else if same(flag, &chars_of("--target")) {
        1
    } else if same(flag, &chars_of("--offset")) {
        2
    } else if same(flag, &chars_of("--render-png")) {
        3
    } else if same(flag, &chars_of("--scale")) {
        4
    } else if same(flag, &chars_of("--now")) {
        5
    } else if same(flag, &chars_of("--probe-png")) {
        6
    } else if same(flag, &chars_of("--probe")) {
        7
    } else {
        -1
    }
}

fn switch_slot_of(flag: &Vec<char>) -> (r: i32)
    ensures
        r == switch_slot(flag@),
{
    if same(flag, &chars_of("--config-path")) {
        0
    } else if same(flag, &chars_of("--init-config")) {
        1
    } else if same(flag, &chars_of("--force")) {
        2
    } else if same(flag, &chars_of("--print")) {
        3
    } else if same(flag, &chars_of("--diagnose")) {
        4
    } else if same(flag, &chars_of("--test-notify")) {
        5
    } else if same(flag, &chars_of("--settings")) {
        6
    } else if same(flag, &chars_of("--no-transparent")) {
        7
    } else {
        -1
    }
}

impl Args {
    /// No option given.
    pub fn none() -> (r: Args)
        ensures
            r.model() == no_args(),
    {
        let r = Args {
            config: None,
            config_path: false,
            init_config: false,
            force: false,
            target: None,
            offset: None,
            print: false,
            render_png: None,
            scale: None,
            now: None,
            diagnose: false,
            test_notify: false,
            settings: false,
            no_transparent: false,
            probe: None,
            probe_png: None,
        };
        assert(r.model().0 =~= no_args().0);
        assert(r.model().1 =~= no_args().1);
        r
    }

    fn set_value(&mut self, k: i32, v: String)
        requires
            0 <= k < 8,
        ensures
            final(self).model() == (old(self).model().0.update(k as int, Some(v@)), old(self).model().1),
    {
        match k {
            0 => self.config = Some(v),
            1 => self.target = Some(v),
            2 => self.offset = Some(v),
            3 => self.render_png = Some(v),
            4 => self.scale = Some(v),
            5 => self.now = Some(v),
            6 => self.probe_png = Some(v),
            _ => self.probe = Some(v),
        }
        assert(self.model().0 =~= old(self).model().0.update(k as int, Some(v@)));
        assert(self.model().1 =~= old(self).model().1);
    }

    fn set_switch(&mut self, k: i32)
        requires
            0 <= k < 8,
        ensures
            final(self).model() == (old(self).model().0, old(self).model().1.update(k as int, true)),
    {
        match k {
            0 => self.config_path = true,
            1 => self.init_config = true,
            2 => self.force = true,
            3 => self.print = true,
            4 => self.diagnose = true,
            5 => self.test_notify = true,
            6 => self.settings = true,
            _ => self.no_transparent = true,
        }
        assert(self.model().0 =~= old(self).model().0);
        assert(self.model().1 =~= old(self).model().1.update(k as int, true));
    }
}

pub open spec fn arg_views(argv: Seq<String>) -> Seq<Seq<char>> {
    argv.map_values(|a: String| a@)
}

/// Read the command line (the arguments after the program's name).
pub fn parse_args(argv: &Vec<String>) -> (r: Result<Command, String>)
    ensures
        match r {
            Ok(Command::Help) => parse_from(arg_views(argv@), 0, no_args()) matches Ok((Some(true), _)),
            Ok(Command::Version) => parse_from(arg_views(argv@), 0, no_args()) matches Ok((Some(false), _)),
            Ok(Command::Run(a)) => parse_from(arg_views(argv@), 0, no_args()) == Ok::<(Option<bool>, ArgsModel), Seq<char>>((None, a.model())),
            Err(e) => parse_from(arg_views(argv@), 0, no_args()) == Err::<(Option<bool>, ArgsModel), Seq<char>>(e@),
        },
{
    let ghost views = arg_views(argv@);
    let mut args = Args::none();
    let mut i: usize = 0;
    while i < argv.len()
        invariant
            i <= argv.len(),
            views == arg_views(argv@),
            parse_from(views, 0, no_args()) == parse_from(views, i as int, args.model()),
        decreases argv.len() - i,
    {
        if is_internal_flag(argv[i].as_str()) {
            i = i + 1;
            continue;
        }
        let arg = chars_of(argv[i].as_str());
        assert(views[i as int] == arg@);
        let mut e: usize = 0;
        assert(arg@.skip(0) =~= arg@);
        while e < arg.len() && arg[e] != '='
            invariant
                e <= arg.len(),
                eq_index(arg@) == e + eq_index(arg@.skip(e as int)),
            decreases arg.len() - e,
        {
            assert(arg@.skip(e as int).drop_first() =~= arg@.skip(e + 1));
            e = e + 1;
        }
        assert(arg@.skip(e as int).len() == 0 ==> eq_index(arg@.skip(e as int)) == 0);
        let flag = if e < arg.len() {
            copy_prefix(&arg, e)
        } else {
            copy_prefix(&arg, arg.len())
        };
        assert(arg@.take(arg.len() as int) =~= arg@);
        let inline: Option<Vec<char>> = if e < arg.len() {
            Some(copy_suffix(&arg, e + 1))
        } else {
            None
        };
        assert(flag@ == split_flag(arg@).0);
        assert(match inline {
            Some(v) => split_flag(arg@).1 == Some(v@),
            None => split_flag(arg@).1 is None,
        });
        if same(&flag, &chars_of("-h")) || same(&flag, &chars_of("--help")) {
            return Ok(Command::Help);
        }
        if same(&flag, &chars_of("-V")) || same(&flag, &chars_of("--version")) {
            return Ok(Command::Version);
        }
        let k = value_slot_of(&flag);
        if k >= 0 {
            match inline {
                Some(v) => {
                    args.set_value(k, string_of(&v));
                    i = i + 1;
                },
                None => {
                    if i + 1 < argv.len() {
                        let v = chars_of(argv[i + 1].as_str());
                        assert(views[i + 1] == v@);
                        args.set_value(k, string_of(&v));
                        i = i + 2;
                    } else {
                        let mut msg = flag;
                        push_all(&mut msg, &chars_of(" needs a value after it"));
                        return Err(string_of(&msg));
                    }
                },
            }
        } else {
            let s = switch_slot_of(&flag);
            if s >= 0 {
                args.set_switch(s);
                i = i + 1;
            } else {
                let mut msg = chars_of("unrecognised argument: ");
                push_all(&mut msg, &flag);
                push_all(&mut msg, &chars_of(" (try --help)"));
                return Err(string_of(&msg));
            }
        }
    }
    Ok(Command::Run(args))
}

fn copy_prefix(v: &Vec<char>, n: usize) -> (r: Vec<char>)
    requires
        n <= v.len(),
    ensures
        r@ == v@.take(n as int),
{
    let mut r: Vec<char> = Vec::new();
    let mut i: usize = 0;
    while i < n
        invariant
            i <= n <= v.len(),
            r@ == v@.take(i as int),
        decreases n - i,
    {
        r.push(v[i]);
        i = i + 1;
        assert(r@ =~= v@.take(i as int));
    }
    r
}

fn copy_suffix(v: &Vec<char>, from: usize) -> (r: Vec<char>)
    requires
        from <= v.len(),
    ensures
        r@ == v@.skip(from as int),
{
    let mut r: Vec<char> = Vec::new();
    let mut i = from;
    while i < v.len()
        invariant
            from <= i <= v.len(),
            r@ == v@.subrange(from as int, i as int),
        decreases v.len() - i,
    {
        r.push(v[i]);
        i = i + 1;
        assert(r@ =~= v@.subrange(from as int, i as int));
    }
    assert(v@.skip(from as int) =~= v@.subrange(from as int, v.len() as int));
    r
}

} // verus!
