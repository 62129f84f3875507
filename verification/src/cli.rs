//! The command line of the viewer: `--idle` and `--resume` send a command to the daemon,
//! `--help` asks for the usage, and otherwise the options `--full`, `--multi`,
//! `--class NAME` and `--days COUNT` (or their one-letter forms) choose what to show.
use vstd::prelude::*;

use crate::interval::Interval;
use crate::settings::{find_mapping, mapped_name, Settings};
use crate::text::{decimal_u64, parse_u64, str_equal};

verus! {

/// A command for the daemon.
#[derive(PartialEq, Eq, Structural, Clone, Copy, Debug)]
pub enum DaemonCommand {
    Idle,
    Resume,
}

/// The options chosen on the command line; `days` is the last day count given.
pub struct RunOptions {
    pub full: bool,
    pub multi_timeline: bool,
    pub class_arg: String,
    pub days: Option<u64>,
}

/// What the command line asks for.
pub enum Invocation {
    /// Send this command to the daemon.
    Send(DaemonCommand),
    /// Print the usage.
    Help,
    /// Show the viewer with these options.
    Run(RunOptions),
    /// The day count given is not a number.
    InvalidDays,
    /// This argument is not an option.
    UnknownArgument(String),
    /// `--class` came last, without a name.
    MissingClass,
    /// `--days` came last, without a count.
    MissingDays,
}

/// Where scanning the options stands: whether a class name is awaited, whether a day
/// count is awaited, `--full`, `--multi`, the class, the day count, and, once it has
/// stopped, the position of the argument it stopped on and whether that was a bad day
/// count (else an unknown argument).
pub type ScanState = (bool, bool, bool, bool, Seq<char>, Option<int>, Option<(int, bool)>);

/// `a` is the option `long` or its short form `short`.
pub open spec fn is_option(a: Seq<char>, long: Seq<char>, short: Seq<char>) -> bool {
    a == long || a == short
}

/// The class `arg` names: its mapping when there is one, else itself.
pub open spec fn class_named(mappings: Seq<(String, String)>, arg: Seq<char>) -> Seq<char> {
    match mapped_name(mappings, arg) {
        Some(m) => m,
        None => arg,
    }
}

/// The scan of the arguments before position `n` (the first, the program's name, is
/// skipped): an argument awaited as a class name or a day count is taken as one; else it
/// must be an option. The scan stops at a day count that is not a number or at an unknown
/// argument.
pub open spec fn scan(args: Seq<Seq<char>>, mappings: Seq<(String, String)>, n: int) -> ScanState
    decreases n,
{
    if n <= 1 {
        (false, false, false, false, Seq::empty(), None, None)
    } else {
        let s = scan(args, mappings, n - 1);
        let a = args[n - 1];
        if s.6 is Some {
            s
        } else if s.0 {
            (false, s.1, s.2, s.3, class_named(mappings, a), s.5, None)
        } else if s.1 {
            match decimal_u64(a) {
                Some(v) => (s.0, false, s.2, s.3, s.4, Some(v), None),
                None => (s.0, s.1, s.2, s.3, s.4, s.5, Some((n - 1, true))),
            }
        } else if is_option(a, seq!['-', '-', 'c', 'l', 'a', 's', 's'], seq!['-', 'c']) {
            (true, s.1, s.2, s.3, s.4, s.5, None)
        } else if is_option(a, seq!['-', '-', 'd', 'a', 'y', 's'], seq!['-', 'd']) {
            (s.0, true, s.2, s.3, s.4, s.5, None)
        } else if is_option(a, seq!['-', '-', 'f', 'u', 'l', 'l'], seq!['-', 'f']) {
            (s.0, s.1, true, s.3, s.4, s.5, None)
        } else if is_option(a, seq!['-', '-', 'm', 'u', 'l', 't', 'i'], seq!['-', 'm']) {
            (s.0, s.1, s.2, true, s.4, s.5, None)
        } else {
            (s.0, s.1, s.2, s.3, s.4, s.5, Some((n - 1, false)))
        }
    }
}

/// The arguments as plain values.
pub open spec fn args_view(args: Seq<String>) -> Seq<Seq<char>> {
    args.map_values(|a: String| a@)
}

/// `r` is what the command line `args` asks for: with no argument the viewer with the
/// defaults; `--idle` or `--resume` first sends that command; `--help` or `-h` first asks
/// for the usage; otherwise the outcome of `scan` over all the arguments.
pub open spec fn invocation_is(args: Seq<Seq<char>>, mappings: Seq<(String, String)>, r: Invocation) -> bool {
    if args.len() <= 1 {
        r matches Invocation::Run(o) && !o.full && !o.multi_timeline && o.class_arg@ == Seq::<char>::empty()
            && o.days is None
    } else if args[1] == seq!['-', '-', 'i', 'd', 'l', 'e'] {
        r == Invocation::Send(DaemonCommand::Idle)
    } else if args[1] == seq!['-', '-', 'r', 'e', 's', 'u', 'm', 'e'] {
        r == Invocation::Send(DaemonCommand::Resume)
    } else if is_option(args[1], seq!['-', '-', 'h', 'e', 'l', 'p'], seq!['-', 'h']) {
        r is Help
    } else {
        let s = scan(args, mappings, args.len() as int);
        match s.6 {
            Some((i, true)) => r is InvalidDays,
            Some((i, false)) => r matches Invocation::UnknownArgument(a) && a@ == args[i],
            None => if s.0 {
                r is MissingClass
            } else if s.1 {
                r is MissingDays
            } else {
                r matches Invocation::Run(o) && o.full == s.2 && o.multi_timeline == s.3 && o.class_arg@ == s.4
                    && match (o.days, s.5) {
                    (Some(d), Some(v)) => d == v,
                    (None, None) => true,
                    _ => false,
                }
            },
        }
    }
}

/// Whether `a` is the option `long` or `short`.
fn option_is(a: &str, long: &str, short: &str) -> (r: bool)
    ensures
        r == is_option(a@, long@, short@),
{
    str_equal(a, long) || str_equal(a, short)
}

/// What the command line `args` (the program's name first) asks for; see `invocation_is`.
/// A class given is renamed as `mappings` say.
pub fn parse_args(args: &Vec<String>, mappings: &Vec<(String, String)>) -> (r: Invocation)
    ensures
        invocation_is(args_view(args@), mappings@, r),
{
    let ghost av = args_view(args@);
    proof {
        reveal_strlit("--idle");
        reveal_strlit("--resume");
        reveal_strlit("--help");
        reveal_strlit("-h");
        reveal_strlit("--class");
        reveal_strlit("-c");
        reveal_strlit("--days");
        reveal_strlit("-d");
        reveal_strlit("--full");
        reveal_strlit("-f");
        reveal_strlit("--multi");
        reveal_strlit("-m");
        assert("--idle"@ =~= seq!['-', '-', 'i', 'd', 'l', 'e']);
        assert("--resume"@ =~= seq!['-', '-', 'r', 'e', 's', 'u', 'm', 'e']);
        assert("--help"@ =~= seq!['-', '-', 'h', 'e', 'l', 'p']);
        assert("-h"@ =~= seq!['-', 'h']);
        assert("--class"@ =~= seq!['-', '-', 'c', 'l', 'a', 's', 's']);
        assert("-c"@ =~= seq!['-', 'c']);
        assert("--days"@ =~= seq!['-', '-', 'd', 'a', 'y', 's']);
        assert("-d"@ =~= seq!['-', 'd']);
        assert("--full"@ =~= seq!['-', '-', 'f', 'u', 'l', 'l']);
        assert("-f"@ =~= seq!['-', 'f']);
        assert("--multi"@ =~= seq!['-', '-', 'm', 'u', 'l', 't', 'i']);
        assert("-m"@ =~= seq!['-', 'm']);
    }
    if args.len() <= 1 {
        return Invocation::Run(RunOptions { full: false, multi_timeline: false, class_arg: String::new(), days: None });
    }
    proof {
        assert(av[1] == args@[1]@);
    }
    let first = args[1].as_str();
    if str_equal(first, "--idle") {
        return Invocation::Send(DaemonCommand::Idle);
    }
    if str_equal(first, "--resume") {
        return Invocation::Send(DaemonCommand::Resume);
    }
    if option_is(first, "--help", "-h") {
        return Invocation::Help;
    }
    let mut class_pending = false;
    let mut days_pending = false;
    let mut full = false;
    let mut multi = false;
    let mut class_arg = String::new();
    let mut days: Option<u64> = None;
    let mut i: usize = 1;
    while i < args.len()
        invariant
            1 <= i <= args@.len(),
            av == args_view(args@),
            av.len() > 1,
            av[1] != seq!['-', '-', 'i', 'd', 'l', 'e'],
            av[1] != seq!['-', '-', 'r', 'e', 's', 'u', 'm', 'e'],
            !is_option(av[1], seq!['-', '-', 'h', 'e', 'l', 'p'], seq!['-', 'h']),
            scan(av, mappings@, i as int) == (
                class_pending,
                days_pending,
                full,
                multi,
                class_arg@,
                match days {
                    Some(d) => Some(d as int),
                    None => None,
                },
                None::<(int, bool)>,
            ),
        decreases args@.len() - i,
    {
        let a = args[i].as_str();
        proof {
            assert(av[i as int] == a@);
            reveal_strlit("--class");
            reveal_strlit("-c");
            reveal_strlit("--days");
            reveal_strlit("-d");
            reveal_strlit("--full");
            reveal_strlit("-f");
            reveal_strlit("--multi");
            reveal_strlit("-m");
            assert("--class"@ =~= seq!['-', '-', 'c', 'l', 'a', 's', 's']);
            assert("-c"@ =~= seq!['-', 'c']);
            assert("--days"@ =~= seq!['-', '-', 'd', 'a', 'y', 's']);
            assert("-d"@ =~= seq!['-', 'd']);
            assert("--full"@ =~= seq!['-', '-', 'f', 'u', 'l', 'l']);
            assert("-f"@ =~= seq!['-', 'f']);
            assert("--multi"@ =~= seq!['-', '-', 'm', 'u', 'l', 't', 'i']);
            assert("-m"@ =~= seq!['-', 'm']);
        }
        if class_pending {
            class_arg = match find_mapping(mappings, a) {
                Some(m) => m,
                None => a.to_owned(),
            };
            class_pending = false;
        } else if days_pending {
            match parse_u64(a) {
                Some(v) => {
                    days = Some(v);
                    days_pending = false;
                },
                None => {
                    proof {
                        lemma_scan_stops(av, mappings@, i as int + 1);
                    }
                    return Invocation::InvalidDays;
                },
            }
        } else if option_is(a, "--class", "-c") {
            class_pending = true;
        } else if option_is(a, "--days", "-d") {
            days_pending = true;
        } else if option_is(a, "--full", "-f") {
            full = true;
        } else if option_is(a, "--multi", "-m") {
            multi = true;
        } else {
            proof {
                lemma_scan_stops(av, mappings@, i as int + 1);
            }
            return Invocation::UnknownArgument(a.to_owned());
        }
        i = i + 1;
    }
    if class_pending {
        return Invocation::MissingClass;
    }
    if days_pending {
        return Invocation::MissingDays;
    }
    Invocation::Run(RunOptions { full, multi_timeline: multi, class_arg, days })
}

/// The settings the options of the command line give, today being `today` and classes
/// renamed as `mappings` say: the options as given, showing the last `days` local days
/// when a count was given (today when those days cannot be had), and nothing loaded yet.
pub fn settings_for(today: Interval, options: RunOptions, mappings: Vec<(String, String)>) -> (r: Settings)
    ensures
        r.full == options.full,
        r.multi_timeline == options.multi_timeline,
        r.class_arg == options.class_arg,
        r.class_mappings == mappings,
        options.days is None ==> r.focused_interval == today,
        r.focused_interval == today || !r.focused_interval.changed,
        r.loaded_interval.start == r.focused_interval.start,
        r.loaded_interval.end == r.focused_interval.start,
{
    let mut settings = Settings::new(today);
    settings.full = options.full;
    settings.multi_timeline = options.multi_timeline;
    settings.class_arg = options.class_arg;
    settings.class_mappings = mappings;
    match options.days {
        Some(days) => {
            settings.focused_interval.set_days(days);
        },
        None => {},
    }
    settings.loaded_interval = Interval::new(settings.focused_interval.start, settings.focused_interval.start);
    settings
}

/// Once the scan has stopped it stays stopped where it stopped.
proof fn lemma_scan_stops(args: Seq<Seq<char>>, mappings: Seq<(String, String)>, k: int)
    requires
        1 <= k <= args.len(),
        scan(args, mappings, k).6 is Some,
    ensures
        scan(args, mappings, args.len() as int) == scan(args, mappings, k),
    decreases args.len() - k,
{
    if k < args.len() {
        lemma_scan_stops(args, mappings, k + 1);
    }
}

} // verus!
