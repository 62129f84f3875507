//! What the viewer was asked to show: which class, how detailed, over which time.
use vstd::prelude::*;

use crate::interval::Interval;
use crate::text::{str_contains, str_equal};

verus! {

/// The viewer's settings. `focused_interval` is the time shown; `loaded_interval` the time
/// whose logs the model has read; `class_mappings` renames window classes, the first
/// mapping of a class winning.
pub struct Settings {
    pub full: bool,
    pub multi_timeline: bool,
    pub class_arg: String,
    pub focused_interval: Interval,
    pub loaded_interval: Interval,
    pub class_mappings: Vec<(String, String)>,
}

/// The name `class` is mapped to, if any mapping names it.
pub open spec fn mapped_name(mappings: Seq<(String, String)>, class: Seq<char>) -> Option<Seq<char>>
    decreases mappings.len(),
{
    if mappings.len() == 0 {
        None
    } else if mappings[0].0@ == class {
        Some(mappings[0].1@)
    } else {
        mapped_name(mappings.drop_first(), class)
    }
}

/// The name a class is shown under: any Steam game is `steam`; any other class is renamed
/// by its mapping, if it has one.
pub open spec fn filtered_class(mappings: Seq<(String, String)>, class: Seq<char>) -> Seq<char> {
    if crate::text::contains_seq(class, seq!['s', 't', 'e', 'a', 'm', '_', 'a', 'p', 'p']) {
        seq!['s', 't', 'e', 'a', 'm']
    } else {
        match mapped_name(mappings, class) {
            Some(m) => m,
            None => class,
        }
    }
}

impl Settings {
    /// Settings showing everything recorded today, in one timeline, with nothing loaded
    /// yet: the loaded interval is empty, at the start of today.
    pub fn new(today: Interval) -> (r: Settings)
        ensures
            !r.full,
            !r.multi_timeline,
            r.class_arg@ == Seq::<char>::empty(),
            r.focused_interval == today,
            r.loaded_interval.start == today.start,
            r.loaded_interval.end == today.start,
            r.class_mappings@.len() == 0,
    {
        let loaded = Interval { start: today.start, end: today.start, changed: false };
        Settings {
            full: false,
            multi_timeline: false,
            class_arg: String::new(),
            focused_interval: today,
            loaded_interval: loaded,
            class_mappings: Vec::new(),
        }
    }

    /// The milliseconds the focused interval spans, the scale the ticks are laid out on.
    pub fn scale(&self) -> (r: u64)
        ensures
            r == (self.focused_interval.end - self.focused_interval.start) as u64,
    {
        self.focused_interval.width()
    }
}

/// The first mapping of `class`, if any.
pub(crate) fn find_mapping(mappings: &Vec<(String, String)>, class: &str) -> (r: Option<String>)
    ensures
        match r {
            Some(s) => mapped_name(mappings@, class@) == Some(s@),
            None => mapped_name(mappings@, class@) is None,
        },
{
    let mut i: usize = 0;
    proof {
        assert(mappings@.subrange(0, mappings.len() as int) =~= mappings@);
    }
    while i < mappings.len()
        invariant
            i <= mappings.len(),
            mapped_name(mappings@, class@) == mapped_name(mappings@.subrange(i as int, mappings.len() as int), class@),
        decreases mappings.len() - i,
    {
        proof {
            let rest = mappings@.subrange(i as int, mappings.len() as int);
            assert(rest.drop_first() =~= mappings@.subrange(i + 1, mappings.len() as int));
        }
        if str_equal(mappings[i].0.as_str(), class) {
            return Some(mappings[i].1.clone());
        }
        i = i + 1;
    }
    None
}

/// The name `class` is shown under; see `filtered_class`.
pub fn filter_class(class: String, settings: &Settings) -> (r: String)
    ensures
        r@ == filtered_class(settings.class_mappings@, class@),
{
    let steam_app = "steam_app";
    proof {
        reveal_strlit("steam_app");
        assert(steam_app@ =~= seq!['s', 't', 'e', 'a', 'm', '_', 'a', 'p', 'p']);
    }
    if str_contains(class.as_str(), steam_app) {
        let steam = "steam";
        proof {
            reveal_strlit("steam");
            assert(steam@ =~= seq!['s', 't', 'e', 'a', 'm']);
        }
        return steam.to_owned();
    }
    match find_mapping(&settings.class_mappings, class.as_str()) {
        Some(m) => m,
        None => class,
    }
}

} // verus!
