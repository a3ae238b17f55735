//! The configuration: where the list of feeds is, and the two durations,
//! taken from arguments of the form `key=value`; and the list of feeds that
//! a text of template lines stands for.

use crate::template::{expand_range, expand_text};
use crate::text::{chars_of, find, index_of, lemma_index_of, same_text, string_of, texts, trim, trim_bounds};
use vstd::prelude::*;

verus! {

/// The seconds between two cycles where the arguments name none.
pub const CYCLE_INTERVAL_SECS: u64 = 600;

/// The seconds to wait after a notification where the arguments name none.
pub const TOAST_DURATION_SECS: u64 = 5;

/// Why there is no configuration.
#[derive(Clone, Copy, Debug, PartialEq, Eq, Structural)]
pub enum ConfigError {
    /// No argument `--path=..` names the file of feeds.
    MissingPath,
    /// `--toast` or `--interval` holds no number of seconds.
    InvalidNumber,
}

/// The configuration of a run.
#[derive(Clone, Debug)]
pub struct Config {
    /// The path of the file that lists the feeds.
    pub file_path: String,
    /// The seconds to wait after each notification.
    pub toast_duration: u64,
    /// The seconds between two cycles.
    pub cycle_interval: u64,
}

/// The mathematical content of a `Config`.
pub ghost struct ConfigView {
    pub file_path: Seq<char>,
    pub toast_duration: u64,
    pub cycle_interval: u64,
}

impl View for Config {
    type V = ConfigView;

    open spec fn view(&self) -> ConfigView {
        ConfigView {
            file_path: self.file_path@,
            toast_duration: self.toast_duration,
            cycle_interval: self.cycle_interval,
        }
    }
}

/// The views of a list of pairs of strings.
pub open spec fn pair_views(pairs: Seq<(String, String)>) -> Seq<(Seq<char>, Seq<char>)> {
    pairs.map_values(|p: (String, String)| (p.0@, p.1@))
}

/// The key and the value of an argument `key=value`, parted at the first
/// `=`; `None` for an argument without `=`.
pub open spec fn key_value(arg: Seq<char>) -> Option<(Seq<char>, Seq<char>)> {
    let at = index_of(arg, '=');
    if at < arg.len() {
        Some((arg.take(at as int), arg.skip((at + 1) as int)))
    } else {
        None
    }
}

/// The keys and values among the arguments, in their order.
pub open spec fn pairs_of(args: Seq<Seq<char>>) -> Seq<(Seq<char>, Seq<char>)>
    decreases args.len(),
{
    if args.len() == 0 {
        Seq::empty()
    } else {
        match key_value(args.last()) {
            Some(pair) => pairs_of(args.drop_last()).push(pair),
            None => pairs_of(args.drop_last()),
        }
    }
}

/// The options that a command line gives: the keys and values among its
/// arguments, the first of which, the program's name, is passed over.
pub open spec fn options_of(args: Seq<Seq<char>>) -> Seq<(Seq<char>, Seq<char>)> {
    if args.len() == 0 {
        Seq::empty()
    } else {
        pairs_of(args.skip(1))
    }
}

/// The value of a key: that of the last pair with the key.
pub open spec fn lookup(pairs: Seq<(Seq<char>, Seq<char>)>, key: Seq<char>) -> Option<Seq<char>>
    decreases pairs.len(),
{
    if pairs.len() == 0 {
        None
    } else if pairs.last().0 == key {
        Some(pairs.last().1)
    } else {
        lookup(pairs.drop_last(), key)
    }
}

/// The value of a decimal digit.
pub open spec fn digit_value(c: char) -> Option<nat> {
    if '0' <= c <= '9' {
        Some((c as nat - '0' as nat) as nat)
    } else {
        None
    }
}

/// The number that a sequence of decimal digits denotes; `None` where a
/// character is no digit.
pub open spec fn digits_value(s: Seq<char>) -> Option<nat>
    decreases s.len(),
{
    if s.len() == 0 {
        Some(0)
    } else {
        match (digits_value(s.drop_last()), digit_value(s.last())) {
            (Some(high), Some(low)) => Some(high * 10 + low),
            _ => None,
        }
    }
}

/// The number that a text denotes: an optional `+`, then one or more
/// decimal digits and nothing else, for a number that fits 64 bits.
pub open spec fn decimal(s: Seq<char>) -> Option<u64> {
    let digits = if s.len() > 0 && s[0] == '+' {
        s.drop_first()
    } else {
        s
    };
    if digits.len() == 0 {
        None
    } else {
        bounded(digits_value(digits))
    }
}

/// A number as a machine number, where it is one.
pub open spec fn bounded(n: Option<nat>) -> Option<u64> {
    match n {
        Some(v) => if v <= u64::MAX {
            Some(v as u64)
        } else {
            None
        },
        None => None,
    }
}

/// The seconds that an option names, or `default` where the option is not
/// given.
pub open spec fn number_or(default: u64, option: Option<Seq<char>>) -> Result<u64, ConfigError> {
    match option {
        None => Ok(default),
        Some(text) => match decimal(text) {
            Some(n) => Ok(n),
            None => Err(ConfigError::InvalidNumber),
        },
    }
}

/// The configuration that a command line gives. `--path` is required;
/// `--toast` and `--interval` are seconds and default to `toast_duration`
/// and `cycle_interval`.
pub open spec fn config_of(cycle_interval: u64, toast_duration: u64, args: Seq<Seq<char>>) -> Result<
    ConfigView,
    ConfigError,
> {
    let options = options_of(args);
    match lookup(options, "--path"@) {
        None => Err(ConfigError::MissingPath),
        Some(file_path) => match (
            number_or(toast_duration, lookup(options, "--toast"@)),
            number_or(cycle_interval, lookup(options, "--interval"@)),
        ) {
            (Ok(toast), Ok(interval)) => Ok(
                ConfigView { file_path, toast_duration: toast, cycle_interval: interval },
            ),
            _ => Err(ConfigError::InvalidNumber),
        },
    }
}

/// The feeds that the contents of a file stand for: the expansion of the
/// trimmed contents.
pub open spec fn feeds_of(contents: Seq<char>) -> Seq<Seq<char>> {
    expand_text(trim(contents))
}

/// The view of a configuration or of the error in its place.
pub open spec fn config_result(r: Result<Config, ConfigError>) -> Result<ConfigView, ConfigError> {
    match r {
        Ok(config) => Ok(config@),
        Err(e) => Err(e),
    }
}

/// A number is no smaller than the number of any of its leading digits.
pub proof fn lemma_digits_value_grows(s: Seq<char>, upto: int)
    requires
        0 <= upto <= s.len(),
        digits_value(s) is Some,
    ensures
        digits_value(s.take(upto)) is Some,
        digits_value(s.take(upto))->0 <= digits_value(s)->0,
    decreases s.len() - upto,
{
    if upto == s.len() {
        assert(s.take(upto) =~= s);
    } else {
        lemma_digits_value_grows(s, upto + 1);
        assert(s.take(upto + 1).drop_last() =~= s.take(upto));
    }
}

/// The number that a text denotes, as `decimal` says.
pub fn parse_u64(s: &str) -> (n: Option<u64>)
    ensures
        n == decimal(s@),
{
    let chars = chars_of(s);
    let from: usize = if chars.len() > 0 && chars[0] == '+' {
        1
    } else {
        0
    };
    let ghost digits = chars@.subrange(from as int, chars.len() as int);
    proof {
        if from == 1 {
            assert(digits =~= s@.drop_first());
        } else {
            assert(digits =~= s@);
        }
    }
    if from == chars.len() {
        return None;
    }
    let mut acc: u64 = 0;
    let mut i: usize = from;
    proof {
        assert(digits.take(0) =~= Seq::<char>::empty());
    }
    while i < chars.len()
        invariant
            from <= i <= chars.len(),
            chars@ == s@,
            digits == chars@.subrange(from as int, chars.len() as int),
            decimal(s@) == bounded(digits_value(digits)),
            digits_value(digits.take(i - from)) == Some(acc as nat),
        decreases chars.len() - i,
    {
        let c: char = chars[i];
        proof {
            assert(digits.take(i - from + 1).drop_last() =~= digits.take(i - from));
            assert(digits.take(i - from + 1).last() == c);
            if digits_value(digits) is Some {
                lemma_digits_value_grows(digits, i - from + 1);
            }
        }
        if !(c >= '0' && c <= '9') {
            return None;
        }
        let low: u64 = (c as u32 - '0' as u32) as u64;
        let next = match acc.checked_mul(10) {
            Some(tens) => tens.checked_add(low),
            None => None,
        };
        match next {
            Some(v) => {
                acc = v;
            },
            None => {
                return None;
            },
        }
        i = i + 1;
    }
    proof {
        assert(digits.take(chars.len() - from) =~= digits);
    }
    Some(acc)
}

/// The key and the value of an argument `key=value`.
pub fn split_once(arg: &str) -> (pair: Option<(String, String)>)
    ensures
        match pair {
            Some(p) => key_value(arg@) == Some((p.0@, p.1@)),
            None => key_value(arg@) is None,
        },
{
    let chars = chars_of(arg);
    let len = chars.len();
    proof {
        assert(chars@.subrange(0, len as int) =~= arg@);
        lemma_index_of(arg@, '=');
    }
    let at = find(&chars, '=', 0, len);
    if at < len {
        let key = string_of(&chars, 0, at);
        let value = string_of(&chars, at + 1, len);
        proof {
            assert(key@ =~= arg@.take(at as int));
            assert(value@ =~= arg@.skip(at + 1));
        }
        Some((key, value))
    } else {
        None
    }
}

/// The value of a key among the pairs: that of the last pair with the key.
pub fn value_of<'a>(pairs: &'a Vec<(String, String)>, key: &str) -> (value: Option<&'a String>)
    ensures
        match value {
            Some(v) => lookup(pair_views(pairs@), key@) == Some(v@),
            None => lookup(pair_views(pairs@), key@) is None,
        },
{
    let ghost all = pair_views(pairs@);
    let mut i: usize = pairs.len();
    proof {
        assert(all.take(i as int) =~= all);
    }
    while i > 0
        invariant
            i <= pairs.len(),
            all == pair_views(pairs@),
            lookup(all, key@) == lookup(all.take(i as int), key@),
        decreases i,
    {
        i = i - 1;
        let pair = &pairs[i];
        proof {
            assert(all.take(i + 1).last() == (pair.0@, pair.1@));
            assert(all.take(i + 1).drop_last() =~= all.take(i as int));
        }
        if same_text(pair.0.as_str(), key) {
            return Some(&pair.1);
        }
    }
    None
}

impl Config {
    /// The options that a command line gives: the keys and values among
    /// its arguments, the first of which is passed over.
    pub fn get_args(args: &Vec<String>) -> (options: Vec<(String, String)>)
        ensures
            pair_views(options@) == options_of(texts(args@)),
    {
        let ghost all = texts(args@);
        let mut options: Vec<(String, String)> = Vec::new();
        if args.len() == 0 {
            proof {
                assert(pair_views(options@) =~= options_of(all));
            }
            return options;
        }
        let ghost rest = all.skip(1);
        let mut i: usize = 1;
        proof {
            assert(rest.take(0) =~= Seq::<Seq<char>>::empty());
            assert(pair_views(options@) =~= pairs_of(rest.take(0)));
        }
        while i < args.len()
            invariant
                1 <= i <= args.len(),
                all == texts(args@),
                rest == all.skip(1),
                pair_views(options@) == pairs_of(rest.take(i - 1)),
            decreases args.len() - i,
        {
            let ghost before = pair_views(options@);
            proof {
                assert(rest.take(i as int).drop_last() =~= rest.take(i - 1));
                assert(rest.take(i as int).last() == args[i as int]@);
            }
            match split_once(args[i].as_str()) {
                Some(pair) => {
                    let ghost view = (pair.0@, pair.1@);
                    options.push(pair);
                    proof {
                        assert(pair_views(options@) =~= before.push(view));
                    }
                },
                None => {},
            }
            i = i + 1;
        }
        proof {
            assert(rest.take(args.len() - 1) =~= rest);
        }
        options
    }

    /// The seconds that an option names, or `default` where the option is
    /// not given.
    pub fn parse_number(default: u64, x: Option<&String>) -> (seconds: Result<u64, ConfigError>)
        ensures
            seconds == number_or(
                default,
                match x {
                    Some(text) => Some(text@),
                    None => None,
                },
            ),
    {
        match x {
            None => Ok(default),
            Some(text) => match parse_u64(text.as_str()) {
                Some(n) => Ok(n),
                None => Err(ConfigError::InvalidNumber),
            },
        }
    }

    /// The configuration that a command line gives, with the given
    /// defaults for the two durations. `args` is the whole command line,
    /// the program's name first.
    pub fn new(cycle_interval: u64, toast_duration: u64, args: &Vec<String>) -> (config: Result<
        Config,
        ConfigError,
    >)
        ensures
            config_result(config) == config_of(cycle_interval, toast_duration, texts(args@)),
    {
        let options = Config::get_args(args);
        let file_path = match value_of(&options, "--path") {
            Some(path) => path.clone(),
            None => {
                return Err(ConfigError::MissingPath);
            },
        };
        let toast = Config::parse_number(toast_duration, value_of(&options, "--toast"));
        let interval = Config::parse_number(cycle_interval, value_of(&options, "--interval"));
        match (toast, interval) {
            (Ok(toast_duration), Ok(cycle_interval)) => Ok(
                Config { file_path, toast_duration, cycle_interval },
            ),
            _ => Err(ConfigError::InvalidNumber),
        }
    }

    /// The configuration that a command line gives, with a cycle every ten
    /// minutes and five seconds for each notification unless it says
    /// otherwise.
    pub fn default(args: &Vec<String>) -> (config: Result<Config, ConfigError>)
        ensures
            config_result(config) == config_of(
                CYCLE_INTERVAL_SECS,
                TOAST_DURATION_SECS,
                texts(args@),
            ),
    {
        Config::new(CYCLE_INTERVAL_SECS, TOAST_DURATION_SECS, args)
    }

    /// The feeds that the contents of the file of feeds stand for: the
    /// contents are trimmed and every line is expanded.
    pub fn parse_feeds(&self, contents: &str) -> (feeds: Vec<String>)
        ensures
            texts(feeds@) == feeds_of(contents@),
    {
        let chars = chars_of(contents);
        let (from, to) = trim_bounds(&chars);
        expand_range(&chars, from, to)
    }
}

} // verus!
