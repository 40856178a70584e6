//! The command line: the commands to run, the manifest, the scope of packages
//! and the log level, parsed with `getopts`.
use crate::graph::names_view;
use crate::logger::{get_logger_log_level_value, level_named, LoggerLogLevel};
use vstd::prelude::*;

verus! {

#[verifier::external_type_specification]
#[verifier::external_body]
pub struct ExOptions(getopts::Options);

#[verifier::external_type_specification]
#[verifier::external_body]
pub struct ExMatches(getopts::Matches);

/// An option group: short name, long name, description, hint, and kind (0 a
/// flag, 1 an option that takes one value, 2 an option that may repeat).
pub type OptionGroup = (Seq<char>, Seq<char>, Seq<char>, Seq<char>, u8);

/// The option groups that a `getopts::Options` holds, in the order they were added.
pub uninterp spec fn option_groups(opts: getopts::Options) -> Seq<OptionGroup>;

/// For each name (short or long) of each option group, what a
/// `getopts::Matches` holds: one entry per occurrence, with the value given
/// where the option takes one.
pub uninterp spec fn matched_values(m: getopts::Matches) -> Map<Seq<char>, Seq<Option<Seq<char>>>>;

/// The free arguments that a `getopts::Matches` holds.
pub uninterp spec fn matched_free(m: getopts::Matches) -> Seq<Seq<char>>;

/// What `getopts::Options::parse` makes of the arguments, for options with the
/// default parsing style (free arguments may stand between options) and
/// `long_only` off, as every `Options` built here has: the values by name and
/// the free arguments, or the text of the failure.
pub uninterp spec fn getopts_parse(groups: Seq<OptionGroup>, args: Seq<Seq<char>>) -> Result<
    (Map<Seq<char>, Seq<Option<Seq<char>>>>, Seq<Seq<char>>),
    Seq<char>,
>;

/// The usage text that `getopts::Options::usage` derives from the groups, for
/// options with the default parsing style and `long_only` off.
pub uninterp spec fn getopts_usage(groups: Seq<OptionGroup>, brief: Seq<char>) -> Seq<char>;

/// A name `getopts` accepts: an ASCII short name of at most one character, and
/// a long name that is empty or longer than one character.
pub open spec fn valid_names(short: &str, long: &str) -> bool {
    &&& vstd::string::is_ascii(short)
    &&& short@.len() <= 1
    &&& (long@.len() == 0 || long@.len() > 1)
}

/// `getopts::Options::new`: an empty set of option groups.
#[verifier::external_body]
fn options_new() -> (o: getopts::Options)
    ensures
        option_groups(o) == Seq::<OptionGroup>::empty(),
{
    getopts::Options::new()
}

/// `getopts::Options::optflag`: adds a flag (no value, optional).
#[verifier::external_body]
fn options_flag(o: &mut getopts::Options, short: &str, long: &str, desc: &str)
    requires
        valid_names(short, long),
    ensures
        option_groups(*final(o)) == option_groups(*old(o)).push(
            (short@, long@, desc@, Seq::empty(), 0u8),
        ),
{
    o.optflag(short, long, desc);
}

/// `getopts::Options::optopt`: adds an optional option that takes one value.
#[verifier::external_body]
fn options_opt(o: &mut getopts::Options, short: &str, long: &str, desc: &str, hint: &str)
    requires
        valid_names(short, long),
    ensures
        option_groups(*final(o)) == option_groups(*old(o)).push(
            (short@, long@, desc@, hint@, 1u8),
        ),
{
    o.optopt(short, long, desc, hint);
}

/// `getopts::Options::optmulti`: adds an option that takes a value and may repeat.
#[verifier::external_body]
fn options_multi(o: &mut getopts::Options, short: &str, long: &str, desc: &str, hint: &str)
    requires
        valid_names(short, long),
    ensures
        option_groups(*final(o)) == option_groups(*old(o)).push(
            (short@, long@, desc@, hint@, 2u8),
        ),
{
    o.optmulti(short, long, desc, hint);
}

/// `getopts::Options::parse`: the matches, which hold an entry for each name of
/// each group, or the failure as text (its `Display`).
#[verifier::external_body]
fn options_parse(o: &getopts::Options, args: &Vec<String>) -> (r: Result<getopts::Matches, String>)
    requires
        forall|i: int|
            0 <= i < option_groups(*o).len() ==> (#[trigger] option_groups(*o)[i]).0.len() > 0
                || option_groups(*o)[i].1.len() > 0,
    ensures
        match r {
            Ok(m) => {
                &&& getopts_parse(option_groups(*o), names_view(*args)) == Ok::<
                    (Map<Seq<char>, Seq<Option<Seq<char>>>>, Seq<Seq<char>>),
                    Seq<char>,
                >((matched_values(m), matched_free(m)))
                &&& forall|i: int|
                    0 <= i < option_groups(*o).len() ==> {
                        &&& (#[trigger] option_groups(*o)[i]).0.len() > 0
                            ==> matched_values(m).contains_key(option_groups(*o)[i].0)
                        &&& option_groups(*o)[i].1.len() > 0 ==> matched_values(m).contains_key(
                            option_groups(*o)[i].1,
                        )
                    }
            },
            Err(e) => getopts_parse(option_groups(*o), names_view(*args)) == Err::<
                (Map<Seq<char>, Seq<Option<Seq<char>>>>, Seq<Seq<char>>),
                Seq<char>,
            >(e@),
        },
{
    match o.parse(&args[..]) {
        Ok(m) => Ok(m),
        Err(f) => Err(f.to_string()),
    }
}

/// `getopts::Matches::opt_present`: whether the option occurred.
#[verifier::external_body]
fn matches_present(m: &getopts::Matches, name: &str) -> (r: bool)
    requires
        matched_values(*m).contains_key(name@),
    ensures
        r == (matched_values(*m)[name@].len() > 0),
{
    m.opt_present(name)
}

/// `getopts::Matches::opt_str`: the value of the first occurrence, where it has one.
#[verifier::external_body]
fn matches_str(m: &getopts::Matches, name: &str) -> (r: Option<String>)
    requires
        matched_values(*m).contains_key(name@),
    ensures
        r is Some == (first_value(matched_values(*m)[name@]) is Some),
        r matches Some(s) ==> first_value(matched_values(*m)[name@]) == Some(s@),
{
    m.opt_str(name)
}

/// `getopts::Matches::opt_strs`: the values of all occurrences that have one.
#[verifier::external_body]
fn matches_strs(m: &getopts::Matches, name: &str) -> (r: Vec<String>)
    requires
        matched_values(*m).contains_key(name@),
    ensures
        names_view(r) == given_values(matched_values(*m)[name@]),
{
    m.opt_strs(name)
}

/// The free arguments of `getopts::Matches`.
#[verifier::external_body]
fn matches_free_args(m: &getopts::Matches) -> (r: Vec<String>)
    ensures
        names_view(r) == matched_free(*m),
{
    m.free.clone()
}

/// `getopts::Options::usage`.
#[verifier::external_body]
fn options_usage(o: &getopts::Options, brief: &str) -> (r: String)
    ensures
        r@ == getopts_usage(option_groups(*o), brief@),
{
    o.usage(brief)
}

/// The value of the first occurrence, where it has one.
pub open spec fn first_value(vals: Seq<Option<Seq<char>>>) -> Option<Seq<char>> {
    if vals.len() > 0 {
        vals[0]
    } else {
        None
    }
}

/// The values of the occurrences that have one, in order.
pub open spec fn given_values(vals: Seq<Option<Seq<char>>>) -> Seq<Seq<char>>
    decreases vals.len(),
{
    if vals.len() == 0 {
        Seq::empty()
    } else {
        let rest = given_values(vals.drop_last());
        match vals.last() {
            Some(v) => rest.push(v),
            None => rest,
        }
    }
}

/// The parsed command line.
#[derive(Clone, Debug)]
pub struct Args {
    pub manifest: String,
    pub commands: Vec<String>,
    pub scope: Vec<String>,
    pub log_level: LoggerLogLevel,
}

/// The outcome of parsing the command line.
pub enum ArgParseResult {
    Args(Args),
    Help(String),
    Error(String),
}

/// The options of the command line.
pub open spec fn monowrap_options() -> Seq<OptionGroup> {
    seq![
        ("h"@, "help"@, "print this help menu"@, Seq::empty(), 0u8),
        ("m"@, "manifest"@, "path to manifest file"@, "MANIFEST"@, 1u8),
        ("s"@, "scope"@, "scope of dependencies for executing command"@, "SCOPE"@, 2u8),
        ("l"@, "log-level"@, "log level"@, "LOG_LEVEL"@, 1u8),
    ]
}

/// The usage text.
pub open spec fn usage_text() -> Seq<char> {
    getopts_usage(monowrap_options(), "Usage: pwr monowrap.eth COMMAND [options]"@)
}

/// The text of an error: the error, then the usage.
pub open spec fn error_text(e: Seq<char>) -> Seq<char> {
    "Error: "@ + e + "\n"@ + usage_text()
}

/// The manifest: the value of `-m`, else `./monowrap.json`.
pub open spec fn manifest_path(vals: Map<Seq<char>, Seq<Option<Seq<char>>>>) -> Seq<char> {
    match first_value(vals["m"@]) {
        Some(m) => m,
        None => "./monowrap.json"@,
    }
}

/// The scope: the values of `-s`, else `*`.
pub open spec fn scope_globs(vals: Map<Seq<char>, Seq<Option<Seq<char>>>>) -> Seq<Seq<char>> {
    if given_values(vals["s"@]).len() == 0 {
        seq!["*"@]
    } else {
        given_values(vals["s"@])
    }
}

/// The log level's key: the value of `-l`, else `INFO`.
pub open spec fn level_key(vals: Map<Seq<char>, Seq<Option<Seq<char>>>>) -> Seq<char> {
    match first_value(vals["l"@]) {
        Some(l) => l,
        None => "INFO"@,
    }
}

/// Parsing reaches the log level only with a key that names a level.
pub open spec fn level_accepted(args: Seq<Seq<char>>) -> bool {
    match getopts_parse(monowrap_options(), args) {
        Ok(parsed) => parsed.0["h"@].len() > 0 || parsed.1.len() == 0 || level_named(
            level_key(parsed.0),
        ) is Some,
        Err(_) => true,
    }
}

/// `r` is what parsing `args` gives: the failure with the usage; the usage
/// where help is asked for; an error where no command is given; else the
/// commands, the manifest, the scope and the log level.
pub open spec fn parsed_as(r: ArgParseResult, args: Seq<Seq<char>>) -> bool {
    match getopts_parse(monowrap_options(), args) {
        Err(e) => r matches ArgParseResult::Error(m) && m@ == error_text(e),
        Ok(parsed) => {
            let vals = parsed.0;
            let free = parsed.1;
            if vals["h"@].len() > 0 {
                r matches ArgParseResult::Help(u) && u@ == usage_text()
            } else if free.len() == 0 {
                r matches ArgParseResult::Error(m) && m@ == error_text("No command specified"@)
            } else {
                r matches ArgParseResult::Args(a) && {
                    &&& names_view(a.commands) == free
                    &&& a.manifest@ == manifest_path(vals)
                    &&& names_view(a.scope) == scope_globs(vals)
                    &&& level_named(level_key(vals)) == Some(a.log_level)
                }
            }
        },
    }
}

fn get_usage(opts: &getopts::Options) -> (r: String)
    requires
        option_groups(*opts) == monowrap_options(),
    ensures
        r@ == usage_text(),
{
    options_usage(opts, "Usage: pwr monowrap.eth COMMAND [options]")
}

fn get_error(opts: &getopts::Options, error: String) -> (r: String)
    requires
        option_groups(*opts) == monowrap_options(),
    ensures
        r@ == error_text(error@),
{
    let mut r = String::from_str("Error: ");
    r.append(error.as_str());
    r.append("\n");
    let usage = get_usage(opts);
    r.append(usage.as_str());
    r
}

/// Parses the command line, or says that the log level names no level.
fn parse_command_line(args: &Vec<String>) -> (r: Option<ArgParseResult>)
    ensures
        r is None == !level_accepted(names_view(*args)),
        r matches Some(p) ==> parsed_as(p, names_view(*args)),
{
    proof {
        reveal_strlit("h");
        reveal_strlit("help");
        reveal_strlit("m");
        reveal_strlit("manifest");
        reveal_strlit("s");
        reveal_strlit("scope");
        reveal_strlit("l");
        reveal_strlit("log-level");
        reveal_strlit("");
    }
    let mut opts = options_new();
    options_flag(&mut opts, "h", "help", "print this help menu");
    options_opt(&mut opts, "m", "manifest", "path to manifest file", "MANIFEST");
    options_multi(&mut opts, "s", "scope", "scope of dependencies for executing command", "SCOPE");
    options_opt(&mut opts, "l", "log-level", "log level", "LOG_LEVEL");
    proof {
        assert(option_groups(opts) =~= monowrap_options());
    }
    let matches = match options_parse(&opts, args) {
        Ok(m) => m,
        Err(f) => {
            return Some(ArgParseResult::Error(get_error(&opts, f)));
        },
    };
    proof {
        assert(monowrap_options()[0].0 == "h"@);
        assert(monowrap_options()[1].0 == "m"@);
        assert(monowrap_options()[2].0 == "s"@);
        assert(monowrap_options()[3].0 == "l"@);
    }
    if matches_present(&matches, "h") {
        return Some(ArgParseResult::Help(get_usage(&opts)));
    }
    let commands = matches_free_args(&matches);
    if commands.len() == 0 {
        return Some(ArgParseResult::Error(get_error(&opts, String::from_str("No command specified"))));
    }
    let manifest = match matches_str(&matches, "m") {
        Some(m) => m,
        None => String::from_str("./monowrap.json"),
    };
    let mut scope = matches_strs(&matches, "s");
    if scope.len() == 0 {
        scope.push(String::from_str("*"));
        proof {
            assert(names_view(scope) =~= seq!["*"@]);
        }
    }
    let log_level = match matches_str(&matches, "l") {
        Some(l) => l,
        None => String::from_str("INFO"),
    };
    match get_logger_log_level_value(log_level.as_str()) {
        Ok(level) => Some(ArgParseResult::Args(Args { commands, manifest, scope, log_level: level })),
        Err(_) => None,
    }
}

/// Parses the command line: the failure of `getopts`, the usage where help is
/// asked for, an error where no command is given, or the commands, the
/// manifest (default `./monowrap.json`), the scope (default `*`) and the log
/// level (default `INFO`).
pub fn arg_parse(args: Vec<String>) -> (r: ArgParseResult)
    requires
        level_accepted(names_view(args)),
    ensures
        parsed_as(r, names_view(args)),
{
    match parse_command_line(&args) {
        Some(r) => r,
        None => {
            proof {
                assert(false);
            }
            ArgParseResult::Help(String::new())
        },
    }
}

/// Parses the command line as `arg_parse` does, where the log level names a
/// level; `None` where it names none.
pub fn arg_parse_checked(args: Vec<String>) -> (r: Option<ArgParseResult>)
    ensures
        r is None == !level_accepted(names_view(args)),
        r matches Some(p) ==> parsed_as(p, names_view(args)),
{
    if parse_command_line(&args).is_none() {
        return None;
    }
    Some(arg_parse(args))
}

/// Help comes first: whenever `getopts` accepts the arguments and the help flag
/// occurs, the outcome is the usage text, whatever commands, manifest, scope or
/// log level are given.
pub proof fn lemma_help_comes_first(r: ArgParseResult, args: Seq<Seq<char>>)
    requires
        parsed_as(r, args),
        getopts_parse(monowrap_options(), args) is Ok,
        getopts_parse(monowrap_options(), args)->Ok_0.0["h"@].len() > 0,
    ensures
        r matches ArgParseResult::Help(u) && u@ == getopts_usage(
            monowrap_options(),
            "Usage: pwr monowrap.eth COMMAND [options]"@,
        ),
{
}

/// Without help and without a command, the outcome is the error
/// `No command specified` followed by the usage; a failure of `getopts` is
/// reported with the usage too.
pub proof fn lemma_errors_carry_usage(r: ArgParseResult, args: Seq<Seq<char>>)
    requires
        parsed_as(r, args),
    ensures
        getopts_parse(monowrap_options(), args) is Err ==> (r matches ArgParseResult::Error(m) && m@
            == "Error: "@ + getopts_parse(monowrap_options(), args)->Err_0 + "\n"@ + getopts_usage(
            monowrap_options(),
            "Usage: pwr monowrap.eth COMMAND [options]"@,
        )),
        getopts_parse(monowrap_options(), args) is Ok && getopts_parse(monowrap_options(), args)->Ok_0.0["h"@].len()
            == 0 && getopts_parse(monowrap_options(), args)->Ok_0.1.len() == 0 ==> (r matches ArgParseResult::Error(m)
            && m@ == "Error: "@ + "No command specified"@ + "\n"@ + getopts_usage(
            monowrap_options(),
            "Usage: pwr monowrap.eth COMMAND [options]"@,
        )),
{
}

/// With a command and no help, the commands are the free arguments, and the
/// manifest, scope and log level default to `./monowrap.json`, `*` and `INFO`.
pub proof fn lemma_args_and_defaults(r: ArgParseResult, args: Seq<Seq<char>>)
    requires
        parsed_as(r, args),
        getopts_parse(monowrap_options(), args) is Ok,
        getopts_parse(monowrap_options(), args)->Ok_0.0["h"@].len() == 0,
        getopts_parse(monowrap_options(), args)->Ok_0.1.len() > 0,
    ensures
        r matches ArgParseResult::Args(a) && {
            let vals = getopts_parse(monowrap_options(), args)->Ok_0.0;
            &&& names_view(a.commands) == getopts_parse(monowrap_options(), args)->Ok_0.1
            &&& (vals["m"@].len() == 0 ==> a.manifest@ == "./monowrap.json"@)
            &&& (vals["s"@].len() == 0 ==> names_view(a.scope) == seq!["*"@])
            &&& (vals["l"@].len() == 0 ==> a.log_level == LoggerLogLevel::INFO)
        },
{
    let vals = getopts_parse(monowrap_options(), args)->Ok_0.0;
    if vals["s"@].len() == 0 {
        assert(given_values(vals["s"@]) =~= Seq::<Seq<char>>::empty());
    }
    if vals["l"@].len() == 0 {
        reveal_strlit("INFO");
        reveal_strlit("DEBUG");
        assert("INFO"@[0] != "DEBUG"@[0]);
        assert("INFO"@ != "DEBUG"@);
    }
}

} // verus!
