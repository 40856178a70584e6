//! Log levels and loggers: a logger emits a message when its level is at or
//! below the message's level, prefixed with the logger's name and the level.
use crate::keys::{compare_strs, KeyOrder};
use vstd::prelude::*;

verus! {

/// The level of a log message.
#[allow(non_camel_case_types)]
#[derive(Clone, Copy, Debug, PartialEq, Eq, Structural)]
pub enum LoggerLogLevel {
    DEBUG,
    INFO,
    WARN,
    ERROR,
}

/// The number of a level: `DEBUG` is 0, `INFO` 1, `WARN` 2, `ERROR` 3.
pub open spec fn level_value(l: LoggerLogLevel) -> u32 {
    match l {
        LoggerLogLevel::DEBUG => 0,
        LoggerLogLevel::INFO => 1,
        LoggerLogLevel::WARN => 2,
        LoggerLogLevel::ERROR => 3,
    }
}

/// The number of a level.
pub fn level_number(l: LoggerLogLevel) -> (n: u32)
    ensures
        n == level_value(l),
{
    match l {
        LoggerLogLevel::DEBUG => 0,
        LoggerLogLevel::INFO => 1,
        LoggerLogLevel::WARN => 2,
        LoggerLogLevel::ERROR => 3,
    }
}

/// The level named by `key`, if it names one.
pub open spec fn level_named(key: Seq<char>) -> Option<LoggerLogLevel> {
    if key == "DEBUG"@ {
        Some(LoggerLogLevel::DEBUG)
    } else if key == "INFO"@ {
        Some(LoggerLogLevel::INFO)
    } else if key == "WARN"@ {
        Some(LoggerLogLevel::WARN)
    } else if key == "ERROR"@ {
        Some(LoggerLogLevel::ERROR)
    } else {
        None
    }
}

/// The level named by `key`, or the message that names the invalid key.
pub fn get_logger_log_level_value(key: &str) -> (r: Result<LoggerLogLevel, String>)
    ensures
        match level_named(key@) {
            Some(l) => r == Ok::<LoggerLogLevel, String>(l),
            None => r matches Err(e) && e@ == "Invalid key for enum 'LoggerLogLevel': "@ + key@,
        },
{
    if let KeyOrder::Equal = compare_strs(key, "DEBUG") {
        Ok(LoggerLogLevel::DEBUG)
    } else if let KeyOrder::Equal = compare_strs(key, "INFO") {
        Ok(LoggerLogLevel::INFO)
    } else if let KeyOrder::Equal = compare_strs(key, "WARN") {
        Ok(LoggerLogLevel::WARN)
    } else if let KeyOrder::Equal = compare_strs(key, "ERROR") {
        Ok(LoggerLogLevel::ERROR)
    } else {
        let mut e = String::from_str("Invalid key for enum 'LoggerLogLevel': ");
        e.append(key);
        Err(e)
    }
}

/// A message to log, with its level.
#[derive(Clone, Debug)]
pub struct LogMessage {
    pub message: String,
    pub level: LoggerLogLevel,
}

/// The message that `print` logs: `msg` at level `INFO`.
pub fn print(msg: String) -> (m: LogMessage)
    ensures
        m.message == msg,
        m.level == LoggerLogLevel::INFO,
{
    LogMessage { message: msg, level: LoggerLogLevel::INFO }
}

/// The message that `print_error` logs: `msg` at level `ERROR`.
pub fn print_error(msg: String) -> (m: LogMessage)
    ensures
        m.message == msg,
        m.level == LoggerLogLevel::ERROR,
{
    LogMessage { message: msg, level: LoggerLogLevel::ERROR }
}

/// A named logger with a threshold level.
#[derive(Clone, Debug)]
pub struct Logger {
    pub name: String,
    pub level: u32,
}

/// A logger whose threshold is `level` emits messages of level `at`.
pub open spec fn emits(level: u32, at: LoggerLogLevel) -> bool {
    level <= level_value(at)
}

/// The text a logger named `name` emits for `msg` at level `tag`.
pub open spec fn log_line(name: Seq<char>, tag: Seq<char>, msg: Seq<char>) -> Seq<char> {
    name + ": "@ + tag + " - "@ + msg
}

impl Logger {
    pub fn new(name: String, level: LoggerLogLevel) -> (l: Logger)
        ensures
            l.name == name,
            l.level == level_value(level),
    {
        Logger { name, level: level_number(level) }
    }

    /// A logger named `<name>.<sub>` with the same threshold.
    pub fn sub_logger(&self, name: String) -> (l: Logger)
        ensures
            l.name@ == self.name@ + "."@ + name@,
            l.level == self.level,
    {
        let mut n = self.name.clone();
        n.append(".");
        n.append(name.as_str());
        Logger { name: n, level: self.level }
    }

    fn line(&self, tag: &str, msg: &String, level: LoggerLogLevel) -> (r: Option<LogMessage>)
        ensures
            r is Some == emits(self.level, level),
            r matches Some(m) ==> m.message@ == log_line(self.name@, tag@, msg@) && m.level
                == level,
    {
        if self.level <= level_number(level) {
            let mut s = self.name.clone();
            s.append(": ");
            s.append(tag);
            s.append(" - ");
            s.append(msg.as_str());
            proof {
                assert(s@ =~= log_line(self.name@, tag@, msg@));
            }
            Some(LogMessage { message: s, level })
        } else {
            None
        }
    }

    /// The message to log at level `DEBUG`: `<name>: DEBUG - <msg>`, where the
    /// threshold allows it.
    pub fn debug(&self, msg: String) -> (r: Option<LogMessage>)
        ensures
            r is Some == emits(self.level, LoggerLogLevel::DEBUG),
            r is Some == (self.level <= 0),
            r matches Some(m) ==> m.message@ == log_line(self.name@, "DEBUG"@, msg@) && m.level
                == LoggerLogLevel::DEBUG,
    {
        self.line("DEBUG", &msg, LoggerLogLevel::DEBUG)
    }

    /// The message to log at level `INFO`: `<name>: INFO - <msg>`, where the
    /// threshold allows it.
    pub fn info(&self, msg: String) -> (r: Option<LogMessage>)
        ensures
            r is Some == emits(self.level, LoggerLogLevel::INFO),
            r is Some == (self.level <= 1),
            r matches Some(m) ==> m.message@ == log_line(self.name@, "INFO"@, msg@) && m.level
                == LoggerLogLevel::INFO,
    {
        self.line("INFO", &msg, LoggerLogLevel::INFO)
    }

    /// The message to log at level `WARN`: `<name>: WARN - <msg>`, where the
    /// threshold allows it.
    pub fn warn(&self, msg: String) -> (r: Option<LogMessage>)
        ensures
            r is Some == emits(self.level, LoggerLogLevel::WARN),
            r is Some == (self.level <= 2),
            r matches Some(m) ==> m.message@ == log_line(self.name@, "WARN"@, msg@) && m.level
                == LoggerLogLevel::WARN,
    {
        self.line("WARN", &msg, LoggerLogLevel::WARN)
    }

    /// The message to log at level `ERROR`: `<name>: ERROR - <msg>`, where the
    /// threshold allows it.
    pub fn error(&self, msg: String) -> (r: Option<LogMessage>)
        ensures
            r is Some == emits(self.level, LoggerLogLevel::ERROR),
            r is Some == (self.level <= 3),
            r matches Some(m) ==> m.message@ == log_line(self.name@, "ERROR"@, msg@) && m.level
                == LoggerLogLevel::ERROR,
    {
        self.line("ERROR", &msg, LoggerLogLevel::ERROR)
    }
}

/// A logger that emits a message of some level emits every message of a
/// higher level too.
pub proof fn lemma_emits_upward(level: u32, a: LoggerLogLevel, b: LoggerLogLevel)
    requires
        emits(level, a),
        level_value(a) <= level_value(b),
    ensures
        emits(level, b),
{
}

/// A logger emits a message exactly when its threshold is at most the
/// message's level number: `DEBUG` 0, `INFO` 1, `WARN` 2, `ERROR` 3. So a
/// logger at `WARN` (2) emits neither `INFO` nor `DEBUG` messages.
pub proof fn lemma_emits_exactly(level: u32)
    ensures
        emits(level, LoggerLogLevel::DEBUG) <==> level <= 0,
        emits(level, LoggerLogLevel::INFO) <==> level <= 1,
        emits(level, LoggerLogLevel::WARN) <==> level <= 2,
        emits(level, LoggerLogLevel::ERROR) <==> level <= 3,
{
}

/// A logger made at a level emits the messages of that level and above, and
/// none below it.
pub proof fn lemma_logger_threshold(made: LoggerLogLevel, at: LoggerLogLevel)
    ensures
        emits(level_value(made), at) <==> (made == at || match made {
            LoggerLogLevel::DEBUG => true,
            LoggerLogLevel::INFO => at != LoggerLogLevel::DEBUG,
            LoggerLogLevel::WARN => at == LoggerLogLevel::ERROR,
            LoggerLogLevel::ERROR => false,
        }),
{
}

} // verus!
