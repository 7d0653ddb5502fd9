//! Verbosity levels and the notices they let through.
//!
//! A [`Logger`] never prints.  Each of its methods decides whether a message
//! is due at the logger's level and, when it is, hands back the [`Notice`] to
//! show; the caller owns the terminal.
use std::fmt::Display;
use vstd::prelude::*;
use vstd::string::*;

verus! {

/// How much a logger lets through, from everything to nothing.
#[derive(PartialEq, Eq, Clone, Copy, Debug, Structural)]
pub enum LogLevel {
    Debug,
    Info,
    Error,
    Quiet,
}

/// The kind of a notice; it selects the sink and the styling.
#[derive(PartialEq, Eq, Clone, Copy, Debug, Structural)]
pub enum NoticeKind {
    Debug,
    Step,
    Success,
    Warning,
    Intro,
    Outro,
    Error,
}

/// A message that is due for display.
#[derive(Debug)]
pub struct Notice {
    pub kind: NoticeKind,
    pub text: String,
}

/// A verbosity level, asked for each message whether the message is due.
pub struct Logger {
    level: LogLevel,
}

/// The release that the opening banner names.
pub const VERSION: &'static str = "1.0.0";

/// The opening banner.
pub open spec fn banner() -> Seq<char> {
    "Abstraktor - v"@ + VERSION@
}

/// The closing line.
pub open spec fn farewell() -> Seq<char> {
    "Execution successful!"@
}

/// Does `level` show progress messages (steps, successes, warnings)?
pub open spec fn shows_progress(level: LogLevel) -> bool {
    level == LogLevel::Debug || level == LogLevel::Info
}

/// Does `level` show anything at all?
pub open spec fn shows_anything(level: LogLevel) -> bool {
    level != LogLevel::Quiet
}

/// What a logger at a level that admits `kind` hands back for `message`.
pub open spec fn notice_of<T: Display>(kind: NoticeKind, message: &T, out: Option<Notice>) -> bool {
    match out {
        Some(notice) => notice.kind == kind && to_string_from_display_ensures::<T>(
            message,
            notice.text,
        ),
        None => false,
    }
}

impl Logger {
    /// The level of this logger.
    pub closed spec fn spec_level(&self) -> LogLevel {
        self.level
    }

    /// A logger at `level`.
    pub fn new(level: LogLevel) -> (logger: Self)
        ensures
            logger.spec_level() == level,
    {
        Self { level }
    }

    /// The level of this logger.
    #[verifier::when_used_as_spec(spec_level)]
    pub fn level(&self) -> (level: LogLevel)
        ensures
            level == self.spec_level(),
    {
        self.level
    }

    /// A debug message is due at level `Debug` only.
    pub fn debug<T: Display>(&self, message: T) -> (out: Option<Notice>)
        ensures
            self.level() != LogLevel::Debug ==> out is None,
            self.level() == LogLevel::Debug ==> notice_of(NoticeKind::Debug, &message, out),
    {
        if self.level != LogLevel::Debug {
            return None;
        }
        Some(Notice { kind: NoticeKind::Debug, text: message.to_string() })
    }

    /// A step is due at the levels `Debug` and `Info`.
    pub fn log<T: Display>(&self, message: T) -> (out: Option<Notice>)
        ensures
            !shows_progress(self.level()) ==> out is None,
            shows_progress(self.level()) ==> notice_of(NoticeKind::Step, &message, out),
    {
        if self.level == LogLevel::Quiet || self.level == LogLevel::Error {
            return None;
        }
        Some(Notice { kind: NoticeKind::Step, text: message.to_string() })
    }

    /// A success is due at the levels `Debug` and `Info`.
    pub fn success<T: Display>(&self, message: T) -> (out: Option<Notice>)
        ensures
            !shows_progress(self.level()) ==> out is None,
            shows_progress(self.level()) ==> notice_of(NoticeKind::Success, &message, out),
    {
        if self.level == LogLevel::Quiet || self.level == LogLevel::Error {
            return None;
        }
        Some(Notice { kind: NoticeKind::Success, text: message.to_string() })
    }

    /// A warning is due at the levels `Debug` and `Info`.
    pub fn warning<T: Display>(&self, message: T) -> (out: Option<Notice>)
        ensures
            !shows_progress(self.level()) ==> out is None,
            shows_progress(self.level()) ==> notice_of(NoticeKind::Warning, &message, out),
    {
        if self.level == LogLevel::Quiet || self.level == LogLevel::Error {
            return None;
        }
        Some(Notice { kind: NoticeKind::Warning, text: message.to_string() })
    }

    /// An error is due at every level but `Quiet`.
    pub fn error<T: Display>(&self, message: T) -> (out: Option<Notice>)
        ensures
            !shows_anything(self.level()) ==> out is None,
            shows_anything(self.level()) ==> notice_of(NoticeKind::Error, &message, out),
    {
        if self.level == LogLevel::Quiet {
            return None;
        }
        Some(Notice { kind: NoticeKind::Error, text: message.to_string() })
    }

    /// The opening banner is due at every level but `Quiet`.
    pub fn intro(&self) -> (out: Option<Notice>)
        ensures
            !shows_anything(self.level()) ==> out is None,
            shows_anything(self.level()) ==> (out matches Some(notice) && notice.kind
                == NoticeKind::Intro && notice.text@ == banner()),
    {
        if self.level == LogLevel::Quiet {
            return None;
        }
        let mut text = String::from_str("Abstraktor - v");
        text.append(VERSION);
        Some(Notice { kind: NoticeKind::Intro, text })
    }

    /// The closing line is due at every level but `Quiet`.
    pub fn outro(&self) -> (out: Option<Notice>)
        ensures
            !shows_anything(self.level()) ==> out is None,
            shows_anything(self.level()) ==> (out matches Some(notice) && notice.kind
                == NoticeKind::Outro && notice.text@ == farewell()),
    {
        if self.level == LogLevel::Quiet {
            return None;
        }
        Some(Notice { kind: NoticeKind::Outro, text: String::from_str("Execution successful!") })
    }
}

impl Default for Logger {
    /// A logger at level `Info`.
    fn default() -> (logger: Self)
        ensures
            logger.level() == LogLevel::Info,
    {
        Self::new(LogLevel::Info)
    }
}

} // verus!
