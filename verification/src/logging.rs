//! Log lines: how an entry is written in each format and which stream it
//! goes to.

use vstd::prelude::*;

verus! {

/// Logging format - plain text or JSON
#[derive(Clone, Copy, Debug, PartialEq, Eq)]
pub enum LogFormat {
    /// Plain text format: "[LEVEL] message"
    Plain,
    /// JSON format: {"level":"LEVEL","message":"..."}
    Json,
}

/// Log levels
#[derive(Clone, Copy, Debug, PartialEq, Eq)]
pub enum LogLevel {
    Debug,
    Info,
    Warn,
    Error,
}

/// The stream that a log line is written to.
#[derive(Clone, Copy, Debug, PartialEq, Eq)]
pub enum LogStream {
    Stdout,
    Stderr,
}

/// The name under which a level is written.
pub open spec fn level_name(level: LogLevel) -> Seq<char> {
    match level {
        LogLevel::Debug => "DEBUG"@,
        LogLevel::Info => "INFO"@,
        LogLevel::Warn => "WARN"@,
        LogLevel::Error => "ERROR"@,
    }
}

impl LogLevel {
    /// Returns the string representation of the log level
    pub fn as_str(&self) -> (name: &'static str)
        ensures
            name@ == level_name(*self),
    {
        match self {
            LogLevel::Debug => "DEBUG",
            LogLevel::Info => "INFO",
            LogLevel::Warn => "WARN",
            LogLevel::Error => "ERROR",
        }
    }
}

/// The lower-case hexadecimal digit for `d`, `0 <= d < 16`.
pub open spec fn hex_digit(d: int) -> char {
    seq!['0', '1', '2', '3', '4', '5', '6', '7', '8', '9', 'a', 'b', 'c', 'd', 'e', 'f'][d]
}

/// How one character is written inside a JSON string: a quote, a backslash
/// and the five control characters with a short escape get a backslash and
/// a letter, every other character below U+0020 is written `\u00` and two
/// hexadecimal digits, and every other character stands for itself.
pub open spec fn json_escape_char(c: char) -> Seq<char> {
    if c == '"' {
        seq!['\\', '"']
    } else if c == '\\' {
        seq!['\\', '\\']
    } else if c == '\u{8}' {
        seq!['\\', 'b']
    } else if c == '\t' {
        seq!['\\', 't']
    } else if c == '\n' {
        seq!['\\', 'n']
    } else if c == '\u{c}' {
        seq!['\\', 'f']
    } else if c == '\r' {
        seq!['\\', 'r']
    } else if (c as int) < 0x20 {
        seq!['\\', 'u', '0', '0', hex_digit((c as int) / 16), hex_digit((c as int) % 16)]
    } else {
        seq![c]
    }
}

/// The characters of `text`, each written as inside a JSON string.
pub open spec fn json_escaped(text: Seq<char>) -> Seq<char>
    decreases text.len(),
{
    if text.len() == 0 {
        Seq::empty()
    } else {
        json_escape_char(text[0]) + json_escaped(text.drop_first())
    }
}

/// The JSON string literal for `text`: its escaped characters in quotes.
pub open spec fn json_string_literal(text: Seq<char>) -> Seq<char> {
    seq!['"'] + json_escaped(text) + seq!['"']
}

/// Calls `serde_json::Value::to_string` on `serde_json::Value::String`, which
/// writes a JSON string compactly: the contract claims that the result is
/// `text` in double quotes with serde_json's escapes, as `json_escape_char`
/// states them.
#[verifier::external_body]
fn json_quote(text: &str) -> (quoted: String)
    ensures
        quoted@ == json_string_literal(text@),
{
    serde_json::Value::String(text.to_string()).to_string()
}

/// The line that records `message` at `level` in `format`: `[LEVEL] message`
/// in plain text, and in JSON an object with the members `level` and
/// `message`, written compactly.
pub fn format_log_line(format: LogFormat, level: LogLevel, message: &str) -> (line: String)
    ensures
        line@ == match format {
            LogFormat::Plain => "["@ + level_name(level) + "] "@ + message@,
            LogFormat::Json => "{\"level\":"@ + json_string_literal(level_name(level))
                + ",\"message\":"@ + json_string_literal(message@) + "}"@,
        },
{
    match format {
        LogFormat::Plain => {
            let mut line = String::from_str("[");
            line.append(level.as_str());
            line.append("] ");
            line.append(message);
            line
        },
        LogFormat::Json => {
            let mut line = String::from_str("{\"level\":");
            let name = json_quote(level.as_str());
            line.append(name.as_str());
            line.append(",\"message\":");
            let text = json_quote(message);
            line.append(text.as_str());
            line.append("}");
            line
        },
    }
}

/// Where a line at `level` goes: under systemd's journal everything goes to
/// standard output; otherwise debug and info lines go to standard output and
/// warnings and errors to standard error.
pub fn log_stream(level: LogLevel, systemd: bool) -> (stream: LogStream)
    ensures
        stream == (if systemd || level == LogLevel::Debug || level == LogLevel::Info {
            LogStream::Stdout
        } else {
            LogStream::Stderr
        }),
{
    if systemd {
        LogStream::Stdout
    } else {
        match level {
            LogLevel::Debug | LogLevel::Info => LogStream::Stdout,
            LogLevel::Warn | LogLevel::Error => LogStream::Stderr,
        }
    }
}

} // verus!
