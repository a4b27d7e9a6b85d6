//! The errors of module and ability execution, and the text each one reads as.
use vstd::prelude::*;

use crate::text::{decimal_digits, decimal_string, hex_digits, hex_string};

verus! {

#[verifier::external_type_specification]
#[verifier::external_body]
pub struct ExIoError(std::io::Error);

#[verifier::external_type_specification]
#[verifier::external_body]
pub struct ExJsonError(serde_json::Error);

/// Why a module or an ability was skipped.
#[derive(Debug, Clone)]
pub enum SkipReason {
    /// Disabled by the user's configuration.
    Disabled,
    /// Needs administrator rights that the process does not have.
    RequiresAdmin,
    /// The operating system is not supported.
    UnsupportedOS,
    /// A dependency is missing.
    DependencyMissing(String),
    /// Excluded by a filter.
    FilteredOut,
    /// Any other reason.
    Other(String),
}

/// The error of every module and ability operation.
#[derive(Debug)]
pub enum ArcError {
    /// The caller lacks the rights (administrator, for instance).
    PermissionDenied,
    /// A resource was not found.
    NotFound(String),
    /// An I/O operation failed.
    Io(std::io::Error),
    /// A call into the operating system failed.
    OsApi { code: u32, message: String },
    /// Data could not be parsed or converted.
    ParseError { kind: String, detail: String },
    /// The operation was skipped.
    Skipped(SkipReason),
    /// The operation ran out of time.
    Timeout { operation: String, duration_secs: u64 },
    /// Serialisation or deserialisation failed.
    Serialization(String),
    /// The task queue is closed; nothing more can be put in it.
    QueueClosed,
    /// Any other error.
    Other(String),
}

/// Alias of [`ArcError`] for module operations.
pub type ModuleError = ArcError;

/// Alias of [`ArcError`] for ability operations.
pub type AbilityError = ArcError;

/// What `{:?}` prints for a string slice: the text in double quotes, with the
/// characters that need it escaped.
pub uninterp spec fn quoted_debug(s: Seq<char>) -> Seq<char>;

/// `format!("{:?}", s)` on a string slice: the `Debug` form of `s`, which is a
/// function of its characters alone.
#[verifier::external_body]
fn debug_quoted(s: &str) -> (r: String)
    ensures
        r@ == quoted_debug(s@),
{
    format!("{:?}", s)
}

/// `to_string` on a `std::io::Error`. The text of an operating-system error
/// comes from the system and its locale, so nothing is said of it.
#[verifier::external_body]
fn io_error_text(e: &std::io::Error) -> String {
    e.to_string()
}

/// `to_string` on a `serde_json::Error`. An error caused by I/O prints the
/// `std::io::Error`, whose text comes from the system and its locale, so
/// nothing is said of the result.
#[verifier::external_body]
fn json_error_text(e: &serde_json::Error) -> String {
    e.to_string()
}

/// The message of an I/O error whose own text (what the system prints for
/// it) is `text`.
pub fn io_message(text: &str) -> (r: String)
    ensures
        r@ == "I/O 错误: "@ + text@,
{
    String::from_str("I/O 错误: ").concat(text)
}

impl SkipReason {
    /// The text that `{:?}` prints for this reason.
    pub open spec fn debug_spec(&self) -> Seq<char> {
        match self {
            SkipReason::Disabled => "Disabled"@,
            SkipReason::RequiresAdmin => "RequiresAdmin"@,
            SkipReason::UnsupportedOS => "UnsupportedOS"@,
            SkipReason::DependencyMissing(s) => "DependencyMissing("@ + quoted_debug(s@) + ")"@,
            SkipReason::FilteredOut => "FilteredOut"@,
            SkipReason::Other(s) => "Other("@ + quoted_debug(s@) + ")"@,
        }
    }

    /// The `Debug` text of this reason, as the error messages show it.
    pub fn debug_text(&self) -> (r: String)
        ensures
            r@ == self.debug_spec(),
    {
        match self {
            SkipReason::Disabled => String::from_str("Disabled"),
            SkipReason::RequiresAdmin => String::from_str("RequiresAdmin"),
            SkipReason::UnsupportedOS => String::from_str("UnsupportedOS"),
            SkipReason::DependencyMissing(s) => {
                let mut r = String::from_str("DependencyMissing(");
                r.append(debug_quoted(s.as_str()).as_str());
                r.append(")");
                r
            },
            SkipReason::FilteredOut => String::from_str("FilteredOut"),
            SkipReason::Other(s) => {
                let mut r = String::from_str("Other(");
                r.append(debug_quoted(s.as_str()).as_str());
                r.append(")");
                r
            },
        }
    }
}

impl ArcError {
    /// An operating-system API error with its code and message.
    pub fn os_api(code: u32, message: &str) -> (r: Self)
        ensures
            r matches ArcError::OsApi { code: c, message: m } && c == code && m@ == message@,
    {
        ArcError::OsApi { code, message: String::from_str(message) }
    }

    /// A parse error of the given kind, with its detail.
    pub fn parse(kind: &str, detail: &str) -> (r: Self)
        ensures
            r matches ArcError::ParseError { kind: k, detail: d } && k@ == kind@ && d@ == detail@,
    {
        ArcError::ParseError { kind: String::from_str(kind), detail: String::from_str(detail) }
    }

    /// A timeout of the named operation after the given number of seconds.
    pub fn timeout(operation: &str, duration_secs: u64) -> (r: Self)
        ensures
            r matches ArcError::Timeout { operation: o, duration_secs: s } && o@ == operation@
                && s == duration_secs,
    {
        ArcError::Timeout { operation: String::from_str(operation), duration_secs }
    }

    /// Whether this error says that the operation was skipped.
    pub fn is_skipped(&self) -> (r: bool)
        ensures
            r == (self is Skipped),
    {
        matches!(self, ArcError::Skipped(_))
    }

    /// The message of every error but [`ArcError::Io`], whose message ends
    /// in text that the operating system supplies.
    pub open spec fn message_spec(&self) -> Seq<char> {
        match self {
            ArcError::PermissionDenied => "权限不足/Permission Denied"@,
            ArcError::NotFound(res) => "未找到资源: "@ + res@,
            ArcError::Io(_) => "I/O 错误: "@,
            ArcError::OsApi { code, message } => "OS API 错误 (0x"@ + hex_digits(*code as nat)
                + "): "@ + message@,
            ArcError::ParseError { kind, detail } => "解析错误 ("@ + kind@ + "): "@ + detail@,
            ArcError::Skipped(reason) => "操作已跳过: "@ + reason.debug_spec(),
            ArcError::Timeout { operation, duration_secs } => "操作超时 ("@ + decimal_digits(
                *duration_secs as nat,
            ) + "s): "@ + operation@,
            ArcError::Serialization(msg) => "序列化错误: "@ + msg@,
            ArcError::QueueClosed => "任务队列已关闭/Task queue is closed"@,
            ArcError::Other(msg) => "错误: "@ + msg@,
        }
    }

    /// The human-readable message of this error (its `Display` text). That
    /// of an [`ArcError::Io`] is [`io_message`] of the text the system
    /// prints for the I/O error.
    pub fn message(&self) -> (r: String)
        ensures
            !(self is Io) ==> r@ == self.message_spec(),
            self is Io ==> r@.len() >= self.message_spec().len() && r@.subrange(
                0,
                self.message_spec().len() as int,
            ) == self.message_spec(),
    {
        match self {
            ArcError::PermissionDenied => String::from_str("权限不足/Permission Denied"),
            ArcError::NotFound(res) => String::from_str("未找到资源: ").concat(res.as_str()),
            ArcError::Io(e) => {
                let r = io_message(io_error_text(e).as_str());
                assert(r@.subrange(0, "I/O 错误: "@.len() as int) =~= "I/O 错误: "@);
                r
            },
            ArcError::OsApi { code, message } => {
                let mut r = String::from_str("OS API 错误 (0x");
                r.append(hex_string(*code).as_str());
                r.append("): ");
                r.append(message.as_str());
                r
            },
            ArcError::ParseError { kind, detail } => {
                let mut r = String::from_str("解析错误 (");
                r.append(kind.as_str());
                r.append("): ");
                r.append(detail.as_str());
                r
            },
            ArcError::Skipped(reason) => String::from_str("操作已跳过: ").concat(
                reason.debug_text().as_str(),
            ),
            ArcError::Timeout { operation, duration_secs } => {
                let mut r = String::from_str("操作超时 (");
                r.append(decimal_string(*duration_secs).as_str());
                r.append("s): ");
                r.append(operation.as_str());
                r
            },
            ArcError::Serialization(msg) => String::from_str("序列化错误: ").concat(msg.as_str()),
            ArcError::QueueClosed => String::from_str("任务队列已关闭/Task queue is closed"),
            ArcError::Other(msg) => String::from_str("错误: ").concat(msg.as_str()),
        }
    }
}

impl From<std::io::Error> for ArcError {
    fn from(e: std::io::Error) -> (r: Self) {
        ArcError::Io(e)
    }
}

impl vstd::std_specs::convert::FromSpecImpl<std::io::Error> for ArcError {
    open spec fn obeys_from_spec() -> bool {
        true
    }

    open spec fn from_spec(v: std::io::Error) -> Self {
        ArcError::Io(v)
    }
}

impl From<serde_json::Error> for ArcError {
    /// A JSON error becomes a [`ArcError::Serialization`] holding the
    /// error's text.
    fn from(e: serde_json::Error) -> (r: Self)
        ensures
            r is Serialization,
    {
        ArcError::Serialization(json_error_text(&e))
    }
}

/// The text that a JSON error's conversion holds is not a function of the
/// error alone (see `json_error_text`), so no whole result is given here;
/// the conversion's own contract says which variant it is.
impl vstd::std_specs::convert::FromSpecImpl<serde_json::Error> for ArcError {
    open spec fn obeys_from_spec() -> bool {
        false
    }

    open spec fn from_spec(v: serde_json::Error) -> Self {
        vstd::pervasive::arbitrary()
    }
}

} // verus!
