//! The data model: error entries, categories, the project's files and the
//! templates that render them.

use vstd::prelude::*;

use crate::text::{chars_of, push_all, same_text, string_of};

verus! {

/// Identifier of an error entry.
pub type ErrorId = String;

/// Identifier of a category.
pub type CategoryId = String;

/// One error of the catalogue.
#[derive(Debug, Clone)]
pub struct ErrorEntry {
    pub id: ErrorId,
    pub name: String,
    pub category_id: CategoryId,
    pub severity: Severity,
    pub message: String,
    pub hint: String,
}

/// How serious an error is.
#[derive(Debug, Clone, Copy, PartialEq, Eq, Structural)]
pub enum Severity {
    Info,
    Warning,
    Error,
    Critical,
}

/// A category that groups errors.
#[derive(Debug, Clone)]
pub struct Category {
    pub name: String,
    pub description: String,
}

/// The project's settings (`.newerr/config.toml`).
#[derive(Debug, Clone)]
pub struct ProjectConfig {
    pub generated_errors_file_path: String,
    /// Where the documentation is written by default.
    pub generated_docs_file_path: Option<String>,
    pub id_generator: IdGenerator,
    pub package: Option<String>,
}

/// The project's catalogue (`.newerr/errors.toml`).
///
/// `categories` maps category identifiers to categories; each identifier
/// stands at most once (see `wf`).
#[derive(Debug, Clone)]
pub struct ProjectErrors {
    pub categories: Vec<(CategoryId, Category)>,
    pub banned_ids: Vec<ErrorId>,
    pub errors: Vec<ErrorEntry>,
    pub last_id: Option<ErrorId>,
}

/// The strategy that gives each new error its identifier.
#[derive(Debug, Clone)]
pub enum IdGenerator {
    /// 0001, 0002, 0003...: an incrementing decimal counter.
    Sequential { digits: u8 },
    /// 0x1a, 0x1b...: an incrementing hexadecimal counter, written after `0x`.
    SequentialHex { digits: u8 },
    /// A random hexadecimal string of fixed length.
    RandomHex { length: u8 },
    /// A random alphanumeric string of fixed length.
    RandomHash { length: u8 },
    /// A UUID, whose length and alphabet its specification fixes.
    Uuid { version: UuidVersion },
    /// A random identifier matching a user pattern, a regular expression
    /// whose length the pattern implies (see `pattern`).
    Custom { regex: String },
}

/// The UUID versions that can be generated.
#[derive(Debug, Clone, Copy, PartialEq, Eq, Structural)]
pub enum UuidVersion {
    V4,
}

/// A property of an error that can be modified.
#[derive(Debug, Clone, Copy, PartialEq, Eq, Structural)]
pub enum ErrProp {
    Name,
    Message,
    Hint,
    Category,
    Severity,
}

/// A rendering template: a header, sections and a footer.
#[derive(Debug, Clone)]
pub struct Template {
    pub header: String,
    pub footer: String,
    pub sections: Vec<Section>,
}

/// One section of a template, rendered once over all categories.
#[derive(Debug, Clone)]
pub struct Section {
    pub prefix: String,
    pub suffix: String,
    /// Written after each emitted piece.
    pub end: String,
    /// Written after the pieces of a category, before its errors.
    pub category_end: String,
    pub category: Vec<Piece>,
    pub error: Vec<Piece>,
}

/// A piece of template text, left out when the named placeholder is blank.
#[derive(Debug, Clone)]
pub struct Piece {
    pub text: String,
    pub skip_if_empty: Option<Placeholder>,
}

/// The values a template can refer to.
#[derive(Debug, Clone, Copy, PartialEq, Eq, Structural)]
pub enum Placeholder {
    Id,
    Name,
    Message,
    Hint,
    Severity,
    Category,
    CategoryDescription,
    /// First error id of the current category (empty if it has no errors).
    CategoryIdStart,
    /// Last error id of the current category.
    CategoryIdEnd,
    Package,
}

/// The lower-case name of a severity.
pub open spec fn severity_text(s: Severity) -> Seq<char> {
    match s {
        Severity::Info => "info"@,
        Severity::Warning => "warning"@,
        Severity::Error => "error"@,
        Severity::Critical => "critical"@,
    }
}

/// The lower-case name of a modifiable property.
pub open spec fn prop_text(p: ErrProp) -> Seq<char> {
    match p {
        ErrProp::Name => "name"@,
        ErrProp::Message => "message"@,
        ErrProp::Hint => "hint"@,
        ErrProp::Category => "category"@,
        ErrProp::Severity => "severity"@,
    }
}

impl ErrProp {
    /// The lower-case name of this property.
    pub fn as_str(self) -> (r: &'static str)
        ensures
            r@ == prop_text(self),
    {
        match self {
            ErrProp::Name => "name",
            ErrProp::Message => "message",
            ErrProp::Hint => "hint",
            ErrProp::Category => "category",
            ErrProp::Severity => "severity",
        }
    }
}

impl Severity {
    /// The lower-case name of this severity.
    pub fn as_str(self) -> (r: &'static str)
        ensures
            r@ == severity_text(self),
    {
        match self {
            Severity::Info => "info",
            Severity::Warning => "warning",
            Severity::Error => "error",
            Severity::Critical => "critical",
        }
    }
}

/// The severity named by `s`, if `s` is the lower-case name of one.
pub open spec fn severity_named(s: Seq<char>) -> Option<Severity> {
    if s == "info"@ {
        Some(Severity::Info)
    } else if s == "warning"@ {
        Some(Severity::Warning)
    } else if s == "error"@ {
        Some(Severity::Error)
    } else if s == "critical"@ {
        Some(Severity::Critical)
    } else {
        None
    }
}

/// The severity named by `s`: `info`, `warning`, `error` or `critical`.
pub fn parse_severity(s: &str) -> (r: Option<Severity>)
    ensures
        r == severity_named(s@),
{
    if same_text(s, "info") {
        Some(Severity::Info)
    } else if same_text(s, "warning") {
        Some(Severity::Warning)
    } else if same_text(s, "error") {
        Some(Severity::Error)
    } else if same_text(s, "critical") {
        Some(Severity::Critical)
    } else {
        None
    }
}

/// The property named by `s`; `cathegory` is accepted for `category`.
pub open spec fn prop_named(s: Seq<char>) -> Option<ErrProp> {
    if s == "name"@ {
        Some(ErrProp::Name)
    } else if s == "message"@ {
        Some(ErrProp::Message)
    } else if s == "hint"@ {
        Some(ErrProp::Hint)
    } else if s == "category"@ || s == "cathegory"@ {
        Some(ErrProp::Category)
    } else if s == "severity"@ {
        Some(ErrProp::Severity)
    } else {
        None
    }
}

/// The property named on the command line, or the message
/// `invalid property: <s>` for an invalid one.
pub fn parse_err_prop(s: &str) -> (r: Result<ErrProp, String>)
    ensures
        match r {
            Ok(p) => prop_named(s@) == Some(p),
            Err(m) => prop_named(s@) is None && m@ == "invalid property: "@ + s@,
        },
{
    if same_text(s, "name") {
        Ok(ErrProp::Name)
    } else if same_text(s, "message") {
        Ok(ErrProp::Message)
    } else if same_text(s, "hint") {
        Ok(ErrProp::Hint)
    } else if same_text(s, "category") || same_text(s, "cathegory") {
        Ok(ErrProp::Category)
    } else if same_text(s, "severity") {
        Ok(ErrProp::Severity)
    } else {
        let mut m = chars_of("invalid property: ");
        push_all(&mut m, &chars_of(s));
        Err(string_of(&m))
    }
}

/// The text written between errors when a section gives none: a line break.
pub fn default_end() -> (r: String)
    ensures
        r@ == seq!['\n'],
{
    let mut v: Vec<char> = Vec::new();
    v.push('\n');
    string_of(&v)
}


/// Every severity's name reads back as that severity.
pub proof fn lemma_severity_names_read_back(s: Severity)
    ensures
        severity_named(severity_text(s)) == Some(s),
{
    reveal_strlit("info");
    reveal_strlit("warning");
    reveal_strlit("error");
    reveal_strlit("critical");
    assert("info"@.len() == 4 && "warning"@.len() == 7);
    assert("error"@.len() == 5 && "critical"@.len() == 8);
}

/// Every property's name reads back as that property.
pub proof fn lemma_prop_names_read_back(p: ErrProp)
    ensures
        prop_named(prop_text(p)) == Some(p),
{
    reveal_strlit("name");
    reveal_strlit("message");
    reveal_strlit("hint");
    reveal_strlit("category");
    reveal_strlit("cathegory");
    reveal_strlit("severity");
    assert("name"@.len() == 4 && "message"@.len() == 7 && "hint"@.len() == 4);
    assert("category"@.len() == 8 && "cathegory"@.len() == 9 && "severity"@.len() == 8);
    assert("name"@[0] != "hint"@[0]);
    assert("category"@[0] != "severity"@[0]);
}

} // verus!
