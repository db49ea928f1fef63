//! What filter compilation reports besides the filter: clauses that
//! were ignored as invalid, each with its location in the input, and
//! directives that a compiled-in verbosity ceiling makes moot. All of
//! it is plain data with character offsets into the source text, ready
//! for a renderer to point carets at.

use vstd::prelude::*;

use crate::level::Level;

verus! {

/// A half-open range of character offsets into the source text.
#[derive(Clone, Copy, Debug, PartialEq, Eq, Structural)]
pub struct SourceRange {
    pub start: usize,
    pub end: usize,
}

/// Why one comma-separated clause was ignored, and where.
#[derive(Debug, PartialEq, Eq)]
pub enum IgnoredDirective {
    /// The clause does not begin with a target or a span part.
    InvalidTarget { span: SourceRange },
    /// What follows `=` is not a level.
    InvalidLevel { span: SourceRange },
    /// A field value failed to compile as a pattern.
    InvalidRegex { message: String, span: SourceRange },
    /// Text was left over after the target, span and level parts.
    InvalidTrailing { span: SourceRange },
    /// A span part was opened with `[` but never closed.
    UnclosedSpan { open: SourceRange, close: SourceRange },
}

/// The mathematical value of an [`IgnoredDirective`].
#[verifier::ext_equal]
pub enum IgnoredDirectiveV {
    InvalidTarget { span: SourceRange },
    InvalidLevel { span: SourceRange },
    InvalidRegex { message: Seq<char>, span: SourceRange },
    InvalidTrailing { span: SourceRange },
    UnclosedSpan { open: SourceRange, close: SourceRange },
}

impl View for IgnoredDirective {
    type V = IgnoredDirectiveV;

    open spec fn view(&self) -> IgnoredDirectiveV {
        match self {
            IgnoredDirective::InvalidTarget { span } => IgnoredDirectiveV::InvalidTarget {
                span: *span,
            },
            IgnoredDirective::InvalidLevel { span } => IgnoredDirectiveV::InvalidLevel {
                span: *span,
            },
            IgnoredDirective::InvalidRegex { message, span } => IgnoredDirectiveV::InvalidRegex {
                message: message@,
                span: *span,
            },
            IgnoredDirective::InvalidTrailing { span } => IgnoredDirectiveV::InvalidTrailing {
                span: *span,
            },
            IgnoredDirective::UnclosedSpan { open, close } => IgnoredDirectiveV::UnclosedSpan {
                open: *open,
                close: *close,
            },
        }
    }
}

/// One directive made moot by the compiled-in verbosity ceiling: its
/// canonical text, the level it asked for, and a description of what
/// it would have applied to.
#[derive(Debug, PartialEq, Eq)]
pub struct DisabledDirective {
    pub directive: String,
    pub level: Level,
    pub target: String,
}

/// The advisory naming the ceiling that would need to change.
#[derive(Debug, PartialEq, Eq)]
pub struct StaticMaxAdvice {
    pub static_level: Level,
    pub earlier_level: Option<Level>,
    pub feature: String,
}

/// All directives the ceiling makes moot, with the advisory.
#[derive(Debug, PartialEq, Eq)]
pub struct DisabledDirectives {
    pub directives: Vec<DisabledDirective>,
    pub static_max: Option<StaticMaxAdvice>,
}

/// Everything filter compilation has to report: a structural error that
/// prevented building any filter at all, the clauses that were ignored,
/// the ceiling advisory, and the source text the locations point into.
#[derive(Debug)]
pub struct Diagnostics {
    pub error: Option<String>,
    pub ignored: Vec<IgnoredDirective>,
    pub disabled: Option<DisabledDirectives>,
    pub source: String,
}

/// How a report should be rendered; the rendering itself is the host's
/// business.
#[derive(Debug, Clone, Copy, PartialEq, Eq, Hash, Structural)]
pub enum DiagnosticsTheme {
    Ascii,
    AsciiNocolor,
    Unicode,
    UnicodeNocolor,
    Guess,
}

impl Diagnostics {
    /// Whether a structural error prevented building a filter at all.
    pub fn is_error(&self) -> (r: bool)
        ensures
            r == (self.error is Some),
    {
        self.error.is_some()
    }

    /// Whether anything non-fatal was reported: ignored clauses, or
    /// ceiling-disabled directives.
    pub fn is_warning(&self) -> (r: bool)
        ensures
            r == (self.ignored@.len() > 0 || self.disabled is Some),
    {
        self.ignored.len() > 0 || self.disabled.is_some()
    }

    /// Whether there is nothing to report at all.
    pub fn is_empty(&self) -> (r: bool)
        ensures
            r == !(self.error is Some || self.ignored@.len() > 0 || self.disabled is Some),
    {
        !self.is_error() && !self.is_warning()
    }

    /// This report, owning its source text. (It already does: the
    /// method stays for callers that held a borrowed-source report.)
    pub fn into_owned(self) -> (r: Diagnostics)
        ensures
            r == self,
    {
        self
    }
}

} // verus!

// === views ===

verus! {

/// The mathematical value of a [`DisabledDirective`].
#[verifier::ext_equal]
pub struct DisabledDirectiveV {
    pub directive: Seq<char>,
    pub level: Level,
    pub target: Seq<char>,
}

impl View for DisabledDirective {
    type V = DisabledDirectiveV;

    open spec fn view(&self) -> DisabledDirectiveV {
        DisabledDirectiveV {
            directive: self.directive@,
            level: self.level,
            target: self.target@,
        }
    }
}

/// The mathematical value of a [`StaticMaxAdvice`].
#[verifier::ext_equal]
pub struct StaticMaxAdviceV {
    pub static_level: Level,
    pub earlier_level: Option<Level>,
    pub feature: Seq<char>,
}

impl View for StaticMaxAdvice {
    type V = StaticMaxAdviceV;

    open spec fn view(&self) -> StaticMaxAdviceV {
        StaticMaxAdviceV {
            static_level: self.static_level,
            earlier_level: self.earlier_level,
            feature: self.feature@,
        }
    }
}

pub open spec fn igs_v(s: Seq<IgnoredDirective>) -> Seq<IgnoredDirectiveV> {
    s.map_values(|d: IgnoredDirective| d@)
}

pub open spec fn disabled_v(s: Seq<DisabledDirective>) -> Seq<DisabledDirectiveV> {
    s.map_values(|d: DisabledDirective| d@)
}

} // verus!
