//! Errors of every Luminess operation, their messages and their classification.
use crate::text::{decimal, decimal_string, opt_view, strings_view, to_owned_string};
use vstd::prelude::*;

verus! {

/// `std::io::Error`, which the constructors of I/O errors take.
#[verifier::external_type_specification]
#[verifier::external_body]
pub struct ExIoError(std::io::Error);

/// The classes of I/O failure that decide whether an I/O error is recoverable.
#[derive(Debug, Clone, Copy, PartialEq, Eq)]
pub enum IoErrorKind {
    /// The file was not found.
    NotFound,
    /// Access to the file was refused.
    PermissionDenied,
    /// Any other I/O failure.
    Other,
}

/// What an I/O error reported: its class and its message.
#[derive(Debug)]
pub struct IoFailure {
    /// The class of the failure.
    pub kind: IoErrorKind,
    /// The text that the error displays.
    pub message: String,
}

/// Reads the class and the displayed text of an `std::io::Error`
/// (`io::Error::kind` and its `Display`). Nothing is stated of the result:
/// Verus sees nothing inside an `io::Error`.
#[verifier::external_body]
fn describe_io_error(error: &std::io::Error) -> (r: IoFailure) {
    let kind = match error.kind() {
        std::io::ErrorKind::NotFound => IoErrorKind::NotFound,
        std::io::ErrorKind::PermissionDenied => IoErrorKind::PermissionDenied,
        _ => IoErrorKind::Other,
    };
    IoFailure { kind, message: format!("{}", error) }
}

/// Errors of every Luminess operation.
#[derive(Debug)]
#[allow(inconsistent_fields)]
pub enum LuminessError {
    /// The input could not be tokenized.
    Lexer {
        /// What went wrong.
        message: String,
        /// Line of the error (from 1).
        line: usize,
        /// Column of the error (from 1).
        column: usize,
        /// A piece of the source that shows the error.
        snippet: Option<String>,
    },
    /// The tokens could not be parsed.
    Parse {
        /// What went wrong.
        message: String,
        /// Line of the error (from 1).
        line: usize,
        /// Column of the error (from 1).
        column: usize,
        /// A piece of the source that shows the error.
        snippet: Option<String>,
    },
    /// A template was not found.
    TemplateNotFound {
        /// The template that was asked for.
        name: String,
        /// The paths that were searched.
        searched_paths: Vec<String>,
    },
    /// An include could not be resolved.
    Resolution {
        /// What went wrong.
        message: String,
        /// The template that failed to resolve.
        template: String,
        /// The path that was being resolved.
        path: Option<String>,
    },
    /// Data in the context could not be used.
    Context {
        /// What went wrong.
        message: String,
        /// The path that was accessed.
        path: Option<String>,
        /// The keys that were available there.
        available: Vec<String>,
    },
    /// A directive failed.
    Directive {
        /// The directive.
        directive: String,
        /// What went wrong.
        message: String,
        /// The value the directive was applied to.
        input_value: Option<String>,
        /// Where in the template it happened.
        location: Option<String>,
    },
    /// A value could not be converted.
    Type {
        /// The value.
        value: String,
        /// The type asked for.
        expected_type: String,
        /// The type found.
        actual_type: String,
    },
    /// A file could not be read.
    Io {
        /// The file.
        path: String,
        /// What the I/O error reported.
        source: IoFailure,
    },
    /// The configuration is wrong.
    Config {
        /// What went wrong.
        message: String,
        /// The configuration key at fault.
        key: Option<String>,
    },
    /// Rendering failed.
    Render {
        /// The template being rendered.
        template: String,
        /// What went wrong.
        message: String,
        /// The line in the template.
        line: Option<usize>,
    },
    /// Includes refer to each other in a cycle.
    CircularReference {
        /// The chain of references.
        chain: String,
    },
    /// An error that normal operation never produces.
    Internal {
        /// What went wrong.
        message: String,
        /// Where it happened.
        context: Option<String>,
    },
}

/// Each item on a line of its own, after two spaces and a dash.
pub open spec fn bullet_list(items: Seq<Seq<char>>) -> Seq<char>
    decreases items.len(),
{
    if items.len() == 0 {
        Seq::empty()
    } else {
        bullet_list(items.drop_last()) + "\n  - "@ + items.last()
    }
}

/// Two blank-line separated paragraphs when the second is there.
pub open spec fn with_paragraph(text: Seq<char>, extra: Option<Seq<char>>) -> Seq<char> {
    match extra {
        Some(e) => text + "\n\n"@ + e,
        None => text,
    }
}

/// Whether `needle` stands somewhere in `hay`.
pub open spec fn contains_text(hay: Seq<char>, needle: Seq<char>) -> bool {
    exists|i: int| 0 <= i && i + needle.len() <= hay.len() && #[trigger] hay.subrange(i, i + needle.len()) == needle
}

proof fn lemma_contains_in_concat(a: Seq<char>, b: Seq<char>, c: Seq<char>, needle: Seq<char>)
    requires
        contains_text(b, needle),
    ensures
        contains_text(a + b + c, needle),
{
    let i = choose|i: int| 0 <= i && i + needle.len() <= b.len() && #[trigger] b.subrange(i, i + needle.len()) == needle;
    let j = a.len() + i;
    assert((a + b + c).subrange(j, j + needle.len()) =~= b.subrange(i, i + needle.len()));
}

proof fn lemma_contains_self(x: Seq<char>)
    ensures
        contains_text(x, x),
{
    assert(x.subrange(0, 0int + x.len()) =~= x);
}

proof fn lemma_bullets_contain(items: Seq<Seq<char>>, k: int)
    requires
        0 <= k < items.len(),
    ensures
        contains_text(bullet_list(items), items[k]),
    decreases items.len(),
{
    let init = items.drop_last();
    if k == items.len() - 1 {
        lemma_contains_self(items[k]);
        lemma_contains_in_concat(bullet_list(init) + "\n  - "@, items[k], Seq::empty(), items[k]);
        assert(bullet_list(init) + "\n  - "@ + items[k] + Seq::<char>::empty() =~= bullet_list(items));
    } else {
        lemma_bullets_contain(init, k);
        lemma_contains_in_concat(Seq::empty(), bullet_list(init), "\n  - "@ + items.last(), items[k]);
        assert(Seq::<char>::empty() + bullet_list(init) + ("\n  - "@ + items.last()) =~= bullet_list(items));
    }
}

/// The message for a missing template names it and every searched path.
pub proof fn lemma_not_found_message_names_paths(e: LuminessError, k: int)
    requires
        e is TemplateNotFound,
        0 <= k < e->searched_paths@.len(),
    ensures
        contains_text(e.user_text(), e->TemplateNotFound_name@),
        contains_text(e.user_text(), e->searched_paths@[k]@),
{
    let name = e->TemplateNotFound_name@;
    let paths = strings_view(e->searched_paths@);
    let tip = "\n\nTip: Check template name spelling and ensure files exist in template paths."@;
    let head = "Template '"@;
    let rest = "' could not be found."@ + "\n\nSearched in:"@ + bullet_list(paths) + tip;
    lemma_contains_self(name);
    lemma_contains_in_concat(head, name, rest, name);
    assert(e.user_text() =~= head + name + rest);
    lemma_bullets_contain(paths, k);
    lemma_contains_in_concat(head + name + "' could not be found."@ + "\n\nSearched in:"@, bullet_list(paths), tip, paths[k]);
    assert(e.user_text() =~= head + name + "' could not be found."@ + "\n\nSearched in:"@ + bullet_list(paths) + tip);
}

/// The message for a context error names its path and every available key.
pub proof fn lemma_context_message_names_keys(e: LuminessError, k: int)
    requires
        e is Context,
        e->Context_path is Some,
        0 <= k < e->available@.len(),
    ensures
        contains_text(e.user_text(), e->Context_path->0@),
        contains_text(e.user_text(), e->available@[k]@),
{
    let p = e->Context_path->0@;
    let m = e->Context_message@;
    let keys = strings_view(e->available@);
    let head = "Context error at '"@;
    let tail = "': "@ + m + ("\n\nAvailable keys:"@ + bullet_list(keys));
    lemma_contains_self(p);
    lemma_contains_in_concat(head, p, tail, p);
    assert(e.user_text() =~= head + p + tail);
    lemma_bullets_contain(keys, k);
    lemma_contains_in_concat(head + p + "': "@ + m + "\n\nAvailable keys:"@, bullet_list(keys), Seq::empty(), keys[k]);
    assert(e.user_text() =~= head + p + "': "@ + m + "\n\nAvailable keys:"@ + bullet_list(keys) + Seq::<char>::empty());
}

impl LuminessError {
    /// Whether `self` is a lexer error with this message and position and no snippet.
    pub open spec fn is_lexer_error(self, message: Seq<char>, line: int, column: int) -> bool {
        self matches LuminessError::Lexer { message: m, line: l, column: c, snippet: None }
            && m@ == message && l == line && c == column
    }

    /// The text that the error displays.
    pub open spec fn display_text(self) -> Seq<char> {
        match self {
            LuminessError::Lexer { message, line, column, .. } => "Lexer error at line "@ + decimal(
                line as nat,
            ) + ", column "@ + decimal(column as nat) + ": "@ + message@,
            LuminessError::Parse { message, line, column, .. } => "Parse error at line "@ + decimal(
                line as nat,
            ) + ", column "@ + decimal(column as nat) + ": "@ + message@,
            LuminessError::TemplateNotFound { name, .. } => "Template '"@ + name@ + "' not found"@,
            LuminessError::Resolution { message, .. } => "Template resolution error: "@ + message@,
            LuminessError::Context { message, .. } => "Context error: "@ + message@,
            LuminessError::Directive { directive, message, .. } => "Directive error: "@ + directive@
                + " failed: "@ + message@,
            LuminessError::Type { value, expected_type, .. } => "Type error: cannot convert '"@
                + value@ + "' to "@ + expected_type@,
            LuminessError::Io { path, source } => "File error for '"@ + path@ + "': "@
                + source.message@,
            LuminessError::Config { message, .. } => "Configuration error: "@ + message@,
            LuminessError::Render { template, message, .. } => "Rendering error in template '"@
                + template@ + "': "@ + message@,
            LuminessError::CircularReference { chain } => "Circular reference detected: "@
                + chain@,
            LuminessError::Internal { message, .. } => "Internal error: "@ + message@,
        }
    }

    /// The message for users, with hints on how to fix the error.
    pub open spec fn user_text(self) -> Seq<char> {
        match self {
            LuminessError::Lexer { message, line, column, snippet } => with_paragraph(
                "Template syntax error on line "@ + decimal(line as nat) + ", column "@ + decimal(
                    column as nat,
                ) + ": "@ + message@,
                opt_view(snippet),
            ) + "\n\nTip: Check for missing quotes, unclosed brackets, or invalid syntax."@,
            LuminessError::Parse { message, line, column, snippet } => with_paragraph(
                "Template parse error on line "@ + decimal(line as nat) + ", column "@ + decimal(
                    column as nat,
                ) + ": "@ + message@,
                opt_view(snippet),
            ) + "\n\nTip: Verify template structure and directive syntax."@,
            LuminessError::TemplateNotFound { name, searched_paths } => "Template '"@ + name@
                + "' could not be found."@ + (if searched_paths@.len() > 0 {
                "\n\nSearched in:"@ + bullet_list(strings_view(searched_paths@))
            } else {
                Seq::empty()
            })
                + "\n\nTip: Check template name spelling and ensure files exist in template paths."@,
            LuminessError::Context { message, path, available } => (match path {
                Some(p) => "Context error at '"@ + p@ + "': "@ + message@,
                None => message@,
            }) + (if available@.len() > 0 {
                "\n\nAvailable keys:"@ + bullet_list(strings_view(available@))
            } else {
                Seq::empty()
            }),
            LuminessError::Directive { directive, message, input_value, .. } => "Directive '"@
                + directive@ + "' failed: "@ + message@ + (match input_value {
                Some(i) => "\n\nInput value: '"@ + i@ + "'"@,
                None => Seq::empty(),
            }) + "\n\nTip: Check directive syntax and input value type."@,
            _ => self.display_text(),
        }
    }

    /// Whether the error is recoverable.
    pub open spec fn recoverable(self) -> bool {
        match self {
            LuminessError::Lexer { .. } => false,
            LuminessError::Parse { .. } => false,
            LuminessError::Io { source, .. } => source.kind != IoErrorKind::PermissionDenied,
            LuminessError::CircularReference { .. } => false,
            LuminessError::Internal { .. } => false,
            _ => true,
        }
    }

    /// The category name of the error.
    pub open spec fn category_name(self) -> Seq<char> {
        match self {
            LuminessError::Lexer { .. } => "lexer"@,
            LuminessError::Parse { .. } => "parse"@,
            LuminessError::TemplateNotFound { .. } => "template_not_found"@,
            LuminessError::Resolution { .. } => "resolution"@,
            LuminessError::Context { .. } => "context"@,
            LuminessError::Directive { .. } => "directive"@,
            LuminessError::Type { .. } => "type_conversion"@,
            LuminessError::Io { .. } => "io"@,
            LuminessError::Config { .. } => "config"@,
            LuminessError::Render { .. } => "render"@,
            LuminessError::CircularReference { .. } => "circular_reference"@,
            LuminessError::Internal { .. } => "internal"@,
        }
    }

    /// A lexer error at a position.
    pub fn lexer(message: &str, line: usize, column: usize) -> (e: Self)
        ensures
            e.is_lexer_error(message@, line as int, column as int),
    {
        LuminessError::Lexer { message: to_owned_string(message), line, column, snippet: None }
    }

    /// A lexer error at a position, with a piece of the source.
    pub fn lexer_with_snippet(message: &str, line: usize, column: usize, snippet: &str) -> (e:
        Self)
        ensures
            e matches LuminessError::Lexer { message: m, line: l, column: c, snippet: Some(s) }
                && m@ == message@ && l == line && c == column && s@ == snippet@,
    {
        LuminessError::Lexer {
            message: to_owned_string(message),
            line,
            column,
            snippet: Some(to_owned_string(snippet)),
        }
    }

    /// A parse error at a position.
    pub fn parse(message: &str, line: usize, column: usize) -> (e: Self)
        ensures
            e matches LuminessError::Parse { message: m, line: l, column: c, snippet: None }
                && m@ == message@ && l == line && c == column,
    {
        LuminessError::Parse { message: to_owned_string(message), line, column, snippet: None }
    }

    /// A parse error at a position, with a piece of the source.
    pub fn parse_with_snippet(message: &str, line: usize, column: usize, snippet: &str) -> (e:
        Self)
        ensures
            e matches LuminessError::Parse { message: m, line: l, column: c, snippet: Some(s) }
                && m@ == message@ && l == line && c == column && s@ == snippet@,
    {
        LuminessError::Parse {
            message: to_owned_string(message),
            line,
            column,
            snippet: Some(to_owned_string(snippet)),
        }
    }

    /// A template that was not found, with no searched paths.
    pub fn template_not_found(name: &str) -> (e: Self)
        ensures
            e matches LuminessError::TemplateNotFound { name: n, searched_paths: p } && n@
                == name@ && p@.len() == 0,
    {
        LuminessError::TemplateNotFound { name: to_owned_string(name), searched_paths: Vec::new() }
    }

    /// A template that was not found in the given paths.
    pub fn template_not_found_with_paths(name: &str, searched_paths: Vec<String>) -> (e: Self)
        ensures
            e matches LuminessError::TemplateNotFound { name: n, searched_paths: p } && n@
                == name@ && p == searched_paths,
    {
        LuminessError::TemplateNotFound { name: to_owned_string(name), searched_paths }
    }

    /// An include that could not be resolved.
    pub fn resolution(message: &str, template: &str) -> (e: Self)
        ensures
            e matches LuminessError::Resolution { message: m, template: t, path: None } && m@
                == message@ && t@ == template@,
    {
        LuminessError::Resolution {
            message: to_owned_string(message),
            template: to_owned_string(template),
            path: None,
        }
    }

    /// A context error.
    pub fn context(message: &str) -> (e: Self)
        ensures
            e matches LuminessError::Context { message: m, path: None, available: a } && m@
                == message@ && a@.len() == 0,
    {
        LuminessError::Context { message: to_owned_string(message), path: None, available: Vec::new() }
    }

    /// A context error at a path, with the keys that were available.
    pub fn context_with_suggestions(message: &str, path: &str, available: Vec<String>) -> (e:
        Self)
        ensures
            e matches LuminessError::Context { message: m, path: Some(p), available: a } && m@
                == message@ && p@ == path@ && a == available,
    {
        LuminessError::Context {
            message: to_owned_string(message),
            path: Some(to_owned_string(path)),
            available,
        }
    }

    /// A failed directive.
    pub fn directive(directive: &str, message: &str) -> (e: Self)
        ensures
            e matches LuminessError::Directive {
                directive: d,
                message: m,
                input_value: None,
                location: None,
            } && d@ == directive@ && m@ == message@,
    {
        LuminessError::Directive {
            directive: to_owned_string(directive),
            message: to_owned_string(message),
            input_value: None,
            location: None,
        }
    }

    /// A failed directive, with the value it was applied to.
    pub fn directive_with_input(directive: &str, message: &str, input_value: &str) -> (e: Self)
        ensures
            e matches LuminessError::Directive {
                directive: d,
                message: m,
                input_value: Some(i),
                location: None,
            } && d@ == directive@ && m@ == message@ && i@ == input_value@,
    {
        LuminessError::Directive {
            directive: to_owned_string(directive),
            message: to_owned_string(message),
            input_value: Some(to_owned_string(input_value)),
            location: None,
        }
    }

    /// A failed conversion.
    pub fn type_error(value: &str, expected: &str, actual: &str) -> (e: Self)
        ensures
            e matches LuminessError::Type { value: v, expected_type: x, actual_type: a } && v@
                == value@ && x@ == expected@ && a@ == actual@,
    {
        LuminessError::Type {
            value: to_owned_string(value),
            expected_type: to_owned_string(expected),
            actual_type: to_owned_string(actual),
        }
    }

    /// An I/O error on a path. The class and the message of `error` are
    /// read through `describe_io_error`, of which nothing is stated.
    pub fn io(path: &str, error: std::io::Error) -> (e: Self)
        ensures
            e matches LuminessError::Io { path: p, .. } && p@ == path@,
    {
        LuminessError::Io { path: to_owned_string(path), source: describe_io_error(&error) }
    }

    /// A configuration error.
    pub fn config(message: &str) -> (e: Self)
        ensures
            e matches LuminessError::Config { message: m, key: None } && m@ == message@,
    {
        LuminessError::Config { message: to_owned_string(message), key: None }
    }

    /// A configuration error on a key.
    pub fn config_key(message: &str, key: &str) -> (e: Self)
        ensures
            e matches LuminessError::Config { message: m, key: Some(k) } && m@ == message@ && k@
                == key@,
    {
        LuminessError::Config { message: to_owned_string(message), key: Some(to_owned_string(key)) }
    }

    /// A rendering error.
    pub fn render(template: &str, message: &str) -> (e: Self)
        ensures
            e matches LuminessError::Render { template: t, message: m, line: None } && t@
                == template@ && m@ == message@,
    {
        LuminessError::Render {
            template: to_owned_string(template),
            message: to_owned_string(message),
            line: None,
        }
    }

    /// A rendering error at a line.
    pub fn render_at_line(template: &str, message: &str, line: usize) -> (e: Self)
        ensures
            e matches LuminessError::Render { template: t, message: m, line: Some(l) } && t@
                == template@ && m@ == message@ && l == line,
    {
        LuminessError::Render {
            template: to_owned_string(template),
            message: to_owned_string(message),
            line: Some(line),
        }
    }

    /// A circular reference.
    pub fn circular_reference(chain: &str) -> (e: Self)
        ensures
            e matches LuminessError::CircularReference { chain: c } && c@ == chain@,
    {
        LuminessError::CircularReference { chain: to_owned_string(chain) }
    }

    /// An internal error.
    pub fn internal(message: &str) -> (e: Self)
        ensures
            e matches LuminessError::Internal { message: m, context: None } && m@ == message@,
    {
        LuminessError::Internal { message: to_owned_string(message), context: None }
    }

    /// An internal error with where it happened.
    pub fn internal_with_context(message: &str, context: &str) -> (e: Self)
        ensures
            e matches LuminessError::Internal { message: m, context: Some(c) } && m@ == message@
                && c@ == context@,
    {
        LuminessError::Internal {
            message: to_owned_string(message),
            context: Some(to_owned_string(context)),
        }
    }

    /// Whether the error is recoverable.
    pub fn is_recoverable(&self) -> (r: bool)
        ensures
            r == self.recoverable(),
    {
        match self {
            LuminessError::Lexer { .. } => false,
            LuminessError::Parse { .. } => false,
            LuminessError::TemplateNotFound { .. } => true,
            LuminessError::Resolution { .. } => true,
            LuminessError::Context { .. } => true,
            LuminessError::Directive { .. } => true,
            LuminessError::Type { .. } => true,
            LuminessError::Io { source, .. } => match source.kind {
                IoErrorKind::NotFound => true,
                IoErrorKind::PermissionDenied => false,
                IoErrorKind::Other => true,
            },
            LuminessError::Config { .. } => true,
            LuminessError::Render { .. } => true,
            LuminessError::CircularReference { .. } => false,
            LuminessError::Internal { .. } => false,
        }
    }

    /// The category of the error, for metrics and logging.
    pub fn category(&self) -> (r: &'static str)
        ensures
            r@ == self.category_name(),
    {
        match self {
            LuminessError::Lexer { .. } => "lexer",
            LuminessError::Parse { .. } => "parse",
            LuminessError::TemplateNotFound { .. } => "template_not_found",
            LuminessError::Resolution { .. } => "resolution",
            LuminessError::Context { .. } => "context",
            LuminessError::Directive { .. } => "directive",
            LuminessError::Type { .. } => "type_conversion",
            LuminessError::Io { .. } => "io",
            LuminessError::Config { .. } => "config",
            LuminessError::Render { .. } => "render",
            LuminessError::CircularReference { .. } => "circular_reference",
            LuminessError::Internal { .. } => "internal",
        }
    }

    /// The text that the error displays.
    pub fn to_string(&self) -> (s: String)
        ensures
            s@ == self.display_text(),
    {
        match self {
            LuminessError::Lexer { message, line, column, .. } => {
                position_message("Lexer error at line ", *line, *column, message)
            },
            LuminessError::Parse { message, line, column, .. } => {
                position_message("Parse error at line ", *line, *column, message)
            },
            LuminessError::TemplateNotFound { name, .. } => {
                let mut s = to_owned_string("Template '");
                s.append(name.as_str());
                s.append("' not found");
                s
            },
            LuminessError::Resolution { message, .. } => {
                let mut s = to_owned_string("Template resolution error: ");
                s.append(message.as_str());
                s
            },
            LuminessError::Context { message, .. } => {
                let mut s = to_owned_string("Context error: ");
                s.append(message.as_str());
                s
            },
            LuminessError::Directive { directive, message, .. } => {
                let mut s = to_owned_string("Directive error: ");
                s.append(directive.as_str());
                s.append(" failed: ");
                s.append(message.as_str());
                s
            },
            LuminessError::Type { value, expected_type, .. } => {
                let mut s = to_owned_string("Type error: cannot convert '");
                s.append(value.as_str());
                s.append("' to ");
                s.append(expected_type.as_str());
                s
            },
            LuminessError::Io { path, source } => {
                let mut s = to_owned_string("File error for '");
                s.append(path.as_str());
                s.append("': ");
                s.append(source.message.as_str());
                s
            },
            LuminessError::Config { message, .. } => {
                let mut s = to_owned_string("Configuration error: ");
                s.append(message.as_str());
                s
            },
            LuminessError::Render { template, message, .. } => {
                let mut s = to_owned_string("Rendering error in template '");
                s.append(template.as_str());
                s.append("': ");
                s.append(message.as_str());
                s
            },
            LuminessError::CircularReference { chain } => {
                let mut s = to_owned_string("Circular reference detected: ");
                s.append(chain.as_str());
                s
            },
            LuminessError::Internal { message, .. } => {
                let mut s = to_owned_string("Internal error: ");
                s.append(message.as_str());
                s
            },
        }
    }

    /// A message for users, with hints on how to fix the error.
    pub fn user_message(&self) -> (s: String)
        ensures
            s@ == self.user_text(),
    {
        match self {
            LuminessError::Lexer { message, line, column, snippet } => {
                let mut msg = position_message(
                    "Template syntax error on line ",
                    *line,
                    *column,
                    message,
                );
                append_paragraph(&mut msg, snippet);
                msg.append("\n\nTip: Check for missing quotes, unclosed brackets, or invalid syntax.");
                msg
            },
            LuminessError::Parse { message, line, column, snippet } => {
                let mut msg = position_message(
                    "Template parse error on line ",
                    *line,
                    *column,
                    message,
                );
                append_paragraph(&mut msg, snippet);
                msg.append("\n\nTip: Verify template structure and directive syntax.");
                msg
            },
            LuminessError::TemplateNotFound { name, searched_paths } => {
                let mut msg = to_owned_string("Template '");
                msg.append(name.as_str());
                msg.append("' could not be found.");
                if searched_paths.len() > 0 {
                    msg.append("\n\nSearched in:");
                    append_bullets(&mut msg, searched_paths);
                }
                msg.append(
                    "\n\nTip: Check template name spelling and ensure files exist in template paths.",
                );
                msg
            },
            LuminessError::Context { message, path, available } => {
                let mut msg = match path {
                    Some(p) => {
                        let mut m = to_owned_string("Context error at '");
                        m.append(p.as_str());
                        m.append("': ");
                        m.append(message.as_str());
                        m
                    },
                    None => to_owned_string(message.as_str()),
                };
                if available.len() > 0 {
                    msg.append("\n\nAvailable keys:");
                    append_bullets(&mut msg, available);
                }
                msg
            },
            LuminessError::Directive { directive, message, input_value, .. } => {
                let mut msg = to_owned_string("Directive '");
                msg.append(directive.as_str());
                msg.append("' failed: ");
                msg.append(message.as_str());
                if let Some(input) = input_value {
                    msg.append("\n\nInput value: '");
                    msg.append(input.as_str());
                    msg.append("'");
                }
                msg.append("\n\nTip: Check directive syntax and input value type.");
                msg
            },
            _ => self.to_string(),
        }
    }
}

/// `lead`, the line, ", column ", the column, ": " and the message.
fn position_message(lead: &str, line: usize, column: usize, message: &String) -> (s: String)
    ensures
        s@ == lead@ + decimal(line as nat) + ", column "@ + decimal(column as nat) + ": "@
            + message@,
{
    let mut s = to_owned_string(lead);
    s.append(decimal_string(line as u64).as_str());
    s.append(", column ");
    s.append(decimal_string(column as u64).as_str());
    s.append(": ");
    s.append(message.as_str());
    s
}

/// Appends a blank line and the extra text, where there is one.
fn append_paragraph(msg: &mut String, extra: &Option<String>)
    ensures
        final(msg)@ == with_paragraph(old(msg)@, opt_view(*extra)),
{
    if let Some(e) = extra {
        msg.append("\n\n");
        msg.append(e.as_str());
    }
}

/// Appends each item on a line of its own.
fn append_bullets(msg: &mut String, items: &Vec<String>)
    ensures
        final(msg)@ == old(msg)@ + bullet_list(strings_view(items@)),
{
    let ghost start = msg@;
    let mut i: usize = 0;
    while i < items.len()
        invariant
            i <= items@.len(),
            msg@ == start + bullet_list(strings_view(items@.subrange(0, i as int))),
        decreases items.len() - i,
    {
        let ghost pre = strings_view(items@.subrange(0, i as int));
        assert(strings_view(items@.subrange(0, i + 1)).drop_last() =~= pre);
        msg.append("\n  - ");
        msg.append(items[i].as_str());
        i = i + 1;
    }
    assert(items@.subrange(0, items@.len() as int) =~= items@);
}

impl core::convert::From<std::io::Error> for LuminessError {
    /// An I/O error on an unknown path.
    fn from(error: std::io::Error) -> (e: Self)
        ensures
            e matches LuminessError::Io { path: p, .. } && p@ == "<unknown>"@,
    {
        LuminessError::Io { path: to_owned_string("<unknown>"), source: describe_io_error(&error) }
    }
}

impl vstd::std_specs::convert::FromSpecImpl<std::io::Error> for LuminessError {
    open spec fn obeys_from_spec() -> bool {
        false
    }

    open spec fn from_spec(v: std::io::Error) -> Self {
        arbitrary()
    }
}

} // verus!
