//! Lexical analysis of Luminess templates: `{{ }}` variables, `@include`
//! directives, `{% %}` blocks and raw sections, over the bytes of the source.
use crate::error::LuminessError;
use crate::text::{
    chars_eq, chars_of, is_trimmed, join, lemma_trim_is_trimmed, opt_view, strings_view, push_char, split_chars, string_of_range, split_on, split_once, split_once_chars,
    split_whitespace_chars, split_ws, string_of, to_owned_string, trim, trim_chars,
};
use vstd::prelude::*;
use vstd::slice::slice_subrange;
use vstd::string::StringSliceAdditionalSpecFns;
use vstd::utf8::{decode_utf8, encode_utf8, valid_utf8};

verus! {

/// Where the lexer stands in the source.
#[derive(Debug, Clone, Copy, PartialEq, Eq, Structural)]
pub struct Position {
    /// Line number (from 1).
    pub line: usize,
    /// Column number (from 1).
    pub column: usize,
    /// Byte offset from the start of the source.
    pub offset: usize,
}

/// The position after reading byte `ch` at `p`: a newline starts a new line.
pub open spec fn advanced(p: Position, ch: u8) -> Position {
    if ch == 10 {
        Position { line: (p.line + 1) as usize, column: 1, offset: (p.offset + 1) as usize }
    } else {
        Position { line: p.line, column: (p.column + 1) as usize, offset: (p.offset + 1) as usize }
    }
}

/// The position after reading the first `n` bytes of `s`.
pub open spec fn position_at(s: Seq<u8>, n: int) -> Position
    decreases n,
{
    if n <= 0 {
        Position { line: 1, column: 1, offset: 0 }
    } else {
        advanced(position_at(s, n - 1), s[n - 1])
    }
}

/// A position after `n` bytes lies within the first `n + 1` lines and columns.
pub proof fn lemma_position_at_bounds(s: Seq<u8>, n: int)
    requires
        0 <= n < usize::MAX,
    ensures
        position_at(s, n).offset == n,
        1 <= position_at(s, n).line <= n + 1,
        1 <= position_at(s, n).column <= n + 1,
    decreases n,
{
    if n > 0 {
        lemma_position_at_bounds(s, n - 1);
    }
}

/// How many of the first `n` bytes of `s` are newlines.
pub open spec fn newlines(s: Seq<u8>, n: int) -> nat
    decreases n,
{
    if n <= 0 {
        0
    } else {
        newlines(s, n - 1) + if s[n - 1] == 10 {
            1nat
        } else {
            0nat
        }
    }
}

/// Where the line that holds offset `n` starts: just after the last newline
/// among the first `n` bytes, or 0 where there is none.
pub open spec fn line_start(s: Seq<u8>, n: int) -> int
    decreases n,
{
    if n <= 0 {
        0
    } else if s[n - 1] == 10 {
        n
    } else {
        line_start(s, n - 1)
    }
}

/// The position after reading the bytes `bs` in order from `p`, one step of
/// `advanced` each, as successive calls of `Position::advance` leave it.
pub open spec fn advanced_over(p: Position, bs: Seq<u8>) -> Position
    decreases bs.len(),
{
    if bs.len() == 0 {
        p
    } else {
        advanced(advanced_over(p, bs.drop_last()), bs.last())
    }
}

/// Reading bytes one by one from the start, as `Position::new` and then one
/// call of `Position::advance` per byte do, gives: the offset is the number of
/// bytes, the line is one more than the number of newlines, and the column is
/// one more than the number of bytes since the last newline.
pub proof fn lemma_advancing_counts_lines(bs: Seq<u8>)
    requires
        bs.len() < usize::MAX,
    ensures
        advanced_over(Position { line: 1, column: 1, offset: 0 }, bs) == position_at(
            bs,
            bs.len() as int,
        ),
        advanced_over(Position { line: 1, column: 1, offset: 0 }, bs).offset == bs.len(),
        advanced_over(Position { line: 1, column: 1, offset: 0 }, bs).line == 1 + newlines(
            bs,
            bs.len() as int,
        ),
        advanced_over(Position { line: 1, column: 1, offset: 0 }, bs).column == bs.len()
            - line_start(bs, bs.len() as int) + 1,
{
    lemma_advanced_over_prefix(bs, bs.len() as int);
    assert(bs.subrange(0, bs.len() as int) =~= bs);
    lemma_position_counts_lines(bs, bs.len() as int);
}

proof fn lemma_advanced_over_prefix(bs: Seq<u8>, n: int)
    requires
        0 <= n <= bs.len(),
    ensures
        advanced_over(Position { line: 1, column: 1, offset: 0 }, bs.subrange(0, n)) == position_at(
            bs,
            n,
        ),
    decreases n,
{
    if n > 0 {
        lemma_advanced_over_prefix(bs, n - 1);
        assert(bs.subrange(0, n).drop_last() =~= bs.subrange(0, n - 1));
    }
}

/// After reading the first `n` bytes of `s` from the start, the offset is `n`,
/// the line is one more than the number of newlines read, and the column is one
/// more than the number of bytes read since the last newline.
pub proof fn lemma_position_counts_lines(s: Seq<u8>, n: int)
    requires
        0 <= n <= s.len(),
        n < usize::MAX,
    ensures
        position_at(s, n).offset == n,
        position_at(s, n).line == 1 + newlines(s, n),
        position_at(s, n).column == n - line_start(s, n) + 1,
        0 <= line_start(s, n) <= n,
        newlines(s, n) <= n,
    decreases n,
{
    if n > 0 {
        lemma_position_counts_lines(s, n - 1);
    }
}

impl Position {
    /// The start of the source: line 1, column 1, offset 0.
    pub fn new() -> (p: Self)
        ensures
            p == (Position { line: 1, column: 1, offset: 0 }),
    {
        Position { line: 1, column: 1, offset: 0 }
    }

    /// Moves past one byte; a newline moves to column 1 of the next line.
    pub fn advance(&mut self, ch: u8)
        requires
            old(self).offset < usize::MAX,
            old(self).line < usize::MAX,
            old(self).column < usize::MAX,
        ensures
            *final(self) == advanced(*old(self), ch),
    {
        self.offset = self.offset + 1;
        if ch == 10 {
            self.line = self.line + 1;
            self.column = 1;
        } else {
            self.column = self.column + 1;
        }
    }
}

/// The tokens of a template.
#[derive(Debug, Clone, PartialEq)]
pub enum TokenType {
    /// Plain text.
    Text(String),
    /// A variable with its path, directives and default.
    Variable {
        /// Path to the variable, split at dots.
        path: Vec<String>,
        /// Directives to apply, in order.
        directives: Vec<String>,
        /// Value to use where the variable is missing.
        default: Option<String>,
    },
    /// Inclusion of another template.
    Include {
        /// Name of the template.
        template: String,
    },
    /// Inclusion of a header, possibly a variant.
    IncludeHeader {
        /// The variant.
        variant: Option<String>,
    },
    /// Inclusion of a footer, possibly a variant.
    IncludeFooter {
        /// The variant.
        variant: Option<String>,
    },
    /// Start of a conditional block.
    If {
        /// The condition.
        condition: String,
    },
    /// Start of the else branch.
    Else,
    /// End of a conditional block.
    EndIf,
    /// Start of a loop.
    For {
        /// Name of the loop variable.
        item: String,
        /// The collection iterated over.
        collection: String,
    },
    /// End of a loop.
    EndFor,
    /// Start of a raw section.
    RawStart,
    /// End of a raw section.
    RawEnd,
    /// Trim white space to the left.
    TrimLeft,
    /// Trim white space to the right.
    TrimRight,
}

/// The mathematical value of a token.
pub enum Token {
    Text(Seq<char>),
    Variable { path: Seq<Seq<char>>, directives: Seq<Seq<char>>, default: Option<Seq<char>> },
    Include { template: Seq<char> },
    IncludeHeader { variant: Option<Seq<char>> },
    IncludeFooter { variant: Option<Seq<char>> },
    If { condition: Seq<char> },
    Else,
    EndIf,
    For { item: Seq<char>, collection: Seq<char> },
    EndFor,
    RawStart,
    RawEnd,
    TrimLeft,
    TrimRight,
}

/// The value of a token.
pub open spec fn token_view(t: TokenType) -> Token {
    match t {
        TokenType::Text(s) => Token::Text(s@),
        TokenType::Variable { path, directives, default } => Token::Variable {
            path: strings_view(path@),
            directives: strings_view(directives@),
            default: opt_view(default),
        },
        TokenType::Include { template } => Token::Include { template: template@ },
        TokenType::IncludeHeader { variant } => Token::IncludeHeader { variant: opt_view(variant) },
        TokenType::IncludeFooter { variant } => Token::IncludeFooter { variant: opt_view(variant) },
        TokenType::If { condition } => Token::If { condition: condition@ },
        TokenType::Else => Token::Else,
        TokenType::EndIf => Token::EndIf,
        TokenType::For { item, collection } => Token::For {
            item: item@,
            collection: collection@,
        },
        TokenType::EndFor => Token::EndFor,
        TokenType::RawStart => Token::RawStart,
        TokenType::RawEnd => Token::RawEnd,
        TokenType::TrimLeft => Token::TrimLeft,
        TokenType::TrimRight => Token::TrimRight,
    }
}

/// The values of a sequence of tokens.
pub open spec fn tokens_view(v: Seq<TokenType>) -> Seq<Token> {
    v.map_values(|t: TokenType| token_view(t))
}

/// A lexer error: its message and where it is reported.
pub struct LexFailure {
    pub message: Seq<char>,
    pub line: int,
    pub column: int,
}

/// An error with `message`, reported at `at`.
pub open spec fn failure(message: Seq<char>, at: Position) -> LexFailure {
    LexFailure { message, line: at.line as int, column: at.column as int }
}

/// The outcome of reading one construct: a value and the offset after it, an
/// error, or an input on which the reading aborts.
pub enum Scanned<T> {
    Done(T, int),
    Failed(LexFailure),
    Aborts,
}

/// The outcome of tokenizing.
pub enum Lexed {
    Tokens(Seq<Token>),
    Failed(LexFailure),
    Aborts,
}

/// The bytes of `{{`.
pub open spec fn open_var() -> Seq<u8> {
    seq![123u8, 123u8]
}

/// The bytes of `}}`.
pub open spec fn close_var() -> Seq<u8> {
    seq![125u8, 125u8]
}

/// The bytes of `{%`.
pub open spec fn open_block() -> Seq<u8> {
    seq![123u8, 37u8]
}

/// The bytes of `%}`.
pub open spec fn close_block() -> Seq<u8> {
    seq![37u8, 125u8]
}

/// The bytes of `{% endraw %}`.
pub open spec fn end_raw() -> Seq<u8> {
    seq![123u8, 37u8, 32u8, 101u8, 110u8, 100u8, 114u8, 97u8, 119u8, 32u8, 37u8, 125u8]
}

/// The bytes of `@include`.
pub open spec fn include_kw() -> Seq<u8> {
    seq![64u8, 105u8, 110u8, 99u8, 108u8, 117u8, 100u8, 101u8]
}

/// The bytes of `@include_header`.
pub open spec fn include_header_kw() -> Seq<u8> {
    include_kw() + seq![95u8, 104u8, 101u8, 97u8, 100u8, 101u8, 114u8]
}

/// The bytes of `@include_footer`.
pub open spec fn include_footer_kw() -> Seq<u8> {
    include_kw() + seq![95u8, 102u8, 111u8, 111u8, 116u8, 101u8, 114u8]
}

/// Whether `pat` stands in `s` at offset `p`.
pub open spec fn matches_at(s: Seq<u8>, p: int, pat: Seq<u8>) -> bool {
    0 <= p && p + pat.len() <= s.len() && s.subrange(p, p + pat.len()) == pat
}

/// The first offset at or after `from`, and before the end, where `pat` stands.
pub open spec fn find_pat(s: Seq<u8>, from: int, pat: Seq<u8>) -> Option<int>
    decreases s.len() - from,
{
    if from < 0 || from >= s.len() {
        None
    } else if matches_at(s, from, pat) {
        Some(from)
    } else {
        find_pat(s, from + 1, pat)
    }
}

/// The first offset at or after `from` where `b` stands.
pub open spec fn find_byte(s: Seq<u8>, from: int, b: u8) -> Option<int>
    decreases s.len() - from,
{
    if from < 0 || from >= s.len() {
        None
    } else if s[from] == b {
        Some(from)
    } else {
        find_byte(s, from + 1, b)
    }
}

/// ASCII white space as `u8::is_ascii_whitespace` gives it.
pub open spec fn is_ascii_ws(b: u8) -> bool {
    b == 32 || b == 9 || b == 10 || b == 12 || b == 13
}

/// The first offset at or after `from` that does not hold ASCII white space.
pub open spec fn skip_ws(s: Seq<u8>, from: int) -> int
    decreases s.len() - from,
{
    if from < 0 || from >= s.len() {
        from
    } else if is_ascii_ws(s[from]) {
        skip_ws(s, from + 1)
    } else {
        from
    }
}

/// What `String::from_utf8_lossy` makes of `bytes`.
pub uninterp spec fn utf8_lossy(bytes: Seq<u8>) -> Seq<char>;

/// `String::from_utf8_lossy`, made an owned `String`. The contract states its
/// result through `utf8_lossy` and, on valid UTF-8, as the decoding of the bytes,
/// as the documentation of `from_utf8_lossy` gives it.
#[verifier::external_body]
fn decode_lossy(bytes: &[u8]) -> (s: String)
    ensures
        s@ == utf8_lossy(bytes@),
        valid_utf8(bytes@) ==> s@ == decode_utf8(bytes@),
{
    String::from_utf8_lossy(bytes).into_owned()
}


/// The characters the lexer reads from the bytes of a variable or block: their
/// UTF-8 decoding where they are valid UTF-8, else what the lossy decoding gives.
pub open spec fn utf8_text(bytes: Seq<u8>) -> Seq<char> {
    if valid_utf8(bytes) {
        decode_utf8(bytes)
    } else {
        utf8_lossy(bytes)
    }
}

/// In a source that is valid UTF-8, the bytes between an ASCII byte at `p + 1`
/// and an ASCII byte at `j` are valid UTF-8 themselves, so the lexer reads the
/// inside of a variable or block exactly as it decodes.
pub proof fn lemma_delimited_is_valid_utf8(s: Seq<u8>, p: int, j: int)
    requires
        valid_utf8(s),
        0 <= p,
        p + 2 <= j < s.len(),
        s[p + 1] < 0x80,
        s[j] < 0x80,
    ensures
        valid_utf8(s.subrange(p + 2, j)),
        utf8_text(s.subrange(p + 2, j)) == decode_utf8(s.subrange(p + 2, j)),
{
    vstd::utf8::is_char_boundary_iff_not_is_continuation_byte(s, p + 1);
    vstd::utf8::valid_utf8_split(s, p + 1);
    let t = s.subrange(p + 1, s.len() as int);
    assert(valid_utf8(t));
    assert(t[0] == s[p + 1]);
    assert(vstd::utf8::length_of_first_scalar(t) == 1);
    assert(vstd::utf8::pop_first_scalar(t) =~= s.subrange(p + 2, s.len() as int));
    let u = s.subrange(p + 2, s.len() as int);
    assert(valid_utf8(u));
    assert(u[j - (p + 2)] == s[j]);
    vstd::utf8::is_char_boundary_iff_not_is_continuation_byte(u, j - (p + 2));
    vstd::utf8::valid_utf8_split(u, j - (p + 2));
    assert(u.subrange(0, j - (p + 2)) =~= s.subrange(p + 2, j));
}

/// The result of the directive list after `|`: directives in order and the last
/// quoted default, an error on a part that is neither, or an abort on a part
/// that is a lone quote character.
pub enum Chain {
    Done(Seq<Seq<char>>, Option<Seq<char>>),
    Failed(LexFailure),
    Aborts,
}

/// Whether every character is an ASCII capital letter or `_`.
pub open spec fn all_directive_chars(part: Seq<char>) -> bool {
    forall|k: int| 0 <= k < part.len() ==> ('A' <= #[trigger] part[k] <= 'Z' || part[k] == '_')
}

/// Whether `part` starts and ends with `q`.
pub open spec fn quoted_with(part: Seq<char>, q: char) -> bool {
    part.len() > 0 && part[0] == q && part.last() == q
}

/// Reads the parts `parts[i..]` of a directive list, each trimmed; errors are
/// reported at `at`.
pub open spec fn directive_chain(
    parts: Seq<Seq<char>>,
    i: int,
    directives: Seq<Seq<char>>,
    default: Option<Seq<char>>,
    at: Position,
) -> Chain
    decreases parts.len() - i,
{
    if i < 0 || i >= parts.len() {
        Chain::Done(directives, default)
    } else {
        let part = trim(parts[i]);
        if quoted_with(part, '"') || quoted_with(part, '\'') {
            if part.len() < 2 {
                Chain::Aborts
            } else {
                directive_chain(
                    parts,
                    i + 1,
                    directives,
                    Some(part.subrange(1, part.len() - 1)),
                    at,
                )
            }
        } else if all_directive_chars(part) {
            directive_chain(parts, i + 1, directives.push(part), default, at)
        } else {
            Chain::Failed(
                failure(
                    "Invalid directive '"@ + part + "' - directives must be UPPERCASE"@,
                    at,
                ),
            )
        }
    }
}

/// The trimmed, non-empty pieces of a variable path.
pub open spec fn path_segments(pieces: Seq<Seq<char>>) -> Seq<Seq<char>>
    decreases pieces.len(),
{
    if pieces.len() == 0 {
        Seq::empty()
    } else {
        let init = path_segments(pieces.drop_last());
        let t = trim(pieces.last());
        if t.len() > 0 {
            init.push(t)
        } else {
            init
        }
    }
}

/// The segments of a variable path are its pieces trimmed, leaving out those
/// that trim to nothing, in order; so every segment is non-empty, neither starts
/// nor ends with white space, and trims to itself.
pub proof fn lemma_path_segments_are_trimmed_pieces(pieces: Seq<Seq<char>>)
    ensures
        path_segments(pieces) == pieces.map_values(|x: Seq<char>| trim(x)).filter(
            |x: Seq<char>| x.len() > 0,
        ),
        forall|k: int|
            0 <= k < path_segments(pieces).len() ==> (#[trigger] path_segments(pieces)[k]).len() > 0
                && is_trimmed(path_segments(pieces)[k]) && trim(path_segments(pieces)[k])
                == path_segments(pieces)[k],
    decreases pieces.len(),
{
    if pieces.len() > 0 {
        lemma_path_segments_are_trimmed_pieces(pieces.drop_last());
        let m = pieces.map_values(|x: Seq<char>| trim(x));
        assert(m.drop_last() =~= pieces.drop_last().map_values(|x: Seq<char>| trim(x)));
        assert(m.last() == trim(pieces.last()));
        let pred = |x: Seq<char>| x.len() > 0;
        reveal(Seq::filter);
        assert(m.filter(pred) == if pred(m.last()) {
            m.drop_last().filter(pred).push(m.last())
        } else {
            m.drop_last().filter(pred)
        });
        lemma_trim_is_trimmed(pieces.last());
        let init = path_segments(pieces.drop_last());
        assert forall|k: int| 0 <= k < path_segments(pieces).len() implies (#[trigger] path_segments(
            pieces,
        )[k]).len() > 0 && is_trimmed(path_segments(pieces)[k]) && trim(path_segments(pieces)[k])
            == path_segments(pieces)[k] by {
            if k < init.len() {
                assert(path_segments(pieces)[k] == init[k]);
            }
        }
    } else {
        reveal(Seq::filter);
        assert(pieces.map_values(|x: Seq<char>| trim(x)) =~= Seq::<Seq<char>>::empty());
    }
}

/// The path of a variable token that the lexer reads is never empty, and each
/// of its segments is non-empty and trimmed of white space.
pub proof fn lemma_variable_path_is_trimmed(s: Seq<u8>, p: int)
    ensures
        scan_variable(s, p) matches Scanned::Done(Token::Variable { path, .. }, _) ==> path.len() > 0
            && forall|k: int|
            0 <= k < path.len() ==> (#[trigger] path[k]).len() > 0 && is_trimmed(path[k]),
{
    match find_pat(s, p + 2, close_var()) {
        Some(j) => {
            let content = trim(utf8_text(s.subrange(p + 2, j)));
            let (head, tail) = split_once(content, '|');
            lemma_path_segments_are_trimmed_pieces(split_on(trim(head), '.'));
        },
        None => {},
    }
}

/// Reads a variable `{{ path | directives, "default" }}` that starts at `p`.
pub open spec fn scan_variable(s: Seq<u8>, p: int) -> Scanned<Token> {
    let start = position_at(s, p);
    match find_pat(s, p + 2, close_var()) {
        None => Scanned::Failed(failure("Unclosed variable"@, start)),
        Some(j) => {
            let content = trim(utf8_text(s.subrange(p + 2, j)));
            let (head, tail) = split_once(content, '|');
            let path = path_segments(split_on(trim(head), '.'));
            if path.len() == 0 {
                Scanned::Failed(failure("Empty variable path"@, start))
            } else {
                match tail {
                    None => Scanned::Done(
                        Token::Variable { path, directives: Seq::empty(), default: None },
                        j + 2,
                    ),
                    Some(t) => match directive_chain(
                        split_on(trim(t), ','),
                        0,
                        Seq::empty(),
                        None,
                        position_at(s, j + 2),
                    ) {
                        Chain::Done(directives, default) => Scanned::Done(
                            Token::Variable { path, directives, default },
                            j + 2,
                        ),
                        Chain::Failed(f) => Scanned::Failed(f),
                        Chain::Aborts => Scanned::Aborts,
                    },
                }
            }
        },
    }
}

/// The error of expecting byte `c` at `q`, or none where it stands there.
pub open spec fn expect_failure(s: Seq<u8>, q: int, c: u8) -> Option<LexFailure> {
    if 0 <= q < s.len() && s[q] == c {
        None
    } else {
        let found: u8 = if 0 <= q < s.len() {
            s[q]
        } else {
            0
        };
        Some(
            failure(
                "Expected '"@ + seq![c as char] + "', found '"@ + seq![found as char] + "'"@,
                position_at(s, q),
            ),
        )
    }
}

/// Reads an optional quoted include parameter after `q0`, up to the white space
/// after its closing quote; `None` where `)` comes first.
pub open spec fn scan_include_param(s: Seq<u8>, q0: int) -> Scanned<Option<Seq<char>>> {
    let q = skip_ws(s, q0);
    if matches_at(s, q, seq![41u8]) {
        Scanned::Done(None, q)
    } else if matches_at(s, q, seq![34u8]) || matches_at(s, q, seq![39u8]) {
        match find_byte(s, q + 1, s[q]) {
            Some(k) => Scanned::Done(
                Some(utf8_text(s.subrange(q + 1, k))),
                skip_ws(s, k + 1),
            ),
            None => Scanned::Failed(
                failure("Unterminated string in include parameter"@, position_at(s, s.len() as int)),
            ),
        }
    } else {
        Scanned::Failed(failure("Include parameter must be quoted"@, position_at(s, q)))
    }
}

/// The header or footer include token with a variant.
pub open spec fn variant_token(header: bool, variant: Option<Seq<char>>) -> Token {
    if header {
        Token::IncludeHeader { variant }
    } else {
        Token::IncludeFooter { variant }
    }
}

/// Reads the rest of `@include_header` or `@include_footer` from `q0`.
pub open spec fn scan_variant(s: Seq<u8>, q0: int, header: bool) -> Scanned<Token> {
    let q = skip_ws(s, q0);
    if matches_at(s, q, seq![40u8]) {
        match scan_include_param(s, q + 1) {
            Scanned::Done(v, q2) => match expect_failure(s, q2, 41u8) {
                Some(f) => Scanned::Failed(f),
                None => Scanned::Done(variant_token(header, v), q2 + 1),
            },
            Scanned::Failed(f) => Scanned::Failed(f),
            Scanned::Aborts => Scanned::Aborts,
        }
    } else {
        Scanned::Done(variant_token(header, None), q)
    }
}

/// Reads an include directive that starts at `p`.
pub open spec fn scan_include(s: Seq<u8>, p: int) -> Scanned<Token> {
    if matches_at(s, p, include_header_kw()) {
        scan_variant(s, p + 15, true)
    } else if matches_at(s, p, include_footer_kw()) {
        scan_variant(s, p + 15, false)
    } else {
        let q = skip_ws(s, p + 8);
        match expect_failure(s, q, 40u8) {
            Some(f) => Scanned::Failed(f),
            None => match scan_include_param(s, q + 1) {
                Scanned::Done(None, _) => Scanned::Failed(
                    failure("@include requires a template name"@, position_at(s, p)),
                ),
                Scanned::Done(Some(name), q2) => match expect_failure(s, q2, 41u8) {
                    Some(f) => Scanned::Failed(f),
                    None => Scanned::Done(Token::Include { template: name }, q2 + 1),
                },
                Scanned::Failed(f) => Scanned::Failed(f),
                Scanned::Aborts => Scanned::Aborts,
            },
        }
    }
}

/// The token that the words of a block directive stand for.
pub open spec fn block_token(words: Seq<Seq<char>>, start: Position) -> Result<Token, LexFailure> {
    if words.len() == 0 {
        Err(failure("Empty block directive"@, start))
    } else if words[0] == "if"@ {
        if words.len() < 2 {
            Err(failure("if directive requires a condition"@, start))
        } else {
            Ok(Token::If { condition: join(words.subrange(1, words.len() as int), " "@) })
        }
    } else if words[0] == "else"@ {
        Ok(Token::Else)
    } else if words[0] == "endif"@ {
        Ok(Token::EndIf)
    } else if words[0] == "for"@ {
        if words.len() < 4 || words[2] != "in"@ {
            Err(failure("for directive must be 'for item in collection'"@, start))
        } else {
            Ok(Token::For { item: words[1], collection: words[3] })
        }
    } else if words[0] == "endfor"@ {
        Ok(Token::EndFor)
    } else if words[0] == "raw"@ {
        Ok(Token::RawStart)
    } else if words[0] == "endraw"@ {
        Ok(Token::RawEnd)
    } else {
        Err(failure("Unknown block directive: "@ + words[0], start))
    }
}

/// Reads a block directive `{% ... %}` that starts at `p`.
pub open spec fn scan_block(s: Seq<u8>, p: int) -> Scanned<Token> {
    let start = position_at(s, p);
    match find_pat(s, p + 2, close_block()) {
        None => Scanned::Failed(failure("Unclosed block directive"@, start)),
        Some(j) => match block_token(split_ws(trim(utf8_text(s.subrange(p + 2, j)))), start) {
            Ok(t) => Scanned::Done(t, j + 2),
            Err(f) => Scanned::Failed(f),
        },
    }
}

/// `toks` with the pending text bytes appended as a text token, decoded as
/// UTF-8, where there are any.
pub open spec fn flush(toks: Seq<Token>, text: Seq<u8>) -> Seq<Token> {
    if text.len() > 0 {
        toks.push(Token::Text(utf8_text(text)))
    } else {
        toks
    }
}

/// Whether the lexer is inside a raw section after reading token `t`.
pub open spec fn raw_after(t: Token, raw: bool) -> bool {
    match t {
        Token::RawStart => true,
        Token::RawEnd => false,
        _ => raw,
    }
}

/// Tokenizes `s` from offset `p`, inside a raw section or not, with text `text`
/// pending and tokens `toks` read so far.
pub open spec fn lex_from(s: Seq<u8>, p: int, raw: bool, text: Seq<u8>, toks: Seq<Token>) -> Lexed
    decreases s.len() - p,
{
    if p < 0 || p >= s.len() {
        Lexed::Tokens(flush(toks, text))
    } else if raw {
        if matches_at(s, p, end_raw()) {
            lex_from(s, p + 12, false, Seq::empty(), flush(toks, text).push(Token::RawEnd))
        } else {
            lex_from(s, p + 1, true, text.push(s[p]), toks)
        }
    } else {
        let step = if matches_at(s, p, open_var()) {
            Some(scan_variable(s, p))
        } else if matches_at(s, p, include_kw()) {
            Some(scan_include(s, p))
        } else if matches_at(s, p, open_block()) {
            Some(scan_block(s, p))
        } else {
            None
        };
        match step {
            None => lex_from(s, p + 1, false, text.push(s[p]), toks),
            Some(Scanned::Done(t, np)) => if p < np <= s.len() {
                lex_from(s, np, raw_after(t, false), Seq::empty(), flush(toks, text).push(t))
            } else {
                Lexed::Aborts
            },
            Some(Scanned::Failed(f)) => Lexed::Failed(f),
            Some(Scanned::Aborts) => Lexed::Aborts,
        }
    }
}

/// One step of tokenizing inside a raw section.
proof fn lemma_lex_raw(s: Seq<u8>, p: int, text: Seq<u8>, toks: Seq<Token>)
    requires
        0 <= p < s.len(),
    ensures
        lex_from(s, p, true, text, toks) == (if matches_at(s, p, end_raw()) {
            lex_from(s, p + 12, false, Seq::empty(), flush(toks, text).push(Token::RawEnd))
        } else {
            lex_from(s, p + 1, true, text.push(s[p]), toks)
        }),
{
}

/// One step of tokenizing over plain text.
proof fn lemma_lex_plain(s: Seq<u8>, p: int, text: Seq<u8>, toks: Seq<Token>)
    requires
        0 <= p < s.len(),
        !matches_at(s, p, open_var()),
        !matches_at(s, p, include_kw()),
        !matches_at(s, p, open_block()),
    ensures
        lex_from(s, p, false, text, toks) == lex_from(s, p + 1, false, text.push(s[p]), toks),
{
}

/// One step of tokenizing a construct read by `step`.
proof fn lemma_lex_construct(
    s: Seq<u8>,
    p: int,
    text: Seq<u8>,
    toks: Seq<Token>,
    step: Scanned<Token>,
)
    requires
        0 <= p < s.len(),
        (matches_at(s, p, open_var()) && step == scan_variable(s, p)) || (!matches_at(
            s,
            p,
            open_var(),
        ) && matches_at(s, p, include_kw()) && step == scan_include(s, p)) || (!matches_at(
            s,
            p,
            open_var(),
        ) && !matches_at(s, p, include_kw()) && matches_at(s, p, open_block()) && step
            == scan_block(s, p)),
    ensures
        lex_from(s, p, false, text, toks) == match step {
            Scanned::Done(t, np) => if p < np <= s.len() {
                lex_from(s, np, raw_after(t, false), Seq::empty(), flush(toks, text).push(t))
            } else {
                Lexed::Aborts
            },
            Scanned::Failed(f) => Lexed::Failed(f),
            Scanned::Aborts => Lexed::Aborts,
        },
{
}

/// Whether no variable, include or block starts anywhere from offset `p` on.
pub open spec fn no_markup_from(s: Seq<u8>, p: int) -> bool {
    forall|q: int|
        p <= q < s.len() ==> !matches_at(s, q, open_var()) && !matches_at(s, q, include_kw())
            && !matches_at(s, q, open_block())
}

proof fn lemma_plain_run(s: Seq<u8>, p: int, text: Seq<u8>, toks: Seq<Token>)
    requires
        0 <= p <= s.len(),
        no_markup_from(s, p),
    ensures
        lex_from(s, p, false, text, toks) == Lexed::Tokens(
            flush(toks, text + s.subrange(p, s.len() as int)),
        ),
    decreases s.len() - p,
{
    if p < s.len() {
        lemma_lex_plain(s, p, text, toks);
        lemma_plain_run(s, p + 1, text.push(s[p]), toks);
        assert(text.push(s[p]) + s.subrange(p + 1, s.len() as int) =~= text + s.subrange(
            p,
            s.len() as int,
        ));
    } else {
        assert(text + s.subrange(p, s.len() as int) =~= text);
    }
}

/// A source in which no variable, include or block starts is one text token
/// holding the source decoded as UTF-8, or no token where it is empty.
pub proof fn lemma_plain_text_is_one_token(s: Seq<u8>)
    requires
        no_markup_from(s, 0),
    ensures
        lex(s) == Lexed::Tokens(
            if s.len() > 0 {
                seq![Token::Text(utf8_text(s))]
            } else {
                Seq::empty()
            },
        ),
{
    lemma_plain_run(s, 0, Seq::empty(), Seq::empty());
    assert(Seq::<u8>::empty() + s.subrange(0, s.len() as int) =~= s);
    assert(Seq::<Token>::empty().push(Token::Text(utf8_text(s))) =~= seq![
        Token::Text(utf8_text(s)),
    ]);
}

/// The text of a string source in which no variable, include or block starts
/// comes back as one text token equal to the source, or no token where it is
/// empty.
pub proof fn lemma_plain_source_is_one_token(chars: Seq<char>)
    requires
        no_markup_from(encode_utf8(chars), 0),
    ensures
        lex(encode_utf8(chars)) == Lexed::Tokens(
            if chars.len() > 0 {
                seq![Token::Text(chars)]
            } else {
                Seq::empty()
            },
        ),
{
    let s = encode_utf8(chars);
    lemma_plain_text_is_one_token(s);
    vstd::utf8::encode_utf8_valid_utf8(chars);
    vstd::utf8::encode_utf8_decode_utf8(chars);
    assert(utf8_text(s) == chars);
    if s.len() == 0 {
        assert(decode_utf8(s) =~= Seq::<char>::empty());
    }
}

/// Whether no two text tokens stand side by side.
pub open spec fn no_adjacent_text(ts: Seq<Token>) -> bool {
    forall|i: int| 0 <= i < ts.len() - 1 ==> !(#[trigger] ts[i] is Text && ts[i + 1] is Text)
}

/// Whether the last token, where there is one, is not text.
pub open spec fn ends_without_text(ts: Seq<Token>) -> bool {
    ts.len() > 0 ==> !(ts.last() is Text)
}

proof fn lemma_flush_keeps_text_apart(toks: Seq<Token>, text: Seq<u8>, t: Token)
    requires
        no_adjacent_text(toks),
        ends_without_text(toks),
        !(t is Text),
    ensures
        no_adjacent_text(flush(toks, text)),
        no_adjacent_text(flush(toks, text).push(t)),
        ends_without_text(flush(toks, text).push(t)),
{
    let f = flush(toks, text);
    assert forall|i: int| 0 <= i < f.len() - 1 implies !(#[trigger] f[i] is Text && f[i + 1] is Text) by {
        if i + 1 < toks.len() {
            assert(f[i] == toks[i] && f[i + 1] == toks[i + 1]);
        } else {
            assert(f[i] == toks.last());
        }
    }
    let g = f.push(t);
    assert forall|i: int| 0 <= i < g.len() - 1 implies !(#[trigger] g[i] is Text && g[i + 1] is Text) by {
        if i + 1 < f.len() {
            assert(g[i] == f[i] && g[i + 1] == f[i + 1]);
        } else {
            assert(g[i + 1] == t);
        }
    }
}

proof fn lemma_lex_from_keeps_text_apart(
    s: Seq<u8>,
    p: int,
    raw: bool,
    text: Seq<u8>,
    toks: Seq<Token>,
)
    requires
        no_adjacent_text(toks),
        ends_without_text(toks),
    ensures
        lex_from(s, p, raw, text, toks) matches Lexed::Tokens(ts) ==> no_adjacent_text(ts),
    decreases s.len() - p,
{
    lemma_flush_keeps_text_apart(toks, text, Token::RawEnd);
    if 0 <= p < s.len() {
        if raw {
            lemma_lex_raw(s, p, text, toks);
            if matches_at(s, p, end_raw()) {
                lemma_lex_from_keeps_text_apart(
                    s,
                    p + 12,
                    false,
                    Seq::empty(),
                    flush(toks, text).push(Token::RawEnd),
                );
            } else {
                lemma_lex_from_keeps_text_apart(s, p + 1, true, text.push(s[p]), toks);
            }
        } else {
            let step = if matches_at(s, p, open_var()) {
                Some(scan_variable(s, p))
            } else if matches_at(s, p, include_kw()) {
                Some(scan_include(s, p))
            } else if matches_at(s, p, open_block()) {
                Some(scan_block(s, p))
            } else {
                None
            };
            match step {
                None => {
                    lemma_lex_plain(s, p, text, toks);
                    lemma_lex_from_keeps_text_apart(s, p + 1, false, text.push(s[p]), toks);
                },
                Some(st) => {
                    lemma_lex_construct(s, p, text, toks, st);
                    lemma_scanned_token_not_text(s, p);
                    if let Scanned::Done(t, np) = st {
                        if p < np <= s.len() {
                            lemma_flush_keeps_text_apart(toks, text, t);
                            lemma_lex_from_keeps_text_apart(
                                s,
                                np,
                                raw_after(t, false),
                                Seq::empty(),
                                flush(toks, text).push(t),
                            );
                        }
                    }
                },
            }
        }
    }
}

/// No construct that the lexer reads is a text token.
proof fn lemma_scanned_token_not_text(s: Seq<u8>, p: int)
    ensures
        scan_variable(s, p) matches Scanned::Done(t, _) ==> !(t is Text),
        scan_include(s, p) matches Scanned::Done(t, _) ==> !(t is Text),
        scan_block(s, p) matches Scanned::Done(t, _) ==> !(t is Text),
{
}

/// Tokenizing never puts two text tokens side by side: text between two
/// constructs is always one token.
pub proof fn lemma_text_tokens_stand_apart(s: Seq<u8>)
    ensures
        lex(s) matches Lexed::Tokens(ts) ==> no_adjacent_text(ts),
{
    lemma_lex_from_keeps_text_apart(s, 0, false, Seq::empty(), Seq::empty());
}

/// Tokenizing the bytes of a whole source.
pub open spec fn lex(s: Seq<u8>) -> Lexed {
    lex_from(s, 0, false, Seq::empty(), Seq::empty())
}

/// Skipping white space moves forward and stays within the source.
pub proof fn lemma_skip_ws(s: Seq<u8>, from: int)
    ensures
        0 <= from <= s.len() ==> from <= skip_ws(s, from) <= s.len(),
        0 <= from ==> skip_ws(s, from) >= from,
    decreases s.len() - from,
{
    if 0 <= from < s.len() && is_ascii_ws(s[from]) {
        lemma_skip_ws(s, from + 1);
    }
}

/// The character sequences held by a vector of character vectors.
pub open spec fn vecs_view(v: Seq<Vec<char>>) -> Seq<Seq<char>> {
    v.map_values(|x: Vec<char>| x@)
}

/// The words `words[from..]` joined with single spaces.
fn join_words(words: &Vec<Vec<char>>, from: usize) -> (r: String)
    requires
        from < words@.len(),
    ensures
        r@ == join(vecs_view(words@).subrange(from as int, words@.len() as int), " "@),
{
    let ghost w = vecs_view(words@);
    let n = words.len();
    let mut r = string_of(&words[from]);
    let mut i: usize = from + 1;
    assert(w.subrange(from as int, i as int) =~= seq![w[from as int]]);
    while i < words.len()
        invariant
            from < i <= words@.len(),
            w == vecs_view(words@),
            r@ == join(w.subrange(from as int, i as int), " "@),
        decreases words.len() - i,
    {
        assert(w.subrange(from as int, i + 1).drop_last() =~= w.subrange(from as int, i as int));
        r.append(" ");
        let piece = string_of(&words[i]);
        r.append(piece.as_str());
        i = i + 1;
    }
    r
}

/// The trimmed, non-empty pieces as strings.
fn path_from_pieces(pieces: &Vec<Vec<char>>) -> (r: Vec<String>)
    ensures
        strings_view(r@) == path_segments(vecs_view(pieces@)),
{
    let ghost pv = vecs_view(pieces@);
    let mut r: Vec<String> = Vec::new();
    let mut i: usize = 0;
    while i < pieces.len()
        invariant
            i <= pieces@.len(),
            pv == vecs_view(pieces@),
            strings_view(r@) == path_segments(pv.subrange(0, i as int)),
        decreases pieces.len() - i,
    {
        assert(pv.subrange(0, i + 1).drop_last() =~= pv.subrange(0, i as int));
        let t = trim_chars(&pieces[i]);
        if t.len() > 0 {
            r.push(string_of(&t));
            assert(strings_view(r@) =~= path_segments(pv.subrange(0, i as int)).push(t@));
        }
        i = i + 1;
    }
    assert(pv.subrange(0, pieces@.len() as int) =~= pv);
    r
}

/// Whether every character is an ASCII capital letter or `_`.
fn is_directive_name(part: &Vec<char>) -> (b: bool)
    ensures
        b == all_directive_chars(part@),
{
    let mut i: usize = 0;
    while i < part.len()
        invariant
            i <= part@.len(),
            forall|k: int| 0 <= k < i ==> ('A' <= #[trigger] part@[k] <= 'Z' || part@[k] == '_'),
        decreases part.len() - i,
    {
        let c = part[i];
        if !(('A' <= c && c <= 'Z') || c == '_') {
            return false;
        }
        i = i + 1;
    }
    true
}

/// A found pattern lies in range, after `from`, and stands where it was found.
pub proof fn lemma_find_pat(s: Seq<u8>, from: int, pat: Seq<u8>)
    ensures
        find_pat(s, from, pat) matches Some(j) ==> from <= j < s.len() && matches_at(s, j, pat),
    decreases s.len() - from,
{
    if 0 <= from < s.len() && !matches_at(s, from, pat) {
        lemma_find_pat(s, from + 1, pat);
    }
}

/// A found byte lies in range, after `from`, and is the byte looked for.
proof fn lemma_find_byte(s: Seq<u8>, from: int, b: u8)
    ensures
        find_byte(s, from, b) matches Some(k) ==> from <= k < s.len() && s[k] == b,
    decreases s.len() - from,
{
    if 0 <= from < s.len() && s[from] != b {
        lemma_find_byte(s, from + 1, b);
    }
}

/// An include parameter read from `q0` ends at or after `q0`, within the source.
proof fn lemma_include_param_bounds(s: Seq<u8>, q0: int)
    requires
        0 <= q0 <= s.len(),
    ensures
        scan_include_param(s, q0) matches Scanned::Done(_, q) ==> q0 <= q <= s.len(),
        !(scan_include_param(s, q0) is Aborts),
{
    lemma_skip_ws(s, q0);
    let q = skip_ws(s, q0);
    if !matches_at(s, q, seq![41u8]) && (matches_at(s, q, seq![34u8]) || matches_at(
        s,
        q,
        seq![39u8],
    )) {
        lemma_find_byte(s, q + 1, s[q]);
        if let Some(k) = find_byte(s, q + 1, s[q]) {
            lemma_skip_ws(s, k + 1);
        }
    }
}

/// The rest of a header or footer include read from `q0` ends after `q0`'s
/// start, within the source.
proof fn lemma_variant_bounds(s: Seq<u8>, q0: int, header: bool)
    requires
        0 <= q0 <= s.len(),
    ensures
        scan_variant(s, q0, header) matches Scanned::Done(_, q) ==> q0 <= q <= s.len(),
        !(scan_variant(s, q0, header) is Aborts),
{
    lemma_skip_ws(s, q0);
    let q = skip_ws(s, q0);
    if matches_at(s, q, seq![40u8]) {
        lemma_include_param_bounds(s, q + 1);
    }
}

/// Reading a variable, an include or a block that starts at `p` ends after `p`
/// and within the source; only a directive list of a variable can make the
/// reading abort.
pub proof fn lemma_constructs_move_forward(s: Seq<u8>, p: int)
    ensures
        matches_at(s, p, open_var()) ==> (scan_variable(s, p) matches Scanned::Done(_, np) ==> p
            < np <= s.len()),
        matches_at(s, p, include_kw()) ==> (scan_include(s, p) matches Scanned::Done(_, np) ==> p
            < np <= s.len()) && !(scan_include(s, p) is Aborts),
        matches_at(s, p, open_block()) ==> (scan_block(s, p) matches Scanned::Done(_, np) ==> p
            < np <= s.len()) && !(scan_block(s, p) is Aborts),
{
    lemma_find_pat(s, p + 2, close_var());
    lemma_find_pat(s, p + 2, close_block());
    if matches_at(s, p, include_kw()) {
        if matches_at(s, p, include_header_kw()) {
            lemma_variant_bounds(s, p + 15, true);
        } else if matches_at(s, p, include_footer_kw()) {
            lemma_variant_bounds(s, p + 15, false);
        } else {
            lemma_skip_ws(s, p + 8);
            let q = skip_ws(s, p + 8);
            if q < s.len() {
                lemma_include_param_bounds(s, q + 1);
            }
        }
    }
}

/// What reading one construct gave: a value, an error, or nothing where the
/// input makes the reading abort.
pub enum Scan<T> {
    Done(T),
    Failed(LuminessError),
    Aborted,
}

/// The lexer over the bytes of a template source.
pub struct Lexer<'a> {
    source: &'a [u8],
    position: usize,
    pos: Position,
    in_raw_block: bool,
}

impl<'a> Lexer<'a> {
    /// The bytes being read.
    pub closed spec fn bytes(&self) -> Seq<u8> {
        self.source@
    }

    /// The offset reached.
    pub closed spec fn offset(&self) -> int {
        self.position as int
    }

    /// Whether the lexer is inside a raw section.
    pub closed spec fn raw(&self) -> bool {
        self.in_raw_block
    }

    /// The lexer's invariant: its offset lies in the source, its position is the
    /// one reached after reading up to the offset, and the source is shorter than
    /// the largest `usize`.
    pub closed spec fn wf(&self) -> bool {
        &&& self.position <= self.source@.len()
        &&& self.source@.len() < usize::MAX
        &&& self.pos == position_at(self.source@, self.position as int)
    }

    /// A lexer at the start of `source`.
    pub fn new(source: &'a str) -> (l: Self)
        requires
            source.spec_bytes().len() < usize::MAX,
        ensures
            l.wf(),
            l.bytes() == source.spec_bytes(),
            l.offset() == 0,
            !l.raw(),
    {
        Lexer { source: source.as_bytes(), position: 0, pos: Position::new(), in_raw_block: false }
    }

    fn peek_sequence(&self, sequence: &[u8]) -> (b: bool)
        requires
            self.wf(),
        ensures
            b == matches_at(self.source@, self.position as int, sequence@),
    {
        if sequence.len() > self.source.len() || self.position > self.source.len()
            - sequence.len() {
            return false;
        }
        let mut i: usize = 0;
        while i < sequence.len()
            invariant
                i <= sequence@.len(),
                self.position + sequence@.len() <= self.source@.len() <= usize::MAX,
                forall|k: int| 0 <= k < i ==> self.source@[self.position + k] == sequence@[k],
            decreases sequence.len() - i,
        {
            if self.source[self.position + i] != sequence[i] {
                assert(self.source@.subrange(
                    self.position as int,
                    self.position + sequence@.len(),
                )[i as int] != sequence@[i as int]);
                return false;
            }
            i = i + 1;
        }
        assert(self.source@.subrange(self.position as int, self.position + sequence@.len())
            =~= sequence@);
        true
    }

    fn current_byte(&self) -> (b: u8)
        requires
            self.wf(),
        ensures
            b == (if self.position < self.source@.len() {
                self.source@[self.position as int]
            } else {
                0u8
            }),
    {
        if self.position < self.source.len() {
            self.source[self.position]
        } else {
            0
        }
    }

    fn step(&mut self)
        requires
            old(self).wf(),
            old(self).position < old(self).source@.len(),
        ensures
            final(self).wf(),
            final(self).source == old(self).source,
            final(self).in_raw_block == old(self).in_raw_block,
            final(self).position == old(self).position + 1,
    {
        proof {
            lemma_position_at_bounds(self.source@, self.position as int);
        }
        let byte = self.source[self.position];
        self.pos.advance(byte);
        self.position = self.position + 1;
    }

    fn advance_char(&mut self) -> (c: char)
        requires
            old(self).wf(),
            old(self).position < old(self).source@.len(),
        ensures
            final(self).wf(),
            final(self).source == old(self).source,
            final(self).in_raw_block == old(self).in_raw_block,
            final(self).position == old(self).position + 1,
            c == (old(self).source@[old(self).position as int] as char),
    {
        let byte = self.source[self.position];
        self.step();
        byte as char
    }

    fn advance_by(&mut self, count: usize)
        requires
            old(self).wf(),
        ensures
            final(self).wf(),
            final(self).source == old(self).source,
            final(self).in_raw_block == old(self).in_raw_block,
            final(self).position == if old(self).position + count <= old(self).source@.len() {
                old(self).position + count
            } else {
                old(self).source@.len() as int
            },
    {
        let mut n: usize = 0;
        while n < count
            invariant
                self.wf(),
                self.source == old(self).source,
                self.in_raw_block == old(self).in_raw_block,
                n <= count,
                self.position == if old(self).position + n <= old(self).source@.len() {
                    old(self).position + n
                } else {
                    old(self).source@.len() as int
                },
            decreases count - n,
        {
            if self.position < self.source.len() {
                self.step();
            }
            n = n + 1;
        }
    }

    fn read_until(&mut self, delimiter: &[u8]) -> (r: Option<String>)
        requires
            old(self).wf(),
        ensures
            final(self).wf(),
            final(self).source == old(self).source,
            final(self).in_raw_block == old(self).in_raw_block,
            match find_pat(old(self).source@, old(self).position as int, delimiter@) {
                Some(j) => r is Some && r.unwrap()@ == utf8_text(
                    old(self).source@.subrange(old(self).position as int, j),
                ) && final(self).position == j,
                None => r is None && final(self).position == old(self).source@.len(),
            },
    {
        let start = self.position;
        while self.position < self.source.len()
            invariant
                self.wf(),
                self.source == old(self).source,
                self.in_raw_block == old(self).in_raw_block,
                start == old(self).position,
                start <= self.position,
                find_pat(self.source@, start as int, delimiter@) == find_pat(
                    self.source@,
                    self.position as int,
                    delimiter@,
                ),
            decreases self.source@.len() - self.position,
        {
            if self.peek_sequence(delimiter) {
                let content = slice_subrange(self.source, start, self.position);
                return Some(decode_lossy(content));
            }
            self.step();
        }
        None
    }

    fn lexer_error_here(&self, message: &str) -> (e: LuminessError)
        requires
            self.wf(),
        ensures
            e.is_lexer_error(
                message@,
                position_at(self.source@, self.position as int).line as int,
                position_at(self.source@, self.position as int).column as int,
            ),
    {
        LuminessError::lexer(message, self.pos.line, self.pos.column)
    }

    fn expect_char(&mut self, expected: u8) -> (r: Result<(), LuminessError>)
        requires
            old(self).wf(),
            expected != 0,
        ensures
            final(self).wf(),
            final(self).source == old(self).source,
            final(self).in_raw_block == old(self).in_raw_block,
            match expect_failure(old(self).source@, old(self).position as int, expected) {
                None => r is Ok && final(self).position == old(self).position + 1,
                Some(f) => r matches Err(e) && e.is_lexer_error(f.message, f.line, f.column),
            },
    {
        let found = self.current_byte();
        if found == expected {
            self.advance_char();
            Ok(())
        } else {
            let mut m = to_owned_string("Expected '");
            push_char(&mut m, expected as char);
            m.append("', found '");
            push_char(&mut m, found as char);
            m.append("'");
            assert(m@ =~= "Expected '"@ + seq![expected as char] + "', found '"@ + seq![
                found as char,
            ] + "'"@);
            Err(self.lexer_error_here(m.as_str()))
        }
    }

    fn parse_include_parameter(&mut self) -> (r: Result<Option<String>, LuminessError>)
        requires
            old(self).wf(),
        ensures
            final(self).wf(),
            final(self).source == old(self).source,
            final(self).in_raw_block == old(self).in_raw_block,
            match scan_include_param(old(self).source@, old(self).position as int) {
                Scanned::Done(v, np) => r matches Ok(o) && opt_view(o) == v && final(self).position
                    == np && old(self).position <= np,
                Scanned::Failed(f) => r matches Err(e) && e.is_lexer_error(
                    f.message,
                    f.line,
                    f.column,
                ),
                Scanned::Aborts => false,
            },
    {
        let ghost s = self.source@;
        self.skip_whitespace();
        let ghost q = self.position as int;
        proof {
            lemma_skip_ws(s, old(self).position as int);
        }
        assert([41u8]@ =~= seq![41u8]);
        assert([34u8]@ =~= seq![34u8]);
        assert([39u8]@ =~= seq![39u8]);
        if self.peek_sequence(&[41u8]) {
            return Ok(None);
        }
        let quote_char: u8 = if self.peek_sequence(&[34u8]) {
            self.advance_by(1);
            34
        } else if self.peek_sequence(&[39u8]) {
            self.advance_by(1);
            39
        } else {
            return Err(self.lexer_error_here("Include parameter must be quoted"));
        };
        assert(s[q] == quote_char);
        let start = self.position;
        while self.position < self.source.len()
            invariant
                self.wf(),
                self.source@ == s,
                self.source == old(self).source,
                self.in_raw_block == old(self).in_raw_block,
                q + 1 <= self.position,
                start == q + 1,
                find_byte(s, q + 1, quote_char) == find_byte(s, self.position as int, quote_char),
                old(self).position <= q < s.len(),
                q == skip_ws(s, old(self).position as int),
                !matches_at(s, q, seq![41u8]),
                matches_at(s, q, seq![34u8]) || matches_at(s, q, seq![39u8]),
                s[q] == quote_char,
            decreases s.len() - self.position,
        {
            let ch = self.current_byte();
            if ch == quote_char {
                let ghost k = self.position as int;
                assert(find_byte(s, k, quote_char) == Some(k));
                let param = decode_lossy(slice_subrange(self.source, start, self.position));
                self.advance_by(1);
                self.skip_whitespace();
                proof {
                    lemma_skip_ws(s, k + 1);
                }
                return Ok(Some(param));
            }
            self.step();
        }
        Err(self.lexer_error_here("Unterminated string in include parameter"))
    }

    fn parse_variant(&mut self, header: bool) -> (r: Result<TokenType, LuminessError>)
        requires
            old(self).wf(),
        ensures
            final(self).wf(),
            final(self).source == old(self).source,
            final(self).in_raw_block == old(self).in_raw_block,
            match scan_variant(old(self).source@, old(self).position as int, header) {
                Scanned::Done(t, np) => r matches Ok(tok) && token_view(tok) == t
                    && final(self).position == np && old(self).position <= np,
                Scanned::Failed(f) => r matches Err(e) && e.is_lexer_error(
                    f.message,
                    f.line,
                    f.column,
                ),
                Scanned::Aborts => false,
            },
    {
        let ghost s = self.source@;
        self.skip_whitespace();
        proof {
            lemma_skip_ws(s, old(self).position as int);
        }
        assert([40u8]@ =~= seq![40u8]);
        let variant = if self.peek_sequence(&[40u8]) {
            self.advance_by(1);
            let v = match self.parse_include_parameter() {
                Ok(v) => v,
                Err(e) => return Err(e),
            };
            match self.expect_char(41u8) {
                Ok(()) => {},
                Err(e) => return Err(e),
            }
            v
        } else {
            None
        };
        if header {
            Ok(TokenType::IncludeHeader { variant })
        } else {
            Ok(TokenType::IncludeFooter { variant })
        }
    }

    fn parse_include(&mut self) -> (r: Result<TokenType, LuminessError>)
        requires
            old(self).wf(),
            matches_at(old(self).source@, old(self).position as int, include_kw()),
        ensures
            final(self).wf(),
            final(self).source == old(self).source,
            final(self).in_raw_block == old(self).in_raw_block,
            match scan_include(old(self).source@, old(self).position as int) {
                Scanned::Done(t, np) => r matches Ok(tok) && token_view(tok) == t
                    && final(self).position == np && old(self).position < np,
                Scanned::Failed(f) => r matches Err(e) && e.is_lexer_error(
                    f.message,
                    f.line,
                    f.column,
                ),
                Scanned::Aborts => false,
            },
    {
        let ghost s = self.source@;
        let start_pos = self.pos;
        let header_kw = [64u8, 105, 110, 99, 108, 117, 100, 101, 95, 104, 101, 97, 100, 101, 114];
        let footer_kw = [64u8, 105, 110, 99, 108, 117, 100, 101, 95, 102, 111, 111, 116, 101, 114];
        assert(header_kw@ =~= include_header_kw());
        assert(footer_kw@ =~= include_footer_kw());
        if self.peek_sequence(&header_kw) {
            self.advance_by(15);
            self.parse_variant(true)
        } else if self.peek_sequence(&footer_kw) {
            self.advance_by(15);
            self.parse_variant(false)
        } else {
            self.advance_by(8);
            self.skip_whitespace();
            proof {
                lemma_skip_ws(s, old(self).position + 8);
            }
            match self.expect_char(40u8) {
                Ok(()) => {},
                Err(e) => return Err(e),
            }
            let template = match self.parse_include_parameter() {
                Ok(Some(t)) => t,
                Ok(None) => {
                    return Err(
                        LuminessError::lexer(
                            "@include requires a template name",
                            start_pos.line,
                            start_pos.column,
                        ),
                    )
                },
                Err(e) => return Err(e),
            };
            match self.expect_char(41u8) {
                Ok(()) => {},
                Err(e) => return Err(e),
            }
            Ok(TokenType::Include { template })
        }
    }

    fn parse_block_directive(&mut self) -> (r: Result<TokenType, LuminessError>)
        requires
            old(self).wf(),
            matches_at(old(self).source@, old(self).position as int, open_block()),
        ensures
            final(self).wf(),
            final(self).source == old(self).source,
            match scan_block(old(self).source@, old(self).position as int) {
                Scanned::Done(t, np) => r matches Ok(tok) && token_view(tok) == t
                    && final(self).position == np && old(self).position < np
                    && final(self).in_raw_block == raw_after(t, old(self).in_raw_block),
                Scanned::Failed(f) => r matches Err(e) && e.is_lexer_error(
                    f.message,
                    f.line,
                    f.column,
                ),
                Scanned::Aborts => false,
            },
    {
        let ghost s = self.source@;
        let ghost p = self.position as int;
        let start_pos = self.pos;
        self.advance_by(2);
        let content = match self.read_until(&[37u8, 125u8]) {
            Some(c) => c,
            None => {
                assert([37u8, 125u8]@ =~= close_block());
                return Err(
                    LuminessError::lexer(
                        "Unclosed block directive",
                        start_pos.line,
                        start_pos.column,
                    ),
                );
            },
        };
        assert([37u8, 125u8]@ =~= close_block());
        proof {
            lemma_find_pat(s, p + 2, close_block());
        }
        self.advance_by(2);
        let chars = chars_of(content.as_str());
        let trimmed = trim_chars(&chars);
        let words = split_whitespace_chars(&trimmed);
        let ghost w = vecs_view(words@);
        assert(w =~= split_ws(trim(utf8_text(s.subrange(p + 2, self.position - 2)))));
        if words.len() == 0 {
            return Err(
                LuminessError::lexer("Empty block directive", start_pos.line, start_pos.column),
            );
        }
        if chars_eq(&words[0], "if") {
            if words.len() < 2 {
                return Err(
                    LuminessError::lexer(
                        "if directive requires a condition",
                        start_pos.line,
                        start_pos.column,
                    ),
                );
            }
            let condition = join_words(&words, 1);
            Ok(TokenType::If { condition })
        } else if chars_eq(&words[0], "else") {
            Ok(TokenType::Else)
        } else if chars_eq(&words[0], "endif") {
            Ok(TokenType::EndIf)
        } else if chars_eq(&words[0], "for") {
            if words.len() < 4 || !chars_eq(&words[2], "in") {
                return Err(
                    LuminessError::lexer(
                        "for directive must be 'for item in collection'",
                        start_pos.line,
                        start_pos.column,
                    ),
                );
            }
            Ok(TokenType::For { item: string_of(&words[1]), collection: string_of(&words[3]) })
        } else if chars_eq(&words[0], "endfor") {
            Ok(TokenType::EndFor)
        } else if chars_eq(&words[0], "raw") {
            self.in_raw_block = true;
            Ok(TokenType::RawStart)
        } else if chars_eq(&words[0], "endraw") {
            self.in_raw_block = false;
            Ok(TokenType::RawEnd)
        } else {
            let mut m = to_owned_string("Unknown block directive: ");
            let w0 = string_of(&words[0]);
            m.append(w0.as_str());
            Err(LuminessError::lexer(m.as_str(), start_pos.line, start_pos.column))
        }
    }

    fn parse_directive_chain(&self, input: &Vec<char>) -> (r: Scan<(Vec<String>, Option<String>)>)
        requires
            self.wf(),
        ensures
            match directive_chain(
                split_on(input@, ','),
                0,
                Seq::empty(),
                None,
                position_at(self.source@, self.position as int),
            ) {
                Chain::Done(ds, d) => r matches Scan::Done(v) && strings_view(v.0@) == ds
                    && opt_view(v.1) == d,
                Chain::Failed(f) => r matches Scan::Failed(e) && e.is_lexer_error(
                    f.message,
                    f.line,
                    f.column,
                ),
                Chain::Aborts => r is Aborted,
            },
    {
        let ghost at = position_at(self.source@, self.position as int);
        let parts = split_chars(input, ',');
        let ghost pv = split_on(input@, ',');
        assert(vecs_view(parts@) =~= pv);
        let mut directives: Vec<String> = Vec::new();
        let mut default: Option<String> = None;
        let mut i: usize = 0;
        assert(strings_view(directives@) =~= Seq::<Seq<char>>::empty());
        while i < parts.len()
            invariant
                i <= parts@.len(),
                pv == vecs_view(parts@),
                pv == split_on(input@, ','),
                self.wf(),
                at == position_at(self.source@, self.position as int),
                directive_chain(pv, 0, Seq::empty(), None, at) == directive_chain(
                    pv,
                    i as int,
                    strings_view(directives@),
                    opt_view(default),
                    at,
                ),
            decreases parts.len() - i,
        {
            let part = trim_chars(&parts[i]);
            assert(pv[i as int] == parts@[i as int]@);
            assert(part@ == trim(pv[i as int]));
            let n = part.len();
            if n > 0 && ((part[0] == '"' && part[n - 1] == '"') || (part[0] == '\''
                && part[n - 1] == '\'')) {
                if n < 2 {
                    return Scan::Aborted;
                }
                default = Some(string_of_range(&part, 1, n - 1));
            } else if is_directive_name(&part) {
                let ghost before = strings_view(directives@);
                directives.push(string_of(&part));
                assert(strings_view(directives@) =~= before.push(part@));
            } else {
                let mut m = to_owned_string("Invalid directive '");
                let ps = string_of(&part);
                m.append(ps.as_str());
                m.append("' - directives must be UPPERCASE");
                assert(m@ =~= "Invalid directive '"@ + part@ + "' - directives must be UPPERCASE"@);
                return Scan::Failed(self.lexer_error_here(m.as_str()));
            }
            i = i + 1;
        }
        Scan::Done((directives, default))
    }

    fn parse_variable(&mut self) -> (r: Scan<TokenType>)
        requires
            old(self).wf(),
            matches_at(old(self).source@, old(self).position as int, open_var()),
        ensures
            final(self).wf(),
            final(self).source == old(self).source,
            final(self).in_raw_block == old(self).in_raw_block,
            match scan_variable(old(self).source@, old(self).position as int) {
                Scanned::Done(t, np) => r matches Scan::Done(tok) && token_view(tok) == t
                    && final(self).position == np && old(self).position < np,
                Scanned::Failed(f) => r matches Scan::Failed(e) && e.is_lexer_error(
                    f.message,
                    f.line,
                    f.column,
                ),
                Scanned::Aborts => r is Aborted,
            },
    {
        let ghost s = self.source@;
        let ghost p = self.position as int;
        let start_pos = self.pos;
        self.advance_by(2);
        let content = match self.read_until(&[125u8, 125u8]) {
            Some(c) => c,
            None => {
                assert([125u8, 125u8]@ =~= close_var());
                return Scan::Failed(
                    LuminessError::lexer("Unclosed variable", start_pos.line, start_pos.column),
                );
            },
        };
        assert([125u8, 125u8]@ =~= close_var());
        proof {
            lemma_find_pat(s, p + 2, close_var());
        }
        let ghost j = self.position as int;
        assert(find_pat(s, p + 2, close_var()) == Some(j));
        self.advance_by(2);
        let chars = chars_of(content.as_str());
        let trimmed = trim_chars(&chars);
        let (head, tail) = split_once_chars(&trimmed, '|');
        let var_path = trim_chars(&head);
        let pieces = split_chars(&var_path, '.');
        assert(vecs_view(pieces@) =~= split_on(var_path@, '.'));
        let path = path_from_pieces(&pieces);
        if path.len() == 0 {
            return Scan::Failed(
                LuminessError::lexer("Empty variable path", start_pos.line, start_pos.column),
            );
        }
        match tail {
            None => {
                let directives: Vec<String> = Vec::new();
                assert(strings_view(directives@) =~= Seq::<Seq<char>>::empty());
                Scan::Done(TokenType::Variable { path, directives, default: None })
            },
            Some(t) => {
                let chain_input = trim_chars(&t);
                match self.parse_directive_chain(&chain_input) {
                    Scan::Done((directives, default)) => Scan::Done(
                        TokenType::Variable { path, directives, default },
                    ),
                    Scan::Failed(e) => Scan::Failed(e),
                    Scan::Aborted => Scan::Aborted,
                }
            },
        }
    }

    /// Appends the text read since `text_start`, decoded as UTF-8, as a token
    /// where there is any.
    fn flush_text(&self, text_start: usize, tokens: &mut Vec<TokenType>)
        requires
            self.wf(),
            text_start <= self.position,
        ensures
            tokens_view(final(tokens)@) == flush(
                tokens_view(old(tokens)@),
                self.source@.subrange(text_start as int, self.position as int),
            ),
    {
        let ghost toks = tokens_view(tokens@);
        if text_start < self.position {
            let bytes = slice_subrange(self.source, text_start, self.position);
            let text = decode_lossy(bytes);
            tokens.push(TokenType::Text(text));
            assert(tokens_view(tokens@) =~= toks.push(Token::Text(text@)));
        }
    }

    fn lex_tokens(&mut self) -> (r: Scan<Vec<TokenType>>)
        requires
            old(self).wf(),
        ensures
            final(self).wf(),
            final(self).source == old(self).source,
            match lex_from(
                old(self).source@,
                old(self).position as int,
                old(self).in_raw_block,
                Seq::empty(),
                Seq::empty(),
            ) {
                Lexed::Tokens(ts) => r matches Scan::Done(v) && tokens_view(v@) == ts,
                Lexed::Failed(f) => r matches Scan::Failed(e) && e.is_lexer_error(
                    f.message,
                    f.line,
                    f.column,
                ),
                Lexed::Aborts => r is Aborted,
            },
    {
        let ghost s = self.source@;
        let ghost target = lex_from(
            s,
            self.position as int,
            self.in_raw_block,
            Seq::empty(),
            Seq::empty(),
        );
        let end_raw_bytes = [123u8, 37, 32, 101, 110, 100, 114, 97, 119, 32, 37, 125];
        let include_kw_bytes = [64u8, 105, 110, 99, 108, 117, 100, 101];
        assert(end_raw_bytes@ =~= end_raw());
        assert(include_kw_bytes@ =~= include_kw());
        let open_var_bytes = [123u8, 123u8];
        let open_block_bytes = [123u8, 37u8];
        assert(open_var_bytes@ =~= open_var());
        assert(open_block_bytes@ =~= open_block());
        let mut tokens: Vec<TokenType> = Vec::new();
        let mut text_start: usize = self.position;
        assert(s.subrange(text_start as int, self.position as int) =~= Seq::<u8>::empty());
        assert(tokens_view(tokens@) =~= Seq::<Token>::empty());
        while self.position < self.source.len()
            invariant
                self.wf(),
                self.source@ == s,
                self.source == old(self).source,
                end_raw_bytes@ == end_raw(),
                include_kw_bytes@ == include_kw(),
                open_var_bytes@ == open_var(),
                open_block_bytes@ == open_block(),
                target == lex_from(
                    old(self).source@,
                    old(self).position as int,
                    old(self).in_raw_block,
                    Seq::empty(),
                    Seq::empty(),
                ),
                text_start <= self.position,
                lex_from(
                    s,
                    self.position as int,
                    self.in_raw_block,
                    s.subrange(text_start as int, self.position as int),
                    tokens_view(tokens@),
                ) == target,
            decreases s.len() - self.position,
        {
            let ghost toks = tokens_view(tokens@);
            let ghost text = s.subrange(text_start as int, self.position as int);
            let ghost p = self.position as int;
            if self.in_raw_block {
                proof {
                    lemma_lex_raw(s, p, text, toks);
                }
                if self.peek_sequence(&end_raw_bytes) {
                    self.flush_text(text_start, &mut tokens);
                    tokens.push(TokenType::RawEnd);
                    assert(tokens_view(tokens@) =~= flush(toks, text).push(Token::RawEnd));
                    self.advance_by(12);
                    self.in_raw_block = false;
                    text_start = self.position;
                    assert(s.subrange(text_start as int, self.position as int) =~= Seq::<u8>::empty());
                } else {
                    self.step();
                    assert(s.subrange(text_start as int, self.position as int) =~= text.push(s[p]));
                }
            } else if self.peek_sequence(&open_var_bytes) {
                self.flush_text(text_start, &mut tokens);
                proof {
                    lemma_lex_construct(s, p, text, toks, scan_variable(s, p));
                }
                match self.parse_variable() {
                    Scan::Done(t) => {
                        tokens.push(t);
                        assert(tokens_view(tokens@) =~= flush(toks, text).push(token_view(t)));
                        text_start = self.position;
                        assert(s.subrange(text_start as int, self.position as int) =~= Seq::<u8>::empty());
                    },
                    Scan::Failed(e) => {

                        return Scan::Failed(e);
                    },
                    Scan::Aborted => {
                        return Scan::Aborted;
                    },
                }
            } else if self.peek_sequence(&include_kw_bytes) {
                self.flush_text(text_start, &mut tokens);
                proof {
                    lemma_lex_construct(s, p, text, toks, scan_include(s, p));
                }
                match self.parse_include() {
                    Ok(t) => {
                        tokens.push(t);
                        assert(tokens_view(tokens@) =~= flush(toks, text).push(token_view(t)));
                        text_start = self.position;
                        assert(s.subrange(text_start as int, self.position as int) =~= Seq::<u8>::empty());
                    },
                    Err(e) => return Scan::Failed(e),
                }
            } else if self.peek_sequence(&open_block_bytes) {
                self.flush_text(text_start, &mut tokens);
                proof {
                    lemma_lex_construct(s, p, text, toks, scan_block(s, p));
                }
                match self.parse_block_directive() {
                    Ok(t) => {
                        tokens.push(t);
                        assert(tokens_view(tokens@) =~= flush(toks, text).push(token_view(t)));
                        text_start = self.position;
                        assert(s.subrange(text_start as int, self.position as int) =~= Seq::<u8>::empty());
                    },
                    Err(e) => return Scan::Failed(e),
                }
            } else {
                proof {
                    lemma_lex_plain(s, p, text, toks);
                }
                self.step();
                assert(s.subrange(text_start as int, self.position as int) =~= text.push(s[p]));
            }
        }
        self.flush_text(text_start, &mut tokens);
        Scan::Done(tokens)
    }

    /// Tokenizes the source from where the lexer stands.
    pub fn tokenize(&mut self) -> (r: Result<Vec<TokenType>, LuminessError>)
        requires
            old(self).wf(),
            !(lex_from(
                old(self).bytes(),
                old(self).offset(),
                old(self).raw(),
                Seq::empty(),
                Seq::empty(),
            ) is Aborts),
        ensures
            final(self).wf(),
            final(self).bytes() == old(self).bytes(),
            match lex_from(
                old(self).bytes(),
                old(self).offset(),
                old(self).raw(),
                Seq::empty(),
                Seq::empty(),
            ) {
                Lexed::Tokens(ts) => r matches Ok(v) && tokens_view(v@) == ts,
                Lexed::Failed(f) => r matches Err(e) && e.is_lexer_error(
                    f.message,
                    f.line,
                    f.column,
                ),
                Lexed::Aborts => false,
            },
    {
        match self.lex_tokens() {
            Scan::Done(v) => Ok(v),
            Scan::Failed(e) => Err(e),
            Scan::Aborted => vstd::pervasive::unreached(),
        }
    }

    fn skip_whitespace(&mut self)
        requires
            old(self).wf(),
        ensures
            final(self).wf(),
            final(self).source == old(self).source,
            final(self).in_raw_block == old(self).in_raw_block,
            final(self).position == skip_ws(old(self).source@, old(self).position as int),
    {
        while self.at_ascii_whitespace()
            invariant
                self.wf(),
                self.source == old(self).source,
                self.in_raw_block == old(self).in_raw_block,
                skip_ws(self.source@, old(self).position as int) == skip_ws(
                    self.source@,
                    self.position as int,
                ),
            decreases self.source@.len() - self.position,
        {
            self.step();
        }
    }

    fn at_ascii_whitespace(&self) -> (b: bool)
        requires
            self.wf(),
        ensures
            b == (self.position < self.source@.len() && is_ascii_ws(
                self.source@[self.position as int],
            )),
    {
        if self.position < self.source.len() {
            let ch = self.source[self.position];
            ch == 32 || ch == 9 || ch == 10 || ch == 12 || ch == 13
        } else {
            false
        }
    }
}

/// Whether tokenizing the bytes `s` runs to tokens or an error: it aborts on a
/// directive list that holds a lone quote character, and a source must be
/// shorter than the largest `usize`.
pub open spec fn lexable(s: Seq<u8>) -> bool {
    s.len() < usize::MAX && !(lex(s) is Aborts)
}

/// Whether tokenizing `source` runs to tokens or an error.
pub fn is_lexable(source: &str) -> (b: bool)
    ensures
        b == lexable(source.spec_bytes()),
{
    let bytes = source.as_bytes();
    if bytes.len() == usize::MAX {
        return false;
    }
    let mut lexer = Lexer::new(source);
    match lexer.lex_tokens() {
        Scan::Aborted => false,
        _ => true,
    }
}

/// Tokenizes a whole source.
pub fn tokenize_source(source: &str) -> (r: Result<Vec<TokenType>, LuminessError>)
    requires
        lexable(source.spec_bytes()),
    ensures
        match lex(source.spec_bytes()) {
            Lexed::Tokens(ts) => r matches Ok(v) && tokens_view(v@) == ts,
            Lexed::Failed(f) => r matches Err(e) && e.is_lexer_error(f.message, f.line, f.column),
            Lexed::Aborts => false,
        },
{
    let mut lexer = Lexer::new(source);
    lexer.tokenize()
}

} // verus!
