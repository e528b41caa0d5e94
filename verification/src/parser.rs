//! Parsing of tokens into the tree of nodes that the renderer executes.
use crate::error::LuminessError;
use crate::text::{clone_opt_string, clone_strings, opt_view, strings_view};
use crate::lexer::{token_view, tokens_view, Token, TokenType};
use vstd::prelude::*;

verus! {

/// A template ready for rendering.
#[derive(Debug)]
pub struct Template {
    /// The nodes of the template, in order.
    pub nodes: Vec<AstNode>,
}

/// The nodes of a parsed template.
#[derive(Debug)]
pub enum AstNode {
    /// Plain text.
    Text(String),
    /// A variable with its path, directives and default.
    Variable {
        /// Path to the variable.
        path: Vec<String>,
        /// Directives to apply, in order.
        directives: Vec<String>,
        /// Value to use where the variable is missing.
        default: Option<String>,
    },
    /// Inclusion of another template.
    Include {
        /// Name of the template.
        template: String,
    },
    /// Inclusion of a header, possibly a variant.
    IncludeHeader {
        /// The variant.
        variant: Option<String>,
    },
    /// Inclusion of a footer, possibly a variant.
    IncludeFooter {
        /// The variant.
        variant: Option<String>,
    },
    /// A conditional block.
    Conditional {
        /// The condition.
        condition: String,
        /// Nodes rendered when the condition holds.
        body: Vec<AstNode>,
        /// Nodes rendered when it does not.
        else_body: Option<Vec<AstNode>>,
    },
    /// A loop over a collection.
    Loop {
        /// Name of the loop variable.
        item: String,
        /// Name of the collection.
        collection: String,
        /// Nodes rendered for each item.
        body: Vec<AstNode>,
    },
    /// Text of a raw section.
    Raw(String),
}

/// The mathematical value of a node.
pub enum Node {
    Text(Seq<char>),
    Variable { path: Seq<Seq<char>>, directives: Seq<Seq<char>>, default: Option<Seq<char>> },
    Include { template: Seq<char> },
    IncludeHeader { variant: Option<Seq<char>> },
    IncludeFooter { variant: Option<Seq<char>> },
    Conditional { condition: Seq<char>, body: Seq<Node>, else_body: Option<Seq<Node>> },
    Loop { item: Seq<char>, collection: Seq<char>, body: Seq<Node> },
    Raw(Seq<char>),
}

/// The value of a node.
pub open spec fn node_view(n: AstNode) -> Node
    decreases n,
{
    match n {
        AstNode::Text(s) => Node::Text(s@),
        AstNode::Variable { path, directives, default } => Node::Variable {
            path: strings_view(path@),
            directives: strings_view(directives@),
            default: opt_view(default),
        },
        AstNode::Include { template } => Node::Include { template: template@ },
        AstNode::IncludeHeader { variant } => Node::IncludeHeader { variant: opt_view(variant) },
        AstNode::IncludeFooter { variant } => Node::IncludeFooter { variant: opt_view(variant) },
        AstNode::Conditional { condition, body, else_body } => Node::Conditional {
            condition: condition@,
            body: nodes_view(body@),
            else_body: match else_body {
                Some(e) => Some(nodes_view(e@)),
                None => None,
            },
        },
        AstNode::Loop { item, collection, body } => Node::Loop {
            item: item@,
            collection: collection@,
            body: nodes_view(body@),
        },
        AstNode::Raw(s) => Node::Raw(s@),
    }
}

/// The values of a sequence of nodes.
pub open spec fn nodes_view(s: Seq<AstNode>) -> Seq<Node>
    decreases s,
{
    Seq::new(
        s.len(),
        |i: int|
            if 0 <= i < s.len() {
                node_view(s[i])
            } else {
                Node::Raw(Seq::empty())
            },
    )
}

/// The kinds of token sequence that the parser reads: the whole template, the
/// body of an `if` up to its `else` or `endif`, the `else` branch up to its
/// `endif`, and the body of a `for` up to its `endfor`.
#[derive(Clone, Copy)]
pub enum Block {
    /// The whole template.
    Top,
    /// The body of an `if`.
    IfBody,
    /// The `else` branch of an `if`.
    ElseBody,
    /// The body of a `for`.
    LoopBody,
}

/// Whether token `t` ends a block of kind `b`.
pub open spec fn closes(t: Token, b: Block) -> bool {
    match b {
        Block::Top => false,
        Block::IfBody => t is Else || t is EndIf,
        Block::ElseBody => t is EndIf,
        Block::LoopBody => t is EndFor,
    }
}

/// `j` brought into the range `lo..=hi` (used where an index comes back from a
/// nested block; `lemma_block_bounds` shows it already lies there).
pub open spec fn within(j: int, lo: int, hi: int) -> int {
    if j < lo {
        lo
    } else if j > hi {
        hi
    } else {
        j
    }
}

/// The index after the closing token at `j`, or `j` at the end of the tokens.
pub open spec fn past(t: Seq<Token>, j: int) -> int {
    if j < t.len() {
        j + 1
    } else {
        j
    }
}

/// The nodes of a block of kind `b` read from index `i`, and the index where it
/// ends: that of its closing token, or the end of the tokens. Each `if`, `for`
/// and `raw` nests its own block; a closing token that does not close the
/// current block is skipped.
pub open spec fn parse_block(t: Seq<Token>, i: int, b: Block) -> (Seq<Node>, int)
    decreases t.len() - i, 0int,
{
    if i < 0 || i >= t.len() {
        (Seq::empty(), t.len() as int)
    } else if closes(t[i], b) {
        (Seq::empty(), i)
    } else {
        let (first, next): (Option<Node>, int) = match t[i] {
            Token::Text(x) => (Some(Node::Text(x)), i + 1),
            Token::Variable { path, directives, default } => (
                Some(Node::Variable { path, directives, default }),
                i + 1,
            ),
            Token::Include { template } => (Some(Node::Include { template }), i + 1),
            Token::IncludeHeader { variant } => (Some(Node::IncludeHeader { variant }), i + 1),
            Token::IncludeFooter { variant } => (Some(Node::IncludeFooter { variant }), i + 1),
            Token::If { condition } => {
                let c = conditional_parts(t, i + 1);
                (
                    Some(Node::Conditional { condition, body: c.0, else_body: c.1 }),
                    within(c.2, i + 1, t.len() as int),
                )
            },
            Token::For { item, collection } => {
                let l = loop_parts(t, i + 1);
                (Some(Node::Loop { item, collection, body: l.0 }), within(l.1, i + 1, t.len() as int))
            },
            Token::RawStart => {
                let r = raw_scan(t, i + 1, Seq::empty());
                (Some(Node::Raw(r.0)), past(t, within(r.1, i + 1, t.len() as int)))
            },
            _ => (None, i + 1),
        };
        let rest = parse_block(t, next, b);
        match first {
            Some(n) => (seq![n] + rest.0, rest.1),
            None => rest,
        }
    }
}

/// What follows an `If` at index `s - 1`: the body up to `else` or `endif`, the
/// `else` branch up to `endif` where there is one, and the index just past the
/// `endif` (or the end of the tokens).
pub open spec fn conditional_parts(t: Seq<Token>, s: int) -> (Seq<Node>, Option<Seq<Node>>, int)
    decreases t.len() - s, 1int,
{
    if s < 0 || s > t.len() {
        (Seq::empty(), None, s)
    } else {
        let body = parse_block(t, s, Block::IfBody);
        let j = within(body.1, s, t.len() as int);
        if j < t.len() && t[j] is Else {
            let e = parse_block(t, j + 1, Block::ElseBody);
            (body.0, Some(e.0), past(t, within(e.1, j + 1, t.len() as int)))
        } else {
            (body.0, None, past(t, j))
        }
    }
}

/// What follows a `For` at index `s - 1`: the body up to `endfor`, and the
/// index just past it (or the end of the tokens).
pub open spec fn loop_parts(t: Seq<Token>, s: int) -> (Seq<Node>, int)
    decreases t.len() - s, 1int,
{
    if s < 0 || s > t.len() {
        (Seq::empty(), s)
    } else {
        let body = parse_block(t, s, Block::LoopBody);
        (body.0, past(t, within(body.1, s, t.len() as int)))
    }
}

/// The text of a raw section read from index `j` with `acc` read so far: the
/// texts up to the first `RawEnd`, and that `RawEnd`'s index (or the end).
pub open spec fn raw_scan(t: Seq<Token>, j: int, acc: Seq<char>) -> (Seq<char>, int)
    decreases t.len() - j,
{
    if j < 0 || j >= t.len() {
        (acc, t.len() as int)
    } else {
        match t[j] {
            Token::RawEnd => (acc, j),
            Token::Text(x) => raw_scan(t, j + 1, acc + x),
            _ => raw_scan(t, j + 1, acc),
        }
    }
}

/// The nodes of a whole token sequence.
pub open spec fn parse_tokens(t: Seq<Token>) -> Seq<Node> {
    parse_block(t, 0, Block::Top).0
}

/// A block read from `i` ends at or after `i`, within the tokens, at a token
/// that closes it or at the end; a whole template runs to the end.
pub proof fn lemma_block_bounds(t: Seq<Token>, i: int, b: Block)
    requires
        0 <= i <= t.len(),
    ensures
        i <= parse_block(t, i, b).1 <= t.len(),
        parse_block(t, i, b).1 == t.len() || closes(t[parse_block(t, i, b).1], b),
        b is Top ==> parse_block(t, i, b).1 == t.len(),
    decreases t.len() - i,
{
    if i < t.len() && !closes(t[i], b) {
        let next: int = match t[i] {
            Token::If { .. } => within(conditional_parts(t, i + 1).2, i + 1, t.len() as int),
            Token::For { .. } => within(loop_parts(t, i + 1).1, i + 1, t.len() as int),
            Token::RawStart => past(
                t,
                within(raw_scan(t, i + 1, Seq::empty()).1, i + 1, t.len() as int),
            ),
            _ => i + 1,
        };
        lemma_block_bounds(t, next, b);
    }
}

/// Whether a token stands for one node and opens no block.
pub open spec fn plain_token(t: Token) -> bool {
    ||| t is Text
    ||| t is Variable
    ||| t is Include
    ||| t is IncludeHeader
    ||| t is IncludeFooter
}

/// A block whose tokens from `s` are plain up to an `endfor` at `j` (for a loop
/// body), an `endif` or `else` (for an `if` body) or an `endif` (for an else
/// branch) ends right there, with one node for each plain token.
pub proof fn lemma_block_stops_at_its_closing_token(t: Seq<Token>, s: int, b: Block, j: int)
    requires
        0 <= s <= j < t.len(),
        forall|k: int| s <= k < j ==> plain_token(#[trigger] t[k]),
        match b {
            Block::LoopBody => t[j] is EndFor,
            Block::IfBody => t[j] is EndIf || t[j] is Else,
            Block::ElseBody => t[j] is EndIf,
            Block::Top => false,
        },
    ensures
        parse_block(t, s, b).1 == j,
        parse_block(t, s, b).0.len() == j - s,
    decreases j - s,
{
    if s < j {
        assert(plain_token(t[s]));
        lemma_block_stops_at_its_closing_token(t, s + 1, b, j);
    }
}

/// A loop body read from `s` ends at its `endfor`, and parsing goes on just
/// past that `endfor`; a loop left open runs to the end of the tokens.
pub proof fn lemma_loop_ends_past_endfor(t: Seq<Token>, s: int)
    requires
        0 <= s <= t.len(),
    ensures
        ({
            let b = parse_block(t, s, Block::LoopBody);
            &&& b.1 < t.len() ==> t[b.1] is EndFor && loop_parts(t, s) == (b.0, b.1 + 1)
            &&& b.1 >= t.len() ==> loop_parts(t, s) == (b.0, t.len() as int)
        }),
{
    lemma_block_bounds(t, s, Block::LoopBody);
}

/// A `for` at `i` whose body is plain up to its `endfor` at `j` becomes one
/// loop node holding those plain nodes, and what follows the `endfor` is read
/// as part of the enclosing block.
pub proof fn lemma_loop_then_siblings(t: Seq<Token>, i: int, b: Block, j: int)
    requires
        0 <= i < j < t.len(),
        t[i] is For,
        forall|k: int| i < k < j ==> plain_token(#[trigger] t[k]),
        t[j] is EndFor,
    ensures
        ({
            let rest = parse_block(t, j + 1, b);
            let body = parse_block(t, i + 1, Block::LoopBody).0;
            &&& body.len() == j - i - 1
            &&& parse_block(t, i, b) == (
                seq![
                    Node::Loop {
                        item: t[i]->For_item,
                        collection: t[i]->For_collection,
                        body,
                    },
                ] + rest.0,
                rest.1,
            )
        }),
{
    lemma_block_stops_at_its_closing_token(t, i + 1, Block::LoopBody, j);
    lemma_loop_ends_past_endfor(t, i + 1);
}

/// An `if` at `i` with a plain body up to an `else` at `e` and a plain else
/// branch up to its `endif` at `j` becomes one conditional node whose body holds
/// the nodes before `else` and whose else branch holds those after it; what
/// follows the `endif` is read as part of the enclosing block.
pub proof fn lemma_if_else_then_siblings(t: Seq<Token>, i: int, b: Block, e: int, j: int)
    requires
        0 <= i < e < j < t.len(),
        t[i] is If,
        forall|k: int| i < k < e ==> plain_token(#[trigger] t[k]),
        t[e] is Else,
        forall|k: int| e < k < j ==> plain_token(#[trigger] t[k]),
        t[j] is EndIf,
    ensures
        ({
            let rest = parse_block(t, j + 1, b);
            let body = parse_block(t, i + 1, Block::IfBody).0;
            let other = parse_block(t, e + 1, Block::ElseBody).0;
            &&& body.len() == e - i - 1
            &&& other.len() == j - e - 1
            &&& parse_block(t, i, b) == (
                seq![
                    Node::Conditional {
                        condition: t[i]->If_condition,
                        body,
                        else_body: Some(other),
                    },
                ] + rest.0,
                rest.1,
            )
        }),
{
    lemma_block_stops_at_its_closing_token(t, i + 1, Block::IfBody, e);
    lemma_block_stops_at_its_closing_token(t, e + 1, Block::ElseBody, j);
    lemma_conditional_ends_past_endif(t, i + 1);
}

/// An `if` at `i` with a plain body up to its `endif` at `j` becomes one
/// conditional node with that body and no else branch; what follows the
/// `endif` is read as part of the enclosing block.
pub proof fn lemma_if_then_siblings(t: Seq<Token>, i: int, b: Block, j: int)
    requires
        0 <= i < j < t.len(),
        t[i] is If,
        forall|k: int| i < k < j ==> plain_token(#[trigger] t[k]),
        t[j] is EndIf,
    ensures
        ({
            let rest = parse_block(t, j + 1, b);
            let body = parse_block(t, i + 1, Block::IfBody).0;
            &&& body.len() == j - i - 1
            &&& parse_block(t, i, b) == (
                seq![
                    Node::Conditional {
                        condition: t[i]->If_condition,
                        body,
                        else_body: None,
                    },
                ] + rest.0,
                rest.1,
            )
        }),
{
    lemma_block_stops_at_its_closing_token(t, i + 1, Block::IfBody, j);
    lemma_conditional_ends_past_endif(t, i + 1);
}

/// An `if` body read from `s` ends at its `else` or `endif`. At `endif`,
/// parsing goes on just past it with no else branch; at `else`, the else branch
/// runs to its `endif` and parsing goes on just past that; an `if` left open
/// runs to the end of the tokens.
pub proof fn lemma_conditional_ends_past_endif(t: Seq<Token>, s: int)
    requires
        0 <= s <= t.len(),
    ensures
        ({
            let b = parse_block(t, s, Block::IfBody);
            &&& b.1 < t.len() && t[b.1] is EndIf ==> conditional_parts(t, s) == (
                b.0,
                None::<Seq<Node>>,
                b.1 + 1,
            )
            &&& b.1 < t.len() ==> t[b.1] is EndIf || t[b.1] is Else
            &&& b.1 < t.len() && t[b.1] is Else ==> ({
                let e = parse_block(t, b.1 + 1, Block::ElseBody);
                &&& e.1 < t.len() ==> t[e.1] is EndIf && conditional_parts(t, s) == (
                    b.0,
                    Some(e.0),
                    e.1 + 1,
                )
                &&& e.1 >= t.len() ==> conditional_parts(t, s) == (
                    b.0,
                    Some(e.0),
                    t.len() as int,
                )
            })
            &&& b.1 >= t.len() ==> conditional_parts(t, s) == (
                b.0,
                None::<Seq<Node>>,
                t.len() as int,
            )
        }),
{
    lemma_block_bounds(t, s, Block::IfBody);
    let b = parse_block(t, s, Block::IfBody);
    if b.1 < t.len() && t[b.1] is Else {
        lemma_block_bounds(t, b.1 + 1, Block::ElseBody);
    }
}

/// The parser that turns tokens into a template.
pub struct TemplateParser;

/// Whether the token ends a block of kind `b`.
fn closes_block(token: &TokenType, b: Block) -> (r: bool)
    ensures
        r == closes(token_view(*token), b),
{
    match b {
        Block::Top => false,
        Block::IfBody => match token {
            TokenType::Else | TokenType::EndIf => true,
            _ => false,
        },
        Block::ElseBody => match token {
            TokenType::EndIf => true,
            _ => false,
        },
        Block::LoopBody => match token {
            TokenType::EndFor => true,
            _ => false,
        },
    }
}

impl TemplateParser {
    /// A parser.
    pub fn new() -> (p: Self) {
        TemplateParser
    }

    /// Parses tokens into a template; this never fails.
    pub fn parse(&mut self, tokens: Vec<TokenType>) -> (r: Result<Template, LuminessError>)
        ensures
            r matches Ok(t) && nodes_view(t.nodes@) == parse_tokens(tokens_view(tokens@)),
    {
        match self.parse_nodes(tokens.as_slice(), 0, Block::Top) {
            Ok((nodes, _)) => Ok(Template { nodes }),
            Err(e) => Err(e),
        }
    }

    /// Checks tokens by parsing them; this never fails.
    pub fn validate_only(&mut self, tokens: Vec<TokenType>) -> (r: Result<(), LuminessError>)
        ensures
            r is Ok,
    {
        match self.parse_nodes(tokens.as_slice(), 0, Block::Top) {
            Ok(_) => Ok(()),
            Err(e) => Err(e),
        }
    }

    /// Reads a block of kind `block` from `start`: its nodes, and the index of
    /// its closing token or the end of the tokens.
    fn parse_nodes(&self, tokens: &[TokenType], start: usize, block: Block) -> (r: Result<
        (Vec<AstNode>, usize),
        LuminessError,
    >)
        requires
            start <= tokens@.len(),
        ensures
            r matches Ok(v) && nodes_view(v.0@) == parse_block(
                tokens_view(tokens@),
                start as int,
                block,
            ).0 && v.1 == parse_block(tokens_view(tokens@), start as int, block).1 && start <= v.1
                <= tokens@.len(),
        decreases tokens@.len() - start, 0int,
    {
        let ghost t = tokens_view(tokens@);
        let mut nodes: Vec<AstNode> = Vec::new();
        let mut i = start;
        assert(nodes_view(nodes@) =~= Seq::<Node>::empty());
        while i < tokens.len()
            invariant
                start <= i <= tokens@.len(),
                t == tokens_view(tokens@),
                t.len() == tokens@.len(),
                nodes_view(nodes@) + parse_block(t, i as int, block).0 == parse_block(
                    t,
                    start as int,
                    block,
                ).0,
                parse_block(t, i as int, block).1 == parse_block(t, start as int, block).1,
            decreases tokens@.len() - i,
        {
            let ghost before = nodes_view(nodes@);
            assert(t[i as int] == token_view(tokens@[i as int]));
            if closes_block(&tokens[i], block) {
                assert(nodes_view(nodes@) =~= nodes_view(nodes@) + Seq::<Node>::empty());
                return Ok((nodes, i));
            }
            match &tokens[i] {
                TokenType::Text(text) => {
                    let n = AstNode::Text(text.clone());
                    nodes.push(n);
                    assert(nodes_view(nodes@) =~= before.push(node_view(n)));
                    i = i + 1;
                },
                TokenType::Variable { path, directives, default } => {
                    let n = AstNode::Variable {
                        path: clone_strings(path),
                        directives: clone_strings(directives),
                        default: clone_opt_string(default),
                    };
                    nodes.push(n);
                    assert(nodes_view(nodes@) =~= before.push(node_view(n)));
                    i = i + 1;
                },
                TokenType::Include { template } => {
                    let n = AstNode::Include { template: template.clone() };
                    nodes.push(n);
                    assert(nodes_view(nodes@) =~= before.push(node_view(n)));
                    i = i + 1;
                },
                TokenType::IncludeHeader { variant } => {
                    let n = AstNode::IncludeHeader { variant: clone_opt_string(variant) };
                    nodes.push(n);
                    assert(nodes_view(nodes@) =~= before.push(node_view(n)));
                    i = i + 1;
                },
                TokenType::IncludeFooter { variant } => {
                    let n = AstNode::IncludeFooter { variant: clone_opt_string(variant) };
                    nodes.push(n);
                    assert(nodes_view(nodes@) =~= before.push(node_view(n)));
                    i = i + 1;
                },
                TokenType::If { condition } => {
                    let (body, else_body, end_pos) = match self.parse_conditional(tokens, i + 1) {
                        Ok(x) => x,
                        Err(e) => return Err(e),
                    };
                    let n = AstNode::Conditional { condition: condition.clone(), body, else_body };
                    nodes.push(n);
                    assert(nodes_view(nodes@) =~= before.push(node_view(n)));
                    i = end_pos;
                },
                TokenType::For { item, collection } => {
                    let (body, end_pos) = match self.parse_loop(tokens, i + 1) {
                        Ok(x) => x,
                        Err(e) => return Err(e),
                    };
                    let n = AstNode::Loop {
                        item: item.clone(),
                        collection: collection.clone(),
                        body,
                    };
                    nodes.push(n);
                    assert(nodes_view(nodes@) =~= before.push(node_view(n)));
                    i = end_pos;
                },
                TokenType::RawStart => {
                    let (content, end_pos) = match self.parse_raw(tokens, i + 1) {
                        Ok(x) => x,
                        Err(e) => return Err(e),
                    };
                    let n = AstNode::Raw(content);
                    nodes.push(n);
                    assert(nodes_view(nodes@) =~= before.push(node_view(n)));
                    i = end_pos;
                },
                _ => {
                    i = i + 1;
                },
            }
        }
        assert(nodes_view(nodes@) =~= nodes_view(nodes@) + Seq::<Node>::empty());
        Ok((nodes, tokens.len()))
    }

    /// Reads what follows an `if`: the body, the `else` branch, and the index
    /// just past the closing `endif`.
    fn parse_conditional(&self, tokens: &[TokenType], start: usize) -> (r: Result<
        (Vec<AstNode>, Option<Vec<AstNode>>, usize),
        LuminessError,
    >)
        requires
            start <= tokens@.len(),
        ensures
            r matches Ok(v) && ({
                let parts = conditional_parts(tokens_view(tokens@), start as int);
                &&& nodes_view(v.0@) == parts.0
                &&& match v.1 {
                    Some(e) => parts.1 == Some(nodes_view(e@)),
                    None => parts.1 is None,
                }
                &&& v.2 == parts.2
                &&& start <= v.2 <= tokens@.len()
            }),
        decreases tokens@.len() - start, 1int,
    {
        let ghost t = tokens_view(tokens@);
        let (body, j) = match self.parse_nodes(tokens, start, Block::IfBody) {
            Ok(x) => x,
            Err(e) => return Err(e),
        };
        if j < tokens.len() {
            assert(t[j as int] == token_view(tokens@[j as int]));
            if let TokenType::Else = &tokens[j] {
                let (else_nodes, k) = match self.parse_nodes(tokens, j + 1, Block::ElseBody) {
                    Ok(x) => x,
                    Err(e) => return Err(e),
                };
                let next = if k < tokens.len() {
                    k + 1
                } else {
                    k
                };
                return Ok((body, Some(else_nodes), next));
            }
            Ok((body, None, j + 1))
        } else {
            Ok((body, None, j))
        }
    }

    /// Reads what follows a `for`: the body, and the index just past the closing
    /// `endfor`.
    fn parse_loop(&self, tokens: &[TokenType], start: usize) -> (r: Result<
        (Vec<AstNode>, usize),
        LuminessError,
    >)
        requires
            start <= tokens@.len(),
        ensures
            r matches Ok(v) && ({
                let parts = loop_parts(tokens_view(tokens@), start as int);
                nodes_view(v.0@) == parts.0 && v.1 == parts.1 && start <= v.1 <= tokens@.len()
            }),
        decreases tokens@.len() - start, 1int,
    {
        let (body, j) = match self.parse_nodes(tokens, start, Block::LoopBody) {
            Ok(x) => x,
            Err(e) => return Err(e),
        };
        if j < tokens.len() {
            Ok((body, j + 1))
        } else {
            Ok((body, j))
        }
    }

    /// Reads a raw section: its text, and the index just past its `RawEnd`.
    fn parse_raw(&self, tokens: &[TokenType], start: usize) -> (r: Result<
        (String, usize),
        LuminessError,
    >)
        requires
            start <= tokens@.len(),
        ensures
            r matches Ok(v) && ({
                let scan = raw_scan(tokens_view(tokens@), start as int, Seq::empty());
                &&& v.0@ == scan.0
                &&& start <= scan.1 <= tokens@.len()
                &&& v.1 == past(tokens_view(tokens@), scan.1)
            }),
    {
        let ghost t = tokens_view(tokens@);
        let mut i = start;
        let mut content = String::new();
        while i < tokens.len()
            invariant
                start <= i <= tokens@.len(),
                t == tokens_view(tokens@),
                t.len() == tokens@.len(),
                raw_scan(t, start as int, Seq::empty()) == raw_scan(t, i as int, content@),
            decreases tokens@.len() - i,
        {
            assert(t[i as int] == token_view(tokens@[i as int]));
            match &tokens[i] {
                TokenType::RawEnd => {
                    return Ok((content, i + 1));
                },
                TokenType::Text(text) => {
                    content.append(text.as_str());
                    i = i + 1;
                },
                _ => {
                    i = i + 1;
                },
            }
        }
        Ok((content, i))
    }
}

} // verus!
