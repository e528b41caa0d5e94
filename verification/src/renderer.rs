//! Rendering of a parsed template with a context. Rendering decides the output
//! and the includes it needs. The sources of included templates come from the
//! caller, which reads them; `TemplateRenderer::expand` compiles each and
//! renders it in place with the same context, stopping at an include that
//! repeats one it stands within, and `RenderPlan::finish` gives the text once
//! no include is left.
use crate::context::{lookup, path_truthy, Context};
use crate::directives::{apply_directive, directive_output, is_directive_error, str_eq};
use crate::error::LuminessError;
use crate::json::{value_text, Json, JsonValue};
use crate::lexer::{lex, lexable, tokenize_source, LexFailure, Lexed};
use crate::parser::{node_view, nodes_view, parse_tokens, AstNode, Node, Template, TemplateParser};
use crate::resolver::TemplateResolver;
use crate::text::{
    chars_of, clone_opt_string, join, opt_view, split_chars, split_on, string_of, strings_view,
    to_owned_string,
};
use crate::LuminessConfig;
use vstd::prelude::*;
use vstd::utf8::encode_utf8;

verus! {

/// Output formats and their content types.
#[derive(Debug, Clone, Copy)]
pub enum OutputFormat {
    /// HTML.
    Html,
    /// JSON.
    Json,
    /// Plain text.
    Text,
    /// XML.
    Xml,
}

/// The content type of an output format.
pub open spec fn content_type_of(f: OutputFormat) -> Seq<char> {
    match f {
        OutputFormat::Html => "text/html; charset=utf-8"@,
        OutputFormat::Json => "application/json; charset=utf-8"@,
        OutputFormat::Text => "text/plain; charset=utf-8"@,
        OutputFormat::Xml => "application/xml; charset=utf-8"@,
    }
}

impl OutputFormat {
    /// The content type of the format, with its character set.
    pub fn content_type(&self) -> (r: &'static str)
        ensures
            r@ == content_type_of(*self),
    {
        match self {
            OutputFormat::Html => "text/html; charset=utf-8",
            OutputFormat::Json => "application/json; charset=utf-8",
            OutputFormat::Text => "text/plain; charset=utf-8",
            OutputFormat::Xml => "application/xml; charset=utf-8",
        }
    }
}

/// A template that the output includes, rendered in place with the same
/// context.
#[derive(Debug)]
pub enum IncludeRequest {
    /// A template by name.
    Template(String),
    /// The header, possibly a variant.
    Header(Option<String>),
    /// The footer, possibly a variant.
    Footer(Option<String>),
}

/// A piece of the output: text, or an included template still to be read,
/// with the includes it stands within, outermost first.
#[derive(Debug)]
pub enum RenderStep {
    /// Text.
    Text(String),
    /// An included template, and the chain of includes that led to it.
    Include(IncludeRequest, Vec<IncludeRequest>),
}

/// The outcome of rendering: the pieces of the output up to the first failure,
/// and that failure's error.
#[derive(Debug)]
pub struct RenderPlan {
    /// The pieces of the output, in order.
    pub steps: Vec<RenderStep>,
    /// The error where rendering stopped.
    pub error: Option<LuminessError>,
}

/// The mathematical value of an include request.
pub enum Inclusion {
    Template(Seq<char>),
    Header(Option<Seq<char>>),
    Footer(Option<Seq<char>>),
}

/// The mathematical value of a piece of output.
pub enum Piece {
    Text(Seq<char>),
    Include(Inclusion, Seq<Inclusion>),
}

/// The value of an include request.
pub open spec fn inclusion_view(r: IncludeRequest) -> Inclusion {
    match r {
        IncludeRequest::Template(t) => Inclusion::Template(t@),
        IncludeRequest::Header(v) => Inclusion::Header(opt_view(v)),
        IncludeRequest::Footer(v) => Inclusion::Footer(opt_view(v)),
    }
}

/// The values of a chain of include requests.
pub open spec fn chain_view(c: Seq<IncludeRequest>) -> Seq<Inclusion> {
    c.map_values(|x: IncludeRequest| inclusion_view(x))
}

/// The value of a piece of output.
pub open spec fn piece_view(s: RenderStep) -> Piece {
    match s {
        RenderStep::Text(t) => Piece::Text(t@),
        RenderStep::Include(r, c) => Piece::Include(inclusion_view(r), chain_view(c@)),
    }
}

/// The values of pieces of output.
pub open spec fn pieces_view(s: Seq<RenderStep>) -> Seq<Piece> {
    s.map_values(|x: RenderStep| piece_view(x))
}

/// The text of a variable: its value's text, else its default, else nothing.
pub open spec fn variable_text(
    ctx: Map<Seq<char>, Json>,
    path: Seq<Seq<char>>,
    default: Option<Seq<char>>,
) -> Seq<char> {
    match lookup(ctx, path) {
        Some(v) => value_text(v),
        None => match default {
            Some(d) => d,
            None => Seq::empty(),
        },
    }
}

/// The directives applied in order, or the first that fails, with the message
/// of its failure.
pub open spec fn apply_chain(input: Seq<char>, directives: Seq<Seq<char>>) -> Result<
    Seq<char>,
    (Seq<char>, Seq<char>),
>
    decreases directives.len(),
{
    if directives.len() == 0 {
        Ok(input)
    } else {
        match apply_chain(input, directives.drop_last()) {
            Ok(x) => match directive_output(x, directives.last()) {
                Ok(y) => Ok(y),
                Err(m) => Err((directives.last(), m)),
            },
            Err(d) => Err(d),
        }
    }
}

/// A chain of one directive gives that directive's output, or its failure with
/// its name.
pub proof fn lemma_chain_of_one(input: Seq<char>, d: Seq<char>)
    ensures
        apply_chain(input, seq![d]) == match directive_output(input, d) {
            Ok(y) => Ok::<Seq<char>, (Seq<char>, Seq<char>)>(y),
            Err(m) => Err((d, m)),
        },
{
    assert(seq![d].drop_last() =~= Seq::<Seq<char>>::empty());
    assert(apply_chain(input, Seq::<Seq<char>>::empty()) == Ok::<
        Seq<char>,
        (Seq<char>, Seq<char>),
    >(input));
    assert(seq![d].last() == d);
}

/// Running a chain `first + then` is running `first` and then running `then`
/// on its output: every directive is applied, in order, to what the ones
/// before it gave, and the first failure ends the chain.
pub proof fn lemma_chain_composes(input: Seq<char>, first: Seq<Seq<char>>, then: Seq<Seq<char>>)
    ensures
        apply_chain(input, first + then) == match apply_chain(input, first) {
            Ok(x) => apply_chain(x, then),
            Err(e) => Err(e),
        },
    decreases then.len(),
{
    if then.len() == 0 {
        assert(first + then =~= first);
    } else {
        lemma_chain_composes(input, first, then.drop_last());
        assert((first + then).drop_last() =~= first + then.drop_last());
        assert((first + then).last() == then.last());
    }
}

/// Two directives in a chain: the second is applied to what the first gave.
pub proof fn lemma_chain_of_two(input: Seq<char>, d1: Seq<char>, d2: Seq<char>)
    ensures
        apply_chain(input, seq![d1, d2]) == match directive_output(input, d1) {
            Ok(x) => match directive_output(x, d2) {
                Ok(y) => Ok::<Seq<char>, (Seq<char>, Seq<char>)>(y),
                Err(m) => Err((d2, m)),
            },
            Err(m) => Err((d1, m)),
        },
{
    lemma_chain_composes(input, seq![d1], seq![d2]);
    assert(seq![d1] + seq![d2] =~= seq![d1, d2]);
    lemma_chain_of_one(input, d1);
    if let Ok(x) = directive_output(input, d1) {
        lemma_chain_of_one(x, d2);
    }
}

/// The output of a node in a context, and the directive that failed with the
/// message of its failure, if one did.
pub open spec fn node_output(n: Node, ctx: Map<Seq<char>, Json>) -> (Seq<Piece>, Option<(Seq<char>, Seq<char>)>)
    decreases n, 1int,
{
    match n {
        Node::Text(t) => (seq![Piece::Text(t)], None),
        Node::Variable { path, directives, default } => match apply_chain(
            variable_text(ctx, path, default),
            directives,
        ) {
            Ok(o) => (seq![Piece::Text(o)], None),
            Err(d) => (Seq::empty(), Some(d)),
        },
        Node::Include { template } => (
            seq![Piece::Include(Inclusion::Template(template), Seq::empty())],
            None,
        ),
        Node::IncludeHeader { variant } => (
            seq![Piece::Include(Inclusion::Header(variant), Seq::empty())],
            None,
        ),
        Node::IncludeFooter { variant } => (
            seq![Piece::Include(Inclusion::Footer(variant), Seq::empty())],
            None,
        ),
        Node::Conditional { condition, body, else_body } => if path_truthy(
            ctx,
            split_on(condition, '.'),
        ) {
            nodes_output(body, ctx)
        } else {
            match else_body {
                Some(e) => nodes_output(e, ctx),
                None => (Seq::empty(), None),
            }
        },
        Node::Loop { item, collection, body } => match lookup(ctx, seq![collection]) {
            Some(Json::Array(items)) => items_output(body, item, items, items.len(), ctx),
            _ => (Seq::empty(), None),
        },
        Node::Raw(c) => (seq![Piece::Text(c)], None),
    }
}

/// The output of nodes in order, up to the first failing directive.
pub open spec fn nodes_output(ns: Seq<Node>, ctx: Map<Seq<char>, Json>) -> (
    Seq<Piece>,
    Option<(Seq<char>, Seq<char>)>,
)
    decreases ns, 1int,
{
    if ns.len() == 0 {
        (Seq::empty(), None)
    } else {
        let prev = nodes_output(ns.subrange(0, ns.len() - 1), ctx);
        if prev.1 is Some {
            prev
        } else {
            let last = node_output(ns[ns.len() - 1], ctx);
            (prev.0 + last.0, last.1)
        }
    }
}

/// The output of a loop body for the first `k` items, each bound to `item`.
pub open spec fn items_output(
    body: Seq<Node>,
    item: Seq<char>,
    items: Seq<Json>,
    k: nat,
    ctx: Map<Seq<char>, Json>,
) -> (Seq<Piece>, Option<(Seq<char>, Seq<char>)>)
    decreases body, 2 + k,
{
    if k == 0 {
        (Seq::empty(), None)
    } else {
        let prev = items_output(body, item, items, (k - 1) as nat, ctx);
        if prev.1 is Some {
            prev
        } else {
            let last = nodes_output(body, ctx.insert(item, items[k - 1]));
            (prev.0 + last.0, last.1)
        }
    }
}

/// Whether `plan` holds the pieces and the directive error of `out`.
pub open spec fn plan_matches(plan: RenderPlan, out: (Seq<Piece>, Option<(Seq<char>, Seq<char>)>)) -> bool {
    &&& pieces_view(plan.steps@) == out.0
    &&& match out.1 {
        Some(d) => plan.error matches Some(e) && is_directive_error(e, d.0, d.1),
        None => plan.error is None,
    }
}

/// How many pieces are includes.
pub open spec fn include_count(p: Seq<Piece>) -> nat
    decreases p.len(),
{
    if p.len() == 0 {
        0
    } else {
        include_count(p.drop_last()) + if p.last() is Include {
            1nat
        } else {
            0nat
        }
    }
}

/// The include requests among the pieces, in order.
pub open spec fn include_list(p: Seq<Piece>) -> Seq<Inclusion>
    decreases p.len(),
{
    if p.len() == 0 {
        Seq::empty()
    } else {
        match p.last() {
            Piece::Include(r, _) => include_list(p.drop_last()).push(r),
            Piece::Text(_) => include_list(p.drop_last()),
        }
    }
}

/// The text of the pieces, in order.
pub open spec fn text_of(p: Seq<Piece>) -> Seq<char>
    decreases p.len(),
{
    if p.len() == 0 {
        Seq::empty()
    } else {
        text_of(p.drop_last()) + match p.last() {
            Piece::Text(t) => t,
            Piece::Include(_, _) => Seq::empty(),
        }
    }
}

/// The template name that an include request reads first.
pub open spec fn request_name(r: Inclusion) -> Seq<char> {
    match r {
        Inclusion::Template(n) => n,
        Inclusion::Header(None) => "header"@,
        Inclusion::Header(Some(v)) => "header-"@ + v,
        Inclusion::Footer(None) => "footer"@,
        Inclusion::Footer(Some(v)) => "footer-"@ + v,
    }
}

/// A chain of includes written as their names joined by ` -> `.
pub open spec fn chain_text(c: Seq<Inclusion>) -> Seq<char> {
    join(c.map_values(|r: Inclusion| request_name(r)), " -> "@)
}

/// Where expanding includes stopped: nowhere, at a failing directive (its name
/// and message), at the `k`-th fetched source that failed, at a lexer error
/// of an included source, or at an include that repeats the chain (its text).
pub enum Stop {
    Clear,
    Directive(Seq<char>, Seq<char>),
    Fetch(int),
    Lexer(LexFailure),
    Circular(Seq<char>),
}

/// The pieces of an included template placed within `chain`: each include it
/// holds gets `chain` as the includes it stands within, up to the first
/// include that repeats a request of `chain`, whose chain text ends the run.
pub open spec fn adopted(p: Seq<Piece>, chain: Seq<Inclusion>) -> (Seq<Piece>, Option<Seq<char>>)
    decreases p.len(),
{
    if p.len() == 0 {
        (Seq::empty(), None)
    } else {
        let prev = adopted(p.drop_last(), chain);
        if prev.1 is Some {
            prev
        } else {
            match p.last() {
                Piece::Text(t) => (prev.0.push(Piece::Text(t)), None),
                Piece::Include(q, _) => if chain.contains(q) {
                    (prev.0, Some(chain_text(chain.push(q))))
                } else {
                    (prev.0.push(Piece::Include(q, chain)), None)
                },
            }
        }
    }
}

/// What the source of template `r`, included within `chain`, puts in the
/// output: it is lexed, parsed and rendered with the context, and its own
/// includes stand within `chain` followed by `r`.
pub open spec fn included_output(
    source: Seq<char>,
    r: Inclusion,
    chain: Seq<Inclusion>,
    ctx: Map<Seq<char>, Json>,
) -> (Seq<Piece>, Stop) {
    match lex(encode_utf8(source)) {
        Lexed::Tokens(ts) => {
            let out = nodes_output(parse_tokens(ts), ctx);
            let a = adopted(out.0, chain.push(r));
            match a.1 {
                Some(c) => (a.0, Stop::Circular(c)),
                None => (
                    a.0,
                    match out.1 {
                        Some(d) => Stop::Directive(d.0, d.1),
                        None => Stop::Clear,
                    },
                ),
            }
        },
        Lexed::Failed(f) => (Seq::empty(), Stop::Lexer(f)),
        Lexed::Aborts => (Seq::empty(), Stop::Lexer(LexFailure { message: Seq::empty(), line: 0, column: 0 })),
    }
}

/// The pieces with the `k`-th include replaced by what the `k`-th fetched
/// source renders to, in order, up to the first stop.
pub open spec fn expansion(
    p: Seq<Piece>,
    fetched: Seq<Result<String, LuminessError>>,
    ctx: Map<Seq<char>, Json>,
) -> (Seq<Piece>, Stop)
    decreases p.len(),
{
    if p.len() == 0 {
        (Seq::empty(), Stop::Clear)
    } else {
        let prev = expansion(p.drop_last(), fetched, ctx);
        if !(prev.1 is Clear) {
            prev
        } else {
            match p.last() {
                Piece::Text(t) => (prev.0.push(Piece::Text(t)), Stop::Clear),
                Piece::Include(r, chain) => match fetched[include_count(p.drop_last()) as int] {
                    Err(_) => (prev.0, Stop::Fetch(include_count(p.drop_last()) as int)),
                    Ok(src) => {
                        let inner = included_output(src@, r, chain, ctx);
                        (prev.0 + inner.0, inner.1)
                    },
                },
            }
        }
    }
}

/// Whether `r` is the error of stop `st` (none where nothing stopped).
pub open spec fn stop_error(
    r: Option<LuminessError>,
    st: Stop,
    fetched: Seq<Result<String, LuminessError>>,
) -> bool {
    match st {
        Stop::Clear => r is None,
        Stop::Directive(d, m) => r matches Some(e) && is_directive_error(e, d, m),
        Stop::Fetch(k) => 0 <= k < fetched.len() && (fetched[k] matches Err(e0) && r == Some(e0)),
        Stop::Lexer(f) => r matches Some(e) && e.is_lexer_error(f.message, f.line, f.column),
        Stop::Circular(c) => r matches Some(e) && e matches LuminessError::CircularReference {
            chain,
        } && chain@ == c,
    }
}

/// Once expanding stops, the rest of the pieces changes nothing.
proof fn lemma_expansion_stops(
    p: Seq<Piece>,
    fetched: Seq<Result<String, LuminessError>>,
    ctx: Map<Seq<char>, Json>,
    n: int,
)
    requires
        0 < n <= p.len(),
        !(expansion(p.subrange(0, n), fetched, ctx).1 is Clear),
    ensures
        expansion(p, fetched, ctx) == expansion(p.subrange(0, n), fetched, ctx),
    decreases p.len() - n,
{
    if n < p.len() {
        assert(p.subrange(0, n + 1).drop_last() =~= p.subrange(0, n));
        lemma_expansion_stops(p, fetched, ctx, n + 1);
    } else {
        assert(p.subrange(0, n) =~= p);
    }
}

/// Once adopting stops, the rest of the pieces changes nothing.
proof fn lemma_adopted_stops(p: Seq<Piece>, chain: Seq<Inclusion>, n: int)
    requires
        0 < n <= p.len(),
        adopted(p.subrange(0, n), chain).1 is Some,
    ensures
        adopted(p, chain) == adopted(p.subrange(0, n), chain),
    decreases p.len() - n,
{
    if n < p.len() {
        assert(p.subrange(0, n + 1).drop_last() =~= p.subrange(0, n));
        lemma_adopted_stops(p, chain, n + 1);
    } else {
        assert(p.subrange(0, n) =~= p);
    }
}

/// A copy of an include request.
fn copy_request(r: &IncludeRequest) -> (c: IncludeRequest)
    ensures
        inclusion_view(c) == inclusion_view(*r),
{
    match r {
        IncludeRequest::Template(t) => IncludeRequest::Template(t.clone()),
        IncludeRequest::Header(v) => IncludeRequest::Header(clone_opt_string(v)),
        IncludeRequest::Footer(v) => IncludeRequest::Footer(clone_opt_string(v)),
    }
}

/// Whether two optional strings hold the same characters.
fn same_opt(a: &Option<String>, b: &Option<String>) -> (r: bool)
    ensures
        r == (opt_view(*a) == opt_view(*b)),
{
    match a {
        Some(x) => match b {
            Some(y) => str_eq(x.as_str(), y.as_str()),
            None => false,
        },
        None => b.is_none(),
    }
}

/// Whether two include requests are the same.
fn same_request(a: &IncludeRequest, b: &IncludeRequest) -> (r: bool)
    ensures
        r == (inclusion_view(*a) == inclusion_view(*b)),
{
    match a {
        IncludeRequest::Template(x) => match b {
            IncludeRequest::Template(y) => str_eq(x.as_str(), y.as_str()),
            _ => false,
        },
        IncludeRequest::Header(x) => match b {
            IncludeRequest::Header(y) => same_opt(x, y),
            _ => false,
        },
        IncludeRequest::Footer(x) => match b {
            IncludeRequest::Footer(y) => same_opt(x, y),
            _ => false,
        },
    }
}

/// A copy of a chain of include requests.
fn copy_chain(c: &Vec<IncludeRequest>) -> (r: Vec<IncludeRequest>)
    ensures
        chain_view(r@) == chain_view(c@),
{
    let mut r: Vec<IncludeRequest> = Vec::new();
    let mut i: usize = 0;
    while i < c.len()
        invariant
            i <= c@.len(),
            r@.len() == i,
            chain_view(r@) == chain_view(c@.subrange(0, i as int)),
        decreases c.len() - i,
    {
        let ghost before = r@;
        let x = copy_request(&c[i]);
        r.push(x);
        assert forall|j: int| 0 <= j < i implies #[trigger] inclusion_view(r@[j]) == inclusion_view(
            c@[j],
        ) by {
            assert(r@[j] == before[j]);
            assert(chain_view(before)[j] == chain_view(c@.subrange(0, i as int))[j]);
        }
        assert(chain_view(r@) =~= chain_view(c@.subrange(0, i + 1)));
        i = i + 1;
    }
    assert(c@.subrange(0, c@.len() as int) =~= c@);
    r
}

/// Whether a chain holds a request.
fn chain_contains(c: &Vec<IncludeRequest>, q: &IncludeRequest) -> (r: bool)
    ensures
        r == chain_view(c@).contains(inclusion_view(*q)),
{
    let ghost cv = chain_view(c@);
    let mut i: usize = 0;
    while i < c.len()
        invariant
            i <= c@.len(),
            cv == chain_view(c@),
            forall|j: int| 0 <= j < i ==> cv[j] != inclusion_view(*q),
        decreases c.len() - i,
    {
        if same_request(&c[i], q) {
            assert(cv[i as int] == inclusion_view(*q));
            return true;
        }
        i = i + 1;
    }
    false
}

/// The template name that a request reads first.
fn request_name_string(r: &IncludeRequest) -> (s: String)
    ensures
        s@ == request_name(inclusion_view(*r)),
{
    match r {
        IncludeRequest::Template(n) => n.clone(),
        IncludeRequest::Header(None) => to_owned_string("header"),
        IncludeRequest::Header(Some(v)) => {
            let mut s = to_owned_string("header-");
            s.append(v.as_str());
            s
        },
        IncludeRequest::Footer(None) => to_owned_string("footer"),
        IncludeRequest::Footer(Some(v)) => {
            let mut s = to_owned_string("footer-");
            s.append(v.as_str());
            s
        },
    }
}

/// A chain written as its names joined by ` -> `.
fn chain_string(c: &Vec<IncludeRequest>) -> (s: String)
    ensures
        s@ == chain_text(chain_view(c@)),
{
    let ghost names = chain_view(c@).map_values(|r: Inclusion| request_name(r));
    let mut s = String::new();
    let mut i: usize = 0;
    assert(names.subrange(0, 0) =~= Seq::<Seq<char>>::empty());
    while i < c.len()
        invariant
            i <= c@.len(),
            names == chain_view(c@).map_values(|r: Inclusion| request_name(r)),
            names.len() == c@.len(),
            s@ == join(names.subrange(0, i as int), " -> "@),
        decreases c.len() - i,
    {
        let name = request_name_string(&c[i]);
        assert(names[i as int] == name@);
        assert(names.subrange(0, i + 1).drop_last() =~= names.subrange(0, i as int));
        if i > 0 {
            s.append(" -> ");
        } else {
            assert(s@ =~= Seq::<char>::empty());
        }
        s.append(name.as_str());
        assert(names.subrange(0, i + 1).last() == name@);
        i = i + 1;
    }
    assert(names.subrange(0, c@.len() as int) =~= names);
    s
}

proof fn lemma_include_count_mono(p: Seq<Piece>, i: int)
    requires
        0 <= i <= p.len(),
    ensures
        include_count(p.subrange(0, i)) <= include_count(p),
    decreases p.len() - i,
{
    if i < p.len() {
        lemma_include_count_mono(p, i + 1);
        assert(p.subrange(0, i + 1).drop_last() =~= p.subrange(0, i));
    } else {
        assert(p.subrange(0, i) =~= p);
    }
}

impl RenderPlan {
    /// How many includes the output holds.
    pub fn include_count(&self) -> (n: usize)
        ensures
            n == include_count(pieces_view(self.steps@)),
    {
        let ghost pv = pieces_view(self.steps@);
        let mut n: usize = 0;
        let mut i: usize = 0;
        while i < self.steps.len()
            invariant
                i <= self.steps@.len(),
                pv == pieces_view(self.steps@),
                n == include_count(pv.subrange(0, i as int)),
                n <= i,
            decreases self.steps.len() - i,
        {
            assert(pv.subrange(0, i + 1).drop_last() =~= pv.subrange(0, i as int));
            assert(pv[i as int] == piece_view(self.steps@[i as int]));
            if let RenderStep::Include(_, _) = &self.steps[i] {
                n = n + 1;
            }
            i = i + 1;
        }
        assert(pv.subrange(0, self.steps@.len() as int) =~= pv);
        n
    }

    /// The includes the output needs, in order.
    pub fn includes(&self) -> (r: Vec<&IncludeRequest>)
        ensures
            r@.len() == include_count(pieces_view(self.steps@)),
            r@.map_values(|x: &IncludeRequest| inclusion_view(*x)) == include_list(
                pieces_view(self.steps@),
            ),
    {
        let ghost pv = pieces_view(self.steps@);
        let mut r: Vec<&IncludeRequest> = Vec::new();
        let mut i: usize = 0;
        while i < self.steps.len()
            invariant
                i <= self.steps@.len(),
                pv == pieces_view(self.steps@),
                r@.len() == include_count(pv.subrange(0, i as int)),
                r@.map_values(|x: &IncludeRequest| inclusion_view(*x)) == include_list(
                    pv.subrange(0, i as int),
                ),
            decreases self.steps.len() - i,
        {
            assert(pv.subrange(0, i + 1).drop_last() =~= pv.subrange(0, i as int));
            assert(pv[i as int] == piece_view(self.steps@[i as int]));
            let ghost before = r@;
            if let RenderStep::Include(req, _) = &self.steps[i] {
                r.push(req);
                assert(r@.map_values(|x: &IncludeRequest| inclusion_view(*x)) =~= before.map_values(
                    |x: &IncludeRequest| inclusion_view(*x),
                ).push(inclusion_view(*req)));
            }
            i = i + 1;
        }
        assert(pv.subrange(0, self.steps@.len() as int) =~= pv);
        r
    }

    /// The output, once every include has been rendered in place: its text, or
    /// the error where rendering stopped.
    pub fn finish(self) -> (r: Result<String, LuminessError>)
        requires
            self.error is None ==> include_count(pieces_view(self.steps@)) == 0,
        ensures
            match self.error {
                Some(e) => r == Err::<String, LuminessError>(e),
                None => r matches Ok(t) && t@ == text_of(pieces_view(self.steps@)),
            },
    {
        let ghost pv = pieces_view(self.steps@);
        let RenderPlan { steps, error } = self;
        if let Some(e) = error {
            return Err(e);
        }
        let mut out = String::new();
        let mut i: usize = 0;
        while i < steps.len()
            invariant
                i <= steps@.len(),
                pv == pieces_view(steps@),
                out@ == text_of(pv.subrange(0, i as int)),
            decreases steps.len() - i,
        {
            assert(pv.subrange(0, i + 1).drop_last() =~= pv.subrange(0, i as int));
            assert(pv[i as int] == piece_view(steps@[i as int]));
            if let RenderStep::Text(t) = &steps[i] {
                out.append(t.as_str());
            }
            i = i + 1;
        }
        assert(pv.subrange(0, steps@.len() as int) =~= pv);
        Ok(out)
    }
}

/// Renders templates with a context.
pub struct TemplateRenderer<'a> {
    resolver: &'a TemplateResolver,
}

impl<'a> TemplateRenderer<'a> {
    /// A renderer whose includes are resolved by `resolver`.
    pub fn new(_config: &'a LuminessConfig, resolver: &'a TemplateResolver) -> (r: Self)
        ensures
            r.resolver() == resolver,
    {
        TemplateRenderer { resolver }
    }

    /// The resolver of the renderer's includes.
    pub closed spec fn resolver(&self) -> &'a TemplateResolver {
        self.resolver
    }

    /// The resolver that finds the files the output includes.
    pub fn include_resolver(&self) -> (r: &'a TemplateResolver)
        ensures
            r == self.resolver(),
    {
        self.resolver
    }

    /// Renders a template: the pieces of the output in order, and the error of
    /// the first failing directive, where rendering stopped.
    pub fn render(&self, template: &Template, context: &Context) -> (r: RenderPlan)
        ensures
            plan_matches(r, nodes_output(nodes_view(template.nodes@), context@)),
    {
        let mut steps: Vec<RenderStep> = Vec::new();
        assert(pieces_view(steps@) =~= Seq::<Piece>::empty());
        let error = self.render_nodes(&template.nodes, context, &mut steps);
        RenderPlan { steps, error }
    }

    /// Places the steps of an included template within `chain`, appending
    /// them to `out`; the error of the first include that repeats the chain.
    fn adopt_steps(
        &self,
        sub: &Vec<RenderStep>,
        chain: &Vec<IncludeRequest>,
        out: &mut Vec<RenderStep>,
    ) -> (r: Option<LuminessError>)
        ensures
            ({
                let a = adopted(pieces_view(sub@), chain_view(chain@));
                &&& pieces_view(final(out)@) == pieces_view(old(out)@) + a.0
                &&& match a.1 {
                    Some(c) => r matches Some(e) && e matches LuminessError::CircularReference {
                        chain: cc,
                    } && cc@ == c,
                    None => r is None,
                }
            }),
    {
        let ghost pv = pieces_view(sub@);
        let ghost cv = chain_view(chain@);
        let ghost start = pieces_view(out@);
        let mut i: usize = 0;
        assert(pv.subrange(0, 0) =~= Seq::<Piece>::empty());
        assert(start =~= start + Seq::<Piece>::empty());
        while i < sub.len()
            invariant
                i <= sub@.len(),
                pv == pieces_view(sub@),
                cv == chain_view(chain@),
                start == pieces_view(old(out)@),
                adopted(pv.subrange(0, i as int), cv).1 is None,
                pieces_view(out@) == start + adopted(pv.subrange(0, i as int), cv).0,
            decreases sub.len() - i,
        {
            assert(pv.subrange(0, i + 1).drop_last() =~= pv.subrange(0, i as int));
            assert(pv[i as int] == piece_view(sub@[i as int]));
            let ghost before = pieces_view(out@);
            match &sub[i] {
                RenderStep::Text(t) => {
                    let step = RenderStep::Text(t.clone());
                    out.push(step);
                    assert(pieces_view(out@) =~= before.push(piece_view(step)));
                },
                RenderStep::Include(q, _) => {
                    if chain_contains(chain, q) {
                        let mut full = copy_chain(chain);
                        full.push(copy_request(q));
                        assert(chain_view(full@) =~= cv.push(inclusion_view(*q)));
                        let text = chain_string(&full);
                        proof {
                            lemma_adopted_stops(pv, cv, i + 1);
                        }
                        return Some(LuminessError::circular_reference(text.as_str()));
                    }
                    let step = RenderStep::Include(copy_request(q), copy_chain(chain));
                    out.push(step);
                    assert(pieces_view(out@) =~= before.push(piece_view(step)));
                },
            }
            i = i + 1;
        }
        assert(pv.subrange(0, sub@.len() as int) =~= pv);
        None
    }

    /// Compiles the source of template `req`, included within `chain`, renders
    /// it with the context and appends its steps to `out`; the error where it
    /// stopped.
    fn include_source(
        &self,
        source: &String,
        req: &IncludeRequest,
        chain: &Vec<IncludeRequest>,
        context: &Context,
        out: &mut Vec<RenderStep>,
    ) -> (r: Option<LuminessError>)
        requires
            lexable(encode_utf8(source@)),
        ensures
            ({
                let inner = included_output(
                    source@,
                    inclusion_view(*req),
                    chain_view(chain@),
                    context@,
                );
                &&& pieces_view(final(out)@) == pieces_view(old(out)@) + inner.0
                &&& stop_error(r, inner.1, Seq::empty())
            }),
    {
        let ghost start = pieces_view(out@);
        assert(start =~= start + Seq::<Piece>::empty());
        let tokens = match tokenize_source(source.as_str()) {
            Ok(t) => t,
            Err(e) => return Some(e),
        };
        let mut parser = TemplateParser::new();
        let template = match parser.parse(tokens) {
            Ok(t) => t,
            Err(e) => return Some(e),
        };
        let sub = self.render(&template, context);
        let mut full = copy_chain(chain);
        full.push(copy_request(req));
        assert(chain_view(full@) =~= chain_view(chain@).push(inclusion_view(*req)));
        let RenderPlan { steps: sub_steps, error: sub_error } = sub;
        match self.adopt_steps(&sub_steps, &full, out) {
            Some(e) => Some(e),
            None => sub_error,
        }
    }

    /// Renders in place the included templates of a plan: the `k`-th include is
    /// compiled from `included[k]` and rendered with the context, its own
    /// includes standing within the chain that led to it. Expanding stops at
    /// the first source that could not be read, that does not lex, whose
    /// rendering fails, or that includes a template of its own chain, with a
    /// circular reference error that names the chain.
    pub fn expand(
        &self,
        plan: RenderPlan,
        included: Vec<Result<String, LuminessError>>,
        context: &Context,
    ) -> (r: RenderPlan)
        requires
            included@.len() == include_count(pieces_view(plan.steps@)),
            forall|k: int|
                0 <= k < included@.len() ==> (#[trigger] included@[k] matches Ok(s) ==> lexable(
                    encode_utf8(s@),
                )),
        ensures
            ({
                let out = expansion(pieces_view(plan.steps@), included@, context@);
                &&& pieces_view(r.steps@) == out.0
                &&& out.1 is Clear ==> r.error == plan.error
                &&& !(out.1 is Clear) ==> stop_error(r.error, out.1, included@)
            }),
    {
        let ghost pv = pieces_view(plan.steps@);
        let ghost all = included@;
        let mut rest = included;
        let mut out: Vec<RenderStep> = Vec::new();
        let mut i: usize = 0;
        let RenderPlan { steps, error } = plan;
        assert(pieces_view(out@) =~= Seq::<Piece>::empty());
        while i < steps.len()
            invariant
                i <= steps@.len(),
                pv == pieces_view(steps@),
                pv == pieces_view(plan.steps@),
                all == included@,
                error == plan.error,
                all.len() == include_count(pv),
                forall|k: int|
                    0 <= k < all.len() ==> (#[trigger] all[k] matches Ok(s) ==> lexable(
                        encode_utf8(s@),
                    )),
                rest@ == all.subrange(include_count(pv.subrange(0, i as int)) as int, all.len() as int),
                expansion(pv.subrange(0, i as int), all, context@).1 is Clear,
                pieces_view(out@) == expansion(pv.subrange(0, i as int), all, context@).0,
            decreases steps.len() - i,
        {
            let ghost k: int = include_count(pv.subrange(0, i as int)) as int;
            assert(pv.subrange(0, i + 1).drop_last() =~= pv.subrange(0, i as int));
            assert(pv[i as int] == piece_view(steps@[i as int]));
            proof {
                lemma_include_count_mono(pv, i + 1);
            }
            let ghost before = pieces_view(out@);
            match &steps[i] {
                RenderStep::Text(t) => {
                    let step = RenderStep::Text(t.clone());
                    out.push(step);
                    assert(pieces_view(out@) =~= before.push(piece_view(step)));
                },
                RenderStep::Include(req, chain) => {
                    assert(rest@.len() > 0);
                    let fetched = rest.remove(0);
                    assert(fetched == all[k]);
                    assert(rest@ =~= all.subrange(k + 1, all.len() as int));
                    match fetched {
                        Ok(src) => {
                            let ghost inner = included_output(
                                src@,
                                inclusion_view(*req),
                                chain_view(chain@),
                                context@,
                            );
                            assert(pv.subrange(0, i + 1).last() == Piece::Include(
                                inclusion_view(*req),
                                chain_view(chain@),
                            ));
                            let e = self.include_source(&src, req, chain, context, &mut out);
                            assert(expansion(pv.subrange(0, i + 1), all, context@) == (
                                before + inner.0,
                                inner.1,
                            ));
                            if e.is_some() {
                                assert(!(inner.1 is Clear));
                                assert(!(inner.1 is Fetch));
                                proof {
                                    lemma_expansion_stops(pv, all, context@, i + 1);
                                    assert(stop_error(e, inner.1, all));
                                }
                                return RenderPlan { steps: out, error: e };
                            }
                        },
                        Err(e) => {
                            assert(pieces_view(out@) =~= before);
                            assert(include_count(pv.subrange(0, i + 1)) == k + 1);
                            assert(pv.subrange(0, i + 1).last() is Include);
                            assert(expansion(pv.subrange(0, i + 1), all, context@) == (
                                before,
                                Stop::Fetch(k),
                            ));
                            proof {
                                lemma_expansion_stops(pv, all, context@, i + 1);
                                assert(0 <= k < all.len());
                                assert(stop_error(Some(e), Stop::Fetch(k), all));
                            }
                            return RenderPlan { steps: out, error: Some(e) };
                        },
                    }
                },
            }
            i = i + 1;
        }
        assert(pv.subrange(0, steps@.len() as int) =~= pv);
        RenderPlan { steps: out, error }
    }

    fn render_nodes(
        &self,
        nodes: &Vec<AstNode>,
        context: &Context,
        steps: &mut Vec<RenderStep>,
    ) -> (r: Option<LuminessError>)
        ensures
            ({
                let out = nodes_output(nodes_view(nodes@), context@);
                &&& pieces_view(final(steps)@) == pieces_view(old(steps)@) + out.0
                &&& match out.1 {
                    Some(d) => r matches Some(e) && is_directive_error(e, d.0, d.1),
                    None => r is None,
                }
            }),
        decreases nodes@, 1int,
    {
        let ghost nv = nodes_view(nodes@);
        let ghost start = pieces_view(steps@);
        let mut i: usize = 0;
        assert(nv.subrange(0, 0) =~= Seq::<Node>::empty());
        assert(start =~= start + Seq::<Piece>::empty());
        while i < nodes.len()
            invariant
                i <= nodes@.len(),
                nv == nodes_view(nodes@),
                start == pieces_view(old(steps)@),
                pieces_view(steps@) == start + nodes_output(nv.subrange(0, i as int), context@).0,
                nodes_output(nv.subrange(0, i as int), context@).1 is None,
            decreases nodes.len() - i,
        {
            assert(decreases_to!(nodes@ => nodes@[i as int]));
            assert(nv[i as int] == node_view(nodes@[i as int]));
            assert(nv.subrange(0, i + 1).subrange(0, i as int) =~= nv.subrange(0, i as int));
            assert(nv.subrange(0, i + 1)[i as int] == nv[i as int]);
            let ghost before = pieces_view(steps@);
            let e = self.render_node(&nodes[i], context, steps);
            if e.is_some() {
                proof {
                    lemma_nodes_output_stops(nv, i as int + 1, context@);
                }
                return e;
            }
            assert(pieces_view(steps@) =~= start + nodes_output(
                nv.subrange(0, i + 1),
                context@,
            ).0);
            i = i + 1;
        }
        assert(nv.subrange(0, nodes@.len() as int) =~= nv);
        None
    }

    fn render_node(&self, node: &AstNode, context: &Context, steps: &mut Vec<RenderStep>) -> (r:
        Option<LuminessError>)
        ensures
            ({
                let out = node_output(node_view(*node), context@);
                &&& pieces_view(final(steps)@) == pieces_view(old(steps)@) + out.0
                &&& match out.1 {
                    Some(d) => r matches Some(e) && is_directive_error(e, d.0, d.1),
                    None => r is None,
                }
            }),
        decreases *node, 1int,
    {
        let ghost before = pieces_view(steps@);
        assert(chain_view(Seq::<IncludeRequest>::empty()) =~= Seq::<Inclusion>::empty());
        match node {
            AstNode::Text(text) => {
                steps.push(RenderStep::Text(text.clone()));
                assert(pieces_view(steps@) =~= before + seq![Piece::Text(text@)]);
                None
            },
            AstNode::Variable { path, directives, default } => {
                let value = match context.get_value(path.as_slice()) {
                    Some(v) => context.value_to_string(v),
                    None => match default {
                        Some(d) => d.clone(),
                        None => String::new(),
                    },
                };
                match self.apply_directives(value.as_str(), directives.as_slice()) {
                    Ok(final_value) => {
                        steps.push(RenderStep::Text(final_value));
                        assert(pieces_view(steps@) =~= before + seq![Piece::Text(final_value@)]);
                        None
                    },
                    Err(e) => {
                        assert(pieces_view(steps@) =~= before + Seq::<Piece>::empty());
                        Some(e)
                    },
                }
            },
            AstNode::Include { template } => {
                let step = RenderStep::Include(IncludeRequest::Template(template.clone()), Vec::new());
                steps.push(step);
                assert(pieces_view(steps@) =~= before + seq![piece_view(step)]);
                None
            },
            AstNode::IncludeHeader { variant } => {
                let step = RenderStep::Include(
                    IncludeRequest::Header(clone_opt_string(variant)),
                    Vec::new(),
                );
                steps.push(step);
                assert(pieces_view(steps@) =~= before + seq![piece_view(step)]);
                None
            },
            AstNode::IncludeFooter { variant } => {
                let step = RenderStep::Include(
                    IncludeRequest::Footer(clone_opt_string(variant)),
                    Vec::new(),
                );
                steps.push(step);
                assert(pieces_view(steps@) =~= before + seq![piece_view(step)]);
                None
            },
            AstNode::Conditional { condition, body, else_body } => {
                if self.evaluate_condition(condition.as_str(), context) {
                    assert(decreases_to!(*node => (*node)->Conditional_body));
                    self.render_nodes(body, context, steps)
                } else {
                    match else_body {
                        Some(e) => {
                            assert(decreases_to!(*node => (*node)->Conditional_else_body));
                            self.render_nodes(e, context, steps)
                        },
                        None => {
                            assert(pieces_view(steps@) =~= before + Seq::<Piece>::empty());
                            None
                        },
                    }
                }
            },
            AstNode::Loop { item, collection, body } => {
                let mut key: Vec<String> = Vec::new();
                key.push(collection.clone());
                assert(strings_view(key@) =~= seq![collection@]);
                match context.get_value(key.as_slice()) {
                    Some(JsonValue::Array(array)) => {
                        assert(decreases_to!(*node => (*node)->Loop_body));
                        self.render_items(item, array, body, context, steps)
                    },
                    _ => {
                        assert(pieces_view(steps@) =~= before + Seq::<Piece>::empty());
                        None
                    },
                }
            },
            AstNode::Raw(content) => {
                steps.push(RenderStep::Text(content.clone()));
                assert(pieces_view(steps@) =~= before + seq![Piece::Text(content@)]);
                None
            },
        }
    }

    fn render_items(
        &self,
        item: &String,
        array: &Vec<JsonValue>,
        body: &Vec<AstNode>,
        context: &Context,
        steps: &mut Vec<RenderStep>,
    ) -> (r: Option<LuminessError>)
        ensures
            ({
                let out = items_output(
                    nodes_view(body@),
                    item@,
                    crate::json::items_view(array@),
                    array@.len(),
                    context@,
                );
                &&& pieces_view(final(steps)@) == pieces_view(old(steps)@) + out.0
                &&& match out.1 {
                    Some(d) => r matches Some(e) && is_directive_error(e, d.0, d.1),
                    None => r is None,
                }
            }),
        decreases body@, 2int,
    {
        let ghost bv = nodes_view(body@);
        let ghost iv = crate::json::items_view(array@);
        let ghost start = pieces_view(steps@);
        let mut k: usize = 0;
        assert(start =~= start + Seq::<Piece>::empty());
        while k < array.len()
            invariant
                k <= array@.len(),
                bv == nodes_view(body@),
                iv == crate::json::items_view(array@),
                start == pieces_view(old(steps)@),
                pieces_view(steps@) == start + items_output(bv, item@, iv, k as nat, context@).0,
                items_output(bv, item@, iv, k as nat, context@).1 is None,
            decreases array.len() - k,
        {
            let mut loop_context = context.clone();
            loop_context.insert_object(item.as_str(), &array[k]);
            assert(iv[k as int] == array@[k as int]@);
            let ghost before = pieces_view(steps@);
            let e = self.render_nodes(body, &loop_context, steps);
            if e.is_some() {
                proof {
                    lemma_items_output_stops(bv, item@, iv, (k + 1) as nat, array@.len(), context@);
                }
                return e;
            }
            assert(pieces_view(steps@) =~= start + items_output(
                bv,
                item@,
                iv,
                (k + 1) as nat,
                context@,
            ).0);
            k = k + 1;
        }
        None
    }

    fn apply_directives(&self, input: &str, directives: &[String]) -> (r: Result<
        String,
        LuminessError,
    >)
        ensures
            match apply_chain(input@, strings_view(directives@)) {
                Ok(o) => r matches Ok(s) && s@ == o,
                Err(d) => r matches Err(e) && is_directive_error(e, d.0, d.1),
            },
    {
        let ghost dv = strings_view(directives@);
        let mut result = crate::text::to_owned_string(input);
        let mut i: usize = 0;
        while i < directives.len()
            invariant
                i <= directives@.len(),
                dv == strings_view(directives@),
                apply_chain(input@, dv.subrange(0, i as int)) == Ok::<Seq<char>, (Seq<char>, Seq<char>)>(
                    result@,
                ),
            decreases directives.len() - i,
        {
            assert(dv.subrange(0, i + 1).drop_last() =~= dv.subrange(0, i as int));
            assert(dv[i as int] == directives@[i as int]@);
            match apply_directive(result.as_str(), directives[i].as_str()) {
                Ok(next) => {
                    result = next;
                },
                Err(e) => {
                    proof {
                        lemma_chain_fails(input@, dv, i as int + 1);
                    }
                    return Err(e);
                },
            }
            i = i + 1;
        }
        assert(dv.subrange(0, directives@.len() as int) =~= dv);
        Ok(result)
    }

    fn evaluate_condition(&self, condition: &str, context: &Context) -> (b: bool)
        ensures
            b == path_truthy(context@, split_on(condition@, '.')),
    {
        let chars = chars_of(condition);
        let pieces = split_chars(&chars, '.');
        let mut path: Vec<String> = Vec::new();
        let mut i: usize = 0;
        while i < pieces.len()
            invariant
                i <= pieces@.len(),
                pieces@.len() == split_on(chars@, '.').len(),
                forall|k: int| 0 <= k < pieces@.len() ==> #[trigger] pieces@[k]@ == split_on(chars@, '.')[k],
                path@.len() == i,
                forall|k: int| 0 <= k < i ==> #[trigger] path@[k]@ == pieces@[k]@,
            decreases pieces.len() - i,
        {
            path.push(string_of(&pieces[i]));
            i = i + 1;
        }
        assert(strings_view(path@) =~= split_on(condition@, '.'));
        context.is_truthy(path.as_slice())
    }
}

/// Once a node's directive fails, the output of all the nodes is the output up
/// to it.
proof fn lemma_nodes_output_stops(ns: Seq<Node>, n: int, ctx: Map<Seq<char>, Json>)
    requires
        0 < n <= ns.len(),
        nodes_output(ns.subrange(0, n), ctx).1 is Some,
    ensures
        nodes_output(ns, ctx) == nodes_output(ns.subrange(0, n), ctx),
    decreases ns.len() - n,
{
    if n < ns.len() {
        assert(ns.subrange(0, n + 1).subrange(0, n) =~= ns.subrange(0, n));
        lemma_nodes_output_stops(ns, n + 1, ctx);
    } else {
        assert(ns.subrange(0, n) =~= ns);
    }
}

/// Once the body fails for an item, the loop's output is the output up to it.
proof fn lemma_items_output_stops(
    body: Seq<Node>,
    item: Seq<char>,
    items: Seq<Json>,
    k: nat,
    m: nat,
    ctx: Map<Seq<char>, Json>,
)
    requires
        k <= m,
        items_output(body, item, items, k, ctx).1 is Some,
    ensures
        items_output(body, item, items, m, ctx) == items_output(body, item, items, k, ctx),
    decreases m - k,
{
    if k < m {
        lemma_items_output_stops(body, item, items, k, (m - 1) as nat, ctx);
    }
}

/// Once a directive in the list fails, the whole list fails with it.
proof fn lemma_chain_fails(input: Seq<char>, ds: Seq<Seq<char>>, n: int)
    requires
        0 < n <= ds.len(),
        apply_chain(input, ds.subrange(0, n)) is Err,
    ensures
        apply_chain(input, ds) == apply_chain(input, ds.subrange(0, n)),
    decreases ds.len() - n,
{
    if n < ds.len() {
        assert(ds.subrange(0, n + 1).drop_last() =~= ds.subrange(0, n));
        lemma_chain_fails(input, ds, n + 1);
    } else {
        assert(ds.subrange(0, n) =~= ds);
    }
}

} // verus!
