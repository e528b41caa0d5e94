//! Luminess: a template engine whose lexer, parser, directives, context and
//! renderer are specified and proved with Verus.
use crate::context::{
    entries_map, keys_unique, lemma_map_has_key, lemma_map_lacks, lemma_map_value_at, lemma_push_map,
    lemma_update_map, Context,
};
use crate::error::LuminessError;
use crate::json::Json;
use crate::lexer::{
    lemma_plain_source_is_one_token, lex, lexable, no_markup_from, tokenize_source, LexFailure, Lexed,
    Token,
};
use crate::parser::{nodes_view, parse_block, parse_tokens, Block, Node, Template, TemplateParser};
use crate::renderer::{node_output, nodes_output, plan_matches, Piece, RenderPlan, TemplateRenderer};
use crate::resolver::TemplateResolver;
use crate::text::{strings_view, to_owned_string};
use vstd::prelude::*;
use vstd::string::StringSliceAdditionalSpecFns;
use vstd::utf8::encode_utf8;

pub mod context;
pub mod directives;
pub mod error;
pub mod json;
pub mod lexer;
pub mod parser;
pub mod renderer;
pub mod resolver;
pub mod text;

verus! {

/// Configuration of the template engine.
#[derive(Debug, Clone)]
pub struct LuminessConfig {
    /// Extension of template files (such as `lmtp` or `html`).
    pub extension: String,
    /// Directories searched for templates, in order.
    pub template_paths: Vec<String>,
    /// Whether whitespace control syntax is enabled.
    pub enable_whitespace_control: bool,
    /// Whether compilation ahead of rendering is enabled.
    pub enable_jit_compilation: bool,
    /// Whether compiled templates are kept in memory.
    pub cache_compiled_templates: bool,
}

impl Default for LuminessConfig {
    /// Extension `lmtp`, the one directory `templates`, every option on.
    fn default() -> (c: Self)
        ensures
            c.extension@ == "lmtp"@,
            strings_view(c.template_paths@) == seq!["templates"@],
            c.enable_whitespace_control,
            c.enable_jit_compilation,
            c.cache_compiled_templates,
    {
        let mut template_paths: Vec<String> = Vec::new();
        template_paths.push(to_owned_string("templates"));
        assert(strings_view(template_paths@) =~= seq!["templates"@]);
        LuminessConfig {
            extension: to_owned_string("lmtp"),
            template_paths,
            enable_whitespace_control: true,
            enable_jit_compilation: true,
            cache_compiled_templates: true,
        }
    }
}

/// Whether a configuration is the default one.
pub open spec fn is_default_config(c: LuminessConfig) -> bool {
    &&& c.extension@ == "lmtp"@
    &&& strings_view(c.template_paths@) == seq!["templates"@]
    &&& c.enable_whitespace_control
    &&& c.enable_jit_compilation
    &&& c.cache_compiled_templates
}

/// The named templates as names and node sequences.
pub open spec fn named_nodes(s: Seq<(String, Template)>) -> Seq<(Seq<char>, Seq<Node>)> {
    s.map_values(|x: (String, Template)| (x.0@, nodes_view(x.1.nodes@)))
}

/// What compiling a source gives: the nodes of its tokens, or the lexer error
/// (a source on which the lexer aborts is not compiled at all).
pub open spec fn compiled(source: Seq<u8>) -> Result<Seq<Node>, LexFailure> {
    match lex(source) {
        Lexed::Tokens(ts) => Ok(parse_tokens(ts)),
        Lexed::Failed(f) => Err(f),
        Lexed::Aborts => Err(LexFailure { message: Seq::empty(), line: 0, column: 0 }),
    }
}

/// What checking the syntax of a source gives: success, or the lexer error.
pub open spec fn syntax_checked(source: Seq<u8>) -> Result<(), LexFailure> {
    match lex(source) {
        Lexed::Tokens(_) => Ok(()),
        Lexed::Failed(f) => Err(f),
        Lexed::Aborts => Err(LexFailure { message: Seq::empty(), line: 0, column: 0 }),
    }
}

/// Checking the syntax of a source succeeds exactly where compiling it does,
/// and where both fail they report the same lexer error.
pub proof fn lemma_syntax_check_agrees_with_compiling(source: Seq<u8>)
    ensures
        syntax_checked(source) is Ok <==> compiled(source) is Ok,
        syntax_checked(source) matches Err(f) ==> compiled(source) == Err::<Seq<Node>, LexFailure>(
            f,
        ),
{
}

/// A template stored under a name is found under it, with the nodes stored.
pub proof fn lemma_stored_template_is_found(
    templates: Map<Seq<char>, Seq<Node>>,
    name: Seq<char>,
    nodes: Seq<Node>,
    other: Seq<char>,
)
    ensures
        templates.insert(name, nodes).contains_key(name),
        templates.insert(name, nodes)[name] == nodes,
        other != name ==> templates.insert(name, nodes).contains_key(other)
            == templates.contains_key(other),
        other != name && templates.contains_key(other) ==> templates.insert(name, nodes)[other]
            == templates[other],
{
}

/// A source in which no variable, include or block starts compiles to at most
/// one text node, and renders in every context to the source itself, with no
/// include and no failing directive.
pub proof fn lemma_plain_source_renders_as_itself(chars: Seq<char>, ctx: Map<Seq<char>, Json>)
    requires
        no_markup_from(encode_utf8(chars), 0),
    ensures
        lex(encode_utf8(chars)) matches Lexed::Tokens(ts) && nodes_output(parse_tokens(ts), ctx)
            == (
            if chars.len() > 0 {
                seq![Piece::Text(chars)]
            } else {
                Seq::<Piece>::empty()
            },
            None::<(Seq<char>, Seq<char>)>,
        ),
{
    lemma_plain_source_is_one_token(chars);
    if chars.len() > 0 {
        let ts = seq![Token::Text(chars)];
        let ns = parse_tokens(ts);
        assert(ts[0] == Token::Text(chars));
        assert(parse_block(ts, 1, Block::Top).0 == Seq::<Node>::empty());
        assert(ns =~= seq![Node::Text(chars)]);
        assert(ns[0] == Node::Text(chars));
        assert(ns.subrange(0, 0) =~= Seq::<Node>::empty());
        assert(nodes_output(ns.subrange(0, 0), ctx) == (
            Seq::<Piece>::empty(),
            None::<(Seq<char>, Seq<char>)>,
        ));
        assert(node_output(ns[0], ctx) == (seq![Piece::Text(chars)], None::<(Seq<char>, Seq<char>)>));
        assert(Seq::<Piece>::empty() + seq![Piece::Text(chars)] =~= seq![Piece::Text(chars)]);
    } else {
        assert(parse_tokens(Seq::<Token>::empty()) =~= Seq::<Node>::empty());
    }
}

/// The template engine: its configuration and its compiled templates by name.
pub struct Luminess {
    config: LuminessConfig,
    templates: Vec<(String, Template)>,
    resolver: TemplateResolver,
}

impl Luminess {
    #[verifier::type_invariant]
    closed spec fn consistent(self) -> bool {
        &&& keys_unique(named_nodes(self.templates@))
        &&& self.resolver.dirs() == strings_view(self.config.template_paths@)
        &&& self.resolver.ext() == self.config.extension@
    }

    /// The compiled templates by name.
    pub closed spec fn templates(&self) -> Map<Seq<char>, Seq<Node>> {
        entries_map(named_nodes(self.templates@))
    }

    /// The configuration.
    pub closed spec fn spec_config(&self) -> LuminessConfig {
        self.config
    }

    /// An engine with the default configuration and no templates.
    pub fn new() -> (e: Self)
        ensures
            is_default_config(e.spec_config()),
            e.templates() == Map::<Seq<char>, Seq<Node>>::empty(),
    {
        let config = LuminessConfig::default();
        match Self::with_config(config) {
            Ok(e) => e,
            Err(_) => vstd::pervasive::unreached(),
        }
    }

    /// An engine with a configuration and no templates; this never fails.
    pub fn with_config(config: LuminessConfig) -> (r: Result<Self, LuminessError>)
        ensures
            r matches Ok(e) && e.spec_config() == config && e.templates() == Map::<
                Seq<char>,
                Seq<Node>,
            >::empty(),
    {
        let resolver = match TemplateResolver::new(&config) {
            Ok(r) => r,
            Err(e) => return Err(e),
        };
        let templates: Vec<(String, Template)> = Vec::new();
        assert(named_nodes(templates@) =~= Seq::<(Seq<char>, Seq<Node>)>::empty());
        Ok(Luminess { config, templates, resolver })
    }

    /// The engine with another template file extension.
    pub fn with_extension(self, extension: &str) -> (e: Self)
        ensures
            e.spec_config().extension@ == extension@,
            e.spec_config().template_paths == self.spec_config().template_paths,
            e.spec_config().enable_whitespace_control == self.spec_config().enable_whitespace_control,
            e.spec_config().enable_jit_compilation == self.spec_config().enable_jit_compilation,
            e.spec_config().cache_compiled_templates == self.spec_config().cache_compiled_templates,
            e.templates() == self.templates(),
    {
        proof {
            use_type_invariant(&self);
        }
        let Luminess { mut config, templates, resolver: _ } = self;
        config.extension = to_owned_string(extension);
        let resolver = match TemplateResolver::new(&config) {
            Ok(r) => r,
            Err(_) => vstd::pervasive::unreached(),
        };
        Luminess { config, templates, resolver }
    }

    /// The engine with one more template directory, searched last.
    pub fn with_template_path(self, path: &str) -> (e: Self)
        ensures
            strings_view(e.spec_config().template_paths@) == strings_view(
                self.spec_config().template_paths@,
            ).push(path@),
            e.spec_config().extension == self.spec_config().extension,
            e.spec_config().enable_whitespace_control == self.spec_config().enable_whitespace_control,
            e.spec_config().enable_jit_compilation == self.spec_config().enable_jit_compilation,
            e.spec_config().cache_compiled_templates == self.spec_config().cache_compiled_templates,
            e.templates() == self.templates(),
    {
        proof {
            use_type_invariant(&self);
        }
        let Luminess { mut config, templates, resolver: _ } = self;
        let ghost before = strings_view(config.template_paths@);
        config.template_paths.push(to_owned_string(path));
        assert(strings_view(config.template_paths@) =~= before.push(path@));
        let resolver = match TemplateResolver::new(&config) {
            Ok(r) => r,
            Err(_) => vstd::pervasive::unreached(),
        };
        Luminess { config, templates, resolver }
    }

    /// Compiles a source and stores it under a name, replacing what the name
    /// held; on a lexer error nothing is stored.
    pub fn add_template(&mut self, name: &str, source: &str) -> (r: Result<(), LuminessError>)
        requires
            lexable(source.spec_bytes()),
        ensures
            final(self).spec_config() == old(self).spec_config(),
            match compiled(source.spec_bytes()) {
                Ok(nodes) => r is Ok && final(self).templates() == old(self).templates().insert(
                    name@,
                    nodes,
                ),
                Err(f) => r matches Err(e) && e.is_lexer_error(f.message, f.line, f.column)
                    && final(self).templates() == old(self).templates(),
            },
    {
        let template = match self.compile_template(source) {
            Ok(t) => t,
            Err(e) => return Err(e),
        };
        self.store(name, template);
        Ok(())
    }

    fn store(&mut self, name: &str, template: Template)
        ensures
            final(self).spec_config() == old(self).spec_config(),
            final(self).templates() == old(self).templates().insert(
                name@,
                nodes_view(template.nodes@),
            ),
    {
        proof {
            use_type_invariant(&*self);
        }
        let key = to_owned_string(name);
        let ghost nv = named_nodes(self.templates@);
        let mut i: usize = 0;
        while i < self.templates.len()
            invariant
                i <= self.templates@.len(),
                nv == named_nodes(self.templates@),
                nv == named_nodes(old(self).templates@),
                self.config == old(self).config,
                self.resolver.dirs() == strings_view(self.config.template_paths@),
                self.resolver.ext() == self.config.extension@,
                keys_unique(nv),
                key@ == name@,
                forall|j: int| 0 <= j < i ==> nv[j].0 != name@,
            decreases self.templates.len() - i,
        {
            assert(nv[i as int].0 == self.templates@[i as int].0@);
            if self.templates[i].0 == key {
                let mut templates: Vec<(String, Template)> = Vec::new();
                assert(named_nodes(templates@) =~= Seq::<(Seq<char>, Seq<Node>)>::empty());
                std::mem::swap(&mut templates, &mut self.templates);
                let ghost tv = nodes_view(template.nodes@);
                templates.set(i, (key, template));
                assert(named_nodes(templates@) =~= nv.update(i as int, (nv[i as int].0, tv)));
                proof {
                    lemma_update_map(nv, i as int, tv);
                }
                self.templates = templates;
                return;
            }
            i = i + 1;
        }
        let mut templates: Vec<(String, Template)> = Vec::new();
        assert(named_nodes(templates@) =~= Seq::<(Seq<char>, Seq<Node>)>::empty());
        std::mem::swap(&mut templates, &mut self.templates);
        let ghost tv = nodes_view(template.nodes@);
        templates.push((key, template));
        assert(named_nodes(templates@) =~= nv.push((name@, tv)));
        proof {
            lemma_push_map(nv, name@, tv);
        }
        self.templates = templates;
    }

    /// The plan of rendering a template with a context: its output up to the
    /// first failing directive, with the includes it needs; an error where no
    /// template has the name.
    pub fn render_plan(&self, template_name: &str, context: &Context) -> (r: Result<
        RenderPlan,
        LuminessError,
    >)
        ensures
            if self.templates().contains_key(template_name@) {
                r matches Ok(p) && plan_matches(
                    p,
                    nodes_output(self.templates()[template_name@], context@),
                )
            } else {
                r matches Err(e) && e matches LuminessError::TemplateNotFound {
                    name: n,
                    searched_paths: sp,
                } && n@ == template_name@ && sp@.len() == 0
            },
    {
        proof {
            use_type_invariant(self);
        }
        match self.find(template_name) {
            Some(i) => {
                let renderer = TemplateRenderer::new(&self.config, &self.resolver);
                Ok(renderer.render(&self.templates[i].1, context))
            },
            None => Err(LuminessError::template_not_found(template_name)),
        }
    }

    fn find(&self, name: &str) -> (r: Option<usize>)
        ensures
            match r {
                Some(i) => i < self.templates@.len() && self.templates().contains_key(name@)
                    && self.templates()[name@] == nodes_view(self.templates@[i as int].1.nodes@),
                None => !self.templates().contains_key(name@),
            },
    {
        proof {
            use_type_invariant(self);
        }
        let key = to_owned_string(name);
        let ghost nv = named_nodes(self.templates@);
        let mut i: usize = 0;
        while i < self.templates.len()
            invariant
                i <= self.templates@.len(),
                nv == named_nodes(self.templates@),
                keys_unique(nv),
                key@ == name@,
                forall|j: int| 0 <= j < i ==> nv[j].0 != name@,
            decreases self.templates.len() - i,
        {
            assert(nv[i as int] == (self.templates@[i as int].0@, nodes_view(
                self.templates@[i as int].1.nodes@,
            )));
            if self.templates[i].0 == key {
                proof {
                    lemma_map_value_at(nv, i as int);
                }
                return Some(i);
            }
            i = i + 1;
        }
        proof {
            lemma_map_lacks(nv, name@);
        }
        None
    }

    fn compile_template(&self, source: &str) -> (r: Result<Template, LuminessError>)
        requires
            lexable(source.spec_bytes()),
        ensures
            match lex(source.spec_bytes()) {
                Lexed::Tokens(ts) => r matches Ok(t) && nodes_view(t.nodes@) == parse_tokens(ts),
                Lexed::Failed(f) => r matches Err(e) && e.is_lexer_error(f.message, f.line, f.column),
                Lexed::Aborts => false,
            },
    {
        let tokens = match tokenize_source(source) {
            Ok(t) => t,
            Err(e) => return Err(e),
        };
        let mut parser = TemplateParser::new();
        parser.parse(tokens)
    }

    /// The configuration.
    pub fn config(&self) -> (c: &LuminessConfig)
        ensures
            *c == self.spec_config(),
    {
        &self.config
    }

    /// The resolver for the configured paths and extension.
    pub fn resolver(&self) -> (r: &TemplateResolver)
        ensures
            r.dirs() == strings_view(self.spec_config().template_paths@),
            r.ext() == self.spec_config().extension@,
    {
        proof {
            use_type_invariant(self);
        }
        &self.resolver
    }

    /// The names of the stored templates, each once.
    pub fn template_names(&self) -> (r: Vec<&String>)
        ensures
            forall|i: int, j: int| 0 <= i < j < r@.len() ==> r@[i]@ != r@[j]@,
            forall|k: Seq<char>|
                self.templates().contains_key(k) <==> exists|i: int| 0 <= i < r@.len() && r@[i]@ == k,
    {
        proof {
            use_type_invariant(self);
        }
        let ghost nv = named_nodes(self.templates@);
        let mut r: Vec<&String> = Vec::new();
        let mut i: usize = 0;
        while i < self.templates.len()
            invariant
                i <= self.templates@.len(),
                nv == named_nodes(self.templates@),
                keys_unique(nv),
                r@.len() == i,
                forall|j: int| 0 <= j < i ==> #[trigger] r@[j]@ == nv[j].0,
            decreases self.templates.len() - i,
        {
            assert(nv[i as int].0 == self.templates@[i as int].0@);
            r.push(&self.templates[i].0);
            i = i + 1;
        }
        assert forall|k: Seq<char>| self.templates().contains_key(k) implies exists|i: int|
            0 <= i < r@.len() && r@[i]@ == k by {
            if forall|j: int| 0 <= j < nv.len() ==> nv[j].0 != k {
                lemma_map_lacks(nv, k);
            }
            let j = choose|j: int| 0 <= j < nv.len() && nv[j].0 == k;
            assert(r@[j]@ == k);
        }
        assert forall|k: Seq<char>| (exists|i: int| 0 <= i < r@.len() && r@[i]@ == k) implies self.templates().contains_key(k) by {
            let i = choose|i: int| 0 <= i < r@.len() && r@[i]@ == k;
            lemma_map_has_key(nv, i);
        }
        r
    }

    /// Whether a template is stored under the name.
    pub fn has_template(&self, name: &str) -> (b: bool)
        ensures
            b == self.templates().contains_key(name@),
    {
        self.find(name).is_some()
    }

    /// Removes every stored template.
    pub fn clear_templates(&mut self)
        ensures
            final(self).templates() == Map::<Seq<char>, Seq<Node>>::empty(),
            final(self).spec_config() == old(self).spec_config(),
    {
        proof {
            use_type_invariant(&*self);
        }
        let mut templates: Vec<(String, Template)> = Vec::new();
        assert(named_nodes(templates@) =~= Seq::<(Seq<char>, Seq<Node>)>::empty());
        std::mem::swap(&mut templates, &mut self.templates);
        assert(named_nodes(self.templates@) =~= Seq::<(Seq<char>, Seq<Node>)>::empty());
    }

    /// Checks the syntax of a source: the lexer error where there is one.
    pub fn validate_syntax(&self, source: &str) -> (r: Result<(), LuminessError>)
        requires
            lexable(source.spec_bytes()),
        ensures
            match syntax_checked(source.spec_bytes()) {
                Ok(()) => r is Ok,
                Err(f) => r matches Err(e) && e.is_lexer_error(f.message, f.line, f.column),
            },
    {
        let tokens = match tokenize_source(source) {
            Ok(t) => t,
            Err(e) => return Err(e),
        };
        let mut parser = TemplateParser::new();
        parser.validate_only(tokens)
    }
}

impl Default for Luminess {
    /// An engine with the default configuration and no templates.
    fn default() -> (e: Self)
        ensures
            is_default_config(e.spec_config()),
            e.templates() == Map::<Seq<char>, Seq<Node>>::empty(),
    {
        Luminess::new()
    }
}

} // verus!
