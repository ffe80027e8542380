//! Compile-time transformer from RSX markup to a widget construction program.
//!
//! Markup arrives as tokens and is written out as text ([`tokens`]). The
//! text is parsed into a widget tree ([`parser`], [`attribute`],
//! [`widget`]), the tree is turned into a construction program
//! ([`codegen`]), and the program runs against a render context
//! ([`context`]). Beside that stand the component transform
//! ([`component`]), the properties capability ([`widget_props`]), the state
//! and effect hooks ([`hooks`]), and what a macro assumes of widgets that
//! were not declared to it ([`registry`]).
//!
//! What holds of these together is proved where it is stated: that parsing
//! is faithful ([`canonical`], [`representable`], [`roundtrip`]), that a
//! program constructs each node once and in post-order ([`codegen`]), and
//! that it registers each widget with its parent ([`registration`]).

use vstd::prelude::*;

pub mod attribute;
pub mod canonical;
pub mod codegen;
pub mod component;
pub mod context;
pub mod core_crate;
pub mod equality;
pub mod error;
pub mod hooks;
pub mod parser;
pub mod registry;
pub mod registration;
pub mod representable;
pub mod roundtrip;
pub mod tags;
pub mod text;
pub mod tokens;
pub mod widget;
pub mod widget_props;

pub use crate::equality::dyn_partial_eq;
pub use crate::hooks::{use_effect, use_state};
pub use crate::widget_props::derive_widget_props;

use crate::codegen::{
    brackets, constructions, count_of, emit_program, generate, keeps_books,
    lemma_construction_keeps_no_books, lemma_full_wraps_nested, lemma_program_brackets,
    lemma_program_constructions, lemma_restored_concat, lemma_restored_constructions,
    lemma_restored_count, node_count_children, post_order_children, registry_view,
    restore_program, restored_program, statements_view, Mode, Statement, StatementModel,
};
use crate::component::{
    transform, transformed, Component, ComponentModel, ComponentProps, FunctionDefinition,
    PropsModel,
};
use crate::core_crate::{core_path, get_core_crate, is_sanitized, LookupModel};
use crate::error::{Error, ErrorModel, GenerationError, GenerationErrorModel};
use crate::parser::{parse, spec_markup};
use crate::tokens::{markup, markup_text, tokens_view, Token, TokenModel};

verus! {

/// What a markup text expands to in a mode: the error of the parser where
/// it fails, else that of the generator where it fails, else the program.
pub open spec fn expansion(input: Seq<u8>, reg: Seq<PropsModel>, mode: Mode, core: Seq<u8>) -> Result<
    Seq<StatementModel>,
    ErrorModel,
> {
    match spec_markup(input) {
        Err(e) => Err(ErrorModel::Syntax(e)),
        Ok(items) => match emit_program(reg, items, mode, core) {
            Err(e) => Err(ErrorModel::Generation(e)),
            Ok(p) => Ok(p),
        },
    }
}

/// Expands a markup text in a mode. `registry` holds the properties
/// structures against which attribute names are resolved; `core` is the
/// path of the core crate.
pub fn expand(input: &[u8], registry: &Vec<ComponentProps>, mode: Mode, core: &[u8]) -> (r: Result<
    Vec<Statement>,
    Error,
>)
    ensures
        match r {
            Ok(p) => expansion(input@, registry_view(registry@), mode, core@) == Ok::<
                Seq<StatementModel>,
                ErrorModel,
            >(statements_view(p@)),
            Err(e) => expansion(input@, registry_view(registry@), mode, core@) == Err::<
                Seq<StatementModel>,
                ErrorModel,
            >(e@),
        },
{
    match parse(input) {
        Err(e) => Err(Error::Syntax(e)),
        Ok(items) => match generate(registry, &items, mode, core) {
            Err(e) => Err(Error::Generation(e)),
            Ok(p) => Ok(p),
        },
    }
}

/// What the tokens of a markup expand to in a mode: what their text as
/// markup expands to, with every host expression read back as it is written
/// in the tokens.
pub open spec fn token_expansion(
    tokens: Seq<TokenModel>,
    reg: Seq<PropsModel>,
    mode: Mode,
    core: Seq<u8>,
) -> Result<Seq<StatementModel>, ErrorModel> {
    match expansion(markup_text(tokens), reg, mode, core) {
        Err(e) => Err(e),
        Ok(p) => Ok(restored_program(p)),
    }
}

/// Expands the tokens of a markup in a mode. Host expressions come out as
/// they are written in the tokens. The spans of errors are offsets into the
/// text that `tokens::markup` writes the tokens to.
pub fn expand_tokens(
    input: &Vec<Token>,
    registry: &Vec<ComponentProps>,
    mode: Mode,
    core: &[u8],
) -> (r: Result<Vec<Statement>, Error>)
    ensures
        match r {
            Ok(p) => token_expansion(tokens_view(input@), registry_view(registry@), mode, core@)
                == Ok::<Seq<StatementModel>, ErrorModel>(statements_view(p@)),
            Err(e) => token_expansion(tokens_view(input@), registry_view(registry@), mode, core@)
                == Err::<Seq<StatementModel>, ErrorModel>(e@),
        },
{
    let written = markup(input);
    match expand(written.text.as_slice(), registry, mode, core) {
        Err(e) => Err(e),
        Ok(p) => Ok(restore_program(&p)),
    }
}

/// Expands the markup of a root widget: the program initializes the render
/// context, builds and registers the tree, and commits it. The path of the
/// core crate, which the first statement names, is found in the manifest of
/// the crate being compiled.
pub fn render(input: &Vec<Token>, registry: &Vec<ComponentProps>) -> (r: Result<
    Vec<Statement>,
    Error,
>)
    ensures
        exists|found: LookupModel|
            is_sanitized(found) && match r {
                Ok(p) => token_expansion(
                    tokens_view(input@),
                    registry_view(registry@),
                    Mode::Full,
                    core_path(found),
                ) == Ok::<Seq<StatementModel>, ErrorModel>(statements_view(p@)),
                Err(e) => token_expansion(
                    tokens_view(input@),
                    registry_view(registry@),
                    Mode::Full,
                    core_path(found),
                ) == Err::<Seq<StatementModel>, ErrorModel>(e@),
            },
{
    let core = get_core_crate();
    expand_tokens(input, registry, Mode::Full, core.as_slice())
}

/// Expands markup that stands inside a context that is already
/// initialized: the program builds and registers the tree, and neither
/// initializes nor commits.
pub fn rsx(input: &Vec<Token>, registry: &Vec<ComponentProps>) -> (r: Result<Vec<Statement>, Error>)
    ensures
        match r {
            Ok(p) => token_expansion(
                tokens_view(input@),
                registry_view(registry@),
                Mode::Nested,
                Seq::empty(),
            ) == Ok::<Seq<StatementModel>, ErrorModel>(statements_view(p@)),
            Err(e) => token_expansion(
                tokens_view(input@),
                registry_view(registry@),
                Mode::Nested,
                Seq::empty(),
            ) == Err::<Seq<StatementModel>, ErrorModel>(e@),
        },
{
    let core: Vec<u8> = Vec::new();
    expand_tokens(input, registry, Mode::Nested, core.as_slice())
}

/// Expands markup into its construction statements alone: the program
/// yields the tree and nothing is opened, registered or committed. Each
/// construction holds the statements that make its children, expression
/// children among them.
pub fn constructor(input: &Vec<Token>, registry: &Vec<ComponentProps>) -> (r: Result<
    Vec<Statement>,
    Error,
>)
    ensures
        match r {
            Ok(p) => token_expansion(
                tokens_view(input@),
                registry_view(registry@),
                Mode::Construction,
                Seq::empty(),
            ) == Ok::<Seq<StatementModel>, ErrorModel>(statements_view(p@)),
            Err(e) => token_expansion(
                tokens_view(input@),
                registry_view(registry@),
                Mode::Construction,
                Seq::empty(),
            ) == Err::<Seq<StatementModel>, ErrorModel>(e@),
        },
{
    let core: Vec<u8> = Vec::new();
    expand_tokens(input, registry, Mode::Construction, core.as_slice())
}

/// Turns a function definition into a component. `args` lists the flags
/// of the request, separated by commas; the component is focusable when
/// `focusable` is one of them. Every parameter becomes a field of the
/// properties structure, in the order declared; the constructor puts the
/// children that it is handed into the field of a parameter named
/// `children`.
pub fn widget(args: &[u8], item: &FunctionDefinition) -> (r: Result<Component, GenerationError>)
    ensures
        match r {
            Ok(c) => transformed(args@, item@) == Ok::<ComponentModel, GenerationErrorModel>(c@),
            Err(e) => transformed(args@, item@) == Err::<ComponentModel, GenerationErrorModel>(e@),
        },
{
    transform(args, item)
}


/// The top-level child items that the tokens of a markup parse to.
pub open spec fn parsed(tokens: Seq<TokenModel>) -> Seq<crate::widget::ChildModel> {
    spec_markup(markup_text(tokens))->Ok_0
}

/// What `render`, `rsx` and `constructor` return constructs each node once
/// and in post-order: the program holds exactly one construction statement
/// for each node of the markup that is reached without passing through an
/// expression, and the statement of a node runs after those of all its
/// descendants.
pub proof fn lemma_expanded_constructions(
    tokens: Seq<TokenModel>,
    reg: Seq<PropsModel>,
    mode: Mode,
    core: Seq<u8>,
)
    requires
        token_expansion(tokens, reg, mode, core) is Ok,
    ensures
        ({
            let p = token_expansion(tokens, reg, mode, core)->Ok_0;
            let items = parsed(tokens);
            &&& constructions(p, p.len() as int) == restored_program(
                post_order_children(items, items.len() as int),
            )
            &&& constructions(p, p.len() as int).len() == node_count_children(
                items,
                items.len() as int,
            )
        }),
{
    let items = parsed(tokens);
    let emitted = emit_program(reg, items, mode, core)->Ok_0;
    lemma_program_constructions(reg, items, mode, core);
    lemma_restored_constructions(emitted, emitted.len() as int);
    assert(restored_program(emitted).len() == emitted.len());
    assert(restored_program(post_order_children(items, items.len() as int)).len()
        == post_order_children(items, items.len() as int).len());
}

/// What `render` returns is what `rsx` returns for the same markup, between
/// the statement that initializes the context and the one that commits it;
/// and `render` fails just where `rsx` fails, with the same error.
pub proof fn lemma_render_wraps_rsx(tokens: Seq<TokenModel>, reg: Seq<PropsModel>, core: Seq<u8>)
    ensures
        token_expansion(tokens, reg, Mode::Full, core) == match token_expansion(
            tokens,
            reg,
            Mode::Nested,
            Seq::empty(),
        ) {
            Ok(body) => Ok(
                seq![StatementModel::InitContext { core }] + body + seq![StatementModel::Commit],
            ),
            Err(e) => Err(e),
        },
{
    match spec_markup(markup_text(tokens)) {
        Err(e) => {},
        Ok(items) => {
            lemma_full_wraps_nested(reg, items, core, Seq::empty());
            match emit_program(reg, items, Mode::Nested, Seq::empty()) {
                Err(e) => {},
                Ok(body) => {
                    let init = seq![StatementModel::InitContext { core }];
                    let commit = seq![StatementModel::Commit];
                    lemma_restored_concat(init + body, commit);
                    lemma_restored_concat(init, body);
                    assert(restored_program(init) == init);
                    assert(restored_program(commit) == commit);
                },
            }
        },
    }
}

/// What `render` returns initializes once, first, and commits once, last;
/// what `rsx` and `constructor` return does neither.
pub proof fn lemma_expanded_brackets(
    tokens: Seq<TokenModel>,
    reg: Seq<PropsModel>,
    mode: Mode,
    core: Seq<u8>,
)
    requires
        token_expansion(tokens, reg, mode, core) is Ok,
    ensures
        ({
            let p = token_expansion(tokens, reg, mode, core)->Ok_0;
            let kind = |st: StatementModel| brackets(st);
            &&& mode != Mode::Full ==> count_of(p, p.len() as int, kind) == 0
            &&& mode == Mode::Full ==> count_of(p, p.len() as int, kind) == 2 && p.first()
                == (StatementModel::InitContext { core }) && p.last() == StatementModel::Commit
        }),
{
    let kind = |st: StatementModel| brackets(st);
    let items = parsed(tokens);
    let emitted = emit_program(reg, items, mode, core)->Ok_0;
    lemma_program_brackets(reg, items, mode, core);
    lemma_restored_count(emitted, emitted.len() as int, kind);
    assert(restored_program(emitted).len() == emitted.len());
    if mode == Mode::Full {
        assert(restored_program(emitted)[0] == crate::codegen::restored_statement(emitted[0]));
        assert(restored_program(emitted)[emitted.len() - 1] == crate::codegen::restored_statement(
            emitted[emitted.len() - 1],
        ));
    }
}

/// What `constructor` returns holds no statement that keeps the books of
/// the render context.
pub proof fn lemma_constructor_keeps_no_books(tokens: Seq<TokenModel>, reg: Seq<PropsModel>)
    requires
        token_expansion(tokens, reg, Mode::Construction, Seq::empty()) is Ok,
    ensures
        ({
            let p = token_expansion(tokens, reg, Mode::Construction, Seq::empty())->Ok_0;
            count_of(p, p.len() as int, |st: StatementModel| keeps_books(st)) == 0
        }),
{
    let kind = |st: StatementModel| keeps_books(st);
    let items = parsed(tokens);
    let emitted = emit_program(reg, items, Mode::Construction, Seq::empty())->Ok_0;
    lemma_construction_keeps_no_books(reg, items, Seq::empty());
    lemma_restored_count(emitted, emitted.len() as int, kind);
    assert(restored_program(emitted).len() == emitted.len());
}


/// The tree that the tokens of a markup stand for: what their text as
/// markup parses to, with every host expression read back as it is written
/// in the tokens.
pub open spec fn tree_of(tokens: Seq<TokenModel>) -> Seq<crate::widget::ChildModel> {
    crate::codegen::restored_items(parsed(tokens))
}

/// What `render`, `rsx` and `constructor` return is the generated program
/// of the tree that the tokens stand for. So every law on generated
/// programs is a law on what they return: that each node is constructed
/// once and in post-order, that a program registers each widget with its
/// parent, and that a construction-only program leaves the context apart.
pub proof fn lemma_expansion_is_generation(
    tokens: Seq<TokenModel>,
    reg: Seq<PropsModel>,
    mode: Mode,
    core: Seq<u8>,
)
    ensures
        token_expansion(tokens, reg, mode, core) == match spec_markup(markup_text(tokens)) {
            Err(e) => Err(ErrorModel::Syntax(e)),
            Ok(_) => match emit_program(reg, tree_of(tokens), mode, core) {
                Err(e) => Err(ErrorModel::Generation(e)),
                Ok(p) => Ok(p),
            },
        },
{
    match spec_markup(markup_text(tokens)) {
        Err(e) => {},
        Ok(items) => {
            crate::codegen::lemma_restored_emit(reg, items, mode, core);
        },
    }
}


/// The registry that a macro runs the generator with: the declared one,
/// extended by what the markup says of the widgets that it does not hold.
/// Where the tokens do not parse, nothing is assumed.
pub open spec fn assumed_of(tokens: Seq<TokenModel>, reg: Seq<PropsModel>) -> Seq<PropsModel> {
    match spec_markup(markup_text(tokens)) {
        Ok(items) => crate::registry::assumed(reg, items),
        Err(_) => reg,
    }
}

/// Extends a registry by what the tokens of a markup say of the widgets
/// that the registry does not hold. A macro, which knows of no widget but
/// those declared to it, hands the result to `render`, `rsx` or
/// `constructor`: the attributes of a declared widget are then resolved as
/// ever, and those of another are taken as the markup gives them.
pub fn assume_widgets(input: &Vec<Token>, registry: &Vec<ComponentProps>) -> (out: Vec<
    ComponentProps,
>)
    ensures
        registry_view(out@) == assumed_of(tokens_view(input@), registry_view(registry@)),
{
    let written = markup(input);
    match parse(written.text.as_slice()) {
        Ok(items) => crate::registry::extend_by(registry, &items),
        Err(_) => {
            let none: Vec<crate::widget::ChildItem> = Vec::new();
            proof {
                let reg = registry_view(registry@);
                assert(crate::registry::assumed(reg, crate::widget::children_view(none@)) == reg);
            }
            crate::registry::extend_by(registry, &none)
        },
    }
}


/// With the registry that `assume_widgets` hands out, `render`, `rsx` and
/// `constructor` report an unresolved attribute only on a widget that was
/// declared: what is assumed of the other widgets is what the markup gives
/// them.
pub proof fn lemma_assumed_spares(
    tokens: Seq<TokenModel>,
    reg: Seq<PropsModel>,
    mode: Mode,
    core: Seq<u8>,
)
    ensures
        token_expansion(tokens, assumed_of(tokens, reg), mode, core) matches Err(
            ErrorModel::Generation(e),
        ) ==> e.kind == crate::error::GenerationErrorKind::UnresolvedAttribute
            ==> crate::codegen::lookup(reg, e.subject, 0) < reg.len(),
{
    match spec_markup(markup_text(tokens)) {
        Ok(items) => {
            crate::registry::lemma_only_declared_fail_to_resolve(reg, items, mode, core);
        },
        Err(_) => {},
    }
}

} // verus!
