//! A reference model of the render context, and of a construction program
//! running against it.
//!
//! The model fixes what the statements of a program mean: which widgets
//! they create, under which identifiers, and which children each parent
//! ends up with. What the host expressions of a program evaluate to is
//! supplied from outside, as a table.

use vstd::prelude::*;
use crate::codegen::{statements_view, Statement, StatementModel};
use crate::hooks::Hooks;
use crate::tags::TagKind;
use crate::text::{bytes_eq, copy_bytes};

verus! {

/// A constructed widget. Its identifier is its index in the context.
#[derive(Clone, Debug, PartialEq, Eq)]
pub struct Widget {
    pub tag: Vec<u8>,
    pub kind: TagKind,
    pub children: Vec<usize>,
}

/// The state that the statements of a program share.
#[derive(Clone, Debug, PartialEq, Eq)]
pub struct RenderContext {
    /// The widget under which the program builds; `None` at the root.
    pub parent: Option<usize>,
    /// The widgets constructed so far.
    pub widgets: Vec<Widget>,
    /// The pending-children accumulators, that of the node under
    /// construction last. The first belongs to the context itself.
    pub pending: Vec<Vec<usize>>,
    /// The widget constructed last.
    pub last: Option<usize>,
    /// The top-level widgets of the tree, once it is sealed.
    pub committed: Option<Vec<usize>>,
}

/// What a guard evaluates to.
#[derive(Clone, Debug, PartialEq, Eq)]
pub struct GuardValue {
    pub expr: Vec<u8>,
    pub holds: bool,
}

/// How many elements an iteration source yields.
#[derive(Clone, Debug, PartialEq, Eq)]
pub struct SourceValue {
    pub expr: Vec<u8>,
    pub count: usize,
}

/// Which widgets an expression child yields.
#[derive(Clone, Debug, PartialEq, Eq)]
pub struct SpliceValue {
    pub expr: Vec<u8>,
    pub widgets: Vec<usize>,
}

/// The values of the host expressions of a program. An expression that has
/// no entry is a guard that does not hold, a source without elements, an
/// expression that yields no widget.
#[derive(Clone, Debug, PartialEq, Eq)]
pub struct Host {
    pub guards: Vec<GuardValue>,
    pub sources: Vec<SourceValue>,
    pub splices: Vec<SpliceValue>,
}

/// The model of a [`Widget`].
pub struct WidgetModel {
    pub tag: Seq<u8>,
    pub kind: TagKind,
    pub children: Seq<usize>,
}

/// The model of a [`RenderContext`].
pub struct ContextModel {
    pub parent: Option<usize>,
    pub widgets: Seq<WidgetModel>,
    pub pending: Seq<Seq<usize>>,
    pub last: Option<usize>,
    pub committed: Option<Seq<usize>>,
}

/// The model of a [`Host`]: each table as pairs of an expression and its
/// value.
pub struct HostModel {
    pub guards: Seq<(Seq<u8>, bool)>,
    pub sources: Seq<(Seq<u8>, usize)>,
    pub splices: Seq<(Seq<u8>, Seq<usize>)>,
}

impl View for Widget {
    type V = WidgetModel;

    open spec fn view(&self) -> WidgetModel {
        WidgetModel { tag: self.tag@, kind: self.kind, children: self.children@ }
    }
}

/// The models of widgets, in order.
pub open spec fn widgets_view(s: Seq<Widget>) -> Seq<WidgetModel> {
    Seq::new(s.len(), |i: int| s[i]@)
}

/// Accumulators as sequences, in order.
pub open spec fn pending_view(s: Seq<Vec<usize>>) -> Seq<Seq<usize>> {
    Seq::new(s.len(), |i: int| s[i]@)
}

impl View for RenderContext {
    type V = ContextModel;

    open spec fn view(&self) -> ContextModel {
        ContextModel {
            parent: self.parent,
            widgets: widgets_view(self.widgets@),
            pending: pending_view(self.pending@),
            last: self.last,
            committed: match self.committed {
                Some(c) => Some(c@),
                None => None,
            },
        }
    }
}

impl View for Host {
    type V = HostModel;

    open spec fn view(&self) -> HostModel {
        HostModel {
            guards: Seq::new(
                self.guards@.len(),
                |i: int| (self.guards@[i].expr@, self.guards@[i].holds),
            ),
            sources: Seq::new(
                self.sources@.len(),
                |i: int| (self.sources@[i].expr@, self.sources@[i].count),
            ),
            splices: Seq::new(
                self.splices@.len(),
                |i: int| (self.splices@[i].expr@, self.splices@[i].widgets@),
            ),
        }
    }
}

/// The first index from `from` on at which a table holds the expression, or
/// the length of the table.
pub open spec fn entry_index<V>(table: Seq<(Seq<u8>, V)>, expr: Seq<u8>, from: int) -> int
    decreases table.len() - from,
{
    if from < 0 || from >= table.len() {
        table.len() as int
    } else if table[from].0 == expr {
        from
    } else {
        entry_index(table, expr, from + 1)
    }
}

/// Whether a guard holds: what its first entry says, and not without one.
pub open spec fn guard_holds(host: HostModel, expr: Seq<u8>) -> bool {
    let i = entry_index(host.guards, expr, 0);
    i < host.guards.len() && host.guards[i].1
}

/// How many elements a source yields: what its first entry says, and none
/// without one.
pub open spec fn source_count(host: HostModel, expr: Seq<u8>) -> nat {
    let i = entry_index(host.sources, expr, 0);
    if i < host.sources.len() {
        host.sources[i].1 as nat
    } else {
        0
    }
}

/// The widgets that an expression yields: what its first entry says, and
/// none without one.
pub open spec fn splice_widgets(host: HostModel, expr: Seq<u8>) -> Seq<usize> {
    let i = entry_index(host.splices, expr, 0);
    if i < host.splices.len() {
        host.splices[i].1
    } else {
        Seq::empty()
    }
}

/// The context with widgets registered in the accumulator of the node
/// under construction.
pub open spec fn with_children(ctx: ContextModel, ids: Seq<usize>) -> ContextModel {
    ContextModel {
        pending: if ctx.pending.len() == 0 {
            seq![ids]
        } else {
            ctx.pending.update(ctx.pending.len() - 1, ctx.pending.last() + ids)
        },
        ..ctx
    }
}

/// The context after a construction: the new widget takes the children
/// accumulated for it, and its identifier is the number of widgets before.
pub open spec fn with_widget(ctx: ContextModel, tag: Seq<u8>, kind: TagKind) -> ContextModel {
    ContextModel {
        widgets: ctx.widgets.push(
            WidgetModel {
                tag,
                kind,
                children: if ctx.pending.len() == 0 {
                    Seq::empty()
                } else {
                    ctx.pending.last()
                },
            },
        ),
        pending: if ctx.pending.len() == 0 {
            ctx.pending
        } else {
            ctx.pending.drop_last()
        },
        last: Some(ctx.widgets.len() as usize),
        ..ctx
    }
}

/// The context with its tree sealed: the widgets registered with the
/// context itself are the top-level widgets.
pub open spec fn sealed(ctx: ContextModel) -> ContextModel {
    ContextModel {
        committed: Some(
            if ctx.pending.len() == 0 {
                Seq::empty()
            } else {
                ctx.pending[0]
            },
        ),
        ..ctx
    }
}

/// The context as a program finds it after initializing it: no parent, no
/// children, nothing sealed. Widgets constructed before keep their
/// identifiers.
pub open spec fn initialized(ctx: ContextModel) -> ContextModel {
    ContextModel {
        parent: None,
        widgets: ctx.widgets,
        pending: seq![Seq::empty()],
        last: None,
        committed: None,
    }
}

/// The context with an accumulator opened for a node under construction.
pub open spec fn opened(ctx: ContextModel) -> ContextModel {
    ContextModel { pending: ctx.pending.push(Seq::empty()), ..ctx }
}

/// The context with the widget constructed last registered in the
/// accumulator of the node under construction.
pub open spec fn registered(ctx: ContextModel) -> ContextModel {
    match ctx.last {
        Some(id) => with_children(ctx, seq![id]),
        None => ctx,
    }
}

/// The context after one statement. `held` tells that the statement is
/// held by a construction: each widget that it constructs is then handed
/// to that construction as a child.
///
/// A construction that holds the statements of its children opens an
/// accumulator of its own, runs them, and takes what they have handed to it;
/// the accumulators below are left as they were.
pub open spec fn run_statement(st: StatementModel, host: HostModel, ctx: ContextModel, held: bool) -> ContextModel
    decreases st, 0int, 0int,
{
    match st {
        StatementModel::InitContext { .. } => initialized(ctx),
        StatementModel::OpenChildren => opened(ctx),
        StatementModel::Props { .. } => ctx,
        StatementModel::Construct { tag, kind, children, .. } => {
            let made = match children {
                Some(body) => with_widget(
                    run(body, body.len() as int, host, opened(ctx), true),
                    tag,
                    kind,
                ),
                None => with_widget(ctx, tag, kind),
            };
            if held {
                registered(made)
            } else {
                made
            }
        },
        StatementModel::Register => registered(ctx),
        StatementModel::Splice { expr } => with_children(ctx, splice_widgets(host, expr)),
        StatementModel::Child { expr } => if held {
            with_children(ctx, splice_widgets(host, expr))
        } else {
            ctx
        },
        StatementModel::If { guard, body } => if guard_holds(host, guard) {
            run(body, body.len() as int, host, ctx, held)
        } else {
            ctx
        },
        StatementModel::For { source, body } => repeat(
            body,
            source_count(host, source),
            host,
            ctx,
            held,
        ),
        StatementModel::Commit => sealed(ctx),
    }
}

/// The context after the first `n` statements of a program, in order.
pub open spec fn run(
    p: Seq<StatementModel>,
    n: int,
    host: HostModel,
    ctx: ContextModel,
    held: bool,
) -> ContextModel
    decreases p, 0int, n,
{
    if n <= 0 || n > p.len() {
        ctx
    } else {
        run_statement(p[n - 1], host, run(p, n - 1, host, ctx, held), held)
    }
}

/// The context after a loop body has run `times` times.
pub open spec fn repeat(
    body: Seq<StatementModel>,
    times: nat,
    host: HostModel,
    ctx: ContextModel,
    held: bool,
) -> ContextModel
    decreases body, 1int, times,
{
    if times == 0 {
        ctx
    } else {
        run(body, body.len() as int, host, repeat(body, (times - 1) as nat, host, ctx, held), held)
    }
}

impl Host {
    /// A host in which no expression has a value.
    pub fn new() -> (host: Host)
        ensures
            host@.guards.len() == 0,
            host@.sources.len() == 0,
            host@.splices.len() == 0,
    {
        Host { guards: Vec::new(), sources: Vec::new(), splices: Vec::new() }
    }

    /// Tells whether a guard holds.
    pub fn guard(&self, expr: &[u8]) -> (r: bool)
        ensures
            r == guard_holds(self@, expr@),
    {
        let mut i: usize = 0;
        while i < self.guards.len()
            invariant
                i <= self.guards.len(),
                entry_index(self@.guards, expr@, 0) == entry_index(self@.guards, expr@, i as int),
            decreases self.guards.len() - i,
        {
            if bytes_eq(self.guards[i].expr.as_slice(), expr) {
                assert(self@.guards[i as int].0 == expr@);
                return self.guards[i].holds;
            }
            assert(self@.guards[i as int].0 != expr@);
            i += 1;
        }
        false
    }

    /// Tells how many elements a source yields.
    pub fn count(&self, expr: &[u8]) -> (r: usize)
        ensures
            r == source_count(self@, expr@),
    {
        let mut i: usize = 0;
        while i < self.sources.len()
            invariant
                i <= self.sources.len(),
                entry_index(self@.sources, expr@, 0) == entry_index(self@.sources, expr@, i as int),
            decreases self.sources.len() - i,
        {
            if bytes_eq(self.sources[i].expr.as_slice(), expr) {
                assert(self@.sources[i as int].0 == expr@);
                return self.sources[i].count;
            }
            assert(self@.sources[i as int].0 != expr@);
            i += 1;
        }
        0
    }

    /// Finds the widgets that an expression yields.
    fn splice(&self, expr: &[u8]) -> (r: Option<usize>)
        ensures
            match r {
                Some(i) => i < self.splices.len() && splice_widgets(self@, expr@)
                    == self.splices[i as int].widgets@,
                None => splice_widgets(self@, expr@) == Seq::<usize>::empty(),
            },
    {
        let mut i: usize = 0;
        while i < self.splices.len()
            invariant
                i <= self.splices.len(),
                entry_index(self@.splices, expr@, 0) == entry_index(self@.splices, expr@, i as int),
            decreases self.splices.len() - i,
        {
            if bytes_eq(self.splices[i].expr.as_slice(), expr) {
                assert(self@.splices[i as int].0 == expr@);
                return Some(i);
            }
            assert(self@.splices[i as int].0 != expr@);
            i += 1;
        }
        None
    }
}

impl RenderContext {
    /// A context that builds under `parent`, with nothing constructed and
    /// the context's own accumulator open.
    pub fn new(parent: Option<usize>) -> (ctx: RenderContext)
        ensures
            ctx@ == (ContextModel {
                parent,
                widgets: Seq::empty(),
                pending: seq![Seq::empty()],
                last: None,
                committed: None,
            }),
    {
        let mut pending: Vec<Vec<usize>> = Vec::new();
        pending.push(Vec::new());
        let ctx = RenderContext {
            parent,
            widgets: Vec::new(),
            pending,
            last: None,
            committed: None,
        };
        assert(ctx@.pending == seq![Seq::<usize>::empty()]);
        assert(ctx@.widgets == Seq::<WidgetModel>::empty());
        ctx
    }

    /// Registers widgets under the node under construction.
    pub fn register(&mut self, ids: &Vec<usize>)
        ensures
            final(self)@ == with_children(old(self)@, ids@),
    {
        let ghost before = self@;
        let mut top = match self.pending.pop() {
            Some(top) => top,
            None => Vec::new(),
        };
        let ghost start = top@;
        let mut i: usize = 0;
        while i < ids.len()
            invariant
                i <= ids.len(),
                top@ == start + ids@.subrange(0, i as int),
            decreases ids.len() - i,
        {
            top.push(ids[i]);
            assert(ids@.subrange(0, i + 1) == ids@.subrange(0, i as int).push(ids@[i as int]));
            i += 1;
        }
        assert(ids@.subrange(0, ids.len() as int) == ids@);
        self.pending.push(top);
        assert(self@.pending == with_children(before, ids@).pending);
        assert(self@.widgets == before.widgets);
    }

    /// Constructs a widget with the children accumulated for it.
    pub fn construct(&mut self, tag: &[u8], kind: TagKind) -> (id: usize)
        ensures
            final(self)@ == with_widget(old(self)@, tag@, kind),
            id == old(self)@.widgets.len(),
    {
        let ghost before = self@;
        let children = match self.pending.pop() {
            Some(top) => top,
            None => Vec::new(),
        };
        let id = self.widgets.len();
        self.widgets.push(Widget { tag: copy_bytes(tag), kind, children });
        self.last = Some(id);
        assert(self@.pending == with_widget(before, tag@, kind).pending);
        assert(self@.widgets == with_widget(before, tag@, kind).widgets);
        id
    }

    /// Seals the tree: the widgets registered with the context itself are
    /// its top-level widgets.
    pub fn commit(&mut self)
        ensures
            final(self)@ == sealed(old(self)@),
    {
        let mut roots: Vec<usize> = Vec::new();
        if self.pending.len() > 0 {
            let mut i: usize = 0;
            while i < self.pending[0].len()
                invariant
                    self.pending.len() > 0,
                    i <= self.pending[0].len(),
                    *self == *old(self),
                    roots@ == self.pending[0]@.subrange(0, i as int),
                decreases self.pending[0].len() - i,
            {
                roots.push(self.pending[0][i]);
                assert(self.pending[0]@.subrange(0, i + 1) == self.pending[0]@.subrange(
                    0,
                    i as int,
                ).push(self.pending[0]@[i as int]));
                i += 1;
            }
            assert(self.pending[0]@.subrange(0, self.pending[0]@.len() as int)
                == self.pending[0]@);
        }
        self.committed = Some(roots);
    }
}

fn open(ctx: &mut RenderContext)
    ensures
        final(ctx)@ == opened(old(ctx)@),
{
    let ghost before = ctx@;
    ctx.pending.push(Vec::new());
    assert(ctx@.pending == before.pending.push(Seq::empty()));
}

fn register_last(ctx: &mut RenderContext)
    ensures
        final(ctx)@ == registered(old(ctx)@),
{
    match ctx.last {
        Some(id) => {
            let mut ids: Vec<usize> = Vec::new();
            ids.push(id);
            assert(ids@ == seq![id]);
            ctx.register(&ids);
        },
        None => {},
    }
}

fn register_yield(expr: &Vec<u8>, host: &Host, ctx: &mut RenderContext)
    ensures
        final(ctx)@ == with_children(old(ctx)@, splice_widgets(host@, expr@)),
{
    match host.splice(expr.as_slice()) {
        Some(i) => {
            ctx.register(&host.splices[i].widgets);
        },
        None => {
            let none: Vec<usize> = Vec::new();
            ctx.register(&none);
        },
    }
}

#[verifier::loop_isolation(false)]
fn execute_statement(st: &Statement, host: &Host, ctx: &mut RenderContext, held: bool)
    ensures
        final(ctx)@ == run_statement(st@, host@, old(ctx)@, held),
    decreases st,
{
    match st {
        Statement::InitContext { .. } => {
            let mut pending: Vec<Vec<usize>> = Vec::new();
            pending.push(Vec::new());
            ctx.parent = None;
            ctx.pending = pending;
            ctx.last = None;
            ctx.committed = None;
            assert(ctx@.pending == seq![Seq::<usize>::empty()]);
        },
        Statement::OpenChildren => {
            open(ctx);
        },
        Statement::Props { .. } => {},
        Statement::Construct { tag, kind, children, .. } => {
            match children {
                Some(body) => {
                    open(ctx);
                    execute_held(body, host, ctx, true);
                },
                None => {},
            }
            ctx.construct(tag.as_slice(), *kind);
            if held {
                register_last(ctx);
            }
        },
        Statement::Register => {
            register_last(ctx);
        },
        Statement::Splice { expr } => {
            register_yield(expr, host, ctx);
        },
        Statement::Child { expr } => {
            if held {
                register_yield(expr, host, ctx);
            }
        },
        Statement::If { guard, body } => {
            if host.guard(guard.as_slice()) {
                execute_held(body, host, ctx, held);
            }
        },
        Statement::For { source, body } => {
            let times = host.count(source.as_slice());
            let mut k: usize = 0;
            while k < times
                invariant
                    k <= times,
                    ctx@ == repeat(statements_view(body@), k as nat, host@, old(ctx)@, held),
                decreases times - k,
            {
                execute_held(body, host, ctx, held);
                k += 1;
            }
        },
        Statement::Commit => {
            ctx.commit();
        },
    }
}

fn execute_held(program: &Vec<Statement>, host: &Host, ctx: &mut RenderContext, held: bool)
    ensures
        final(ctx)@ == run(
            statements_view(program@),
            program.len() as int,
            host@,
            old(ctx)@,
            held,
        ),
    decreases program,
{
    let mut i: usize = 0;
    while i < program.len()
        invariant
            i <= program.len(),
            ctx@ == run(statements_view(program@), i as int, host@, old(ctx)@, held),
        decreases program.len() - i,
    {
        assert(statements_view(program@)[i as int] == program[i as int]@);
        execute_statement(&program[i], host, ctx, held);
        i += 1;
    }
}

/// Runs a program against a context, with the values of its host
/// expressions taken from `host`.
pub fn execute(program: &Vec<Statement>, host: &Host, ctx: &mut RenderContext)
    ensures
        final(ctx)@ == run(
            statements_view(program@),
            program.len() as int,
            host@,
            old(ctx)@,
            false,
        ),
{
    execute_held(program, host, ctx, false);
}

/// Commits a render pass: seals the tree, and hands out the callbacks of
/// the effects that are due, in the order of registration, for the caller
/// to run.
pub fn commit<T>(ctx: &mut RenderContext, hooks: &mut Hooks<T>) -> (run: Vec<u64>)
    requires
        old(hooks).wf(),
    ensures
        final(ctx)@ == sealed(old(ctx)@),
        final(hooks).wf(),
        run@ == old(hooks).due(old(hooks).effects.len() as int),
        final(hooks).settled(),
        final(hooks).states == old(hooks).states,
        final(hooks).effects == old(hooks).effects,
        final(hooks).cursor == old(hooks).cursor,
        final(hooks).effect_cursor == old(hooks).effect_cursor,
        final(hooks).stale == old(hooks).stale,
{
    ctx.commit();
    hooks.commit()
}

} // verus!
