//! What a generated program does to a render context: children are built
//! before their parent, every widget ends up among the children of the node
//! that holds it in the markup, and a construction-only program leaves the
//! accumulators of the context as they are.

use vstd::prelude::*;
use crate::codegen::{construction, emit_child, emit_children, emit_node, Mode, StatementModel};
use crate::component::PropsModel;
use crate::context::{
    guard_holds, opened, repeat, run, run_statement, source_count, splice_widgets,
    with_children, with_widget, ContextModel, HostModel, WidgetModel,
};
use crate::tags::tag_kind;
use crate::widget::{ChildModel, NodeModel};

verus! {

/// `after` continues `before`: the widgets of `before` keep their
/// identifiers, the accumulator of the node under construction has only
/// grown at its end, and everything else is as it was.
pub open spec fn continues(before: ContextModel, after: ContextModel) -> bool {
    &&& after.parent == before.parent
    &&& after.committed == before.committed
    &&& before.widgets.len() <= after.widgets.len()
    &&& after.widgets.subrange(0, before.widgets.len() as int) == before.widgets
    &&& after.pending.len() == before.pending.len()
    &&& after.pending.drop_last() == before.pending.drop_last()
    &&& before.pending.last().len() <= after.pending.last().len()
    &&& after.pending.last().subrange(0, before.pending.last().len() as int)
        == before.pending.last()
}

/// Whether the statements of the children are held by the construction of
/// their parent: so it is in construction-only mode, and in no other.
pub open spec fn holds_children(mode: Mode) -> bool {
    mode == Mode::Construction
}

/// Continuing is transitive.
pub proof fn lemma_continues_on(a: ContextModel, b: ContextModel, c: ContextModel)
    requires
        a.pending.len() >= 1,
        continues(a, b),
        continues(b, c),
    ensures
        continues(a, c),
{
    assert(c.widgets.subrange(0, a.widgets.len() as int) == b.widgets.subrange(
        0,
        a.widgets.len() as int,
    )) by {
        assert forall|i: int| 0 <= i < a.widgets.len() implies c.widgets[i] == b.widgets[i] by {
            assert(c.widgets.subrange(0, b.widgets.len() as int)[i] == b.widgets[i]);
        }
    }
    assert(c.pending.last().subrange(0, a.pending.last().len() as int)
        == b.pending.last().subrange(0, a.pending.last().len() as int)) by {
        assert forall|i: int| 0 <= i < a.pending.last().len() implies c.pending.last()[i]
            == b.pending.last()[i] by {
            assert(c.pending.last().subrange(0, b.pending.last().len() as int)[i]
                == b.pending.last()[i]);
        }
    }
}

proof fn lemma_continues_self(ctx: ContextModel)
    ensures
        continues(ctx, ctx),
{
    assert(ctx.widgets.subrange(0, ctx.widgets.len() as int) == ctx.widgets);
    let top = ctx.pending.last();
    assert(top.subrange(0, top.len() as int) == top);
}

proof fn lemma_registered_continues(ctx: ContextModel, ids: Seq<usize>)
    requires
        ctx.pending.len() >= 1,
    ensures
        continues(ctx, with_children(ctx, ids)),
{
    let after = with_children(ctx, ids);
    assert(after.widgets.subrange(0, ctx.widgets.len() as int) == ctx.widgets);
    assert(after.pending.drop_last() == ctx.pending.drop_last());
    assert(after.pending.last().subrange(0, ctx.pending.last().len() as int)
        == ctx.pending.last());
}

proof fn lemma_run_prefix(
    a: Seq<StatementModel>,
    b: Seq<StatementModel>,
    n: int,
    host: HostModel,
    ctx: ContextModel,
    held: bool,
)
    requires
        0 <= n <= a.len(),
    ensures
        run(a + b, n, host, ctx, held) == run(a, n, host, ctx, held),
    decreases n,
{
    if n > 0 {
        lemma_run_prefix(a, b, n - 1, host, ctx, held);
        assert((a + b)[n - 1] == a[n - 1]);
    }
}

proof fn lemma_run_concat(
    a: Seq<StatementModel>,
    b: Seq<StatementModel>,
    n: int,
    host: HostModel,
    ctx: ContextModel,
    held: bool,
)
    requires
        0 <= n <= b.len(),
    ensures
        run(a + b, a.len() + n, host, ctx, held) == run(
            b,
            n,
            host,
            run(a, a.len() as int, host, ctx, held),
            held,
        ),
    decreases n,
{
    if n == 0 {
        lemma_run_prefix(a, b, a.len() as int, host, ctx, held);
    } else {
        lemma_run_concat(a, b, n - 1, host, ctx, held);
        assert((a + b)[a.len() + n - 1] == b[n - 1]);
    }
}

/// Running two programs put together is running the first and then the
/// second.
pub proof fn lemma_run_append(
    a: Seq<StatementModel>,
    b: Seq<StatementModel>,
    host: HostModel,
    ctx: ContextModel,
    held: bool,
)
    ensures
        run(a + b, (a + b).len() as int, host, ctx, held) == run(
            b,
            b.len() as int,
            host,
            run(a, a.len() as int, host, ctx, held),
            held,
        ),
{
    lemma_run_concat(a, b, b.len() as int, host, ctx, held);
}

proof fn lemma_run_one(st: StatementModel, host: HostModel, ctx: ContextModel, held: bool)
    ensures
        run(seq![st], 1, host, ctx, held) == run_statement(st, host, ctx, held),
{
    let p = seq![st];
    assert(run(p, 0, host, ctx, held) == ctx);
    assert(p[0] == st);
}

/// Running the construction of a node is running the statement that
/// constructs it: a properties literal changes nothing.
proof fn lemma_run_construction(
    reg: Seq<PropsModel>,
    n: NodeModel,
    children: Option<Seq<StatementModel>>,
    host: HostModel,
    ctx: ContextModel,
    held: bool,
)
    ensures
        run(
            construction(reg, n, children),
            construction(reg, n, children).len() as int,
            host,
            ctx,
            held,
        ) == run_statement(crate::codegen::construct_with(n, children), host, ctx, held),
{
    let made = construction(reg, n, children);
    assert(run(made, 0, host, ctx, held) == ctx);
    assert(run(made, 1, host, ctx, held) == run_statement(made[0], host, ctx, held));
    if made.len() == 2 {
        assert(run(made, 2, host, ctx, held) == run_statement(
            made[1],
            host,
            run(made, 1, host, ctx, held),
            held,
        ));
    }
}

/// The context in which the children of a node have been built: an
/// accumulator was opened for the node, and the programs of its child items
/// have run.
pub open spec fn children_built(
    reg: Seq<PropsModel>,
    n: NodeModel,
    mode: Mode,
    host: HostModel,
    before: ContextModel,
) -> ContextModel {
    let body = emit_children(reg, n.children, n.children.len() as int, mode)->Ok_0;
    run(body, body.len() as int, host, opened(before), holds_children(mode))
}

/// What the program of a node does to a context where the node has a
/// parent that takes it: the node becomes the newest widget, its children
/// are the widgets that the programs of its child items have handed to it,
/// and the node itself is handed to its parent, after everything that was
/// there.
pub open spec fn node_registered(
    reg: Seq<PropsModel>,
    n: NodeModel,
    mode: Mode,
    host: HostModel,
    before: ContextModel,
    after: ContextModel,
) -> bool {
    let id = (after.widgets.len() - 1) as usize;
    &&& continues(before, after)
    &&& after.widgets.len() > before.widgets.len()
    &&& after.widgets.last() == (WidgetModel {
        tag: n.tag,
        kind: tag_kind(n.tag),
        children: children_built(reg, n, mode, host, before).pending.last(),
    })
    &&& after.last == Some(id)
    &&& after.pending.last() == before.pending.last().push(id)
}

/// What a construction-only program of a node does to a context: the node
/// becomes the newest widget, with the widgets that the statements it
/// holds have handed to it as its children, and the context is otherwise as
/// it was: the same parent, the same accumulators, nothing sealed that was
/// not.
pub open spec fn node_built(
    reg: Seq<PropsModel>,
    n: NodeModel,
    host: HostModel,
    before: ContextModel,
    after: ContextModel,
) -> bool {
    &&& after.parent == before.parent
    &&& after.pending == before.pending
    &&& after.committed == before.committed
    &&& after.widgets.len() > before.widgets.len()
    &&& after.widgets.subrange(0, before.widgets.len() as int) == before.widgets
    &&& after.widgets.last() == (WidgetModel {
        tag: n.tag,
        kind: tag_kind(n.tag),
        children: children_built(reg, n, Mode::Construction, host, before).pending.last(),
    })
    &&& after.last == Some((after.widgets.len() - 1) as usize)
}

/// The widget that the construction of a node adds to the context in which
/// its children have been built.
proof fn lemma_constructed(
    reg: Seq<PropsModel>,
    n: NodeModel,
    mode: Mode,
    host: HostModel,
    ctx: ContextModel,
)
    requires
        emit_node(reg, n, mode) is Ok,
    ensures
        ({
            let built = children_built(reg, n, mode, host, ctx);
            let made = with_widget(built, n.tag, tag_kind(n.tag));
            &&& continues(opened(ctx), built)
            &&& made.parent == ctx.parent
            &&& made.committed == ctx.committed
            &&& made.pending == ctx.pending
            &&& made.widgets == built.widgets.push(
                WidgetModel { tag: n.tag, kind: tag_kind(n.tag), children: built.pending.last() },
            )
            &&& made.widgets.subrange(0, ctx.widgets.len() as int) == ctx.widgets
            &&& made.last == Some(built.widgets.len() as usize)
        }),
    decreases n, 0int, 0int,
{
    let start = opened(ctx);
    lemma_children_continue(reg, n.children, n.children.len() as int, mode, host, start);
    let built = children_built(reg, n, mode, host, ctx);
    let made = with_widget(built, n.tag, tag_kind(n.tag));
    assert(start.pending.drop_last() == ctx.pending);
    assert(made.widgets.subrange(0, ctx.widgets.len() as int) == ctx.widgets) by {
        assert forall|i: int| 0 <= i < ctx.widgets.len() implies made.widgets[i]
            == ctx.widgets[i] by {
            assert(built.widgets.subrange(0, start.widgets.len() as int)[i] == start.widgets[i]);
        }
    }
}

/// The program of a node hands the node to its parent, after its children:
/// in a mode that registers, by the statements that open, construct and
/// register; in construction-only mode, where the node is held by the
/// construction of its parent, by the construction itself.
pub proof fn lemma_node_registers(
    reg: Seq<PropsModel>,
    n: NodeModel,
    mode: Mode,
    host: HostModel,
    ctx: ContextModel,
)
    requires
        emit_node(reg, n, mode) is Ok,
        ctx.pending.len() >= 1,
    ensures
        node_registered(
            reg,
            n,
            mode,
            host,
            ctx,
            run(
                emit_node(reg, n, mode)->Ok_0,
                emit_node(reg, n, mode)->Ok_0.len() as int,
                host,
                ctx,
                holds_children(mode),
            ),
        ),
    decreases n, 0int, 1int,
{
    let held = holds_children(mode);
    let body = emit_children(reg, n.children, n.children.len() as int, mode)->Ok_0;
    let p = emit_node(reg, n, mode)->Ok_0;
    lemma_constructed(reg, n, mode, host, ctx);
    let built = children_built(reg, n, mode, host, ctx);
    let made = with_widget(built, n.tag, tag_kind(n.tag));
    let after = run(p, p.len() as int, host, ctx, held);
    if held {
        lemma_run_construction(reg, n, Some(body), host, ctx, held);
    } else {
        let open = seq![StatementModel::OpenChildren];
        let construct = construction(reg, n, None);
        let register = seq![StatementModel::Register];
        assert(p == open + body + construct + register);
        lemma_run_append(open + body + construct, register, host, ctx, held);
        lemma_run_append(open + body, construct, host, ctx, held);
        lemma_run_append(open, body, host, ctx, held);
        lemma_run_one(StatementModel::OpenChildren, host, ctx, held);
        lemma_run_construction(reg, n, None, host, built, held);
        lemma_run_one(StatementModel::Register, host, made, held);
    }
    let id = built.widgets.len() as usize;
    assert(after == with_children(made, seq![id]));
    assert(after.pending.last() == ctx.pending.last().push(id)) by {
        assert(ctx.pending.last() + seq![id] == ctx.pending.last().push(id));
    }
    assert(after.pending.drop_last() == ctx.pending.drop_last());
    assert(after.pending.last().subrange(0, ctx.pending.last().len() as int)
        == ctx.pending.last());
}

/// A construction-only program of a node yields the tree and nothing else:
/// run on any context, it constructs the node with the children that the
/// statements it holds yield, and leaves the parent, the accumulators and
/// what is sealed as they were.
pub proof fn lemma_node_built(reg: Seq<PropsModel>, n: NodeModel, host: HostModel, ctx: ContextModel)
    requires
        emit_node(reg, n, Mode::Construction) is Ok,
    ensures
        node_built(
            reg,
            n,
            host,
            ctx,
            run(
                emit_node(reg, n, Mode::Construction)->Ok_0,
                emit_node(reg, n, Mode::Construction)->Ok_0.len() as int,
                host,
                ctx,
                false,
            ),
        ),
{
    let body = emit_children(reg, n.children, n.children.len() as int, Mode::Construction)->Ok_0;
    lemma_constructed(reg, n, Mode::Construction, host, ctx);
    lemma_run_construction(reg, n, Some(body), host, ctx, false);
}

/// The program of a child item hands widgets to the node under
/// construction and leaves the rest of the context as it was.
pub proof fn lemma_child_continues(
    reg: Seq<PropsModel>,
    c: ChildModel,
    mode: Mode,
    host: HostModel,
    ctx: ContextModel,
)
    requires
        emit_child(reg, c, mode) is Ok,
        ctx.pending.len() >= 1,
    ensures
        continues(
            ctx,
            run(
                emit_child(reg, c, mode)->Ok_0,
                emit_child(reg, c, mode)->Ok_0.len() as int,
                host,
                ctx,
                holds_children(mode),
            ),
        ),
    decreases c, 0int, 0int,
{
    let held = holds_children(mode);
    match c {
        ChildModel::LiteralWidget(n) => {
            lemma_node_registers(reg, n, mode, host, ctx);
        },
        ChildModel::Expression(expr) => {
            lemma_run_one(crate::codegen::expression_statement(expr, mode), host, ctx, held);
            lemma_registered_continues(ctx, splice_widgets(host, expr));
        },
        ChildModel::Conditional(guard, inner) => {
            let body = emit_child(reg, *inner, mode)->Ok_0;
            lemma_run_one(StatementModel::If { guard, body }, host, ctx, held);
            if guard_holds(host, guard) {
                lemma_child_continues(reg, *inner, mode, host, ctx);
            } else {
                lemma_continues_self(ctx);
            }
        },
        ChildModel::Iteration(source, inner) => {
            let body = emit_child(reg, *inner, mode)->Ok_0;
            lemma_run_one(StatementModel::For { source, body }, host, ctx, held);
            lemma_repeat_continues(reg, *inner, mode, host, ctx, source_count(host, source));
        },
    }
}

/// A loop over the program of a child item hands widgets to the node under
/// construction and leaves the rest of the context as it was.
pub proof fn lemma_repeat_continues(
    reg: Seq<PropsModel>,
    inner: ChildModel,
    mode: Mode,
    host: HostModel,
    ctx: ContextModel,
    times: nat,
)
    requires
        emit_child(reg, inner, mode) is Ok,
        ctx.pending.len() >= 1,
    ensures
        continues(
            ctx,
            repeat(emit_child(reg, inner, mode)->Ok_0, times, host, ctx, holds_children(mode)),
        ),
    decreases inner, 1int, times,
{
    let held = holds_children(mode);
    if times == 0 {
        lemma_continues_self(ctx);
    } else {
        let body = emit_child(reg, inner, mode)->Ok_0;
        lemma_repeat_continues(reg, inner, mode, host, ctx, (times - 1) as nat);
        let so_far = repeat(body, (times - 1) as nat, host, ctx, held);
        lemma_child_continues(reg, inner, mode, host, so_far);
        lemma_continues_on(ctx, so_far, repeat(body, times, host, ctx, held));
    }
}

/// The programs of child items, one after the other, hand widgets to the
/// node under construction and leave the rest of the context as it was.
pub proof fn lemma_children_continue(
    reg: Seq<PropsModel>,
    cs: Seq<ChildModel>,
    k: int,
    mode: Mode,
    host: HostModel,
    ctx: ContextModel,
)
    requires
        0 <= k <= cs.len(),
        emit_children(reg, cs, k, mode) is Ok,
        ctx.pending.len() >= 1,
    ensures
        continues(
            ctx,
            run(
                emit_children(reg, cs, k, mode)->Ok_0,
                emit_children(reg, cs, k, mode)->Ok_0.len() as int,
                host,
                ctx,
                holds_children(mode),
            ),
        ),
    decreases cs, 0int, k,
{
    let held = holds_children(mode);
    if k == 0 {
        lemma_continues_self(ctx);
    } else {
        let before = emit_children(reg, cs, k - 1, mode)->Ok_0;
        let last = emit_child(reg, cs[k - 1], mode)->Ok_0;
        lemma_children_continue(reg, cs, k - 1, mode, host, ctx);
        let so_far = run(before, before.len() as int, host, ctx, held);
        lemma_child_continues(reg, cs[k - 1], mode, host, so_far);
        lemma_run_append(before, last, host, ctx, held);
        lemma_continues_on(ctx, so_far, run(last, last.len() as int, host, so_far, held));
    }
}

/// A conditional child whose guard does not hold yields nothing: its
/// program leaves the context as it finds it.
pub proof fn lemma_false_guard_registers_nothing(
    reg: Seq<PropsModel>,
    guard: Seq<u8>,
    inner: ChildModel,
    mode: Mode,
    host: HostModel,
    ctx: ContextModel,
    held: bool,
)
    requires
        emit_child(reg, ChildModel::Conditional(guard, Box::new(inner)), mode) is Ok,
        !guard_holds(host, guard),
    ensures
        ({
            let p = emit_child(reg, ChildModel::Conditional(guard, Box::new(inner)), mode)->Ok_0;
            run(p, p.len() as int, host, ctx, held) == ctx
        }),
{
    let body = emit_child(reg, inner, mode)->Ok_0;
    lemma_run_one(StatementModel::If { guard, body }, host, ctx, held);
}

/// An iteration child over a source without elements yields nothing: its
/// program leaves the context as it finds it, so what stands before and
/// after it keeps its order.
pub proof fn lemma_empty_source_registers_nothing(
    reg: Seq<PropsModel>,
    source: Seq<u8>,
    inner: ChildModel,
    mode: Mode,
    host: HostModel,
    ctx: ContextModel,
    held: bool,
)
    requires
        emit_child(reg, ChildModel::Iteration(source, Box::new(inner)), mode) is Ok,
        source_count(host, source) == 0,
    ensures
        ({
            let p = emit_child(reg, ChildModel::Iteration(source, Box::new(inner)), mode)->Ok_0;
            run(p, p.len() as int, host, ctx, held) == ctx
        }),
{
    let body = emit_child(reg, inner, mode)->Ok_0;
    lemma_run_one(StatementModel::For { source, body }, host, ctx, held);
}

/// An iteration child runs the program of its inner child once for each
/// element of its source.
pub proof fn lemma_iteration_repeats(
    reg: Seq<PropsModel>,
    source: Seq<u8>,
    inner: ChildModel,
    mode: Mode,
    host: HostModel,
    ctx: ContextModel,
    held: bool,
)
    requires
        emit_child(reg, ChildModel::Iteration(source, Box::new(inner)), mode) is Ok,
    ensures
        ({
            let p = emit_child(reg, ChildModel::Iteration(source, Box::new(inner)), mode)->Ok_0;
            run(p, p.len() as int, host, ctx, held) == repeat(
                emit_child(reg, inner, mode)->Ok_0,
                source_count(host, source),
                host,
                ctx,
                held,
            )
        }),
{
    let body = emit_child(reg, inner, mode)->Ok_0;
    lemma_run_one(StatementModel::For { source, body }, host, ctx, held);
}

/// Repeating the program of a node hands one widget to the parent for each
/// round, after what was there before.
pub proof fn lemma_repeat_registers_each(
    reg: Seq<PropsModel>,
    n: NodeModel,
    mode: Mode,
    host: HostModel,
    ctx: ContextModel,
    times: nat,
)
    requires
        emit_node(reg, n, mode) is Ok,
        ctx.pending.len() >= 1,
    ensures
        ({
            let after = repeat(emit_node(reg, n, mode)->Ok_0, times, host, ctx, holds_children(mode));
            &&& continues(ctx, after)
            &&& after.pending.last().len() == ctx.pending.last().len() + times
            &&& after.widgets.len() >= ctx.widgets.len() + times
        }),
    decreases times,
{
    let held = holds_children(mode);
    if times == 0 {
        lemma_continues_self(ctx);
    } else {
        let p = emit_node(reg, n, mode)->Ok_0;
        lemma_repeat_registers_each(reg, n, mode, host, ctx, (times - 1) as nat);
        let so_far = repeat(p, (times - 1) as nat, host, ctx, held);
        lemma_node_registers(reg, n, mode, host, so_far);
        lemma_continues_on(ctx, so_far, repeat(p, times, host, ctx, held));
    }
}


/// `after` stands apart from `before`: widgets have been added, and the
/// context is otherwise as it was, with the same parent, the same
/// accumulators, and nothing sealed that was not.
pub open spec fn apart(before: ContextModel, after: ContextModel) -> bool {
    &&& after.parent == before.parent
    &&& after.pending == before.pending
    &&& after.committed == before.committed
    &&& before.widgets.len() <= after.widgets.len()
    &&& after.widgets.subrange(0, before.widgets.len() as int) == before.widgets
}

proof fn lemma_apart_on(a: ContextModel, b: ContextModel, c: ContextModel)
    requires
        apart(a, b),
        apart(b, c),
    ensures
        apart(a, c),
{
    assert forall|i: int| 0 <= i < a.widgets.len() implies c.widgets[i] == a.widgets[i] by {
        assert(c.widgets.subrange(0, b.widgets.len() as int)[i] == b.widgets[i]);
        assert(b.widgets.subrange(0, a.widgets.len() as int)[i] == a.widgets[i]);
    }
    assert(c.widgets.subrange(0, a.widgets.len() as int) =~= a.widgets);
}

proof fn lemma_apart_self(ctx: ContextModel)
    ensures
        apart(ctx, ctx),
{
    assert(ctx.widgets.subrange(0, ctx.widgets.len() as int) == ctx.widgets);
}

/// Outside any construction, the construction-only program of a child item
/// adds widgets and leaves the context otherwise as it was.
pub proof fn lemma_child_apart(reg: Seq<PropsModel>, c: ChildModel, host: HostModel, ctx: ContextModel)
    requires
        emit_child(reg, c, Mode::Construction) is Ok,
    ensures
        apart(
            ctx,
            run(
                emit_child(reg, c, Mode::Construction)->Ok_0,
                emit_child(reg, c, Mode::Construction)->Ok_0.len() as int,
                host,
                ctx,
                false,
            ),
        ),
    decreases c, 0int, 0int,
{
    let mode = Mode::Construction;
    match c {
        ChildModel::LiteralWidget(n) => {
            lemma_node_built(reg, n, host, ctx);
        },
        ChildModel::Expression(expr) => {
            lemma_run_one(StatementModel::Child { expr }, host, ctx, false);
            lemma_apart_self(ctx);
        },
        ChildModel::Conditional(guard, inner) => {
            let body = emit_child(reg, *inner, mode)->Ok_0;
            lemma_run_one(StatementModel::If { guard, body }, host, ctx, false);
            if guard_holds(host, guard) {
                lemma_child_apart(reg, *inner, host, ctx);
            } else {
                lemma_apart_self(ctx);
            }
        },
        ChildModel::Iteration(source, inner) => {
            let body = emit_child(reg, *inner, mode)->Ok_0;
            lemma_run_one(StatementModel::For { source, body }, host, ctx, false);
            lemma_repeat_apart(reg, *inner, host, ctx, source_count(host, source));
        },
    }
}

/// The same for a loop over the program of a child item.
pub proof fn lemma_repeat_apart(
    reg: Seq<PropsModel>,
    inner: ChildModel,
    host: HostModel,
    ctx: ContextModel,
    times: nat,
)
    requires
        emit_child(reg, inner, Mode::Construction) is Ok,
    ensures
        apart(ctx, repeat(emit_child(reg, inner, Mode::Construction)->Ok_0, times, host, ctx, false)),
    decreases inner, 1int, times,
{
    if times == 0 {
        lemma_apart_self(ctx);
    } else {
        let body = emit_child(reg, inner, Mode::Construction)->Ok_0;
        lemma_repeat_apart(reg, inner, host, ctx, (times - 1) as nat);
        let so_far = repeat(body, (times - 1) as nat, host, ctx, false);
        lemma_child_apart(reg, inner, host, so_far);
        lemma_apart_on(ctx, so_far, repeat(body, times, host, ctx, false));
    }
}

/// The same for the programs of child items, one after the other.
pub proof fn lemma_children_apart(
    reg: Seq<PropsModel>,
    cs: Seq<ChildModel>,
    k: int,
    host: HostModel,
    ctx: ContextModel,
)
    requires
        0 <= k <= cs.len(),
        emit_children(reg, cs, k, Mode::Construction) is Ok,
    ensures
        apart(
            ctx,
            run(
                emit_children(reg, cs, k, Mode::Construction)->Ok_0,
                emit_children(reg, cs, k, Mode::Construction)->Ok_0.len() as int,
                host,
                ctx,
                false,
            ),
        ),
    decreases cs, 0int, k,
{
    if k == 0 {
        lemma_apart_self(ctx);
    } else {
        let before = emit_children(reg, cs, k - 1, Mode::Construction)->Ok_0;
        let last = emit_child(reg, cs[k - 1], Mode::Construction)->Ok_0;
        lemma_children_apart(reg, cs, k - 1, host, ctx);
        let so_far = run(before, before.len() as int, host, ctx, false);
        lemma_child_apart(reg, cs[k - 1], host, so_far);
        lemma_run_append(before, last, host, ctx, false);
        lemma_apart_on(ctx, so_far, run(last, last.len() as int, host, so_far, false));
    }
}

/// A construction-only program touches no context: run on any context,
/// with any host, it adds the widgets of its trees and leaves the parent,
/// every accumulator and what is sealed as they were.
pub proof fn lemma_construction_stands_apart(
    reg: Seq<PropsModel>,
    items: Seq<ChildModel>,
    core: Seq<u8>,
    host: HostModel,
    ctx: ContextModel,
)
    requires
        crate::codegen::emit_program(reg, items, Mode::Construction, core) is Ok,
    ensures
        ({
            let p = crate::codegen::emit_program(reg, items, Mode::Construction, core)->Ok_0;
            apart(ctx, run(p, p.len() as int, host, ctx, false))
        }),
{
    lemma_children_apart(reg, items, items.len() as int, host, ctx);
}

} // verus!
