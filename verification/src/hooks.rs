//! State and effect hooks: the bindings that a render context holds for a
//! component instance, and the effects that wait on them.
//!
//! A hook is matched with what it made on an earlier evaluation by its
//! position: each pass takes the slots in call order, from the first.

use vstd::prelude::*;

verus! {

/// A state cell: its current value and the number of times it was set.
#[derive(Clone, Copy, Debug, PartialEq, Eq)]
pub struct StateBinding<T> {
    pub value: T,
    pub version: u64,
}

/// A handle on a state cell. A copy of a handle stands for the same cell.
#[derive(Clone, Copy, Debug, PartialEq, Eq, Structural)]
pub struct Binding {
    pub slot: usize,
}

/// The setter that `use_state` hands out: it sets the cell it was made for.
#[derive(Clone, Copy, Debug, PartialEq, Eq, Structural)]
pub struct Setter {
    pub binding: Binding,
}

/// A registered effect: the callback to run, named by a number, and the
/// handles of the cells it depends on.
#[derive(Debug, PartialEq, Eq)]
pub struct Effect {
    pub callback: u64,
    pub deps: Vec<Binding>,
}

/// The hook store of a component instance.
#[derive(Debug)]
pub struct Hooks<T> {
    /// The state cells, by slot.
    pub states: Vec<StateBinding<T>>,
    /// The slot that the next `use_state` of this pass takes.
    pub cursor: usize,
    /// The effects, by slot.
    pub effects: Vec<Effect>,
    /// For each effect, the version of each dependency when the effect was
    /// registered or last scheduled.
    pub seen: Vec<Vec<u64>>,
    /// The slot that the next `use_effect` of this pass takes.
    pub effect_cursor: usize,
    /// A cell was set since the last pass began: the component is to be
    /// evaluated again.
    pub stale: bool,
}

impl<T> Hooks<T> {
    /// The handle names a cell of this store.
    pub open spec fn owns(&self, b: Binding) -> bool {
        b.slot < self.states.len()
    }

    pub open spec fn wf(&self) -> bool {
        &&& self.cursor <= self.states.len()
        &&& self.effect_cursor <= self.effects.len()
        &&& self.seen.len() == self.effects.len()
        &&& forall|i: int|
            0 <= i < self.effects.len() ==> (#[trigger] self.effects[i]).deps.len()
                == self.seen[i].len()
        &&& forall|i: int, k: int|
            0 <= i < self.effects.len() && 0 <= k < self.effects[i].deps.len() ==> self.owns(
                #[trigger] self.effects[i].deps[k],
            ) && self.seen[i][k] <= self.states[self.effects[i].deps[k].slot as int].version
    }

    /// Dependency `k` of effect `i` was set since the effect was registered
    /// or last scheduled.
    pub open spec fn advanced(&self, i: int, k: int) -> bool {
        self.states[self.effects[i].deps[k].slot as int].version != self.seen[i][k]
    }

    /// Some dependency of effect `i` was set since then.
    pub open spec fn changed(&self, i: int) -> bool {
        exists|k: int| 0 <= k < self.effects[i].deps.len() && self.advanced(i, k)
    }

    /// The callbacks of those of the first `n` effects of which a dependency
    /// was set, in the order of registration.
    pub open spec fn due(&self, n: int) -> Seq<u64>
        decreases n,
    {
        if n <= 0 {
            Seq::empty()
        } else if self.changed(n - 1) {
            self.due(n - 1).push(self.effects[n - 1].callback)
        } else {
            self.due(n - 1)
        }
    }

    /// No effect waits to run.
    pub open spec fn settled(&self) -> bool {
        forall|i: int| 0 <= i < self.effects.len() ==> !self.changed(i)
    }

    /// A store without cells and effects.
    pub fn new() -> (hooks: Self)
        ensures
            hooks.wf(),
            hooks.states@.len() == 0,
            hooks.effects@.len() == 0,
            hooks.cursor == 0,
            hooks.effect_cursor == 0,
            !hooks.stale,
    {
        Hooks {
            states: Vec::new(),
            cursor: 0,
            effects: Vec::new(),
            seen: Vec::new(),
            effect_cursor: 0,
            stale: false,
        }
    }

    /// Starts an evaluation pass: the hooks called next take the slots from
    /// the first on again.
    pub fn begin_pass(&mut self)
        requires
            old(self).wf(),
        ensures
            final(self).wf(),
            final(self).cursor == 0,
            final(self).effect_cursor == 0,
            !final(self).stale,
            final(self).states == old(self).states,
            final(self).effects == old(self).effects,
            final(self).seen == old(self).seen,
    {
        self.cursor = 0;
        self.effect_cursor = 0;
        self.stale = false;
    }

    /// Hands out the cell of the next slot: a new one, seeded with `initial`
    /// and at version 0, where the pass reaches the slot for the first time;
    /// the cell made then, untouched, on every later pass.
    pub fn create_state(&mut self, initial: T) -> (b: Binding)
        requires
            old(self).wf(),
        ensures
            final(self).wf(),
            b.slot == old(self).cursor,
            final(self).cursor == old(self).cursor + 1,
            final(self).owns(b),
            old(self).cursor < old(self).states.len() ==> final(self).states@ == old(self).states@,
            old(self).cursor == old(self).states.len() ==> final(self).states@ == old(
                self,
            ).states@.push(StateBinding { value: initial, version: 0 }),
            final(self).effects == old(self).effects,
            final(self).seen == old(self).seen,
            final(self).effect_cursor == old(self).effect_cursor,
            final(self).stale == old(self).stale,
    {
        let slot = self.cursor;
        if slot < self.states.len() {
            self.cursor = slot + 1;
        } else {
            self.states.push(StateBinding { value: initial, version: 0 });
            self.cursor = self.states.len();
        }
        Binding { slot }
    }

    /// The number of times the cell was set.
    pub fn version(&self, b: Binding) -> (v: u64)
        requires
            self.owns(b),
        ensures
            v == self.states[b.slot as int].version,
    {
        self.states[b.slot].version
    }

    /// Registers an effect in the next effect slot: `callback` is to run
    /// after a commit that finds one of `deps` set since the registration or
    /// since the effect was last scheduled. On a later pass the effect of
    /// the slot stays as registered.
    pub fn use_effect(&mut self, callback: u64, deps: &Vec<Binding>)
        requires
            old(self).wf(),
            forall|k: int| 0 <= k < deps.len() ==> old(self).owns(#[trigger] deps[k]),
        ensures
            final(self).wf(),
            final(self).states == old(self).states,
            final(self).cursor == old(self).cursor,
            final(self).stale == old(self).stale,
            final(self).effect_cursor == old(self).effect_cursor + 1,
            old(self).effect_cursor < old(self).effects.len() ==> final(self).effects == old(
                self,
            ).effects && final(self).seen == old(self).seen,
            old(self).effect_cursor == old(self).effects.len() ==> {
                &&& final(self).effects.len() == old(self).effects.len() + 1
                &&& final(self).seen@.subrange(0, old(self).seen.len() as int) == old(self).seen@
                &&& forall|i: int|
                    0 <= i < old(self).effects.len() ==> final(self).effects[i] == old(
                        self,
                    ).effects[i]
                &&& final(self).effects[old(self).effects.len() as int].callback == callback
                &&& final(self).effects[old(self).effects.len() as int].deps@ == deps@
                &&& !final(self).changed(old(self).effects.len() as int)
            },
    {
        let slot = self.effect_cursor;
        if slot == self.effects.len() {
            let mut kept: Vec<Binding> = Vec::new();
            let mut seen: Vec<u64> = Vec::new();
            let mut k: usize = 0;
            while k < deps.len()
                invariant
                    k <= deps.len(),
                    self.states == old(self).states,
                    kept@ == deps@.subrange(0, k as int),
                    seen.len() == k,
                    forall|j: int| 0 <= j < deps.len() ==> old(self).owns(#[trigger] deps[j]),
                    forall|j: int|
                        0 <= j < k ==> seen[j] == self.states[deps[j].slot as int].version,
                decreases deps.len() - k,
            {
                kept.push(deps[k]);
                seen.push(self.states[deps[k].slot].version);
                k += 1;
            }
            assert(kept@ == deps@);
            self.effects.push(Effect { callback, deps: kept });
            self.seen.push(seen);
            self.effect_cursor = self.effects.len();
        } else {
            self.effect_cursor = slot + 1;
        }
    }

    /// The part of a commit that concerns effects: hands out the callbacks
    /// that are due, in the order of registration, for the caller to run,
    /// and takes the versions found as seen.
    pub fn commit(&mut self) -> (run: Vec<u64>)
        requires
            old(self).wf(),
        ensures
            final(self).wf(),
            run@ == old(self).due(old(self).effects.len() as int),
            final(self).settled(),
            final(self).states == old(self).states,
            final(self).effects == old(self).effects,
            final(self).cursor == old(self).cursor,
            final(self).effect_cursor == old(self).effect_cursor,
            final(self).stale == old(self).stale,
    {
        let mut run: Vec<u64> = Vec::new();
        let mut i: usize = 0;
        while i < self.effects.len()
            invariant
                i <= self.effects.len(),
                self.wf(),
                self.states == old(self).states,
                self.effects == old(self).effects,
                self.cursor == old(self).cursor,
                self.effect_cursor == old(self).effect_cursor,
                self.stale == old(self).stale,
                self.seen.len() == old(self).seen.len(),
                forall|j: int| i <= j < self.effects.len() ==> self.seen[j] == old(self).seen[j],
                forall|j: int| 0 <= j < i ==> !self.changed(j),
                run@ == old(self).due(i as int),
            decreases self.effects.len() - i,
        {
            let n = self.effects[i].deps.len();
            let mut seen: Vec<u64> = Vec::new();
            let mut any = false;
            let mut k: usize = 0;
            while k < n
                invariant
                    k <= n,
                    i < self.effects.len(),
                    n == self.effects[i as int].deps.len(),
                    self.wf(),
                    seen.len() == k,
                    forall|j: int|
                        0 <= j < k ==> seen[j] == self.states[self.effects[i as int].deps[j].slot as int].version,
                    any == exists|j: int| 0 <= j < k && self.advanced(i as int, j),
                decreases n - k,
            {
                let b = self.effects[i].deps[k];
                assert(self.owns(self.effects[i as int].deps[k as int]));
                let v = self.states[b.slot].version;
                if v != self.seen[i][k] {
                    assert(self.advanced(i as int, k as int));
                    any = true;
                }
                seen.push(v);
                k += 1;
            }
            assert(any == self.changed(i as int));
            assert(forall|j: int| self.advanced(i as int, j) == old(self).advanced(i as int, j));
            assert(any == old(self).changed(i as int));
            if any {
                run.push(self.effects[i].callback);
            }
            let ghost before = *self;
            self.seen.set(i, seen);
            assert forall|j: int| 0 <= j < i + 1 implies !self.changed(j) by {
                if j < i {
                    assert(!before.changed(j));
                    assert(self.seen[j] == before.seen[j]);
                    if self.changed(j) {
                        let k = choose|k: int|
                            0 <= k < self.effects[j].deps.len() && self.advanced(j, k);
                        assert(before.advanced(j, k));
                    }
                }
            }
            i += 1;
        }
        run
    }
}

impl<T> Hooks<T> {
    /// Where no effect waits to run, none is due: a commit that follows
    /// another, with no cell set between them, hands out nothing.
    pub proof fn lemma_settled_nothing_due(self, n: int)
        requires
            self.settled(),
            0 <= n <= self.effects.len(),
        ensures
            self.due(n) == Seq::<u64>::empty(),
    {
        self.lemma_none_changed_nothing_due(n);
    }

    /// The effects among the first `n` of which a dependency was set, by
    /// slot, in the order of registration.
    pub open spec fn due_slots(&self, n: int) -> Seq<int>
        decreases n,
    {
        if n <= 0 {
            Seq::empty()
        } else if self.changed(n - 1) {
            self.due_slots(n - 1).push(n - 1)
        } else {
            self.due_slots(n - 1)
        }
    }

    /// A commit runs each effect of which a dependency was set exactly
    /// once, however often its dependencies were set, and runs no other
    /// effect: what it hands out are the callbacks of the slots that are
    /// due, slot by slot; these ascend, so none is there twice; and a slot
    /// is among them just when a dependency of its effect was set.
    pub proof fn lemma_due_once(self, n: int)
        requires
            0 <= n <= self.effects.len(),
        ensures
            self.due(n).len() == self.due_slots(n).len(),
            forall|j: int|
                0 <= j < self.due_slots(n).len() ==> 0 <= (#[trigger] self.due_slots(n)[j]) < n
                    && self.changed(self.due_slots(n)[j]) && self.due(n)[j]
                    == self.effects[self.due_slots(n)[j]].callback,
            forall|j: int, k: int|
                0 <= j < k < self.due_slots(n).len() ==> self.due_slots(n)[j] < self.due_slots(
                    n,
                )[k],
            forall|i: int| 0 <= i < n && self.changed(i) ==> self.due_slots(n).contains(i),
        decreases n,
    {
        if n > 0 {
            self.lemma_due_once(n - 1);
            let before = self.due_slots(n - 1);
            let now = self.due_slots(n);
            if self.changed(n - 1) {
                assert(now[before.len() as int] == n - 1);
                assert forall|i: int| 0 <= i < n && self.changed(i) implies now.contains(i) by {
                    if i < n - 1 {
                        let j = choose|j: int| 0 <= j < before.len() && before[j] == i;
                        assert(now[j] == i);
                    }
                }
            }
        }
    }

    /// However often cells are set, an effect that waits to run keeps
    /// waiting until a commit: setting a cell takes no effect out of those
    /// that are due.
    pub proof fn lemma_set_keeps_waiting(self, after: Self, b: Binding, i: int)
        requires
            self.wf(),
            self.owns(b),
            0 <= i < self.effects.len(),
            self.changed(i),
            after.effects == self.effects,
            after.seen == self.seen,
            after.states.len() == self.states.len(),
            after.states[b.slot as int].version == self.states[b.slot as int].version + 1,
            forall|s: int|
                0 <= s < self.states.len() && s != b.slot ==> after.states[s] == self.states[s],
        ensures
            after.changed(i),
    {
        let k = choose|k: int| 0 <= k < self.effects[i].deps.len() && self.advanced(i, k);
        assert(self.owns(self.effects[i].deps[k]));
        assert(after.advanced(i, k));
    }

    /// An effect that a commit finds changed is handed out by it, once.
    pub proof fn lemma_changed_is_due(self, i: int, n: int)
        requires
            0 <= i < n <= self.effects.len(),
            self.changed(i),
            forall|j: int| 0 <= j < n && j != i ==> !self.changed(j),
        ensures
            self.due(n) == seq![self.effects[i].callback],
        decreases n,
    {
        if i == n - 1 {
            self.lemma_none_changed_nothing_due(n - 1);
        } else {
            self.lemma_changed_is_due(i, n - 1);
        }
    }

    proof fn lemma_none_changed_nothing_due(self, n: int)
        requires
            0 <= n <= self.effects.len(),
            forall|j: int| 0 <= j < n ==> !self.changed(j),
        ensures
            self.due(n) == Seq::<u64>::empty(),
        decreases n,
    {
        if n > 0 {
            self.lemma_none_changed_nothing_due(n - 1);
        }
    }

    /// Setting a cell makes each effect that depends on it wait to run,
    /// where it did not before.
    pub proof fn lemma_set_changes_dependents(self, after: Self, b: Binding, i: int, k: int)
        requires
            self.wf(),
            self.owns(b),
            0 <= i < self.effects.len(),
            0 <= k < self.effects[i].deps.len(),
            self.effects[i].deps[k] == b,
            !self.changed(i),
            after.effects == self.effects,
            after.seen == self.seen,
            after.states.len() == self.states.len(),
            after.states[b.slot as int].version == self.states[b.slot as int].version + 1,
        ensures
            after.changed(i),
    {
        assert(!self.advanced(i, k));
        assert(after.advanced(i, k));
    }
}

impl<T: Copy> Hooks<T> {
    /// The current value of the cell.
    pub fn get(&self, b: Binding) -> (value: T)
        requires
            self.owns(b),
        ensures
            value == self.states[b.slot as int].value,
    {
        self.states[b.slot].value
    }

    /// Sets the cell: its value becomes `value`, its version grows by one,
    /// and the component is marked for another evaluation. No effect runs;
    /// those that depend on the cell are due at the next commit.
    ///
    /// The version is a machine integer, so it must have room to grow: that
    /// is the one thing asked of the caller beyond a handle of this store.
    pub fn set(&mut self, b: Binding, value: T)
        requires
            old(self).wf(),
            old(self).owns(b),
            old(self).states[b.slot as int].version < u64::MAX,
        ensures
            final(self).wf(),
            final(self).states@ == old(self).states@.update(
                b.slot as int,
                StateBinding { value, version: (old(self).states[b.slot as int].version + 1) as u64 },
            ),
            final(self).effects == old(self).effects,
            final(self).seen == old(self).seen,
            final(self).cursor == old(self).cursor,
            final(self).effect_cursor == old(self).effect_cursor,
            final(self).stale,
    {
        let version = self.states[b.slot].version;
        self.states.set(b.slot, StateBinding { value, version: version + 1 });
        self.stale = true;
    }
}

impl Setter {
    /// Sets the cell that the setter was made for.
    pub fn call<T: Copy>(&self, hooks: &mut Hooks<T>, value: T)
        requires
            old(hooks).wf(),
            old(hooks).owns(self.binding),
            old(hooks).states[self.binding.slot as int].version < u64::MAX,
        ensures
            final(hooks).wf(),
            final(hooks).states@ == old(hooks).states@.update(
                self.binding.slot as int,
                StateBinding {
                    value,
                    version: (old(hooks).states[self.binding.slot as int].version + 1) as u64,
                },
            ),
            final(hooks).effects == old(hooks).effects,
            final(hooks).seen == old(hooks).seen,
            final(hooks).cursor == old(hooks).cursor,
            final(hooks).effect_cursor == old(hooks).effect_cursor,
            final(hooks).stale,
    {
        hooks.set(self.binding, value);
    }
}

/// The state hook: takes the cell of the next slot, made with `initial` on
/// the first pass, and hands out its current value, a setter for it, and its
/// handle.
pub fn use_state<T: Copy>(hooks: &mut Hooks<T>, initial: T) -> (r: (T, Setter, Binding))
    requires
        old(hooks).wf(),
    ensures
        final(hooks).wf(),
        r.2.slot == old(hooks).cursor,
        r.1.binding == r.2,
        final(hooks).owns(r.2),
        final(hooks).cursor == old(hooks).cursor + 1,
        r.0 == final(hooks).states[r.2.slot as int].value,
        old(hooks).cursor < old(hooks).states.len() ==> final(hooks).states@ == old(hooks).states@,
        old(hooks).cursor == old(hooks).states.len() ==> final(hooks).states@ == old(
            hooks,
        ).states@.push(StateBinding { value: initial, version: 0 }),
        final(hooks).effects == old(hooks).effects,
        final(hooks).seen == old(hooks).seen,
        final(hooks).effect_cursor == old(hooks).effect_cursor,
        final(hooks).stale == old(hooks).stale,
{
    let binding = hooks.create_state(initial);
    let value = hooks.get(binding);
    (value, Setter { binding }, binding)
}

/// The effect hook: registers `callback` to run after a commit that finds
/// one of `deps` set. The handles are copied, not the values.
pub fn use_effect<T>(hooks: &mut Hooks<T>, callback: u64, deps: &Vec<Binding>)
    requires
        old(hooks).wf(),
        forall|k: int| 0 <= k < deps.len() ==> old(hooks).owns(#[trigger] deps[k]),
    ensures
        final(hooks).wf(),
        final(hooks).states == old(hooks).states,
        final(hooks).cursor == old(hooks).cursor,
        final(hooks).stale == old(hooks).stale,
        final(hooks).effect_cursor == old(hooks).effect_cursor + 1,
        old(hooks).effect_cursor < old(hooks).effects.len() ==> final(hooks).effects == old(
            hooks,
        ).effects && final(hooks).seen == old(hooks).seen,
        old(hooks).effect_cursor == old(hooks).effects.len() ==> {
            &&& final(hooks).effects.len() == old(hooks).effects.len() + 1
            &&& final(hooks).seen@.subrange(0, old(hooks).seen.len() as int) == old(hooks).seen@
            &&& forall|i: int|
                0 <= i < old(hooks).effects.len() ==> final(hooks).effects[i] == old(
                    hooks,
                ).effects[i]
            &&& final(hooks).effects[old(hooks).effects.len() as int].callback == callback
            &&& final(hooks).effects[old(hooks).effects.len() as int].deps@ == deps@
            &&& !final(hooks).changed(old(hooks).effects.len() as int)
        },
{
    hooks.use_effect(callback, deps);
}

} // verus!
