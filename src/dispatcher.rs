//! Builder-composed, bundle-aware dispatcher: items added to a
//! [`DispatcherBuilder`] are compiled into an ordered schedule of steps in
//! which runs of parallel systems are fused into executor groups.

use vstd::prelude::*;

verus! {

/// Error reported by a bundle's `load` or `unload`.
#[derive(Debug)]
pub struct Error {
    /// Human readable description of the failure.
    pub message: String,
}

/// A unit of work run against the world and the resources.
pub trait Runnable<W, R>: Sized {
    /// What a call of `run` did to the unit. A unit may state it; by default
    /// nothing is said.
    open spec fn ran(before: Self, after: Self) -> bool {
        true
    }

    /// What a call of `flush_commands` did to the unit. A unit may state it;
    /// by default nothing is said.
    open spec fn flushed(before: Self, after: Self) -> bool {
        true
    }

    /// Runs the work.
    fn run(&mut self, world: &mut W, resources: &mut R)
        ensures
            Self::ran(*old(self), *final(self)),
    ;

    /// Applies the deferred mutations that `run` recorded.
    fn flush_commands(&mut self, world: &mut W, resources: &mut R)
        ensures
            Self::flushed(*old(self), *final(self)),
    ;
}

/// Each system of the group was run once: `after[j]` came from `before[j]`
/// by one call of `run`.
pub open spec fn group_ran<W, R, S: Runnable<W, R>>(before: Seq<S>, after: Seq<S>) -> bool {
    &&& before.len() == after.len()
    &&& forall|j: int| 0 <= j < before.len() ==> S::ran(#[trigger] before[j], after[j])
}

/// Each system of the group was flushed once.
pub open spec fn group_flushed<W, R, S: Runnable<W, R>>(before: Seq<S>, after: Seq<S>) -> bool {
    &&& before.len() == after.len()
    &&& forall|j: int| 0 <= j < before.len() ==> S::flushed(#[trigger] before[j], after[j])
}

/// Each system of the group was run once and then had its command buffer
/// applied once.
pub open spec fn group_ran_then_flushed<W, R, S: Runnable<W, R>>(before: Seq<S>, after: Seq<S>) -> bool {
    exists|mid: Seq<S>| group_ran::<W, R, S>(before, mid) && group_flushed::<W, R, S>(mid, after)
}

/// What executing one step did: a group's systems were each run and then
/// flushed at the barrier after the group, a thread local unit was run once,
/// and a barrier step itself is unchanged.
pub open spec fn step_executed<W, R, S: Runnable<W, R>, L: Runnable<W, R>, F: Runnable<W, R>>(
    before: StepView<S, L, F>,
    after: StepView<S, L, F>,
) -> bool {
    match (before, after) {
        (StepView::Systems(g), StepView::Systems(h)) => group_ran_then_flushed::<W, R, S>(g, h),
        (StepView::FlushCmdBuffers, StepView::FlushCmdBuffers) => true,
        (StepView::ThreadLocalFn(f), StepView::ThreadLocalFn(f2)) => F::ran(f, f2),
        (StepView::ThreadLocalSystem(l), StepView::ThreadLocalSystem(l2)) => L::ran(l, l2),
        _ => false,
    }
}

/// A step as it is between running a group and reaching its barrier.
spec fn step_executing<W, R, S: Runnable<W, R>, L: Runnable<W, R>, F: Runnable<W, R>>(
    k: int,
    last: int,
    before: StepView<S, L, F>,
    after: StepView<S, L, F>,
) -> bool {
    if k == last && before is Systems {
        after is Systems && group_ran::<W, R, S>(before->Systems_0, after->Systems_0)
    } else {
        step_executed::<W, R, S, L, F>(before, after)
    }
}

/// Builds one of the host's systems from the kind that a bundle asks for.
pub trait BuildSystem<K>: Sized {
    /// `system` is a system of kind `kind`. A host may state it; by default
    /// nothing is said.
    open spec fn is_kind(kind: K, system: Self) -> bool {
        true
    }

    /// The system of kind `kind`.
    fn build_system(kind: K) -> (r: Self)
        ensures
            Self::is_kind(kind, r),
    ;
}

/// The items from `start` on are systems of the given kinds, in order.
pub open spec fn systems_of_kinds<K, S: BuildSystem<K>, L, F, B>(
    items: Seq<DispatcherItem<S, L, F, B>>,
    start: int,
    kinds: Seq<K>,
) -> bool {
    &&& items.len() == start + kinds.len()
    &&& forall|i: int|
        0 <= i < kinds.len() ==> {
            &&& (#[trigger] items[start + i]) is System
            &&& S::is_kind(kinds[i], items[start + i]->System_0)
        }
}

/// Dispatcher items. This is different from [`Step`] in that it contains bundles.
pub enum DispatcherItem<S, L, F, B> {
    /// A simple system.
    System(S),
    /// Flush system command buffers.
    FlushCmdBuffers,
    /// A thread local function.
    ThreadLocalFn(F),
    /// A thread local system.
    ThreadLocalSystem(L),
    /// A system bundle.
    SystemBundle(B),
}

/// One step of a compiled schedule.
pub enum Step<S, L, F> {
    /// A group of parallel systems, run together.
    Systems(Vec<S>),
    /// A barrier: the preceding systems' command buffers are applied.
    FlushCmdBuffers,
    /// A thread local function.
    ThreadLocalFn(F),
    /// A thread local system.
    ThreadLocalSystem(L),
}

/// The mathematical value of a [`Step`].
pub enum StepView<S, L, F> {
    Systems(Seq<S>),
    FlushCmdBuffers,
    ThreadLocalFn(F),
    ThreadLocalSystem(L),
}

impl<S, L, F> View for Step<S, L, F> {
    type V = StepView<S, L, F>;

    open spec fn view(&self) -> StepView<S, L, F> {
        match self {
            Step::Systems(v) => StepView::Systems(v@),
            Step::FlushCmdBuffers => StepView::FlushCmdBuffers,
            Step::ThreadLocalFn(f) => StepView::ThreadLocalFn(*f),
            Step::ThreadLocalSystem(l) => StepView::ThreadLocalSystem(*l),
        }
    }
}

/// Shape of a step: its kind and, for an executor group, its size.
pub enum StepShape {
    Systems(nat),
    FlushCmdBuffers,
    ThreadLocalFn,
    ThreadLocalSystem,
}

pub open spec fn shape_of<S, L, F>(s: StepView<S, L, F>) -> StepShape {
    match s {
        StepView::Systems(g) => StepShape::Systems(g.len()),
        StepView::FlushCmdBuffers => StepShape::FlushCmdBuffers,
        StepView::ThreadLocalFn(_) => StepShape::ThreadLocalFn,
        StepView::ThreadLocalSystem(_) => StepShape::ThreadLocalSystem,
    }
}

/// The views of a sequence of steps.
pub open spec fn steps_view<S, L, F>(steps: Seq<Step<S, L, F>>) -> Seq<StepView<S, L, F>> {
    steps.map_values(|s: Step<S, L, F>| s@)
}

/// Closes the pending group of parallel systems: an executor step is
/// emitted only when the group is non-empty.
pub open spec fn close_group<S, L, F>(steps: Seq<StepView<S, L, F>>, acc: Seq<S>) -> Seq<StepView<S, L, F>> {
    if acc.len() == 0 {
        steps
    } else {
        steps.push(StepView::Systems(acc))
    }
}

/// Closes the pending group and, when a group was emitted, a barrier after it.
pub open spec fn close_group_flushed<S, L, F>(steps: Seq<StepView<S, L, F>>, acc: Seq<S>) -> Seq<StepView<S, L, F>> {
    if acc.len() == 0 {
        steps
    } else {
        steps.push(StepView::Systems(acc)).push(StepView::FlushCmdBuffers)
    }
}

/// The compilation state after one more item: the emitted steps and the
/// pending group of parallel systems. A bundle is expanded elsewhere and
/// leaves the state as it is.
pub open spec fn push_item<S, L, F, B>(
    state: (Seq<StepView<S, L, F>>, Seq<S>),
    item: DispatcherItem<S, L, F, B>,
) -> (Seq<StepView<S, L, F>>, Seq<S>) {
    match item {
        DispatcherItem::System(s) => (state.0, state.1.push(s)),
        DispatcherItem::FlushCmdBuffers => (
            close_group(state.0, state.1).push(StepView::FlushCmdBuffers),
            Seq::empty(),
        ),
        DispatcherItem::ThreadLocalFn(f) => (
            close_group_flushed(state.0, state.1).push(StepView::ThreadLocalFn(f)),
            Seq::empty(),
        ),
        DispatcherItem::ThreadLocalSystem(l) => (
            close_group_flushed(state.0, state.1).push(StepView::ThreadLocalSystem(l)),
            Seq::empty(),
        ),
        DispatcherItem::SystemBundle(_) => state,
    }
}

/// The compilation state after all of `items`, in order, starting from `state`.
pub open spec fn compile_from<S, L, F, B>(
    state: (Seq<StepView<S, L, F>>, Seq<S>),
    items: Seq<DispatcherItem<S, L, F, B>>,
) -> (Seq<StepView<S, L, F>>, Seq<S>)
    decreases items.len(),
{
    if items.len() == 0 {
        state
    } else {
        push_item(compile_from(state, items.drop_last()), items.last())
    }
}

/// The schedule built from a sequence of items without bundles: the items
/// followed by the implicit trailing barrier, compiled from nothing.
pub open spec fn schedule_of<S, L, F, B>(items: Seq<DispatcherItem<S, L, F, B>>) -> Seq<StepView<S, L, F>> {
    compile_from((Seq::empty(), Seq::empty()), items.push(DispatcherItem::FlushCmdBuffers)).0
}

pub open spec fn is_bundle<S, L, F, B>(item: DispatcherItem<S, L, F, B>) -> bool {
    item is SystemBundle
}

pub open spec fn has_no_bundle<S, L, F, B>(items: Seq<DispatcherItem<S, L, F, B>>) -> bool {
    forall|i: int| 0 <= i < items.len() ==> !is_bundle(#[trigger] items[i])
}

/// A schedule in which every executor group is non-empty and is followed at
/// once by a barrier. So no group is last, no two groups are adjacent, and
/// no thread local step directly follows a group.
pub open spec fn schedule_well_formed<S, L, F>(steps: Seq<StepView<S, L, F>>) -> bool {
    forall|k: int| 0 <= k < steps.len() && (#[trigger] steps[k]) is Systems ==> {
        &&& steps[k]->Systems_0.len() > 0
        &&& k + 1 < steps.len()
        &&& steps[k + 1] is FlushCmdBuffers
    }
}


/// A structure that adds multiple systems to the dispatcher and loads and
/// unloads all the resources that they need.
pub trait SystemBundle<W, R, S, L, F>: Sized {
    /// A bound on the nesting of the bundles that `load` adds: each bundle
    /// added has a smaller depth than this one. A bundle that adds no bundle
    /// keeps the default.
    open spec fn depth(&self) -> nat {
        0
    }

    /// Called once when the dispatcher is built. It adds systems or nested
    /// bundles to `builder`, and may set up entities or resources.
    fn load(
        &mut self,
        world: &mut W,
        resources: &mut R,
        builder: &mut DispatcherBuilder<S, L, F, Self>,
    ) -> (r: Result<(), Error>)
        requires
            old(builder)@.len() == 0,
        ensures
            forall|i: int|
                0 <= i < final(builder)@.len() && (#[trigger] final(builder)@[i]) is SystemBundle
                    ==> final(builder)@[i]->SystemBundle_0.depth() < old(self).depth(),
            Self::loads(*old(self), *final(self), final(builder)@, r),
    ;

    /// What a call of `load` that returned `r` did: the bundle before and
    /// after the call, and the items it added to its fresh builder. A bundle
    /// may state it; by default nothing is said.
    open spec fn loads(
        before: Self,
        after: Self,
        added: Seq<DispatcherItem<S, L, F, Self>>,
        r: Result<(), Error>,
    ) -> bool {
        true
    }

    /// What a call of `unload` that returned `r` did to the bundle. A bundle
    /// may state it; by default nothing is said.
    open spec fn unloads(before: Self, after: Self, r: Result<(), Error>) -> bool {
        true
    }

    /// Called once when the dispatcher is disposed, to clean up what `load`
    /// set up.
    fn unload(&mut self, world: &mut W, resources: &mut R) -> (r: Result<(), Error>)
        ensures
            Self::unloads(*old(self), *final(self), r),
    ;
}

/// One call of a bundle's `load`, as the builder made it: the bundle before
/// and after, the items it added, and what it returned.
pub struct LoadRecord<S, L, F, B> {
    pub before: B,
    pub after: B,
    pub added: Seq<DispatcherItem<S, L, F, B>>,
    pub result: Result<(), Error>,
}

/// Expands `items` under the loads recorded in `trace`, in depth-first
/// order: an item without bundle stands for itself, and a bundle is loaded
/// by the next record, which must succeed, and stands for the expansion of
/// the items it added. Returns the bundle-free items and the records left
/// over, or `None` when the records do not fit.
pub open spec fn expand<W, R, S, L, F, B: SystemBundle<W, R, S, L, F>>(
    items: Seq<DispatcherItem<S, L, F, B>>,
    trace: Seq<LoadRecord<S, L, F, B>>,
    fuel: nat,
) -> Option<(Seq<DispatcherItem<S, L, F, B>>, Seq<LoadRecord<S, L, F, B>>)>
    decreases fuel, items.len(),
{
    if items.len() == 0 {
        Some((Seq::empty(), trace))
    } else {
        match items[0] {
            DispatcherItem::SystemBundle(b) => {
                let d = <B as SystemBundle<W, R, S, L, F>>::depth(&b);
                if trace.len() > 0 && trace[0].before == b && trace[0].result is Ok && d < fuel {
                    match expand::<W, R, S, L, F, B>(trace[0].added, trace.drop_first(), d) {
                        Some((f1, t1)) => match expand::<W, R, S, L, F, B>(items.drop_first(), t1, fuel) {
                            Some((f2, t2)) => Some((f1 + f2, t2)),
                            None => None,
                        },
                        None => None,
                    }
                } else {
                    None
                }
            },
            _ => match expand::<W, R, S, L, F, B>(items.drop_first(), trace, fuel) {
                Some((f, t)) => Some((seq![items[0]] + f, t)),
                None => None,
            },
        }
    }
}

/// Compiling `items` from `start` with the bundles expanded under `trace`
/// uses up every record and ends in `end`.
pub open spec fn compiled_with_loads<W, R, S, L, F, B: SystemBundle<W, R, S, L, F>>(
    items: Seq<DispatcherItem<S, L, F, B>>,
    trace: Seq<LoadRecord<S, L, F, B>>,
    fuel: nat,
    start: (Seq<StepView<S, L, F>>, Seq<S>),
    end: (Seq<StepView<S, L, F>>, Seq<S>),
) -> bool {
    match expand::<W, R, S, L, F, B>(items, trace, fuel) {
        Some((flat, rest)) => rest.len() == 0 && end == compile_from(start, flat),
        None => false,
    }
}

/// Every recorded load is one that the bundle's own contract describes.
pub open spec fn loads_described<W, R, S, L, F, B: SystemBundle<W, R, S, L, F>>(
    trace: Seq<LoadRecord<S, L, F, B>>,
) -> bool {
    forall|i: int|
        0 <= i < trace.len() ==> B::loads(
            (#[trigger] trace[i]).before,
            trace[i].after,
            trace[i].added,
            trace[i].result,
        )
}

/// Every recorded load succeeded.
pub open spec fn loads_succeeded<S, L, F, B>(trace: Seq<LoadRecord<S, L, F, B>>) -> bool {
    forall|i: int| 0 <= i < trace.len() ==> (#[trigger] trace[i]).result is Ok
}

/// The bundles as their loads left them, in load order.
pub open spec fn loaded_bundles<S, L, F, B>(trace: Seq<LoadRecord<S, L, F, B>>) -> Seq<B> {
    trace.map_values(|rec: LoadRecord<S, L, F, B>| rec.after)
}

proof fn lemma_expand_frame<W, R, S, L, F, B: SystemBundle<W, R, S, L, F>>(
    items: Seq<DispatcherItem<S, L, F, B>>,
    trace: Seq<LoadRecord<S, L, F, B>>,
    more: Seq<LoadRecord<S, L, F, B>>,
    fuel: nat,
)
    requires
        expand::<W, R, S, L, F, B>(items, trace, fuel) is Some,
    ensures
        expand::<W, R, S, L, F, B>(items, trace + more, fuel) == Some((
            expand::<W, R, S, L, F, B>(items, trace, fuel)->Some_0.0,
            expand::<W, R, S, L, F, B>(items, trace, fuel)->Some_0.1 + more,
        )),
    decreases fuel, items.len(),
{
    if items.len() > 0 {
        match items[0] {
            DispatcherItem::SystemBundle(b) => {
                let d = <B as SystemBundle<W, R, S, L, F>>::depth(&b);
                assert((trace + more)[0] == trace[0]);
                assert((trace + more).drop_first() =~= trace.drop_first() + more);
                lemma_expand_frame::<W, R, S, L, F, B>(trace[0].added, trace.drop_first(), more, d);
                let t1 = expand::<W, R, S, L, F, B>(trace[0].added, trace.drop_first(), d)->Some_0.1;
                lemma_expand_frame::<W, R, S, L, F, B>(items.drop_first(), t1, more, fuel);
            },
            _ => {
                lemma_expand_frame::<W, R, S, L, F, B>(items.drop_first(), trace, more, fuel);
            },
        }
    }
}

proof fn lemma_expand_append<W, R, S, L, F, B: SystemBundle<W, R, S, L, F>>(
    a: Seq<DispatcherItem<S, L, F, B>>,
    b: Seq<DispatcherItem<S, L, F, B>>,
    trace: Seq<LoadRecord<S, L, F, B>>,
    fuel: nat,
)
    requires
        expand::<W, R, S, L, F, B>(a, trace, fuel) is Some,
        expand::<W, R, S, L, F, B>(b, expand::<W, R, S, L, F, B>(a, trace, fuel)->Some_0.1, fuel) is Some,
    ensures
        expand::<W, R, S, L, F, B>(a + b, trace, fuel) == Some((
            expand::<W, R, S, L, F, B>(a, trace, fuel)->Some_0.0 + expand::<W, R, S, L, F, B>(
                b,
                expand::<W, R, S, L, F, B>(a, trace, fuel)->Some_0.1,
                fuel,
            )->Some_0.0,
            expand::<W, R, S, L, F, B>(
                b,
                expand::<W, R, S, L, F, B>(a, trace, fuel)->Some_0.1,
                fuel,
            )->Some_0.1,
        )),
    decreases a.len(),
{
    if a.len() == 0 {
        assert(a + b =~= b);
        let fb = expand::<W, R, S, L, F, B>(b, trace, fuel)->Some_0.0;
        assert(Seq::<DispatcherItem<S, L, F, B>>::empty() + fb =~= fb);
    } else {
        assert((a + b)[0] == a[0]);
        assert((a + b).drop_first() =~= a.drop_first() + b);
        match a[0] {
            DispatcherItem::SystemBundle(x) => {
                let d = <B as SystemBundle<W, R, S, L, F>>::depth(&x);
                let (f1, t1) = expand::<W, R, S, L, F, B>(trace[0].added, trace.drop_first(), d)->Some_0;
                lemma_expand_append::<W, R, S, L, F, B>(a.drop_first(), b, t1, fuel);
                let (f2, t2) = expand::<W, R, S, L, F, B>(a.drop_first(), t1, fuel)->Some_0;
                let (f3, t3) = expand::<W, R, S, L, F, B>(b, t2, fuel)->Some_0;
                assert(f1 + (f2 + f3) =~= (f1 + f2) + f3);
            },
            _ => {
                lemma_expand_append::<W, R, S, L, F, B>(a.drop_first(), b, trace, fuel);
                let (f2, t2) = expand::<W, R, S, L, F, B>(a.drop_first(), trace, fuel)->Some_0;
                let (f3, t3) = expand::<W, R, S, L, F, B>(b, t2, fuel)->Some_0;
                assert(seq![a[0]] + (f2 + f3) =~= (seq![a[0]] + f2) + f3);
            },
        }
    }
}

/// The records added after the first `n`.
pub open spec fn trace_since<S, L, F, B>(t: Seq<LoadRecord<S, L, F, B>>, n: nat) -> Seq<LoadRecord<S, L, F, B>> {
    t.subrange(n as int, t.len() as int)
}

proof fn lemma_expand_plain<W, R, S, L, F, B: SystemBundle<W, R, S, L, F>>(
    x: DispatcherItem<S, L, F, B>,
    trace: Seq<LoadRecord<S, L, F, B>>,
    fuel: nat,
)
    requires
        !(x is SystemBundle),
    ensures
        expand::<W, R, S, L, F, B>(seq![x], trace, fuel) == Some((seq![x], trace)),
{
    let e = Seq::<DispatcherItem<S, L, F, B>>::empty();
    assert(seq![x].drop_first() =~= e);
    assert(expand::<W, R, S, L, F, B>(e, trace, fuel) == Some((e, trace)));
    assert(seq![x][0] == x);
    assert(seq![x] + e =~= seq![x]);
}

proof fn lemma_expand_bundle<W, R, S, L, F, B: SystemBundle<W, R, S, L, F>>(
    b: B,
    rec: LoadRecord<S, L, F, B>,
    sub: Seq<LoadRecord<S, L, F, B>>,
    fuel: nat,
)
    requires
        rec.before == b,
        rec.result is Ok,
        <B as SystemBundle<W, R, S, L, F>>::depth(&b) < fuel,
        expand::<W, R, S, L, F, B>(rec.added, sub, <B as SystemBundle<W, R, S, L, F>>::depth(&b)) is Some,
        expand::<W, R, S, L, F, B>(rec.added, sub, <B as SystemBundle<W, R, S, L, F>>::depth(&b))->Some_0.1.len() == 0,
    ensures
        expand::<W, R, S, L, F, B>(seq![DispatcherItem::SystemBundle(b)], seq![rec] + sub, fuel) == Some((
            expand::<W, R, S, L, F, B>(rec.added, sub, <B as SystemBundle<W, R, S, L, F>>::depth(&b))->Some_0.0,
            Seq::<LoadRecord<S, L, F, B>>::empty(),
        )),
{
    let items = seq![DispatcherItem::<S, L, F, B>::SystemBundle(b)];
    let t = seq![rec] + sub;
    assert(t[0] == rec);
    assert(t.drop_first() =~= sub);
    let e = Seq::<DispatcherItem<S, L, F, B>>::empty();
    assert(items.drop_first() =~= e);
    assert(items[0] == DispatcherItem::<S, L, F, B>::SystemBundle(b));
    let (f1, t1) = expand::<W, R, S, L, F, B>(rec.added, sub, <B as SystemBundle<W, R, S, L, F>>::depth(&b))->Some_0;
    assert(t1 =~= Seq::<LoadRecord<S, L, F, B>>::empty());
    assert(expand::<W, R, S, L, F, B>(e, t1, fuel) == Some((e, t1)));
    assert(f1 + e =~= f1);
}

/// A bundle's items are compiled at its position: when `a`, the items that
/// the load `rec` of bundle `b` added, and `c` expand under `ta`, `sub` and
/// `tc`, then `a`, `b`, `c` in a row expand under the records in the same
/// order to the three expansions in a row.
pub proof fn lemma_bundle_in_place<W, R, S, L, F, B: SystemBundle<W, R, S, L, F>>(
    a: Seq<DispatcherItem<S, L, F, B>>,
    b: B,
    c: Seq<DispatcherItem<S, L, F, B>>,
    ta: Seq<LoadRecord<S, L, F, B>>,
    rec: LoadRecord<S, L, F, B>,
    sub: Seq<LoadRecord<S, L, F, B>>,
    tc: Seq<LoadRecord<S, L, F, B>>,
    fuel: nat,
)
    requires
        rec.before == b,
        rec.result is Ok,
        <B as SystemBundle<W, R, S, L, F>>::depth(&b) < fuel,
        expand::<W, R, S, L, F, B>(a, ta, fuel) is Some,
        expand::<W, R, S, L, F, B>(a, ta, fuel)->Some_0.1.len() == 0,
        expand::<W, R, S, L, F, B>(rec.added, sub, <B as SystemBundle<W, R, S, L, F>>::depth(&b)) is Some,
        expand::<W, R, S, L, F, B>(rec.added, sub, <B as SystemBundle<W, R, S, L, F>>::depth(&b))->Some_0.1.len() == 0,
        expand::<W, R, S, L, F, B>(c, tc, fuel) is Some,
    ensures
        expand::<W, R, S, L, F, B>(a + seq![DispatcherItem::SystemBundle(b)] + c, ta + seq![rec] + sub + tc, fuel)
            == Some((
            expand::<W, R, S, L, F, B>(a, ta, fuel)->Some_0.0 + expand::<W, R, S, L, F, B>(
                rec.added,
                sub,
                <B as SystemBundle<W, R, S, L, F>>::depth(&b),
            )->Some_0.0 + expand::<W, R, S, L, F, B>(c, tc, fuel)->Some_0.0,
            expand::<W, R, S, L, F, B>(c, tc, fuel)->Some_0.1,
        )),
{
    let e = Seq::<LoadRecord<S, L, F, B>>::empty();
    let x = seq![DispatcherItem::<S, L, F, B>::SystemBundle(b)];
    let rest = seq![rec] + sub + tc;
    let t = ta + seq![rec] + sub + tc;
    assert(t =~= ta + rest);
    lemma_expand_frame::<W, R, S, L, F, B>(a, ta, rest, fuel);
    assert(e + rest =~= rest);
    lemma_expand_bundle::<W, R, S, L, F, B>(b, rec, sub, fuel);
    assert(seq![rec] + sub + tc =~= (seq![rec] + sub) + tc);
    lemma_expand_frame::<W, R, S, L, F, B>(x, seq![rec] + sub, tc, fuel);
    assert(e + tc =~= tc);
    lemma_expand_append::<W, R, S, L, F, B>(a, x, t, fuel);
    lemma_expand_append::<W, R, S, L, F, B>(a + x, c, t, fuel);
}

proof fn lemma_compile_append<S, L, F, B>(
    state: (Seq<StepView<S, L, F>>, Seq<S>),
    a: Seq<DispatcherItem<S, L, F, B>>,
    b: Seq<DispatcherItem<S, L, F, B>>,
)
    ensures
        compile_from(state, a + b) == compile_from(compile_from(state, a), b),
    decreases b.len(),
{
    if b.len() == 0 {
        assert(a + b =~= a);
    } else {
        assert((a + b).drop_last() =~= a + b.drop_last());
        assert((a + b).last() == b.last());
        lemma_compile_append(state, a, b.drop_last());
    }
}

/// Every bundle among `items` has a depth below `limit`.
pub open spec fn nested_below<W, R, S, L, F, B: SystemBundle<W, R, S, L, F>>(
    items: Seq<DispatcherItem<S, L, F, B>>,
    limit: nat,
) -> bool {
    forall|i: int|
        0 <= i < items.len() && (#[trigger] items[i]) is SystemBundle
            ==> <B as SystemBundle<W, R, S, L, F>>::depth(&items[i]->SystemBundle_0) < limit
}

/// One more than the largest depth of a bundle among `items`.
pub open spec fn depth_bound<W, R, S, L, F, B: SystemBundle<W, R, S, L, F>>(
    items: Seq<DispatcherItem<S, L, F, B>>,
) -> nat
    decreases items.len(),
{
    if items.len() == 0 {
        0
    } else {
        let rest = depth_bound::<W, R, S, L, F, B>(items.drop_last());
        match items.last() {
            DispatcherItem::SystemBundle(b) => {
                let d = <B as SystemBundle<W, R, S, L, F>>::depth(&b) + 1;
                if d > rest { d } else { rest }
            },
            _ => rest,
        }
    }
}

proof fn lemma_depth_bound<W, R, S, L, F, B: SystemBundle<W, R, S, L, F>>(
    items: Seq<DispatcherItem<S, L, F, B>>,
)
    ensures
        nested_below::<W, R, S, L, F, B>(items, depth_bound::<W, R, S, L, F, B>(items)),
    decreases items.len(),
{
    if items.len() > 0 {
        lemma_depth_bound::<W, R, S, L, F, B>(items.drop_last());
        assert forall|i: int|
            0 <= i < items.len() && (#[trigger] items[i]) is SystemBundle implies
                <B as SystemBundle<W, R, S, L, F>>::depth(&items[i]->SystemBundle_0)
                    < depth_bound::<W, R, S, L, F, B>(items) by {
            if i < items.len() - 1 {
                assert(items[i] == items.drop_last()[i]);
            }
        }
    }
}

proof fn lemma_push_item_well_formed<S, L, F, B>(
    state: (Seq<StepView<S, L, F>>, Seq<S>),
    item: DispatcherItem<S, L, F, B>,
)
    requires
        schedule_well_formed(state.0),
    ensures
        schedule_well_formed(push_item(state, item).0),
{
    let steps = state.0;
    let acc = state.1;
    let out = push_item(state, item).0;
    assert forall|k: int| 0 <= k < out.len() && (#[trigger] out[k]) is Systems implies {
        &&& out[k]->Systems_0.len() > 0
        &&& k + 1 < out.len()
        &&& out[k + 1] is FlushCmdBuffers
    } by {
        if k < steps.len() {
            assert(out[k] == steps[k]);
            assert(out[k + 1] == steps[k + 1]);
        }
    }
}

/// Every prefix of a compilation keeps the schedule well formed.
proof fn lemma_compile_well_formed<S, L, F, B>(
    state: (Seq<StepView<S, L, F>>, Seq<S>),
    items: Seq<DispatcherItem<S, L, F, B>>,
)
    requires
        schedule_well_formed(state.0),
    ensures
        schedule_well_formed(compile_from(state, items).0),
    decreases items.len(),
{
    if items.len() > 0 {
        lemma_compile_well_formed(state, items.drop_last());
        lemma_push_item_well_formed(compile_from(state, items.drop_last()), items.last());
    }
}

/// This structure is an intermediate step for building a [`Dispatcher`]: it
/// holds the steps emitted so far, the pending group of parallel systems and
/// the bundles that were loaded.
pub struct DispatcherData<S, L, F, B> {
    steps: Vec<Step<S, L, F>>,
    accumulator: Vec<S>,
    bundles: Vec<B>,
    loads: Ghost<Seq<LoadRecord<S, L, F, B>>>,
}

impl<S, L, F, B> DispatcherData<S, L, F, B> {
    /// The steps emitted so far.
    pub closed spec fn steps(&self) -> Seq<StepView<S, L, F>> {
        steps_view(self.steps@)
    }

    /// The pending group of parallel systems.
    pub closed spec fn accumulator(&self) -> Seq<S> {
        self.accumulator@
    }

    /// The bundles loaded so far, in the order their load succeeded.
    pub closed spec fn bundles(&self) -> Seq<B> {
        self.bundles@
    }

    /// The loads made so far, in the order they were made.
    pub closed spec fn load_trace(&self) -> Seq<LoadRecord<S, L, F, B>> {
        self.loads@
    }

    /// An empty intermediate state.
    pub fn new() -> (r: Self)
        ensures
            r.steps().len() == 0,
            r.accumulator().len() == 0,
            r.bundles().len() == 0,
            r.load_trace().len() == 0,
    {
        let r = DispatcherData {
            steps: Vec::new(),
            accumulator: Vec::new(),
            bundles: Vec::new(),
            loads: Ghost(Seq::empty()),
        };
        assert(r.steps() =~= Seq::empty());
        r
    }

    fn push_step(&mut self, step: Step<S, L, F>)
        ensures
            final(self).load_trace() == old(self).load_trace(),
            final(self).steps() == old(self).steps().push(step@),
            final(self).accumulator() == old(self).accumulator(),
            final(self).bundles() == old(self).bundles(),
    {
        self.steps.push(step);
        assert(self.steps() =~= old(self).steps().push(step@));
    }

    /// Emits the pending group of parallel systems, if there is one, as an
    /// executor step.
    fn finalize_executor(&mut self)
        ensures
            final(self).load_trace() == old(self).load_trace(),
            final(self).steps() == close_group(old(self).steps(), old(self).accumulator()),
            final(self).accumulator().len() == 0,
            final(self).bundles() == old(self).bundles(),
    {
        if !self.accumulator.is_empty() {
            let mut systems = Vec::new();
            std::mem::swap(&mut self.accumulator, &mut systems);
            self.push_step(Step::Systems(systems));
        }
    }

    /// Emits the pending group, if there is one, followed by a barrier.
    fn finalize_executor_flushed(&mut self)
        ensures
            final(self).load_trace() == old(self).load_trace(),
            final(self).steps() == close_group_flushed(old(self).steps(), old(self).accumulator()),
            final(self).accumulator().len() == 0,
            final(self).bundles() == old(self).bundles(),
    {
        if !self.accumulator.is_empty() {
            self.finalize_executor();
            self.push_step(Step::FlushCmdBuffers);
        }
    }
}

/// A builder which is used to construct a [`Dispatcher`] from systems and
/// system bundles.
pub struct DispatcherBuilder<S, L, F, B> {
    items: Vec<DispatcherItem<S, L, F, B>>,
}

impl<S, L, F, B> Default for DispatcherBuilder<S, L, F, B> {
    fn default() -> (r: Self)
        ensures
            r@.len() == 0,
    {
        DispatcherBuilder::new()
    }
}

impl<S, L, F, B> Default for DispatcherData<S, L, F, B> {
    fn default() -> (r: Self)
        ensures
            r.steps().len() == 0,
            r.accumulator().len() == 0,
            r.bundles().len() == 0,
    {
        DispatcherData::new()
    }
}

impl<S, L, F, B> View for DispatcherBuilder<S, L, F, B> {
    type V = Seq<DispatcherItem<S, L, F, B>>;

    closed spec fn view(&self) -> Seq<DispatcherItem<S, L, F, B>> {
        self.items@
    }
}

impl<S, L, F, B> DispatcherBuilder<S, L, F, B> {
    /// A builder holding no item.
    pub fn new() -> (r: Self)
        ensures
            r@.len() == 0,
    {
        DispatcherBuilder { items: Vec::new() }
    }

    /// Adds a system to the schedule.
    pub fn add_system(&mut self, system: S) -> (r: &mut Self)
        ensures
            r@ == old(self)@.push(DispatcherItem::System(system)),
            *final(self) == *final(r),
    {
        self.items.push(DispatcherItem::System(system));
        self
    }

    /// Waits for executing systems to complete, and then flushes all
    /// outstanding system command buffers.
    pub fn flush(&mut self) -> (r: &mut Self)
        ensures
            r@ == old(self)@.push(DispatcherItem::FlushCmdBuffers),
            *final(self) == *final(r),
    {
        self.items.push(DispatcherItem::FlushCmdBuffers);
        self
    }

    /// Adds systems of the given kinds, in order.
    pub fn add_systems<K: Copy>(&mut self, kinds: &Vec<K>)
        where
            S: BuildSystem<K>,
        ensures
            final(self)@.subrange(0, old(self)@.len() as int) == old(self)@,
            systems_of_kinds(final(self)@, old(self)@.len() as int, kinds@),
    {
        let mut i: usize = 0;
        while i < kinds.len()
            invariant
                i <= kinds@.len(),
                self@.subrange(0, old(self)@.len() as int) == old(self)@,
                systems_of_kinds(self@, old(self)@.len() as int, kinds@.take(i as int)),
            decreases kinds@.len() - i,
        {
            let ghost before = self@;
            self.items.push(DispatcherItem::System(S::build_system(kinds[i])));
            assert(self@.subrange(0, old(self)@.len() as int) =~= before.subrange(
                0,
                old(self)@.len() as int,
            ));
            i = i + 1;
        }
        assert(kinds@.take(kinds@.len() as int) =~= kinds@);
    }

    /// Adds a thread local function to the schedule. It is run on the main thread.
    pub fn add_thread_local_fn(&mut self, f: F) -> (r: &mut Self)
        ensures
            r@ == old(self)@.push(DispatcherItem::ThreadLocalFn(f)),
            *final(self) == *final(r),
    {
        self.items.push(DispatcherItem::ThreadLocalFn(f));
        self
    }

    /// Adds a thread local system to the schedule. It is run on the main thread.
    pub fn add_thread_local(&mut self, system: L) -> (r: &mut Self)
        ensures
            r@ == old(self)@.push(DispatcherItem::ThreadLocalSystem(system)),
            *final(self) == *final(r),
    {
        self.items.push(DispatcherItem::ThreadLocalSystem(system));
        self
    }

    /// Adds a bundle to the dispatcher. It is loaded when the dispatcher is built.
    pub fn add_bundle(&mut self, bundle: B) -> (r: &mut Self)
        ensures
            r@ == old(self)@.push(DispatcherItem::SystemBundle(bundle)),
            *final(self) == *final(r),
    {
        self.items.push(DispatcherItem::SystemBundle(bundle));
        self
    }

    /// Evaluates all system bundles (recursively). The resulting steps and the
    /// loaded bundles are put into `data`, and each load made is recorded in
    /// its trace, depth first. Each bundle is loaded with a fresh builder, and
    /// its own items are compiled at its position; the bundle is kept once its
    /// load succeeded. The first failing load ends the evaluation, and its
    /// error is returned.
    pub fn load<W, R>(
        &mut self,
        world: &mut W,
        resources: &mut R,
        data: &mut DispatcherData<S, L, F, B>,
    ) -> (r: Result<(), Error>)
        where
            B: SystemBundle<W, R, S, L, F>,
        requires
            schedule_well_formed(old(data).steps()),
        ensures
            schedule_well_formed(final(data).steps()),
            r is Ok ==> final(self)@.len() == 0,
            r is Ok && has_no_bundle(old(self)@) ==> {
                &&& (final(data).steps(), final(data).accumulator()) == compile_from(
                    (old(data).steps(), old(data).accumulator()),
                    old(self)@,
                )
                &&& final(data).bundles() == old(data).bundles()
            },
            r is Ok && old(self)@.len() > 0 && old(self)@.last() is FlushCmdBuffers
                ==> final(data).accumulator().len() == 0,
            has_no_bundle(old(self)@) ==> r is Ok,
            old(data).bundles().len() <= final(data).bundles().len(),
            final(data).bundles().subrange(0, old(data).bundles().len() as int) == old(data).bundles(),
            old(data).load_trace().len() <= final(data).load_trace().len(),
            final(data).load_trace().subrange(0, old(data).load_trace().len() as int) == old(data).load_trace(),
            loads_described::<W, R, S, L, F, B>(trace_since(final(data).load_trace(), old(data).load_trace().len())),
            r is Ok ==> {
                let t = trace_since(final(data).load_trace(), old(data).load_trace().len());
                &&& loads_succeeded(t)
                &&& final(data).bundles() == old(data).bundles() + loaded_bundles(t)
                &&& compiled_with_loads::<W, R, S, L, F, B>(
                    old(self)@,
                    t,
                    depth_bound::<W, R, S, L, F, B>(old(self)@),
                    (old(data).steps(), old(data).accumulator()),
                    (final(data).steps(), final(data).accumulator()),
                )
            },
            r is Err ==> {
                let t = trace_since(final(data).load_trace(), old(data).load_trace().len());
                &&& t.len() > 0
                &&& t.last().result == r
                &&& loads_succeeded(t.drop_last())
            },
            r is Ok && old(self)@.len() > 0 && old(self)@.last() is FlushCmdBuffers ==> {
                &&& final(data).steps().len() > 0
                &&& final(data).steps().last() is FlushCmdBuffers
            },
    {
        proof {
            lemma_depth_bound::<W, R, S, L, F, B>(self@);
        }
        self.load_nested(world, resources, data, Ghost(depth_bound::<W, R, S, L, F, B>(self@)))
    }

    #[verifier::rlimit(100)]
    fn load_nested<W, R>(
        &mut self,
        world: &mut W,
        resources: &mut R,
        data: &mut DispatcherData<S, L, F, B>,
        Ghost(limit): Ghost<nat>,
    ) -> (r: Result<(), Error>)
        where
            B: SystemBundle<W, R, S, L, F>,
        requires
            schedule_well_formed(old(data).steps()),
            nested_below::<W, R, S, L, F, B>(old(self)@, limit),
        ensures
            schedule_well_formed(final(data).steps()),
            r is Ok ==> final(self)@.len() == 0,
            r is Ok && has_no_bundle(old(self)@) ==> {
                &&& (final(data).steps(), final(data).accumulator()) == compile_from(
                    (old(data).steps(), old(data).accumulator()),
                    old(self)@,
                )
                &&& final(data).bundles() == old(data).bundles()
            },
            r is Ok && old(self)@.len() > 0 && old(self)@.last() is FlushCmdBuffers
                ==> final(data).accumulator().len() == 0,
            has_no_bundle(old(self)@) ==> r is Ok,
            old(data).bundles().len() <= final(data).bundles().len(),
            final(data).bundles().subrange(0, old(data).bundles().len() as int) == old(data).bundles(),
            old(data).load_trace().len() <= final(data).load_trace().len(),
            final(data).load_trace().subrange(0, old(data).load_trace().len() as int) == old(data).load_trace(),
            loads_described::<W, R, S, L, F, B>(trace_since(final(data).load_trace(), old(data).load_trace().len())),
            r is Ok ==> {
                let t = trace_since(final(data).load_trace(), old(data).load_trace().len());
                &&& loads_succeeded(t)
                &&& final(data).bundles() == old(data).bundles() + loaded_bundles(t)
                &&& compiled_with_loads::<W, R, S, L, F, B>(
                    old(self)@,
                    t,
                    limit,
                    (old(data).steps(), old(data).accumulator()),
                    (final(data).steps(), final(data).accumulator()),
                )
            },
            r is Err ==> {
                let t = trace_since(final(data).load_trace(), old(data).load_trace().len());
                &&& t.len() > 0
                &&& t.last().result == r
                &&& loads_succeeded(t.drop_last())
            },
            r is Ok && old(self)@.len() > 0 && old(self)@.last() is FlushCmdBuffers ==> {
                &&& final(data).steps().len() > 0
                &&& final(data).steps().last() is FlushCmdBuffers
            },
        decreases limit,
    {
        let ghost items = self@;
        let ghost start = (data.steps(), data.accumulator());
        let ghost bundles0 = data.bundles();
        let ghost trace0 = data.load_trace();
        proof {
            assert(trace_since(data.load_trace(), trace0.len()) =~= Seq::empty());
            assert(bundles0 + loaded_bundles(Seq::<LoadRecord<S, L, F, B>>::empty()) =~= bundles0);
            assert(items.subrange(0, 0) =~= Seq::<DispatcherItem<S, L, F, B>>::empty());
            assert(compile_from(start, Seq::<DispatcherItem<S, L, F, B>>::empty()) == start);
        }
        let n = self.items.len();
        let mut k: usize = 0;
        while k < n
            invariant
                0 <= k <= n,
                n == items.len(),
                items == old(self)@,
                self@ == items.subrange(k as int, n as int),
                nested_below::<W, R, S, L, F, B>(items, limit),
                schedule_well_formed(data.steps()),
                has_no_bundle(items) ==> {
                    &&& (data.steps(), data.accumulator()) == compile_from(
                        start,
                        items.subrange(0, k as int),
                    )
                    &&& data.bundles() == bundles0
                },
                k > 0 && items[k - 1] is FlushCmdBuffers ==> data.accumulator().len() == 0,
                bundles0 == old(data).bundles(),
                bundles0.len() <= data.bundles().len(),
                data.bundles().subrange(0, bundles0.len() as int) == bundles0,
                trace0 == old(data).load_trace(),
                trace0.len() <= data.load_trace().len(),
                data.load_trace().subrange(0, trace0.len() as int) == trace0,
                loads_described::<W, R, S, L, F, B>(trace_since(data.load_trace(), trace0.len())),
                loads_succeeded(trace_since(data.load_trace(), trace0.len())),
                data.bundles() == bundles0 + loaded_bundles(trace_since(data.load_trace(), trace0.len())),
                compiled_with_loads::<W, R, S, L, F, B>(
                    items.subrange(0, k as int),
                    trace_since(data.load_trace(), trace0.len()),
                    limit,
                    start,
                    (data.steps(), data.accumulator()),
                ),
                k > 0 && items[k - 1] is FlushCmdBuffers ==> {
                    &&& data.steps().len() > 0
                    &&& data.steps().last() is FlushCmdBuffers
                },
            decreases n - k,
        {
            let ghost before = (data.steps(), data.accumulator());
            let ghost tk = trace_since(data.load_trace(), trace0.len());
            let ghost trace_k = data.load_trace();
            let ghost fk = expand::<W, R, S, L, F, B>(items.subrange(0, k as int), tk, limit)->Some_0.0;
            let item = self.items.remove(0);
            assert(item == items[k as int]);
            proof {
                lemma_push_item_well_formed(before, item);
            }
            match item {
                DispatcherItem::System(s) => {
                    data.accumulator.push(s);
                },
                DispatcherItem::FlushCmdBuffers => {
                    data.finalize_executor();
                    data.push_step(Step::FlushCmdBuffers);
                },
                DispatcherItem::ThreadLocalFn(f) => {
                    data.finalize_executor_flushed();
                    data.push_step(Step::ThreadLocalFn(f));
                },
                DispatcherItem::ThreadLocalSystem(l) => {
                    data.finalize_executor_flushed();
                    data.push_step(Step::ThreadLocalSystem(l));
                },
                DispatcherItem::SystemBundle(mut bundle) => {
                    let ghost d = bundle.depth();
                    let ghost b0 = bundle;
                    assert(is_bundle(items[k as int]));
                    assert(!has_no_bundle(items));
                    let mut builder = DispatcherBuilder::new();
                    let result = bundle.load(world, resources, &mut builder);
                    let ghost res = result;
                    let ghost rec = LoadRecord { before: b0, after: bundle, added: builder@, result: res };
                    data.loads = Ghost(data.loads@.push(rec));
                    proof {
                        assert(trace_since(data.load_trace(), trace0.len()) =~= tk.push(rec));
                        assert(data.load_trace().subrange(0, trace0.len() as int) =~= trace_k.subrange(
                            0,
                            trace0.len() as int,
                        ));
                        assert(tk.push(rec).drop_last() =~= tk);
                    }
                    if let Err(e) = result {
                        return Err(e);
                    }
                    assert(res == Ok::<(), Error>(())) by {
                        let u: () = res->Ok_0;
                        assert(res == Ok::<(), Error>(u));
                    }
                    let ghost b1 = data.bundles();
                    data.bundles.push(bundle);
                    assert(data.bundles().subrange(0, bundles0.len() as int) =~= b1.subrange(
                        0,
                        bundles0.len() as int,
                    ));
                    proof {
                        assert(loaded_bundles(tk.push(rec)) =~= loaded_bundles(tk).push(bundle));
                        assert(data.bundles() =~= bundles0 + loaded_bundles(tk.push(rec)));
                    }
                    let ghost b2 = data.bundles();
                    let ghost trace_m = data.load_trace();
                    let ghost mid = (data.steps(), data.accumulator());
                    let sub = builder.load_nested(world, resources, data, Ghost(d));
                    let ghost tsub = trace_since(data.load_trace(), trace_m.len());
                    proof {
                        assert(data.load_trace() =~= trace_m + tsub);
                        assert(trace_m =~= trace0 + tk.push(rec));
                        assert(trace_since(data.load_trace(), trace0.len()) =~= tk.push(rec) + tsub);
                        assert(data.load_trace().subrange(0, trace0.len() as int) =~= trace_m.subrange(
                            0,
                            trace0.len() as int,
                        ));
                        assert forall|i: int| 0 <= i < (tk.push(rec) + tsub).len() implies B::loads(
                            (#[trigger] (tk.push(rec) + tsub)[i]).before,
                            (tk.push(rec) + tsub)[i].after,
                            (tk.push(rec) + tsub)[i].added,
                            (tk.push(rec) + tsub)[i].result,
                        ) by {
                            if i < tk.len() + 1 {
                                assert((tk.push(rec) + tsub)[i] == tk.push(rec)[i]);
                            } else {
                                assert((tk.push(rec) + tsub)[i] == tsub[i - tk.len() - 1]);
                            }
                        }
                    }
                    if let Err(e) = sub {
                        proof {
                            assert((tk.push(rec) + tsub).drop_last() =~= tk.push(rec) + tsub.drop_last());
                            assert forall|i: int| 0 <= i < (tk.push(rec) + tsub).drop_last().len() implies (#[trigger] (tk.push(rec) + tsub).drop_last()[i]).result is Ok by {
                                if i < tk.len() + 1 {
                                    assert((tk.push(rec) + tsub).drop_last()[i] == tk.push(rec)[i]);
                                } else {
                                    assert((tk.push(rec) + tsub).drop_last()[i] == tsub.drop_last()[i - tk.len() - 1]);
                                }
                            }
                            assert(data.bundles().subrange(0, bundles0.len() as int)
                                =~= data.bundles().subrange(0, b2.len() as int).subrange(
                                0,
                                bundles0.len() as int,
                            ));
                        }
                        return Err(e);
                    }
                    proof {
                        assert(data.bundles().subrange(0, bundles0.len() as int) =~= data.bundles().subrange(
                            0,
                            b2.len() as int,
                        ).subrange(0, bundles0.len() as int));
                        assert forall|i: int| 0 <= i < (tk.push(rec) + tsub).len() implies (#[trigger] (tk.push(rec) + tsub)[i]).result is Ok by {
                            if i < tk.len() + 1 {
                                assert((tk.push(rec) + tsub)[i] == tk.push(rec)[i]);
                            } else {
                                assert((tk.push(rec) + tsub)[i] == tsub[i - tk.len() - 1]);
                            }
                        }
                        assert(loaded_bundles(tk.push(rec) + tsub) =~= loaded_bundles(tk.push(rec)) + loaded_bundles(tsub));
                        assert(data.bundles() =~= bundles0 + loaded_bundles(tk.push(rec) + tsub));
                        // expansion
                        let pre = items.subrange(0, k as int);
                        let more = seq![rec] + tsub;
                        assert(tk.push(rec) + tsub =~= tk + more);
                        lemma_expand_frame::<W, R, S, L, F, B>(pre, tk, more, limit);
                        assert(expand::<W, R, S, L, F, B>(pre, tk, limit)->Some_0.1.len() == 0);
                        assert(Seq::<LoadRecord<S, L, F, B>>::empty() + more =~= more);
                        assert(nested_below::<W, R, S, L, F, B>(items, limit));
                        assert(items[k as int] is SystemBundle);
                        lemma_expand_bundle::<W, R, S, L, F, B>(b0, rec, tsub, limit);
                        lemma_expand_append::<W, R, S, L, F, B>(pre, seq![items[k as int]], tk + more, limit);
                        assert(pre + seq![items[k as int]] =~= items.subrange(0, k + 1));
                        let fsub = expand::<W, R, S, L, F, B>(rec.added, tsub, d)->Some_0.0;
                        lemma_compile_append(start, fk, fsub);
                        assert(items[k as int] == DispatcherItem::<S, L, F, B>::SystemBundle(b0));
                        assert(mid == before);
                        assert((data.steps(), data.accumulator()) == compile_from(mid, fsub));
                        assert(expand::<W, R, S, L, F, B>(pre, tk + more, limit)->Some_0.1 == more);
                        assert(expand::<W, R, S, L, F, B>(items.subrange(0, k + 1), tk + more, limit) == Some((fk + fsub, Seq::<LoadRecord<S, L, F, B>>::empty())));
                    }
                },
            }
            proof {
                assert(items.subrange(0, k + 1).drop_last() =~= items.subrange(0, k as int));
                assert(items.subrange(0, k + 1).last() == items[k as int]);
                if has_no_bundle(items) {
                    assert(!is_bundle(items[k as int]));
                }
                if !(items[k as int] is SystemBundle) {
                    let pre = items.subrange(0, k as int);
                    let x = items[k as int];
                    assert(trace_since(data.load_trace(), trace0.len()) == tk);
                    lemma_expand_plain::<W, R, S, L, F, B>(x, expand::<W, R, S, L, F, B>(pre, tk, limit)->Some_0.1, limit);
                    lemma_expand_append::<W, R, S, L, F, B>(pre, seq![x], tk, limit);
                    assert(pre + seq![x] =~= items.subrange(0, k + 1));
                    assert(fk + seq![x] =~= fk.push(x));
                    assert((fk.push(x)).drop_last() =~= fk);
                    assert(compile_from(start, fk.push(x)) == push_item(compile_from(start, fk), x));
                    assert(before == compile_from(start, fk));
                    assert((data.steps(), data.accumulator()) == push_item(before, x));
                    assert(expand::<W, R, S, L, F, B>(items.subrange(0, k + 1), tk, limit) == Some((fk.push(x), Seq::<LoadRecord<S, L, F, B>>::empty())));
                }
            }
            k = k + 1;
            assert(self@ =~= items.subrange(k as int, n as int));
        }
        proof {
            assert(items.subrange(0, n as int) =~= items);
        }
        Ok(())
    }

    /// Finalizes the builder into a [`Dispatcher`]: an implicit barrier is
    /// added at the end, and all bundles are loaded. Without bundles, the
    /// schedule is exactly the compilation of the items.
    #[verifier::rlimit(40)]
    pub fn build<W, R>(
        &mut self,
        world: &mut W,
        resources: &mut R,
    ) -> (r: Result<Dispatcher<S, L, F, B>, Error>)
        where
            B: SystemBundle<W, R, S, L, F>,
        ensures
            r is Ok ==> r->Ok_0.well_formed() && r->Ok_0.unloaded() == 0,
            r is Ok ==> final(self)@.len() == 0,
            r is Ok && has_no_bundle(old(self)@) ==> {
                &&& r->Ok_0.schedule() == schedule_of(old(self)@)
                &&& r->Ok_0.bundles().len() == 0
            },
            has_no_bundle(old(self)@) ==> r is Ok,
            r is Ok ==> {
                let d = r->Ok_0;
                let items = old(self)@.push(DispatcherItem::FlushCmdBuffers);
                &&& loads_succeeded(d.load_trace())
                &&& loads_described::<W, R, S, L, F, B>(d.load_trace())
                &&& d.bundles() == loaded_bundles(d.load_trace())
                &&& compiled_with_loads::<W, R, S, L, F, B>(
                    items,
                    d.load_trace(),
                    depth_bound::<W, R, S, L, F, B>(items),
                    (Seq::empty(), Seq::empty()),
                    (d.schedule(), Seq::empty()),
                )
                &&& d.schedule().len() > 0
                &&& d.schedule().last() is FlushCmdBuffers
            },
    {
        let mut data = DispatcherData::new();
        let ghost items = self@;
        self.flush();
        assert(data.steps() =~= Seq::<StepView<S, L, F>>::empty());
        assert(data.accumulator() =~= Seq::<S>::empty());
        assert(self@ == items.push(DispatcherItem::FlushCmdBuffers));
        assert(has_no_bundle(items) ==> has_no_bundle(self@)) by {
            if has_no_bundle(items) {
                assert forall|i: int| 0 <= i < self@.len() implies !is_bundle(#[trigger] self@[i]) by {
                    if i < items.len() {
                        assert(self@[i] == items[i]);
                    }
                }
            }
        }
        match self.load(world, resources, &mut data) {
            Ok(()) => {},
            Err(e) => {
                return Err(e);
            },
        }
        assert(data.accumulator().len() == 0);
        assert(has_no_bundle(items) ==> data.steps() == schedule_of(items));
        proof {
            assert(trace_since(data.load_trace(), 0) =~= data.load_trace());
            assert(data.accumulator() =~= Seq::<S>::empty());
            assert(loads_succeeded(data.load_trace()));
            assert(compiled_with_loads::<W, R, S, L, F, B>(
                items.push(DispatcherItem::FlushCmdBuffers),
                data.load_trace(),
                depth_bound::<W, R, S, L, F, B>(items.push(DispatcherItem::FlushCmdBuffers)),
                (Seq::empty(), Seq::empty()),
                (data.steps(), Seq::empty()),
            ));
            assert(Seq::<B>::empty() + loaded_bundles(data.load_trace()) =~= loaded_bundles(data.load_trace()));
        }
        Ok(Dispatcher { schedule: data.steps, bundles: data.bundles, unloaded: 0, loads: data.loads })
    }
}

/// Dispatcher is created by [`DispatcherBuilder`] and holds the schedule used
/// to execute all systems, and the loaded bundles for their cleanup.
pub struct Dispatcher<S, L, F, B> {
    bundles: Vec<B>,
    schedule: Vec<Step<S, L, F>>,
    unloaded: usize,
    loads: Ghost<Seq<LoadRecord<S, L, F, B>>>,
}

impl<S, L, F, B> Dispatcher<S, L, F, B> {
    /// The schedule.
    pub closed spec fn schedule(&self) -> Seq<StepView<S, L, F>> {
        steps_view(self.schedule@)
    }

    /// The loaded bundles, in the order their load succeeded.
    pub closed spec fn bundles(&self) -> Seq<B> {
        self.bundles@
    }

    /// The loads that building made, in the order they were made.
    pub closed spec fn load_trace(&self) -> Seq<LoadRecord<S, L, F, B>> {
        self.loads@
    }

    /// How many bundles, from the first, have been unloaded.
    pub closed spec fn unloaded(&self) -> nat {
        self.unloaded as nat
    }

    /// The steps of the schedule, in order.
    pub fn steps(&self) -> (r: &Vec<Step<S, L, F>>)
        ensures
            steps_view(r@) == self.schedule(),
    {
        &self.schedule
    }

    /// The loaded bundles, in the order their load succeeded.
    pub fn loaded_bundles(&self) -> (r: &Vec<B>)
        ensures
            r@ == self.bundles(),
    {
        &self.bundles
    }

    /// How many bundles, from the first, have been unloaded.
    pub fn unloaded_count(&self) -> (r: usize)
        ensures
            r == self.unloaded(),
    {
        self.unloaded
    }

    pub open spec fn well_formed(&self) -> bool {
        &&& schedule_well_formed(self.schedule())
        &&& self.unloaded() <= self.bundles().len()
    }

    /// Executes the steps of the schedule in order. The systems of an
    /// executor group run one after the other: they are independent by
    /// construction, so any order is a valid one. A barrier applies the
    /// command buffers of the group before it.
    #[verifier::rlimit(60)]
    pub fn execute<W, R>(&mut self, world: &mut W, resources: &mut R)
        where
            S: Runnable<W, R>,
            L: Runnable<W, R>,
            F: Runnable<W, R>,
        requires
            old(self).well_formed(),
        ensures
            final(self).well_formed(),
            final(self).schedule().len() == old(self).schedule().len(),
            forall|k: int|
                0 <= k < old(self).schedule().len() ==> step_executed::<W, R, S, L, F>(
                    #[trigger] old(self).schedule()[k],
                    final(self).schedule()[k],
                ),
            shapes(final(self).schedule()) == shapes(old(self).schedule()),
            final(self).bundles() == old(self).bundles(),
            final(self).unloaded() == old(self).unloaded(),
    {
        let ghost orig = self.schedule();
        let mut pending: Vec<Step<S, L, F>> = Vec::new();
        std::mem::swap(&mut self.schedule, &mut pending);
        let mut done: Vec<Step<S, L, F>> = Vec::new();
        proof {
            assert(steps_view(done@) =~= Seq::empty());
            assert(steps_view(pending@) =~= orig.subrange(0, orig.len() as int));
        }
        while pending.len() > 0
            invariant
                schedule_well_formed(orig),
                steps_view(pending@) == orig.subrange(done@.len() as int, orig.len() as int),
                done@.len() <= orig.len(),
                forall|k: int|
                    0 <= k < done@.len() ==> step_executing::<W, R, S, L, F>(
                        k,
                        done@.len() - 1,
                        #[trigger] orig[k],
                        done@[k]@,
                    ),
            decreases pending.len(),
        {
            let ghost d = done@.len() as int;
            let ghost done0 = done@;
            let ghost pending0 = pending@;
            let step = pending.remove(0);
            proof {
                assert(steps_view(pending0).len() == pending0.len());
                assert(steps_view(pending0)[0] == pending0[0]@);
                assert(d < orig.len());
                assert(orig.subrange(d, orig.len() as int)[0] == orig[d]);
                assert(step@ == orig[d]);
                assert(steps_view(pending@) =~= steps_view(pending0).drop_first());
                assert(steps_view(pending@) =~= orig.subrange(d + 1, orig.len() as int));
            }
            match step {
                Step::Systems(mut group) => {
                    let ghost g0 = group@;
                    run_group(&mut group, world, resources);
                    done.push(Step::Systems(group));
                    proof {
                        if d > 0 {
                            assert(!(orig[d - 1] is Systems));
                            assert(done@[d - 1] == done0[d - 1]);
                        }
                        assert forall|k: int| 0 <= k < done@.len() implies step_executing::<W, R, S, L, F>(
                            k,
                            done@.len() - 1,
                            #[trigger] orig[k],
                            done@[k]@,
                        ) by {
                            if k < d {
                                assert(done@[k] == done0[k]);
                            }
                        }
                    }
                },
                Step::FlushCmdBuffers => {
                    if let Some(prev) = done.pop() {
                        let ghost pv = prev;
                        proof {
                            assert(pv == done0[d - 1]);
                            assert(step_executing::<W, R, S, L, F>(d - 1, d - 1, orig[d - 1], pv@));
                        }
                        match prev {
                            Step::Systems(mut group) => {
                                let ghost g0 = group@;
                                flush_group(&mut group, world, resources);
                                proof {
                                    assert(pv@ == StepView::<S, L, F>::Systems(g0));
                                    assert(orig[d - 1] is Systems);
                                    let before = orig[d - 1]->Systems_0;
                                    assert(group_ran::<W, R, S>(before, g0));
                                    assert(group_ran_then_flushed::<W, R, S>(before, group@));
                                }
                                done.push(Step::Systems(group));
                                assert(done@[d - 1]@ == StepView::<S, L, F>::Systems(group@));
                                assert(step_executed::<W, R, S, L, F>(orig[d - 1], done@[d - 1]@));
                            },
                            other => {
                                done.push(other);
                                assert(done@[d - 1] == done0[d - 1]);
                                assert(step_executing::<W, R, S, L, F>(d - 1, d - 1, orig[d - 1], done0[d - 1]@));
                                assert(step_executed::<W, R, S, L, F>(orig[d - 1], done@[d - 1]@));
                            },
                        }
                    }
                    let ghost mid = done@;
                    done.push(Step::FlushCmdBuffers);
                    proof {
                        assert forall|k: int| 0 <= k < done@.len() implies step_executing::<W, R, S, L, F>(
                            k,
                            done@.len() - 1,
                            #[trigger] orig[k],
                            done@[k]@,
                        ) by {
                            if k < d - 1 {
                                assert(done@[k] == done0[k]);
                            } else if k == d - 1 {
                                assert(done@[k] == mid[k]);
                            }
                        }
                    }
                },
                Step::ThreadLocalFn(mut f) => {
                    f.run(world, resources);
                    done.push(Step::ThreadLocalFn(f));
                    proof {
                        if d > 0 {
                            assert(!(orig[d - 1] is Systems));
                        }
                        assert forall|k: int| 0 <= k < done@.len() implies step_executing::<W, R, S, L, F>(
                            k,
                            done@.len() - 1,
                            #[trigger] orig[k],
                            done@[k]@,
                        ) by {
                            if k < d {
                                assert(done@[k] == done0[k]);
                            }
                        }
                    }
                },
                Step::ThreadLocalSystem(mut l) => {
                    l.run(world, resources);
                    done.push(Step::ThreadLocalSystem(l));
                    proof {
                        if d > 0 {
                            assert(!(orig[d - 1] is Systems));
                        }
                        assert forall|k: int| 0 <= k < done@.len() implies step_executing::<W, R, S, L, F>(
                            k,
                            done@.len() - 1,
                            #[trigger] orig[k],
                            done@[k]@,
                        ) by {
                            if k < d {
                                assert(done@[k] == done0[k]);
                            }
                        }
                    }
                },
            }
        }
        self.schedule = done;
        proof {
            let n = orig.len();
            assert(done@.len() == n);
            if n > 0 {
                assert(!(orig[n - 1] is Systems));
            }
            assert forall|k: int| 0 <= k < n implies step_executed::<W, R, S, L, F>(
                #[trigger] orig[k],
                self.schedule()[k],
            ) by {
                assert(step_executing::<W, R, S, L, F>(k, n - 1, orig[k], done@[k]@));
            }
            lemma_executed_shapes::<W, R, S, L, F>(orig, self.schedule());
            lemma_same_shapes_well_formed(orig, self.schedule());
        }
    }

    /// Unloads the bundles by calling their `unload`, in the order their load
    /// succeeded, starting after those already unloaded and stopping at the
    /// first failure, whose error is returned. Each bundle is unloaded at most
    /// once: a bundle that was unloaded is not touched again.
    pub fn unload<W, R>(&mut self, world: &mut W, resources: &mut R) -> (r: Result<(), Error>)
        where
            B: SystemBundle<W, R, S, L, F>,
        requires
            old(self).well_formed(),
        ensures
            final(self).well_formed(),
            final(self).schedule() == old(self).schedule(),
            final(self).bundles().len() == old(self).bundles().len(),
            r is Ok ==> final(self).unloaded() == final(self).bundles().len(),
            r is Err ==> old(self).unloaded() <= final(self).unloaded() < final(self).bundles().len(),
            forall|i: int|
                old(self).unloaded() <= i < final(self).unloaded() ==> B::unloads(
                    #[trigger] old(self).bundles()[i],
                    final(self).bundles()[i],
                    Ok(()),
                ),
            r is Err ==> B::unloads(
                old(self).bundles()[final(self).unloaded() as int],
                final(self).bundles()[final(self).unloaded() as int],
                r,
            ),
            forall|i: int|
                0 <= i < old(self).unloaded() || final(self).unloaded() < i < old(self).bundles().len()
                    ==> #[trigger] final(self).bundles()[i] == old(self).bundles()[i],
    {
        let n = self.bundles.len();
        while self.unloaded < n
            invariant
                n == self.bundles@.len() == old(self).bundles@.len(),
                old(self).unloaded <= self.unloaded <= n,
                self.schedule == old(self).schedule,
                schedule_well_formed(old(self).schedule()),
                forall|i: int|
                    0 <= i < old(self).unloaded || self.unloaded <= i < n
                        ==> #[trigger] self.bundles@[i] == old(self).bundles@[i],
                forall|i: int|
                    old(self).unloaded <= i < self.unloaded ==> B::unloads(
                        #[trigger] old(self).bundles@[i],
                        self.bundles@[i],
                        Ok(()),
                    ),
            decreases n - self.unloaded,
        {
            let i = self.unloaded;
            let ghost prev = self.bundles@;
            let mut bundle = self.bundles.remove(i);
            let ghost before = bundle;
            let result = bundle.unload(world, resources);
            self.bundles.insert(i, bundle);
            assert(self.bundles@[i as int] == bundle);
            assert(old(self).bundles@[i as int] == before);
            assert forall|j: int| 0 <= j < n && j != i implies self.bundles@[j] == prev[j] by {}
            assert(self.bundles@.len() == n);
            let ghost res = result;
            if let Err(e) = result {
                return Err(e);
            }
            assert(res == Ok::<(), Error>(())) by {
                assert(res is Ok);
                let u: () = res->Ok_0;
                assert(u == ());
                assert(res == Ok::<(), Error>(u));
            }
            self.unloaded = i + 1;
        }
        Ok(())
    }
}

/// A unit of work, as added to a builder or as run by a schedule.
pub enum WorkUnit<S, L, F> {
    System(S),
    ThreadLocalFn(F),
    ThreadLocalSystem(L),
}

pub open spec fn system_units<S, L, F>(group: Seq<S>) -> Seq<WorkUnit<S, L, F>> {
    group.map_values(|s: S| WorkUnit::<S, L, F>::System(s))
}

/// The units of work of one step, in order; a barrier has none.
pub open spec fn step_units<S, L, F>(step: StepView<S, L, F>) -> Seq<WorkUnit<S, L, F>> {
    match step {
        StepView::Systems(g) => system_units(g),
        StepView::FlushCmdBuffers => Seq::empty(),
        StepView::ThreadLocalFn(f) => seq![WorkUnit::ThreadLocalFn(f)],
        StepView::ThreadLocalSystem(l) => seq![WorkUnit::ThreadLocalSystem(l)],
    }
}

/// The units of work of a schedule, in the order in which it runs them.
pub open spec fn schedule_units<S, L, F>(steps: Seq<StepView<S, L, F>>) -> Seq<WorkUnit<S, L, F>>
    decreases steps.len(),
{
    if steps.len() == 0 {
        Seq::empty()
    } else {
        schedule_units(steps.drop_last()) + step_units(steps.last())
    }
}

/// The units of work of one item; a barrier and a bundle have none.
pub open spec fn item_units<S, L, F, B>(item: DispatcherItem<S, L, F, B>) -> Seq<WorkUnit<S, L, F>> {
    match item {
        DispatcherItem::System(s) => seq![WorkUnit::System(s)],
        DispatcherItem::ThreadLocalFn(f) => seq![WorkUnit::ThreadLocalFn(f)],
        DispatcherItem::ThreadLocalSystem(l) => seq![WorkUnit::ThreadLocalSystem(l)],
        _ => Seq::empty(),
    }
}

/// The units of work of a sequence of items, in insertion order.
pub open spec fn items_units<S, L, F, B>(items: Seq<DispatcherItem<S, L, F, B>>) -> Seq<WorkUnit<S, L, F>>
    decreases items.len(),
{
    if items.len() == 0 {
        Seq::empty()
    } else {
        items_units(items.drop_last()) + item_units(items.last())
    }
}

proof fn lemma_schedule_units_push<S, L, F>(steps: Seq<StepView<S, L, F>>, x: StepView<S, L, F>)
    ensures
        schedule_units(steps.push(x)) == schedule_units(steps) + step_units(x),
{
    assert(steps.push(x).drop_last() =~= steps);
}

proof fn lemma_close_group_units<S, L, F>(steps: Seq<StepView<S, L, F>>, acc: Seq<S>)
    ensures
        schedule_units(close_group(steps, acc)) == schedule_units(steps) + system_units::<S, L, F>(acc),
        schedule_units(close_group_flushed(steps, acc)) == schedule_units(steps) + system_units::<S, L, F>(acc),
{
    if acc.len() == 0 {
        assert(system_units::<S, L, F>(acc) =~= Seq::empty());
        assert(schedule_units(steps) + system_units::<S, L, F>(acc) =~= schedule_units(steps));
    } else {
        lemma_schedule_units_push(steps, StepView::Systems(acc));
        lemma_schedule_units_push(steps.push(StepView::Systems(acc)), StepView::FlushCmdBuffers);
        assert(schedule_units(steps.push(StepView::Systems(acc)).push(StepView::FlushCmdBuffers))
            =~= schedule_units(steps.push(StepView::Systems(acc))));
    }
}

/// Compiling keeps every unit of work, in order: the units of the emitted
/// steps followed by the pending group are those of the start followed by
/// the units of the items.
proof fn lemma_compile_units<S, L, F, B>(
    state: (Seq<StepView<S, L, F>>, Seq<S>),
    items: Seq<DispatcherItem<S, L, F, B>>,
)
    ensures
        schedule_units(compile_from(state, items).0) + system_units::<S, L, F>(compile_from(state, items).1)
            == schedule_units(state.0) + system_units::<S, L, F>(state.1) + items_units(items),
    decreases items.len(),
{
    if items.len() == 0 {
        assert(schedule_units(state.0) + system_units::<S, L, F>(state.1) + items_units(items)
            =~= schedule_units(state.0) + system_units::<S, L, F>(state.1));
    } else {
        let prev = compile_from(state, items.drop_last());
        lemma_compile_units(state, items.drop_last());
        let steps = prev.0;
        let acc = prev.1;
        lemma_close_group_units(steps, acc);
        let empty_units = system_units::<S, L, F>(Seq::<S>::empty());
        assert(empty_units =~= Seq::empty());
        match items.last() {
            DispatcherItem::System(s) => {
                assert(system_units::<S, L, F>(acc.push(s)) =~= system_units::<S, L, F>(acc).push(
                    WorkUnit::System(s),
                ));
            },
            DispatcherItem::FlushCmdBuffers => {
                lemma_schedule_units_push(close_group(steps, acc), StepView::FlushCmdBuffers);
            },
            DispatcherItem::ThreadLocalFn(f) => {
                lemma_schedule_units_push(close_group_flushed(steps, acc), StepView::ThreadLocalFn(f));
            },
            DispatcherItem::ThreadLocalSystem(l) => {
                lemma_schedule_units_push(
                    close_group_flushed(steps, acc),
                    StepView::ThreadLocalSystem(l),
                );
            },
            DispatcherItem::SystemBundle(_) => {},
        }
        let lhs = schedule_units(compile_from(state, items).0) + system_units::<S, L, F>(
            compile_from(state, items).1,
        );
        let mid = schedule_units(steps) + system_units::<S, L, F>(acc) + item_units(items.last());
        assert(lhs =~= mid);
        assert(mid =~= schedule_units(state.0) + system_units::<S, L, F>(state.1) + items_units(
            items,
        ));
    }
}

/// Order preservation: for any sequence of items without bundles, the
/// schedule runs exactly the items' units of work in insertion order, and
/// no two executor groups are adjacent, so each run of parallel systems is
/// fused into a single group.
pub proof fn lemma_order_preserved<S, L, F, B>(items: Seq<DispatcherItem<S, L, F, B>>)
    requires
        has_no_bundle(items),
    ensures
        schedule_units(schedule_of(items)) == items_units(items),
        forall|k: int|
            0 <= k < schedule_of(items).len() - 1 && (#[trigger] schedule_of(items)[k]) is Systems
                ==> !(schedule_of(items)[k + 1] is Systems),
{
    let all = items.push(DispatcherItem::FlushCmdBuffers);
    let start = (Seq::<StepView<S, L, F>>::empty(), Seq::<S>::empty());
    lemma_compile_units(start, all);
    lemma_compile_well_formed(start, all);
    assert(all.drop_last() =~= items);
    assert(compile_from(start, all).1 =~= Seq::empty());
    assert(system_units::<S, L, F>(Seq::<S>::empty()) =~= Seq::empty());
    assert(schedule_units(start.0) =~= Seq::empty());
    assert(items_units(all) =~= items_units(items));
    assert(schedule_units(schedule_of(items)) =~= schedule_units(schedule_of(items)) + system_units::<
        S,
        L,
        F,
    >(Seq::<S>::empty()));
    assert(schedule_units(start.0) + system_units::<S, L, F>(start.1) + items_units(all)
        =~= items_units(items));
}

/// Barrier placement: in the schedule of any sequence of items without
/// bundles, every executor group is non-empty and followed at once by a
/// barrier, so no thread local step directly follows a group.
pub proof fn lemma_barrier_placement<S, L, F, B>(items: Seq<DispatcherItem<S, L, F, B>>)
    requires
        has_no_bundle(items),
    ensures
        schedule_well_formed(schedule_of(items)),
        forall|k: int|
            0 <= k < schedule_of(items).len() - 1 && (#[trigger] schedule_of(items)[k]) is Systems
                ==> !(schedule_of(items)[k + 1] is ThreadLocalFn) && !(schedule_of(
                items,
            )[k + 1] is ThreadLocalSystem),
{
    let start = (Seq::<StepView<S, L, F>>::empty(), Seq::<S>::empty());
    lemma_compile_well_formed(start, items.push(DispatcherItem::FlushCmdBuffers));
}

/// The shapes of a sequence of steps.
pub open spec fn shapes<S, L, F>(steps: Seq<StepView<S, L, F>>) -> Seq<StepShape> {
    steps.map_values(|s: StepView<S, L, F>| shape_of(s))
}

proof fn lemma_executed_shapes<W, R, S: Runnable<W, R>, L: Runnable<W, R>, F: Runnable<W, R>>(
    a: Seq<StepView<S, L, F>>,
    b: Seq<StepView<S, L, F>>,
)
    requires
        a.len() == b.len(),
        forall|k: int| 0 <= k < a.len() ==> step_executed::<W, R, S, L, F>(#[trigger] a[k], b[k]),
    ensures
        shapes(a) == shapes(b),
{
    assert forall|k: int| 0 <= k < a.len() implies shapes(a)[k] == shapes(b)[k] by {
        assert(step_executed::<W, R, S, L, F>(a[k], b[k]));
    }
    assert(shapes(a) =~= shapes(b));
}

proof fn lemma_same_shapes_well_formed<S, L, F>(a: Seq<StepView<S, L, F>>, b: Seq<StepView<S, L, F>>)
    requires
        schedule_well_formed(a),
        shapes(a) == shapes(b),
    ensures
        schedule_well_formed(b),
{
    assert(a.len() == shapes(a).len());
    assert(b.len() == shapes(b).len());
    assert forall|k: int| 0 <= k < b.len() && (#[trigger] b[k]) is Systems implies {
        &&& b[k]->Systems_0.len() > 0
        &&& k + 1 < b.len()
        &&& b[k + 1] is FlushCmdBuffers
    } by {
        assert(shapes(a)[k] == shape_of(a[k]));
        assert(shapes(b)[k] == shape_of(b[k]));
        assert(a[k] is Systems);
        assert(k + 1 < a.len());
        assert(shapes(a)[k + 1] == shape_of(a[k + 1]));
        assert(shapes(b)[k + 1] == shape_of(b[k + 1]));
    }
}

/// Runs every system of an executor group.
fn run_group<S: Runnable<W, R>, W, R>(group: &mut Vec<S>, world: &mut W, resources: &mut R)
    ensures
        group_ran::<W, R, S>(old(group)@, final(group)@),
{
    let ghost orig = group@;
    let n = group.len();
    let mut done: Vec<S> = Vec::new();
    while group.len() > 0
        invariant
            n == orig.len(),
            done@.len() + group@.len() == n,
            group@ == orig.subrange(done@.len() as int, n as int),
            forall|j: int| 0 <= j < done@.len() ==> S::ran(#[trigger] orig[j], done@[j]),
        decreases group.len(),
    {
        let ghost k = done@.len() as int;
        let mut system = group.remove(0);
        assert(system == orig[k]);
        system.run(world, resources);
        done.push(system);
        assert(group@ =~= orig.subrange(k + 1, n as int));
    }
    *group = done;
}

/// Applies the command buffers of every system of an executor group.
fn flush_group<S: Runnable<W, R>, W, R>(group: &mut Vec<S>, world: &mut W, resources: &mut R)
    ensures
        group_flushed::<W, R, S>(old(group)@, final(group)@),
{
    let ghost orig = group@;
    let n = group.len();
    let mut done: Vec<S> = Vec::new();
    while group.len() > 0
        invariant
            n == orig.len(),
            done@.len() + group@.len() == n,
            group@ == orig.subrange(done@.len() as int, n as int),
            forall|j: int| 0 <= j < done@.len() ==> S::flushed(#[trigger] orig[j], done@[j]),
        decreases group.len(),
    {
        let ghost k = done@.len() as int;
        let mut system = group.remove(0);
        assert(system == orig[k]);
        system.flush_commands(world, resources);
        done.push(system);
        assert(group@ =~= orig.subrange(k + 1, n as int));
    }
    *group = done;
}

} // verus!
