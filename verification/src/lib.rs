//! A deferred-evaluation container: `Lazy<T, F>` holds a current value of
//! type `T` together with a queue of pending transformations `T -> T`.
//! Enqueued transformations are applied, in insertion order, only when the
//! value is forced or read, and the queue is cleared in the same step, so
//! each transformation is applied exactly once.

use vstd::prelude::*;

verus! {

/// A transformation may be called on every input.
pub open spec fn callable<T, F: Fn(T) -> T>(f: F) -> bool {
    forall|x: T| #[trigger] call_requires(f, (x,))
}

/// `f` computes the mathematical function `g`: every result `f` may return
/// on an input equals `g` of that input. This is how a pure transformation
/// is described at the specification level.
pub open spec fn computes<T, F: Fn(T) -> T>(f: F, g: spec_fn(T) -> T) -> bool {
    forall|x: T, y: T| #[trigger] call_ensures(f, (x,), y) ==> y == g(x)
}

/// `out` is a possible result of applying the transformations `fs` to
/// `init`, first to last. Stated relationally over `call_ensures`, so it
/// covers transformations whose postconditions do not pin down a single
/// result; for pure transformations (see `computes`) the result is unique.
pub open spec fn fold_rel<T, F: Fn(T) -> T>(fs: Seq<F>, init: T, out: T) -> bool
    decreases fs.len(),
{
    if fs.len() == 0 {
        out == init
    } else {
        exists|mid: T|
            #[trigger] call_ensures(fs[0], (init,), mid) && fold_rel(fs.drop_first(), mid, out)
    }
}

/// The result of applying the mathematical functions `gs` to `v`, first to
/// last.
pub open spec fn apply_all<T>(gs: Seq<spec_fn(T) -> T>, v: T) -> T
    decreases gs.len(),
{
    if gs.len() == 0 {
        v
    } else {
        apply_all(gs.drop_first(), gs[0](v))
    }
}

/// A value of type `T` together with an ordered queue of pending
/// transformations. The value seen by `get` is the fold of the queue over
/// the stored value; forcing clears the queue, so no transformation is ever
/// replayed.
#[verifier::reject_recursive_types(T)]
pub struct Lazy<T: Copy, F: Fn(T) -> T> {
    current: T,
    queue: Vec<F>,
}

impl<T: Copy, F: Fn(T) -> T> Lazy<T, F> {
    /// The latest materialized value.
    pub closed spec fn value(self) -> T {
        self.current
    }

    /// The pending transformations, in insertion order.
    pub closed spec fn pending(self) -> Seq<F> {
        self.queue@
    }

    /// Every pending transformation may be called on every input, so a
    /// forced evaluation can run the whole queue.
    pub closed spec fn wf(self) -> bool {
        forall|i: int| 0 <= i < self.queue@.len() ==> callable(#[trigger] self.queue@[i])
    }

    /// Builds a container holding `value`, with nothing pending.
    pub fn from(value: T) -> (r: Lazy<T, F>)
        ensures
            r.wf(),
            r.value() == value,
            r.pending() == Seq::<F>::empty(),
    {
        Lazy { current: value, queue: Vec::new() }
    }

    /// Appends `func` to the end of the queue. Nothing is evaluated here.
    pub fn add_function(&mut self, func: F)
        requires
            old(self).wf(),
            callable(func),
        ensures
            final(self).wf(),
            final(self).value() == old(self).value(),
            final(self).pending() == old(self).pending().push(func),
    {
        self.queue.push(func);
    }

    /// Folds the queue over the stored value, first to last, then clears
    /// the queue. With an empty queue this is the identity and the value is
    /// unchanged.
    pub fn calculate(&mut self)
        requires
            old(self).wf(),
        ensures
            final(self).wf(),
            final(self).pending() == Seq::<F>::empty(),
            fold_rel(old(self).pending(), old(self).value(), final(self).value()),
            old(self).pending().len() == 0 ==> final(self).value() == old(self).value(),
    {
        let mut x: T = self.current;
        let n: usize = self.queue.len();
        let mut i: usize = 0;
        while i < n
            invariant
                old(self).wf(),
                *self == *old(self),
                n == self.queue@.len(),
                0 <= i <= n,
                fold_rel(self.queue@.take(i as int), old(self).value(), x),
            decreases n - i,
        {
            assert(callable(self.queue@[i as int]));
            let y: T = (self.queue[i])(x);
            proof {
                lemma_fold_rel_push(
                    self.queue@.take(i as int),
                    self.queue@[i as int],
                    old(self).value(),
                    x,
                    y,
                );
                assert(self.queue@.take(i as int).push(self.queue@[i as int])
                    =~= self.queue@.take(i + 1));
            }
            x = y;
            i = i + 1;
        }
        proof {
            assert(self.queue@.take(n as int) =~= self.queue@);
        }
        self.queue.clear();
        self.current = x;
    }

    /// Forces evaluation, then returns the resulting value. Afterwards the
    /// queue is empty, so a second read with no intervening enqueue returns
    /// the same value again.
    pub fn get(&mut self) -> (r: T)
        requires
            old(self).wf(),
        ensures
            final(self).wf(),
            final(self).pending() == Seq::<F>::empty(),
            final(self).value() == r,
            fold_rel(old(self).pending(), old(self).value(), r),
            old(self).pending().len() == 0 ==> r == old(self).value(),
    {
        self.calculate();
        self.current
    }
}

/// When every queued transformation computes a mathematical function, the
/// fold has exactly one possible result: the composition of those
/// functions, first to last, applied to the initial value.
pub proof fn lemma_fold_rel_determined<T, F: Fn(T) -> T>(
    fs: Seq<F>,
    gs: Seq<spec_fn(T) -> T>,
    init: T,
    out: T,
)
    requires
        fs.len() == gs.len(),
        forall|i: int| 0 <= i < fs.len() ==> computes(fs[i], #[trigger] gs[i]),
        fold_rel(fs, init, out),
    ensures
        out == apply_all(gs, init),
    decreases fs.len(),
{
    if fs.len() > 0 {
        let mid = choose|m: T|
            #[trigger] call_ensures(fs[0], (init,), m) && fold_rel(fs.drop_first(), m, out);
        assert(mid == gs[0](init));
        assert(forall|i: int|
            0 <= i < fs.drop_first().len() ==> computes(
                fs.drop_first()[i],
                #[trigger] gs.drop_first()[i],
            ));
        lemma_fold_rel_determined(fs.drop_first(), gs.drop_first(), mid, out);
    }
}

/// A single pure transformation: reading after enqueuing `f` alone yields
/// `g` of the initial value.
pub proof fn lemma_single_transformation<T, F: Fn(T) -> T>(f: F, g: spec_fn(T) -> T, v: T, r: T)
    requires
        computes(f, g),
        fold_rel(seq![f], v, r),
    ensures
        r == g(v),
{
    let fs = seq![f];
    let gs = seq![g];
    assert(forall|i: int| 0 <= i < fs.len() ==> computes(fs[i], #[trigger] gs[i]));
    lemma_fold_rel_determined(fs, gs, v, r);
    assert(gs.drop_first() =~= Seq::<spec_fn(T) -> T>::empty());
    assert(apply_all(Seq::<spec_fn(T) -> T>::empty(), g(v)) == g(v));
    assert(apply_all(gs, v) == apply_all(gs.drop_first(), g(v)));
}

/// Composition order: two pure transformations enqueued in order `f1`,
/// `f2` are applied left to right, so a read yields `g2(g1(v))`, not
/// `g1(g2(v))`.
pub proof fn lemma_composition_order<T, F: Fn(T) -> T>(
    f1: F,
    f2: F,
    g1: spec_fn(T) -> T,
    g2: spec_fn(T) -> T,
    v: T,
    r: T,
)
    requires
        computes(f1, g1),
        computes(f2, g2),
        fold_rel(seq![f1, f2], v, r),
    ensures
        r == g2(g1(v)),
{
    let fs = seq![f1, f2];
    let gs = seq![g1, g2];
    assert(forall|i: int| 0 <= i < fs.len() ==> computes(fs[i], #[trigger] gs[i]));
    lemma_fold_rel_determined(fs, gs, v, r);
    assert(gs.drop_first() =~= seq![g2]);
    assert(seq![g2].drop_first() =~= Seq::<spec_fn(T) -> T>::empty());
    assert(apply_all(Seq::<spec_fn(T) -> T>::empty(), g2(g1(v))) == g2(g1(v)));
    assert(apply_all(seq![g2], g1(v)) == apply_all(seq![g2].drop_first(), g2(g1(v))));
    assert(apply_all(gs, v) == apply_all(gs.drop_first(), g1(v)));
}

/// Splitting a batch never changes the result: applying `gs1` then `gs2`
/// in one pass equals applying `gs1`, materializing, then applying `gs2`.
pub proof fn lemma_apply_all_append<T>(gs1: Seq<spec_fn(T) -> T>, gs2: Seq<spec_fn(T) -> T>, v: T)
    ensures
        apply_all(gs1 + gs2, v) == apply_all(gs2, apply_all(gs1, v)),
    decreases gs1.len(),
{
    if gs1.len() == 0 {
        assert(gs1 + gs2 =~= gs2);
    } else {
        assert((gs1 + gs2).drop_first() =~= gs1.drop_first() + gs2);
        assert((gs1 + gs2)[0] == gs1[0]);
        lemma_apply_all_append(gs1.drop_first(), gs2, gs1[0](v));
    }
}

/// Batching equivalence in general: folding a whole batch `fs1 + fs2` in
/// one evaluation yields the same value as folding `fs1`, materializing,
/// and then folding `fs2`, whenever the transformations are pure.
pub proof fn lemma_batching_split<T, F: Fn(T) -> T>(
    fs1: Seq<F>,
    fs2: Seq<F>,
    gs1: Seq<spec_fn(T) -> T>,
    gs2: Seq<spec_fn(T) -> T>,
    v: T,
    mid: T,
    r_batched: T,
    r_stepped: T,
)
    requires
        fs1.len() == gs1.len(),
        fs2.len() == gs2.len(),
        forall|i: int| 0 <= i < fs1.len() ==> computes(fs1[i], #[trigger] gs1[i]),
        forall|i: int| 0 <= i < fs2.len() ==> computes(fs2[i], #[trigger] gs2[i]),
        fold_rel(fs1 + fs2, v, r_batched),
        fold_rel(fs1, v, mid),
        fold_rel(fs2, mid, r_stepped),
    ensures
        r_batched == r_stepped,
{
    assert forall|i: int| 0 <= i < (fs1 + fs2).len() implies computes(
        (fs1 + fs2)[i],
        #[trigger] (gs1 + gs2)[i],
    ) by {
        if i < fs1.len() {
            assert((fs1 + fs2)[i] == fs1[i]);
            assert((gs1 + gs2)[i] == gs1[i]);
        } else {
            assert((fs1 + fs2)[i] == fs2[i - fs1.len()]);
            assert((gs1 + gs2)[i] == gs2[i - gs1.len()]);
        }
    }
    lemma_fold_rel_determined(fs1 + fs2, gs1 + gs2, v, r_batched);
    lemma_apply_all_append(gs1, gs2, v);
    lemma_fold_rel_determined(fs1, gs1, v, mid);
    lemma_fold_rel_determined(fs2, gs2, mid, r_stepped);
}

/// Batching equivalence for two pure transformations: enqueuing `f1` and
/// `f2` and reading once yields the same value as enqueuing `f1`, reading,
/// enqueuing `f2`, and reading again. Deferral changes only the timing of
/// the work, never the final value.
pub proof fn lemma_batching_equivalence<T, F: Fn(T) -> T>(
    f1: F,
    f2: F,
    g1: spec_fn(T) -> T,
    g2: spec_fn(T) -> T,
    v: T,
    mid: T,
    r_batched: T,
    r_stepped: T,
)
    requires
        computes(f1, g1),
        computes(f2, g2),
        fold_rel(seq![f1, f2], v, r_batched),
        fold_rel(seq![f1], v, mid),
        fold_rel(seq![f2], mid, r_stepped),
    ensures
        r_batched == r_stepped,
{
    lemma_composition_order(f1, f2, g1, g2, v, r_batched);
    lemma_single_transformation(f1, g1, v, mid);
    lemma_single_transformation(f2, g2, mid, r_stepped);
}

/// Extending a fold by one transformation: if `mid` is a possible result of
/// `fs` on `init`, and `out` a possible result of `g` on `mid`, then `out`
/// is a possible result of `fs.push(g)` on `init`.
proof fn lemma_fold_rel_push<T, F: Fn(T) -> T>(fs: Seq<F>, g: F, init: T, mid: T, out: T)
    requires
        fold_rel(fs, init, mid),
        call_ensures(g, (mid,), out),
    ensures
        fold_rel(fs.push(g), init, out),
    decreases fs.len(),
{
    if fs.len() == 0 {
        assert(fs.push(g)[0] == g);
        assert(fs.push(g).drop_first() =~= Seq::<F>::empty());
        assert(call_ensures(fs.push(g)[0], (init,), out));
        assert(fold_rel(fs.push(g).drop_first(), out, out));
    } else {
        let m = choose|m: T|
            #[trigger] call_ensures(fs[0], (init,), m) && fold_rel(fs.drop_first(), m, mid);
        lemma_fold_rel_push(fs.drop_first(), g, m, mid, out);
        assert(fs.push(g).drop_first() =~= fs.drop_first().push(g));
        assert(call_ensures(fs.push(g)[0], (init,), m));
        assert(fold_rel(fs.push(g).drop_first(), m, out));
    }
}

} // verus!
