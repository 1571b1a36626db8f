//! The list's contents under runs of `push` and `pop`, modelled on sequences.
//!
//! `step` is exactly what the contracts of `Unrolled::push` and
//! `Unrolled::pop` say of the view, so what is proved here of `run` holds of
//! every list driven by those calls.
use vstd::prelude::*;

verus! {

/// One call that changes the list: `push` of an item, or `pop`.
pub enum Op<T> {
    Push(T),
    Pop,
}

/// The contents after one operation: a push appends its item, a pop removes
/// the last item and leaves an empty list as it is.
pub open spec fn step<T>(s: Seq<T>, op: Op<T>) -> Seq<T> {
    match op {
        Op::Push(x) => s.push(x),
        Op::Pop => if s.len() == 0 {
            s
        } else {
            s.drop_last()
        },
    }
}

/// The contents after a run of operations applied in order to `s`.
pub open spec fn run<T>(s: Seq<T>, ops: Seq<Op<T>>) -> Seq<T>
    decreases ops.len(),
{
    if ops.len() == 0 {
        s
    } else {
        step(run(s, ops.drop_last()), ops.last())
    }
}

/// How many of `ops` are pushes.
pub open spec fn count_pushes<T>(ops: Seq<Op<T>>) -> nat
    decreases ops.len(),
{
    if ops.len() == 0 {
        0
    } else {
        count_pushes(ops.drop_last()) + if ops.last() is Push {
            1nat
        } else {
            0nat
        }
    }
}

/// How many of `ops`, run from `s`, are pops that found an item to remove.
pub open spec fn count_successful_pops<T>(s: Seq<T>, ops: Seq<Op<T>>) -> nat
    decreases ops.len(),
{
    if ops.len() == 0 {
        0
    } else {
        count_successful_pops(s, ops.drop_last()) + if ops.last() is Pop && run(
            s,
            ops.drop_last(),
        ).len() > 0 {
            1nat
        } else {
            0nat
        }
    }
}

/// A push of each item of `xs`, in order.
pub open spec fn pushes_of<T>(xs: Seq<T>) -> Seq<Op<T>> {
    xs.map_values(|x: T| Op::Push(x))
}

/// `k` pops.
pub open spec fn pops<T>(k: nat) -> Seq<Op<T>> {
    Seq::new(k, |i: int| Op::Pop)
}

/// Running `a` and then `b` is running `b` from where `a` left off.
pub proof fn lemma_run_concat<T>(s: Seq<T>, a: Seq<Op<T>>, b: Seq<Op<T>>)
    ensures
        run(s, a + b) == run(run(s, a), b),
    decreases b.len(),
{
    if b.len() == 0 {
        assert(a + b =~= a);
    } else {
        assert((a + b).drop_last() =~= a + b.drop_last());
        lemma_run_concat(s, a, b.drop_last());
    }
}

/// Pushing the items of `xs` in order appends them.
pub proof fn lemma_run_pushes<T>(s: Seq<T>, xs: Seq<T>)
    ensures
        run(s, pushes_of(xs)) == s + xs,
    decreases xs.len(),
{
    if xs.len() == 0 {
        assert(s + xs =~= s);
    } else {
        assert(pushes_of(xs).drop_last() =~= pushes_of(xs.drop_last()));
        lemma_run_pushes(s, xs.drop_last());
        assert((s + xs.drop_last()).push(xs.last()) =~= s + xs);
    }
}

/// Popping `k` times removes the last `k` items, and leaves an empty list
/// empty.
pub proof fn lemma_run_pops<T>(t: Seq<T>, k: nat)
    ensures
        k <= t.len() ==> run(t, pops(k)) == t.take(t.len() - k),
        t.len() == 0 ==> run(t, pops(k)) == t,
    decreases k,
{
    if k == 0 {
        assert(t.take(t.len() as int) =~= t);
    } else {
        assert(pops::<T>(k).drop_last() =~= pops::<T>((k - 1) as nat));
        lemma_run_pops(t, (k - 1) as nat);
        if k <= t.len() {
            assert(t.take(t.len() - (k - 1)).drop_last() =~= t.take(t.len() - k));
        }
    }
}

/// Push/pop symmetry: pushing the items of `xs` in order onto `s` and then
/// popping `k` times (`k` at most the number of items) leaves `s` followed
/// by all but the last `k` items, so the next pop returns the item pushed
/// `k + 1`-th from the end. The length falls by one with each of those pops,
/// after the last of them the contents are `s` again, and from an empty
/// start a further pop leaves the list empty.
pub proof fn lemma_push_pop_symmetry<T>(s: Seq<T>, xs: Seq<T>, k: nat)
    requires
        k <= xs.len(),
    ensures
        run(s, pushes_of(xs)) == s + xs,
        run(s, pushes_of(xs) + pops(k)) == s + xs.take(xs.len() - k),
        run(s, pushes_of(xs) + pops(k)).len() == s.len() + xs.len() - k,
        k < xs.len() ==> run(s, pushes_of(xs) + pops(k)).last() == xs[xs.len() - 1 - k],
        run(s, pushes_of(xs) + pops(xs.len())) == s,
        s.len() == 0 ==> run(s, pushes_of(xs) + pops(xs.len() + 1)) == s,
{
    lemma_run_pushes(s, xs);
    lemma_run_concat(s, pushes_of(xs), pops(k));
    lemma_run_pops(s + xs, k);
    assert((s + xs).take((s + xs).len() - k) =~= s + xs.take(xs.len() - k));
    lemma_run_concat(s, pushes_of(xs), pops(xs.len()));
    lemma_run_pops(s + xs, xs.len());
    assert((s + xs).take((s + xs).len() - xs.len()) =~= s);
    if s.len() == 0 {
        let n1 = xs.len() + 1;
        lemma_run_concat(s, pushes_of(xs), pops(n1));
        assert(pops::<T>(n1) =~= pops::<T>(xs.len()) + pops::<T>(1));
        lemma_run_concat(s + xs, pops(xs.len()), pops(1));
        lemma_run_pops(s, 1);
    }
}

/// Length invariant: after any run of pushes and pops, the length is the
/// starting length plus the number of pushes minus the number of pops that
/// removed an item.
pub proof fn lemma_run_length<T>(s: Seq<T>, ops: Seq<Op<T>>)
    ensures
        run(s, ops).len() + count_successful_pops(s, ops) == s.len() + count_pushes(ops),
    decreases ops.len(),
{
    if ops.len() > 0 {
        lemma_run_length(s, ops.drop_last());
    }
}

} // verus!
