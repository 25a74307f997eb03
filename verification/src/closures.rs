//! Functions that take or give functions: a call through two function
//! values, a counter, and the composition of a list of functions.
use vstd::prelude::*;

verus! {

/// Calls `f1` on one, then on two, and hands both results to `f2`.
pub fn wrap_call<F1, F2>(f1: F1, f2: F2) -> (out: i32) where
    F1: Fn(i32) -> i32,
    F2: FnOnce(i32, i32) -> i32,

    requires
        call_requires(f1, (1i32,)),
        call_requires(f1, (2i32,)),
        forall|a: i32, b: i32|
            call_ensures(f1, (1i32,), a) && call_ensures(f1, (2i32,), b) ==> call_requires(
                f2,
                (a, b),
            ),
    ensures
        exists|a: i32, b: i32|
            call_ensures(f1, (1i32,), a) && call_ensures(f1, (2i32,), b) && #[trigger] call_ensures(
                f2,
                (a, b),
                out,
            ),
{
    let f1_rename = f1;
    let a = f1_rename(1);
    let b = f1_rename(2);
    f2(a, b)
}

/// A counter: each call of [`Counter::next`] gives the value it stands at
/// and moves it up by one.
pub struct Counter {
    value: i64,
}

impl View for Counter {
    type V = int;

    /// The value that the next call gives.
    closed spec fn view(&self) -> int {
        self.value as int
    }
}

impl Counter {
    /// The value the counter stands at; the counter then stands one higher.
    pub fn next(&mut self) -> (value: i64)
        requires
            old(self)@ < i64::MAX,
        ensures
            value == old(self)@,
            final(self)@ == old(self)@ + 1,
    {
        let value = self.value;
        self.value += 1;
        value
    }
}

/// A counter that stands at `start`.
pub fn make_counter(start: i64) -> (counter: Counter)
    ensures
        counter@ == start,
{
    Counter { value: start }
}

/// Whether applying the functions of `fns` one after the other, the first
/// one first, can lead from `x` to `out`.
pub open spec fn chain<F: Fn(i32) -> i32>(fns: Seq<F>, x: i32, out: i32) -> bool
    decreases fns.len(),
{
    if fns.len() == 0 {
        out == x
    } else {
        exists|mid: i32| chain(fns.drop_last(), x, mid) && #[trigger] call_ensures(fns.last(), (mid,), out)
    }
}

/// Whether every function of `fns` can be called on every argument.
pub open spec fn total<F: Fn(i32) -> i32>(fns: Seq<F>) -> bool {
    forall|i: int, v: i32| 0 <= i < fns.len() ==> #[trigger] call_requires(fns[i], (v,))
}

/// Applies the functions one after the other, by index.
fn apply_each<F: Fn(i32) -> i32>(fns: &Vec<F>, x: i32) -> (out: i32)
    requires
        total(fns@),
    ensures
        chain(fns@, x, out),
{
    let mut acc = x;
    let mut i: usize = 0;
    assert(fns@.take(0) =~= Seq::<F>::empty());
    while i < fns.len()
        invariant
            i <= fns@.len(),
            total(fns@),
            chain(fns@.take(i as int), x, acc),
        decreases fns@.len() - i,
    {
        let ghost before = acc;
        acc = (fns[i])(acc);
        i = i + 1;
        proof {
            assert(fns@.take(i as int).drop_last() =~= fns@.take(i - 1));
            assert(call_ensures(fns@.take(i as int).last(), (before,), acc));
        }
    }
    proof {
        assert(fns@.take(i as int) =~= fns@);
    }
    acc
}

/// Applies the first `count` functions one after the other, the last of them
/// after the rest.
fn apply_first<F: Fn(i32) -> i32>(fns: &Vec<F>, count: usize, x: i32) -> (out: i32)
    requires
        total(fns@),
        count <= fns@.len(),
    ensures
        chain(fns@.take(count as int), x, out),
    decreases count,
{
    if count == 0 {
        assert(fns@.take(0) =~= Seq::<F>::empty());
        x
    } else {
        let mid = apply_first(fns, count - 1, x);
        let out = (fns[count - 1])(mid);
        proof {
            assert(fns@.take(count as int).drop_last() =~= fns@.take(count - 1));
            assert(call_ensures(fns@.take(count as int).last(), (mid,), out));
        }
        out
    }
}

/// A copy of the functions of a slice.
fn copied<F: Fn(i32) -> i32 + Copy>(fns: &[F]) -> (copy: Vec<F>)
    ensures
        copy@ == fns@,
{
    let mut copy: Vec<F> = Vec::new();
    let mut i: usize = 0;
    while i < fns.len()
        invariant
            i <= fns@.len(),
            copy@ == fns@.take(i as int),
        decreases fns@.len() - i,
    {
        copy.push(fns[i]);
        i = i + 1;
        assert(copy@ =~= fns@.take(i as int));
    }
    assert(fns@.take(i as int) =~= fns@);
    copy
}

/// The composition of the functions of `fns`, the first one applied first;
/// the identity if there is none. The composition walks the list by index.
pub fn compose_all_loop<F: Fn(i32) -> i32 + Copy>(fns: &[F]) -> (composed: impl Fn(i32) -> i32)
    requires
        total(fns@),
    ensures
        forall|x: i32| call_requires(composed, (x,)),
        forall|x: i32, out: i32| call_ensures(composed, (x,), out) ==> chain(fns@, x, out),
{
    let own = copied(fns);
    move |x: i32| -> (out: i32)
        ensures
            chain(own@, x, out),
        { apply_each(&own, x) }
}

/// The composition of the functions of `fns`, the first one applied first;
/// the identity if there is none. The composition folds the list from its
/// end.
pub fn compose_all<F: Fn(i32) -> i32 + Copy>(fns: &[F]) -> (composed: impl Fn(i32) -> i32)
    requires
        total(fns@),
    ensures
        forall|x: i32| call_requires(composed, (x,)),
        forall|x: i32, out: i32| call_ensures(composed, (x,), out) ==> chain(fns@, x, out),
{
    let own = copied(fns);
    move |x: i32| -> (out: i32)
        ensures
            chain(own@, x, out),
        {
            let out = apply_first(&own, own.len(), x);
            assert(own@.take(own@.len() as int) =~= own@);
            out
        }
}

} // verus!
