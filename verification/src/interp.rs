//! A small interpreter: statement and expression nodes that are composed
//! into programs and run against an environment of named integers.
//!
//! An expression node evaluates to an unsigned integer, a statement node
//! only acts. Running a node may change the node itself (a node can hold a
//! memory cell), so what a run does is stated as a relation between the node
//! before, the environment, the node after and, for an expression, the
//! value.
use crate::text::{decimal_u64, same_text, write_line};
use vstd::prelude::*;

verus! {

/// The bindings that a list of pairs stands for: a later pair overrides an
/// earlier one of the same name.
pub open spec fn bound(pairs: Seq<(&'static str, u64)>) -> Map<Seq<char>, u64>
    decreases pairs.len(),
{
    if pairs.len() == 0 {
        Map::empty()
    } else {
        bound(pairs.drop_last()).insert(pairs.last().0@, pairs.last().1)
    }
}

/// An environment: a mapping from names to unsigned integers. A node reads
/// it and never changes it.
pub struct Context {
    entries: Vec<(&'static str, u64)>,
}

impl View for Context {
    type V = Map<Seq<char>, u64>;

    closed spec fn view(&self) -> Map<Seq<char>, u64> {
        bound(self.entries@)
    }
}

impl Context {
    /// The empty environment.
    pub fn new() -> (context: Self)
        ensures
            context@ == Map::<Seq<char>, u64>::empty(),
    {
        Context { entries: Vec::new() }
    }

    /// The environment with the given bindings, a later one overriding an
    /// earlier one of the same name.
    pub fn from<const N: usize>(pairs: [(&'static str, u64); N]) -> (context: Self)
        ensures
            context@ == bound(pairs@),
    {
        let mut entries: Vec<(&'static str, u64)> = Vec::new();
        let mut i: usize = 0;
        while i < N
            invariant
                i <= N,
                pairs@.len() == N,
                entries@ == pairs@.take(i as int),
            decreases N - i,
        {
            entries.push(pairs[i]);
            i = i + 1;
            assert(entries@ =~= pairs@.take(i as int));
        }
        assert(pairs@.take(N as int) =~= pairs@);
        Context { entries }
    }

    /// Binds `name` to `value`, overriding an earlier binding of `name`.
    pub fn insert(&mut self, name: &'static str, value: u64)
        ensures
            final(self)@ == old(self)@.insert(name@, value),
    {
        self.entries.push((name, value));
        assert(self.entries@.drop_last() =~= old(self).entries@);
    }

    /// The value bound to `name`, if there is one.
    pub fn get(&self, name: &str) -> (value: Option<u64>)
        ensures
            value == if self@.contains_key(name@) {
                Some(self@[name@])
            } else {
                None
            },
    {
        let mut i: usize = self.entries.len();
        assert(self.entries@.take(i as int) =~= self.entries@);
        while i > 0
            invariant
                i <= self.entries@.len(),
                self@.contains_key(name@) == bound(self.entries@.take(i as int)).contains_key(
                    name@,
                ),
                self@.contains_key(name@) ==> self@[name@] == bound(
                    self.entries@.take(i as int),
                )[name@],
            decreases i,
        {
            let ghost prefix = self.entries@.take(i as int);
            i = i - 1;
            assert(prefix.drop_last() =~= self.entries@.take(i as int));
            let (key, value) = self.entries[i];
            if same_text(key, name) {
                return Some(value);
            }
        }
        assert(self.entries@.take(0) =~= Seq::<(&'static str, u64)>::empty());
        None
    }
}

impl Clone for Context {
    fn clone(&self) -> (copy: Self)
        ensures
            copy@ == self@,
    {
        let mut entries: Vec<(&'static str, u64)> = Vec::new();
        let mut i: usize = 0;
        while i < self.entries.len()
            invariant
                i <= self.entries@.len(),
                entries@ == self.entries@.take(i as int),
            decreases self.entries@.len() - i,
        {
            entries.push(self.entries[i]);
            i = i + 1;
            assert(entries@ =~= self.entries@.take(i as int));
        }
        assert(self.entries@.take(self.entries@.len() as int) =~= self.entries@);
        Context { entries }
    }
}

/// A node that evaluates to an unsigned integer.
pub trait Expr: Sized {
    /// Whether an evaluation in `ctx` finds every name that it looks up.
    /// Unless a node says otherwise, every environment will do.
    open spec fn safe_in(&self, ctx: Map<Seq<char>, u64>) -> bool {
        true
    }

    /// Whether an evaluation of `pre` in `ctx` can leave the node as `post`
    /// and give `out`. Unless a node says otherwise, nothing is excluded.
    open spec fn evaluates(pre: Self, ctx: Map<Seq<char>, u64>, post: Self, out: u64) -> bool {
        true
    }

    /// Evaluates the node in `context`.
    fn exec_expr(&mut self, context: &Context) -> (out: u64)
        requires
            old(self).safe_in(context@),
        ensures
            Self::evaluates(*old(self), context@, *final(self), out),
    ;
}

/// A node that acts and gives no value.
pub trait Stmt: Sized {
    /// Whether an execution in `ctx` finds every name that it looks up.
    /// Unless a node says otherwise, every environment will do.
    open spec fn safe_in(&self, ctx: Map<Seq<char>, u64>) -> bool {
        true
    }

    /// Whether an execution of `pre` in `ctx` can leave the node as `post`.
    /// Unless a node says otherwise, nothing is excluded.
    open spec fn executes(pre: Self, ctx: Map<Seq<char>, u64>, post: Self) -> bool {
        true
    }

    /// Executes the node in `context`.
    fn exec_stmt(&mut self, context: &Context)
        requires
            old(self).safe_in(context@),
        ensures
            Self::executes(*old(self), context@, *final(self)),
    ;
}

/// Whether `n` executions in a row, each in `ctx`, can lead from `pre` to
/// `post`.
pub open spec fn runs<T: Stmt>(pre: T, ctx: Map<Seq<char>, u64>, post: T, n: nat) -> bool
    decreases n,
{
    if n == 0 {
        post == pre
    } else {
        exists|mid: T| runs(pre, ctx, mid, (n - 1) as nat) && #[trigger] T::executes(mid, ctx, post)
    }
}

/// One more execution after `n` makes `n + 1`.
pub proof fn runs_extend<T: Stmt>(pre: T, ctx: Map<Seq<char>, u64>, mid: T, post: T, n: nat)
    requires
        runs(pre, ctx, mid, n),
        T::executes(mid, ctx, post),
    ensures
        runs(pre, ctx, post, n + 1),
{
    assert(runs(pre, ctx, mid, ((n + 1) - 1) as nat));
}

/// Evaluates an expression and prints the value on a line of its own.
pub struct Print<T: Expr> {
    pub inner: T,
}

/// A statement that prints the value of `inner`.
pub fn print<T: Expr>(inner: T) -> (node: Print<T>)
    ensures
        node.inner == inner,
{
    Print { inner }
}

impl<T: Expr> Stmt for Print<T> {
    open spec fn safe_in(&self, ctx: Map<Seq<char>, u64>) -> bool {
        self.inner.safe_in(ctx)
    }

    /// The inner expression is evaluated once.
    open spec fn executes(pre: Self, ctx: Map<Seq<char>, u64>, post: Self) -> bool {
        exists|out: u64| #[trigger] T::evaluates(pre.inner, ctx, post.inner, out)
    }

    fn exec_stmt(&mut self, context: &Context) {
        let value = self.inner.exec_expr(context);
        assert(T::evaluates(old(self).inner, context@, self.inner, value));
        let text = decimal_u64(value);
        write_line(text.as_str());
    }
}

/// The statement that does nothing.
pub struct Nothing;

/// The statement that does nothing.
pub fn nothing() -> Nothing {
    Nothing
}

impl Stmt for Nothing {
    open spec fn safe_in(&self, ctx: Map<Seq<char>, u64>) -> bool {
        true
    }

    open spec fn executes(pre: Self, ctx: Map<Seq<char>, u64>, post: Self) -> bool {
        post == pre
    }

    fn exec_stmt(&mut self, _context: &Context) {
    }
}

/// Two statements, executed one after the other.
pub struct Sequence<T: Stmt, U: Stmt> {
    pub first: T,
    pub second: U,
}

/// The statement that executes `first`, then `second`.
pub fn seq<T: Stmt, U: Stmt>(first: T, second: U) -> (node: Sequence<T, U>)
    ensures
        node.first == first,
        node.second == second,
{
    Sequence { first, second }
}

impl<T: Stmt, U: Stmt> Stmt for Sequence<T, U> {
    open spec fn safe_in(&self, ctx: Map<Seq<char>, u64>) -> bool {
        self.first.safe_in(ctx) && self.second.safe_in(ctx)
    }

    open spec fn executes(pre: Self, ctx: Map<Seq<char>, u64>, post: Self) -> bool {
        T::executes(pre.first, ctx, post.first) && U::executes(pre.second, ctx, post.second)
    }

    fn exec_stmt(&mut self, context: &Context) {
        self.first.exec_stmt(context);
        assert(self.second == old(self).second);
        self.second.exec_stmt(context);
        assert(T::executes(old(self).first, context@, self.first));
    }
}

impl<T: Stmt> Sequence<T, Nothing> {
    /// Drops the trailing no-op.
    pub fn shorten_1(self) -> (first: T)
        ensures
            first == self.first,
    {
        self.first
    }
}

impl<T: Stmt> Sequence<Nothing, T> {
    /// Drops the leading no-op.
    pub fn shorten_2(self) -> (second: T)
        ensures
            second == self.second,
    {
        self.second
    }
}

impl Sequence<Nothing, Nothing> {
    /// Two no-ops are one.
    pub fn collapse(self) -> Nothing {
        Nothing
    }
}

impl Expr for u64 {
    open spec fn safe_in(&self, ctx: Map<Seq<char>, u64>) -> bool {
        true
    }

    /// A literal evaluates to itself.
    open spec fn evaluates(pre: Self, ctx: Map<Seq<char>, u64>, post: Self, out: u64) -> bool {
        post == pre && out == pre
    }

    fn exec_expr(&mut self, _context: &Context) -> (out: u64) {
        *self
    }
}

/// A conditional: zero is false, anything else is true, and only the branch
/// that is taken is evaluated.
pub struct When<C: Expr, T: Expr, F: Expr> {
    pub condition: C,
    pub true_val: T,
    pub false_val: F,
}

/// The conditional on `condition` with the two branches.
pub fn when<C: Expr, T: Expr, F: Expr>(condition: C, true_val: T, false_val: F) -> (node: When<
    C,
    T,
    F,
>)
    ensures
        node.condition == condition,
        node.true_val == true_val,
        node.false_val == false_val,
{
    When { condition, true_val, false_val }
}

impl<C: Expr, T: Expr, F: Expr> Expr for When<C, T, F> {
    /// The condition is safe, and so is the branch that any of its outcomes
    /// selects.
    open spec fn safe_in(&self, ctx: Map<Seq<char>, u64>) -> bool {
        &&& self.condition.safe_in(ctx)
        &&& forall|after: C, c: u64| #[trigger]
            C::evaluates(self.condition, ctx, after, c) ==> if c == 0 {
                self.false_val.safe_in(ctx)
            } else {
                self.true_val.safe_in(ctx)
            }
    }

    /// The condition is evaluated, then the branch it selects; the other
    /// branch stays as it was.
    open spec fn evaluates(pre: Self, ctx: Map<Seq<char>, u64>, post: Self, out: u64) -> bool {
        exists|c: u64|
            {
                &&& #[trigger] C::evaluates(pre.condition, ctx, post.condition, c)
                &&& if c == 0 {
                    &&& post.true_val == pre.true_val
                    &&& F::evaluates(pre.false_val, ctx, post.false_val, out)
                } else {
                    &&& post.false_val == pre.false_val
                    &&& T::evaluates(pre.true_val, ctx, post.true_val, out)
                }
            }
    }

    fn exec_expr(&mut self, context: &Context) -> (out: u64) {
        let cond = self.condition.exec_expr(context);
        assert(C::evaluates(old(self).condition, context@, self.condition, cond));
        assert(self.true_val == old(self).true_val);
        assert(self.false_val == old(self).false_val);
        if cond == 0 {
            let out = self.false_val.exec_expr(context);
            assert(self.true_val == old(self).true_val);
            assert(F::evaluates(old(self).false_val, context@, self.false_val, out));
            assert(C::evaluates(old(self).condition, context@, self.condition, cond));
            out
        } else {
            let out = self.true_val.exec_expr(context);
            assert(self.false_val == old(self).false_val);
            assert(T::evaluates(old(self).true_val, context@, self.true_val, out));
            assert(C::evaluates(old(self).condition, context@, self.condition, cond));
            out
        }
    }
}

/// A statement executed `N` times in a row.
pub struct Repeat<const N: u32, T: Stmt> {
    pub inner: T,
}

/// The statement that executes `inner` `N` times.
pub fn repeat<const N: u32, T: Stmt>(inner: T) -> (node: Repeat<N, T>)
    ensures
        node.inner == inner,
{
    Repeat { inner }
}

impl<const N: u32, T: Stmt> Stmt for Repeat<N, T> {
    /// The statement is safe at the start and after each of the first
    /// `N - 1` executions, however they turn out.
    open spec fn safe_in(&self, ctx: Map<Seq<char>, u64>) -> bool {
        forall|k: nat, mid: T| k < N && #[trigger] runs(self.inner, ctx, mid, k) ==> mid.safe_in(ctx)
    }

    /// The inner statement is executed exactly `N` times, one after the
    /// other.
    open spec fn executes(pre: Self, ctx: Map<Seq<char>, u64>, post: Self) -> bool {
        runs(pre.inner, ctx, post.inner, N as nat)
    }

    fn exec_stmt(&mut self, context: &Context) {
        let mut i: u32 = 0;
        while i < N
            invariant
                i <= N,
                runs(old(self).inner, context@, self.inner, i as nat),
                old(self).safe_in(context@),
            decreases N - i,
        {
            let ghost before = self.inner;
            self.inner.exec_stmt(context);
            i = i + 1;
            proof {
                runs_extend(old(self).inner, context@, before, self.inner, (i - 1) as nat);
            }
        }
    }
}

/// A lookup of a name in the environment.
pub struct Constant {
    pub name: &'static str,
}

/// The lookup of `name`.
pub fn constant(name: &'static str) -> (node: Constant)
    ensures
        node.name == name,
{
    Constant { name }
}

impl Expr for Constant {
    /// The name is bound.
    open spec fn safe_in(&self, ctx: Map<Seq<char>, u64>) -> bool {
        ctx.contains_key(self.name@)
    }

    /// The value is the one bound to the name.
    open spec fn evaluates(pre: Self, ctx: Map<Seq<char>, u64>, post: Self, out: u64) -> bool {
        post == pre && out == ctx[pre.name@]
    }

    fn exec_expr(&mut self, context: &Context) -> (out: u64) {
        context.get(self.name).unwrap()
    }
}

/// A read of a memory cell.
pub struct ReadFrom<'a> {
    pub name: &'a u64,
}

/// The read of the cell behind `name`.
pub fn read_from<'a>(name: &'a u64) -> (node: ReadFrom<'a>)
    ensures
        node.name == name,
{
    ReadFrom { name }
}

impl<'a> Expr for ReadFrom<'a> {
    open spec fn safe_in(&self, ctx: Map<Seq<char>, u64>) -> bool {
        true
    }

    /// The value is what the cell holds.
    open spec fn evaluates(pre: Self, ctx: Map<Seq<char>, u64>, post: Self, out: u64) -> bool {
        post == pre && out == *pre.name
    }

    fn exec_expr(&mut self, _context: &Context) -> (out: u64) {
        *self.name
    }
}

/// An expression whose value is also written to a memory cell.
pub struct SaveIn<'a, T: Expr> {
    pub destination: &'a mut u64,
    pub inner: T,
}

/// The expression `inner` whose value is also written to `destination`.
/// The node holds the cell until it is dropped.
pub fn save_in<'a, T: Expr>(destination: &'a mut u64, inner: T) -> (node: SaveIn<'a, T>)
    ensures
        node.inner == inner,
        *node.destination == *old(destination),
        *final(node.destination) == *final(destination),
{
    SaveIn { destination, inner }
}

impl<'a, T: Expr> Expr for SaveIn<'a, T> {
    open spec fn safe_in(&self, ctx: Map<Seq<char>, u64>) -> bool {
        self.inner.safe_in(ctx)
    }

    /// The inner expression is evaluated, and the cell then holds its value.
    open spec fn evaluates(pre: Self, ctx: Map<Seq<char>, u64>, post: Self, out: u64) -> bool {
        &&& T::evaluates(pre.inner, ctx, post.inner, out)
        &&& *post.destination == out
    }

    /// The node holds the same cell before and after: what the cell holds
    /// in the end is decided by the node as it is left.
    fn exec_expr(&mut self, context: &Context) -> (out: u64)
        ensures
            *final(final(self).destination) == *final(old(self).destination),
    {
        let value = self.inner.exec_expr(context);
        *self.destination = value;
        value
    }
}

/// An expression evaluated with one name shadowed by what a memory cell
/// holds; its value is then written to that cell.
pub struct Volatile<'a, T: Expr> {
    pub destination: &'a mut u64,
    pub name: &'static str,
    pub inner: T,
}

/// The expression `inner` evaluated with `name` shadowed by what
/// `destination` holds, and its value written to `destination`. The node
/// holds the cell until it is dropped.
pub fn volatile<'a, T: Expr>(destination: &'a mut u64, name: &'static str, inner: T) -> (node:
    Volatile<'a, T>)
    ensures
        node.inner == inner,
        node.name == name,
        *node.destination == *old(destination),
        *final(node.destination) == *final(destination),
{
    Volatile { destination, name, inner }
}

impl<'a, T: Expr> Expr for Volatile<'a, T> {
    /// The inner expression is safe in the environment with the name bound
    /// to what the cell holds.
    open spec fn safe_in(&self, ctx: Map<Seq<char>, u64>) -> bool {
        self.inner.safe_in(ctx.insert(self.name@, *self.destination))
    }

    /// The inner expression is evaluated in the environment with the name
    /// bound to what the cell held; the cell then holds the value, and the
    /// name stays the same.
    open spec fn evaluates(pre: Self, ctx: Map<Seq<char>, u64>, post: Self, out: u64) -> bool {
        &&& T::evaluates(pre.inner, ctx.insert(pre.name@, *pre.destination), post.inner, out)
        &&& *post.destination == out
        &&& post.name == pre.name
    }

    /// The node holds the same cell before and after: what the cell holds
    /// in the end is decided by the node as it is left.
    fn exec_expr(&mut self, context: &Context) -> (out: u64)
        ensures
            *final(final(self).destination) == *final(old(self).destination),
    {
        let mut new_context = context.clone();
        new_context.insert(self.name, *self.destination);
        let value = self.inner.exec_expr(&new_context);
        *self.destination = value;
        value
    }
}

/// Executions are counted exactly: if each execution of a statement moves a
/// measure of it up by one, then `n` executions in a row move it up by `n`.
/// With [`Repeat`], whose execution is `N` executions of its inner
/// statement, a statement that logs each of its executions has logged `N`
/// more when the repetition is over.
pub proof fn runs_are_counted<T: Stmt>(
    pre: T,
    ctx: Map<Seq<char>, u64>,
    post: T,
    n: nat,
    measure: spec_fn(T) -> int,
)
    requires
        runs(pre, ctx, post, n),
        forall|a: T, b: T| #[trigger] T::executes(a, ctx, b) ==> measure(b) == measure(a) + 1,
    ensures
        measure(post) == measure(pre) + n,
    decreases n,
{
    if n > 0 {
        let mid = choose|mid: T|
            runs(pre, ctx, mid, (n - 1) as nat) && #[trigger] T::executes(mid, ctx, post);
        runs_are_counted(pre, ctx, mid, (n - 1) as nat, measure);
    }
}

/// A repetition of zero times leaves the statement as it was.
pub proof fn repeat_zero_times<T: Stmt>(pre: Repeat<0, T>, ctx: Map<Seq<char>, u64>, post: Repeat<0, T>)
    requires
        Repeat::<0, T>::executes(pre, ctx, post),
    ensures
        post.inner == pre.inner,
{
}

/// A conditional whose condition can only give zero leaves its true branch
/// as it was and takes its value from the false branch.
pub proof fn zero_skips_true_branch<C: Expr, T: Expr, F: Expr>(
    pre: When<C, T, F>,
    ctx: Map<Seq<char>, u64>,
    post: When<C, T, F>,
    out: u64,
)
    requires
        When::<C, T, F>::evaluates(pre, ctx, post, out),
        forall|after: C, c: u64| #[trigger] C::evaluates(pre.condition, ctx, after, c) ==> c == 0,
    ensures
        post.true_val == pre.true_val,
        F::evaluates(pre.false_val, ctx, post.false_val, out),
{
}

/// A conditional whose condition cannot give zero leaves its false branch
/// as it was and takes its value from the true branch.
pub proof fn nonzero_skips_false_branch<C: Expr, T: Expr, F: Expr>(
    pre: When<C, T, F>,
    ctx: Map<Seq<char>, u64>,
    post: When<C, T, F>,
    out: u64,
)
    requires
        When::<C, T, F>::evaluates(pre, ctx, post, out),
        forall|after: C, c: u64| #[trigger] C::evaluates(pre.condition, ctx, after, c) ==> c != 0,
    ensures
        post.false_val == pre.false_val,
        T::evaluates(pre.true_val, ctx, post.true_val, out),
{
}

/// Shadowing stays inside: the inner expression of a [`Volatile`] whose cell
/// held `held` before and holds `left` after sees the environment with the
/// node's name bound to `held`, whether or not the name was bound before,
/// and `left` is the value. The environment itself is a value that the
/// evaluation only reads: what the caller holds is `ctx` before and after.
pub proof fn shadow_is_local<'a, T: Expr>(
    pre: Volatile<'a, T>,
    ctx: Map<Seq<char>, u64>,
    post: Volatile<'a, T>,
    out: u64,
    held: u64,
    left: u64,
)
    requires
        Volatile::<'a, T>::evaluates(pre, ctx, post, out),
        held == *pre.destination,
        left == *post.destination,
    ensures
        T::evaluates(pre.inner, ctx.insert(pre.name@, held), post.inner, out),
        ctx.insert(pre.name@, held)[pre.name@] == held,
        left == out,
{
}

} // verus!
