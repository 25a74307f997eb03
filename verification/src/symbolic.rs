//! Symbolic expressions: an owned tree of sums, products, negations,
//! reciprocals, constants, variables and named functions, with rendering as
//! fully parenthesized text, differentiation, substitution and two
//! simplifications that strip doubled wrappers.
//!
//! Every contract is stated over [`Term`], the mathematical tree that an
//! expression stands for.
use crate::text::{decimal, decimal_i64, same_text};
use vstd::prelude::*;
use vstd::string::*;

verus! {

/// One of the three variables an expression can mention.
#[derive(Copy, Clone, Debug, PartialEq, Eq, Structural)]
pub enum Var {
    X,
    Y,
    Z,
}

/// A constant leaf: a number, or a symbol that stands for one.
#[derive(Debug)]
pub enum Const {
    Numeric(i64),
    Named(String),
}

/// An expression tree. Each node owns its children.
#[derive(Debug)]
pub enum E {
    Add(Box<E>, Box<E>),
    Neg(Box<E>),
    Mul(Box<E>, Box<E>),
    Inv(Box<E>),
    Const(Const),
    Func { name: String, arg: Box<E> },
    Var(Var),
}

/// The mathematical tree behind an [`E`]: names are character sequences and
/// numbers are unbounded integers.
pub enum Term {
    Add(Box<Term>, Box<Term>),
    Neg(Box<Term>),
    Mul(Box<Term>, Box<Term>),
    Inv(Box<Term>),
    Num(int),
    Sym(Seq<char>),
    Func(Seq<char>, Box<Term>),
    Var(Var),
}

/// The text of a variable: its upper-case letter.
pub open spec fn var_text(v: Var) -> Seq<char> {
    match v {
        Var::X => seq!['X'],
        Var::Y => seq!['Y'],
        Var::Z => seq!['Z'],
    }
}

impl Term {
    /// The sum `self + other`.
    pub open spec fn plus(self, other: Term) -> Term {
        Term::Add(Box::new(self), Box::new(other))
    }

    /// The product `self * other`.
    pub open spec fn times(self, other: Term) -> Term {
        Term::Mul(Box::new(self), Box::new(other))
    }

    /// The negation `-self`.
    pub open spec fn negated(self) -> Term {
        Term::Neg(Box::new(self))
    }

    /// The reciprocal `1/self`.
    pub open spec fn inverted(self) -> Term {
        Term::Inv(Box::new(self))
    }

    /// The application of the function `name` to `self`.
    pub open spec fn applied(self, name: Seq<char>) -> Term {
        Term::Func(name, Box::new(self))
    }

    /// Fully parenthesized infix text.
    pub open spec fn rendered(self) -> Seq<char>
        decreases self,
    {
        match self {
            Term::Add(a, b) => seq!['('] + a.rendered() + seq![' ', '+', ' '] + b.rendered()
                + seq![')'],
            Term::Neg(a) => seq!['-', '('] + a.rendered() + seq![')'],
            Term::Mul(a, b) => seq!['('] + a.rendered() + seq![' ', '*', ' '] + b.rendered()
                + seq![')'],
            Term::Inv(a) => seq!['1', '/', '('] + a.rendered() + seq![')'],
            Term::Num(n) => decimal(n),
            Term::Sym(name) => name,
            Term::Func(name, arg) => name + seq!['('] + arg.rendered() + seq![')'],
            Term::Var(v) => var_text(v),
        }
    }

    /// The name of the stand-in for the derivative of the function `name`
    /// with respect to `by`: the two joined by an underscore.
    pub open spec fn derived_name(name: Seq<char>, by: Var) -> Seq<char> {
        name + seq!['_'] + var_text(by)
    }

    /// The symbolic derivative with respect to `by`: sum, negation and product
    /// rules, the chain rule for a reciprocal, zero for a constant, one or zero
    /// for a variable, and for a function the stand-in named by
    /// [`Term::derived_name`], applied to the same argument and multiplied by
    /// the argument's derivative.
    pub open spec fn derivative(self, by: Var) -> Term
        decreases self,
    {
        match self {
            Term::Add(a, b) => a.derivative(by).plus(b.derivative(by)),
            Term::Neg(a) => a.derivative(by).negated(),
            Term::Mul(f, g) => f.derivative(by).times(*g).plus(f.times(g.derivative(by))),
            Term::Inv(f) => f.times(*f).inverted().negated().times(f.derivative(by)),
            Term::Num(_) => Term::Num(0),
            Term::Sym(_) => Term::Num(0),
            Term::Func(name, arg) => arg.applied(Term::derived_name(name, by)).times(
                arg.derivative(by),
            ),
            Term::Var(v) => if v == by {
                Term::Num(1)
            } else {
                Term::Num(0)
            },
        }
    }

    /// Whether the symbol `name` occurs as a constant leaf.
    pub open spec fn mentions(self, name: Seq<char>) -> bool
        decreases self,
    {
        match self {
            Term::Add(a, b) => a.mentions(name) || b.mentions(name),
            Term::Neg(a) => a.mentions(name),
            Term::Mul(a, b) => a.mentions(name) || b.mentions(name),
            Term::Inv(a) => a.mentions(name),
            Term::Num(_) => false,
            Term::Sym(s) => s == name,
            Term::Func(_, arg) => arg.mentions(name),
            Term::Var(_) => false,
        }
    }

    /// The tree with every constant leaf named `name` replaced by `value`.
    /// Function names are left alone.
    pub open spec fn substituted(self, name: Seq<char>, value: Term) -> Term
        decreases self,
    {
        match self {
            Term::Add(a, b) => a.substituted(name, value).plus(b.substituted(name, value)),
            Term::Neg(a) => a.substituted(name, value).negated(),
            Term::Mul(a, b) => a.substituted(name, value).times(b.substituted(name, value)),
            Term::Inv(a) => a.substituted(name, value).inverted(),
            Term::Num(n) => Term::Num(n),
            Term::Sym(s) => if s == name {
                value
            } else {
                Term::Sym(s)
            },
            Term::Func(f, arg) => arg.substituted(name, value).applied(f),
            Term::Var(v) => Term::Var(v),
        }
    }

    /// Whether the two outermost nodes are both negations.
    pub open spec fn is_double_neg(self) -> bool {
        self matches Term::Neg(a) && *a is Neg
    }

    /// Whether the two outermost nodes are both reciprocals.
    pub open spec fn is_double_inv(self) -> bool {
        self matches Term::Inv(a) && *a is Inv
    }

    /// The tree left when pairs of outermost negations are stripped for as
    /// long as there is a pair.
    pub open spec fn without_double_neg(self) -> Term
        decreases self,
    {
        match self {
            Term::Neg(a) => match *a {
                Term::Neg(b) => b.without_double_neg(),
                _ => self,
            },
            _ => self,
        }
    }

    /// The tree left when pairs of outermost reciprocals are stripped for as
    /// long as there is a pair.
    pub open spec fn without_double_inv(self) -> Term
        decreases self,
    {
        match self {
            Term::Inv(a) => match *a {
                Term::Inv(b) => b.without_double_inv(),
                _ => self,
            },
            _ => self,
        }
    }

    /// `self` under `layers` negations.
    pub open spec fn under_negations(self, layers: nat) -> Term
        decreases layers,
    {
        if layers == 0 {
            self
        } else {
            self.under_negations((layers - 1) as nat).negated()
        }
    }

    /// `self` under `layers` reciprocals.
    pub open spec fn under_inversions(self, layers: nat) -> Term
        decreases layers,
    {
        if layers == 0 {
            self
        } else {
            self.under_inversions((layers - 1) as nat).inverted()
        }
    }
}

impl View for Const {
    type V = Term;

    open spec fn view(&self) -> Term {
        match self {
            Const::Numeric(n) => Term::Num(*n as int),
            Const::Named(name) => Term::Sym(name@),
        }
    }
}

impl E {
    /// The tree that this expression stands for.
    pub open spec fn term(self) -> Term
        decreases self,
    {
        match self {
            E::Add(a, b) => (*a).term().plus((*b).term()),
            E::Neg(a) => (*a).term().negated(),
            E::Mul(a, b) => (*a).term().times((*b).term()),
            E::Inv(a) => (*a).term().inverted(),
            E::Const(c) => c.view(),
            E::Func { name, arg } => (*arg).term().applied(name@),
            E::Var(v) => Term::Var(v),
        }
    }
}

impl View for E {
    type V = Term;

    open spec fn view(&self) -> Term {
        self.term()
    }
}

impl Clone for Const {
    fn clone(&self) -> (copy: Self)
        ensures
            copy == *self,
    {
        match self {
            Const::Numeric(n) => Const::Numeric(*n),
            Const::Named(name) => Const::Named(name.clone()),
        }
    }
}

impl Clone for E {
    fn clone(&self) -> (copy: Self)
        ensures
            copy == *self,
        decreases self,
    {
        match self {
            E::Add(a, b) => E::Add(Box::new((&**a).clone()), Box::new((&**b).clone())),
            E::Neg(a) => E::Neg(Box::new((&**a).clone())),
            E::Mul(a, b) => E::Mul(Box::new((&**a).clone()), Box::new((&**b).clone())),
            E::Inv(a) => E::Inv(Box::new((&**a).clone())),
            E::Const(c) => E::Const(c.clone()),
            E::Func { name, arg } => E::Func {
                name: name.clone(),
                arg: Box::new((&**arg).clone()),
            },
            E::Var(v) => E::Var(*v),
        }
    }
}

impl Var {
    /// The variable's letter.
    pub fn letter(&self) -> (text: &'static str)
        ensures
            text@ == var_text(*self),
    {
        proof {
            reveal_strlit("X");
            reveal_strlit("Y");
            reveal_strlit("Z");
        }
        let text = match self {
            Var::X => "X",
            Var::Y => "Y",
            Var::Z => "Z",
        };
        assert(text@ =~= var_text(*self));
        text
    }

    /// The variable's text.
    pub fn to_string(&self) -> (text: String)
        ensures
            text@ == var_text(*self),
    {
        String::from_str(self.letter())
    }
}

impl Const {
    /// The constant's text: a number in decimal, a symbol as it is named.
    pub fn to_string(&self) -> (text: String)
        ensures
            text@ == self@.rendered(),
    {
        match self {
            Const::Numeric(n) => decimal_i64(*n),
            Const::Named(name) => name.clone(),
        }
    }
}

impl E {
    /// The sum of two expressions.
    pub fn add(arg1: Box<Self>, arg2: Box<Self>) -> (sum: Box<Self>)
        ensures
            sum@ == arg1@.plus(arg2@),
    {
        Box::new(Self::Add(arg1, arg2))
    }

    /// A variable.
    pub fn var(arg1: Var) -> (leaf: Box<Self>)
        ensures
            leaf@ == Term::Var(arg1),
    {
        Box::new(Self::Var(arg1))
    }

    /// A constant.
    pub fn constant(c: Const) -> (leaf: Box<Self>)
        ensures
            leaf@ == c@,
    {
        Box::new(Self::Const(c))
    }

    /// The product of two expressions.
    pub fn mul(arg1: Box<Self>, arg2: Box<Self>) -> (product: Box<Self>)
        ensures
            product@ == arg1@.times(arg2@),
    {
        Box::new(Self::Mul(arg1, arg2))
    }

    /// The reciprocal of an expression.
    pub fn inv(arg1: Box<Self>) -> (reciprocal: Box<Self>)
        ensures
            reciprocal@ == arg1@.inverted(),
    {
        Box::new(Self::Inv(arg1))
    }

    /// The negation of an expression.
    pub fn neg(arg1: Box<Self>) -> (negation: Box<Self>)
        ensures
            negation@ == arg1@.negated(),
    {
        Box::new(Self::Neg(arg1))
    }

    /// The application of a named function to an expression.
    pub fn func(name: String, arg: Box<Self>) -> (application: Box<Self>)
        ensures
            application@ == arg@.applied(name@),
    {
        Box::new(Self::Func { name, arg })
    }

    /// How many operands the outermost node has: two for a sum or a product,
    /// none for a constant or a variable, one otherwise.
    pub fn arg_count(&self) -> (count: u32)
        ensures
            count == match self@ {
                Term::Add(_, _) | Term::Mul(_, _) => 2u32,
                Term::Num(_) | Term::Sym(_) | Term::Var(_) => 0u32,
                _ => 1u32,
            },
    {
        match &self {
            E::Add(_, _) | E::Mul(_, _) => 2,
            E::Const(_) | E::Var(_) => 0,
            _ => 1,
        }
    }

    /// Appends the expression's text to `out`.
    fn render_into(&self, out: &mut String)
        ensures
            final(out)@ == old(out)@ + self@.rendered(),
        decreases self,
    {
        proof {
            reveal_strlit("(");
            reveal_strlit(")");
            reveal_strlit(" + ");
            reveal_strlit(" * ");
            reveal_strlit("-(");
            reveal_strlit("1/(");
        }
        match self {
            E::Add(e1, e2) => {
                out.append("(");
                e1.render_into(out);
                out.append(" + ");
                e2.render_into(out);
                out.append(")");
            },
            E::Neg(e) => {
                out.append("-(");
                e.render_into(out);
                out.append(")");
            },
            E::Mul(e1, e2) => {
                out.append("(");
                e1.render_into(out);
                out.append(" * ");
                e2.render_into(out);
                out.append(")");
            },
            E::Inv(e) => {
                out.append("1/(");
                e.render_into(out);
                out.append(")");
            },
            E::Const(c) => {
                let text = c.to_string();
                out.append(text.as_str());
            },
            E::Var(v) => {
                out.append(v.letter());
            },
            E::Func { name, arg } => {
                out.append(name.as_str());
                out.append("(");
                arg.render_into(out);
                out.append(")");
            },
        }
        assert(final(out)@ =~= old(out)@ + self@.rendered());
    }

    /// The expression as fully parenthesized infix text. The text depends on
    /// the tree alone, so rendering the same tree again gives the same text.
    pub fn to_string(&self) -> (text: String)
        ensures
            text@ == self@.rendered(),
    {
        let mut text = String::new();
        self.render_into(&mut text);
        assert(text@ =~= self@.rendered());
        text
    }

    /// The derivative with respect to `by`.
    pub fn diff(self, by: Var) -> (derivative: Box<Self>)
        ensures
            derivative@ == self@.derivative(by),
        decreases self,
    {
        match self {
            Self::Add(e1, e2) => Self::add((*e1).diff(by), (*e2).diff(by)),
            Self::Neg(e) => Self::neg((*e).diff(by)),
            Self::Mul(e1, e2) => {
                let f = e1.clone();
                let g = e2.clone();
                let f_prime = (*e1).diff(by);
                let g_prime = (*e2).diff(by);
                Self::add(Self::mul(f_prime, g), Self::mul(f, g_prime))
            },
            Self::Inv(e) => {
                let f = e.clone();
                let f_prime = (*e).diff(by);
                let f_squared = Self::mul(f.clone(), f);
                Self::mul(Self::neg(Self::inv(f_squared)), f_prime)
            },
            Self::Const(_) => Self::constant(Const::Numeric(0)),
            Self::Var(v) => {
                if v == by {
                    Self::constant(Const::Numeric(1))
                } else {
                    Self::constant(Const::Numeric(0))
                }
            },
            Self::Func { name, arg } => {
                proof {
                    reveal_strlit("_");
                }
                let mut derived = name;
                derived.append("_");
                derived.append(by.letter());
                assert(derived@ =~= Term::derived_name(name@, by));
                let f_diff = Self::func(derived, arg.clone());
                let arg_diff = (*arg).diff(by);
                Self::mul(f_diff, arg_diff)
            },
        }
    }

    /// The operand of the inner of two outermost reciprocals, if the two
    /// outermost nodes are reciprocals.
    pub fn unpack_inv_inv(self) -> (inner: Option<Box<Self>>)
        ensures
            inner is Some <==> self@.is_double_inv(),
            inner matches Some(e) ==> self@ == e@.inverted().inverted(),
    {
        proof {
            reveal_with_fuel(E::term, 2);
        }
        match self {
            Self::Inv(in1) => match *in1 {
                Self::Inv(in2) => Some(in2),
                _ => None,
            },
            _ => None,
        }
    }

    /// The operand of the inner of two outermost negations, if the two
    /// outermost nodes are negations.
    pub fn unpack_neg_neg(self) -> (inner: Option<Box<Self>>)
        ensures
            inner is Some <==> self@.is_double_neg(),
            inner matches Some(e) ==> self@ == e@.negated().negated(),
    {
        proof {
            reveal_with_fuel(E::term, 2);
        }
        match self {
            Self::Neg(neg) => match *neg {
                Self::Neg(res) => Some(res),
                _ => None,
            },
            _ => None,
        }
    }

    /// Every constant leaf named `name` replaced by a copy of `value`.
    pub fn substitute(self, name: &str, value: Box<Self>) -> (replaced: Box<Self>)
        ensures
            replaced@ == self@.substituted(name@, value@),
        decreases self,
    {
        match self {
            Self::Add(e1, e2) => Self::add(
                (*e1).substitute(name, value.clone()),
                (*e2).substitute(name, value),
            ),
            Self::Neg(e) => Self::neg((*e).substitute(name, value)),
            Self::Mul(e1, e2) => Self::mul(
                (*e1).substitute(name, value.clone()),
                (*e2).substitute(name, value),
            ),
            Self::Inv(e) => Self::inv((*e).substitute(name, value)),
            Self::Var(v) => Self::var(v),
            Self::Func { name: n, arg } => Self::func(n, (*arg).substitute(name, value)),
            Self::Const(Const::Named(n)) => {
                if same_text(n.as_str(), name) {
                    value
                } else {
                    Self::constant(Const::Named(n))
                }
            },
            Self::Const(c) => Self::constant(c),
        }
    }

    /// Strips pairs of outermost reciprocals until fewer than two are left.
    pub fn uninv(self: Box<Self>) -> (stripped: Box<Self>)
        ensures
            stripped@ == self@.without_double_inv(),
            !stripped@.is_double_inv(),
    {
        let ghost start = self@;
        let mut current = self;
        loop
            invariant
                current@.without_double_inv() == start.without_double_inv(),
            ensures
                !current@.is_double_inv(),
                current@.without_double_inv() == start.without_double_inv(),
            decreases current@,
        {
            match (*current).clone().unpack_inv_inv() {
                Some(next) => {
                    current = next;
                },
                None => {
                    break ;
                },
            }
        }
        current
    }

    /// Strips pairs of outermost negations until fewer than two are left.
    pub fn unneg(self: Box<Self>) -> (stripped: Box<Self>)
        ensures
            stripped@ == self@.without_double_neg(),
            !stripped@.is_double_neg(),
    {
        let ghost start = self@;
        let mut current = self;
        loop
            invariant
                current@.without_double_neg() == start.without_double_neg(),
            ensures
                !current@.is_double_neg(),
                current@.without_double_neg() == start.without_double_neg(),
            decreases current@,
        {
            match (*current).clone().unpack_neg_neg() {
                Some(next) => {
                    current = next;
                },
                None => {
                    break ;
                },
            }
        }
        current
    }
}

/// Rendering is a function of the tree: two expressions that stand for the
/// same tree have the same text, however often either is rendered.
pub proof fn rendering_is_deterministic(a: E, b: E)
    requires
        a@ == b@,
    ensures
        a@.rendered() == b@.rendered(),
{
}

/// The derivative of a sum is the sum of the derivatives.
pub proof fn derivative_of_sum(f: Term, g: Term, by: Var)
    ensures
        f.plus(g).derivative(by) == f.derivative(by).plus(g.derivative(by)),
{
}

/// The derivative of a product follows the product rule: `f' * g + f * g'`.
pub proof fn derivative_of_product(f: Term, g: Term, by: Var)
    ensures
        f.times(g).derivative(by) == f.derivative(by).times(g).plus(f.times(g.derivative(by))),
{
}

/// The derivative of a constant, numeric or named, is the number zero.
pub proof fn derivative_of_constant(c: Const, by: Var)
    ensures
        c@.derivative(by) == Term::Num(0),
{
}

/// Stripping doubled negations from a tree that is not itself a negation,
/// wrapped in `layers` negations, leaves it under one negation if `layers` is
/// odd and under none if it is even.
pub proof fn negations_cancel_in_pairs(core: Term, layers: nat)
    requires
        core !is Neg,
    ensures
        core.under_negations(layers).without_double_neg() == core.under_negations(layers % 2),
    decreases layers,
{
    reveal_with_fuel(Term::under_negations, 3);
    if layers >= 2 {
        negations_cancel_in_pairs(core, (layers - 2) as nat);
        assert(core.under_negations(layers) == core.under_negations(
            (layers - 2) as nat,
        ).negated().negated());
    }
}

/// A tree that is not itself a negation, wrapped in an even number of
/// negations, comes out of the stripping with no negation left around it.
pub proof fn even_negations_vanish(core: Term, pairs: nat)
    requires
        core !is Neg,
    ensures
        core.under_negations(2 * pairs).without_double_neg() == core,
{
    negations_cancel_in_pairs(core, 2 * pairs);
}

/// Stripping doubled reciprocals from a tree that is not itself a reciprocal,
/// wrapped in `layers` reciprocals, leaves it under one reciprocal if
/// `layers` is odd and under none if it is even.
pub proof fn inversions_cancel_in_pairs(core: Term, layers: nat)
    requires
        core !is Inv,
    ensures
        core.under_inversions(layers).without_double_inv() == core.under_inversions(layers % 2),
    decreases layers,
{
    reveal_with_fuel(Term::under_inversions, 3);
    if layers >= 2 {
        inversions_cancel_in_pairs(core, (layers - 2) as nat);
        assert(core.under_inversions(layers) == core.under_inversions(
            (layers - 2) as nat,
        ).inverted().inverted());
    }
}

/// A tree that is not itself a reciprocal, wrapped in an even number of
/// reciprocals, comes out of the stripping with no reciprocal left around it.
pub proof fn even_inversions_vanish(core: Term, pairs: nat)
    requires
        core !is Inv,
    ensures
        core.under_inversions(2 * pairs).without_double_inv() == core,
{
    inversions_cancel_in_pairs(core, 2 * pairs);
}

/// Substituting for a symbol that does not occur changes nothing: the tree,
/// and so its text, stay as they were.
pub proof fn substitution_without_match(t: Term, name: Seq<char>, value: Term)
    requires
        !t.mentions(name),
    ensures
        t.substituted(name, value) == t,
        t.substituted(name, value).rendered() == t.rendered(),
    decreases t,
{
    match t {
        Term::Add(a, b) => {
            substitution_without_match(*a, name, value);
            substitution_without_match(*b, name, value);
        },
        Term::Neg(a) => {
            substitution_without_match(*a, name, value);
        },
        Term::Mul(a, b) => {
            substitution_without_match(*a, name, value);
            substitution_without_match(*b, name, value);
        },
        Term::Inv(a) => {
            substitution_without_match(*a, name, value);
        },
        Term::Func(_, arg) => {
            substitution_without_match(*arg, name, value);
        },
        _ => {},
    }
}

} // verus!
