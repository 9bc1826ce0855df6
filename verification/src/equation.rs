//! Expression trees for boolean equations, their mathematical model, and
//! the basic operations on them.

use vstd::prelude::*;

use crate::assignment::Assignment;
use crate::order::{has_name, insert_name, lex_lt, sorted_names};

verus! {

broadcast use {vstd::std_specs::vec::group_vec_axioms, vstd::seq::group_seq_axioms};

/// Mathematical model of an expression tree.
///
/// A `Sum` keeps two child lists, mirroring the executable type: the working
/// children and the side list of children already confirmed simplified.
pub enum Expr {
    Sum(Seq<Expr>, Seq<Expr>),
    Prod(Seq<Expr>),
    Not(Box<Expr>),
    Var(Seq<char>),
}

/// A boolean expression: a disjunction, a conjunction, a negation, or a
/// named variable.
#[derive(Debug, PartialEq)]
pub enum Equation {
    Sum(Box<Sum>),
    Prod(Box<Prod>),
    Not(Box<Not>),
    Var(String),
}

/// Disjunction node. `already_simplified` is the side list used by the
/// fixed-point loop; it is empty outside of it.
#[derive(Debug, PartialEq)]
pub struct Sum {
    pub inner: Vec<Equation>,
    pub already_simplified: Vec<Equation>,
}

/// Conjunction node.
#[derive(Debug, PartialEq)]
pub struct Prod {
    pub inner: Vec<Equation>,
}

/// Negation node.
#[derive(Debug, PartialEq)]
pub struct Not {
    pub inner: Equation,
}

impl View for Equation {
    type V = Expr;

    open spec fn view(&self) -> Expr
        decreases self,
    {
        match self {
            Equation::Sum(s) => Expr::Sum(views_of(s.inner@), views_of(s.already_simplified@)),
            Equation::Prod(p) => Expr::Prod(views_of(p.inner@)),
            Equation::Not(n) => Expr::Not(Box::new(n.inner@)),
            Equation::Var(name) => Expr::Var(name@),
        }
    }
}

/// The models of a list of trees, in order.
pub open spec fn views_of(s: Seq<Equation>) -> Seq<Expr>
    decreases s,
{
    Seq::new(
        s.len(),
        |i: int|
            if 0 <= i < s.len() {
                s[i]@
            } else {
                Expr::Prod(Seq::empty())
            },
    )
}

/// Truth value of a model tree under an assignment of variables.
/// The side list of a `Sum` takes part in the disjunction.
pub open spec fn eval_spec(e: Expr, m: Map<Seq<char>, bool>) -> bool
    decreases e,
{
    match e {
        Expr::Sum(kept, shelved) => eval_or(kept, m) || eval_or(shelved, m),
        Expr::Prod(items) => eval_and(items, m),
        Expr::Not(inner) => !eval_spec(*inner, m),
        Expr::Var(name) => m[name],
    }
}

/// Disjunction of the truth values of a list of trees.
pub open spec fn eval_or(l: Seq<Expr>, m: Map<Seq<char>, bool>) -> bool
    decreases l,
{
    l.len() > 0 && (eval_spec(l[0], m) || eval_or(l.drop_first(), m))
}

/// Conjunction of the truth values of a list of trees.
pub open spec fn eval_and(l: Seq<Expr>, m: Map<Seq<char>, bool>) -> bool
    decreases l,
{
    l.len() == 0 || (eval_spec(l[0], m) && eval_and(l.drop_first(), m))
}

/// Whether the variable `name` occurs anywhere in the tree, side lists
/// included.
pub open spec fn appears(e: Expr, name: Seq<char>) -> bool
    decreases e,
{
    match e {
        Expr::Sum(kept, shelved) => appears_in_list(kept, name) || appears_in_list(shelved, name),
        Expr::Prod(items) => appears_in_list(items, name),
        Expr::Not(inner) => appears(*inner, name),
        Expr::Var(n) => n == name,
    }
}

/// Whether `name` occurs in some tree of the list.
pub open spec fn appears_in_list(l: Seq<Expr>, name: Seq<char>) -> bool
    decreases l,
{
    l.len() > 0 && (appears(l[0], name) || appears_in_list(l.drop_first(), name))
}

/// All side lists are empty: the tree is not in the middle of a
/// fixed-point pass.
pub open spec fn clean(e: Expr) -> bool
    decreases e,
{
    match e {
        Expr::Sum(kept, shelved) => shelved.len() == 0 && clean_list(kept),
        Expr::Prod(items) => clean_list(items),
        Expr::Not(inner) => clean(*inner),
        Expr::Var(_) => true,
    }
}

/// Every tree of the list is clean.
pub open spec fn clean_list(l: Seq<Expr>) -> bool
    decreases l,
{
    l.len() == 0 || (clean(l[0]) && clean_list(l.drop_first()))
}

/// A disjunction over a list is true exactly when some member is true.
pub proof fn lemma_eval_or_iff(l: Seq<Expr>, m: Map<Seq<char>, bool>)
    ensures
        eval_or(l, m) <==> exists|i: int| 0 <= i < l.len() && eval_spec(#[trigger] l[i], m),
    decreases l.len(),
{
    if l.len() > 0 {
        lemma_eval_or_iff(l.drop_first(), m);
        assert forall|j: int| 0 <= j < l.drop_first().len() implies #[trigger] l.drop_first()[j]
            == l[j + 1] by {}
        if eval_or(l, m) {
            if eval_spec(l[0], m) {
                assert(eval_spec(l[0], m));
            } else {
                let j = choose|j: int|
                    0 <= j < l.drop_first().len() && eval_spec(#[trigger] l.drop_first()[j], m);
                assert(eval_spec(l[j + 1], m));
            }
        }
        if exists|i: int| 0 <= i < l.len() && eval_spec(#[trigger] l[i], m) {
            let i = choose|i: int| 0 <= i < l.len() && eval_spec(#[trigger] l[i], m);
            if i > 0 {
                assert(eval_spec(l.drop_first()[i - 1], m));
            }
        }
    }
}

/// A conjunction over a list is true exactly when every member is true.
pub proof fn lemma_eval_and_iff(l: Seq<Expr>, m: Map<Seq<char>, bool>)
    ensures
        eval_and(l, m) <==> forall|i: int| 0 <= i < l.len() ==> eval_spec(#[trigger] l[i], m),
    decreases l.len(),
{
    if l.len() > 0 {
        lemma_eval_and_iff(l.drop_first(), m);
        assert forall|j: int| 0 <= j < l.drop_first().len() implies #[trigger] l.drop_first()[j]
            == l[j + 1] by {}
        if eval_and(l, m) {
            assert forall|i: int| 0 <= i < l.len() implies eval_spec(#[trigger] l[i], m) by {
                if i > 0 {
                    assert(eval_spec(l.drop_first()[i - 1], m));
                }
            }
        }
        if forall|i: int| 0 <= i < l.len() ==> eval_spec(#[trigger] l[i], m) {
            assert forall|j: int|
                0 <= j < l.drop_first().len() implies eval_spec(
                #[trigger] l.drop_first()[j],
                m,
            ) by {
                assert(eval_spec(l[j + 1], m));
            }
        }
    }
}

/// A variable occurs in a list exactly when it occurs in some member.
pub proof fn lemma_appears_in_list_iff(l: Seq<Expr>, name: Seq<char>)
    ensures
        appears_in_list(l, name) <==> exists|i: int|
            0 <= i < l.len() && appears(#[trigger] l[i], name),
    decreases l.len(),
{
    if l.len() > 0 {
        lemma_appears_in_list_iff(l.drop_first(), name);
        assert forall|j: int| 0 <= j < l.drop_first().len() implies #[trigger] l.drop_first()[j]
            == l[j + 1] by {}
        if appears_in_list(l, name) {
            if appears(l[0], name) {
                assert(appears(l[0], name));
            } else {
                let j = choose|j: int|
                    0 <= j < l.drop_first().len() && appears(#[trigger] l.drop_first()[j], name);
                assert(appears(l[j + 1], name));
            }
        }
        if exists|i: int| 0 <= i < l.len() && appears(#[trigger] l[i], name) {
            let i = choose|i: int| 0 <= i < l.len() && appears(#[trigger] l[i], name);
            if i > 0 {
                assert(appears(l.drop_first()[i - 1], name));
            }
        }
    }
}

/// A list is clean exactly when every member is clean.
pub proof fn lemma_clean_list_iff(l: Seq<Expr>)
    ensures
        clean_list(l) <==> forall|i: int| 0 <= i < l.len() ==> clean(#[trigger] l[i]),
    decreases l.len(),
{
    if l.len() > 0 {
        lemma_clean_list_iff(l.drop_first());
        assert forall|j: int| 0 <= j < l.drop_first().len() implies #[trigger] l.drop_first()[j]
            == l[j + 1] by {}
        if clean_list(l) {
            assert forall|i: int| 0 <= i < l.len() implies clean(#[trigger] l[i]) by {
                if i > 0 {
                    assert(clean(l.drop_first()[i - 1]));
                }
            }
        }
        if forall|i: int| 0 <= i < l.len() ==> clean(#[trigger] l[i]) {
            assert forall|j: int|
                0 <= j < l.drop_first().len() implies clean(#[trigger] l.drop_first()[j]) by {
                assert(clean(l[j + 1]));
            }
        }
    }
}

impl Equation {
    /// Structural equality of two trees: same shape, same variable names,
    /// side lists included.
    pub fn deep_equals(&self, other: &Equation) -> (r: bool)
        ensures
            r == (self@ == other@),
        decreases self,
    {
        match (self, other) {
            (Equation::Var(a), Equation::Var(b)) => a.eq(b),
            (Equation::Not(a), Equation::Not(b)) => a.inner.deep_equals(&b.inner),
            (Equation::Prod(a), Equation::Prod(b)) => vec_deep_equals(&a.inner, &b.inner),
            (Equation::Sum(a), Equation::Sum(b)) => {
                let r1 = vec_deep_equals(&a.inner, &b.inner);
                if r1 {
                    vec_deep_equals(&a.already_simplified, &b.already_simplified)
                } else {
                    false
                }
            },
            _ => false,
        }
    }

    /// An identical copy of the tree.
    pub fn deep_clone(&self) -> (r: Equation)
        ensures
            r@ == self@,
        decreases self,
    {
        match self {
            Equation::Var(name) => Equation::Var(name.clone()),
            Equation::Not(n) => Equation::Not(Box::new(Not { inner: n.inner.deep_clone() })),
            Equation::Prod(p) => Equation::Prod(Box::new(Prod { inner: vec_deep_clone(&p.inner) })),
            Equation::Sum(s) => Equation::Sum(
                Box::new(
                    Sum {
                        inner: vec_deep_clone(&s.inner),
                        already_simplified: vec_deep_clone(&s.already_simplified),
                    },
                ),
            ),
        }
    }
}

/// Elementwise structural equality of two lists of trees.
#[verifier::loop_isolation(false)]
fn vec_deep_equals(a: &Vec<Equation>, b: &Vec<Equation>) -> (r: bool)
    ensures
        r == (views_of(a@) == views_of(b@)),
    decreases a,
{
    if a.len() != b.len() {
        proof {
            assert(views_of(a@).len() != views_of(b@).len());
        }
        false
    } else {
        let mut i: usize = 0;
        while i < a.len()
            invariant
                a@.len() == b@.len(),
                i <= a@.len(),
                forall|j: int| 0 <= j < i ==> views_of(a@)[j] == views_of(b@)[j],
            decreases a@.len() - i,
        {
            if !a[i].deep_equals(&b[i]) {
                proof {
                    assert(views_of(a@)[i as int] != views_of(b@)[i as int]);
                }
                return false;
            }
            i = i + 1;
        }
        proof {
            assert(views_of(a@) =~= views_of(b@));
        }
        true
    }
}

/// An identical copy of a list of trees.
#[verifier::loop_isolation(false)]
pub(crate) fn vec_deep_clone(a: &Vec<Equation>) -> (r: Vec<Equation>)
    ensures
        views_of(r@) == views_of(a@),
        r@.len() == a@.len(),
        forall|j: int| 0 <= j < a@.len() ==> #[trigger] r@[j]@ == a@[j]@,
    decreases a,
{
    let mut r: Vec<Equation> = Vec::new();
    let mut i: usize = 0;
    while i < a.len()
        invariant
            i <= a@.len(),
            r@.len() == i,
            forall|j: int| 0 <= j < i ==> #[trigger] r@[j]@ == a@[j]@,
        decreases a@.len() - i,
    {
        let c = a[i].deep_clone();
        r.push(c);
        i = i + 1;
    }
    proof {
        assert forall|j: int| 0 <= j < r@.len() implies views_of(r@)[j] == views_of(a@)[j] by {
            assert(r@[j]@ == a@[j]@);
        }
        assert(views_of(r@) =~= views_of(a@));
    }
    r
}

impl Equation {
    /// Truth value of the expression under `vars`. Every variable of the
    /// expression must be bound.
    #[verifier::loop_isolation(false)]
    pub fn eval(&self, vars: &Assignment) -> (r: bool)
        requires
            clean(self@),
            forall|n: Seq<char>| appears(self@, n) ==> #[trigger] vars@.dom().contains(n),
        ensures
            r == eval_spec(self@, vars@),
        decreases self,
    {
        match self {
            Equation::Sum(s) => {
                let ghost kept = views_of(s.inner@);
                let ghost shelved = views_of(s.already_simplified@);
                proof {
                    assert(self@ == Expr::Sum(kept, shelved));
                    lemma_clean_list_iff(kept);
                    lemma_eval_or_iff(kept, vars@);
                }
                let mut i: usize = 0;
                while i < s.inner.len()
                    invariant
                        i <= s.inner@.len(),
                        forall|j: int| 0 <= j < i ==> !eval_spec(kept[j], vars@),
                    decreases s.inner@.len() - i,
                {
                    proof {
                        assert(clean(kept[i as int]));
                        assert forall|n: Seq<char>|
                            appears(s.inner@[i as int]@, n) implies #[trigger] vars@.dom().contains(
                            n,
                        ) by {
                            lemma_appears_in_list_iff(kept, n);
                            assert(appears_in_list(kept, n));
                        }
                    }
                    if s.inner[i].eval(vars) {
                        return true;
                    }
                    i = i + 1;
                }
                proof {
                    assert(shelved.len() == 0);
                    assert(!eval_or(shelved, vars@));
                    assert(!eval_or(kept, vars@));
                }
                false
            },
            Equation::Prod(p) => {
                let ghost items = views_of(p.inner@);
                proof {
                    assert(self@ == Expr::Prod(items));
                    lemma_clean_list_iff(items);
                    lemma_eval_and_iff(items, vars@);
                }
                let mut i: usize = 0;
                while i < p.inner.len()
                    invariant
                        i <= p.inner@.len(),
                        forall|j: int| 0 <= j < i ==> eval_spec(items[j], vars@),
                    decreases p.inner@.len() - i,
                {
                    proof {
                        assert(clean(items[i as int]));
                        assert forall|n: Seq<char>|
                            appears(p.inner@[i as int]@, n) implies #[trigger] vars@.dom().contains(
                            n,
                        ) by {
                            lemma_appears_in_list_iff(items, n);
                            assert(appears_in_list(items, n));
                        }
                    }
                    if !p.inner[i].eval(vars) {
                        proof {
                            assert(!eval_spec(items[i as int], vars@));
                        }
                        return false;
                    }
                    i = i + 1;
                }
                true
            },
            Equation::Not(n) => !n.inner.eval(vars),
            Equation::Var(name) => {
                proof {
                    assert(appears(self@, name@));
                }
                match vars.get(name) {
                    Some(b) => b,
                    None => {
                        proof {
                            assert(false);
                        }
                        false
                    },
                }
            },
        }
    }

    /// The names of the variables of the expression, sorted, each once.
    pub fn get_vars(&self) -> (r: Vec<String>)
        requires
            clean(self@),
        ensures
            sorted_names(r@),
            forall|n: Seq<char>| #[trigger] has_name(r@, n) <==> appears(self@, n),
    {
        let mut acc: Vec<String> = Vec::new();
        self.collect_vars(&mut acc);
        acc
    }

    /// The names of the variables of the expression, sorted, each once.
    pub fn get_owned_vars(&self) -> (r: Vec<String>)
        requires
            clean(self@),
        ensures
            sorted_names(r@),
            forall|n: Seq<char>| #[trigger] has_name(r@, n) <==> appears(self@, n),
    {
        self.get_vars()
    }

    /// The first variable name in sorted order: the least name that occurs.
    pub fn get_only_var(&self) -> (r: String)
        requires
            clean(self@),
            exists|n: Seq<char>| appears(self@, n),
        ensures
            appears(self@, r@),
            forall|n: Seq<char>| appears(self@, n) ==> n == r@ || lex_lt(r@, n),
    {
        let vars = self.get_vars();
        proof {
            let n = choose|n: Seq<char>| appears(self@, n);
            assert(has_name(vars@, n));
            assert(vars@.len() > 0);
            assert(appears(self@, vars@[0]@)) by {
                assert(has_name(vars@, vars@[0]@));
            }
            assert forall|n2: Seq<char>| appears(self@, n2) implies n2 == vars@[0]@ || lex_lt(
                vars@[0]@,
                n2,
            ) by {
                assert(has_name(vars@, n2));
                let k = choose|k: int| 0 <= k < vars@.len() && vars@[k]@ == n2;
                if k > 0 {
                    assert(lex_lt(vars@[0]@, vars@[k]@));
                }
            }
        }
        let r = &vars[0];
        r.clone()
    }

    /// Adds the variables of the expression to a sorted name list.
    fn collect_vars(&self, acc: &mut Vec<String>)
        requires
            clean(self@),
            sorted_names(old(acc)@),
        ensures
            sorted_names(final(acc)@),
            forall|n: Seq<char>|
                #[trigger] has_name(final(acc)@, n) <==> (has_name(old(acc)@, n) || appears(
                    self@,
                    n,
                )),
        decreases self,
    {
        match self {
            Equation::Var(name) => {
                insert_name(acc, name);
            },
            Equation::Not(n) => {
                n.inner.collect_vars(acc);
            },
            Equation::Prod(p) => {
                proof {
                    assert(self@ == Expr::Prod(views_of(p.inner@)));
                    assert(clean_list(views_of(p.inner@)));
                }
                collect_vars_list(&p.inner, acc);
            },
            Equation::Sum(s) => {
                proof {
                    assert(self@ == Expr::Sum(views_of(s.inner@), views_of(s.already_simplified@)));
                    assert(clean_list(views_of(s.inner@)));
                }
                collect_vars_list(&s.inner, acc);
                proof {
                    assert(views_of(s.already_simplified@).len() == 0);
                    assert(!appears_in_list(views_of(s.already_simplified@), Seq::empty()));
                    assert forall|n: Seq<char>|
                        appears(self@, n) == appears_in_list(views_of(s.inner@), n) by {
                        assert(!appears_in_list(views_of(s.already_simplified@), n));
                    }
                }
            },
        }
    }
}

/// Adds the variables of every tree in the list to a sorted name list.
#[verifier::loop_isolation(false)]
fn collect_vars_list(items: &Vec<Equation>, acc: &mut Vec<String>)
    requires
        clean_list(views_of(items@)),
        sorted_names(old(acc)@),
    ensures
        sorted_names(final(acc)@),
        forall|n: Seq<char>|
            #[trigger] has_name(final(acc)@, n) <==> (has_name(old(acc)@, n) || appears_in_list(
                views_of(items@),
                n,
            )),
    decreases items,
{
    proof {
        lemma_clean_list_iff(views_of(items@));
    }
    let mut i: usize = 0;
    while i < items.len()
        invariant
            i <= items@.len(),
            sorted_names(acc@),
            forall|n: Seq<char>|
                #[trigger] has_name(acc@, n) <==> (has_name(old(acc)@, n) || exists|j: int|
                    0 <= j < i && appears(#[trigger] views_of(items@)[j], n)),
        decreases items@.len() - i,
    {
        let ghost before = acc@;
        proof {
            assert(clean(views_of(items@)[i as int]));
        }
        items[i].collect_vars(acc);
        proof {
            assert forall|n: Seq<char>|
                #[trigger] has_name(acc@, n) <==> (has_name(old(acc)@, n) || exists|j: int|
                    0 <= j < i + 1 && appears(#[trigger] views_of(items@)[j], n)) by {
                if has_name(acc@, n) {
                    if !has_name(before, n) {
                        assert(appears(views_of(items@)[i as int], n));
                    }
                }
                if has_name(old(acc)@, n) {
                    assert(has_name(before, n));
                }
                if exists|j: int| 0 <= j < i + 1 && appears(#[trigger] views_of(items@)[j], n) {
                    let j = choose|j: int|
                        0 <= j < i + 1 && appears(#[trigger] views_of(items@)[j], n);
                    if j < i {
                        assert(has_name(before, n));
                    } else {
                        assert(appears(items@[i as int]@, n));
                    }
                }
            }
        }
        i = i + 1;
    }
    proof {
        lemma_appears_in_list_iff(views_of(items@), Seq::empty());
        assert forall|n: Seq<char>|
            #[trigger] has_name(acc@, n) <==> (has_name(old(acc)@, n) || appears_in_list(
                views_of(items@),
                n,
            )) by {
            lemma_appears_in_list_iff(views_of(items@), n);
        }
    }
}

/// A literal: a variable or a negated variable.
pub open spec fn is_literal(e: Expr) -> bool {
    match e {
        Expr::Var(_) => true,
        Expr::Not(inner) => *inner is Var,
        _ => false,
    }
}

/// Every tree of the list is a literal.
pub open spec fn all_literals(l: Seq<Expr>) -> bool
    decreases l,
{
    l.len() == 0 || (is_literal(l[0]) && all_literals(l.drop_first()))
}

/// A term of a sum-of-products: a literal or a product of literals.
pub open spec fn is_sop_term(e: Expr) -> bool {
    is_literal(e) || (match e {
        Expr::Prod(items) => all_literals(items),
        _ => false,
    })
}

/// Every tree of the list is a term of a sum-of-products.
pub open spec fn all_sop_terms(l: Seq<Expr>) -> bool
    decreases l,
{
    l.len() == 0 || (is_sop_term(l[0]) && all_sop_terms(l.drop_first()))
}

/// The tree is in sum-of-products form: a sum of products of literals, a
/// product of literals, or a single literal, with an empty side list.
pub open spec fn is_sop(e: Expr) -> bool {
    match e {
        Expr::Sum(kept, shelved) => shelved.len() == 0 && all_sop_terms(kept),
        Expr::Prod(items) => all_literals(items),
        Expr::Not(inner) => *inner is Var,
        Expr::Var(_) => true,
    }
}

/// No `Sum` node occurs anywhere in the tree.
pub open spec fn sum_free(e: Expr) -> bool
    decreases e,
{
    match e {
        Expr::Sum(_, _) => false,
        Expr::Prod(items) => sum_free_list(items),
        Expr::Not(inner) => sum_free(*inner),
        Expr::Var(_) => true,
    }
}

/// No `Sum` node occurs anywhere in the list.
pub open spec fn sum_free_list(l: Seq<Expr>) -> bool
    decreases l,
{
    l.len() == 0 || (sum_free(l[0]) && sum_free_list(l.drop_first()))
}

/// No `Sum` node is nested under any `Prod` node.
pub open spec fn no_sum_under_prod(e: Expr) -> bool
    decreases e,
{
    match e {
        Expr::Sum(kept, shelved) => no_sum_under_prod_list(kept) && no_sum_under_prod_list(shelved),
        Expr::Prod(items) => sum_free_list(items),
        Expr::Not(inner) => no_sum_under_prod(*inner),
        Expr::Var(_) => true,
    }
}

/// No member of the list has a `Sum` nested under a `Prod`.
pub open spec fn no_sum_under_prod_list(l: Seq<Expr>) -> bool
    decreases l,
{
    l.len() == 0 || (no_sum_under_prod(l[0]) && no_sum_under_prod_list(l.drop_first()))
}

/// Every `Not` node in the tree wraps a `Var` directly.
pub open spec fn nots_wrap_vars(e: Expr) -> bool
    decreases e,
{
    match e {
        Expr::Sum(kept, shelved) => nots_wrap_vars_list(kept) && nots_wrap_vars_list(shelved),
        Expr::Prod(items) => nots_wrap_vars_list(items),
        Expr::Not(inner) => *inner is Var,
        Expr::Var(_) => true,
    }
}

/// Every `Not` node in the list wraps a `Var` directly.
pub open spec fn nots_wrap_vars_list(l: Seq<Expr>) -> bool
    decreases l,
{
    l.len() == 0 || (nots_wrap_vars(l[0]) && nots_wrap_vars_list(l.drop_first()))
}

/// A tree a rewrite pass returns unchanged: sum-of-products form with no
/// one-child wrapper anywhere.
pub open spec fn settled(e: Expr) -> bool {
    match e {
        Expr::Sum(kept, shelved) => shelved.len() == 0 && kept.len() != 1 && settled_terms(kept),
        Expr::Prod(items) => items.len() != 1 && all_literals(items),
        Expr::Not(inner) => *inner is Var,
        Expr::Var(_) => true,
    }
}

/// A term a rewrite pass returns unchanged: a literal, or a product of
/// literals that is not a one-child wrapper.
pub open spec fn settled_term(e: Expr) -> bool {
    is_literal(e) || (match e {
        Expr::Prod(items) => items.len() != 1 && all_literals(items),
        _ => false,
    })
}

/// Every tree of the list is a settled term.
pub open spec fn settled_terms(l: Seq<Expr>) -> bool
    decreases l,
{
    l.len() == 0 || (settled_term(l[0]) && settled_terms(l.drop_first()))
}

/// A term with its one-child product wrapper collapsed.
pub open spec fn collapse_term(e: Expr) -> Expr {
    match e {
        Expr::Prod(items) => if items.len() == 1 {
            items[0]
        } else {
            e
        },
        _ => e,
    }
}

/// Collapsing a term of a sum-of-products leaves a settled term.
pub proof fn lemma_collapse_settled(e: Expr)
    requires
        is_sop_term(e),
    ensures
        settled_term(collapse_term(e)),
{
    if is_literal(e) {
    } else {
        match e {
            Expr::Prod(items) => {
                if items.len() == 1 {
                    lemma_all_literals_iff(items);
                    assert(is_literal(items[0]));
                }
            },
            _ => {},
        }
    }
}

/// Each term of the list with its one-child product wrapper collapsed.
pub open spec fn collapse_list(l: Seq<Expr>) -> Seq<Expr> {
    Seq::new(
        l.len(),
        |i: int|
            if 0 <= i < l.len() {
                collapse_term(l[i])
            } else {
                Expr::Prod(Seq::empty())
            },
    )
}

/// Collapsing terms of a sum-of-products leaves settled terms, each
/// accepted by the pruning predicate at the root.
pub proof fn lemma_collapse_list_settled(l: Seq<Expr>)
    requires
        all_sop_terms(l),
    ensures
        forall|j: int| 0 <= j < l.len() ==> settled_term(#[trigger] collapse_list(l)[j]),
        forall|j: int|
            0 <= j < l.len() ==> is_simplified_spec(#[trigger] collapse_list(l)[j], 0),
{
    lemma_all_sop_terms_iff(l);
    assert forall|j: int|
        0 <= j < l.len() implies settled_term(#[trigger] collapse_list(l)[j]) && is_simplified_spec(
        collapse_list(l)[j],
        0,
    ) by {
        assert(is_sop_term(l[j]));
        lemma_collapse_settled(l[j]);
        lemma_settled_term_pruned(collapse_list(l)[j]);
    }
}

/// A settled term sits within the pruning depth at the root.
pub proof fn lemma_settled_term_pruned(e: Expr)
    requires
        settled_term(e),
    ensures
        is_simplified_spec(e, 0),
{
    if is_literal(e) {
        match e {
            Expr::Not(inner) => {
                match *inner {
                    Expr::Var(_) => {
                        assert(is_simplified_spec(*inner, 1));
                    },
                    _ => {},
                }
            },
            _ => {},
        }
    } else {
        match e {
            Expr::Prod(items) => {
                lemma_all_literals_iff(items);
                lemma_is_simplified_list_iff(items, 1);
                assert forall|x: int|
                    0 <= x < items.len() implies is_simplified_spec(#[trigger] items[x], 1) by {
                    assert(is_literal(items[x]));
                    match items[x] {
                        Expr::Not(inner) => {
                            match *inner {
                                Expr::Var(_) => {
                                    assert(is_simplified_spec(*inner, 2));
                                },
                                _ => {},
                            }
                        },
                        _ => {},
                    }
                }
            },
            _ => {},
        }
    }
}

/// A list the pruning predicate fully accepts is stashed whole.
pub proof fn lemma_prune_all(l: Seq<Expr>)
    requires
        forall|j: int| 0 <= j < l.len() ==> is_simplified_spec(#[trigger] l[j], 0),
    ensures
        pruned_of(l) == l,
        active_of(l) =~= Seq::<Expr>::empty(),
    decreases l.len(),
{
    reveal_with_fuel(Seq::filter, 2);
    if l.len() == 0 {
        assert(pruned_of(l) =~= l);
    } else {
        lemma_prune_all(l.drop_last());
        assert(is_simplified_spec(l.last(), 0));
        assert(pruned_of(l) == pruned_of(l.drop_last()).push(l.last()));
        assert(l.drop_last().push(l.last()) =~= l);
    }
}

/// What one rewrite pass makes of a sum-of-products tree: one-child
/// product wrappers collapse, and a one-child sum gives way to its term.
pub open spec fn sop_pass(e: Expr) -> Expr {
    match e {
        Expr::Sum(kept, shelved) => if kept.len() == 1 {
            collapse_term(kept[0])
        } else {
            Expr::Sum(collapse_list(kept), shelved)
        },
        _ => collapse_term(e),
    }
}

/// A settled term is itself a settled tree.
pub proof fn lemma_settled_term_settled(e: Expr)
    requires
        settled_term(e),
    ensures
        settled(e),
{
    if is_literal(e) {
        match e {
            Expr::Not(inner) => {},
            _ => {},
        }
    }
}

/// A list is settled exactly when each member is.
pub proof fn lemma_settled_terms_iff(l: Seq<Expr>)
    ensures
        settled_terms(l) <==> forall|i: int| 0 <= i < l.len() ==> settled_term(#[trigger] l[i]),
    decreases l.len(),
{
    if l.len() > 0 {
        lemma_settled_terms_iff(l.drop_first());
        assert forall|j: int| 0 <= j < l.drop_first().len() implies #[trigger] l.drop_first()[j]
            == l[j + 1] by {}
        if settled_terms(l) {
            assert forall|i: int| 0 <= i < l.len() implies settled_term(#[trigger] l[i]) by {
                if i > 0 {
                    assert(settled_term(l.drop_first()[i - 1]));
                }
            }
        }
        if forall|i: int| 0 <= i < l.len() ==> settled_term(#[trigger] l[i]) {
            assert forall|j: int|
                0 <= j < l.drop_first().len() implies settled_term(
                #[trigger] l.drop_first()[j],
            ) by {
                assert(settled_term(l[j + 1]));
            }
        }
    }
}

/// A settled tree is in sum-of-products form and clean.
pub proof fn lemma_settled_sop(e: Expr)
    requires
        settled(e),
    ensures
        is_sop(e),
        clean(e),
{
    match e {
        Expr::Sum(kept, shelved) => {
            lemma_settled_terms_iff(kept);
            lemma_all_sop_terms_iff(kept);
            assert forall|i: int| 0 <= i < kept.len() implies is_sop_term(#[trigger] kept[i]) by {
                assert(settled_term(kept[i]));
            }
            assert forall|i: int| 0 <= i < kept.len() implies clean(#[trigger] kept[i]) by {
                assert(settled_term(kept[i]));
                lemma_settled_term_clean(kept[i]);
            }
            lemma_clean_list_iff(kept);
        },
        Expr::Prod(items) => {
            lemma_literals_clean_list(items);
        },
        Expr::Not(inner) => {
            match *inner {
                Expr::Var(_) => {
                    assert(clean(*inner));
                },
                _ => {},
            }
        },
        Expr::Var(_) => {},
    }
}

/// A settled term is clean.
pub proof fn lemma_settled_term_clean(e: Expr)
    requires
        settled_term(e),
    ensures
        clean(e),
    decreases e,
{
    if is_literal(e) {
        match e {
            Expr::Not(inner) => {
                match *inner {
                    Expr::Var(_) => {
                        assert(clean(*inner));
                    },
                    _ => {},
                }
            },
            _ => {},
        }
    } else {
        match e {
            Expr::Prod(items) => {
                lemma_literals_clean_list(items);
            },
            _ => {},
        }
    }
}

/// A list of literals is a clean list.
pub proof fn lemma_literals_clean_list(l: Seq<Expr>)
    requires
        all_literals(l),
    ensures
        clean_list(l),
        clean(Expr::Prod(l)),
    decreases l,
{
    if l.len() > 0 {
        assert(is_literal(l[0]));
        assert(settled_term(l[0]));
        lemma_settled_term_clean(l[0]);
        lemma_literals_clean_list(l.drop_first());
        assert(clean_list(l));
    } else {
        assert(clean_list(l));
    }
    assert(clean(Expr::Prod(l)) == clean_list(l));
}

/// Folding side lists back into a clean tree changes nothing.
pub proof fn lemma_recon_identity(e: Expr)
    requires
        clean(e),
    ensures
        recon(e) == e,
    decreases e,
{
    match e {
        Expr::Sum(kept, shelved) => {
            lemma_recon_identity_list(kept);
            assert(recon_list(shelved) =~= Seq::<Expr>::empty());
            assert(recon_list(kept) + recon_list(shelved) =~= kept);
            assert(shelved =~= Seq::<Expr>::empty());
        },
        Expr::Prod(items) => {
            lemma_recon_identity_list(items);
        },
        Expr::Not(inner) => {
            lemma_recon_identity(*inner);
        },
        Expr::Var(_) => {},
    }
}

/// List version of the reconstruction identity.
pub proof fn lemma_recon_identity_list(l: Seq<Expr>)
    requires
        clean_list(l),
    ensures
        recon_list(l) == l,
    decreases l,
{
    lemma_clean_list_iff(l);
    assert forall|j: int| 0 <= j < l.len() implies #[trigger] recon_list(l)[j] == l[j] by {
        lemma_recon_identity(l[j]);
    }
    assert(recon_list(l) =~= l);
}

/// The local rewrite rules leave nothing to do at the root: a sum has no
/// sum child (they are spliced in), a product no product child (they are
/// flattened), and a negation sits directly on a variable.
pub open spec fn root_flat(e: Expr) -> bool {
    match e {
        Expr::Sum(kept, _) => forall|j: int| 0 <= j < kept.len() ==> !(#[trigger] kept[j] is Sum),
        Expr::Prod(items) => forall|j: int|
            0 <= j < items.len() ==> !(#[trigger] items[j] is Prod),
        Expr::Not(inner) => *inner is Var,
        Expr::Var(_) => true,
    }
}

/// A tree in sum-of-products form has a locally rewritten root.
pub proof fn lemma_sop_root_flat(e: Expr)
    requires
        is_sop(e),
    ensures
        root_flat(e),
{
    match e {
        Expr::Sum(kept, shelved) => {
            lemma_all_sop_terms_iff(kept);
            assert forall|j: int| 0 <= j < kept.len() implies !(#[trigger] kept[j] is Sum) by {
                assert(is_sop_term(kept[j]));
            }
        },
        Expr::Prod(items) => {
            lemma_all_literals_iff(items);
            assert forall|j: int| 0 <= j < items.len() implies !(#[trigger] items[j] is Prod) by {
                assert(is_literal(items[j]));
            }
        },
        _ => {},
    }
}

/// A sum-of-products tree has no `Sum` under a `Prod` and every `Not`
/// directly on a variable.
pub proof fn lemma_sop_shape(e: Expr)
    requires
        is_sop(e),
    ensures
        no_sum_under_prod(e),
        nots_wrap_vars(e),
{
    match e {
        Expr::Sum(kept, shelved) => {
            lemma_sop_terms_shape(kept);
            assert(no_sum_under_prod_list(shelved));
            assert(nots_wrap_vars_list(shelved));
        },
        Expr::Prod(items) => {
            lemma_literals_shape(items);
        },
        Expr::Not(_) => {
            lemma_literal_shape(e);
        },
        Expr::Var(_) => {},
    }
}

/// A literal is sum-free and negates only a variable.
proof fn lemma_literal_shape(e: Expr)
    requires
        is_literal(e),
    ensures
        sum_free(e),
        nots_wrap_vars(e),
        no_sum_under_prod(e),
{
    match e {
        Expr::Not(inner) => {
            match *inner {
                Expr::Var(_) => {
                    assert(sum_free(*inner));
                    assert(no_sum_under_prod(*inner));
                },
                _ => {},
            }
        },
        _ => {},
    }
}

/// Literal lists are sum-free and negate only variables.
proof fn lemma_literals_shape(l: Seq<Expr>)
    requires
        all_literals(l),
    ensures
        sum_free_list(l),
        nots_wrap_vars_list(l),
    decreases l.len(),
{
    if l.len() > 0 {
        lemma_literal_shape(l[0]);
        lemma_literals_shape(l.drop_first());
    }
}

/// Sum-of-products terms have no `Sum` inside and negate only variables.
proof fn lemma_sop_terms_shape(l: Seq<Expr>)
    requires
        all_sop_terms(l),
    ensures
        no_sum_under_prod_list(l),
        nots_wrap_vars_list(l),
    decreases l.len(),
{
    if l.len() > 0 {
        lemma_sop_terms_shape(l.drop_first());
        if is_literal(l[0]) {
            lemma_literal_shape(l[0]);
        } else {
            match l[0] {
                Expr::Prod(items) => {
                    lemma_literals_shape(items);
                },
                _ => {},
            }
        }
    }
}

/// The tree after every side list is folded back into its sum.
pub open spec fn recon(e: Expr) -> Expr
    decreases e,
{
    match e {
        Expr::Sum(kept, shelved) => Expr::Sum(recon_list(kept) + recon_list(shelved), Seq::empty()),
        Expr::Prod(items) => Expr::Prod(recon_list(items)),
        Expr::Not(inner) => Expr::Not(Box::new(recon(*inner))),
        Expr::Var(n) => Expr::Var(n),
    }
}

/// Folds the side lists back in every tree of the list.
pub open spec fn recon_list(l: Seq<Expr>) -> Seq<Expr>
    decreases l,
{
    Seq::new(
        l.len(),
        |i: int|
            if 0 <= i < l.len() {
                recon(l[i])
            } else {
                Expr::Prod(Seq::empty())
            },
    )
}

/// Folding side lists back preserves the truth value, keeps the variable
/// set, and leaves a clean tree.
pub proof fn lemma_recon(e: Expr, m: Map<Seq<char>, bool>)
    ensures
        eval_spec(recon(e), m) == eval_spec(e, m),
        forall|n: Seq<char>| appears(recon(e), n) == appears(e, n),
        clean(recon(e)),
    decreases e,
{
    match e {
        Expr::Sum(kept, shelved) => {
            lemma_recon_list(kept, m);
            lemma_recon_list(shelved, m);
            lemma_eval_or_concat(recon_list(kept), recon_list(shelved), m);
            lemma_clean_list_concat(recon_list(kept), recon_list(shelved));
            assert(eval_or(Seq::<Expr>::empty(), m) == false);
            assert forall|n: Seq<char>| appears(recon(e), n) == appears(e, n) by {
                lemma_appears_concat(recon_list(kept), recon_list(shelved), n);
                lemma_recon_list_appears(kept, n);
                lemma_recon_list_appears(shelved, n);
                assert(!appears_in_list(Seq::<Expr>::empty(), n));
            }
        },
        Expr::Prod(items) => {
            lemma_recon_list(items, m);
            assert forall|n: Seq<char>| appears(recon(e), n) == appears(e, n) by {
                lemma_recon_list_appears(items, n);
            }
        },
        Expr::Not(inner) => {
            lemma_recon(*inner, m);
            assert(recon(e) == Expr::Not(Box::new(recon(*inner))));
            assert forall|n: Seq<char>| appears(recon(e), n) == appears(e, n) by {
                assert(appears(recon(*inner), n) == appears(*inner, n));
            }
        },
        Expr::Var(_) => {
            assert(recon(e) == e);
        },
    }
}

/// List version of `lemma_recon` for truth values and cleanliness.
pub proof fn lemma_recon_list(l: Seq<Expr>, m: Map<Seq<char>, bool>)
    ensures
        recon_list(l).len() == l.len(),
        eval_or(recon_list(l), m) == eval_or(l, m),
        eval_and(recon_list(l), m) == eval_and(l, m),
        clean_list(recon_list(l)),
    decreases l,
{
    if l.len() > 0 {
        lemma_recon(l[0], m);
        lemma_recon_list(l.drop_first(), m);
        assert(recon_list(l).drop_first() =~= recon_list(l.drop_first()));
        assert(recon_list(l)[0] == recon(l[0]));
    } else {
        assert(recon_list(l) =~= Seq::<Expr>::empty());
    }
}

/// List version of `lemma_recon` for the variable set.
pub proof fn lemma_recon_list_appears(l: Seq<Expr>, n: Seq<char>)
    ensures
        appears_in_list(recon_list(l), n) == appears_in_list(l, n),
    decreases l,
{
    if l.len() > 0 {
        lemma_recon(l[0], Map::empty());
        lemma_recon_list_appears(l.drop_first(), n);
        assert forall|j: int|
            0 <= j < l.len() - 1 implies recon_list(l).drop_first()[j] == recon_list(
            l.drop_first(),
        )[j] by {
            assert(l.drop_first()[j] == l[j + 1]);
            assert(recon_list(l).drop_first()[j] == recon_list(l)[j + 1]);
        }
        assert(recon_list(l).drop_first() =~= recon_list(l.drop_first()));
        assert(recon_list(l)[0] == recon(l[0]));
        assert(appears(recon_list(l)[0], n) == appears(l[0], n));
    } else {
        assert(recon_list(l) =~= Seq::<Expr>::empty());
    }
}

/// A disjunction over joined lists is the disjunction of the parts.
pub proof fn lemma_eval_or_concat(a: Seq<Expr>, b: Seq<Expr>, m: Map<Seq<char>, bool>)
    ensures
        eval_or(a + b, m) == (eval_or(a, m) || eval_or(b, m)),
    decreases a.len(),
{
    if a.len() == 0 {
        assert(a + b =~= b);
    } else {
        lemma_eval_or_concat(a.drop_first(), b, m);
        assert((a + b).drop_first() =~= a.drop_first() + b);
        assert((a + b)[0] == a[0]);
    }
}

/// A conjunction over joined lists is the conjunction of the parts.
pub proof fn lemma_eval_and_concat(a: Seq<Expr>, b: Seq<Expr>, m: Map<Seq<char>, bool>)
    ensures
        eval_and(a + b, m) == (eval_and(a, m) && eval_and(b, m)),
    decreases a.len(),
{
    if a.len() == 0 {
        assert(a + b =~= b);
    } else {
        lemma_eval_and_concat(a.drop_first(), b, m);
        assert((a + b).drop_first() =~= a.drop_first() + b);
        assert((a + b)[0] == a[0]);
    }
}

/// A variable occurs in joined lists exactly when it occurs in a part.
pub proof fn lemma_appears_concat(a: Seq<Expr>, b: Seq<Expr>, n: Seq<char>)
    ensures
        appears_in_list(a + b, n) == (appears_in_list(a, n) || appears_in_list(b, n)),
    decreases a.len(),
{
    if a.len() == 0 {
        assert(a + b =~= b);
    } else {
        lemma_appears_concat(a.drop_first(), b, n);
        assert((a + b).drop_first() =~= a.drop_first() + b);
        assert((a + b)[0] == a[0]);
    }
}

/// Joined lists are clean exactly when both parts are.
pub proof fn lemma_clean_list_concat(a: Seq<Expr>, b: Seq<Expr>)
    ensures
        clean_list(a + b) == (clean_list(a) && clean_list(b)),
    decreases a.len(),
{
    if a.len() == 0 {
        assert(a + b =~= b);
    } else {
        lemma_clean_list_concat(a.drop_first(), b);
        assert((a + b).drop_first() =~= a.drop_first() + b);
        assert((a + b)[0] == a[0]);
    }
}

/// A disjunction grows by one member at the end.
pub proof fn lemma_eval_or_push(l: Seq<Expr>, x: Expr, m: Map<Seq<char>, bool>)
    ensures
        eval_or(l.push(x), m) == (eval_or(l, m) || eval_spec(x, m)),
{
    assert(l.push(x) =~= l + seq![x]);
    lemma_eval_or_concat(l, seq![x], m);
    assert(seq![x].drop_first() =~= Seq::<Expr>::empty());
    assert(!eval_or(Seq::<Expr>::empty(), m));
    assert(seq![x].len() == 1 && seq![x][0] == x);
    assert(eval_or(seq![x], m) == eval_spec(x, m));
}

/// A conjunction grows by one member at the end.
pub proof fn lemma_eval_and_push(l: Seq<Expr>, x: Expr, m: Map<Seq<char>, bool>)
    ensures
        eval_and(l.push(x), m) == (eval_and(l, m) && eval_spec(x, m)),
{
    assert(l.push(x) =~= l + seq![x]);
    lemma_eval_and_concat(l, seq![x], m);
    assert(seq![x].drop_first() =~= Seq::<Expr>::empty());
    assert(eval_and(Seq::<Expr>::empty(), m));
    assert(seq![x].len() == 1 && seq![x][0] == x);
    assert(eval_and(seq![x], m) == eval_spec(x, m));
}

/// Occurrence in a list grown by one member at the end.
pub proof fn lemma_appears_push(l: Seq<Expr>, x: Expr, n: Seq<char>)
    ensures
        appears_in_list(l.push(x), n) == (appears_in_list(l, n) || appears(x, n)),
{
    assert(l.push(x) =~= l + seq![x]);
    lemma_appears_concat(l, seq![x], n);
    assert(seq![x].drop_first() =~= Seq::<Expr>::empty());
    assert(!appears_in_list(Seq::<Expr>::empty(), n));
    assert(seq![x].len() == 1 && seq![x][0] == x);
    assert(appears_in_list(seq![x], n) == appears(x, n));
}

/// Cleanliness of a list grown by one member at the end.
pub proof fn lemma_clean_push(l: Seq<Expr>, x: Expr)
    ensures
        clean_list(l.push(x)) == (clean_list(l) && clean(x)),
{
    assert(l.push(x) =~= l + seq![x]);
    lemma_clean_list_concat(l, seq![x]);
    assert(seq![x].drop_first() =~= Seq::<Expr>::empty());
    assert(clean_list(Seq::<Expr>::empty()));
    assert(seq![x].len() == 1 && seq![x][0] == x);
    assert(clean_list(seq![x]) == clean(x));
}

/// Sum-of-products term lists grown by one member at the end.
pub proof fn lemma_sop_terms_push(l: Seq<Expr>, x: Expr)
    ensures
        all_sop_terms(l.push(x)) == (all_sop_terms(l) && is_sop_term(x)),
    decreases l.len(),
{
    if l.len() == 0 {
        assert(l.push(x).drop_first() =~= Seq::<Expr>::empty());
        assert(all_sop_terms(Seq::<Expr>::empty()));
        assert(l.push(x)[0] == x);
    } else {
        lemma_sop_terms_push(l.drop_first(), x);
        assert(l.push(x).drop_first() =~= l.drop_first().push(x));
        assert(l.push(x)[0] == l[0]);
    }
}

/// Nesting depth of the deepest variable, counting from `so_far` at the
/// root; the side lists of sums are not counted.
pub open spec fn depth_spec(e: Expr, so_far: int) -> int
    decreases e,
{
    match e {
        Expr::Sum(kept, _) => max_depth(kept, so_far + 1),
        Expr::Prod(items) => max_depth(items, so_far + 1),
        Expr::Not(inner) => depth_spec(*inner, so_far + 1),
        Expr::Var(_) => so_far + 1,
    }
}

/// The largest depth over the list, or zero for an empty list.
pub open spec fn max_depth(l: Seq<Expr>, so_far: int) -> int
    decreases l,
{
    if l.len() == 0 {
        0
    } else {
        let first = depth_spec(l[0], so_far);
        let rest = max_depth(l.drop_first(), so_far);
        if first >= rest {
            first
        } else {
            rest
        }
    }
}

/// Height of the tree along working children, ignoring side lists.
pub open spec fn height(e: Expr) -> nat
    decreases e,
{
    match e {
        Expr::Sum(kept, _) => 1 + height_list(kept),
        Expr::Prod(items) => 1 + height_list(items),
        Expr::Not(inner) => 1 + height(*inner),
        Expr::Var(_) => 1,
    }
}

/// The largest height over the list.
pub open spec fn height_list(l: Seq<Expr>) -> nat
    decreases l,
{
    if l.len() == 0 {
        0
    } else {
        let first = height(l[0]);
        let rest = height_list(l.drop_first());
        if first >= rest {
            first
        } else {
            rest
        }
    }
}

/// Each member's height is bounded by the list's height.
pub proof fn lemma_height_list_index(l: Seq<Expr>, i: int)
    requires
        0 <= i < l.len(),
    ensures
        height(l[i]) <= height_list(l),
    decreases l.len(),
{
    if i > 0 {
        lemma_height_list_index(l.drop_first(), i - 1);
        assert(l.drop_first()[i - 1] == l[i]);
    }
}

/// The depth from `so_far` is bounded by `so_far` plus the tree height.
pub proof fn lemma_depth_bound(e: Expr, so_far: int)
    requires
        so_far >= 0,
    ensures
        depth_spec(e, so_far) <= so_far + height(e),
    decreases e,
{
    match e {
        Expr::Sum(kept, _) => {
            lemma_max_depth_bound(kept, so_far + 1);
        },
        Expr::Prod(items) => {
            lemma_max_depth_bound(items, so_far + 1);
        },
        Expr::Not(inner) => {
            lemma_depth_bound(*inner, so_far + 1);
        },
        Expr::Var(_) => {},
    }
}

/// The largest depth over a list is bounded by `so_far` plus the largest
/// height.
pub proof fn lemma_max_depth_bound(l: Seq<Expr>, so_far: int)
    requires
        so_far >= 0,
    ensures
        0 <= max_depth(l, so_far) <= so_far + height_list(l),
    decreases l,
{
    if l.len() > 0 {
        lemma_depth_bound(l[0], so_far);
        lemma_max_depth_bound(l.drop_first(), so_far);
        lemma_height_nonneg(l[0]);
    }
}

/// Every tree has height at least one.
pub proof fn lemma_height_nonneg(e: Expr)
    ensures
        height(e) >= 1,
{
}

/// Depth from `so_far` is at least zero.
pub open spec fn depth_requires(e: Expr, so_far: int) -> bool {
    so_far >= 0 && so_far + height(e) <= usize::MAX
}

/// The pruning predicate: a variable must sit within five levels of the
/// root; inner nodes ask it of their working children.
pub open spec fn is_simplified_spec(e: Expr, d: int) -> bool
    decreases e,
{
    match e {
        Expr::Sum(kept, _) => is_simplified_list(kept, d + 1),
        Expr::Prod(items) => is_simplified_list(items, d + 1),
        Expr::Not(inner) => is_simplified_spec(*inner, d + 1),
        Expr::Var(_) => d < 5,
    }
}

/// The pruning predicate over every member of a list.
pub open spec fn is_simplified_list(l: Seq<Expr>, d: int) -> bool
    decreases l,
{
    l.len() == 0 || (is_simplified_spec(l[0], d) && is_simplified_list(l.drop_first(), d))
}

/// Beyond the cutoff, the depth argument no longer matters.
pub proof fn lemma_is_simplified_deep(e: Expr, d1: int, d2: int)
    requires
        d1 >= 5,
        d2 >= 5,
    ensures
        is_simplified_spec(e, d1) == is_simplified_spec(e, d2),
    decreases e,
{
    match e {
        Expr::Sum(kept, _) => {
            lemma_is_simplified_list_deep(kept, d1 + 1, d2 + 1);
        },
        Expr::Prod(items) => {
            lemma_is_simplified_list_deep(items, d1 + 1, d2 + 1);
        },
        Expr::Not(inner) => {
            lemma_is_simplified_deep(*inner, d1 + 1, d2 + 1);
        },
        Expr::Var(_) => {},
    }
}

/// List version of the depth-cutoff lemma.
pub proof fn lemma_is_simplified_list_deep(l: Seq<Expr>, d1: int, d2: int)
    requires
        d1 >= 5,
        d2 >= 5,
    ensures
        is_simplified_list(l, d1) == is_simplified_list(l, d2),
    decreases l,
{
    if l.len() > 0 {
        lemma_is_simplified_deep(l[0], d1, d2);
        lemma_is_simplified_list_deep(l.drop_first(), d1, d2);
    }
}

/// The children the pruning predicate sets aside, in order.
pub open spec fn pruned_of(l: Seq<Expr>) -> Seq<Expr> {
    l.filter(|e: Expr| is_simplified_spec(e, 0))
}

/// The children the pruning predicate keeps in play, in order.
pub open spec fn active_of(l: Seq<Expr>) -> Seq<Expr> {
    l.filter(|e: Expr| !is_simplified_spec(e, 0))
}

/// Splitting a list grown by one child at the end.
pub proof fn lemma_split_push(l: Seq<Expr>, x: Expr)
    ensures
        active_of(l.push(x)) == if !is_simplified_spec(x, 0) {
            active_of(l).push(x)
        } else {
            active_of(l)
        },
        pruned_of(l.push(x)) == if is_simplified_spec(x, 0) {
            pruned_of(l).push(x)
        } else {
            pruned_of(l)
        },
{
    assert(l.push(x).drop_last() =~= l);
    assert(l.push(x).last() == x);
    assert(l.push(x).len() == l.len() + 1);
    reveal_with_fuel(Seq::filter, 2);
    assert(active_of(l.push(x)) == (if !is_simplified_spec(x, 0) {
        l.filter(|e: Expr| !is_simplified_spec(e, 0)).push(x)
    } else {
        l.filter(|e: Expr| !is_simplified_spec(e, 0))
    }));
    assert(pruned_of(l.push(x)) == (if is_simplified_spec(x, 0) {
        l.filter(|e: Expr| is_simplified_spec(e, 0)).push(x)
    } else {
        l.filter(|e: Expr| is_simplified_spec(e, 0))
    }));
}

impl Sum {
    /// A sum over the given children with an empty side list.
    pub fn new(inner: Vec<Equation>) -> (r: Sum)
        ensures
            views_of(r.inner@) == views_of(inner@),
            r.already_simplified@.len() == 0,
    {
        Sum { inner, already_simplified: Vec::new() }
    }
}

impl Prod {
    /// A product over the given children.
    pub fn new(inner: Vec<Equation>) -> (r: Prod)
        ensures
            views_of(r.inner@) == views_of(inner@),
    {
        Prod { inner }
    }
}

impl Not {
    /// The negation of the given tree.
    pub fn new(inner: Equation) -> (r: Not)
        ensures
            r.inner@ == inner@,
    {
        Not { inner }
    }

    /// The least variable name under the negation.
    pub fn get_only_var(&self) -> (r: String)
        requires
            clean(self.inner@),
            exists|n: Seq<char>| appears(self.inner@, n),
        ensures
            appears(self.inner@, r@),
            forall|n: Seq<char>| appears(self.inner@, n) ==> n == r@ || lex_lt(r@, n),
    {
        self.inner.get_only_var()
    }
}

impl Equation {
    /// Whether the root is a product.
    pub fn is_product(&self) -> (r: bool)
        ensures
            r == (self@ is Prod),
    {
        match self {
            Equation::Prod(_) => true,
            _ => false,
        }
    }

    /// How many children the root sum has set aside as already simplified.
    pub fn len_removed(&mut self) -> (r: usize)
        ensures
            *final(self) == *old(self),
            r as int == (match old(self)@ {
                Expr::Sum(_, shelved) => shelved.len() as int,
                _ => 0,
            }),
    {
        match self {
            Equation::Sum(s) => {
                proof {
                    assert(old(self)@ == Expr::Sum(
                        views_of(s.inner@),
                        views_of(s.already_simplified@),
                    ));
                }
                s.already_simplified.len()
            },
            _ => 0,
        }
    }

    /// Borrows the children of the root: the working children of a sum or
    /// product, the child of a negation, or the tree itself for a variable.
    pub fn inners(&self) -> (r: Vec<&Equation>)
        ensures
            match self@ {
                Expr::Sum(kept, _) => r@.len() == kept.len() && (forall|i: int|
                    0 <= i < kept.len() ==> #[trigger] r@[i]@ == kept[i]),
                Expr::Prod(items) => r@.len() == items.len() && (forall|i: int|
                    0 <= i < items.len() ==> #[trigger] r@[i]@ == items[i]),
                Expr::Not(inner) => r@.len() == 1 && r@[0]@ == *inner,
                Expr::Var(_) => r@.len() == 1 && r@[0]@ == self@,
            },
    {
        match self {
            Equation::Sum(s) => {
                proof {
                    assert(self@ == Expr::Sum(views_of(s.inner@), views_of(s.already_simplified@)));
                }
                borrow_all(&s.inner)
            },
            Equation::Prod(p) => {
                proof {
                    assert(self@ == Expr::Prod(views_of(p.inner@)));
                }
                borrow_all(&p.inner)
            },
            Equation::Not(n) => {
                let mut r: Vec<&Equation> = Vec::new();
                r.push(&n.inner);
                r
            },
            Equation::Var(_) => {
                let mut r: Vec<&Equation> = Vec::new();
                r.push(self);
                r
            },
        }
    }

    /// Takes the children of the root out of the tree: the working children
    /// of a sum or product, the child of a negation, or the tree itself.
    pub fn into_inners(self) -> (r: Vec<Equation>)
        ensures
            match self@ {
                Expr::Sum(kept, _) => views_of(r@) == kept,
                Expr::Prod(items) => views_of(r@) == items,
                Expr::Not(inner) => r@.len() == 1 && r@[0]@ == *inner,
                Expr::Var(_) => r@.len() == 1 && r@[0]@ == self@,
            },
    {
        match self {
            Equation::Sum(s) => {
                let sum = *s;
                sum.inner
            },
            Equation::Prod(p) => {
                let prod = *p;
                prod.inner
            },
            Equation::Not(n) => {
                let not = *n;
                let mut r: Vec<Equation> = Vec::new();
                r.push(not.inner);
                proof {
                    assert(views_of(r@).len() == 1);
                }
                r
            },
            v => {
                let mut r: Vec<Equation> = Vec::new();
                r.push(v);
                proof {
                    assert(views_of(r@).len() == 1);
                }
                r
            },
        }
    }

    /// The pruning predicate of the fixed-point loop: true when every
    /// variable sits within five nesting levels of depth `depth`.
    pub fn is_simplified(&self, depth: usize) -> (r: bool)
        ensures
            r == is_simplified_spec(self@, depth as int),
        decreases self,
    {
        let next: usize = if depth < 6 {
            depth + 1
        } else {
            depth
        };
        match self {
            Equation::Sum(s) => {
                let r = is_simplified_all(&s.inner, next);
                proof {
                    if depth >= 6 {
                        lemma_is_simplified_list_deep(
                            views_of(s.inner@),
                            next as int,
                            depth as int + 1,
                        );
                    }
                }
                r
            },
            Equation::Prod(p) => {
                let r = is_simplified_all(&p.inner, next);
                proof {
                    if depth >= 6 {
                        lemma_is_simplified_list_deep(
                            views_of(p.inner@),
                            next as int,
                            depth as int + 1,
                        );
                    }
                }
                r
            },
            Equation::Not(n) => {
                let r = n.inner.is_simplified(next);
                proof {
                    if depth >= 6 {
                        lemma_is_simplified_deep(n.inner@, next as int, depth as int + 1);
                    }
                }
                r
            },
            Equation::Var(_) => depth < 5,
        }
    }
}

/// Borrows every tree of the list, in order.
#[verifier::loop_isolation(false)]
fn borrow_all(items: &Vec<Equation>) -> (r: Vec<&Equation>)
    ensures
        r@.len() == items@.len(),
        forall|i: int| 0 <= i < items@.len() ==> #[trigger] r@[i]@ == views_of(items@)[i],
{
    let mut r: Vec<&Equation> = Vec::new();
    let mut i: usize = 0;
    while i < items.len()
        invariant
            i <= items@.len(),
            r@.len() == i,
            forall|j: int| 0 <= j < i ==> #[trigger] r@[j]@ == views_of(items@)[j],
        decreases items@.len() - i,
    {
        r.push(&items[i]);
        i = i + 1;
    }
    r
}

/// The pruning predicate over every member of a list.
#[verifier::loop_isolation(false)]
fn is_simplified_all(items: &Vec<Equation>, d: usize) -> (r: bool)
    ensures
        r == is_simplified_list(views_of(items@), d as int),
    decreases items,
{
    proof {
        lemma_is_simplified_list_iff(views_of(items@), d as int);
    }
    let mut i: usize = 0;
    while i < items.len()
        invariant
            i <= items@.len(),
            forall|j: int|
                0 <= j < i ==> is_simplified_spec(#[trigger] views_of(items@)[j], d as int),
        decreases items@.len() - i,
    {
        if !items[i].is_simplified(d) {
            proof {
                assert(!is_simplified_spec(views_of(items@)[i as int], d as int));
            }
            return false;
        }
        i = i + 1;
    }
    true
}

/// The list predicate holds exactly when it holds of every member.
pub proof fn lemma_is_simplified_list_iff(l: Seq<Expr>, d: int)
    ensures
        is_simplified_list(l, d) <==> forall|i: int|
            0 <= i < l.len() ==> is_simplified_spec(#[trigger] l[i], d),
    decreases l.len(),
{
    if l.len() > 0 {
        lemma_is_simplified_list_iff(l.drop_first(), d);
        assert forall|j: int| 0 <= j < l.drop_first().len() implies #[trigger] l.drop_first()[j]
            == l[j + 1] by {}
        if is_simplified_list(l, d) {
            assert forall|i: int|
                0 <= i < l.len() implies is_simplified_spec(#[trigger] l[i], d) by {
                if i > 0 {
                    assert(is_simplified_spec(l.drop_first()[i - 1], d));
                }
            }
        }
        if forall|i: int| 0 <= i < l.len() ==> is_simplified_spec(#[trigger] l[i], d) {
            assert forall|j: int|
                0 <= j < l.drop_first().len() implies is_simplified_spec(
                #[trigger] l.drop_first()[j],
                d,
            ) by {
                assert(is_simplified_spec(l[j + 1], d));
            }
        }
    }
}

/// The largest depth over a list grown by one member at the end.
pub proof fn lemma_max_depth_push(l: Seq<Expr>, x: Expr, d: int)
    requires
        d >= 0,
    ensures
        max_depth(l.push(x), d) == if depth_spec(x, d) >= max_depth(l, d) {
            depth_spec(x, d)
        } else {
            max_depth(l, d)
        },
    decreases l.len(),
{
    if l.len() == 0 {
        assert(l.push(x).drop_first() =~= Seq::<Expr>::empty());
        assert(l.push(x)[0] == x);
        assert(max_depth(Seq::<Expr>::empty(), d) == 0);
        lemma_depth_nonneg(x, d);
    } else {
        lemma_max_depth_push(l.drop_first(), x, d);
        assert(l.push(x).drop_first() =~= l.drop_first().push(x));
        assert(l.push(x)[0] == l[0]);
    }
}

/// A tree's depth from a nonnegative start is positive.
pub proof fn lemma_depth_nonneg(e: Expr, d: int)
    requires
        d >= 0,
    ensures
        depth_spec(e, d) >= 0,
{
    lemma_height_nonneg(e);
    lemma_depth_lower(e, d);
}

/// Depth from a nonnegative start is at least zero.
proof fn lemma_depth_lower(e: Expr, d: int)
    requires
        d >= 0,
    ensures
        depth_spec(e, d) >= 0,
    decreases e,
{
    match e {
        Expr::Sum(kept, _) => {
            lemma_max_depth_lower(kept, d + 1);
        },
        Expr::Prod(items) => {
            lemma_max_depth_lower(items, d + 1);
        },
        Expr::Not(inner) => {
            lemma_depth_lower(*inner, d + 1);
        },
        Expr::Var(_) => {},
    }
}

/// The largest depth over a list is at least zero.
proof fn lemma_max_depth_lower(l: Seq<Expr>, d: int)
    requires
        d >= 0,
    ensures
        max_depth(l, d) >= 0,
    decreases l,
{
    if l.len() > 0 {
        lemma_depth_lower(l[0], d);
        lemma_max_depth_lower(l.drop_first(), d);
    }
}

impl Equation {
    /// The nesting depth of the deepest variable, counting from `so_far`.
    pub fn depth(&self, so_far: usize) -> (r: usize)
        requires
            depth_requires(self@, so_far as int),
        ensures
            r as int == depth_spec(self@, so_far as int),
        decreases self,
    {
        match self {
            Equation::Var(_) => so_far + 1,
            Equation::Not(n) => {
                proof {
                    lemma_height_nonneg(n.inner@);
                }
                n.inner.depth(so_far + 1)
            },
            Equation::Sum(s) => {
                proof {
                    assert(self@ == Expr::Sum(views_of(s.inner@), views_of(s.already_simplified@)));
                }
                max_depth_all(&s.inner, so_far + 1)
            },
            Equation::Prod(p) => {
                proof {
                    assert(self@ == Expr::Prod(views_of(p.inner@)));
                }
                max_depth_all(&p.inner, so_far + 1)
            },
        }
    }
}

/// The largest depth over the list, or zero when it is empty.
#[verifier::loop_isolation(false)]
fn max_depth_all(items: &Vec<Equation>, so_far: usize) -> (r: usize)
    requires
        so_far >= 1,
        so_far as int + height_list(views_of(items@)) <= usize::MAX,
    ensures
        r as int == max_depth(views_of(items@), so_far as int),
    decreases items,
{
    let ghost ov = views_of(items@);
    let mut cur: usize = 0;
    let mut i: usize = 0;
    proof {
        assert(ov.take(0) =~= Seq::<Expr>::empty());
    }
    while i < items.len()
        invariant
            i <= items@.len(),
            cur as int == max_depth(ov.take(i as int), so_far as int),
        decreases items@.len() - i,
    {
        proof {
            lemma_height_list_index(ov, i as int);
            lemma_depth_bound(ov[i as int], so_far as int);
            lemma_depth_nonneg(ov[i as int], so_far as int);
        }
        let d = items[i].depth(so_far);
        if d > cur {
            cur = d;
        }
        proof {
            assert(ov.take(i + 1) =~= ov.take(i as int).push(ov[i as int]));
            lemma_max_depth_push(ov.take(i as int), ov[i as int], so_far as int);
        }
        i = i + 1;
    }
    proof {
        assert(ov.take(items@.len() as int) =~= ov);
    }
    cur
}

impl Sum {
    /// The names of the variables of the working children, sorted.
    pub fn get_vars(&self) -> (r: Vec<String>)
        requires
            clean_list(views_of(self.inner@)),
        ensures
            sorted_names(r@),
            forall|n: Seq<char>|
                #[trigger] has_name(r@, n) <==> appears_in_list(views_of(self.inner@), n),
    {
        let mut acc: Vec<String> = Vec::new();
        collect_vars_list(&self.inner, &mut acc);
        acc
    }

    /// The names of the variables of the working children, sorted.
    pub fn get_owned_vars(&self) -> (r: Vec<String>)
        requires
            clean_list(views_of(self.inner@)),
        ensures
            sorted_names(r@),
            forall|n: Seq<char>|
                #[trigger] has_name(r@, n) <==> appears_in_list(views_of(self.inner@), n),
    {
        self.get_vars()
    }

    /// Splits the working children: those the pruning predicate accepts
    /// move to the end of the side list, the rest stay, in order.
    #[verifier::loop_isolation(false)]
    pub fn remove_simplified(&mut self)
        requires
            clean_list(views_of(old(self).inner@)),
            clean_list(views_of(old(self).already_simplified@)),
        ensures
            views_of(final(self).inner@) == active_of(views_of(old(self).inner@)),
            views_of(final(self).already_simplified@) == views_of(old(self).already_simplified@)
                + pruned_of(views_of(old(self).inner@)),
            clean_list(views_of(final(self).inner@)),
            clean_list(views_of(final(self).already_simplified@)),
            forall|m: Map<Seq<char>, bool>|
                (eval_or(views_of(final(self).inner@), m) || eval_or(
                    views_of(final(self).already_simplified@),
                    m,
                )) == (eval_or(views_of(old(self).inner@), m) || eval_or(
                    views_of(old(self).already_simplified@),
                    m,
                )),
            forall|n: Seq<char>|
                (appears_in_list(views_of(final(self).inner@), n) || appears_in_list(
                    views_of(final(self).already_simplified@),
                    n,
                )) == (appears_in_list(views_of(old(self).inner@), n) || appears_in_list(
                    views_of(old(self).already_simplified@),
                    n,
                )),
    {
        let ghost ov = views_of(self.inner@);
        let ghost osh = views_of(self.already_simplified@);
        proof {
            lemma_clean_list_iff(ov);
        }
        let mut not_simp: Vec<Equation> = Vec::new();
        let mut simp: Vec<Equation> = Vec::new();
        let mut i: usize = 0;
        proof {
            assert(ov.take(0) =~= Seq::<Expr>::empty());
            assert(active_of(Seq::<Expr>::empty()) =~= Seq::<Expr>::empty());
            assert(pruned_of(Seq::<Expr>::empty()) =~= Seq::<Expr>::empty());
            assert(views_of(not_simp@) =~= Seq::<Expr>::empty());
            assert(views_of(simp@) =~= Seq::<Expr>::empty());
        }
        while i < self.inner.len()
            invariant
                i <= self.inner@.len(),
                views_of(self.inner@) == ov,
                views_of(self.already_simplified@) == osh,
                self.inner@.len() == ov.len(),
                views_of(not_simp@) == active_of(ov.take(i as int)),
                views_of(simp@) == pruned_of(ov.take(i as int)),
                clean_list(views_of(not_simp@)),
                clean_list(views_of(simp@)),
                forall|m: Map<Seq<char>, bool>|
                    (eval_or(views_of(not_simp@), m) || eval_or(views_of(simp@), m)) == eval_or(
                        ov.take(i as int),
                        m,
                    ),
                forall|n: Seq<char>|
                    (appears_in_list(views_of(not_simp@), n) || appears_in_list(
                        views_of(simp@),
                        n,
                    )) == appears_in_list(ov.take(i as int), n),
            decreases self.inner@.len() - i,
        {
            let ghost nsv = views_of(not_simp@);
            let ghost spv = views_of(simp@);
            let c = self.inner[i].deep_clone();
            let is_s = self.inner[i].is_simplified(0);
            if is_s {
                simp.push(c);
            } else {
                not_simp.push(c);
            }
            proof {
                assert(ov.take(i + 1) =~= ov.take(i as int).push(ov[i as int]));
                lemma_split_push(ov.take(i as int), ov[i as int]);
                assert(ov.take(i + 1).drop_last() =~= ov.take(i as int));
                assert(ov.take(i + 1).last() == ov[i as int]);
                if is_s {
                    assert(views_of(simp@) =~= spv.push(ov[i as int]));
                } else {
                    assert(views_of(not_simp@) =~= nsv.push(ov[i as int]));
                }
                assert(views_of(not_simp@) == active_of(ov.take(i + 1)));
                assert(views_of(simp@) == pruned_of(ov.take(i + 1)));
                lemma_clean_push(spv, ov[i as int]);
                lemma_clean_push(nsv, ov[i as int]);
                assert(clean(ov[i as int]));
                assert forall|m: Map<Seq<char>, bool>|
                    (eval_or(views_of(not_simp@), m) || eval_or(views_of(simp@), m)) == eval_or(
                        ov.take(i + 1),
                        m,
                    ) by {
                    lemma_eval_or_push(ov.take(i as int), ov[i as int], m);
                    lemma_eval_or_push(spv, ov[i as int], m);
                    lemma_eval_or_push(nsv, ov[i as int], m);
                }
                assert forall|n: Seq<char>|
                    (appears_in_list(views_of(not_simp@), n) || appears_in_list(
                        views_of(simp@),
                        n,
                    )) == appears_in_list(ov.take(i + 1), n) by {
                    lemma_appears_push(ov.take(i as int), ov[i as int], n);
                    lemma_appears_push(spv, ov[i as int], n);
                    lemma_appears_push(nsv, ov[i as int], n);
                }
            }
            i = i + 1;
        }
        proof {
            assert(ov.take(ov.len() as int) =~= ov);
        }
        let ghost fsh = views_of(simp@);
        self.inner = not_simp;
        self.already_simplified.append(&mut simp);
        proof {
            assert(views_of(self.already_simplified@) =~= osh + fsh);
            lemma_clean_list_concat(osh, fsh);
            assert forall|m: Map<Seq<char>, bool>|
                (eval_or(views_of(self.inner@), m) || eval_or(
                    views_of(self.already_simplified@),
                    m,
                )) == (eval_or(ov, m) || eval_or(osh, m)) by {
                lemma_eval_or_concat(osh, fsh, m);
            }
            assert forall|n: Seq<char>|
                (appears_in_list(views_of(self.inner@), n) || appears_in_list(
                    views_of(self.already_simplified@),
                    n,
                )) == (appears_in_list(ov, n) || appears_in_list(osh, n)) by {
                lemma_appears_concat(osh, fsh, n);
            }
        }
    }
}

impl Prod {
    /// The names of the variables of the children, sorted.
    pub fn get_vars(&self) -> (r: Vec<String>)
        requires
            clean_list(views_of(self.inner@)),
        ensures
            sorted_names(r@),
            forall|n: Seq<char>|
                #[trigger] has_name(r@, n) <==> appears_in_list(views_of(self.inner@), n),
    {
        let mut acc: Vec<String> = Vec::new();
        collect_vars_list(&self.inner, &mut acc);
        acc
    }
}

impl Equation {
    /// On a sum root, splits the working children as
    /// [`Sum::remove_simplified`] does; other roots are unchanged.
    pub fn remove_simplified(&mut self)
        requires
            match old(self)@ {
                Expr::Sum(kept, shelved) => clean_list(kept) && clean_list(shelved),
                _ => true,
            },
        ensures
            forall|m: Map<Seq<char>, bool>|
                #[trigger] eval_spec(final(self)@, m) == eval_spec(old(self)@, m),
            forall|n: Seq<char>| #[trigger] appears(final(self)@, n) == appears(old(self)@, n),
            match old(self)@ {
                Expr::Sum(kept, shelved) => final(self)@ == Expr::Sum(
                    active_of(kept),
                    shelved + pruned_of(kept),
                ) && clean_list(active_of(kept)) && clean_list(shelved + pruned_of(kept)),
                _ => true,
            },
            !(old(self)@ is Sum) ==> *final(self) == *old(self),
    {
        match self {
            Equation::Sum(s) => {
                let ghost k1 = views_of(s.inner@);
                let ghost s1 = views_of(s.already_simplified@);
                proof {
                    assert(old(self)@ == Expr::Sum(k1, s1));
                }
                s.remove_simplified();
                proof {
                    assert(final(self)@ == Expr::Sum(
                        views_of(s.inner@),
                        views_of(s.already_simplified@),
                    ));
                    assert forall|m: Map<Seq<char>, bool>|
                        #[trigger] eval_spec(final(self)@, m) == eval_spec(old(self)@, m) by {
                        assert(eval_spec(old(self)@, m) == (eval_or(k1, m) || eval_or(s1, m)));
                        assert(eval_spec(final(self)@, m) == (eval_or(views_of(s.inner@), m)
                            || eval_or(views_of(s.already_simplified@), m)));
                    }
                    assert forall|n: Seq<char>|
                        #[trigger] appears(final(self)@, n) == appears(old(self)@, n) by {
                        assert(appears(old(self)@, n) == (appears_in_list(k1, n)
                            || appears_in_list(s1, n)));
                        assert(appears(final(self)@, n) == (appears_in_list(views_of(s.inner@), n)
                            || appears_in_list(views_of(s.already_simplified@), n)));
                    }
                }
            },
            _ => {},
        }
    }

    /// A copy of the tree with every side list folded back into its sum.
    fn recon_pure(&self) -> (r: Equation)
        ensures
            r@ == recon(self@),
        decreases self,
    {
        match self {
            Equation::Var(name) => Equation::Var(name.clone()),
            Equation::Not(n) => Equation::Not(Box::new(Not { inner: n.inner.recon_pure() })),
            Equation::Prod(p) => Equation::Prod(Box::new(Prod { inner: recon_vec_pure(&p.inner) })),
            Equation::Sum(s) => {
                let mut items = recon_vec_pure(&s.inner);
                let mut more = recon_vec_pure(&s.already_simplified);
                let ghost ik = views_of(items@);
                let ghost im = views_of(more@);
                items.append(&mut more);
                proof {
                    assert(views_of(items@) =~= ik + im);
                    assert(self@ == Expr::Sum(views_of(s.inner@), views_of(s.already_simplified@)));
                }
                let shelved: Vec<Equation> = Vec::new();
                proof {
                    assert(views_of(shelved@) =~= Seq::<Expr>::empty());
                }
                Equation::Sum(Box::new(Sum { inner: items, already_simplified: shelved }))
            },
        }
    }

    /// Folds every side list back into its sum, in place.
    pub fn reconstruct(&mut self)
        ensures
            final(self)@ == recon(old(self)@),
    {
        let rebuilt = self.recon_pure();
        *self = rebuilt;
    }
}

/// Copies of every tree of the list with side lists folded back in.
#[verifier::loop_isolation(false)]
fn recon_vec_pure(items: &Vec<Equation>) -> (r: Vec<Equation>)
    ensures
        views_of(r@) == recon_list(views_of(items@)),
    decreases items,
{
    let ghost ov = views_of(items@);
    let mut r: Vec<Equation> = Vec::new();
    let mut i: usize = 0;
    while i < items.len()
        invariant
            i <= items@.len(),
            r@.len() == i,
            forall|j: int| 0 <= j < i ==> #[trigger] views_of(r@)[j] == recon(ov[j]),
        decreases items@.len() - i,
    {
        let ghost rv = r@;
        let c = items[i].recon_pure();
        r.push(c);
        proof {
            assert(c@ == recon(ov[i as int]));
            assert forall|j: int| 0 <= j < i + 1 implies #[trigger] views_of(r@)[j] == recon(
                ov[j],
            ) by {
                if j < i {
                    assert(r@[j] == rv[j]);
                    assert(views_of(rv)[j] == recon(ov[j]));
                }
            }
        }
        i = i + 1;
    }
    proof {
        assert(views_of(r@) =~= recon_list(ov));
    }
    r
}

/// A list is all literals exactly when each member is a literal.
pub proof fn lemma_all_literals_iff(l: Seq<Expr>)
    ensures
        all_literals(l) <==> forall|i: int| 0 <= i < l.len() ==> is_literal(#[trigger] l[i]),
    decreases l.len(),
{
    if l.len() > 0 {
        lemma_all_literals_iff(l.drop_first());
        assert forall|j: int| 0 <= j < l.drop_first().len() implies #[trigger] l.drop_first()[j]
            == l[j + 1] by {}
        if all_literals(l) {
            assert forall|i: int| 0 <= i < l.len() implies is_literal(#[trigger] l[i]) by {
                if i > 0 {
                    assert(is_literal(l.drop_first()[i - 1]));
                }
            }
        }
        if forall|i: int| 0 <= i < l.len() ==> is_literal(#[trigger] l[i]) {
            assert forall|j: int|
                0 <= j < l.drop_first().len() implies is_literal(#[trigger] l.drop_first()[j]) by {
                assert(is_literal(l[j + 1]));
            }
        }
    }
}

/// A list is all sum-of-products terms exactly when each member is one.
pub proof fn lemma_all_sop_terms_iff(l: Seq<Expr>)
    ensures
        all_sop_terms(l) <==> forall|i: int| 0 <= i < l.len() ==> is_sop_term(#[trigger] l[i]),
    decreases l.len(),
{
    if l.len() > 0 {
        lemma_all_sop_terms_iff(l.drop_first());
        assert forall|j: int| 0 <= j < l.drop_first().len() implies #[trigger] l.drop_first()[j]
            == l[j + 1] by {}
        if all_sop_terms(l) {
            assert forall|i: int| 0 <= i < l.len() implies is_sop_term(#[trigger] l[i]) by {
                if i > 0 {
                    assert(is_sop_term(l.drop_first()[i - 1]));
                }
            }
        }
        if forall|i: int| 0 <= i < l.len() ==> is_sop_term(#[trigger] l[i]) {
            assert forall|j: int|
                0 <= j < l.drop_first().len() implies is_sop_term(#[trigger] l.drop_first()[j]) by {
                assert(is_sop_term(l[j + 1]));
            }
        }
    }
}

} // verus!
