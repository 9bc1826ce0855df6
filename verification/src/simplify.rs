//! The rewrite engine: unit collapse, flattening, De Morgan, distribution
//! of products over sums, and the fixed-point loop that drives them into
//! sum-of-products form before handing the tree to the minimizer.

use vstd::prelude::*;

use crate::equation::{
    all_literals, appears, appears_in_list, clean, clean_list, eval_and, eval_or, eval_spec,
    is_literal, is_sop, is_sop_term, lemma_recon_identity, lemma_settled_sop,
    lemma_settled_terms_iff, lemma_sop_root_flat, recon, root_flat, settled, settled_term,
    settled_terms, views_of, Equation, Expr, Not, Prod, Sum,
};

verus! {

broadcast use {vstd::std_specs::vec::group_vec_axioms, vstd::seq::group_seq_axioms};

/// Why a rewrite attempt stopped early.
#[derive(Debug, PartialEq, Eq)]
pub enum SimplifyHalt {
    OutOfFuel,
    UnexpectedShape,
}

/// The root may hold set-aside children, but everything below is clean.
pub open spec fn root_clean(e: Expr) -> bool {
    match e {
        Expr::Sum(kept, shelved) => clean_list(kept) && clean_list(shelved),
        _ => clean(e),
    }
}

/// Lists whose members agree on their truth value under `m` agree as a
/// disjunction and as a conjunction.
pub proof fn lemma_eval_pointwise(a: Seq<Expr>, b: Seq<Expr>, m: Map<Seq<char>, bool>)
    requires
        a.len() == b.len(),
        forall|j: int| 0 <= j < a.len() ==> eval_spec(#[trigger] a[j], m) == eval_spec(b[j], m),
    ensures
        eval_or(a, m) == eval_or(b, m),
        eval_and(a, m) == eval_and(b, m),
{
    crate::equation::lemma_eval_or_iff(a, m);
    crate::equation::lemma_eval_or_iff(b, m);
    crate::equation::lemma_eval_and_iff(a, m);
    crate::equation::lemma_eval_and_iff(b, m);
    if eval_or(a, m) {
        let i = choose|i: int| 0 <= i < a.len() && eval_spec(#[trigger] a[i], m);
        assert(eval_spec(b[i], m));
    }
    if eval_or(b, m) {
        let i = choose|i: int| 0 <= i < b.len() && eval_spec(#[trigger] b[i], m);
        assert(eval_spec(a[i], m));
    }
    if eval_and(a, m) {
        assert forall|j: int| 0 <= j < b.len() implies eval_spec(#[trigger] b[j], m) by {
            assert(eval_spec(a[j], m));
        }
    }
    if eval_and(b, m) {
        assert forall|j: int| 0 <= j < a.len() implies eval_spec(#[trigger] a[j], m) by {
            assert(eval_spec(b[j], m));
        }
    }
}

/// A conjunction splits off any one member.
pub proof fn lemma_eval_and_remove(l: Seq<Expr>, i: int, m: Map<Seq<char>, bool>)
    requires
        0 <= i < l.len(),
    ensures
        eval_and(l, m) == (eval_and(l.remove(i), m) && eval_spec(l[i], m)),
{
    assert(l =~= l.take(i) + (seq![l[i]] + l.skip(i + 1)));
    assert(l.remove(i) =~= l.take(i) + l.skip(i + 1));
    crate::equation::lemma_eval_and_concat(l.take(i), seq![l[i]] + l.skip(i + 1), m);
    crate::equation::lemma_eval_and_concat(seq![l[i]], l.skip(i + 1), m);
    crate::equation::lemma_eval_and_concat(l.take(i), l.skip(i + 1), m);
    assert(seq![l[i]].drop_first() =~= Seq::<Expr>::empty());
    assert(eval_and(Seq::<Expr>::empty(), m));
    assert(eval_and(seq![l[i]], m) == eval_spec(l[i], m));
}

/// Occurrence in a list splits off any one member.
pub proof fn lemma_appears_remove(l: Seq<Expr>, i: int, n: Seq<char>)
    requires
        0 <= i < l.len(),
    ensures
        appears_in_list(l, n) == (appears_in_list(l.remove(i), n) || appears(l[i], n)),
{
    assert(l =~= l.take(i) + (seq![l[i]] + l.skip(i + 1)));
    assert(l.remove(i) =~= l.take(i) + l.skip(i + 1));
    crate::equation::lemma_appears_concat(l.take(i), seq![l[i]] + l.skip(i + 1), n);
    crate::equation::lemma_appears_concat(seq![l[i]], l.skip(i + 1), n);
    crate::equation::lemma_appears_concat(l.take(i), l.skip(i + 1), n);
    assert(seq![l[i]].drop_first() =~= Seq::<Expr>::empty());
    assert(!appears_in_list(Seq::<Expr>::empty(), n));
    assert(appears_in_list(seq![l[i]], n) == appears(l[i], n));
}

/// Whether the tree is a literal.
fn literal_exec(e: &Equation) -> (r: bool)
    ensures
        r == is_literal(e@),
{
    match e {
        Equation::Var(_) => true,
        Equation::Not(n) => {
            proof {
                assert(e@ == Expr::Not(Box::new(n.inner@)));
            }
            match &n.inner {
                Equation::Var(_) => true,
                _ => false,
            }
        },
        _ => false,
    }
}

/// Whether every tree of the list is a literal.
#[verifier::loop_isolation(false)]
fn all_literals_exec(items: &Vec<Equation>) -> (r: bool)
    ensures
        r == all_literals(views_of(items@)),
{
    proof {
        crate::equation::lemma_all_literals_iff(views_of(items@));
    }
    let mut i: usize = 0;
    while i < items.len()
        invariant
            i <= items@.len(),
            forall|j: int| 0 <= j < i ==> is_literal(#[trigger] views_of(items@)[j]),
        decreases items@.len() - i,
    {
        if !literal_exec(&items[i]) {
            proof {
                assert(!is_literal(views_of(items@)[i as int]));
            }
            return false;
        }
        i = i + 1;
    }
    true
}

/// Whether the tree is a term of a sum-of-products.
fn sop_term_exec(e: &Equation) -> (r: bool)
    ensures
        r == is_sop_term(e@),
{
    if literal_exec(e) {
        true
    } else {
        match e {
            Equation::Prod(p) => {
                proof {
                    assert(e@ == Expr::Prod(views_of(p.inner@)));
                }
                all_literals_exec(&p.inner)
            },
            _ => false,
        }
    }
}

impl Equation {
    /// Whether the tree is in sum-of-products form.
    #[verifier::loop_isolation(false)]
    pub(crate) fn check_sop(&self) -> (r: bool)
        ensures
            r == is_sop(self@),
    {
        match self {
            Equation::Var(_) => true,
            Equation::Not(n) => {
                proof {
                    assert(self@ == Expr::Not(Box::new(n.inner@)));
                }
                match &n.inner {
                    Equation::Var(_) => true,
                    _ => false,
                }
            },
            Equation::Prod(p) => {
                proof {
                    assert(self@ == Expr::Prod(views_of(p.inner@)));
                }
                all_literals_exec(&p.inner)
            },
            Equation::Sum(s) => {
                proof {
                    assert(self@ == Expr::Sum(views_of(s.inner@), views_of(s.already_simplified@)));
                    crate::equation::lemma_all_sop_terms_iff(views_of(s.inner@));
                }
                if s.already_simplified.len() > 0 {
                    return false;
                }
                let mut i: usize = 0;
                while i < s.inner.len()
                    invariant
                        i <= s.inner@.len(),
                        forall|j: int| 0 <= j < i ==> is_sop_term(#[trigger] views_of(s.inner@)[j]),
                    decreases s.inner@.len() - i,
                {
                    if !sop_term_exec(&s.inner[i]) {
                        proof {
                            assert(!is_sop_term(views_of(s.inner@)[i as int]));
                        }
                        return false;
                    }
                    i = i + 1;
                }
                true
            },
        }
    }
}

impl Equation {
    /// One rewrite pass: unit collapse, flattening, De Morgan, and
    /// distribution, bounded by `fuel`.
    pub(crate) fn simplified_fuel(self, fuel: u64) -> (r: Result<Equation, SimplifyHalt>)
        requires
            root_clean(self@),
        ensures
            r matches Ok(out) ==> {
                &&& forall|m: Map<Seq<char>, bool>|
                    #[trigger] eval_spec(out@, m) == eval_spec(self@, m)
                &&& forall|n: Seq<char>| #[trigger] appears(out@, n) ==> appears(self@, n)
                &&& root_clean(out@)
                &&& root_flat(out@)
                &&& clean(self@) ==> clean(out@)
            },
            self@ is Var && fuel >= 1 ==> (r matches Ok(out) && out@ == self@),
            is_literal(self@) && fuel >= 4 ==> (r matches Ok(out) && out@ == self@),
            settled_term(self@) && fuel >= 8 ==> (r matches Ok(out) && out@ == self@),
            settled(self@) && fuel >= 10 ==> (r matches Ok(out) && out@ == self@),
            (match self@ {
                Expr::Sum(kept, shelved) => shelved.len() == 0 && (forall|j: int|
                    0 <= j < kept.len() ==> settled(#[trigger] kept[j])),
                _ => false,
            }) && fuel >= 12 ==> r is Ok,
            (match self@ {
                Expr::Not(inner) => settled(*inner),
                _ => false,
            }) && fuel >= 14 ==> r is Ok,
            is_sop_term(self@) && fuel >= 8 ==> (r matches Ok(out) && out@
                == crate::equation::collapse_term(self@)),
            (match self@ {
                Expr::Sum(kept, shelved) => shelved.len() == 0 && kept.len() == 1
                    && crate::equation::all_sop_terms(kept),
                _ => false,
            }) && fuel >= 10 ==> (r matches Ok(out) && (match self@ {
                Expr::Sum(kept, _) => out@ == crate::equation::collapse_term(kept[0]),
                _ => false,
            })),
            is_sop(self@) && fuel >= 10 ==> (r matches Ok(out) && out@
                == crate::equation::sop_pass(self@)),
            (match self@ {
                Expr::Sum(kept, _) => kept.len() == 0,
                _ => false,
            }) && fuel >= 2 ==> (r matches Ok(out) && (match self@ {
                Expr::Sum(_, shelved) => out@ == Expr::Sum(Seq::empty(), shelved),
                _ => false,
            })),
        decreases fuel,
    {
        if fuel == 0 {
            return Err(SimplifyHalt::OutOfFuel);
        }
        match self {
            Equation::Sum(s) => {
                let ghost kept = views_of(s.inner@);
                let ghost shelved = views_of(s.already_simplified@);
                proof {
                    assert(self@ == Expr::Sum(kept, shelved));
                }
                let r = (*s).simplified_fuel(fuel - 1);
                match r {
                    Ok(out) => {
                        proof {
                            if shelved.len() == 0 && clean(self@) {
                                assert(clean(out@));
                            }
                        }
                        Ok(out)
                    },
                    Err(e) => Err(e),
                }
            },
            Equation::Prod(p) => {
                let ghost items = views_of(p.inner@);
                proof {
                    assert(self@ == Expr::Prod(items));
                }
                (*p).simplified_fuel(fuel - 1)
            },
            Equation::Not(n) => {
                proof {
                    assert(self@ == Expr::Not(Box::new(n.inner@)));
                }
                (*n).simplified_fuel(fuel - 1)
            },
            v => Ok(v),
        }
    }
}

impl Sum {
    /// One rewrite pass over a sum: children are simplified, nested sums
    /// are spliced in, and a sole child with no side list replaces the sum.
    #[verifier::loop_isolation(false)]
    pub(crate) fn simplified_fuel(self, fuel: u64) -> (r: Result<Equation, SimplifyHalt>)
        requires
            clean_list(views_of(self.inner@)),
            clean_list(views_of(self.already_simplified@)),
        ensures
            r matches Ok(out) ==> {
                &&& forall|m: Map<Seq<char>, bool>|
                    #[trigger] eval_spec(out@, m) == (eval_or(views_of(self.inner@), m)
                        || eval_or(views_of(self.already_simplified@), m))
                &&& forall|n: Seq<char>|
                    #[trigger] appears(out@, n) ==> (appears_in_list(views_of(self.inner@), n)
                        || appears_in_list(views_of(self.already_simplified@), n))
                &&& root_clean(out@)
                &&& root_flat(out@)
                &&& self.already_simplified@.len() == 0 ==> clean(out@)
            },
            settled_terms(views_of(self.inner@)) && self.already_simplified@.len() == 0
                && self.inner@.len() != 1 && fuel >= 9 ==> (r matches Ok(out) && out@ == Expr::Sum(
                views_of(self.inner@),
                views_of(self.already_simplified@),
            )),
            (forall|j: int|
                0 <= j < views_of(self.inner@).len() ==> settled(
                    #[trigger] views_of(self.inner@)[j],
                )) && self.already_simplified@.len() == 0 && fuel >= 11 ==> r is Ok,
            crate::equation::all_sop_terms(views_of(self.inner@)) && self.inner@.len() == 1
                && self.already_simplified@.len() == 0 && fuel >= 9 ==> (r matches Ok(out) && out@
                == crate::equation::collapse_term(views_of(self.inner@)[0])),
            self.inner@.len() == 0 && fuel >= 1 ==> (r matches Ok(out) && out@ == Expr::Sum(
                Seq::empty(),
                views_of(self.already_simplified@),
            )),
            crate::equation::all_sop_terms(views_of(self.inner@))
                && self.already_simplified@.len() == 0 && fuel >= 9 ==> (r matches Ok(out) && out@
                == (if views_of(self.inner@).len() == 1 {
                crate::equation::collapse_term(views_of(self.inner@)[0])
            } else {
                Expr::Sum(
                    crate::equation::collapse_list(views_of(self.inner@)),
                    views_of(self.already_simplified@),
                )
            })),
        decreases fuel,
    {
        if fuel == 0 {
            return Err(SimplifyHalt::OutOfFuel);
        }
        let mut sum = self;
        let ghost kept = views_of(sum.inner@);
        let ghost shelved = views_of(sum.already_simplified@);
        let ghost fast = settled_terms(kept) && shelved.len() == 0 && kept.len() != 1 && fuel >= 9;
        let ghost wide = (forall|j: int| 0 <= j < kept.len() ==> settled(#[trigger] kept[j]))
            && shelved.len() == 0 && fuel >= 11;
        let ghost fone = crate::equation::all_sop_terms(kept) && kept.len() == 1 && shelved.len()
            == 0 && fuel >= 9;
        let ghost fsop = crate::equation::all_sop_terms(kept) && shelved.len() == 0 && fuel >= 9;
        proof {
            if fsop {
                crate::equation::lemma_all_sop_terms_iff(kept);
                crate::equation::lemma_collapse_list_settled(kept);
                assert(crate::equation::collapse_list(kept).take(0) =~= Seq::<Expr>::empty());
            }
        }
        proof {
            if fast {
                lemma_settled_terms_iff(kept);
                assert forall|j: int| 0 <= j < kept.len() implies settled(#[trigger] kept[j]) by {
                    crate::equation::lemma_settled_term_settled(kept[j]);
                }
            }
        }
        proof {
            crate::equation::lemma_clean_list_iff(kept);
            lemma_settled_terms_iff(kept);
            assert(kept.take(0) =~= Seq::<Expr>::empty());
            assert(views_of(Seq::<Equation>::empty()) =~= Seq::<Expr>::empty());
            assert(!eval_or(Seq::<Expr>::empty(), Map::<Seq<char>, bool>::empty()));
        }
        let mut new_inner: Vec<Equation> = Vec::new();
        let mut i: usize = 0;
        while i < sum.inner.len()
            invariant
                fast ==> views_of(new_inner@) == kept.take(i as int),
                wide ==> forall|j: int|
                    0 <= j < new_inner@.len() ==> settled(#[trigger] views_of(new_inner@)[j]),
                fone ==> views_of(new_inner@) == (if i == 0 {
                    Seq::<Expr>::empty()
                } else {
                    seq![crate::equation::collapse_term(kept[0])]
                }),
                fsop ==> views_of(new_inner@) == crate::equation::collapse_list(kept).take(
                    i as int,
                ),
                kept.len() == 0 ==> new_inner@.len() == 0,
                i <= sum.inner@.len(),
                sum.inner@.len() == kept.len(),
                forall|j: int| i <= j < kept.len() ==> #[trigger] sum.inner@[j]@ == kept[j],
                views_of(sum.already_simplified@) == shelved,
                clean_list(views_of(new_inner@)),
                forall|j: int| 0 <= j < new_inner@.len() ==> !(#[trigger] views_of(new_inner@)[j] is Sum),
                forall|m: Map<Seq<char>, bool>|
                    eval_or(views_of(new_inner@), m) == #[trigger] eval_or(kept.take(i as int), m),
                forall|n: Seq<char>|
                    appears_in_list(views_of(new_inner@), n) ==> #[trigger] appears_in_list(
                        kept.take(i as int),
                        n,
                    ),
            decreases sum.inner@.len() - i,
        {
            let ghost nv_pre = views_of(new_inner@);
            let mut tmp = Equation::Var(String::new());
            vstd::pervasive::VecAdditionalExecFns::set_and_swap(&mut sum.inner, i, &mut tmp);
            proof {
                assert(tmp@ == kept[i as int]);
                assert(clean(kept[i as int]));
                assert(root_clean(tmp@)) by {
                    match tmp@ {
                        Expr::Sum(k2, s2) => {
                            assert(clean_list(k2) && s2.len() == 0);
                            assert(clean_list(s2));
                        },
                        _ => {},
                    }
                }
                assert(kept.take(i + 1) =~= kept.take(i as int).push(kept[i as int]));
            }
            let x = match tmp.simplified_fuel(fuel - 1) {
                Ok(v) => v,
                Err(e) => {
                    proof {
                        if fast {
                            assert(settled_term(kept[i as int]));
                            assert(false);
                        }
                        if wide {
                            assert(settled(kept[i as int]));
                            assert(false);
                        }
                        if fone {
                            assert(is_sop_term(kept[0]));
                            assert(false);
                        }
                        if fsop {
                            assert(is_sop_term(kept[i as int]));
                            assert(false);
                        }
                    }
                    return Err(e);
                },
            };
            proof {
                if fast {
                    assert(settled_term(kept[i as int]));
                    assert(x@ == kept[i as int]);
                }
                if wide {
                    assert(settled(kept[i as int]));
                    assert(x@ == kept[i as int]);
                }
                if fone {
                    assert(i == 0);
                    assert(is_sop_term(kept[0]));
                    assert(x@ == crate::equation::collapse_term(kept[0]));
                    assert(!(x@ is Sum)) by {
                        match kept[0] {
                            Expr::Prod(items) => {
                                if items.len() == 1 {
                                    crate::equation::lemma_all_literals_iff(items);
                                    assert(is_literal(items[0]));
                                }
                            },
                            _ => {},
                        }
                    }
                }
                if fsop {
                    assert(is_sop_term(kept[i as int]));
                    assert(x@ == crate::equation::collapse_term(kept[i as int]));
                    assert(!(x@ is Sum)) by {
                        assert(settled_term(crate::equation::collapse_list(kept)[i as int]));
                        match kept[i as int] {
                            Expr::Prod(items) => {
                                if items.len() == 1 {
                                    crate::equation::lemma_all_literals_iff(items);
                                    assert(is_literal(items[0]));
                                }
                            },
                            _ => {},
                        }
                    }
                }
            }
            match x {
                Equation::Sum(s2) => {
                    let ghost k2 = views_of(s2.inner@);
                    let ghost sh2 = views_of(s2.already_simplified@);
                    proof {
                        if fast {
                            assert(x@ == Expr::Sum(k2, sh2));
                            assert(settled_term(kept[i as int]));
                            assert(false);
                        }
                        if fone {
                            assert(x@ == Expr::Sum(k2, sh2));
                            assert(false);
                        }
                        if fsop {
                            assert(x@ == Expr::Sum(k2, sh2));
                            assert(false);
                        }
                        assert(clean(Expr::Sum(k2, sh2)));
                        assert(sh2.len() == 0);
                    }
                    let sb = *s2;
                    let mut v2 = sb.inner;
                    new_inner.append(&mut v2);
                    proof {
                        assert(views_of(new_inner@) =~= nv_pre + k2);
                        crate::equation::lemma_clean_list_concat(nv_pre, k2);
                        if wide {
                            assert(x@ == kept[i as int]);
                            assert(settled(Expr::Sum(k2, sh2)));
                            lemma_settled_terms_iff(k2);
                            assert forall|j: int|
                                0 <= j < new_inner@.len() implies settled(
                                #[trigger] views_of(new_inner@)[j],
                            ) by {
                                if j < nv_pre.len() {
                                    assert(views_of(new_inner@)[j] == nv_pre[j]);
                                } else {
                                    assert(views_of(new_inner@)[j] == k2[j - nv_pre.len()]);
                                    assert(settled_term(k2[j - nv_pre.len()]));
                                    crate::equation::lemma_settled_term_settled(
                                        k2[j - nv_pre.len()],
                                    );
                                }
                            }
                        }
                        assert forall|j: int|
                            0 <= j < new_inner@.len() implies !(#[trigger] views_of(
                            new_inner@,
                        )[j] is Sum) by {
                            if j < nv_pre.len() {
                                assert(views_of(new_inner@)[j] == nv_pre[j]);
                            } else {
                                assert(views_of(new_inner@)[j] == k2[j - nv_pre.len()]);
                                assert(root_flat(Expr::Sum(k2, sh2)));
                            }
                        }
                        assert forall|m: Map<Seq<char>, bool>|
                            eval_or(views_of(new_inner@), m) == #[trigger] eval_or(
                            kept.take(i + 1),
                            m,
                        ) by {
                            crate::equation::lemma_eval_or_concat(nv_pre, k2, m);
                            crate::equation::lemma_eval_or_push(
                                kept.take(i as int),
                                kept[i as int],
                                m,
                            );
                            assert(eval_spec(Expr::Sum(k2, sh2), m) == (eval_or(k2, m) || eval_or(
                                sh2,
                                m,
                            )));
                            assert(!eval_or(sh2, m));
                        }
                        assert forall|n: Seq<char>|
                            appears_in_list(views_of(new_inner@), n) implies #[trigger] appears_in_list(
                            kept.take(i + 1),
                            n,
                        ) by {
                            crate::equation::lemma_appears_concat(nv_pre, k2, n);
                            crate::equation::lemma_appears_push(
                                kept.take(i as int),
                                kept[i as int],
                                n,
                            );
                            if appears_in_list(k2, n) {
                                assert(appears(Expr::Sum(k2, sh2), n));
                                assert(appears(kept[i as int], n));
                            }
                        }
                    }
                },
                other => {
                    let ghost ov = other@;
                    proof {
                        assert(!(ov is Sum)) by {
                            match &other {
                                Equation::Prod(_) => {},
                                Equation::Not(_) => {},
                                Equation::Var(_) => {},
                                _ => {
                                    assert(false);
                                },
                            }
                        }
                    }
                    new_inner.push(other);
                    proof {
                        assert(views_of(new_inner@) =~= nv_pre.push(ov));
                        if fast {
                            assert(ov == kept[i as int]);
                            assert(views_of(new_inner@) =~= kept.take(i + 1));
                        }
                        if wide {
                            assert(ov == kept[i as int]);
                            assert forall|j: int|
                                0 <= j < new_inner@.len() implies settled(
                                #[trigger] views_of(new_inner@)[j],
                            ) by {
                                if j < nv_pre.len() {
                                    assert(views_of(new_inner@)[j] == nv_pre[j]);
                                } else {
                                    assert(views_of(new_inner@)[j] == ov);
                                }
                            }
                        }
                        if fone {
                            assert(ov == crate::equation::collapse_term(kept[0]));
                            assert(views_of(new_inner@) =~= seq![
                                crate::equation::collapse_term(kept[0]),
                            ]);
                        }
                        if fsop {
                            assert(ov == crate::equation::collapse_term(kept[i as int]));
                            assert(crate::equation::collapse_list(kept)[i as int] == ov);
                            assert(views_of(new_inner@) =~= crate::equation::collapse_list(
                                kept,
                            ).take(i + 1));
                        }
                        crate::equation::lemma_clean_push(nv_pre, ov);
                        assert forall|j: int|
                            0 <= j < new_inner@.len() implies !(#[trigger] views_of(
                            new_inner@,
                        )[j] is Sum) by {
                            if j < nv_pre.len() {
                                assert(views_of(new_inner@)[j] == nv_pre[j]);
                            } else {
                                assert(views_of(new_inner@)[j] == ov);
                            }
                        }
                        assert forall|m: Map<Seq<char>, bool>|
                            eval_or(views_of(new_inner@), m) == #[trigger] eval_or(
                            kept.take(i + 1),
                            m,
                        ) by {
                            crate::equation::lemma_eval_or_push(nv_pre, ov, m);
                            crate::equation::lemma_eval_or_push(
                                kept.take(i as int),
                                kept[i as int],
                                m,
                            );
                        }
                        assert forall|n: Seq<char>|
                            appears_in_list(views_of(new_inner@), n) implies #[trigger] appears_in_list(
                            kept.take(i + 1),
                            n,
                        ) by {
                            crate::equation::lemma_appears_push(nv_pre, ov, n);
                            crate::equation::lemma_appears_push(
                                kept.take(i as int),
                                kept[i as int],
                                n,
                            );
                        }
                    }
                },
            }
            i = i + 1;
        }
        proof {
            assert(kept.take(kept.len() as int) =~= kept);
        }
        proof {
            if fast {
                assert(views_of(new_inner@) == kept);
                assert(new_inner@.len() == kept.len());
            }
            if fsop {
                assert(crate::equation::collapse_list(kept).take(kept.len() as int)
                    =~= crate::equation::collapse_list(kept));
                assert(views_of(new_inner@) == crate::equation::collapse_list(kept));
                assert(new_inner@.len() == kept.len());
            }
        }
        if new_inner.len() == 1 && sum.already_simplified.len() == 0 {
            let ghost pre_v = new_inner@;
            let sole = match new_inner.pop() {
                Some(e) => e,
                None => {
                    proof {
                        assert(false);
                    }
                    unreached()
                },
            };
            let ghost sv = sole@;
            proof {
                assert(pre_v =~= new_inner@.push(sole));
                assert(views_of(pre_v)[0] == sv);
                assert(views_of(pre_v) =~= seq![sv]);
                assert(clean(sv)) by {
                    crate::equation::lemma_clean_list_iff(views_of(pre_v));
                }
                assert(root_clean(sv)) by {
                    match sv {
                        Expr::Sum(k2, s2) => {
                            assert(clean_list(k2) && s2.len() == 0);
                            assert(clean_list(s2));
                        },
                        _ => {},
                    }
                }
                assert forall|m: Map<Seq<char>, bool>|
                    eval_spec(sv, m) == #[trigger] eval_or(kept, m) by {
                    assert(seq![sv].drop_first() =~= Seq::<Expr>::empty());
                    assert(!eval_or(Seq::<Expr>::empty(), m));
                    assert(eval_or(seq![sv], m) == eval_spec(sv, m));
                    assert(eval_or(views_of(pre_v), m) == eval_or(kept, m));
                }
                assert forall|n: Seq<char>|
                    #[trigger] appears(sv, n) implies appears_in_list(kept, n) by {
                    assert(seq![sv].drop_first() =~= Seq::<Expr>::empty());
                    assert(appears_in_list(seq![sv], n));
                    assert(appears_in_list(views_of(pre_v), n));
                }
                assert(shelved.len() == 0);
            }
            proof {
                if wide {
                    assert(views_of(pre_v)[0] == sv);
                    assert(settled(sv));
                }
                if fone {
                    assert(views_of(pre_v)[0] == sv);
                    assert(sv == crate::equation::collapse_term(kept[0]));
                    crate::equation::lemma_collapse_settled(kept[0]);
                    assert(settled_term(sv));
                }
                if fsop {
                    assert(views_of(pre_v)[0] == sv);
                    assert(sv == crate::equation::collapse_list(kept)[0]);
                    assert(sv == crate::equation::collapse_term(kept[0]));
                    assert(settled_term(sv));
                }
            }
            let out = match sole.simplified_fuel(fuel - 1) {
                Ok(v) => v,
                Err(e) => {
                    proof {
                        if wide {
                            assert(false);
                        }
                        if fone {
                            assert(false);
                        }
                        if fsop {
                            assert(false);
                        }
                    }
                    return Err(e);
                },
            };
            proof {
                assert forall|m: Map<Seq<char>, bool>|
                    #[trigger] eval_spec(out@, m) == (eval_or(kept, m) || eval_or(shelved, m)) by {
                    assert(!eval_or(shelved, m));
                    assert(eval_spec(out@, m) == eval_spec(sv, m));
                }
            }
            Ok(out)
        } else {
            let ghost nv = views_of(new_inner@);
            let out = Equation::Sum(
                Box::new(Sum { inner: new_inner, already_simplified: sum.already_simplified }),
            );
            proof {
                assert(out@ == Expr::Sum(nv, shelved));
                assert(root_clean(out@));
                if shelved.len() == 0 {
                    assert(clean(out@));
                }
                if kept.len() == 0 {
                    assert(nv =~= Seq::<Expr>::empty());
                }
                if fone {
                    assert(views_of(new_inner@).len() == 1);
                    assert(false);
                }
                if fsop {
                    assert(kept.len() != 1) by {
                        if kept.len() == 1 {
                            assert(views_of(new_inner@).len() == 1);
                        }
                    }
                }
            }
            Ok(out)
        }
    }
}

impl Not {
    /// One rewrite pass over a negation: the child is fully simplified,
    /// then a double negation unwraps and De Morgan pushes the negation
    /// through a sum or product.
    #[verifier::loop_isolation(false)]
    pub(crate) fn simplified_fuel(self, fuel: u64) -> (r: Result<Equation, SimplifyHalt>)
        requires
            clean(self.inner@),
        ensures
            r matches Ok(out) ==> {
                &&& forall|m: Map<Seq<char>, bool>|
                    #[trigger] eval_spec(out@, m) == !eval_spec(self.inner@, m)
                &&& forall|n: Seq<char>| #[trigger] appears(out@, n) ==> appears(self.inner@, n)
                &&& clean(out@)
                &&& root_clean(out@)
                &&& root_flat(out@)
            },
            self.inner@ is Var && fuel >= 3 ==> (r matches Ok(out) && out@ == Expr::Not(
                Box::new(self.inner@),
            )),
            settled(self.inner@) && fuel >= 13 ==> r is Ok,
        decreases fuel,
    {
        if fuel == 0 {
            return Err(SimplifyHalt::OutOfFuel);
        }
        let ghost old_inner = self.inner@;
        let ghost fastn = settled(old_inner) && fuel >= 13;
        let inner = match self.inner.complete_simplify_fuel(fuel - 1) {
            Ok(v) => v,
            Err(e) => {
                proof {
                    if fastn {
                        assert(false);
                    }
                }
                return Err(e);
            },
        };
        match inner {
            Equation::Not(n2) => {
                let ghost iv = Expr::Not(Box::new(n2.inner@));
                proof {
                    assert(clean(n2.inner@));
                    assert(root_clean(n2.inner@)) by {
                        match n2.inner@ {
                            Expr::Sum(k2, s2) => {
                                assert(clean_list(k2) && s2.len() == 0);
                                assert(clean_list(s2));
                            },
                            _ => {},
                        }
                    }
                }
                let nb = *n2;
                let r = match nb.inner.simplified_fuel(fuel - 1) {
                    Ok(v) => v,
                    Err(e) => {
                        proof {
                            if fastn {
                                assert(false);
                            }
                        }
                        return Err(e);
                    },
                };
                proof {
                    assert forall|m: Map<Seq<char>, bool>|
                        #[trigger] eval_spec(r@, m) == !eval_spec(old_inner, m) by {
                        assert(eval_spec(iv, m) == !eval_spec(nb.inner@, m));
                        assert(eval_spec(iv, m) == eval_spec(old_inner, m));
                    }
                    assert forall|n: Seq<char>|
                        #[trigger] appears(r@, n) implies appears(old_inner, n) by {
                        assert(appears(nb.inner@, n) == appears(iv, n));
                    }
                }
                Ok(r)
            },
            Equation::Sum(s2) => {
                let ghost k2 = views_of(s2.inner@);
                let ghost sh2 = views_of(s2.already_simplified@);
                proof {
                    assert(clean(Expr::Sum(k2, sh2)));
                    assert(sh2.len() == 0);
                    crate::equation::lemma_clean_list_iff(k2);
                }
                let sb = *s2;
                let nots = negate_all(sb.inner);
                let ghost nv = views_of(nots@);
                let out = Equation::Prod(Box::new(Prod { inner: nots }));
                proof {
                    assert(out@ == Expr::Prod(nv));
                    assert forall|m: Map<Seq<char>, bool>|
                        #[trigger] eval_spec(out@, m) == !eval_spec(old_inner, m) by {
                        assert(eval_and(nv, m) == !eval_or(k2, m));
                        assert(!eval_or(sh2, m));
                        assert(eval_spec(Expr::Sum(k2, sh2), m) == eval_spec(old_inner, m));
                    }
                    assert forall|n: Seq<char>|
                        #[trigger] appears(out@, n) implies appears(old_inner, n) by {
                        assert(appears_in_list(nv, n) == appears_in_list(k2, n));
                        assert(appears(Expr::Sum(k2, sh2), n) == appears(old_inner, n));
                    }
                }
                Ok(out)
            },
            Equation::Prod(p2) => {
                let ghost k2 = views_of(p2.inner@);
                proof {
                    assert(clean(Expr::Prod(k2)));
                    crate::equation::lemma_clean_list_iff(k2);
                }
                let pb = *p2;
                let nots = negate_all(pb.inner);
                let ghost nv = views_of(nots@);
                let mut inner_vec = nots;
                let ghost shm = views_of(Seq::<Equation>::empty());
                let empty_sh: Vec<Equation> = Vec::new();
                proof {
                    assert(views_of(empty_sh@) =~= Seq::<Expr>::empty());
                }
                let out = Equation::Sum(
                    Box::new(Sum { inner: inner_vec, already_simplified: empty_sh }),
                );
                proof {
                    assert(out@ == Expr::Sum(nv, views_of(empty_sh@)));
                    assert forall|m: Map<Seq<char>, bool>|
                        #[trigger] eval_spec(out@, m) == !eval_spec(old_inner, m) by {
                        assert(!eval_or(views_of(empty_sh@), m));
                        assert(eval_or(nv, m) == !eval_and(k2, m));
                        assert(eval_spec(Expr::Prod(k2), m) == eval_spec(old_inner, m));
                    }
                    assert forall|n: Seq<char>|
                        #[trigger] appears(out@, n) implies appears(old_inner, n) by {
                        assert(!appears_in_list(views_of(empty_sh@), n));
                        assert(appears_in_list(nv, n) == appears_in_list(k2, n));
                        assert(appears(Expr::Prod(k2), n) == appears(old_inner, n));
                    }
                }
                Ok(out)
            },
            v => {
                let ghost vv = v@;
                proof {
                    assert(vv is Var) by {
                        match &v {
                            Equation::Var(_) => {},
                            _ => {
                                assert(false);
                            },
                        }
                    }
                }
                let out = Equation::Not(Box::new(Not { inner: v }));
                proof {
                    assert(out@ == Expr::Not(Box::new(vv)));
                    assert forall|m: Map<Seq<char>, bool>|
                        #[trigger] eval_spec(out@, m) == !eval_spec(old_inner, m) by {
                        assert(eval_spec(out@, m) == !eval_spec(vv, m));
                    }
                    assert forall|n: Seq<char>|
                        #[trigger] appears(out@, n) implies appears(old_inner, n) by {
                        assert(appears(out@, n) == appears(vv, n));
                    }
                    assert(clean(out@)) by {
                        assert(clean(vv));
                    }
                }
                Ok(out)
            },
        }
    }
}

/// Negates every tree of the list, in place order.
#[verifier::loop_isolation(false)]
fn negate_all(items: Vec<Equation>) -> (r: Vec<Equation>)
    requires
        clean_list(views_of(items@)),
    ensures
        r@.len() == items@.len(),
        clean_list(views_of(r@)),
        forall|m: Map<Seq<char>, bool>|
            #[trigger] eval_and(views_of(r@), m) == !eval_or(views_of(items@), m),
        forall|m: Map<Seq<char>, bool>|
            #[trigger] eval_or(views_of(r@), m) == !eval_and(views_of(items@), m),
        forall|n: Seq<char>|
            #[trigger] appears_in_list(views_of(r@), n) == appears_in_list(views_of(items@), n),
        forall|j: int| 0 <= j < r@.len() ==> #[trigger] views_of(r@)[j] is Not,
{
    let ghost ov = views_of(items@);
    proof {
        crate::equation::lemma_clean_list_iff(ov);
        assert(ov.take(0) =~= Seq::<Expr>::empty());
    }
    let mut items = items;
    let mut r: Vec<Equation> = Vec::new();
    let mut i: usize = 0;
    while i < items.len()
        invariant
            i <= items@.len(),
            items@.len() == ov.len(),
            forall|j: int| i <= j < ov.len() ==> #[trigger] items@[j]@ == ov[j],
            r@.len() == i,
            clean_list(views_of(r@)),
            forall|j: int| 0 <= j < r@.len() ==> #[trigger] views_of(r@)[j] is Not,
            forall|m: Map<Seq<char>, bool>|
                eval_and(views_of(r@), m) == !#[trigger] eval_or(ov.take(i as int), m),
            forall|m: Map<Seq<char>, bool>|
                eval_or(views_of(r@), m) == !#[trigger] eval_and(ov.take(i as int), m),
            forall|n: Seq<char>|
                appears_in_list(views_of(r@), n) == #[trigger] appears_in_list(
                    ov.take(i as int),
                    n,
                ),
        decreases items@.len() - i,
    {
        let ghost rv_pre = views_of(r@);
        let mut tmp = Equation::Var(String::new());
        vstd::pervasive::VecAdditionalExecFns::set_and_swap(&mut items, i, &mut tmp);
        proof {
            assert(tmp@ == ov[i as int]);
            assert(clean(ov[i as int]));
        }
        let ne = Equation::Not(Box::new(Not { inner: tmp }));
        let ghost nev = ne@;
        r.push(ne);
        proof {
            assert(nev == Expr::Not(Box::new(ov[i as int])));
            assert(views_of(r@) =~= rv_pre.push(nev));
            crate::equation::lemma_clean_push(rv_pre, nev);
            assert(ov.take(i + 1) =~= ov.take(i as int).push(ov[i as int]));
            assert forall|m: Map<Seq<char>, bool>|
                eval_and(views_of(r@), m) == !#[trigger] eval_or(ov.take(i + 1), m) by {
                crate::equation::lemma_eval_and_push(rv_pre, nev, m);
                crate::equation::lemma_eval_or_push(ov.take(i as int), ov[i as int], m);
                assert(eval_spec(nev, m) == !eval_spec(ov[i as int], m));
            }
            assert forall|m: Map<Seq<char>, bool>|
                eval_or(views_of(r@), m) == !#[trigger] eval_and(ov.take(i + 1), m) by {
                crate::equation::lemma_eval_or_push(rv_pre, nev, m);
                crate::equation::lemma_eval_and_push(ov.take(i as int), ov[i as int], m);
                assert(eval_spec(nev, m) == !eval_spec(ov[i as int], m));
            }
            assert forall|n: Seq<char>|
                appears_in_list(views_of(r@), n) == #[trigger] appears_in_list(
                    ov.take(i + 1),
                    n,
                ) by {
                crate::equation::lemma_appears_push(rv_pre, nev, n);
                crate::equation::lemma_appears_push(ov.take(i as int), ov[i as int], n);
                assert(appears(nev, n) == appears(ov[i as int], n));
            }
        }
        i = i + 1;
    }
    proof {
        assert(ov.take(ov.len() as int) =~= ov);
    }
    r
}

impl Prod {
    /// One flattening pass over a product: children are simplified, nested
    /// products are spliced in, and a sole child replaces the product.
    #[verifier::loop_isolation(false)]
    pub(crate) fn flatten_fuel(self, fuel: u64) -> (r: Result<Equation, SimplifyHalt>)
        requires
            clean_list(views_of(self.inner@)),
        ensures
            r matches Ok(out) ==> {
                &&& forall|m: Map<Seq<char>, bool>|
                    #[trigger] eval_spec(out@, m) == eval_and(views_of(self.inner@), m)
                &&& forall|n: Seq<char>|
                    #[trigger] appears(out@, n) ==> appears_in_list(views_of(self.inner@), n)
                &&& clean(out@)
                &&& root_clean(out@)
                &&& root_flat(out@)
            },
            all_literals(views_of(self.inner@)) && self.inner@.len() != 1 && fuel >= 6 ==> (
            r matches Ok(out) && out@ == Expr::Prod(views_of(self.inner@))),
            all_literals(views_of(self.inner@)) && self.inner@.len() == 1 && fuel >= 6 ==> (
            r matches Ok(out) && out@ == views_of(self.inner@)[0]),
            (forall|j: int|
                0 <= j < views_of(self.inner@).len() ==> settled(
                    #[trigger] views_of(self.inner@)[j],
                )) && fuel >= 11 ==> r is Ok,
        decreases fuel,
    {
        if fuel == 0 {
            return Err(SimplifyHalt::OutOfFuel);
        }
        let mut prod = self;
        let ghost kept = views_of(prod.inner@);
        let ghost fast = all_literals(kept) && fuel >= 6;
        let ghost wide = (forall|j: int| 0 <= j < kept.len() ==> settled(#[trigger] kept[j]))
            && fuel >= 11;
        proof {
            if fast {
                crate::equation::lemma_all_literals_iff(kept);
                assert forall|j: int| 0 <= j < kept.len() implies settled(#[trigger] kept[j]) by {
                    assert(is_literal(kept[j]));
                    assert(settled_term(kept[j]));
                    crate::equation::lemma_settled_term_settled(kept[j]);
                }
            }
        }
        proof {
            crate::equation::lemma_clean_list_iff(kept);
            crate::equation::lemma_all_literals_iff(kept);
            assert(kept.take(0) =~= Seq::<Expr>::empty());
            assert(views_of(Seq::<Equation>::empty()) =~= Seq::<Expr>::empty());
        }
        let mut new_inner: Vec<Equation> = Vec::new();
        let mut i: usize = 0;
        while i < prod.inner.len()
            invariant
                fast ==> views_of(new_inner@) == kept.take(i as int),
                wide ==> forall|j: int|
                    0 <= j < new_inner@.len() ==> settled(#[trigger] views_of(new_inner@)[j]),
                i <= prod.inner@.len(),
                prod.inner@.len() == kept.len(),
                forall|j: int| i <= j < kept.len() ==> #[trigger] prod.inner@[j]@ == kept[j],
                clean_list(views_of(new_inner@)),
                forall|j: int|
                    0 <= j < new_inner@.len() ==> !(#[trigger] views_of(new_inner@)[j] is Prod),
                forall|m: Map<Seq<char>, bool>|
                    eval_and(views_of(new_inner@), m) == #[trigger] eval_and(
                        kept.take(i as int),
                        m,
                    ),
                forall|n: Seq<char>|
                    appears_in_list(views_of(new_inner@), n) ==> #[trigger] appears_in_list(
                        kept.take(i as int),
                        n,
                    ),
            decreases prod.inner@.len() - i,
        {
            let ghost nv_pre = views_of(new_inner@);
            let mut tmp = Equation::Var(String::new());
            vstd::pervasive::VecAdditionalExecFns::set_and_swap(&mut prod.inner, i, &mut tmp);
            proof {
                assert(tmp@ == kept[i as int]);
                assert(clean(kept[i as int]));
                assert(root_clean(tmp@)) by {
                    match tmp@ {
                        Expr::Sum(k2, s2) => {
                            assert(clean_list(k2) && s2.len() == 0);
                            assert(clean_list(s2));
                        },
                        _ => {},
                    }
                }
                assert(kept.take(i + 1) =~= kept.take(i as int).push(kept[i as int]));
            }
            let x = match tmp.simplified_fuel(fuel - 1) {
                Ok(v) => v,
                Err(e) => {
                    proof {
                        if fast {
                            assert(is_literal(kept[i as int]));
                            assert(false);
                        }
                        if wide {
                            assert(settled(kept[i as int]));
                            assert(false);
                        }
                    }
                    return Err(e);
                },
            };
            proof {
                if fast {
                    assert(is_literal(kept[i as int]));
                    assert(x@ == kept[i as int]);
                }
                if wide {
                    assert(settled(kept[i as int]));
                    assert(x@ == kept[i as int]);
                }
            }
            match x {
                Equation::Prod(p2) => {
                    let ghost k2 = views_of(p2.inner@);
                    proof {
                        if fast {
                            assert(x@ == Expr::Prod(k2));
                            assert(is_literal(kept[i as int]));
                            assert(false);
                        }
                        assert(clean(Expr::Prod(k2)));
                    }
                    let pb = *p2;
                    let mut v2 = pb.inner;
                    new_inner.append(&mut v2);
                    proof {
                        assert(views_of(new_inner@) =~= nv_pre + k2);
                        crate::equation::lemma_clean_list_concat(nv_pre, k2);
                        if wide {
                            assert(x@ == kept[i as int]);
                            assert(settled(Expr::Prod(k2)));
                            crate::equation::lemma_all_literals_iff(k2);
                            assert forall|j: int|
                                0 <= j < new_inner@.len() implies settled(
                                #[trigger] views_of(new_inner@)[j],
                            ) by {
                                if j < nv_pre.len() {
                                    assert(views_of(new_inner@)[j] == nv_pre[j]);
                                } else {
                                    assert(views_of(new_inner@)[j] == k2[j - nv_pre.len()]);
                                    assert(is_literal(k2[j - nv_pre.len()]));
                                    assert(settled_term(k2[j - nv_pre.len()]));
                                    crate::equation::lemma_settled_term_settled(
                                        k2[j - nv_pre.len()],
                                    );
                                }
                            }
                        }
                        assert forall|j: int|
                            0 <= j < new_inner@.len() implies !(#[trigger] views_of(
                            new_inner@,
                        )[j] is Prod) by {
                            if j < nv_pre.len() {
                                assert(views_of(new_inner@)[j] == nv_pre[j]);
                            } else {
                                assert(views_of(new_inner@)[j] == k2[j - nv_pre.len()]);
                                assert(root_flat(Expr::Prod(k2)));
                            }
                        }
                        assert forall|m: Map<Seq<char>, bool>|
                            eval_and(views_of(new_inner@), m) == #[trigger] eval_and(
                            kept.take(i + 1),
                            m,
                        ) by {
                            crate::equation::lemma_eval_and_concat(nv_pre, k2, m);
                            crate::equation::lemma_eval_and_push(
                                kept.take(i as int),
                                kept[i as int],
                                m,
                            );
                            assert(eval_spec(Expr::Prod(k2), m) == eval_and(k2, m));
                        }
                        assert forall|n: Seq<char>|
                            appears_in_list(views_of(new_inner@), n) implies #[trigger] appears_in_list(
                            kept.take(i + 1),
                            n,
                        ) by {
                            crate::equation::lemma_appears_concat(nv_pre, k2, n);
                            crate::equation::lemma_appears_push(
                                kept.take(i as int),
                                kept[i as int],
                                n,
                            );
                            if appears_in_list(k2, n) {
                                assert(appears(Expr::Prod(k2), n));
                                assert(appears(kept[i as int], n));
                            }
                        }
                    }
                },
                other => {
                    let ghost ov2 = other@;
                    proof {
                        assert(!(ov2 is Prod)) by {
                            match &other {
                                Equation::Sum(_) => {},
                                Equation::Not(_) => {},
                                Equation::Var(_) => {},
                                _ => {
                                    assert(false);
                                },
                            }
                        }
                    }
                    new_inner.push(other);
                    proof {
                        assert(views_of(new_inner@) =~= nv_pre.push(ov2));
                        if fast {
                            assert(ov2 == kept[i as int]);
                            assert(views_of(new_inner@) =~= kept.take(i + 1));
                        }
                        if wide {
                            assert(ov2 == kept[i as int]);
                            assert forall|j: int|
                                0 <= j < new_inner@.len() implies settled(
                                #[trigger] views_of(new_inner@)[j],
                            ) by {
                                if j < nv_pre.len() {
                                    assert(views_of(new_inner@)[j] == nv_pre[j]);
                                } else {
                                    assert(views_of(new_inner@)[j] == ov2);
                                }
                            }
                        }
                        crate::equation::lemma_clean_push(nv_pre, ov2);
                        assert forall|j: int|
                            0 <= j < new_inner@.len() implies !(#[trigger] views_of(
                            new_inner@,
                        )[j] is Prod) by {
                            if j < nv_pre.len() {
                                assert(views_of(new_inner@)[j] == nv_pre[j]);
                            } else {
                                assert(views_of(new_inner@)[j] == ov2);
                            }
                        }
                        assert forall|m: Map<Seq<char>, bool>|
                            eval_and(views_of(new_inner@), m) == #[trigger] eval_and(
                            kept.take(i + 1),
                            m,
                        ) by {
                            crate::equation::lemma_eval_and_push(nv_pre, ov2, m);
                            crate::equation::lemma_eval_and_push(
                                kept.take(i as int),
                                kept[i as int],
                                m,
                            );
                        }
                        assert forall|n: Seq<char>|
                            appears_in_list(views_of(new_inner@), n) implies #[trigger] appears_in_list(
                            kept.take(i + 1),
                            n,
                        ) by {
                            crate::equation::lemma_appears_push(nv_pre, ov2, n);
                            crate::equation::lemma_appears_push(
                                kept.take(i as int),
                                kept[i as int],
                                n,
                            );
                        }
                    }
                },
            }
            i = i + 1;
        }
        proof {
            assert(kept.take(kept.len() as int) =~= kept);
        }
        proof {
            if fast {
                assert(views_of(new_inner@) == kept);
                assert(new_inner@.len() == kept.len());
            }
        }
        if new_inner.len() == 1 {
            let ghost pre_v = new_inner@;
            let sole = match new_inner.pop() {
                Some(e) => e,
                None => {
                    proof {
                        assert(false);
                    }
                    unreached()
                },
            };
            let ghost sv = sole@;
            proof {
                assert(pre_v =~= new_inner@.push(sole));
                assert(views_of(pre_v)[0] == sv);
                assert(views_of(pre_v) =~= seq![sv]);
                assert(clean(sv)) by {
                    crate::equation::lemma_clean_list_iff(views_of(pre_v));
                }
                assert(root_clean(sv)) by {
                    match sv {
                        Expr::Sum(k2, s2) => {
                            assert(clean_list(k2) && s2.len() == 0);
                            assert(clean_list(s2));
                        },
                        _ => {},
                    }
                }
                assert forall|m: Map<Seq<char>, bool>|
                    eval_spec(sv, m) == #[trigger] eval_and(kept, m) by {
                    assert(seq![sv].drop_first() =~= Seq::<Expr>::empty());
                    assert(eval_and(Seq::<Expr>::empty(), m));
                    assert(eval_and(seq![sv], m) == eval_spec(sv, m));
                    assert(eval_and(views_of(pre_v), m) == eval_and(kept, m));
                }
                assert forall|n: Seq<char>|
                    #[trigger] appears(sv, n) implies appears_in_list(kept, n) by {
                    assert(seq![sv].drop_first() =~= Seq::<Expr>::empty());
                    assert(appears_in_list(seq![sv], n));
                    assert(appears_in_list(views_of(pre_v), n));
                }
            }
            proof {
                if wide {
                    assert(views_of(pre_v)[0] == sv);
                    assert(settled(sv));
                }
                if fast {
                    assert(views_of(pre_v) == kept);
                    assert(sv == kept[0]);
                    assert(is_literal(sv));
                    assert(settled_term(sv));
                }
            }
            let out = match sole.simplified_fuel(fuel - 1) {
                Ok(v) => v,
                Err(e) => {
                    proof {
                        if wide {
                            assert(false);
                        }
                        if fast {
                            assert(false);
                        }
                    }
                    return Err(e);
                },
            };
            Ok(out)
        } else {
            let ghost nv = views_of(new_inner@);
            let out = Equation::Prod(Box::new(Prod { inner: new_inner }));
            proof {
                assert(out@ == Expr::Prod(nv));
            }
            Ok(out)
        }
    }

    /// Distributes the product over its `i`-th child, a sum: one product
    /// per summand, each fully simplified.
    #[verifier::loop_isolation(false)]
    pub(crate) fn factorise_for_fuel(self, i: usize, fuel: u64) -> (r: Result<
        Equation,
        SimplifyHalt,
    >)
        requires
            i < self.inner@.len(),
            views_of(self.inner@)[i as int] is Sum,
            clean_list(views_of(self.inner@)),
        ensures
            r matches Ok(out) ==> {
                &&& forall|m: Map<Seq<char>, bool>|
                    #[trigger] eval_spec(out@, m) == eval_and(views_of(self.inner@), m)
                &&& forall|n: Seq<char>|
                    #[trigger] appears(out@, n) ==> appears_in_list(views_of(self.inner@), n)
                &&& is_sop(out@)
                &&& root_flat(out@)
                &&& clean(out@)
            },
            ({
                let kept = views_of(self.inner@);
                &&& all_literals(kept.remove(i as int))
                &&& kept.remove(i as int).len() != 0
                &&& (match kept[i as int] {
                    Expr::Sum(subs, sh) => sh.len() == 0 && all_literals(subs) && subs.len() != 1,
                    _ => false,
                })
            }) && fuel >= 13 ==> r is Ok,
        decreases fuel,
    {
        if fuel == 0 {
            return Err(SimplifyHalt::OutOfFuel);
        }
        let mut prod = self;
        let ghost kept = views_of(prod.inner@);
        let ghost fastf = fuel >= 13 && all_literals(kept.remove(i as int)) && kept.remove(
            i as int,
        ).len() != 0 && (match kept[i as int] {
            Expr::Sum(subs, sh) => sh.len() == 0 && all_literals(subs) && subs.len() != 1,
            _ => false,
        });
        proof {
            crate::equation::lemma_clean_list_iff(kept);
        }
        let ghost pv0 = prod.inner@;
        let removed = prod.inner.remove(i);
        let ghost rv = removed@;
        let ghost rest = views_of(prod.inner@);
        proof {
            assert(rv == kept[i as int]);
            pv0.remove_ensures(i as int);
            kept.remove_ensures(i as int);
            assert forall|x: int|
                0 <= x < rest.len() implies #[trigger] rest[x] == kept.remove(i as int)[x] by {
                if x < i {
                    assert(prod.inner@[x] == pv0[x]);
                    assert(kept.remove(i as int)[x] == kept[x]);
                } else {
                    assert(prod.inner@[x] == pv0[x + 1]);
                    assert(kept.remove(i as int)[x] == kept[x + 1]);
                }
            }
            assert(rest =~= kept.remove(i as int));
        }
        let subs = removed.into_inners();
        let ghost subv = views_of(subs@);
        let mut prods: Vec<Equation> = Vec::new();
        let mut k: usize = 0;
        proof {
            assert(subv.take(0) =~= Seq::<Expr>::empty());
            assert(views_of(Seq::<Equation>::empty()) =~= Seq::<Expr>::empty());
        }
        let mut subs = subs;
        while k < subs.len()
            invariant
                k <= subs@.len(),
                subs@.len() == subv.len(),
                forall|j: int| k <= j < subv.len() ==> #[trigger] subs@[j]@ == subv[j],
                views_of(prod.inner@) == rest,
                prods@.len() == k,
                forall|j: int|
                    0 <= j < k ==> #[trigger] views_of(prods@)[j] == Expr::Prod(
                        rest.push(subv[j]),
                    ),
            decreases subs@.len() - k,
        {
            let mut tmp = Equation::Var(String::new());
            vstd::pervasive::VecAdditionalExecFns::set_and_swap(&mut subs, k, &mut tmp);
            proof {
                assert(tmp@ == subv[k as int]);
            }
            let mut ni = crate::equation::vec_deep_clone(&prod.inner);
            let ghost niv = views_of(ni@);
            ni.push(tmp);
            proof {
                assert(niv =~= rest);
                assert(views_of(ni@) =~= rest.push(subv[k as int]));
            }
            let ghost pv_pre = views_of(prods@);
            let pe = Equation::Prod(Box::new(Prod { inner: ni }));
            let ghost pev = pe@;
            prods.push(pe);
            proof {
                assert(pev == Expr::Prod(rest.push(subv[k as int])));
                assert forall|j: int|
                    0 <= j < k + 1 implies #[trigger] views_of(prods@)[j] == Expr::Prod(
                    rest.push(subv[j]),
                ) by {
                    if j < k {
                        assert(views_of(prods@)[j] == pv_pre[j]);
                    } else {
                        assert(views_of(prods@)[j] == pev);
                    }
                }
            }
            k = k + 1;
        }
        let ghost pv = views_of(prods@);
        let empty_sh: Vec<Equation> = Vec::new();
        proof {
            assert(views_of(empty_sh@) =~= Seq::<Expr>::empty());
        }
        let big = Equation::Sum(Box::new(Sum { inner: prods, already_simplified: empty_sh }));
        proof {
            assert(big@ == Expr::Sum(pv, views_of(empty_sh@)));
            if fastf {
                assert(settled(big@)) by {
                    match rv {
                        Expr::Sum(rk, rs) => {
                            assert(subv == rk);
                            assert(pv.len() == subv.len());
                            assert(pv.len() != 1);
                            crate::equation::lemma_all_literals_iff(rest);
                            crate::equation::lemma_all_literals_iff(rk);
                            lemma_settled_terms_iff(pv);
                            assert forall|k: int|
                                0 <= k < pv.len() implies settled_term(#[trigger] pv[k]) by {
                                assert(pv[k] == Expr::Prod(rest.push(subv[k])));
                                let body = rest.push(subv[k]);
                                crate::equation::lemma_all_literals_iff(body);
                                assert forall|x: int|
                                    0 <= x < body.len() implies is_literal(#[trigger] body[x]) by {
                                    if x < rest.len() {
                                        assert(body[x] == rest[x]);
                                    } else {
                                        assert(body[x] == subv[k]);
                                        assert(is_literal(rk[k]));
                                    }
                                }
                                assert(body.len() == rest.len() + 1);
                                assert(body.len() != 1);
                            }
                        },
                        _ => {},
                    }
                }
            }
            assert(clean(big@)) by {
                assert forall|j: int| 0 <= j < pv.len() implies clean(#[trigger] pv[j]) by {
                    assert(pv[j] == Expr::Prod(rest.push(subv[j])));
                    assert(clean_list(rest)) by {
                        crate::equation::lemma_clean_list_iff(rest);
                        assert forall|x: int| 0 <= x < rest.len() implies clean(
                            #[trigger] rest[x],
                        ) by {
                            assert(rest[x] == kept.remove(i as int)[x]);
                            kept.remove_ensures(i as int);
                            if x < i {
                                assert(rest[x] == kept[x]);
                            } else {
                                assert(rest[x] == kept[x + 1]);
                            }
                        }
                    }
                    assert(clean(subv[j])) by {
                        assert(clean(rv));
                        match rv {
                            Expr::Sum(rk, rs) => {
                                crate::equation::lemma_clean_list_iff(rk);
                                assert(subv[j] == rk[j]);
                            },
                            _ => {},
                        }
                    }
                    crate::equation::lemma_clean_push(rest, subv[j]);
                }
                crate::equation::lemma_clean_list_iff(pv);
            }
            assert forall|m: Map<Seq<char>, bool>|
                #[trigger] eval_spec(big@, m) == eval_and(kept, m) by {
                lemma_eval_and_remove(kept, i as int, m);
                assert(rest =~= kept.remove(i as int)) by {
                    kept.remove_ensures(i as int);
                }
                match rv {
                    Expr::Sum(rk, rs) => {
                        assert(rs.len() == 0);
                        assert(subv == rk);
                        crate::equation::lemma_eval_or_iff(pv, m);
                        crate::equation::lemma_eval_or_iff(rk, m);
                        assert forall|j: int|
                            0 <= j < pv.len() implies eval_spec(#[trigger] pv[j], m) == (eval_and(
                            rest,
                            m,
                        ) && eval_spec(rk[j], m)) by {
                            assert(pv[j] == Expr::Prod(rest.push(subv[j])));
                            crate::equation::lemma_eval_and_push(rest, subv[j], m);
                        }
                        assert(eval_spec(rv, m) == (eval_or(rk, m) || eval_or(rs, m)));
                        assert(!eval_or(rs, m));
                        assert(!eval_or(views_of(empty_sh@), m));
                        assert(pv.len() == subv.len());
                        if eval_or(pv, m) {
                            let j = choose|j: int| 0 <= j < pv.len() && eval_spec(#[trigger] pv[j], m);
                            assert(eval_spec(rk[j], m));
                        }
                        if eval_and(rest, m) && eval_or(rk, m) {
                            let j = choose|j: int| 0 <= j < rk.len() && eval_spec(#[trigger] rk[j], m);
                            assert(eval_spec(pv[j], m));
                        }
                        assert(eval_spec(big@, m) == eval_or(pv, m));
                        assert(eval_or(pv, m) == (eval_and(rest, m) && eval_or(rk, m)));
                    },
                    _ => {},
                }
            }
            assert forall|n: Seq<char>|
                #[trigger] appears(big@, n) implies appears_in_list(kept, n) by {
                assert(!appears_in_list(views_of(empty_sh@), n));
                if appears_in_list(pv, n) {
                    crate::equation::lemma_appears_in_list_iff(pv, n);
                    let j = choose|j: int| 0 <= j < pv.len() && appears(#[trigger] pv[j], n);
                    assert(pv[j] == Expr::Prod(rest.push(subv[j])));
                    crate::equation::lemma_appears_push(rest, subv[j], n);
                    lemma_appears_remove(kept, i as int, n);
                    assert(rest =~= kept.remove(i as int)) by {
                        kept.remove_ensures(i as int);
                    }
                    if appears(subv[j], n) {
                        match rv {
                            Expr::Sum(rk, rs) => {
                                crate::equation::lemma_appears_in_list_iff(rk, n);
                                assert(appears(rk[j], n));
                                assert(appears_in_list(rk, n));
                                assert(appears(rv, n));
                            },
                            _ => {},
                        }
                    }
                }
            }
        }
        let res = match big.complete_simplify_fuel(fuel - 1) {
            Ok(v) => v,
            Err(e) => {
                proof {
                    if fastf {
                        assert(false);
                    }
                }
                return Err(e);
            },
        };
        Ok(res)
    }

    /// One rewrite pass over a product: children are simplified; the first
    /// child that is a sum triggers distribution, otherwise the product is
    /// flattened.
    #[verifier::loop_isolation(false)]
    pub(crate) fn simplified_fuel(self, fuel: u64) -> (r: Result<Equation, SimplifyHalt>)
        requires
            clean_list(views_of(self.inner@)),
        ensures
            r matches Ok(out) ==> {
                &&& forall|m: Map<Seq<char>, bool>|
                    #[trigger] eval_spec(out@, m) == eval_and(views_of(self.inner@), m)
                &&& forall|n: Seq<char>|
                    #[trigger] appears(out@, n) ==> appears_in_list(views_of(self.inner@), n)
                &&& clean(out@)
                &&& root_clean(out@)
                &&& root_flat(out@)
            },
            all_literals(views_of(self.inner@)) && self.inner@.len() != 1 && fuel >= 7 ==> (
            r matches Ok(out) && out@ == Expr::Prod(views_of(self.inner@))),
            all_literals(views_of(self.inner@)) && self.inner@.len() == 1 && fuel >= 7 ==> (
            r matches Ok(out) && out@ == views_of(self.inner@)[0]),
        decreases fuel,
    {
        if fuel == 0 {
            return Err(SimplifyHalt::OutOfFuel);
        }
        let mut prod = self;
        let ghost kept = views_of(prod.inner@);
        let ghost fast = all_literals(kept) && fuel >= 7;
        proof {
            crate::equation::lemma_clean_list_iff(kept);
            crate::equation::lemma_all_literals_iff(kept);
            assert(kept.take(0) =~= Seq::<Expr>::empty());
        }
        let mut sv: Vec<Equation> = Vec::new();
        let mut i: usize = 0;
        while i < prod.inner.len()
            invariant
                fast ==> views_of(sv@) == kept.take(i as int),
                i <= prod.inner@.len(),
                prod.inner@.len() == kept.len(),
                forall|j: int| i <= j < kept.len() ==> #[trigger] prod.inner@[j]@ == kept[j],
                sv@.len() == i,
                clean_list(views_of(sv@)),
                forall|j: int, m: Map<Seq<char>, bool>|
                    0 <= j < i ==> #[trigger] eval_spec(views_of(sv@)[j], m) == eval_spec(
                        kept[j],
                        m,
                    ),
                forall|j: int, n: Seq<char>|
                    0 <= j < i && #[trigger] appears(views_of(sv@)[j], n) ==> appears(kept[j], n),
            decreases prod.inner@.len() - i,
        {
            let ghost sv_pre = views_of(sv@);
            let mut tmp = Equation::Var(String::new());
            vstd::pervasive::VecAdditionalExecFns::set_and_swap(&mut prod.inner, i, &mut tmp);
            proof {
                assert(tmp@ == kept[i as int]);
                assert(clean(kept[i as int]));
                assert(root_clean(tmp@)) by {
                    match tmp@ {
                        Expr::Sum(k2, s2) => {
                            assert(clean_list(k2) && s2.len() == 0);
                            assert(clean_list(s2));
                        },
                        _ => {},
                    }
                }
            }
            let x = match tmp.simplified_fuel(fuel - 1) {
                Ok(v) => v,
                Err(e) => {
                    proof {
                        if fast {
                            assert(is_literal(kept[i as int]));
                            assert(false);
                        }
                    }
                    return Err(e);
                },
            };
            proof {
                if fast {
                    assert(is_literal(kept[i as int]));
                    assert(x@ == kept[i as int]);
                }
            }
            let ghost xv = x@;
            sv.push(x);
            proof {
                assert(views_of(sv@) =~= sv_pre.push(xv));
                if fast {
                    assert(views_of(sv@) =~= kept.take(i + 1));
                }
                crate::equation::lemma_clean_push(sv_pre, xv);
                assert forall|j: int, m: Map<Seq<char>, bool>|
                    0 <= j < i + 1 implies #[trigger] eval_spec(views_of(sv@)[j], m) == eval_spec(
                    kept[j],
                    m,
                ) by {
                    if j < i {
                        assert(views_of(sv@)[j] == sv_pre[j]);
                    } else {
                        assert(views_of(sv@)[j] == xv);
                    }
                }
                assert forall|j: int, n: Seq<char>|
                    0 <= j < i + 1 && #[trigger] appears(views_of(sv@)[j], n) implies appears(
                    kept[j],
                    n,
                ) by {
                    if j < i {
                        assert(views_of(sv@)[j] == sv_pre[j]);
                    } else {
                        assert(views_of(sv@)[j] == xv);
                    }
                }
            }
            i = i + 1;
        }
        let ghost svv = views_of(sv@);
        proof {
            if fast {
                assert(svv == kept);
            }
        }
        let new_prod = Prod { inner: sv };
        let mut j: usize = 0;
        while j < new_prod.inner.len()
            invariant
                j <= new_prod.inner@.len(),
                views_of(new_prod.inner@) == svv,
                svv.len() == kept.len(),
                clean_list(svv),
                forall|x: int, m: Map<Seq<char>, bool>|
                    0 <= x < svv.len() ==> #[trigger] eval_spec(svv[x], m) == eval_spec(
                        kept[x],
                        m,
                    ),
                forall|x: int, n: Seq<char>|
                    0 <= x < svv.len() && #[trigger] appears(svv[x], n) ==> appears(kept[x], n),
                forall|x: int| 0 <= x < j ==> !(#[trigger] svv[x] is Sum),
            decreases new_prod.inner@.len() - j,
        {
            let is_sum = match &new_prod.inner[j] {
                Equation::Sum(_) => true,
                _ => false,
            };
            if is_sum {
                proof {
                    if fast {
                        assert(is_literal(svv[j as int]));
                        assert(false);
                    }
                }
                let jj = j;
                let res = match new_prod.factorise_for_fuel(jj, fuel - 1) {
                    Ok(v) => v,
                    Err(e) => {
                        return Err(e);
                    },
                };
                proof {
                    assert forall|m: Map<Seq<char>, bool>|
                        #[trigger] eval_spec(res@, m) == eval_and(kept, m) by {
                        lemma_eval_pointwise(svv, kept, m);
                    }
                    assert forall|n: Seq<char>|
                        #[trigger] appears(res@, n) implies appears_in_list(kept, n) by {
                        if appears_in_list(svv, n) {
                            crate::equation::lemma_appears_in_list_iff(svv, n);
                            crate::equation::lemma_appears_in_list_iff(kept, n);
                            let x = choose|x: int| 0 <= x < svv.len() && appears(#[trigger] svv[x], n);
                            assert(appears(kept[x], n));
                        }
                    }
                    assert(root_clean(res@)) by {
                        match res@ {
                            Expr::Sum(k2, s2) => {
                                assert(clean_list(k2) && s2.len() == 0);
                                assert(clean_list(s2));
                            },
                            _ => {},
                        }
                    }
                }
                return Ok(res);
            }
            j = j + 1;
        }
        let res = match new_prod.flatten_fuel(fuel - 1) {
            Ok(v) => v,
            Err(e) => {
                proof {
                    if fast {
                        assert(false);
                    }
                }
                return Err(e);
            },
        };
        proof {
            if fast {
                if kept.len() != 1 {
                    assert(res@ == Expr::Prod(svv));
                } else {
                    assert(res@ == svv[0]);
                }
            }
            assert forall|m: Map<Seq<char>, bool>|
                #[trigger] eval_spec(res@, m) == eval_and(kept, m) by {
                lemma_eval_pointwise(svv, kept, m);
            }
            assert forall|n: Seq<char>|
                #[trigger] appears(res@, n) implies appears_in_list(kept, n) by {
                if appears_in_list(svv, n) {
                    crate::equation::lemma_appears_in_list_iff(svv, n);
                    crate::equation::lemma_appears_in_list_iff(kept, n);
                    let x = choose|x: int| 0 <= x < svv.len() && appears(#[trigger] svv[x], n);
                    assert(appears(kept[x], n));
                }
            }
        }
        Ok(res)
    }
}

impl Equation {
    /// Runs rewrite passes to a fixed point, folds the side lists back in,
    /// and reduces a sum-of-products root with the minimizer, bounded by
    /// `fuel`.
    #[verifier::loop_isolation(false)]
    pub(crate) fn complete_simplify_fuel(self, fuel: u64) -> (r: Result<Equation, SimplifyHalt>)
        requires
            clean(self@),
        ensures
            r matches Ok(out) ==> {
                &&& is_sop(out@)
                &&& root_flat(out@)
                &&& clean(out@)
                &&& forall|m: Map<Seq<char>, bool>|
                    #[trigger] eval_spec(out@, m) == eval_spec(self@, m)
                &&& forall|n: Seq<char>| #[trigger] appears(out@, n) ==> appears(self@, n)
            },
            self@ is Var && fuel >= 2 ==> (r matches Ok(out) && out@ == self@),
            crate::equation::settled(self@) && fuel >= 12 ==> r is Ok,
            (match self@ {
                Expr::Sum(kept, shelved) => shelved.len() == 0 && kept.len() == 1
                    && crate::equation::all_sop_terms(kept),
                _ => false,
            }) && fuel >= 12 ==> r is Ok,
            is_sop(self@) && fuel >= 13 ==> r is Ok,
        decreases fuel,
    {
        if fuel == 0 {
            return Err(SimplifyHalt::OutOfFuel);
        }
        let ghost orig = self@;
        let ghost fast = (orig is Var && fuel >= 2) || (settled(orig) && fuel >= 12);
        let ghost fast_one = (match orig {
            Expr::Sum(kept, shelved) => shelved.len() == 0 && kept.len() == 1
                && crate::equation::all_sop_terms(kept),
            _ => false,
        }) && fuel >= 12;
        let ghost ct = (match orig {
            Expr::Sum(kept, shelved) => crate::equation::collapse_term(kept[0]),
            _ => orig,
        });
        let ghost fall = is_sop(orig) && fuel >= 13;
        let ghost fpass = crate::equation::sop_pass(orig);
        let ghost cl = (match orig {
            Expr::Sum(kept, _) => crate::equation::collapse_list(kept),
            _ => Seq::<Expr>::empty(),
        });
        let ghost stash = Expr::Sum(Seq::<Expr>::empty(), cl);
        proof {
            if fall {
                match orig {
                    Expr::Sum(kept, shelved) => {
                        crate::equation::lemma_collapse_list_settled(kept);
                        assert forall|j: int| 0 <= j < cl.len() implies settled_term(
                            #[trigger] cl[j],
                        ) && crate::equation::is_simplified_spec(cl[j], 0) && clean(cl[j]) by {
                            crate::equation::lemma_settled_term_clean(cl[j]);
                        }
                        crate::equation::lemma_clean_list_iff(cl);
                        if kept.len() == 1 {
                            assert(fpass == cl[0]);
                            crate::equation::lemma_settled_term_settled(fpass);
                        } else {
                            assert(shelved =~= Seq::<Expr>::empty());
                            assert(fpass == Expr::Sum(cl, Seq::<Expr>::empty()));
                            crate::equation::lemma_settled_terms_iff(cl);
                            assert(settled(fpass));
                        }
                    },
                    _ => {
                        assert(is_sop_term(orig));
                        crate::equation::lemma_collapse_settled(orig);
                        crate::equation::lemma_settled_term_settled(fpass);
                        assert(crate::equation::clean_list(cl));
                    },
                }
                assert(settled(fpass));
                assert(fpass is Sum ==> fpass == Expr::Sum(cl, Seq::<Expr>::empty())) by {
                    match orig {
                        Expr::Sum(kept, _) => {
                            if kept.len() == 1 {
                                assert(settled_term(fpass));
                            }
                        },
                        Expr::Prod(items) => {
                            if items.len() == 1 {
                                crate::equation::lemma_all_literals_iff(items);
                                assert(is_literal(items[0]));
                            }
                        },
                        _ => {},
                    }
                }
            }
        }
        proof {
            if fast_one {
                match orig {
                    Expr::Sum(kept, shelved) => {
                        assert(is_sop_term(kept[0]));
                        crate::equation::lemma_collapse_settled(kept[0]);
                        crate::equation::lemma_settled_term_settled(ct);
                        assert(!(ct is Sum)) by {
                            match kept[0] {
                                Expr::Prod(items) => {
                                    if items.len() == 1 {
                                        crate::equation::lemma_all_literals_iff(items);
                                        assert(is_literal(items[0]));
                                    }
                                },
                                _ => {},
                            }
                        }
                    },
                    _ => {},
                }
            }
        }
        proof {
            assert(root_clean(orig)) by {
                match orig {
                    Expr::Sum(k2, s2) => {
                        assert(clean_list(k2) && s2.len() == 0);
                        assert(clean_list(s2));
                    },
                    _ => {},
                }
            }
        }
        let mut fl: u64 = fuel - 1;
        if fl == 0 {
            return Err(SimplifyHalt::OutOfFuel);
        }
        let mut old_self = self;
        let mut new_self = match old_self.deep_clone().simplified_fuel(fl) {
            Ok(v) => v,
            Err(e) => {
                proof {
                    if fast {
                        assert(false);
                    }
                    if fast_one {
                        assert(false);
                    }
                    if fall {
                        assert(false);
                    }
                }
                return Err(e);
            },
        };
        while !new_self.deep_equals(&old_self)
            invariant
                fl < fuel,
                root_clean(new_self@),
                fast ==> new_self@ == orig && old_self@ == orig,
                fast_one ==> new_self@ == ct && settled(ct) && !(ct is Sum) && ((old_self@ == orig
                    && fl == fuel - 1) || (old_self@ == ct && fl >= fuel - 2)),
                fall ==> {
                    &&& settled(fpass)
                    &&& (fpass is Sum ==> fpass == Expr::Sum(cl, Seq::<Expr>::empty()))
                    &&& (forall|j: int|
                        0 <= j < cl.len() ==> settled_term(#[trigger] cl[j])
                            && crate::equation::is_simplified_spec(cl[j], 0))
                    &&& crate::equation::clean_list(cl)
                    &&& ((new_self@ == fpass && old_self@ == orig && fl == fuel - 1) || (new_self@
                        == stash && old_self@ == fpass && fl >= fuel - 2) || (new_self@ == fpass
                        && old_self@ == fpass && fl >= fuel - 2) || (new_self@ == stash
                        && old_self@ == stash && fl >= fuel - 3))
                },
                forall|m: Map<Seq<char>, bool>|
                    eval_spec(new_self@, m) == #[trigger] eval_spec(orig, m),
                forall|n: Seq<char>| appears(new_self@, n) ==> #[trigger] appears(orig, n),
            decreases fl,
        {
            proof {
                if fast {
                    assert(false);
                }
                if fast_one {
                    assert(old_self@ != ct);
                    assert(old_self@ == orig);
                    assert(fl == fuel - 1);
                }
                if fall {
                    assert(new_self@ == fpass || new_self@ == stash);
                }
            }
            if fl == 0 {
                proof {
                    if fast_one {
                        assert(false);
                    }
                    if fall {
                        assert(false);
                    }
                }
                return Err(SimplifyHalt::OutOfFuel);
            }
            fl = fl - 1;
            old_self = new_self;
            new_self = match old_self.deep_clone().simplified_fuel(fl) {
                Ok(v) => v,
                Err(e) => {
                    proof {
                        if fast_one {
                            assert(false);
                        }
                        if fall {
                            if old_self@ == fpass {
                                assert(settled(old_self@));
                                assert(false);
                            } else {
                                assert(old_self@ == stash);
                                assert(false);
                            }
                        }
                    }
                    return Err(e);
                },
            };
            proof {
                if fall {
                    if old_self@ == fpass {
                        assert(new_self@ == fpass);
                    } else {
                        assert(old_self@ == stash);
                        assert(new_self@ == Expr::Sum(Seq::<Expr>::empty(), cl));
                    }
                }
            }
            let ghost mid = new_self@;
            new_self.remove_simplified();
            proof {
                if fall {
                    if mid == fpass && !(fpass is Sum) {
                        assert(new_self@ == fpass);
                    } else {
                        assert(mid == Expr::Sum(Seq::<Expr>::empty(), cl) || mid == Expr::Sum(
                            cl,
                            Seq::<Expr>::empty(),
                        ));
                        match mid {
                            Expr::Sum(kept, shelved) => {
                                assert(new_self@ == Expr::Sum(
                                    crate::equation::active_of(kept),
                                    shelved + crate::equation::pruned_of(kept),
                                ));
                                crate::equation::lemma_prune_all(kept);
                                assert(crate::equation::active_of(kept) =~= Seq::<Expr>::empty());
                                assert(shelved + crate::equation::pruned_of(kept) =~= cl);
                                assert(new_self@ == stash);
                            },
                            _ => {},
                        }
                    }
                }
            }
        }
        let ghost pre = new_self@;
        new_self.reconstruct();
        proof {
            assert(new_self@ == recon(pre));
            assert forall|m: Map<Seq<char>, bool>|
                eval_spec(new_self@, m) == #[trigger] eval_spec(orig, m) by {
                crate::equation::lemma_recon(pre, m);
            }
            assert forall|n: Seq<char>| appears(new_self@, n) implies #[trigger] appears(
                orig,
                n,
            ) by {
                crate::equation::lemma_recon(pre, Map::empty());
            }
            assert(clean(new_self@)) by {
                crate::equation::lemma_recon(pre, Map::empty());
            }
        }
        proof {
            if fast {
                if orig is Var {
                    assert(clean(orig));
                } else {
                    lemma_settled_sop(orig);
                }
                lemma_recon_identity(orig);
                assert(new_self@ == orig);
                assert(is_sop(new_self@)) by {
                    if orig is Var {
                    } else {
                        lemma_settled_sop(orig);
                    }
                }
            }
            if fast_one {
                lemma_settled_sop(ct);
                lemma_recon_identity(ct);
                assert(new_self@ == ct);
                assert(is_sop(new_self@));
            }
            if fall {
                if pre == fpass {
                    lemma_settled_sop(fpass);
                    lemma_recon_identity(fpass);
                    assert(new_self@ == fpass);
                    assert(is_sop(new_self@));
                } else {
                    assert(pre == stash);
                    crate::equation::lemma_recon_identity_list(cl);
                    assert(crate::equation::recon_list(Seq::<Expr>::empty()) =~= Seq::<
                        Expr,
                    >::empty());
                    assert(crate::equation::recon_list(Seq::<Expr>::empty())
                        + crate::equation::recon_list(cl) =~= cl);
                    assert(new_self@ == Expr::Sum(cl, Seq::<Expr>::empty()));
                    assert(is_sop(new_self@)) by {
                        assert forall|j: int| 0 <= j < cl.len() implies is_sop_term(
                            #[trigger] cl[j],
                        ) by {
                            assert(settled_term(cl[j]));
                        }
                        crate::equation::lemma_all_sop_terms_iff(cl);
                    }
                }
            }
        }
        if new_self.check_sop() {
            new_self.mccluskey();
            proof {
                lemma_sop_root_flat(new_self@);
                if fast && orig is Var {
                    assert(new_self@ == orig);
                }
            }
            Ok(new_self)
        } else {
            proof {
                if fast {
                    assert(false);
                }
                if fast_one {
                    assert(false);
                }
                if fall {
                    assert(false);
                }
            }
            Err(SimplifyHalt::UnexpectedShape)
        }
    }
}

/// The step budget of the public rewrite entry points: far more steps
/// than any expression that fits in memory can use.
pub const STEP_BUDGET: u64 = 0xffff_ffff_ffff_ffff;

impl Equation {
    /// One rewrite pass: unit collapse, flattening, De Morgan, and
    /// distribution of a product over its first sum child. Stops with a
    /// halt value if the step budget runs out.
    pub fn simplified(self) -> (r: Result<Equation, SimplifyHalt>)
        requires
            root_clean(self@),
        ensures
            r matches Ok(out) ==> {
                &&& forall|m: Map<Seq<char>, bool>|
                    #[trigger] eval_spec(out@, m) == eval_spec(self@, m)
                &&& forall|n: Seq<char>| #[trigger] appears(out@, n) ==> appears(self@, n)
                &&& root_clean(out@)
                &&& root_flat(out@)
                &&& clean(self@) ==> clean(out@)
            },
            settled_term(self@) ==> (r matches Ok(out) && out@ == self@),
            settled(self@) ==> (r matches Ok(out) && out@ == self@),
            (match self@ {
                Expr::Sum(kept, shelved) => shelved.len() == 0 && (forall|j: int|
                    0 <= j < kept.len() ==> settled(#[trigger] kept[j])),
                _ => false,
            }) ==> r is Ok,
            (match self@ {
                Expr::Not(inner) => settled(*inner),
                _ => false,
            }) ==> r is Ok,
            is_sop_term(self@) ==> (r matches Ok(out) && out@ == crate::equation::collapse_term(
                self@,
            )),
            (match self@ {
                Expr::Sum(kept, shelved) => shelved.len() == 0 && kept.len() == 1
                    && crate::equation::all_sop_terms(kept),
                _ => false,
            }) ==> (r matches Ok(out) && (match self@ {
                Expr::Sum(kept, _) => out@ == crate::equation::collapse_term(kept[0]),
                _ => false,
            })),
            is_sop(self@) ==> (r matches Ok(out) && out@ == crate::equation::sop_pass(self@)),
    {
        self.simplified_fuel(STEP_BUDGET)
    }

    /// Rewrites the expression to a fixed point and reduces a
    /// sum-of-products root with the minimizer. On success the result is a
    /// logically equal sum-of-products tree over a subset of the
    /// variables, with no sum under a product and every negation directly
    /// on a variable; a halt value reports an exhausted step budget or a
    /// fixed point that is not in sum-of-products form. An expression
    /// already in sum-of-products form is always accepted.
    pub fn complete_simplify(self) -> (r: Result<Equation, SimplifyHalt>)
        requires
            clean(self@),
        ensures
            r matches Ok(out) ==> {
                &&& is_sop(out@)
                &&& root_flat(out@)
                &&& clean(out@)
                &&& crate::equation::no_sum_under_prod(out@)
                &&& crate::equation::nots_wrap_vars(out@)
                &&& forall|m: Map<Seq<char>, bool>|
                    #[trigger] eval_spec(out@, m) == eval_spec(self@, m)
                &&& forall|n: Seq<char>| #[trigger] appears(out@, n) ==> appears(self@, n)
            },
            self@ is Var ==> (r matches Ok(out) && out@ == self@),
            settled(self@) ==> r is Ok,
            (match self@ {
                Expr::Sum(kept, shelved) => shelved.len() == 0 && kept.len() == 1
                    && crate::equation::all_sop_terms(kept),
                _ => false,
            }) ==> r is Ok,
            is_sop(self@) ==> r is Ok,
    {
        let r = self.complete_simplify_fuel(STEP_BUDGET);
        proof {
            match r {
                Ok(ref out) => {
                    crate::equation::lemma_sop_shape(out@);
                },
                Err(_) => {},
            }
        }
        r
    }
}

impl Sum {
    /// One rewrite pass over a sum: simplified children, nested sums
    /// spliced in, and a sole child with no side list replacing the sum.
    pub fn simplified(self) -> (r: Result<Equation, SimplifyHalt>)
        requires
            clean_list(views_of(self.inner@)),
            clean_list(views_of(self.already_simplified@)),
        ensures
            r matches Ok(out) ==> {
                &&& forall|m: Map<Seq<char>, bool>|
                    #[trigger] eval_spec(out@, m) == (eval_or(views_of(self.inner@), m)
                        || eval_or(views_of(self.already_simplified@), m))
                &&& forall|n: Seq<char>|
                    #[trigger] appears(out@, n) ==> (appears_in_list(views_of(self.inner@), n)
                        || appears_in_list(views_of(self.already_simplified@), n))
                &&& root_clean(out@)
                &&& root_flat(out@)
                &&& self.already_simplified@.len() == 0 ==> clean(out@)
            },
            settled_terms(views_of(self.inner@)) && self.already_simplified@.len() == 0
                && self.inner@.len() != 1 ==> (r matches Ok(out) && out@ == Expr::Sum(
                views_of(self.inner@),
                views_of(self.already_simplified@),
            )),
            (forall|j: int|
                0 <= j < views_of(self.inner@).len() ==> settled(
                    #[trigger] views_of(self.inner@)[j],
                )) && self.already_simplified@.len() == 0 ==> r is Ok,
            crate::equation::all_sop_terms(views_of(self.inner@)) && self.inner@.len() == 1
                && self.already_simplified@.len() == 0 ==> (r matches Ok(out) && out@
                == crate::equation::collapse_term(views_of(self.inner@)[0])),
    {
        self.simplified_fuel(STEP_BUDGET)
    }
}

impl Prod {
    /// One rewrite pass over a product: simplified children, then
    /// distribution over the first sum child or flattening.
    pub fn simplified(self) -> (r: Result<Equation, SimplifyHalt>)
        requires
            clean_list(views_of(self.inner@)),
        ensures
            r matches Ok(out) ==> {
                &&& forall|m: Map<Seq<char>, bool>|
                    #[trigger] eval_spec(out@, m) == eval_and(views_of(self.inner@), m)
                &&& forall|n: Seq<char>|
                    #[trigger] appears(out@, n) ==> appears_in_list(views_of(self.inner@), n)
                &&& clean(out@)
                &&& root_flat(out@)
            },
            all_literals(views_of(self.inner@)) && self.inner@.len() != 1 ==> (r matches Ok(out)
                && out@ == Expr::Prod(views_of(self.inner@))),
            all_literals(views_of(self.inner@)) && self.inner@.len() == 1 ==> (r matches Ok(out)
                && out@ == views_of(self.inner@)[0]),
    {
        self.simplified_fuel(STEP_BUDGET)
    }

    /// Flattens the product: simplified children, nested products spliced
    /// in, and a sole child replacing the product.
    pub fn flatten(self) -> (r: Result<Equation, SimplifyHalt>)
        requires
            clean_list(views_of(self.inner@)),
        ensures
            r matches Ok(out) ==> {
                &&& forall|m: Map<Seq<char>, bool>|
                    #[trigger] eval_spec(out@, m) == eval_and(views_of(self.inner@), m)
                &&& forall|n: Seq<char>|
                    #[trigger] appears(out@, n) ==> appears_in_list(views_of(self.inner@), n)
                &&& clean(out@)
                &&& root_flat(out@)
            },
            all_literals(views_of(self.inner@)) && self.inner@.len() != 1 ==> (r matches Ok(out)
                && out@ == Expr::Prod(views_of(self.inner@))),
            all_literals(views_of(self.inner@)) && self.inner@.len() == 1 ==> (r matches Ok(out)
                && out@ == views_of(self.inner@)[0]),
            (forall|j: int|
                0 <= j < views_of(self.inner@).len() ==> settled(
                    #[trigger] views_of(self.inner@)[j],
                )) ==> r is Ok,
    {
        self.flatten_fuel(STEP_BUDGET)
    }

    /// Distributes the product over its `i`-th child, which must be a sum,
    /// and fully simplifies the resulting sum of products.
    pub fn factorise_for(self, i: usize) -> (r: Result<Equation, SimplifyHalt>)
        requires
            i < self.inner@.len(),
            views_of(self.inner@)[i as int] is Sum,
            clean_list(views_of(self.inner@)),
        ensures
            r matches Ok(out) ==> {
                &&& forall|m: Map<Seq<char>, bool>|
                    #[trigger] eval_spec(out@, m) == eval_and(views_of(self.inner@), m)
                &&& forall|n: Seq<char>|
                    #[trigger] appears(out@, n) ==> appears_in_list(views_of(self.inner@), n)
                &&& is_sop(out@)
                &&& root_flat(out@)
                &&& clean(out@)
            },
            ({
                let kept = views_of(self.inner@);
                &&& all_literals(kept.remove(i as int))
                &&& kept.remove(i as int).len() != 0
                &&& (match kept[i as int] {
                    Expr::Sum(subs, sh) => sh.len() == 0 && all_literals(subs) && subs.len() != 1,
                    _ => false,
                })
            }) ==> r is Ok,
    {
        self.factorise_for_fuel(i, STEP_BUDGET)
    }
}

impl Not {
    /// One rewrite pass over a negation: the child is fully simplified,
    /// then a double negation unwraps and De Morgan pushes the negation
    /// through a sum or product.
    pub fn simplified(self) -> (r: Result<Equation, SimplifyHalt>)
        requires
            clean(self.inner@),
        ensures
            r matches Ok(out) ==> {
                &&& forall|m: Map<Seq<char>, bool>|
                    #[trigger] eval_spec(out@, m) == !eval_spec(self.inner@, m)
                &&& forall|n: Seq<char>| #[trigger] appears(out@, n) ==> appears(self.inner@, n)
                &&& clean(out@)
                &&& root_flat(out@)
            },
            self.inner@ is Var ==> (r matches Ok(out) && out@ == Expr::Not(
                Box::new(self.inner@),
            )),
            settled(self.inner@) ==> r is Ok,
    {
        self.simplified_fuel(STEP_BUDGET)
    }
}

} // verus!
