//! Quine-McCluskey reduction of a sum of products: prime implicants as
//! ternary vectors, the merge passes, and decoding back to expressions.

use vstd::prelude::*;

use crate::equation::{
    all_literals, appears, appears_in_list, clean, eval_and, eval_or, eval_spec, is_literal,
    is_sop_term, views_of, Equation, Expr, Not, Prod, Sum,
};

verus! {

broadcast use {vstd::std_specs::vec::group_vec_axioms, vstd::seq::group_seq_axioms};

/// The role of one variable in an implicant: required false, required
/// true, or irrelevant.
#[derive(Debug, Clone, Copy, PartialEq, Eq, Hash, Structural)]
pub enum Present {
    No,
    Yes,
    Any,
}

/// A conjunction of literals over a fixed variable ordering, as a vector
/// of trits, with cached counts of `Yes` and `Any` entries.
#[derive(Debug, Clone, PartialEq, Eq, Hash)]
pub struct PrimeImplicant {
    pub list: Vec<Present>,
    pub nb_any: usize,
    pub nb_yes: usize,
}

/// How many entries of the list are the trit `v`.
pub open spec fn count_of(l: Seq<Present>, v: Present) -> nat
    decreases l,
{
    if l.len() == 0 {
        0
    } else {
        (if l[0] == v {
            1nat
        } else {
            0nat
        }) + count_of(l.drop_first(), v)
    }
}

/// The cached counters match the vector.
pub open spec fn counts_ok(pi: PrimeImplicant) -> bool {
    pi.nb_any == count_of(pi.list@, Present::Any) && pi.nb_yes == count_of(pi.list@, Present::Yes)
}

/// One variable's value satisfies its trit.
pub open spec fn trit_ok(t: Present, v: bool) -> bool {
    match t {
        Present::Yes => v,
        Present::No => !v,
        Present::Any => true,
    }
}

/// The assignment satisfies the implicant: every position's trit holds of
/// the variable at that position of the ordering.
pub open spec fn pi_eval(l: Seq<Present>, vars: Seq<Seq<char>>, m: Map<Seq<char>, bool>) -> bool {
    forall|i: int| 0 <= i < l.len() ==> trit_ok(#[trigger] l[i], m[vars[i]])
}

/// The assignment satisfies some implicant of the list.
pub open spec fn pis_eval(
    ps: Seq<PrimeImplicant>,
    vars: Seq<Seq<char>>,
    m: Map<Seq<char>, bool>,
) -> bool {
    exists|i: int| 0 <= i < ps.len() && pi_eval(#[trigger] ps[i].list@, vars, m)
}

/// In how many positions the two vectors differ.
pub open spec fn diff_count(a: Seq<Present>, b: Seq<Present>) -> nat
    decreases a,
{
    if a.len() == 0 {
        0
    } else {
        (if a[0] == b[0] {
            0nat
        } else {
            1nat
        }) + diff_count(a.drop_first(), b.drop_first())
    }
}

/// The merge of two vectors: differing positions become `Any`.
pub open spec fn merge_spec(a: Seq<Present>, b: Seq<Present>) -> Seq<Present> {
    Seq::new(
        a.len(),
        |i: int|
            if 0 <= i < a.len() && a[i] == b[i] {
                a[i]
            } else {
                Present::Any
            },
    )
}

/// Counting a list grown by one entry at the end.
pub proof fn lemma_count_push(l: Seq<Present>, x: Present, v: Present)
    ensures
        count_of(l.push(x), v) == count_of(l, v) + (if x == v {
            1nat
        } else {
            0nat
        }),
    decreases l.len(),
{
    if l.len() == 0 {
        assert(l.push(x).drop_first() =~= Seq::<Present>::empty());
        assert(l.push(x)[0] == x);
        assert(count_of(Seq::<Present>::empty(), v) == 0);
    } else {
        lemma_count_push(l.drop_first(), x, v);
        assert(l.push(x).drop_first() =~= l.drop_first().push(x));
        assert(l.push(x)[0] == l[0]);
    }
}

/// Difference counting over lists grown by one entry at the end.
pub proof fn lemma_diff_push(a: Seq<Present>, b: Seq<Present>, x: Present, y: Present)
    requires
        a.len() == b.len(),
    ensures
        diff_count(a.push(x), b.push(y)) == diff_count(a, b) + (if x == y {
            0nat
        } else {
            1nat
        }),
    decreases a.len(),
{
    if a.len() == 0 {
        assert(a.push(x).drop_first() =~= Seq::<Present>::empty());
        assert(b.push(y).drop_first() =~= Seq::<Present>::empty());
        assert(a.push(x)[0] == x);
        assert(b.push(y)[0] == y);
        assert(diff_count(Seq::<Present>::empty(), Seq::<Present>::empty()) == 0);
    } else {
        lemma_diff_push(a.drop_first(), b.drop_first(), x, y);
        assert(a.push(x).drop_first() =~= a.drop_first().push(x));
        assert(b.push(y).drop_first() =~= b.drop_first().push(y));
        assert(a.push(x)[0] == a[0]);
        assert(b.push(y)[0] == b[0]);
    }
}

/// Vectors differing in exactly one position differ somewhere, and agree
/// everywhere else.
pub proof fn lemma_diff_one(a: Seq<Present>, b: Seq<Present>)
    requires
        a.len() == b.len(),
        diff_count(a, b) == 1,
    ensures
        exists|j: int|
            0 <= j < a.len() && #[trigger] a[j] != b[j] && (forall|k: int|
                0 <= k < a.len() && k != j ==> #[trigger] a[k] == b[k]),
    decreases a.len(),
{
    if a[0] != b[0] {
        lemma_diff_zero_agree(a.drop_first(), b.drop_first());
        let j = 0int;
        assert(a[j] != b[j] && (forall|k: int|
            0 <= k < a.len() && k != j ==> #[trigger] a[k] == b[k])) by {
            assert forall|k: int| 0 <= k < a.len() && k != 0 implies #[trigger] a[k] == b[k] by {
                assert(a.drop_first()[k - 1] == b.drop_first()[k - 1]);
            }
        }
    } else {
        lemma_diff_one(a.drop_first(), b.drop_first());
        let j0 = choose|j: int|
            0 <= j < a.drop_first().len() && #[trigger] a.drop_first()[j] != b.drop_first()[j] && (
            forall|k: int|
                0 <= k < a.drop_first().len() && k != j ==> #[trigger] a.drop_first()[k]
                    == b.drop_first()[k]);
        let j = j0 + 1;
        assert(a[j] != b[j] && (forall|k: int|
            0 <= k < a.len() && k != j ==> #[trigger] a[k] == b[k])) by {
            assert(a.drop_first()[j0] == a[j] && b.drop_first()[j0] == b[j]);
            assert forall|k: int| 0 <= k < a.len() && k != j implies #[trigger] a[k] == b[k] by {
                if k > 0 {
                    assert(a.drop_first()[k - 1] != b.drop_first()[k - 1] ==> k - 1 == j0);
                    assert(a.drop_first()[k - 1] == a[k] && b.drop_first()[k - 1] == b[k]);
                }
            }
        }
    }
}

/// Vectors with no differing position agree everywhere.
proof fn lemma_diff_zero_agree(a: Seq<Present>, b: Seq<Present>)
    requires
        a.len() == b.len(),
        diff_count(a, b) == 0,
    ensures
        forall|k: int| 0 <= k < a.len() ==> #[trigger] a[k] == b[k],
    decreases a.len(),
{
    if a.len() > 0 {
        lemma_diff_zero_agree(a.drop_first(), b.drop_first());
        assert forall|k: int| 0 <= k < a.len() implies #[trigger] a[k] == b[k] by {
            if k > 0 {
                assert(a.drop_first()[k - 1] == b.drop_first()[k - 1]);
            }
        }
    }
}

/// Merging two implicants that differ in exactly one position yields an
/// implicant satisfied exactly when one of the two is.
pub proof fn lemma_merge_sound(
    a: Seq<Present>,
    b: Seq<Present>,
    vars: Seq<Seq<char>>,
    m: Map<Seq<char>, bool>,
)
    requires
        a.len() == b.len(),
        diff_count(a, b) == 1,
    ensures
        pi_eval(merge_spec(a, b), vars, m) == (pi_eval(a, vars, m) || pi_eval(b, vars, m)),
{
    lemma_diff_one(a, b);
    let j = choose|j: int|
        0 <= j < a.len() && #[trigger] a[j] != b[j] && (forall|k: int|
            0 <= k < a.len() && k != j ==> #[trigger] a[k] == b[k]);
    let c = merge_spec(a, b);
    assert(c[j] == Present::Any);
    assert forall|k: int| 0 <= k < a.len() && k != j implies #[trigger] c[k] == a[k] && c[k]
        == b[k] by {}
    if pi_eval(a, vars, m) {
        assert forall|i: int| 0 <= i < c.len() implies trit_ok(#[trigger] c[i], m[vars[i]]) by {
            if i != j {
                assert(trit_ok(a[i], m[vars[i]]));
            }
        }
    }
    if pi_eval(b, vars, m) {
        assert forall|i: int| 0 <= i < c.len() implies trit_ok(#[trigger] c[i], m[vars[i]]) by {
            if i != j {
                assert(trit_ok(b[i], m[vars[i]]));
            }
        }
    }
    if pi_eval(c, vars, m) {
        if !trit_ok(a[j], m[vars[j]]) && !trit_ok(b[j], m[vars[j]]) {
            assert(false);
        }
        if trit_ok(a[j], m[vars[j]]) {
            assert forall|i: int| 0 <= i < a.len() implies trit_ok(
                #[trigger] a[i],
                m[vars[i]],
            ) by {
                if i != j {
                    assert(trit_ok(c[i], m[vars[i]]));
                }
            }
        } else {
            assert forall|i: int| 0 <= i < b.len() implies trit_ok(
                #[trigger] b[i],
                m[vars[i]],
            ) by {
                if i != j {
                    assert(trit_ok(c[i], m[vars[i]]));
                }
            }
        }
    }
}

impl PrimeImplicant {
    /// An identical copy.
    pub fn duplicate(&self) -> (r: PrimeImplicant)
        ensures
            r.list@ == self.list@,
            r.nb_any == self.nb_any,
            r.nb_yes == self.nb_yes,
    {
        let mut list: Vec<Present> = Vec::new();
        let mut i: usize = 0;
        while i < self.list.len()
            invariant
                i <= self.list@.len(),
                list@ == self.list@.take(i as int),
            decreases self.list@.len() - i,
        {
            list.push(self.list[i]);
            proof {
                assert(self.list@.take(i + 1) =~= self.list@.take(i as int).push(
                    self.list@[i as int],
                ));
            }
            i = i + 1;
        }
        proof {
            assert(self.list@.take(self.list@.len() as int) =~= self.list@);
        }
        PrimeImplicant { list, nb_any: self.nb_any, nb_yes: self.nb_yes }
    }

    /// Whether the two vectors differ in exactly one position.
    pub fn can_merge(&self, other: &Self) -> (r: bool)
        requires
            self.list@.len() == other.list@.len(),
        ensures
            r == (diff_count(self.list@, other.list@) == 1),
    {
        let mut count: usize = 0;
        let mut i: usize = 0;
        proof {
            assert(self.list@.take(0) =~= Seq::<Present>::empty());
            assert(other.list@.take(0) =~= Seq::<Present>::empty());
        }
        while i < self.list.len()
            invariant
                i <= self.list@.len(),
                self.list@.len() == other.list@.len(),
                count <= i,
                count as int == diff_count(
                    self.list@.take(i as int),
                    other.list@.take(i as int),
                ) as int,
            decreases self.list@.len() - i,
        {
            proof {
                lemma_diff_push(
                    self.list@.take(i as int),
                    other.list@.take(i as int),
                    self.list@[i as int],
                    other.list@[i as int],
                );
                assert(self.list@.take(i + 1) =~= self.list@.take(i as int).push(
                    self.list@[i as int],
                ));
                assert(other.list@.take(i + 1) =~= other.list@.take(i as int).push(
                    other.list@[i as int],
                ));
            }
            if self.list[i] != other.list[i] {
                count = count + 1;
            }
            i = i + 1;
        }
        proof {
            assert(self.list@.take(self.list@.len() as int) =~= self.list@);
            assert(other.list@.take(other.list@.len() as int) =~= other.list@);
        }
        count == 1
    }

    /// The merge of the two vectors: differing positions become `Any`.
    pub fn merge(&self, other: &Self) -> (r: PrimeImplicant)
        requires
            self.list@.len() == other.list@.len(),
        ensures
            r.list@ == merge_spec(self.list@, other.list@),
            counts_ok(r),
    {
        let mut list: Vec<Present> = Vec::new();
        let mut i: usize = 0;
        while i < self.list.len()
            invariant
                i <= self.list@.len(),
                self.list@.len() == other.list@.len(),
                list@.len() == i,
                forall|j: int| 0 <= j < i ==> #[trigger] list@[j] == merge_spec(
                    self.list@,
                    other.list@,
                )[j],
            decreases self.list@.len() - i,
        {
            if self.list[i] != other.list[i] {
                list.push(Present::Any);
            } else {
                list.push(self.list[i]);
            }
            i = i + 1;
        }
        proof {
            assert(list@ =~= merge_spec(self.list@, other.list@));
        }
        let nb_any = count_trits(&list, Present::Any);
        let nb_yes = count_trits(&list, Present::Yes);
        PrimeImplicant { list, nb_any, nb_yes }
    }
}

/// How many entries of the vector are the given trit.
#[verifier::loop_isolation(false)]
fn count_trits(list: &Vec<Present>, v: Present) -> (r: usize)
    ensures
        r as int == count_of(list@, v) as int,
{
    let mut count: usize = 0;
    let mut i: usize = 0;
    proof {
        assert(list@.take(0) =~= Seq::<Present>::empty());
    }
    while i < list.len()
        invariant
            i <= list@.len(),
            count <= i,
            count as int == count_of(list@.take(i as int), v) as int,
        decreases list@.len() - i,
    {
        proof {
            lemma_count_push(list@.take(i as int), list@[i as int], v);
            assert(list@.take(i + 1) =~= list@.take(i as int).push(list@[i as int]));
        }
        if list[i] == v {
            count = count + 1;
        }
        i = i + 1;
    }
    proof {
        assert(list@.take(list@.len() as int) =~= list@);
    }
    count
}

/// The names of a list of strings, in order.
pub open spec fn name_views(s: Seq<String>) -> Seq<Seq<char>> {
    Seq::new(
        s.len(),
        |i: int|
            if 0 <= i < s.len() {
                s[i]@
            } else {
                Seq::<char>::empty()
            },
    )
}

/// The variable of a literal.
pub open spec fn lit_var(e: Expr) -> Seq<char> {
    match e {
        Expr::Var(n) => n,
        Expr::Not(inner) => match *inner {
            Expr::Var(n) => n,
            _ => Seq::empty(),
        },
        _ => Seq::empty(),
    }
}

/// Whether the literal is positive (a bare variable).
pub open spec fn lit_pos(e: Expr) -> bool {
    e is Var
}

/// Whether the list holds a literal on `v` with the given polarity.
pub open spec fn has_lit(l: Seq<Expr>, v: Seq<char>, pos: bool) -> bool {
    exists|i: int|
        0 <= i < l.len() && is_literal(#[trigger] l[i]) && lit_var(l[i]) == v && lit_pos(l[i])
            == pos
}

/// Some variable occurs both positively and negatively in the list.
pub open spec fn contradictory(l: Seq<Expr>) -> bool {
    exists|v: Seq<char>| #[trigger] has_lit(l, v, true) && has_lit(l, v, false)
}

/// The literal list of a sum-of-products term: the children of a product,
/// or the term itself as a one-literal list.
pub open spec fn term_lits(e: Expr) -> Seq<Expr> {
    match e {
        Expr::Prod(items) => items,
        _ => seq![e],
    }
}

/// The trit a term's literal list assigns to the variable `v`.
pub open spec fn trit_for(lits: Seq<Expr>, v: Seq<char>) -> Present {
    if has_lit(lits, v, true) {
        Present::Yes
    } else if has_lit(lits, v, false) {
        Present::No
    } else {
        Present::Any
    }
}

/// The encoding a term receives over the ordering `vars`: all `Any` when
/// the term is contradictory, else the trit of each variable in order.
pub open spec fn encodes(lits: Seq<Expr>, vars: Seq<Seq<char>>, l: Seq<Present>) -> bool {
    l.len() == vars.len() && if contradictory(lits) {
        forall|i: int| 0 <= i < l.len() ==> #[trigger] l[i] == Present::Any
    } else {
        forall|i: int| 0 <= i < l.len() ==> #[trigger] l[i] == trit_for(lits, vars[i])
    }
}

impl PrimeImplicant {
    /// A vector that is `Any` everywhere except `val` at position `pos`.
    #[verifier::loop_isolation(false)]
    pub fn any_with(pos: usize, val: Present, len: usize) -> (r: PrimeImplicant)
        requires
            pos < len,
            val != Present::Any,
        ensures
            r.list@.len() == len,
            r.list@[pos as int] == val,
            forall|i: int| 0 <= i < len && i != pos ==> #[trigger] r.list@[i] == Present::Any,
            counts_ok(r),
    {
        let mut list: Vec<Present> = Vec::new();
        let mut i: usize = 0;
        while i < len
            invariant
                i <= len,
                pos < len,
                list@.len() == i,
                pos < i ==> list@[pos as int] == val,
                forall|j: int| 0 <= j < i && j != pos ==> #[trigger] list@[j] == Present::Any,
                count_of(list@, Present::Any) == if pos < i {
                    (i - 1) as nat
                } else {
                    i as nat
                },
                count_of(list@, Present::Yes) == if pos < i && val == Present::Yes {
                    1nat
                } else {
                    0nat
                },
            decreases len - i,
        {
            let ghost before = list@;
            let ghost pushed: Present = if i == pos {
                val
            } else {
                Present::Any
            };
            if i == pos {
                list.push(val);
            } else {
                list.push(Present::Any);
            }
            proof {
                assert(list@ == before.push(pushed));
                lemma_count_push(before, pushed, Present::Any);
                lemma_count_push(before, pushed, Present::Yes);
            }
            i = i + 1;
        }
        let nb_yes: usize = if val == Present::Yes {
            1
        } else {
            0
        };
        PrimeImplicant { list, nb_any: len - 1, nb_yes }
    }

    /// Encodes a product of literals over the ordering `vars`.
    #[verifier::loop_isolation(false)]
    pub fn from_prod(p: &Prod, vars: &Vec<String>) -> (r: PrimeImplicant)
        requires
            all_literals(views_of(p.inner@)),
        ensures
            encodes(views_of(p.inner@), name_views(vars@), r.list@),
            counts_ok(r),
    {
        let ghost lits = views_of(p.inner@);
        let contra = has_contradiction(&p.inner);
        let mut list: Vec<Present> = Vec::new();
        let mut i: usize = 0;
        while i < vars.len()
            invariant
                i <= vars@.len(),
                list@.len() == i,
                contra ==> forall|j: int| 0 <= j < i ==> #[trigger] list@[j] == Present::Any,
                !contra ==> forall|j: int|
                    0 <= j < i ==> #[trigger] list@[j] == trit_for(lits, name_views(vars@)[j]),
            decreases vars@.len() - i,
        {
            if contra {
                list.push(Present::Any);
            } else {
                let t = trit_of(&p.inner, &vars[i]);
                list.push(t);
            }
            i = i + 1;
        }
        let nb_any = count_trits(&list, Present::Any);
        let nb_yes = count_trits(&list, Present::Yes);
        PrimeImplicant { list, nb_any, nb_yes }
    }

    /// Encodes a sum-of-products term over the ordering `vars`. Every
    /// variable of the term must be in `vars`.
    pub fn from_eq(eq: &Equation, vars: &Vec<String>) -> (r: PrimeImplicant)
        requires
            is_sop_term(eq@),
            forall|n: Seq<char>| appears(eq@, n) ==> crate::order::has_name(vars@, n),
            forall|i: int, j: int|
                0 <= i < j < vars@.len() ==> #[trigger] vars@[i]@ != #[trigger] vars@[j]@,
        ensures
            encodes(term_lits(eq@), name_views(vars@), r.list@),
            counts_ok(r),
    {
        match eq {
            Equation::Prod(p) => {
                proof {
                    assert(eq@ == Expr::Prod(views_of(p.inner@)));
                    assert(term_lits(eq@) == views_of(p.inner@));
                }
                Self::from_prod(p, vars)
            },
            Equation::Var(name) => {
                proof {
                    assert(appears(eq@, name@));
                    assert(crate::order::has_name(vars@, name@));
                }
                let pos = position_of(vars, name);
                let r = Self::any_with(pos, Present::Yes, vars.len());
                proof {
                    lemma_single_lit_encodes(eq@, name_views(vars@), r.list@, pos as int);
                }
                r
            },
            Equation::Not(n) => {
                proof {
                    assert(eq@ == Expr::Not(Box::new(n.inner@)));
                    assert(is_literal(eq@));
                    assert(n.inner@ is Var);
                    assert(is_literal(n.inner@));
                }
                let inner_name = lit_name(&n.inner);
                proof {
                    match n.inner@ {
                        Expr::Var(v) => {
                            assert(lit_var(n.inner@) == v);
                            assert(appears(n.inner@, v));
                        },
                        _ => {},
                    }
                    assert(appears(n.inner@, inner_name@));
                    assert(appears(eq@, inner_name@));
                    assert(crate::order::has_name(vars@, inner_name@));
                    assert(lit_var(eq@) == inner_name@);
                }
                let pos = position_of(vars, inner_name);
                let r = Self::any_with(pos, Present::No, vars.len());
                proof {
                    lemma_single_lit_encodes(eq@, name_views(vars@), r.list@, pos as int);
                }
                r
            },
            Equation::Sum(_) => {
                proof {
                    assert(false);
                }
                Self::any_with(0, Present::Yes, 1)
            },
        }
    }
}

/// A one-literal term encodes as its polarity at the literal's variable
/// position and `Any` elsewhere.
proof fn lemma_single_lit_encodes(e: Expr, vars: Seq<Seq<char>>, l: Seq<Present>, pos: int)
    requires
        is_literal(e),
        !(e is Prod),
        0 <= pos < vars.len(),
        vars[pos] == lit_var(e),
        l.len() == vars.len(),
        l[pos] == (if lit_pos(e) {
            Present::Yes
        } else {
            Present::No
        }),
        forall|i: int| 0 <= i < l.len() && i != pos ==> #[trigger] l[i] == Present::Any,
        forall|i: int, j: int| 0 <= i < j < vars.len() ==> #[trigger] vars[i] != #[trigger] vars[j],
    ensures
        encodes(term_lits(e), vars, l),
{
    let lits = term_lits(e);
    assert(lits =~= seq![e]);
    assert(lits[0] == e);
    assert(has_lit(lits, lit_var(e), lit_pos(e)));
    assert forall|v: Seq<char>, pol: bool| has_lit(lits, v, pol) implies v == lit_var(e) && pol
        == lit_pos(e) by {
        let i = choose|i: int|
            0 <= i < lits.len() && is_literal(#[trigger] lits[i]) && lit_var(lits[i]) == v
                && lit_pos(lits[i]) == pol;
        assert(lits[i] == e);
    }
    assert(!contradictory(lits));
    assert forall|i: int| 0 <= i < l.len() implies #[trigger] l[i] == trit_for(lits, vars[i]) by {
        if i == pos {
        } else {
            assert forall|pol: bool| !has_lit(lits, vars[i], pol) by {
                if has_lit(lits, vars[i], pol) {
                    assert(vars[i] == lit_var(e));
                    if i < pos {
                        assert(vars[i] != vars[pos]);
                    } else {
                        assert(vars[pos] != vars[i]);
                    }
                }
            }
            assert(trit_for(lits, vars[i]) == Present::Any);
        }
    }
}

/// The index of `name` in the list, which must hold it.
#[verifier::loop_isolation(false)]
fn position_of(vars: &Vec<String>, name: &String) -> (r: usize)
    requires
        crate::order::has_name(vars@, name@),
    ensures
        r < vars@.len(),
        vars@[r as int]@ == name@,
        name_views(vars@)[r as int] == name@,
    decreases vars,
{
    let mut i: usize = 0;
    while i < vars.len()
        invariant
            i <= vars@.len(),
            forall|j: int| 0 <= j < i ==> #[trigger] vars@[j]@ != name@,
        decreases vars@.len() - i,
    {
        if vars[i].eq(name) {
            return i;
        }
        i = i + 1;
    }
    proof {
        let k = choose|k: int| 0 <= k < vars@.len() && vars@[k]@ == name@;
        assert(false);
    }
    0
}

/// The name of the variable of a literal tree.
fn lit_name(e: &Equation) -> (r: &String)
    requires
        is_literal(e@),
    ensures
        r@ == lit_var(e@),
{
    match e {
        Equation::Var(name) => name,
        Equation::Not(n) => {
            proof {
                assert(e@ == Expr::Not(Box::new(n.inner@)));
            }
            match &n.inner {
                Equation::Var(name) => name,
                _ => {
                    proof {
                        assert(false);
                    }
                    unreached()
                },
            }
        },
        _ => {
            proof {
                assert(false);
            }
            unreached()
        },
    }
}

/// Whether a literal tree is a bare variable rather than a negation.
fn lit_positive(e: &Equation) -> (r: bool)
    requires
        is_literal(e@),
    ensures
        r == lit_pos(e@),
{
    match e {
        Equation::Var(_) => true,
        _ => false,
    }
}

/// Whether some variable occurs both positively and negatively in a list
/// of literal trees.
#[verifier::loop_isolation(false)]
pub(crate) fn has_contradiction(items: &Vec<Equation>) -> (r: bool)
    requires
        all_literals(views_of(items@)),
    ensures
        r == contradictory(views_of(items@)),
{
    let ghost lits = views_of(items@);
    proof {
        crate::equation::lemma_all_literals_iff(lits);
    }
    let mut i: usize = 0;
    while i < items.len()
        invariant
            i <= items@.len(),
            forall|a: int, b: int|
                0 <= a < i && 0 <= b < items@.len() ==> !(is_literal(#[trigger] lits[a])
                    && is_literal(#[trigger] lits[b]) && lit_var(lits[a]) == lit_var(lits[b])
                    && lit_pos(lits[a]) && !lit_pos(lits[b])),
        decreases items@.len() - i,
    {
        proof {
            assert(lits[i as int] == items@[i as int]@);
            assert(is_literal(lits[i as int]));
        }
        if lit_positive(&items[i]) {
            let name_i = lit_name(&items[i]);
            let mut j: usize = 0;
            while j < items.len()
                invariant
                    i < items@.len(),
                    j <= items@.len(),
                    is_literal(lits[i as int]),
                    lit_pos(lits[i as int]),
                    name_i@ == lit_var(lits[i as int]),
                    forall|b: int|
                        0 <= b < j ==> !(is_literal(#[trigger] lits[b]) && lit_var(lits[b])
                            == lit_var(lits[i as int]) && !lit_pos(lits[b])),
                decreases items@.len() - j,
            {
                proof {
                    assert(lits[j as int] == items@[j as int]@);
                    assert(is_literal(lits[j as int]));
                }
                if !lit_positive(&items[j]) {
                    let name_j = lit_name(&items[j]);
                    if name_i.eq(name_j) {
                        proof {
                            assert(has_lit(lits, lit_var(lits[i as int]), true));
                            assert(has_lit(lits, lit_var(lits[i as int]), false));
                        }
                        return true;
                    }
                }
                j = j + 1;
            }
        }
        i = i + 1;
    }
    proof {
        if contradictory(lits) {
            let v = choose|v: Seq<char>| #[trigger] has_lit(lits, v, true) && has_lit(
                lits,
                v,
                false,
            );
            let a = choose|a: int|
                0 <= a < lits.len() && is_literal(#[trigger] lits[a]) && lit_var(lits[a]) == v
                    && lit_pos(lits[a]) == true;
            let b = choose|b: int|
                0 <= b < lits.len() && is_literal(#[trigger] lits[b]) && lit_var(lits[b]) == v
                    && lit_pos(lits[b]) == false;
            assert(false);
        }
    }
    false
}

/// The trit the literal list assigns to one variable.
#[verifier::loop_isolation(false)]
fn trit_of(items: &Vec<Equation>, v: &String) -> (r: Present)
    requires
        all_literals(views_of(items@)),
    ensures
        r == trit_for(views_of(items@), v@),
{
    let ghost lits = views_of(items@);
    proof {
        crate::equation::lemma_all_literals_iff(lits);
    }
    let mut seen_neg = false;
    let mut i: usize = 0;
    while i < items.len()
        invariant
            i <= items@.len(),
            forall|j: int|
                0 <= j < i ==> !(is_literal(#[trigger] lits[j]) && lit_var(lits[j]) == v@
                    && lit_pos(lits[j])),
            seen_neg == exists|j: int|
                0 <= j < i && is_literal(#[trigger] lits[j]) && lit_var(lits[j]) == v@ && !lit_pos(
                    lits[j],
                ),
        decreases items@.len() - i,
    {
        proof {
            assert(lits[i as int] == items@[i as int]@);
            assert(is_literal(lits[i as int]));
        }
        let name = lit_name(&items[i]);
        if name.eq(v) {
            if lit_positive(&items[i]) {
                proof {
                    assert(has_lit(lits, v@, true));
                }
                return Present::Yes;
            } else {
                seen_neg = true;
            }
        }
        i = i + 1;
    }
    proof {
        if has_lit(lits, v@, true) {
            let j = choose|j: int|
                0 <= j < lits.len() && is_literal(#[trigger] lits[j]) && lit_var(lits[j]) == v@
                    && lit_pos(lits[j]) == true;
            assert(false);
        }
    }
    if seen_neg {
        proof {
            assert(has_lit(lits, v@, false));
        }
        Present::No
    } else {
        proof {
            if has_lit(lits, v@, false) {
                let j = choose|j: int|
                    0 <= j < lits.len() && is_literal(#[trigger] lits[j]) && lit_var(lits[j]) == v@
                        && lit_pos(lits[j]) == false;
                assert(false);
            }
        }
        Present::Any
    }
}

/// The literals an implicant decodes to, one per determined position, in
/// variable order.
pub open spec fn decode_lits(l: Seq<Present>, vars: Seq<Seq<char>>) -> Seq<Expr>
    decreases l,
{
    if l.len() == 0 {
        Seq::empty()
    } else {
        (match l[0] {
            Present::Yes => seq![Expr::Var(vars[0])],
            Present::No => seq![Expr::Not(Box::new(Expr::Var(vars[0])))],
            Present::Any => Seq::<Expr>::empty(),
        }) + decode_lits(l.drop_first(), vars.drop_first())
    }
}

/// Decoded literal lists grown by one trit at the end.
pub proof fn lemma_decode_push(l: Seq<Present>, vars: Seq<Seq<char>>, x: Present, v: Seq<char>)
    requires
        l.len() == vars.len(),
    ensures
        decode_lits(l.push(x), vars.push(v)) == decode_lits(l, vars) + (match x {
            Present::Yes => seq![Expr::Var(v)],
            Present::No => seq![Expr::Not(Box::new(Expr::Var(v)))],
            Present::Any => Seq::<Expr>::empty(),
        }),
    decreases l.len(),
{
    let tail = (match x {
        Present::Yes => seq![Expr::Var(v)],
        Present::No => seq![Expr::Not(Box::new(Expr::Var(v)))],
        Present::Any => Seq::<Expr>::empty(),
    });
    if l.len() == 0 {
        assert(l.push(x).drop_first() =~= Seq::<Present>::empty());
        assert(vars.push(v).drop_first() =~= Seq::<Seq<char>>::empty());
        assert(l.push(x)[0] == x);
        assert(vars.push(v)[0] == v);
        assert(decode_lits(Seq::<Present>::empty(), Seq::<Seq<char>>::empty())
            =~= Seq::<Expr>::empty());
        assert(decode_lits(l.push(x), vars.push(v)) =~= tail);
        assert(decode_lits(l, vars) + tail =~= tail);
    } else {
        lemma_decode_push(l.drop_first(), vars.drop_first(), x, v);
        assert(l.push(x).drop_first() =~= l.drop_first().push(x));
        assert(vars.push(v).drop_first() =~= vars.drop_first().push(v));
        assert(l.push(x)[0] == l[0]);
        assert(vars.push(v)[0] == vars[0]);
        let head = (match l[0] {
            Present::Yes => seq![Expr::Var(vars[0])],
            Present::No => seq![Expr::Not(Box::new(Expr::Var(vars[0])))],
            Present::Any => Seq::<Expr>::empty(),
        });
        assert(head + (decode_lits(l.drop_first(), vars.drop_first()) + tail) =~= (head
            + decode_lits(l.drop_first(), vars.drop_first())) + tail);
    }
}

/// An implicant is satisfied exactly when its decoded literals all hold.
pub proof fn lemma_decode_sem(l: Seq<Present>, vars: Seq<Seq<char>>, m: Map<Seq<char>, bool>)
    requires
        l.len() <= vars.len(),
    ensures
        eval_and(decode_lits(l, vars), m) == pi_eval(l, vars, m),
    decreases l.len(),
{
    if l.len() == 0 {
        assert(decode_lits(l, vars) =~= Seq::<Expr>::empty());
        assert(eval_and(Seq::<Expr>::empty(), m));
    } else {
        lemma_decode_sem(l.drop_first(), vars.drop_first(), m);
        let head = (match l[0] {
            Present::Yes => seq![Expr::Var(vars[0])],
            Present::No => seq![Expr::Not(Box::new(Expr::Var(vars[0])))],
            Present::Any => Seq::<Expr>::empty(),
        });
        crate::equation::lemma_eval_and_concat(
            head,
            decode_lits(l.drop_first(), vars.drop_first()),
            m,
        );
        assert(eval_and(head, m) == trit_ok(l[0], m[vars[0]])) by {
            assert(eval_and(Seq::<Expr>::empty(), m));
            assert(eval_spec(Expr::Var(vars[0]), m) == m[vars[0]]);
            match l[0] {
                Present::Yes => {
                    assert(head.drop_first() =~= Seq::<Expr>::empty());
                    assert(head[0] == Expr::Var(vars[0]));
                    assert(eval_and(head, m) == (eval_spec(head[0], m) && eval_and(
                        head.drop_first(),
                        m,
                    )));
                },
                Present::No => {
                    assert(head.drop_first() =~= Seq::<Expr>::empty());
                    assert(head[0] == Expr::Not(Box::new(Expr::Var(vars[0]))));
                    assert(eval_spec(Expr::Not(Box::new(Expr::Var(vars[0]))), m) == !eval_spec(
                        Expr::Var(vars[0]),
                        m,
                    ));
                    assert(eval_and(head, m) == (eval_spec(head[0], m) && eval_and(
                        head.drop_first(),
                        m,
                    )));
                },
                Present::Any => {
                },
            }
        }
        assert(pi_eval(l, vars, m) == (trit_ok(l[0], m[vars[0]]) && pi_eval(
            l.drop_first(),
            vars.drop_first(),
            m,
        ))) by {
            if trit_ok(l[0], m[vars[0]]) && pi_eval(l.drop_first(), vars.drop_first(), m) {
                assert forall|i: int| 0 <= i < l.len() implies trit_ok(
                    #[trigger] l[i],
                    m[vars[i]],
                ) by {
                    if i > 0 {
                        assert(trit_ok(l.drop_first()[i - 1], m[vars.drop_first()[i - 1]]));
                    }
                }
            }
            if pi_eval(l, vars, m) {
                assert forall|i: int|
                    0 <= i < l.drop_first().len() implies trit_ok(
                    #[trigger] l.drop_first()[i],
                    m[vars.drop_first()[i]],
                ) by {
                    assert(trit_ok(l[i + 1], m[vars[i + 1]]));
                }
            }
        }
    }
}

/// Every decoded literal is a literal on a variable of the ordering.
pub proof fn lemma_decode_shape(l: Seq<Present>, vars: Seq<Seq<char>>)
    requires
        l.len() <= vars.len(),
    ensures
        all_literals(decode_lits(l, vars)),
        forall|n: Seq<char>|
            appears_in_list(decode_lits(l, vars), n) ==> exists|j: int|
                0 <= j < vars.len() && vars[j] == n,
    decreases l.len(),
{
    if l.len() == 0 {
        assert(decode_lits(l, vars) =~= Seq::<Expr>::empty());
        assert forall|n: Seq<char>|
            !appears_in_list(decode_lits(l, vars), n) by {}
    } else {
        lemma_decode_shape(l.drop_first(), vars.drop_first());
        let head = (match l[0] {
            Present::Yes => seq![Expr::Var(vars[0])],
            Present::No => seq![Expr::Not(Box::new(Expr::Var(vars[0])))],
            Present::Any => Seq::<Expr>::empty(),
        });
        let rest = decode_lits(l.drop_first(), vars.drop_first());
        crate::equation::lemma_all_literals_iff(head);
        crate::equation::lemma_all_literals_iff(rest);
        crate::equation::lemma_all_literals_iff(decode_lits(l, vars));
        assert forall|i: int|
            0 <= i < decode_lits(l, vars).len() implies is_literal(
            #[trigger] decode_lits(l, vars)[i],
        ) by {
            assert(decode_lits(l, vars) == head + rest);
            if i < head.len() {
                assert(decode_lits(l, vars)[i] == head[i]);
                match l[0] {
                    Present::Yes => {
                        assert(head[0] == Expr::Var(vars[0]));
                    },
                    Present::No => {
                        assert(head[0] == Expr::Not(Box::new(Expr::Var(vars[0]))));
                    },
                    Present::Any => {},
                }
            } else {
                assert(decode_lits(l, vars)[i] == rest[i - head.len()]);
            }
        }
        assert forall|n: Seq<char>|
            appears_in_list(decode_lits(l, vars), n) implies exists|j: int|
            0 <= j < vars.len() && vars[j] == n by {
            crate::equation::lemma_appears_concat(head, rest, n);
            if appears_in_list(head, n) {
                crate::equation::lemma_appears_in_list_iff(head, n);
                let i = choose|i: int| 0 <= i < head.len() && appears(#[trigger] head[i], n);
                assert(appears(Expr::Var(vars[0]), n) == (vars[0] == n));
                match l[0] {
                    Present::Yes => {
                        assert(head.len() == 1);
                        assert(head[i] == Expr::Var(vars[0]));
                        assert(vars[0] == n);
                    },
                    Present::No => {
                        assert(head.len() == 1);
                        assert(head[i] == Expr::Not(Box::new(Expr::Var(vars[0]))));
                        assert(appears(head[i], n) == appears(Expr::Var(vars[0]), n));
                        assert(vars[0] == n);
                    },
                    Present::Any => {},
                }
            } else {
                let j = choose|j: int|
                    0 <= j < vars.drop_first().len() && vars.drop_first()[j] == n;
                assert(vars[j + 1] == n);
            }
        }
    }
}

impl PrimeImplicant {
    /// Decodes the implicant to an expression over the ordering `vars`: a
    /// product of one literal per determined position, a bare literal when
    /// only one position is determined.
    #[verifier::loop_isolation(false)]
    pub fn to_eq(self, vars: &Vec<String>) -> (r: Equation)
        requires
            self.list@.len() == vars@.len(),
        ensures
            r@ == ({
                let lits = decode_lits(self.list@, name_views(vars@));
                if lits.len() == 1 {
                    lits[0]
                } else {
                    Expr::Prod(lits)
                }
            }),
    {
        let ghost vs = name_views(vars@);
        let mut out: Vec<Equation> = Vec::new();
        let mut i: usize = 0;
        proof {
            assert(self.list@.take(0) =~= Seq::<Present>::empty());
            assert(vs.take(0) =~= Seq::<Seq<char>>::empty());
            assert(decode_lits(self.list@.take(0), vs.take(0)) =~= Seq::<Expr>::empty());
            assert(views_of(out@) =~= Seq::<Expr>::empty());
        }
        while i < self.list.len()
            invariant
                i <= self.list@.len(),
                views_of(out@) == decode_lits(self.list@.take(i as int), vs.take(i as int)),
            decreases self.list@.len() - i,
        {
            let ghost before = views_of(out@);
            match self.list[i] {
                Present::Yes => {
                    out.push(Equation::Var(vars[i].clone()));
                },
                Present::No => {
                    let inner_eq = Equation::Var(vars[i].clone());
                    proof {
                        assert(inner_eq@ == Expr::Var(vs[i as int]));
                    }
                    out.push(Equation::Not(Box::new(Not { inner: inner_eq })));
                },
                Present::Any => {},
            }
            proof {
                lemma_decode_push(
                    self.list@.take(i as int),
                    vs.take(i as int),
                    self.list@[i as int],
                    vs[i as int],
                );
                assert(self.list@.take(i + 1) =~= self.list@.take(i as int).push(
                    self.list@[i as int],
                ));
                assert(vs.take(i + 1) =~= vs.take(i as int).push(vs[i as int]));
                match self.list@[i as int] {
                    Present::Yes => {
                        assert(out@.last()@ == Expr::Var(vs[i as int]));
                        assert forall|j: int|
                            0 <= j < out@.len() - 1 implies #[trigger] views_of(out@)[j]
                            == before[j] by {
                            assert(out@[j] == out@.drop_last()[j]);
                        }
                        assert(views_of(out@) =~= before.push(Expr::Var(vs[i as int])));
                        assert(before.push(Expr::Var(vs[i as int])) =~= before + seq![
                            Expr::Var(vs[i as int]),
                        ]);
                    },
                    Present::No => {
                        assert(out@.last()@ == Expr::Not(Box::new(Expr::Var(vs[i as int]))));
                        assert forall|j: int|
                            0 <= j < out@.len() - 1 implies #[trigger] views_of(out@)[j]
                            == before[j] by {
                            assert(out@[j] == out@.drop_last()[j]);
                        }
                        assert(views_of(out@) =~= before.push(
                            Expr::Not(Box::new(Expr::Var(vs[i as int]))),
                        ));
                        assert(before.push(Expr::Not(Box::new(Expr::Var(vs[i as int])))) =~= before
                            + seq![Expr::Not(Box::new(Expr::Var(vs[i as int])))]);
                    },
                    Present::Any => {
                        assert(before + Seq::<Expr>::empty() =~= before);
                    },
                }
            }
            i = i + 1;
        }
        proof {
            assert(self.list@.take(self.list@.len() as int) =~= self.list@);
            assert(vs.take(self.list@.len() as int) =~= vs);
        }
        if out.len() == 1 {
            let sole = match out.pop() {
                Some(e) => e,
                None => {
                    proof {
                        assert(false);
                    }
                    unreached()
                },
            };
            proof {
                assert(sole@ == views_of(out@.push(sole))[0]);
            }
            sole
        } else {
            Equation::Prod(Box::new(Prod { inner: out }))
        }
    }

    /// The trit vector as text: `0` for `No`, `1` for `Yes`, `x` for `Any`.
    #[verifier::loop_isolation(false)]
    pub fn get_string(&self) -> (r: String)
        ensures
            r@ == string_of(self.list@),
    {
        let mut r = String::new();
        let mut i: usize = 0;
        proof {
            reveal_strlit("0");
            reveal_strlit("1");
            reveal_strlit("x");
            assert(self.list@.take(0) =~= Seq::<Present>::empty());
            assert(string_of(self.list@.take(0)) =~= Seq::<char>::empty());
        }
        while i < self.list.len()
            invariant
                i <= self.list@.len(),
                r@ == string_of(self.list@.take(i as int)),
            decreases self.list@.len() - i,
        {
            let ghost before = r@;
            match self.list[i] {
                Present::Any => {
                    r.append("x");
                },
                Present::No => {
                    r.append("0");
                },
                Present::Yes => {
                    r.append("1");
                },
            }
            proof {
                reveal_strlit("0");
                reveal_strlit("1");
                reveal_strlit("x");
                lemma_string_of_push(self.list@.take(i as int), self.list@[i as int]);
                assert(self.list@.take(i + 1) =~= self.list@.take(i as int).push(
                    self.list@[i as int],
                ));
            }
            i = i + 1;
        }
        proof {
            assert(self.list@.take(self.list@.len() as int) =~= self.list@);
        }
        r
    }
}

/// The text form of a trit vector.
pub open spec fn string_of(l: Seq<Present>) -> Seq<char>
    decreases l,
{
    if l.len() == 0 {
        Seq::empty()
    } else {
        seq![
            match l[0] {
                Present::Any => 'x',
                Present::No => '0',
                Present::Yes => '1',
            },
        ] + string_of(l.drop_first())
    }
}

/// Text of a trit vector grown by one trit at the end.
pub proof fn lemma_string_of_push(l: Seq<Present>, x: Present)
    ensures
        string_of(l.push(x)) == string_of(l) + seq![
            match x {
                Present::Any => 'x',
                Present::No => '0',
                Present::Yes => '1',
            },
        ],
    decreases l.len(),
{
    let c = seq![
        match x {
            Present::Any => 'x',
            Present::No => '0',
            Present::Yes => '1',
        },
    ];
    if l.len() == 0 {
        assert(l.push(x).drop_first() =~= Seq::<Present>::empty());
        assert(l.push(x)[0] == x);
        assert(string_of(Seq::<Present>::empty()) =~= Seq::<char>::empty());
        assert(string_of(l.push(x)) =~= c);
        assert(string_of(l) + c =~= c);
    } else {
        lemma_string_of_push(l.drop_first(), x);
        assert(l.push(x).drop_first() =~= l.drop_first().push(x));
        assert(l.push(x)[0] == l[0]);
        let h = seq![
            match l[0] {
                Present::Any => 'x',
                Present::No => '0',
                Present::Yes => '1',
            },
        ];
        assert(h + (string_of(l.drop_first()) + c) =~= (h + string_of(l.drop_first())) + c);
    }
}

/// The text form is as long as the vector.
pub proof fn lemma_string_of_len(l: Seq<Present>)
    ensures
        string_of(l).len() == l.len(),
    decreases l,
{
    if l.len() > 0 {
        lemma_string_of_len(l.drop_first());
    }
}

/// Vectors with the same text form are the same vector.
pub proof fn lemma_string_of_injective(a: Seq<Present>, b: Seq<Present>)
    requires
        string_of(a) == string_of(b),
    ensures
        a == b,
    decreases a.len(),
{
    lemma_string_of_len(a);
    lemma_string_of_len(b);
    if a.len() == 0 {
        assert(a =~= b);
    } else {
        let ca = match a[0] {
            Present::Any => 'x',
            Present::No => '0',
            Present::Yes => '1',
        };
        let cb = match b[0] {
            Present::Any => 'x',
            Present::No => '0',
            Present::Yes => '1',
        };
        assert(string_of(a)[0] == ca);
        assert(string_of(b)[0] == cb);
        assert(a[0] == b[0]);
        assert((seq![ca] + string_of(a.drop_first())).drop_first() =~= string_of(a.drop_first()));
        assert((seq![cb] + string_of(b.drop_first())).drop_first() =~= string_of(b.drop_first()));
        assert(string_of(a.drop_first()) == string_of(b.drop_first()));
        lemma_string_of_injective(a.drop_first(), b.drop_first());
        assert(a =~= seq![a[0]] + a.drop_first());
        assert(b =~= seq![b[0]] + b.drop_first());
    }
}

/// The tree an implicant decodes to over an ordering: its literal list as
/// a product, or the bare literal when only one position is determined.
pub open spec fn decoded_term(l: Seq<Present>, vs: Seq<Seq<char>>) -> Expr {
    let lits = decode_lits(l, vs);
    if lits.len() == 1 {
        lits[0]
    } else {
        Expr::Prod(lits)
    }
}

/// Some implicant of a list grown at the end is satisfied exactly when
/// one of the list or the new implicant is.
pub proof fn lemma_pis_push(
    ps: Seq<PrimeImplicant>,
    x: PrimeImplicant,
    vars: Seq<Seq<char>>,
    m: Map<Seq<char>, bool>,
)
    ensures
        pis_eval(ps.push(x), vars, m) == (pis_eval(ps, vars, m) || pi_eval(x.list@, vars, m)),
{
    if pis_eval(ps.push(x), vars, m) {
        let i = choose|i: int|
            0 <= i < ps.push(x).len() && pi_eval(#[trigger] ps.push(x)[i].list@, vars, m);
        if i < ps.len() {
            assert(ps[i] == ps.push(x)[i]);
            assert(pis_eval(ps, vars, m));
        } else {
            assert(ps.push(x)[i] == x);
        }
    }
    if pis_eval(ps, vars, m) {
        let i = choose|i: int| 0 <= i < ps.len() && pi_eval(#[trigger] ps[i].list@, vars, m);
        assert(ps.push(x)[i] == ps[i]);
        assert(pi_eval(ps.push(x)[i].list@, vars, m));
    }
    if pi_eval(x.list@, vars, m) {
        assert(ps.push(x)[ps.len() as int] == x);
        assert(pi_eval(ps.push(x)[ps.len() as int].list@, vars, m));
    }
}

/// Removing one implicant splits satisfaction into the rest or it.
pub proof fn lemma_pis_remove(
    ps: Seq<PrimeImplicant>,
    i: int,
    vars: Seq<Seq<char>>,
    m: Map<Seq<char>, bool>,
)
    requires
        0 <= i < ps.len(),
    ensures
        pis_eval(ps, vars, m) == (pis_eval(ps.remove(i), vars, m) || pi_eval(
            ps[i].list@,
            vars,
            m,
        )),
{
    ps.remove_ensures(i);
    let r = ps.remove(i);
    if pis_eval(ps, vars, m) {
        let k = choose|k: int| 0 <= k < ps.len() && pi_eval(#[trigger] ps[k].list@, vars, m);
        if k < i {
            assert(r[k] == ps[k]);
            assert(pi_eval(r[k].list@, vars, m));
        } else if k > i {
            assert(r[k - 1] == ps[k]);
            assert(pi_eval(r[k - 1].list@, vars, m));
        }
    }
    if pis_eval(r, vars, m) {
        let k = choose|k: int| 0 <= k < r.len() && pi_eval(#[trigger] r[k].list@, vars, m);
        if k < i {
            assert(ps[k] == r[k]);
            assert(pi_eval(ps[k].list@, vars, m));
        } else {
            assert(ps[k + 1] == r[k]);
            assert(pi_eval(ps[k + 1].list@, vars, m));
        }
    }
    if pi_eval(ps[i].list@, vars, m) {
        assert(pis_eval(ps, vars, m));
    }
}

/// Satisfaction over joined lists splits into the parts.
pub proof fn lemma_pis_concat(
    a: Seq<PrimeImplicant>,
    b: Seq<PrimeImplicant>,
    vars: Seq<Seq<char>>,
    m: Map<Seq<char>, bool>,
)
    ensures
        pis_eval(a + b, vars, m) == (pis_eval(a, vars, m) || pis_eval(b, vars, m)),
{
    if pis_eval(a + b, vars, m) {
        let i = choose|i: int| 0 <= i < (a + b).len() && pi_eval(#[trigger] (a + b)[i].list@, vars, m);
        if i < a.len() {
            assert((a + b)[i] == a[i]);
            assert(pi_eval(a[i].list@, vars, m));
        } else {
            assert((a + b)[i] == b[i - a.len()]);
            assert(pi_eval(b[i - a.len()].list@, vars, m));
        }
    }
    if pis_eval(a, vars, m) {
        let i = choose|i: int| 0 <= i < a.len() && pi_eval(#[trigger] a[i].list@, vars, m);
        assert((a + b)[i] == a[i]);
        assert(pi_eval((a + b)[i].list@, vars, m));
    }
    if pis_eval(b, vars, m) {
        let i = choose|i: int| 0 <= i < b.len() && pi_eval(#[trigger] b[i].list@, vars, m);
        assert((a + b)[i + a.len()] == b[i]);
        assert(pi_eval((a + b)[i + a.len()].list@, vars, m));
    }
}

/// Satisfaction of a suffix splits off its first member.
pub proof fn lemma_pis_skip_step(
    ps: Seq<PrimeImplicant>,
    k: int,
    vars: Seq<Seq<char>>,
    m: Map<Seq<char>, bool>,
)
    requires
        0 <= k < ps.len(),
    ensures
        pis_eval(ps.skip(k), vars, m) == (pi_eval(ps[k].list@, vars, m) || pis_eval(
            ps.skip(k + 1),
            vars,
            m,
        )),
{
    assert(ps.skip(k) =~= seq![ps[k]] + ps.skip(k + 1));
    lemma_pis_concat(seq![ps[k]], ps.skip(k + 1), vars, m);
    if pis_eval(seq![ps[k]], vars, m) {
        let i = choose|i: int|
            0 <= i < seq![ps[k]].len() && pi_eval(#[trigger] seq![ps[k]][i].list@, vars, m);
        assert(seq![ps[k]][i] == ps[k]);
    }
    if pi_eval(ps[k].list@, vars, m) {
        assert(seq![ps[k]][0] == ps[k]);
        assert(pi_eval(seq![ps[k]][0].list@, vars, m));
    }
}

/// Dropping the last implicant splits satisfaction into the rest or it.
pub proof fn lemma_pis_pop(
    ps: Seq<PrimeImplicant>,
    vars: Seq<Seq<char>>,
    m: Map<Seq<char>, bool>,
)
    requires
        ps.len() > 0,
    ensures
        pis_eval(ps, vars, m) == (pis_eval(ps.drop_last(), vars, m) || pi_eval(
            ps.last().list@,
            vars,
            m,
        )),
{
    assert(ps =~= ps.drop_last().push(ps.last()));
    lemma_pis_push(ps.drop_last(), ps.last(), vars, m);
}

/// The implicants of all buckets from index `k` on, in order.
pub open spec fn flat_from(bs: Seq<Vec<PrimeImplicant>>, k: int) -> Seq<PrimeImplicant>
    decreases bs.len() - k,
{
    if k < 0 || k >= bs.len() {
        Seq::empty()
    } else {
        bs[k]@ + flat_from(bs, k + 1)
    }
}

/// The implicants of all buckets, in order.
pub open spec fn flat_buckets(bs: Seq<Vec<PrimeImplicant>>) -> Seq<PrimeImplicant> {
    flat_from(bs, 0)
}

/// Every implicant of the list has vector length `n`.
pub open spec fn len_all(ps: Seq<PrimeImplicant>, n: nat) -> bool {
    forall|i: int| 0 <= i < ps.len() ==> #[trigger] ps[i].list@.len() == n
}

/// Every implicant of the list has matching cached counters.
pub open spec fn counts_all(ps: Seq<PrimeImplicant>) -> bool {
    forall|i: int| 0 <= i < ps.len() ==> counts_ok(#[trigger] ps[i])
}

/// A new bucket at the end extends the flattened list at the end.
pub proof fn lemma_flat_push(bs: Seq<Vec<PrimeImplicant>>, v: Vec<PrimeImplicant>, k: int)
    requires
        0 <= k <= bs.len(),
    ensures
        flat_from(bs.push(v), k) == flat_from(bs, k) + v@,
    decreases bs.len() - k,
{
    if k == bs.len() {
        assert(flat_from(bs, k) =~= Seq::<PrimeImplicant>::empty());
        assert(flat_from(bs.push(v), k) == bs.push(v)[k]@ + flat_from(bs.push(v), k + 1));
        assert(bs.push(v)[k] == v);
        assert(flat_from(bs.push(v), k + 1) =~= Seq::<PrimeImplicant>::empty());
        assert(flat_from(bs.push(v), k) =~= v@);
        assert(flat_from(bs, k) + v@ =~= v@);
    } else {
        lemma_flat_push(bs, v, k + 1);
        assert(bs.push(v)[k] == bs[k]);
        assert((bs[k]@ + flat_from(bs, k + 1)) + v@ =~= bs[k]@ + (flat_from(bs, k + 1) + v@));
    }
}

/// Changing a later bucket leaves the flattened prefix view unchanged.
pub proof fn lemma_flat_update(
    bs: Seq<Vec<PrimeImplicant>>,
    i: int,
    v: Vec<PrimeImplicant>,
    k: int,
)
    requires
        0 <= i < bs.len(),
        0 <= k <= bs.len(),
        i < k,
    ensures
        flat_from(bs.update(i, v), k) == flat_from(bs, k),
    decreases bs.len() - k,
{
    if k < bs.len() {
        lemma_flat_update(bs, i, v, k + 1);
        assert(bs.update(i, v)[k] == bs[k]);
    } else {
        assert(flat_from(bs.update(i, v), k) =~= Seq::<PrimeImplicant>::empty());
        assert(flat_from(bs, k) =~= Seq::<PrimeImplicant>::empty());
    }
}

/// Inserting into a sequence inserts into its multiset.
pub proof fn lemma_multiset_insert_seq(s: Seq<PrimeImplicant>, i: int, x: PrimeImplicant)
    requires
        0 <= i <= s.len(),
    ensures
        s.insert(i, x).to_multiset() == s.to_multiset().insert(x),
{
    broadcast use vstd::seq_lib::group_to_multiset_ensures;

    assert(s.insert(i, x) =~= s.take(i).push(x) + s.skip(i));
    assert(s =~= s.take(i) + s.skip(i));
    vstd::seq_lib::lemma_multiset_commutative(s.take(i).push(x), s.skip(i));
    vstd::seq_lib::lemma_multiset_commutative(s.take(i), s.skip(i));
    assert(s.take(i).push(x).to_multiset() =~= s.take(i).to_multiset().insert(x));
    assert(s.insert(i, x).to_multiset() =~= s.to_multiset().insert(x));
}

/// Lists with the same multiset are satisfied by the same assignments.
pub proof fn lemma_pis_multiset(
    a: Seq<PrimeImplicant>,
    b: Seq<PrimeImplicant>,
    vars: Seq<Seq<char>>,
    m: Map<Seq<char>, bool>,
)
    requires
        a.to_multiset() == b.to_multiset(),
    ensures
        pis_eval(a, vars, m) == pis_eval(b, vars, m),
{
    broadcast use vstd::seq_lib::group_to_multiset_ensures;

    if pis_eval(a, vars, m) {
        let i = choose|i: int| 0 <= i < a.len() && pi_eval(#[trigger] a[i].list@, vars, m);
        assert(a.contains(a[i]));
        assert(a.to_multiset().count(a[i]) > 0);
        assert(b.to_multiset().count(a[i]) > 0);
        assert(b.contains(a[i]));
        let j = choose|j: int| 0 <= j < b.len() && b[j] == a[i];
        assert(pi_eval(b[j].list@, vars, m));
    }
    if pis_eval(b, vars, m) {
        let i = choose|i: int| 0 <= i < b.len() && pi_eval(#[trigger] b[i].list@, vars, m);
        assert(b.contains(b[i]));
        assert(b.to_multiset().count(b[i]) > 0);
        assert(a.to_multiset().count(b[i]) > 0);
        assert(a.contains(b[i]));
        let j = choose|j: int| 0 <= j < a.len() && a[j] == b[i];
        assert(pi_eval(a[j].list@, vars, m));
    }
}

/// A property of every member carries over to any list with the same
/// multiset.
pub proof fn lemma_elements_carry(
    a: Seq<PrimeImplicant>,
    b: Seq<PrimeImplicant>,
    p: spec_fn(PrimeImplicant) -> bool,
)
    requires
        a.to_multiset() == b.to_multiset(),
        forall|i: int| 0 <= i < a.len() ==> p(#[trigger] a[i]),
    ensures
        forall|i: int| 0 <= i < b.len() ==> p(#[trigger] b[i]),
{
    broadcast use vstd::seq_lib::group_to_multiset_ensures;

    assert forall|i: int| 0 <= i < b.len() implies p(#[trigger] b[i]) by {
        assert(b.contains(b[i]));
        assert(b.to_multiset().count(b[i]) > 0);
        assert(a.to_multiset().count(b[i]) > 0);
        assert(a.contains(b[i]));
        let j = choose|j: int| 0 <= j < a.len() && a[j] == b[i];
        assert(p(a[j]));
    }
}

/// Tries to merge `prime` with a member of `others`; on success the
/// partner leaves `others` and the merge is returned.
#[verifier::loop_isolation(false)]
pub fn merge_similar(prime: PrimeImplicant, others: &mut Vec<PrimeImplicant>) -> (r: Option<
    PrimeImplicant,
>)
    requires
        forall|j: int|
            0 <= j < old(others)@.len() ==> #[trigger] old(others)@[j].list@.len()
                == prime.list@.len(),
    ensures
        r is None ==> *final(others) == *old(others) && (forall|j: int|
            0 <= j < old(others)@.len() ==> diff_count(
                prime.list@,
                #[trigger] old(others)@[j].list@,
            ) != 1),
        r matches Some(x) ==> exists|i: int|
            0 <= i < old(others)@.len() && diff_count(prime.list@, old(others)@[i].list@) == 1
                && (forall|k: int|
                0 <= k < i ==> diff_count(prime.list@, #[trigger] old(others)@[k].list@) != 1)
                && x.list@ == merge_spec(prime.list@, #[trigger] old(others)@[i].list@)
                && final(others)@ == old(others)@.remove(i),
        r matches Some(x) ==> final(others)@.len() + 1 == old(others)@.len() && counts_ok(x)
            && x.list@.len() == prime.list@.len(),
        forall|j: int|
            0 <= j < final(others)@.len() ==> #[trigger] final(others)@[j].list@.len()
                == prime.list@.len(),
        forall|j: int|
            0 <= j < final(others)@.len() ==> old(others)@.contains(#[trigger] final(others)@[j]),
        forall|vars: Seq<Seq<char>>, m: Map<Seq<char>, bool>|
            ((match r {
                Some(x) => pi_eval(x.list@, vars, m),
                None => pi_eval(prime.list@, vars, m),
            }) || pis_eval(final(others)@, vars, m)) == (#[trigger] pi_eval(prime.list@, vars, m)
                || pis_eval(old(others)@, vars, m)),
{
    let ghost orig = others@;
    let mut i: usize = 0;
    while i < others.len()
        invariant
            *others == *old(others),
            others@ == orig,
            i <= orig.len(),
            forall|k: int|
                0 <= k < i ==> diff_count(prime.list@, #[trigger] orig[k].list@) != 1,
        decreases orig.len() - i,
    {
        if prime.can_merge(&others[i]) {
            let to_ret = prime.merge(&others[i]);
            let ghost partner = orig[i as int];
            others.remove(i);
            proof {
                assert(final(others)@ == orig.remove(i as int));
                orig.remove_ensures(i as int);
                assert forall|j: int|
                    0 <= j < others@.len() implies orig.contains(#[trigger] others@[j]) by {
                    if j < i {
                        assert(others@[j] == orig[j]);
                    } else {
                        assert(others@[j] == orig[j + 1]);
                    }
                }
                assert forall|vars: Seq<Seq<char>>, m: Map<Seq<char>, bool>|
                    (pi_eval(to_ret.list@, vars, m) || pis_eval(others@, vars, m)) == (
                    #[trigger] pi_eval(prime.list@, vars, m) || pis_eval(orig, vars, m)) by {
                    lemma_merge_sound(prime.list@, partner.list@, vars, m);
                    lemma_pis_remove(orig, i as int, vars, m);
                }
                orig.remove_ensures(i as int);
            }
            return Some(to_ret);
        }
        i = i + 1;
    }
    proof {
        assert forall|j: int|
            0 <= j < others@.len() implies orig.contains(#[trigger] others@[j]) by {
            assert(others@[j] == orig[j]);
        }
    }
    None
}

/// The implicants of the list with exactly `k` trits `Yes`, in list
/// order.
pub open spec fn bucket_of(ps: Seq<PrimeImplicant>, k: int) -> Seq<PrimeImplicant> {
    ps.filter(|p: PrimeImplicant| p.nb_yes == k)
}

/// Bucketing a list grown by one implicant at the end.
proof fn lemma_bucket_push(ps: Seq<PrimeImplicant>, x: PrimeImplicant, k: int)
    ensures
        bucket_of(ps.push(x), k) == if x.nb_yes == k {
            bucket_of(ps, k).push(x)
        } else {
            bucket_of(ps, k)
        },
{
    assert(ps.push(x).drop_last() =~= ps);
    assert(ps.push(x).last() == x);
    assert(ps.push(x).len() == ps.len() + 1);
    reveal_with_fuel(Seq::filter, 2);
    assert(bucket_of(ps.push(x), k) == (if x.nb_yes == k {
        ps.filter(|p: PrimeImplicant| p.nb_yes == k).push(x)
    } else {
        ps.filter(|p: PrimeImplicant| p.nb_yes == k)
    }));
}

/// When one bucket grows by an implicant at its end, the flattened
/// multiset grows by exactly that implicant.
proof fn lemma_flat_bucket_push(
    bs: Seq<Vec<PrimeImplicant>>,
    bs2: Seq<Vec<PrimeImplicant>>,
    k: int,
    x: PrimeImplicant,
    j: int,
)
    requires
        0 <= k < bs.len(),
        bs2.len() == bs.len(),
        forall|l: int| 0 <= l < bs.len() && l != k ==> #[trigger] bs2[l] == bs[l],
        bs2[k]@ == bs[k]@.push(x),
        0 <= j <= bs.len(),
    ensures
        j <= k ==> flat_from(bs2, j).to_multiset() == flat_from(bs, j).to_multiset().insert(x),
        j > k ==> flat_from(bs2, j).to_multiset() == flat_from(bs, j).to_multiset(),
    decreases bs.len() - j,
{
    broadcast use vstd::seq_lib::group_to_multiset_ensures;

    if j == bs.len() {
        assert(flat_from(bs2, j) =~= Seq::<PrimeImplicant>::empty());
        assert(flat_from(bs, j) =~= Seq::<PrimeImplicant>::empty());
    } else {
        lemma_flat_bucket_push(bs, bs2, k, x, j + 1);
        vstd::seq_lib::lemma_multiset_commutative(bs2[j]@, flat_from(bs2, j + 1));
        vstd::seq_lib::lemma_multiset_commutative(bs[j]@, flat_from(bs, j + 1));
        assert(flat_from(bs2, j) == bs2[j]@ + flat_from(bs2, j + 1));
        assert(flat_from(bs, j) == bs[j]@ + flat_from(bs, j + 1));
        if j == k {
            assert(bs2[j]@.to_multiset() =~= bs[j]@.to_multiset().insert(x));
            assert(flat_from(bs2, j).to_multiset() =~= flat_from(bs, j).to_multiset().insert(x));
        } else if j < k {
            assert(bs2[j] == bs[j]);
            assert(flat_from(bs2, j).to_multiset() =~= flat_from(bs, j).to_multiset().insert(x));
        } else {
            assert(bs2[j] == bs[j]);
            assert(flat_from(bs2, j).to_multiset() =~= flat_from(bs, j).to_multiset());
        }
    }
}

/// Buckets the implicants by their count of `Yes` trits: bucket `k` holds
/// exactly the implicants with `k` trits `Yes`, in input order, up to the
/// largest count present; a count nobody has leaves its bucket empty.
#[verifier::loop_isolation(false)]
pub fn sort_prime_implicants(impls: Vec<PrimeImplicant>) -> (r: Vec<Vec<PrimeImplicant>>)
    ensures
        r@.len() >= 1,
        forall|i: int| 0 <= i < impls@.len() ==> #[trigger] impls@[i].nb_yes < r@.len(),
        impls@.len() > 0 ==> exists|i: int|
            0 <= i < impls@.len() && #[trigger] impls@[i].nb_yes == r@.len() - 1,
        impls@.len() == 0 ==> r@.len() == 1,
        forall|k: int| 0 <= k < r@.len() ==> #[trigger] r@[k]@ == bucket_of(impls@, k),
        flat_buckets(r@).to_multiset() == impls@.to_multiset(),
{
    broadcast use vstd::seq_lib::group_to_multiset_ensures;

    let ghost i0 = impls@;
    let mut maxy: usize = 0;
    let mut idx: usize = 0;
    while idx < impls.len()
        invariant
            idx <= i0.len(),
            impls@ == i0,
            forall|j: int| 0 <= j < idx ==> #[trigger] i0[j].nb_yes <= maxy,
            maxy == 0 || exists|j: int| 0 <= j < idx && #[trigger] i0[j].nb_yes == maxy,
        decreases i0.len() - idx,
    {
        if impls[idx].nb_yes > maxy {
            maxy = impls[idx].nb_yes;
        }
        idx = idx + 1;
    }
    proof {
        if i0.len() > 0 && maxy == 0 {
            assert(i0[0].nb_yes == 0);
        }
    }
    let mut buckets: Vec<Vec<PrimeImplicant>> = Vec::new();
    let mut k: usize = 0;
    while k < maxy
        invariant
            k <= maxy,
            buckets@.len() == k,
            forall|l: int| 0 <= l < k ==> #[trigger] buckets@[l]@ =~= Seq::<PrimeImplicant>::empty(),
        decreases maxy - k,
    {
        let fresh: Vec<PrimeImplicant> = Vec::new();
        buckets.push(fresh);
        k = k + 1;
    }
    let fresh: Vec<PrimeImplicant> = Vec::new();
    buckets.push(fresh);
    proof {
        assert(buckets@.len() == maxy + 1);
        assert(i0.take(0) =~= Seq::<PrimeImplicant>::empty());
        assert forall|k2: int|
            0 <= k2 < buckets@.len() implies #[trigger] buckets@[k2]@ == bucket_of(
            i0.take(0),
            k2,
        ) by {
            assert(bucket_of(Seq::<PrimeImplicant>::empty(), k2) =~= Seq::<
                PrimeImplicant,
            >::empty());
            assert(buckets@[k2]@ =~= Seq::<PrimeImplicant>::empty());
        }
        lemma_flat_empty_buckets(buckets@, 0);
        assert(Seq::<PrimeImplicant>::empty().to_multiset() =~= i0.take(0).to_multiset());
    }
    let mut impls = impls;
    let mut i: usize = 0;
    while i < impls.len()
        invariant
            i <= i0.len(),
            impls@.len() == i0.len(),
            forall|j: int| i <= j < i0.len() ==> #[trigger] impls@[j] == i0[j],
            buckets@.len() == maxy + 1,
            forall|j: int| 0 <= j < i0.len() ==> #[trigger] i0[j].nb_yes <= maxy,
            forall|k2: int|
                0 <= k2 < buckets@.len() ==> #[trigger] buckets@[k2]@ == bucket_of(
                    i0.take(i as int),
                    k2,
                ),
            flat_buckets(buckets@).to_multiset() == i0.take(i as int).to_multiset(),
        decreases i0.len() - i,
    {
        let mut x = PrimeImplicant { list: Vec::new(), nb_any: 0, nb_yes: 0 };
        vstd::pervasive::VecAdditionalExecFns::set_and_swap(&mut impls, i, &mut x);
        proof {
            assert(x == i0[i as int]);
        }
        let kk = x.nb_yes;
        let ghost bs_pre = buckets@;
        let ghost xg = x;
        let mut b: Vec<PrimeImplicant> = Vec::new();
        vstd::pervasive::VecAdditionalExecFns::set_and_swap(&mut buckets, kk, &mut b);
        let ghost b_pre = b@;
        b.push(x);
        vstd::pervasive::VecAdditionalExecFns::set_and_swap(&mut buckets, kk, &mut b);
        proof {
            assert(b_pre == bs_pre[kk as int]@);
            assert(buckets@[kk as int]@ == b_pre.push(xg));
            assert(buckets@.len() == bs_pre.len());
            assert forall|l: int|
                0 <= l < bs_pre.len() && l != kk implies #[trigger] buckets@[l] == bs_pre[l] by {}
            assert(i0.take(i + 1) =~= i0.take(i as int).push(i0[i as int]));
            assert forall|k2: int|
                0 <= k2 < buckets@.len() implies #[trigger] buckets@[k2]@ == bucket_of(
                i0.take(i + 1),
                k2,
            ) by {
                lemma_bucket_push(i0.take(i as int), i0[i as int], k2);
                if k2 != kk {
                    assert(buckets@[k2] == bs_pre[k2]);
                }
            }
            lemma_flat_bucket_push(bs_pre, buckets@, kk as int, xg, 0);
        }
        i = i + 1;
    }
    proof {
        assert(i0.take(i0.len() as int) =~= i0);
        if i0.len() > 0 {
            if maxy == 0 {
                assert(i0[0].nb_yes == buckets@.len() - 1);
            }
        }
    }
    buckets
}

/// A run of empty buckets flattens to nothing.
proof fn lemma_flat_empty_buckets(bs: Seq<Vec<PrimeImplicant>>, j: int)
    requires
        0 <= j <= bs.len(),
        forall|l: int| 0 <= l < bs.len() ==> #[trigger] bs[l]@ =~= Seq::<PrimeImplicant>::empty(),
    ensures
        flat_from(bs, j) =~= Seq::<PrimeImplicant>::empty(),
    decreases bs.len() - j,
{
    if j < bs.len() {
        lemma_flat_empty_buckets(bs, j + 1);
        assert(bs[j]@ + flat_from(bs, j + 1) =~= Seq::<PrimeImplicant>::empty());
    }
}

/// All implicants of the list have vectors of one shared length.
pub open spec fn same_len(ps: Seq<PrimeImplicant>) -> bool {
    forall|a: int, b: int|
        0 <= a < ps.len() && 0 <= b < ps.len() ==> #[trigger] ps[a].list@.len()
            == #[trigger] ps[b].list@.len()
}

/// One merge pass between buckets of adjacent `Yes` counts: each member
/// of a bucket either merges with a member of the next bucket, which is
/// then dropped there, or is kept; the last bucket is appended whole.
#[verifier::loop_isolation(false)]
#[verifier::rlimit(100)]
pub fn mccluskey_pass_one(sorted_primes: Vec<Vec<PrimeImplicant>>) -> (r: Vec<PrimeImplicant>)
    requires
        sorted_primes@.len() >= 1,
        same_len(flat_buckets(sorted_primes@)),
        counts_all(flat_buckets(sorted_primes@)),
    ensures
        counts_all(r@),
        same_len(r@),
        r@.len() <= flat_buckets(sorted_primes@).len(),
        forall|n: nat| len_all(flat_buckets(sorted_primes@), n) ==> len_all(r@, n),
        forall|vars: Seq<Seq<char>>, m: Map<Seq<char>, bool>|
            #[trigger] pis_eval(r@, vars, m) == pis_eval(flat_buckets(sorted_primes@), vars, m),
{
    let ghost bs0 = sorted_primes@;
    let ghost flat0 = flat_buckets(bs0);
    let ghost n0: nat = if flat0.len() > 0 {
        flat0[0].list@.len()
    } else {
        0
    };
    proof {
        assert(len_all(flat0, n0));
    }
    let mut sorted_primes = sorted_primes;
    let mut to_add: Vec<PrimeImplicant> = Vec::new();
    let last: usize = sorted_primes.len() - 1;
    let mut nb: usize = 0;
    while nb < last
        invariant
            sorted_primes@.len() == bs0.len(),
            nb <= last,
            len_all(to_add@, n0),
            len_all(flat_from(sorted_primes@, nb as int), n0),
            counts_all(to_add@),
            counts_all(flat_from(sorted_primes@, nb as int)),
            to_add@.len() + flat_from(sorted_primes@, nb as int).len() <= flat0.len(),
            forall|vars: Seq<Seq<char>>, m: Map<Seq<char>, bool>|
                (pis_eval(to_add@, vars, m) || pis_eval(
                    flat_from(sorted_primes@, nb as int),
                    vars,
                    m,
                )) == #[trigger] pis_eval(flat0, vars, m),
        decreases last - nb,
    {
        let ghost bs_pre = sorted_primes@;
        proof {
            assert forall|vars: Seq<Seq<char>>, m: Map<Seq<char>, bool>|
                (#[trigger] pis_eval(to_add@, vars, m) || pis_eval(
                    flat_from(bs_pre, nb as int),
                    vars,
                    m,
                )) == pis_eval(flat0, vars, m) by {}
        }
        let mut next: Vec<PrimeImplicant> = Vec::new();
        proof {
            assert forall|vars: Seq<Seq<char>>, m: Map<Seq<char>, bool>|
                (#[trigger] pis_eval(to_add@, vars, m) || pis_eval(
                    flat_from(bs_pre, nb as int),
                    vars,
                    m,
                )) == pis_eval(flat0, vars, m) by {
                assert(bs_pre == sorted_primes@);
                assert((pis_eval(to_add@, vars, m) || pis_eval(
                    flat_from(sorted_primes@, nb as int),
                    vars,
                    m,
                )) == pis_eval(flat0, vars, m));
            }
        }
        vstd::pervasive::VecAdditionalExecFns::set_and_swap(&mut sorted_primes, nb + 1, &mut next);
        let ghost bs_a = sorted_primes@;
        let ghost next0 = next@;
        let ghost now_v = bs_a[nb as int]@;
        let ghost rest = flat_from(bs_a, nb + 2);
        proof {
            assert forall|vars: Seq<Seq<char>>, m: Map<Seq<char>, bool>|
                (#[trigger] pis_eval(to_add@, vars, m) || pis_eval(
                    flat_from(bs_pre, nb as int),
                    vars,
                    m,
                )) == pis_eval(flat0, vars, m) by {}
            assert(bs_a == bs_pre.update(nb + 1, bs_a[nb + 1]));
            assert(next0 == bs_pre[nb + 1]@);
            lemma_flat_update(bs_pre, nb + 1, bs_a[nb + 1], nb + 2);
            assert(rest == flat_from(bs_pre, nb + 2));
            assert(bs_a[nb as int] == bs_pre[nb as int]);
            assert(flat_from(bs_pre, nb + 1) == bs_pre[nb + 1]@ + flat_from(bs_pre, nb + 2));
            assert(flat_from(bs_pre, nb as int) == bs_pre[nb as int]@ + flat_from(bs_pre, nb + 1));
            assert(flat_from(bs_pre, nb as int) =~= now_v + (next0 + rest));
            assert forall|i: int|
                0 <= i < now_v.len() implies #[trigger] now_v[i].list@.len() == n0 by {
                assert(flat_from(bs_pre, nb as int)[i] == now_v[i]);
            }
            assert forall|i: int| 0 <= i < now_v.len() implies counts_ok(#[trigger] now_v[i]) by {
                assert(flat_from(bs_pre, nb as int)[i] == now_v[i]);
            }
            assert forall|i: int|
                0 <= i < next0.len() implies #[trigger] next0[i].list@.len() == n0 by {
                assert((next0 + rest)[i] == next0[i]);
                assert(flat_from(bs_pre, nb as int)[now_v.len() + i] == (next0 + rest)[i]);
            }
            assert forall|i: int| 0 <= i < next0.len() implies counts_ok(#[trigger] next0[i]) by {
                assert((next0 + rest)[i] == next0[i]);
                assert(flat_from(bs_pre, nb as int)[now_v.len() + i] == (next0 + rest)[i]);
            }
            assert forall|i: int|
                0 <= i < rest.len() implies #[trigger] rest[i].list@.len() == n0 by {
                assert((next0 + rest)[next0.len() + i] == rest[i]);
                assert(flat_from(bs_pre, nb as int)[now_v.len() + next0.len() + i] == (next0
                    + rest)[next0.len() + i]);
            }
            assert forall|i: int| 0 <= i < rest.len() implies counts_ok(#[trigger] rest[i]) by {
                assert((next0 + rest)[next0.len() + i] == rest[i]);
                assert(flat_from(bs_pre, nb as int)[now_v.len() + next0.len() + i] == (next0
                    + rest)[next0.len() + i]);
            }
            assert(now_v.skip(0) =~= now_v);
            assert forall|vars: Seq<Seq<char>>, m: Map<Seq<char>, bool>|
                (#[trigger] pis_eval(to_add@, vars, m) || pis_eval(now_v.skip(0), vars, m)
                    || pis_eval(next@, vars, m) || pis_eval(rest, vars, m)) == pis_eval(
                flat0,
                vars,
                m,
            ) by {
                lemma_pis_concat(now_v, next0 + rest, vars, m);
                lemma_pis_concat(next0, rest, vars, m);
                assert((pis_eval(to_add@, vars, m) || pis_eval(
                    flat_from(bs_pre, nb as int),
                    vars,
                    m,
                )) == pis_eval(flat0, vars, m));
                assert(pis_eval(flat_from(bs_pre, nb as int), vars, m) == pis_eval(
                    now_v + (next0 + rest),
                    vars,
                    m,
                ));
                assert(pis_eval(now_v.skip(0), vars, m) == pis_eval(now_v, vars, m));
            }
        }
        let now_len = sorted_primes[nb].len();
        let mut base_id: usize = 0;
        while base_id < now_len
            invariant
                sorted_primes@ == bs_a,
                base_id <= now_len,
                now_len == now_v.len(),
                len_all(to_add@, n0),
                len_all(now_v, n0),
                len_all(next@, n0),
                len_all(rest, n0),
                counts_all(to_add@),
                counts_all(now_v.skip(base_id as int)),
                counts_all(next@),
                counts_all(rest),
                to_add@.len() + (now_len - base_id) + next@.len() + rest.len() <= flat0.len(),
                forall|vars: Seq<Seq<char>>, m: Map<Seq<char>, bool>|
                    (pis_eval(to_add@, vars, m) || pis_eval(
                        now_v.skip(base_id as int),
                        vars,
                        m,
                    ) || pis_eval(next@, vars, m) || pis_eval(rest, vars, m)) == #[trigger] pis_eval(
                    flat0,
                    vars,
                    m,
                ),
            decreases now_len - base_id,
        {
            let ghost bid: int = base_id as int;
            let ghost base_v = now_v[base_id as int];
            let ghost to_add_pre = to_add@;
            let ghost next_pre = next@;
            proof {
                assert(now_v.skip(base_id as int)[0] == base_v);
                assert(counts_ok(base_v)) by {
                    assert(counts_all(now_v.skip(base_id as int)));
                    assert(now_v.skip(base_id as int)[0] == base_v);
                }
            }
            let base = sorted_primes[nb][base_id].duplicate();
            proof {
                assert(base.list@ == base_v.list@);
            }
            let merged = merge_similar(base, &mut next);
            match merged {
                Some(new) => {
                    to_add.push(new);
                },
                None => {
                    let again = sorted_primes[nb][base_id].duplicate();
                    to_add.push(again);
                },
            }
            proof {
                assert(to_add@.drop_last() == to_add_pre);
                assert(to_add@ == to_add_pre.push(to_add@.last()));
                assert(to_add@.last().list@ == (match merged {
                    Some(x) => x.list@,
                    None => base_v.list@,
                }));
                assert(counts_ok(to_add@.last())) by {
                    match merged {
                        Some(x) => {},
                        None => {
                            assert(to_add@.last().list@ == base_v.list@);
                            assert(to_add@.last().nb_any == base_v.nb_any);
                            assert(to_add@.last().nb_yes == base_v.nb_yes);
                        },
                    }
                }
                assert forall|vars: Seq<Seq<char>>, m: Map<Seq<char>, bool>|
                    (#[trigger] pis_eval(to_add@, vars, m) || pis_eval(
                        now_v.skip(bid + 1),
                        vars,
                        m,
                    ) || pis_eval(next@, vars, m) || pis_eval(rest, vars, m)) == pis_eval(
                    flat0,
                    vars,
                    m,
                ) by {
                    lemma_pis_push(to_add_pre, to_add@.last(), vars, m);
                    lemma_pis_skip_step(now_v, bid, vars, m);
                    assert((pis_eval(to_add_pre, vars, m) || pis_eval(now_v.skip(bid), vars, m)
                        || pis_eval(next_pre, vars, m) || pis_eval(rest, vars, m)) == pis_eval(
                        flat0,
                        vars,
                        m,
                    ));
                    assert(((match merged {
                        Some(x) => pi_eval(x.list@, vars, m),
                        None => pi_eval(base.list@, vars, m),
                    }) || pis_eval(next@, vars, m)) == (pi_eval(base.list@, vars, m) || pis_eval(
                        next_pre,
                        vars,
                        m,
                    )));
                }
                assert forall|i: int|
                    0 <= i < now_v.skip(bid + 1).len() implies counts_ok(
                    #[trigger] now_v.skip(bid + 1)[i],
                ) by {
                    assert(now_v.skip(bid + 1)[i] == now_v.skip(bid)[i + 1]);
                    assert(counts_ok(now_v.skip(bid)[i + 1]));
                }
                assert forall|j: int|
                    0 <= j < next@.len() implies counts_ok(#[trigger] next@[j]) by {
                    assert(next_pre.contains(next@[j]));
                    let k = choose|k: int| 0 <= k < next_pre.len() && next_pre[k] == next@[j];
                    assert(counts_ok(next_pre[k]));
                }
            }
            base_id = base_id + 1;
            proof {
                assert(base_id as int == bid + 1);
                assert forall|vars: Seq<Seq<char>>, m: Map<Seq<char>, bool>|
                    (#[trigger] pis_eval(to_add@, vars, m) || pis_eval(
                        now_v.skip(base_id as int),
                        vars,
                        m,
                    ) || pis_eval(next@, vars, m) || pis_eval(rest, vars, m)) == pis_eval(
                    flat0,
                    vars,
                    m,
                ) by {
                    assert((pis_eval(to_add@, vars, m) || pis_eval(now_v.skip(bid + 1), vars, m)
                        || pis_eval(next@, vars, m) || pis_eval(rest, vars, m)) == pis_eval(
                        flat0,
                        vars,
                        m,
                    ));
                }
            }
        }
        let ghost next_fin = next@;
        vstd::pervasive::VecAdditionalExecFns::set_and_swap(&mut sorted_primes, nb + 1, &mut next);
        proof {
            let bs_b = sorted_primes@;
            assert(bs_b == bs_a.update(nb + 1, bs_b[nb + 1]));
            assert(bs_b[nb + 1]@ == next_fin);
            lemma_flat_update(bs_a, nb + 1, bs_b[nb + 1], nb + 2);
            assert(flat_from(bs_b, nb + 2) == rest);
            assert(flat_from(bs_b, nb + 1) == next_fin + rest);
            assert(now_v.skip(now_len as int) =~= Seq::<PrimeImplicant>::empty());
            assert forall|vars: Seq<Seq<char>>, m: Map<Seq<char>, bool>|
                (#[trigger] pis_eval(to_add@, vars, m) || pis_eval(
                    flat_from(bs_b, nb + 1),
                    vars,
                    m,
                )) == pis_eval(flat0, vars, m) by {
                lemma_pis_concat(next_fin, rest, vars, m);
                assert((pis_eval(to_add@, vars, m) || pis_eval(
                    now_v.skip(base_id as int),
                    vars,
                    m,
                ) || pis_eval(next_fin, vars, m) || pis_eval(rest, vars, m)) == pis_eval(
                    flat0,
                    vars,
                    m,
                ));
                assert(!pis_eval(Seq::<PrimeImplicant>::empty(), vars, m));
                assert(pis_eval(now_v.skip(base_id as int), vars, m) == false);
            }
            assert forall|i: int|
                0 <= i < flat_from(bs_b, nb + 1).len() implies #[trigger] flat_from(
                bs_b,
                nb + 1,
            )[i].list@.len() == n0 by {
                if i < next_fin.len() {
                    assert(flat_from(bs_b, nb + 1)[i] == next_fin[i]);
                } else {
                    assert(flat_from(bs_b, nb + 1)[i] == rest[i - next_fin.len()]);
                }
            }
            assert forall|i: int|
                0 <= i < flat_from(bs_b, nb + 1).len() implies counts_ok(
                #[trigger] flat_from(bs_b, nb + 1)[i],
            ) by {
                if i < next_fin.len() {
                    assert(flat_from(bs_b, nb + 1)[i] == next_fin[i]);
                } else {
                    assert(flat_from(bs_b, nb + 1)[i] == rest[i - next_fin.len()]);
                }
            }
        }
        nb = nb + 1;
    }
    let ghost bs_f = sorted_primes@;
    let mut lastb: Vec<PrimeImplicant> = Vec::new();
    vstd::pervasive::VecAdditionalExecFns::set_and_swap(&mut sorted_primes, last, &mut lastb);
    let ghost to_add_pre = to_add@;
    let ghost lastb0 = lastb@;
    proof {
        assert(lastb0 == bs_f[last as int]@);
        assert(flat_from(bs_f, last as int) == bs_f[last as int]@ + flat_from(bs_f, last + 1));
        assert(flat_from(bs_f, last + 1) =~= Seq::<PrimeImplicant>::empty());
        assert(flat_from(bs_f, last as int) =~= lastb0);
    }
    to_add.append(&mut lastb);
    proof {
        assert(to_add@ == to_add_pre + lastb0);
        assert forall|vars: Seq<Seq<char>>, m: Map<Seq<char>, bool>|
            #[trigger] pis_eval(to_add@, vars, m) == pis_eval(flat0, vars, m) by {
            lemma_pis_concat(to_add_pre, lastb0, vars, m);
            assert((pis_eval(to_add_pre, vars, m) || pis_eval(
                flat_from(bs_f, last as int),
                vars,
                m,
            )) == pis_eval(flat0, vars, m));
            assert(pis_eval(flat_from(bs_f, last as int), vars, m) == pis_eval(lastb0, vars, m));
        }
        assert forall|i: int|
            0 <= i < to_add@.len() implies #[trigger] to_add@[i].list@.len() == n0 by {
            if i < to_add_pre.len() {
                assert(to_add@[i] == to_add_pre[i]);
            } else {
                assert(to_add@[i] == lastb0[i - to_add_pre.len()]);
                assert(lastb0[i - to_add_pre.len()].list@.len() == n0) by {
                    assert(flat_from(bs_f, last as int)[i - to_add_pre.len()] == lastb0[i
                        - to_add_pre.len()]);
                }
            }
        }
        assert forall|i: int| 0 <= i < to_add@.len() implies counts_ok(#[trigger] to_add@[i]) by {
            if i < to_add_pre.len() {
                assert(to_add@[i] == to_add_pre[i]);
            } else {
                assert(to_add@[i] == lastb0[i - to_add_pre.len()]);
                assert(counts_ok(lastb0[i - to_add_pre.len()])) by {
                    assert(flat_from(bs_f, last as int)[i - to_add_pre.len()] == lastb0[i
                        - to_add_pre.len()]);
                }
            }
        }
        assert(same_len(to_add@));
        assert forall|n: nat| len_all(flat0, n) implies len_all(to_add@, n) by {
            if flat0.len() > 0 {
                assert(flat0[0].list@.len() == n);
            } else {
                assert(to_add@.len() == 0);
            }
        }
    }
    to_add
}

/// One merge pass inside each bucket: members are popped one by one and
/// merged with a remaining member when exactly one position differs.
#[verifier::loop_isolation(false)]
#[verifier::rlimit(100)]
pub fn mccluskey_pass_two(sorted_primes: Vec<Vec<PrimeImplicant>>) -> (r: Vec<PrimeImplicant>)
    requires
        same_len(flat_buckets(sorted_primes@)),
        counts_all(flat_buckets(sorted_primes@)),
    ensures
        counts_all(r@),
        same_len(r@),
        r@.len() <= flat_buckets(sorted_primes@).len(),
        forall|n: nat| len_all(flat_buckets(sorted_primes@), n) ==> len_all(r@, n),
        forall|vars: Seq<Seq<char>>, m: Map<Seq<char>, bool>|
            #[trigger] pis_eval(r@, vars, m) == pis_eval(flat_buckets(sorted_primes@), vars, m),
{
    let ghost bs0 = sorted_primes@;
    let ghost flat0 = flat_buckets(bs0);
    let ghost n0: nat = if flat0.len() > 0 {
        flat0[0].list@.len()
    } else {
        0
    };
    proof {
        assert(len_all(flat0, n0));
    }
    let mut sorted_primes = sorted_primes;
    let mut to_add: Vec<PrimeImplicant> = Vec::new();
    while sorted_primes.len() > 0
        invariant
            len_all(to_add@, n0),
            counts_all(to_add@),
            len_all(flat_buckets(sorted_primes@), n0),
            counts_all(flat_buckets(sorted_primes@)),
            to_add@.len() + flat_buckets(sorted_primes@).len() <= flat0.len(),
            forall|vars: Seq<Seq<char>>, m: Map<Seq<char>, bool>|
                (pis_eval(to_add@, vars, m) || pis_eval(flat_buckets(sorted_primes@), vars, m))
                    == #[trigger] pis_eval(flat0, vars, m),
        decreases sorted_primes@.len(),
    {
        let ghost bs_pre = sorted_primes@;
        let mut now = match sorted_primes.pop() {
            Some(b) => b,
            None => {
                proof {
                    assert(false);
                }
                unreached()
            },
        };
        let ghost now0 = now@;
        proof {
            assert(bs_pre =~= sorted_primes@.push(now));
            lemma_flat_push(sorted_primes@, now, 0);
            assert(flat_buckets(bs_pre) == flat_buckets(sorted_primes@) + now0);
            assert forall|i: int|
                0 <= i < flat_buckets(sorted_primes@).len() implies #[trigger] flat_buckets(
                sorted_primes@,
            )[i].list@.len() == n0 && counts_ok(flat_buckets(sorted_primes@)[i]) by {
                assert(flat_buckets(bs_pre)[i] == flat_buckets(sorted_primes@)[i]);
            }
            assert forall|i: int|
                0 <= i < now0.len() implies #[trigger] now0[i].list@.len() == n0 && counts_ok(
                now0[i],
            ) by {
                assert(flat_buckets(bs_pre)[flat_buckets(sorted_primes@).len() + i] == now0[i]);
            }
            assert forall|i: int| 0 <= i < now0.len() implies counts_ok(#[trigger] now0[i]) by {
                assert(flat_buckets(bs_pre)[flat_buckets(sorted_primes@).len() + i] == now0[i]);
            }
            assert forall|vars: Seq<Seq<char>>, m: Map<Seq<char>, bool>|
                (pis_eval(to_add@, vars, m) || pis_eval(now@, vars, m) || pis_eval(
                    flat_buckets(sorted_primes@),
                    vars,
                    m,
                )) == #[trigger] pis_eval(flat0, vars, m) by {
                lemma_pis_concat(flat_buckets(sorted_primes@), now0, vars, m);
                assert((pis_eval(to_add@, vars, m) || pis_eval(flat_buckets(bs_pre), vars, m))
                    == pis_eval(flat0, vars, m));
            }
        }
        while now.len() > 0
            invariant
                len_all(to_add@, n0),
                counts_all(to_add@),
                len_all(now@, n0),
                counts_all(now@),
                len_all(flat_buckets(sorted_primes@), n0),
                counts_all(flat_buckets(sorted_primes@)),
                to_add@.len() + now@.len() + flat_buckets(sorted_primes@).len() <= flat0.len(),
                forall|vars: Seq<Seq<char>>, m: Map<Seq<char>, bool>|
                    (pis_eval(to_add@, vars, m) || pis_eval(now@, vars, m) || pis_eval(
                        flat_buckets(sorted_primes@),
                        vars,
                        m,
                    )) == #[trigger] pis_eval(flat0, vars, m),
            decreases now@.len(),
        {
            let ghost now_pre = now@;
            let ghost to_add_pre = to_add@;
            let curr = match now.pop() {
                Some(c) => c,
                None => {
                    proof {
                        assert(false);
                    }
                    unreached()
                },
            };
            proof {
                assert(curr == now_pre.last());
                assert(now@ == now_pre.drop_last());
                assert forall|j: int|
                    0 <= j < now@.len() implies #[trigger] now@[j].list@.len() == n0 && counts_ok(
                    now@[j],
                ) by {
                    assert(now@[j] == now_pre[j]);
                }
            }
            let ghost now_mid = now@;
            let dup = curr.duplicate();
            let merged = merge_similar(dup, &mut now);
            match merged {
                Some(new) => {
                    to_add.push(new);
                },
                None => {
                    to_add.push(curr);
                },
            }
            proof {
                assert(to_add@.drop_last() == to_add_pre);
                assert(to_add@ == to_add_pre.push(to_add@.last()));
                assert(to_add@.last().list@ == (match merged {
                    Some(x) => x.list@,
                    None => now_pre.last().list@,
                }));
                assert(counts_ok(to_add@.last())) by {
                    match merged {
                        Some(x) => {},
                        None => {
                            assert(to_add@.last() == now_pre.last());
                            assert(counts_ok(now_pre[now_pre.len() - 1]));
                        },
                    }
                }
                assert forall|j: int|
                    0 <= j < now@.len() implies #[trigger] now@[j].list@.len() == n0 && counts_ok(
                    now@[j],
                ) by {
                    assert(now_mid.contains(now@[j]));
                    let k = choose|k: int| 0 <= k < now_mid.len() && now_mid[k] == now@[j];
                }
                assert forall|vars: Seq<Seq<char>>, m: Map<Seq<char>, bool>|
                    (pis_eval(to_add@, vars, m) || pis_eval(now@, vars, m) || pis_eval(
                        flat_buckets(sorted_primes@),
                        vars,
                        m,
                    )) == #[trigger] pis_eval(flat0, vars, m) by {
                    lemma_pis_push(to_add_pre, to_add@.last(), vars, m);
                    lemma_pis_pop(now_pre, vars, m);
                    assert(((match merged {
                        Some(x) => pi_eval(x.list@, vars, m),
                        None => pi_eval(dup.list@, vars, m),
                    }) || pis_eval(now@, vars, m)) == (pi_eval(dup.list@, vars, m) || pis_eval(
                        now_mid,
                        vars,
                        m,
                    )));
                    assert(pi_eval(dup.list@, vars, m) == pi_eval(now_pre.last().list@, vars, m));
                }
            }
        }
        proof {
            assert(now@.len() == 0);
            assert forall|vars: Seq<Seq<char>>, m: Map<Seq<char>, bool>|
                (pis_eval(to_add@, vars, m) || pis_eval(flat_buckets(sorted_primes@), vars, m))
                    == #[trigger] pis_eval(flat0, vars, m) by {
                assert(!pis_eval(now@, vars, m));
            }
        }
    }
    proof {
        assert(flat_buckets(sorted_primes@) =~= Seq::<PrimeImplicant>::empty());
        assert forall|vars: Seq<Seq<char>>, m: Map<Seq<char>, bool>|
            #[trigger] pis_eval(to_add@, vars, m) == pis_eval(flat0, vars, m) by {
            assert(!pis_eval(flat_buckets(sorted_primes@), vars, m));
        }
        assert(same_len(to_add@));
        assert forall|n: nat| len_all(flat0, n) implies len_all(to_add@, n) by {
            if flat0.len() > 0 {
                assert(flat0[0].list@.len() == n);
            } else {
                assert(to_add@.len() == 0);
            }
        }
    }
    to_add
}

/// Finds two implicants that differ in exactly one position, if any.
#[verifier::loop_isolation(false)]
fn find_mergeable(ps: &Vec<PrimeImplicant>) -> (r: Option<(usize, usize)>)
    requires
        same_len(ps@),
    ensures
        match r {
            Some(pair) => pair.0 < pair.1 && pair.1 < ps@.len() && diff_count(
                ps@[pair.0 as int].list@,
                ps@[pair.1 as int].list@,
            ) == 1,
            None => forall|a: int, b: int|
                0 <= a < b < ps@.len() ==> diff_count(
                    #[trigger] ps@[a].list@,
                    #[trigger] ps@[b].list@,
                ) != 1,
        },
{
    let mut a: usize = 0;
    while a < ps.len()
        invariant
            a <= ps@.len(),
            forall|x: int, y: int|
                0 <= x < a && x < y < ps@.len() ==> diff_count(
                    #[trigger] ps@[x].list@,
                    #[trigger] ps@[y].list@,
                ) != 1,
        decreases ps@.len() - a,
    {
        let mut b: usize = a + 1;
        while b < ps.len()
            invariant
                a < ps@.len(),
                a < b,
                b <= ps@.len(),
                forall|y: int|
                    a < y < b ==> diff_count(
                        ps@[a as int].list@,
                        #[trigger] ps@[y].list@,
                    ) != 1,
            decreases ps@.len() - b,
        {
            if ps[a].can_merge(&ps[b]) {
                return Some((a, b));
            }
            b = b + 1;
        }
        a = a + 1;
    }
    None
}

/// Repeats the two merge passes until the number of implicants stops
/// shrinking; no two implicants of the result can merge.
#[verifier::loop_isolation(false)]
#[verifier::rlimit(100)]
pub fn mccluskey_primes(impls: Vec<PrimeImplicant>) -> (r: Vec<PrimeImplicant>)
    requires
        same_len(impls@),
        counts_all(impls@),
    ensures
        counts_all(r@),
        same_len(r@),
        r@.len() <= impls@.len(),
        forall|n: nat| len_all(impls@, n) ==> len_all(r@, n),
        forall|a: int, b: int|
            0 <= a < b < r@.len() ==> diff_count(
                #[trigger] r@[a].list@,
                #[trigger] r@[b].list@,
            ) != 1,
        forall|vars: Seq<Seq<char>>, m: Map<Seq<char>, bool>|
            #[trigger] pis_eval(r@, vars, m) == pis_eval(impls@, vars, m),
{
    broadcast use vstd::seq_lib::group_to_multiset_ensures;

    let ghost i0 = impls@;
    let ghost n0: nat = if i0.len() > 0 {
        i0[0].list@.len()
    } else {
        0
    };
    proof {
        assert(len_all(i0, n0));
    }
    let mut size_before: usize = impls.len();
    let mut sorted_primes = sort_prime_implicants(impls);
    proof {
        lemma_sorted_transfer(i0, flat_buckets(sorted_primes@), n0);
    }
    loop
        invariant
            size_before as int == flat_buckets(sorted_primes@).len(),
            sorted_primes@.len() >= 1,
            flat_buckets(sorted_primes@).len() <= i0.len(),
            len_all(flat_buckets(sorted_primes@), n0),
            counts_all(flat_buckets(sorted_primes@)),
            same_len(flat_buckets(sorted_primes@)),
            forall|vars: Seq<Seq<char>>, m: Map<Seq<char>, bool>|
                pis_eval(flat_buckets(sorted_primes@), vars, m) == #[trigger] pis_eval(
                    i0,
                    vars,
                    m,
                ),
        decreases size_before,
    {
        let t1 = mccluskey_pass_one(sorted_primes);
        let s1 = sort_prime_implicants(t1);
        proof {
            lemma_sorted_transfer(t1@, flat_buckets(s1@), n0);
        }
        let to_add = mccluskey_pass_two(s1);
        proof {
            assert(to_add@.len() <= flat_buckets(s1@).len());
            assert(flat_buckets(s1@).len() == t1@.len());
            assert forall|vars: Seq<Seq<char>>, m: Map<Seq<char>, bool>|
                pis_eval(to_add@, vars, m) == #[trigger] pis_eval(i0, vars, m) by {
                assert(pis_eval(to_add@, vars, m) == pis_eval(flat_buckets(s1@), vars, m));
                assert(pis_eval(flat_buckets(s1@), vars, m) == pis_eval(t1@, vars, m));
                assert(pis_eval(t1@, vars, m) == pis_eval(
                    flat_buckets(sorted_primes@),
                    vars,
                    m,
                ));
            }
            assert(len_all(to_add@, n0)) by {
                assert(len_all(flat_buckets(sorted_primes@), n0));
            }
            assert(counts_all(to_add@));
        }
        if size_before == to_add.len() {
            let mut final_list = to_add;
            loop
                invariant
                    len_all(final_list@, n0),
                    counts_all(final_list@),
                    final_list@.len() <= i0.len(),
                    forall|vars: Seq<Seq<char>>, m: Map<Seq<char>, bool>|
                        pis_eval(final_list@, vars, m) == #[trigger] pis_eval(i0, vars, m),
                decreases final_list@.len(),
            {
                proof {
                    assert(same_len(final_list@));
                }
                match find_mergeable(&final_list) {
                    None => {
                        proof {
                            assert(same_len(final_list@));
                            assert forall|n: nat| len_all(i0, n) implies len_all(
                                final_list@,
                                n,
                            ) by {
                                if i0.len() > 0 {
                                    assert(i0[0].list@.len() == n);
                                } else {
                                    assert(final_list@.len() == 0);
                                }
                            }
                        }
                        return final_list;
                    },
                    Some(pair) => {
                        let ghost l0 = final_list@;
                        let pa = final_list[pair.0].duplicate();
                        let pb = final_list[pair.1].duplicate();
                        let merged = pa.merge(&pb);
                        final_list.remove(pair.1);
                        let ghost l1 = final_list@;
                        final_list.remove(pair.0);
                        let ghost l2 = final_list@;
                        final_list.push(merged);
                        proof {
                            l0.remove_ensures(pair.1 as int);
                            l1.remove_ensures(pair.0 as int);
                            assert(l1 == l0.remove(pair.1 as int));
                            assert(l2 == l1.remove(pair.0 as int));
                            assert(l1[pair.0 as int] == l0[pair.0 as int]);
                            assert forall|k: int|
                                0 <= k < l2.len() implies #[trigger] l2[k].list@.len() == n0
                                && counts_ok(l2[k]) by {
                                if k < pair.0 {
                                    assert(l2[k] == l1[k]);
                                    assert(l1[k] == l0[k]);
                                } else {
                                    assert(l2[k] == l1[k + 1]);
                                    if k + 1 < pair.1 {
                                        assert(l1[k + 1] == l0[k + 1]);
                                    } else {
                                        assert(l1[k + 1] == l0[k + 2]);
                                    }
                                }
                            }
                            assert(final_list@ == l2.push(merged));
                            assert forall|k: int|
                                0 <= k < final_list@.len() implies #[trigger] final_list@[k].list@.len()
                                == n0 && counts_ok(final_list@[k]) by {
                                if k < l2.len() {
                                    assert(final_list@[k] == l2[k]);
                                } else {
                                    assert(final_list@[k] == merged);
                                    assert(merged.list@.len() == pa.list@.len());
                                }
                            }
                            assert forall|vars: Seq<Seq<char>>, m: Map<Seq<char>, bool>|
                                pis_eval(final_list@, vars, m) == #[trigger] pis_eval(
                                i0,
                                vars,
                                m,
                            ) by {
                                lemma_pis_remove(l0, pair.1 as int, vars, m);
                                lemma_pis_remove(l1, pair.0 as int, vars, m);
                                lemma_pis_push(l2, merged, vars, m);
                                lemma_merge_sound(pa.list@, pb.list@, vars, m);
                                assert(pi_eval(merged.list@, vars, m) == (pi_eval(
                                    pa.list@,
                                    vars,
                                    m,
                                ) || pi_eval(pb.list@, vars, m)));
                                assert(pa.list@ == l0[pair.0 as int].list@);
                                assert(pb.list@ == l0[pair.1 as int].list@);
                            }
                        }
                    },
                }
            }
        }
        size_before = to_add.len();
        sorted_primes = sort_prime_implicants(to_add);
        proof {
            lemma_sorted_transfer(to_add@, flat_buckets(sorted_primes@), n0);
            assert forall|vars: Seq<Seq<char>>, m: Map<Seq<char>, bool>|
                pis_eval(flat_buckets(sorted_primes@), vars, m) == #[trigger] pis_eval(
                    i0,
                    vars,
                    m,
                ) by {
                assert(pis_eval(flat_buckets(sorted_primes@), vars, m) == pis_eval(
                    to_add@,
                    vars,
                    m,
                ));
            }
        }
    }
}

/// Bucketing preserves lengths, counters, and satisfaction.
proof fn lemma_sorted_transfer(a: Seq<PrimeImplicant>, b: Seq<PrimeImplicant>, n0: nat)
    requires
        a.to_multiset() == b.to_multiset(),
        len_all(a, n0),
        counts_all(a),
    ensures
        b.len() == a.len(),
        len_all(b, n0),
        counts_all(b),
        same_len(b),
        forall|vars: Seq<Seq<char>>, m: Map<Seq<char>, bool>|
            pis_eval(b, vars, m) == #[trigger] pis_eval(a, vars, m),
{
    broadcast use vstd::seq_lib::group_to_multiset_ensures;

    lemma_elements_carry(a, b, |x: PrimeImplicant| x.list@.len() == n0);
    lemma_elements_carry(a, b, |x: PrimeImplicant| counts_ok(x));
    assert forall|i: int| 0 <= i < b.len() implies #[trigger] b[i].list@.len() == n0 by {
        let p = |x: PrimeImplicant| x.list@.len() == n0;
        assert(p(b[i]));
    }
    assert forall|i: int| 0 <= i < b.len() implies counts_ok(#[trigger] b[i]) by {
        let p = |x: PrimeImplicant| counts_ok(x);
        assert(p(b[i]));
    }
    assert forall|vars: Seq<Seq<char>>, m: Map<Seq<char>, bool>|
        pis_eval(b, vars, m) == #[trigger] pis_eval(a, vars, m) by {
        lemma_pis_multiset(a, b, vars, m);
    }
    assert(a.len() == a.to_multiset().len());
    assert(b.len() == b.to_multiset().len());
}

/// A literal is a clean tree.
pub proof fn lemma_literal_clean(e: Expr)
    requires
        is_literal(e),
    ensures
        clean(e),
{
    match e {
        Expr::Not(inner) => {
            match *inner {
                Expr::Var(_) => {
                    assert(clean(*inner));
                },
                _ => {},
            }
        },
        _ => {},
    }
}

/// A list of literals is a clean list.
pub proof fn lemma_literals_clean(l: Seq<Expr>)
    requires
        all_literals(l),
    ensures
        crate::equation::clean_list(l),
    decreases l.len(),
{
    if l.len() > 0 {
        lemma_literal_clean(l[0]);
        lemma_literals_clean(l.drop_first());
    }
}

/// A contradictory list of literals never holds.
pub proof fn lemma_contradictory_false(lits: Seq<Expr>, m: Map<Seq<char>, bool>)
    requires
        all_literals(lits),
        contradictory(lits),
    ensures
        !eval_and(lits, m),
{
    let v = choose|v: Seq<char>| #[trigger] has_lit(lits, v, true) && has_lit(lits, v, false);
    let i = choose|i: int|
        0 <= i < lits.len() && is_literal(#[trigger] lits[i]) && lit_var(lits[i]) == v && lit_pos(
            lits[i],
        ) == true;
    let j = choose|j: int|
        0 <= j < lits.len() && is_literal(#[trigger] lits[j]) && lit_var(lits[j]) == v && lit_pos(
            lits[j],
        ) == false;
    crate::equation::lemma_eval_and_iff(lits, m);
    if eval_and(lits, m) {
        assert(eval_spec(lits[i], m));
        assert(eval_spec(lits[j], m));
        assert(lits[i] == Expr::Var(v));
        match lits[j] {
            Expr::Not(inner) => {
                assert(*inner == Expr::Var(v));
                assert(eval_spec(lits[j], m) == !eval_spec(Expr::Var(v), m));
            },
            _ => {},
        }
        assert(false);
    }
}

/// A term holds exactly when all its literals hold.
pub proof fn lemma_term_sem(e: Expr, m: Map<Seq<char>, bool>)
    requires
        is_sop_term(e),
    ensures
        eval_spec(e, m) == eval_and(term_lits(e), m),
{
    match e {
        Expr::Prod(_) => {},
        _ => {
            assert(term_lits(e) =~= seq![e]);
            assert(term_lits(e)[0] == e);
            assert(term_lits(e).drop_first() =~= Seq::<Expr>::empty());
            assert(eval_and(Seq::<Expr>::empty(), m));
            assert(eval_and(term_lits(e), m) == eval_spec(e, m));
        },
    }
}

/// A term's literals are all literals, and their variables are the term's.
pub proof fn lemma_term_lits_shape(e: Expr)
    requires
        is_sop_term(e),
    ensures
        all_literals(term_lits(e)),
        forall|n: Seq<char>| appears_in_list(term_lits(e), n) == appears(e, n),
{
    match e {
        Expr::Prod(_) => {},
        _ => {
            assert(term_lits(e) =~= seq![e]);
            assert(term_lits(e)[0] == e);
            assert(term_lits(e).drop_first() =~= Seq::<Expr>::empty());
            assert(all_literals(Seq::<Expr>::empty()));
            assert(all_literals(term_lits(e)));
            assert forall|n: Seq<char>|
                appears_in_list(term_lits(e), n) == appears(e, n) by {
                assert(!appears_in_list(Seq::<Expr>::empty(), n));
            }
        },
    }
}

/// An encoded non-contradictory term is satisfied exactly when the term
/// is, provided the ordering covers the term's variables, each once.
pub proof fn lemma_encode_sem(
    lits: Seq<Expr>,
    vs: Seq<Seq<char>>,
    l: Seq<Present>,
    m: Map<Seq<char>, bool>,
)
    requires
        all_literals(lits),
        !contradictory(lits),
        encodes(lits, vs, l),
        forall|n: Seq<char>| #[trigger] appears_in_list(lits, n) ==> exists|j: int|
            0 <= j < vs.len() && vs[j] == n,
    ensures
        pi_eval(l, vs, m) == eval_and(lits, m),
{
    crate::equation::lemma_eval_and_iff(lits, m);
    crate::equation::lemma_all_literals_iff(lits);
    if eval_and(lits, m) {
        assert forall|i: int| 0 <= i < l.len() implies trit_ok(#[trigger] l[i], m[vs[i]]) by {
            assert(l[i] == trit_for(lits, vs[i]));
            if has_lit(lits, vs[i], true) {
                let k = choose|k: int|
                    0 <= k < lits.len() && is_literal(#[trigger] lits[k]) && lit_var(lits[k])
                        == vs[i] && lit_pos(lits[k]) == true;
                assert(eval_spec(lits[k], m));
                assert(lits[k] == Expr::Var(vs[i]));
            } else if has_lit(lits, vs[i], false) {
                let k = choose|k: int|
                    0 <= k < lits.len() && is_literal(#[trigger] lits[k]) && lit_var(lits[k])
                        == vs[i] && lit_pos(lits[k]) == false;
                assert(eval_spec(lits[k], m));
                match lits[k] {
                    Expr::Not(inner) => {
                        assert(*inner == Expr::Var(vs[i]));
                        assert(eval_spec(lits[k], m) == !eval_spec(Expr::Var(vs[i]), m));
                    },
                    _ => {},
                }
            }
        }
    }
    if pi_eval(l, vs, m) {
        assert forall|k: int| 0 <= k < lits.len() implies eval_spec(#[trigger] lits[k], m) by {
            assert(is_literal(lits[k]));
            let v = lit_var(lits[k]);
            assert(appears(lits[k], v)) by {
                match lits[k] {
                    Expr::Not(inner) => {
                        match *inner {
                            Expr::Var(nm) => {
                                assert(appears(*inner, nm));
                            },
                            _ => {},
                        }
                    },
                    _ => {},
                }
            }
            assert(appears_in_list(lits, v)) by {
                crate::equation::lemma_appears_in_list_iff(lits, v);
            }
            let j = choose|j: int| 0 <= j < vs.len() && vs[j] == v;
            assert(l[j] == trit_for(lits, v));
            assert(has_lit(lits, v, lit_pos(lits[k])));
            if lit_pos(lits[k]) {
                assert(trit_for(lits, v) == Present::Yes);
                assert(trit_ok(l[j], m[v]));
                assert(lits[k] == Expr::Var(v));
            } else {
                assert(!has_lit(lits, v, true)) by {
                    if has_lit(lits, v, true) {
                        assert(contradictory(lits));
                    }
                }
                assert(trit_for(lits, v) == Present::No);
                assert(trit_ok(l[j], m[v]));
                match lits[k] {
                    Expr::Not(inner) => {
                        assert(*inner == Expr::Var(v));
                        assert(eval_spec(lits[k], m) == !eval_spec(Expr::Var(v), m));
                    },
                    _ => {},
                }
            }
        }
    }
}

/// Whether a sum-of-products term requires some variable both true and
/// false.
pub fn term_contradictory(e: &Equation) -> (r: bool)
    requires
        is_sop_term(e@),
    ensures
        r == contradictory(term_lits(e@)),
{
    match e {
        Equation::Prod(p) => {
            proof {
                assert(e@ == Expr::Prod(views_of(p.inner@)));
            }
            has_contradiction(&p.inner)
        },
        _ => {
            proof {
                let lits = term_lits(e@);
                assert(lits =~= seq![e@]);
                if contradictory(lits) {
                    let v = choose|v: Seq<char>| #[trigger] has_lit(lits, v, true) && has_lit(
                        lits,
                        v,
                        false,
                    );
                    let i = choose|i: int|
                        0 <= i < lits.len() && is_literal(#[trigger] lits[i]) && lit_var(lits[i])
                            == v && lit_pos(lits[i]) == true;
                    let j = choose|j: int|
                        0 <= j < lits.len() && is_literal(#[trigger] lits[j]) && lit_var(lits[j])
                            == v && lit_pos(lits[j]) == false;
                    assert(lits[i] == e@ && lits[j] == e@);
                    assert(false);
                }
            }
            false
        },
    }
}

/// Inserts an implicant into a list sorted by its text form, after any
/// members with the same text.
#[verifier::loop_isolation(false)]
fn insert_by_string(acc: &mut Vec<PrimeImplicant>, x: PrimeImplicant)
    requires
        forall|a: int, b: int|
            0 <= a < b < old(acc)@.len() ==> !crate::order::lex_lt(
                string_of(#[trigger] old(acc)@[b].list@),
                string_of(#[trigger] old(acc)@[a].list@),
            ),
    ensures
        forall|a: int, b: int|
            0 <= a < b < final(acc)@.len() ==> !crate::order::lex_lt(
                string_of(#[trigger] final(acc)@[b].list@),
                string_of(#[trigger] final(acc)@[a].list@),
            ),
        final(acc)@.to_multiset() == old(acc)@.to_multiset().insert(x),
{
    broadcast use vstd::seq_lib::group_to_multiset_ensures;

    let ghost orig = acc@;
    let xs = x.get_string();
    let mut i: usize = 0;
    while i < acc.len()
        invariant
            acc@ == orig,
            i <= orig.len(),
            xs@ == string_of(x.list@),
            forall|j: int|
                0 <= j < i ==> !crate::order::lex_lt(
                    string_of(x.list@),
                    string_of(#[trigger] orig[j].list@),
                ),
        decreases orig.len() - i,
    {
        let cur = acc[i].get_string();
        if crate::order::str_lt(&xs, &cur) {
            proof {
                lemma_multiset_insert_seq(orig, i as int, x);
                assert(crate::order::lex_lt(string_of(x.list@), string_of(orig[i as int].list@)));
            }
            let ghost xg = x;
            acc.insert(i, x);
            proof {
                assert(acc@ == orig.insert(i as int, xg));
                assert forall|a: int, b: int|
                    0 <= a < b < acc@.len() implies !crate::order::lex_lt(
                    string_of(#[trigger] acc@[b].list@),
                    string_of(#[trigger] acc@[a].list@),
                ) by {
                    if a < i && b == i {
                        assert(acc@[a] == orig[a]);
                        assert(acc@[b] == xg);
                        assert(!crate::order::lex_lt(
                            string_of(xg.list@),
                            string_of(orig[a].list@),
                        ));
                    } else if a == i && b > i {
                        assert(acc@[a] == xg);
                        assert(acc@[b] == orig[b - 1]);
                        if crate::order::lex_lt(
                            string_of(orig[b - 1].list@),
                            string_of(xg.list@),
                        ) {
                            crate::order::lemma_lex_trans(
                                string_of(orig[b - 1].list@),
                                string_of(xg.list@),
                                string_of(orig[i as int].list@),
                            );
                            if b - 1 == i {
                                crate::order::lemma_lex_irrefl(string_of(orig[i as int].list@));
                            } else {
                                assert(!crate::order::lex_lt(
                                    string_of(orig[b - 1].list@),
                                    string_of(orig[i as int].list@),
                                ));
                            }
                        }
                    } else if a < i && b > i {
                        assert(acc@[a] == orig[a]);
                        assert(acc@[b] == orig[b - 1]);
                    } else if i < a {
                        assert(acc@[a] == orig[a - 1]);
                        assert(acc@[b] == orig[b - 1]);
                    } else {
                        assert(acc@[a] == orig[a]);
                        assert(acc@[b] == orig[b]);
                    }
                }
            }
            return ;
        }
        i = i + 1;
    }
    proof {
        lemma_multiset_insert_seq(orig, orig.len() as int, x);
        assert(orig.insert(orig.len() as int, x) =~= orig.push(x));
    }
    let ghost xg = x;
    acc.push(x);
    proof {
        assert(acc@ =~= orig.insert(orig.len() as int, xg));
    }
}

/// Whether two trit vectors are the same.
#[verifier::loop_isolation(false)]
fn lists_equal(a: &Vec<Present>, b: &Vec<Present>) -> (r: bool)
    ensures
        r == (a@ == b@),
{
    if a.len() != b.len() {
        return false;
    }
    let mut i: usize = 0;
    while i < a.len()
        invariant
            a@.len() == b@.len(),
            i <= a@.len(),
            forall|j: int| 0 <= j < i ==> #[trigger] a@[j] == b@[j],
        decreases a@.len() - i,
    {
        if a[i] != b[i] {
            return false;
        }
        i = i + 1;
    }
    proof {
        assert(a@ =~= b@);
    }
    true
}

/// Reduces a list of implicants over an ordering and decodes the result:
/// the implicants are merged to a fixed point, deduplicated, put in
/// strictly ascending order of their text forms, and turned back into
/// product terms.
#[verifier::loop_isolation(false)]
#[verifier::rlimit(100)]
pub fn mccluskey(input: (Vec<String>, Vec<PrimeImplicant>)) -> (r: Vec<Equation>)
    requires
        forall|i: int|
            0 <= i < input.1@.len() ==> #[trigger] input.1@[i].list@.len() == input.0@.len(),
        counts_all(input.1@),
        forall|i: int, j: int|
            0 <= i < j < input.0@.len() ==> #[trigger] input.0@[i]@ != #[trigger] input.0@[j]@,
    ensures
        crate::equation::all_sop_terms(views_of(r@)),
        crate::equation::clean_list(views_of(r@)),
        forall|m: Map<Seq<char>, bool>|
            #[trigger] eval_or(views_of(r@), m) == pis_eval(input.1@, name_views(input.0@), m),
        forall|n: Seq<char>|
            #[trigger] appears_in_list(views_of(r@), n) ==> crate::order::has_name(input.0@, n),
        exists|ps: Seq<PrimeImplicant>| #![trigger ps.len()]
            ({
                &&& ps.len() == r@.len()
                &&& forall|a: int, b: int|
                    0 <= a < b < ps.len() ==> crate::order::lex_lt(
                        string_of(#[trigger] ps[a].list@),
                        string_of(#[trigger] ps[b].list@),
                    )
                &&& forall|i: int|
                    0 <= i < ps.len() ==> #[trigger] ps[i].list@.len() == input.0@.len()
                &&& forall|i: int|
                    0 <= i < ps.len() ==> #[trigger] views_of(r@)[i] == decoded_term(
                        ps[i].list@,
                        name_views(input.0@),
                    )
            }),
{
    broadcast use vstd::seq_lib::group_to_multiset_ensures;

    let (vars, impls) = input;
    let ghost vs = name_views(vars@);
    let ghost i0 = impls@;
    let ghost nv: nat = vars@.len();
    proof {
        assert(same_len(i0));
        assert(len_all(i0, nv));
    }
    let mut primes = mccluskey_primes(impls);
    let ghost p0 = primes@;
    let mut sorted: Vec<PrimeImplicant> = Vec::new();
    let mut idx: usize = 0;
    proof {
        assert(p0.take(0) =~= Seq::<PrimeImplicant>::empty());
        assert(Seq::<PrimeImplicant>::empty().to_multiset() =~= sorted@.to_multiset());
    }
    while idx < primes.len()
        invariant
            idx <= primes@.len(),
            primes@.len() == p0.len(),
            forall|j: int| idx <= j < primes@.len() ==> #[trigger] primes@[j] == p0[j],
            forall|a: int, b: int|
                0 <= a < b < sorted@.len() ==> !crate::order::lex_lt(
                    string_of(#[trigger] sorted@[b].list@),
                    string_of(#[trigger] sorted@[a].list@),
                ),
            sorted@.to_multiset() == p0.take(idx as int).to_multiset(),
        decreases primes@.len() - idx,
    {
        let mut x = PrimeImplicant { list: Vec::new(), nb_any: 0, nb_yes: 0 };
        vstd::pervasive::VecAdditionalExecFns::set_and_swap(&mut primes, idx, &mut x);
        proof {
            assert(x == p0[idx as int]);
            assert(p0.take(idx + 1) =~= p0.take(idx as int).push(p0[idx as int]));
        }
        insert_by_string(&mut sorted, x);
        idx = idx + 1;
    }
    proof {
        assert(p0.take(p0.len() as int) =~= p0);
        lemma_sorted_transfer(p0, sorted@, nv);
    }
    let ghost s0 = sorted@;
    let mut dd: Vec<PrimeImplicant> = Vec::new();
    let mut di: usize = 0;
    proof {
        assert(s0.take(0) =~= Seq::<PrimeImplicant>::empty());
    }
    while di < sorted.len()
        invariant
            di <= sorted@.len(),
            sorted@.len() == s0.len(),
            forall|j: int| di <= j < sorted@.len() ==> #[trigger] sorted@[j] == s0[j],
            len_all(dd@, nv),
            counts_all(dd@),
            forall|a: int, b: int|
                0 <= a < b < dd@.len() ==> crate::order::lex_lt(
                    string_of(#[trigger] dd@[a].list@),
                    string_of(#[trigger] dd@[b].list@),
                ),
            di == 0 ==> dd@.len() == 0,
            di > 0 ==> dd@.len() > 0 && dd@[dd@.len() - 1].list@ == s0[di - 1].list@,
            forall|vars2: Seq<Seq<char>>, m: Map<Seq<char>, bool>|
                pis_eval(dd@, vars2, m) == #[trigger] pis_eval(s0.take(di as int), vars2, m),
        decreases sorted@.len() - di,
    {
        let ghost dd_pre = dd@;
        let mut x = PrimeImplicant { list: Vec::new(), nb_any: 0, nb_yes: 0 };
        vstd::pervasive::VecAdditionalExecFns::set_and_swap(&mut sorted, di, &mut x);
        proof {
            assert(x == s0[di as int]);
            assert(s0.take(di + 1) =~= s0.take(di as int).push(s0[di as int]));
        }
        let mut keep = true;
        if dd.len() > 0 {
            let same = lists_equal(&dd[dd.len() - 1].list, &x.list);
            if same {
                keep = false;
            }
        }
        if keep {
            dd.push(x);
        }
        proof {
            if keep {
                assert(dd@ == dd_pre.push(s0[di as int]));
                if di > 0 {
                    assert(dd_pre[dd_pre.len() - 1].list@ != s0[di as int].list@);
                    assert(!crate::order::lex_lt(
                        string_of(s0[di as int].list@),
                        string_of(s0[di - 1].list@),
                    ));
                    assert(string_of(dd_pre[dd_pre.len() - 1].list@) == string_of(
                        s0[di - 1].list@,
                    ));
                    if !crate::order::lex_lt(
                        string_of(dd_pre[dd_pre.len() - 1].list@),
                        string_of(s0[di as int].list@),
                    ) {
                        crate::order::lemma_lex_total(
                            string_of(s0[di as int].list@),
                            string_of(dd_pre[dd_pre.len() - 1].list@),
                        );
                        lemma_string_of_injective(
                            dd_pre[dd_pre.len() - 1].list@,
                            s0[di as int].list@,
                        );
                        assert(false);
                    }
                    assert(crate::order::lex_lt(
                        string_of(dd_pre[dd_pre.len() - 1].list@),
                        string_of(s0[di as int].list@),
                    ));
                }
                assert forall|a: int, b: int|
                    0 <= a < b < dd@.len() implies crate::order::lex_lt(
                    string_of(#[trigger] dd@[a].list@),
                    string_of(#[trigger] dd@[b].list@),
                ) by {
                    if b < dd@.len() - 1 {
                        assert(dd@[a] == dd_pre[a]);
                        assert(dd@[b] == dd_pre[b]);
                        assert(crate::order::lex_lt(
                            string_of(dd_pre[a].list@),
                            string_of(dd_pre[b].list@),
                        ));
                    } else {
                        assert(dd@[b] == s0[di as int]);
                        assert(a < dd_pre.len());
                        assert(dd_pre.len() > 0);
                        assert(di > 0);
                        assert(dd@[a] == dd_pre[a]);
                        if a == dd_pre.len() - 1 {
                            assert(crate::order::lex_lt(
                                string_of(dd_pre[a].list@),
                                string_of(s0[di as int].list@),
                            ));
                        } else {
                            assert(crate::order::lex_lt(
                                string_of(dd_pre[a].list@),
                                string_of(dd_pre[dd_pre.len() - 1].list@),
                            ));
                            crate::order::lemma_lex_trans(
                                string_of(dd_pre[a].list@),
                                string_of(dd_pre[dd_pre.len() - 1].list@),
                                string_of(s0[di as int].list@),
                            );
                        }
                    }
                }
            } else {
                assert(dd@[dd@.len() - 1].list@ == s0[di as int].list@);
            }
            assert forall|vars2: Seq<Seq<char>>, m: Map<Seq<char>, bool>|
                pis_eval(dd@, vars2, m) == #[trigger] pis_eval(s0.take(di + 1), vars2, m) by {
                lemma_pis_push(s0.take(di as int), s0[di as int], vars2, m);
                if dd@ == dd_pre {
                    assert(dd_pre[dd_pre.len() - 1].list@ == s0[di as int].list@);
                    if pi_eval(s0[di as int].list@, vars2, m) {
                        assert(pi_eval(dd_pre[dd_pre.len() - 1].list@, vars2, m));
                        assert(pis_eval(dd_pre, vars2, m));
                    }
                } else {
                    lemma_pis_push(dd_pre, s0[di as int], vars2, m);
                }
            }
        }
        di = di + 1;
    }
    proof {
        assert(s0.take(s0.len() as int) =~= s0);
    }
    let ghost d0 = dd@;
    let mut out: Vec<Equation> = Vec::new();
    let mut oi: usize = 0;
    proof {
        assert(views_of(out@) =~= Seq::<Expr>::empty());
    }
    while oi < dd.len()
        invariant
            oi <= dd@.len(),
            dd@.len() == d0.len(),
            forall|j: int| oi <= j < dd@.len() ==> #[trigger] dd@[j] == d0[j],
            out@.len() == oi,
            forall|j: int|
                0 <= j < oi ==> #[trigger] views_of(out@)[j] == decoded_term(d0[j].list@, vs),
            crate::equation::all_sop_terms(views_of(out@)),
            crate::equation::clean_list(views_of(out@)),
            forall|m: Map<Seq<char>, bool>|
                eval_or(views_of(out@), m) == #[trigger] pis_eval(d0.take(oi as int), vs, m),
            forall|n: Seq<char>|
                #[trigger] appears_in_list(views_of(out@), n) ==> crate::order::has_name(
                    vars@,
                    n,
                ),
        decreases dd@.len() - oi,
    {
        let ghost out_pre = views_of(out@);
        let mut x = PrimeImplicant { list: Vec::new(), nb_any: 0, nb_yes: 0 };
        vstd::pervasive::VecAdditionalExecFns::set_and_swap(&mut dd, oi, &mut x);
        proof {
            assert(x == d0[oi as int]);
            assert(d0.take(oi + 1) =~= d0.take(oi as int).push(d0[oi as int]));
        }
        let e = x.to_eq(&vars);
        let ghost lits = decode_lits(d0[oi as int].list@, vs);
        proof {
            lemma_decode_shape(d0[oi as int].list@, vs);
            crate::equation::lemma_all_literals_iff(lits);
            if lits.len() == 1 {
                assert(is_literal(lits[0]));
                assert(is_sop_term(e@));
                lemma_literal_clean(lits[0]);
            } else {
                assert(e@ == Expr::Prod(lits));
                assert(is_sop_term(e@));
                lemma_literals_clean(lits);
            }
        }
        out.push(e);
        proof {
            assert(views_of(out@) =~= out_pre.push(e@));
            assert(e@ == decoded_term(d0[oi as int].list@, vs));
            assert forall|j: int|
                0 <= j < oi + 1 implies #[trigger] views_of(out@)[j] == decoded_term(
                d0[j].list@,
                vs,
            ) by {
                if j < oi {
                    assert(views_of(out@)[j] == out_pre[j]);
                } else {
                    assert(views_of(out@)[j] == e@);
                }
            }
            crate::equation::lemma_sop_terms_push(out_pre, e@);
            crate::equation::lemma_clean_push(out_pre, e@);
            assert forall|m: Map<Seq<char>, bool>|
                eval_or(views_of(out@), m) == #[trigger] pis_eval(d0.take(oi + 1), vs, m) by {
                crate::equation::lemma_eval_or_push(out_pre, e@, m);
                lemma_pis_push(d0.take(oi as int), d0[oi as int], vs, m);
                lemma_decode_sem(d0[oi as int].list@, vs, m);
                if lits.len() == 1 {
                    assert(lits.drop_first() =~= Seq::<Expr>::empty());
                    assert(eval_and(Seq::<Expr>::empty(), m));
                    assert(eval_and(lits, m) == eval_spec(lits[0], m));
                } else {
                    assert(eval_spec(e@, m) == eval_and(lits, m));
                }
            }
            assert forall|n: Seq<char>|
                #[trigger] appears_in_list(views_of(out@), n) implies crate::order::has_name(
                vars@,
                n,
            ) by {
                crate::equation::lemma_appears_push(out_pre, e@, n);
                if appears(e@, n) {
                    assert(appears_in_list(lits, n)) by {
                        if lits.len() == 1 {
                            assert(lits[0] == e@);
                            assert(lits.drop_first() =~= Seq::<Expr>::empty());
                        }
                    }
                    let j = choose|j: int| 0 <= j < vs.len() && vs[j] == n;
                    assert(vars@[j]@ == n);
                }
            }
        }
        oi = oi + 1;
    }
    proof {
        assert(d0.take(d0.len() as int) =~= d0);
        assert forall|m: Map<Seq<char>, bool>|
            #[trigger] eval_or(views_of(out@), m) == pis_eval(i0, vs, m) by {
            assert(eval_or(views_of(out@), m) == pis_eval(d0, vs, m));
            assert(pis_eval(d0, vs, m) == pis_eval(s0, vs, m));
            assert(pis_eval(s0, vs, m) == pis_eval(p0, vs, m));
            assert(pis_eval(p0, vs, m) == pis_eval(i0, vs, m));
        }
        assert(({
            &&& d0.len() == out@.len()
            &&& forall|a: int, b: int|
                0 <= a < b < d0.len() ==> crate::order::lex_lt(
                    string_of(#[trigger] d0[a].list@),
                    string_of(#[trigger] d0[b].list@),
                )
            &&& forall|i: int| 0 <= i < d0.len() ==> #[trigger] d0[i].list@.len() == nv
            &&& forall|i: int|
                0 <= i < d0.len() ==> #[trigger] views_of(out@)[i] == decoded_term(
                    d0[i].list@,
                    vs,
                )
        }));
    }
    out
}

/// Names in a strictly sorted list are pairwise different.
pub proof fn lemma_sorted_distinct(vars: Seq<String>)
    requires
        crate::order::sorted_names(vars),
    ensures
        forall|i: int, j: int|
            0 <= i < j < vars.len() ==> #[trigger] vars[i]@ != #[trigger] vars[j]@,
{
    assert forall|i: int, j: int|
        0 <= i < j < vars.len() implies #[trigger] vars[i]@ != #[trigger] vars[j]@ by {
        if vars[i]@ == vars[j]@ {
            assert(crate::order::lex_lt(vars[i]@, vars[j]@));
            crate::order::lemma_lex_irrefl(vars[i]@);
        }
    }
}

impl Sum {
    /// The variable ordering of the sum and the encoding of each working
    /// child over it, in order.
    #[verifier::loop_isolation(false)]
    pub fn get_primes_implicants(&self) -> (r: (Vec<String>, Vec<PrimeImplicant>))
        requires
            crate::equation::all_sop_terms(views_of(self.inner@)),
            crate::equation::clean_list(views_of(self.inner@)),
        ensures
            crate::order::sorted_names(r.0@),
            forall|n: Seq<char>|
                #[trigger] crate::order::has_name(r.0@, n) <==> appears_in_list(
                    views_of(self.inner@),
                    n,
                ),
            r.1@.len() == self.inner@.len(),
            forall|i: int|
                0 <= i < r.1@.len() ==> encodes(
                    term_lits(#[trigger] views_of(self.inner@)[i]),
                    name_views(r.0@),
                    r.1@[i].list@,
                ) && counts_ok(r.1@[i]),
    {
        let ghost kept = views_of(self.inner@);
        let vars = self.get_vars();
        proof {
            lemma_sorted_distinct(vars@);
            crate::equation::lemma_all_sop_terms_iff(kept);
        }
        let mut impls: Vec<PrimeImplicant> = Vec::new();
        let mut i: usize = 0;
        while i < self.inner.len()
            invariant
                i <= self.inner@.len(),
                impls@.len() == i,
                forall|j: int|
                    0 <= j < i ==> encodes(
                        term_lits(#[trigger] kept[j]),
                        name_views(vars@),
                        impls@[j].list@,
                    ) && counts_ok(impls@[j]),
            decreases self.inner@.len() - i,
        {
            proof {
                assert(is_sop_term(kept[i as int]));
                assert forall|n: Seq<char>|
                    appears(self.inner@[i as int]@, n) implies crate::order::has_name(
                    vars@,
                    n,
                ) by {
                    crate::equation::lemma_appears_in_list_iff(kept, n);
                    assert(appears(kept[i as int], n));
                }
            }
            let pi = PrimeImplicant::from_eq(&self.inner[i], &vars);
            impls.push(pi);
            i = i + 1;
        }
        (vars, impls)
    }
}

impl Equation {
    /// On a sum root in sum-of-products form, replaces the children by the
    /// reduced implicants; other roots are unchanged. A child that requires
    /// a variable both true and false never holds and is left out.
    #[verifier::loop_isolation(false)]
    #[verifier::rlimit(100)]
    pub fn mccluskey(&mut self)
        requires
            old(self)@ is Sum ==> crate::equation::is_sop(old(self)@),
        ensures
            old(self)@ is Sum ==> crate::equation::is_sop(final(self)@) && clean(final(self)@),
            !(old(self)@ is Sum) ==> *final(self) == *old(self),
            forall|m: Map<Seq<char>, bool>|
                #[trigger] eval_spec(final(self)@, m) == eval_spec(old(self)@, m),
            forall|n: Seq<char>| appears(final(self)@, n) ==> appears(old(self)@, n),
            old(self)@ is Sum ==> (match final(self)@ {
                Expr::Sum(kept2, shelved2) => shelved2.len() == 0 && (exists|
                    ps: Seq<PrimeImplicant>,
                    vs2: Seq<Seq<char>>,
                |
                    #![trigger ps.len(), vs2.len()]
                    ({
                        &&& ps.len() == kept2.len()
                        &&& forall|a: int, b: int|
                            0 <= a < b < ps.len() ==> crate::order::lex_lt(
                                string_of(#[trigger] ps[a].list@),
                                string_of(#[trigger] ps[b].list@),
                            )
                        &&& forall|i: int|
                            0 <= i < ps.len() ==> #[trigger] kept2[i] == decoded_term(
                                ps[i].list@,
                                vs2,
                            )
                    })),
                _ => false,
            }),
    {
        match self {
            Equation::Sum(s) => {
                let ghost kept = views_of(s.inner@);
                let ghost shelved = views_of(s.already_simplified@);
                proof {
                    assert(old(self)@ == Expr::Sum(kept, shelved));
                    assert(shelved.len() == 0);
                    crate::equation::lemma_all_sop_terms_iff(kept);
                    assert forall|j: int| 0 <= j < kept.len() implies clean(#[trigger] kept[j]) by {
                        if is_literal(kept[j]) {
                            lemma_literal_clean(kept[j]);
                        } else {
                            match kept[j] {
                                Expr::Prod(items) => {
                                    lemma_literals_clean(items);
                                },
                                _ => {},
                            }
                        }
                    }
                    crate::equation::lemma_clean_list_iff(kept);
                }
                let vars = s.get_vars();
                proof {
                    lemma_sorted_distinct(vars@);
                }
                let ghost vs = name_views(vars@);
                let mut impls: Vec<PrimeImplicant> = Vec::new();
                let mut i: usize = 0;
                while i < s.inner.len()
                    invariant
                        i <= s.inner@.len(),
                        views_of(s.inner@) == kept,
                        forall|j: int|
                            0 <= j < impls@.len() ==> #[trigger] impls@[j].list@.len()
                                == vars@.len(),
                        counts_all(impls@),
                        forall|m: Map<Seq<char>, bool>|
                            pis_eval(impls@, vs, m) == #[trigger] eval_or(kept.take(i as int), m),
                    decreases s.inner@.len() - i,
                {
                    let ghost impls_pre = impls@;
                    proof {
                        assert(is_sop_term(kept[i as int]));
                        assert forall|n: Seq<char>|
                            appears(s.inner@[i as int]@, n) implies crate::order::has_name(
                            vars@,
                            n,
                        ) by {
                            crate::equation::lemma_appears_in_list_iff(kept, n);
                            assert(appears(kept[i as int], n));
                        }
                    }
                    let contra = term_contradictory(&s.inner[i]);
                    if !contra {
                        let pi = PrimeImplicant::from_eq(&s.inner[i], &vars);
                        impls.push(pi);
                    }
                    proof {
                        lemma_term_lits_shape(kept[i as int]);
                        assert forall|m: Map<Seq<char>, bool>|
                            pis_eval(impls@, vs, m) == #[trigger] eval_or(
                            kept.take(i + 1),
                            m,
                        ) by {
                            assert(kept.take(i + 1) =~= kept.take(i as int).push(kept[i as int]));
                            crate::equation::lemma_eval_or_push(
                                kept.take(i as int),
                                kept[i as int],
                                m,
                            );
                            lemma_term_sem(kept[i as int], m);
                            if contra {
                                lemma_contradictory_false(term_lits(kept[i as int]), m);
                                assert(!eval_spec(kept[i as int], m));
                            } else {
                                lemma_pis_push(impls_pre, impls@.last(), vs, m);
                                assert forall|n: Seq<char>|
                                    #[trigger] appears_in_list(
                                        term_lits(kept[i as int]),
                                        n,
                                    ) implies exists|j: int| 0 <= j < vs.len() && vs[j] == n by {
                                    assert(appears(kept[i as int], n));
                                    assert(appears(s.inner@[i as int]@, n));
                                    assert(crate::order::has_name(vars@, n));
                                    let j = choose|j: int| 0 <= j < vars@.len() && vars@[j]@ == n;
                                    assert(vs[j] == n);
                                }
                                lemma_encode_sem(
                                    term_lits(kept[i as int]),
                                    vs,
                                    impls@.last().list@,
                                    m,
                                );
                            }
                        }
                    }
                    i = i + 1;
                }
                proof {
                    assert(kept.take(kept.len() as int) =~= kept);
                }
                let pair = (vars, impls);
                let ghost pv = pair;
                proof {
                    assert(pv.0@ == vars@ && pv.1@ == impls@);
                }
                let res = crate::mccluskey::mccluskey(pair);
                let ghost resv = views_of(res@);
                proof {
                    assert(crate::equation::all_sop_terms(resv));
                    assert(crate::equation::clean_list(resv));
                }
                s.inner = res;
                proof {
                    assert(final(self)@ == Expr::Sum(resv, shelved));
                    assert(crate::equation::is_sop(final(self)@));
                    assert(clean(final(self)@));
                    let ps = choose|ps: Seq<PrimeImplicant>| #![trigger ps.len()]
                        ({
                            &&& ps.len() == resv.len()
                            &&& forall|a: int, b: int|
                                0 <= a < b < ps.len() ==> crate::order::lex_lt(
                                    string_of(#[trigger] ps[a].list@),
                                    string_of(#[trigger] ps[b].list@),
                                )
                            &&& forall|i: int|
                                0 <= i < ps.len() ==> #[trigger] ps[i].list@.len() == pv.0@.len()
                            &&& forall|i: int|
                                0 <= i < ps.len() ==> #[trigger] resv[i] == decoded_term(
                                    ps[i].list@,
                                    name_views(pv.0@),
                                )
                        });
                    let vs2 = name_views(pv.0@);
                    assert(({
                        &&& ps.len() == resv.len()
                        &&& forall|a: int, b: int|
                            0 <= a < b < ps.len() ==> crate::order::lex_lt(
                                string_of(#[trigger] ps[a].list@),
                                string_of(#[trigger] ps[b].list@),
                            )
                        &&& forall|i: int|
                            0 <= i < ps.len() ==> #[trigger] resv[i] == decoded_term(
                                ps[i].list@,
                                vs2,
                            )
                    }));
                    assert forall|m: Map<Seq<char>, bool>|
                        #[trigger] eval_spec(final(self)@, m) == eval_spec(old(self)@, m) by {
                        assert(eval_or(resv, m) == pis_eval(pv.1@, name_views(pv.0@), m));
                        assert(pis_eval(pv.1@, name_views(pv.0@), m) == pis_eval(impls@, vs, m));
                        assert(pis_eval(impls@, vs, m) == eval_or(kept.take(kept.len() as int), m));
                        assert(!eval_or(shelved, m));
                    }
                    assert forall|n: Seq<char>|
                        appears(final(self)@, n) implies appears(old(self)@, n) by {
                        if appears_in_list(resv, n) {
                            assert(crate::order::has_name(pv.0@, n));
                            assert(crate::order::has_name(vars@, n));
                            assert(appears_in_list(kept, n));
                        }
                        assert(!appears_in_list(shelved, n));
                    }
                }
            },
            _ => {},
        }
    }
}

/// Inserts a literal into a list sorted by variable name; a variable
/// already present keeps its existing literal.
#[verifier::loop_isolation(false)]
fn insert_literal(acc: &mut Vec<Equation>, lit: Equation)
    requires
        is_literal(lit@),
        all_literals(views_of(old(acc)@)),
        forall|a: int, b: int|
            0 <= a < b < old(acc)@.len() ==> crate::order::lex_lt(
                lit_var(#[trigger] views_of(old(acc)@)[a]),
                lit_var(#[trigger] views_of(old(acc)@)[b]),
            ),
    ensures
        all_literals(views_of(final(acc)@)),
        forall|a: int, b: int|
            0 <= a < b < final(acc)@.len() ==> crate::order::lex_lt(
                lit_var(#[trigger] views_of(final(acc)@)[a]),
                lit_var(#[trigger] views_of(final(acc)@)[b]),
            ),
        (exists|j: int|
            0 <= j < old(acc)@.len() && lit_var(#[trigger] views_of(old(acc)@)[j]) == lit_var(
                lit@,
            )) ==> *final(acc) == *old(acc),
        !(exists|j: int|
            0 <= j < old(acc)@.len() && lit_var(#[trigger] views_of(old(acc)@)[j]) == lit_var(
                lit@,
            )) ==> final(acc)@.len() == old(acc)@.len() + 1 && (forall|v: Seq<char>, p: bool|
            has_lit(views_of(final(acc)@), v, p) == (has_lit(views_of(old(acc)@), v, p) || (v
                == lit_var(lit@) && p == lit_pos(lit@)))),
{
    broadcast use vstd::seq_lib::group_to_multiset_ensures;

    let ghost ov = views_of(acc@);
    proof {
        crate::equation::lemma_all_literals_iff(ov);
    }
    let name = lit_name(&lit).clone();
    let mut i: usize = 0;
    while i < acc.len()
        invariant
            *acc == *old(acc),
            views_of(acc@) == ov,
            i <= ov.len(),
            name@ == lit_var(lit@),
            forall|j: int| 0 <= j < i ==> crate::order::lex_lt(lit_var(#[trigger] ov[j]), name@),
        decreases ov.len() - i,
    {
        proof {
            assert(is_literal(ov[i as int]));
        }
        let cur = lit_name(&acc[i]);
        if cur.eq(&name) {
            proof {
                assert(lit_var(ov[i as int]) == lit_var(lit@));
            }
            return ;
        }
        if !crate::order::str_lt(cur, &name) {
            proof {
                if !crate::order::lex_lt(name@, lit_var(ov[i as int])) {
                    crate::order::lemma_lex_total(lit_var(ov[i as int]), name@);
                }
                assert(crate::order::lex_lt(name@, lit_var(ov[i as int])));
                assert forall|j: int|
                    0 <= j < ov.len() implies lit_var(#[trigger] ov[j]) != name@ by {
                    if j < i {
                        crate::order::lemma_lex_irrefl(lit_var(ov[j]));
                    } else if j == i {
                        crate::order::lemma_lex_irrefl(name@);
                    } else {
                        assert(crate::order::lex_lt(lit_var(ov[i as int]), lit_var(ov[j])));
                        crate::order::lemma_lex_trans(name@, lit_var(ov[i as int]), lit_var(ov[j]));
                        crate::order::lemma_lex_irrefl(name@);
                    }
                }
            }
            let ghost lv = lit@;
            let ii = i;
            acc.insert(ii, lit);
            proof {
                lemma_insert_literal_shape(ov, views_of(acc@), lv, ii as int);
            }
            return ;
        }
        i = i + 1;
    }
    proof {
        assert forall|j: int| 0 <= j < ov.len() implies lit_var(#[trigger] ov[j]) != name@ by {
            crate::order::lemma_lex_irrefl(name@);
        }
    }
    let ghost lv = lit@;
    let ghost n0 = acc@.len() as int;
    acc.push(lit);
    proof {
        assert(acc@ == old(acc)@.push(lit));
        assert forall|x: int|
            0 <= x < views_of(acc@).len() implies #[trigger] views_of(acc@)[x] == (if x < n0 {
            ov[x]
        } else {
            lv
        }) by {}
        lemma_insert_literal_shape(ov, views_of(acc@), lv, n0);
    }
}

/// Placing a fresh literal at its sorted position keeps the list sorted,
/// all literals, and extends the literal set by exactly it.
proof fn lemma_insert_literal_shape(ov: Seq<Expr>, nv: Seq<Expr>, lv: Expr, i: int)
    requires
        is_literal(lv),
        all_literals(ov),
        forall|a: int, b: int|
            0 <= a < b < ov.len() ==> crate::order::lex_lt(
                lit_var(#[trigger] ov[a]),
                lit_var(#[trigger] ov[b]),
            ),
        0 <= i <= ov.len(),
        nv.len() == ov.len() + 1,
        forall|j: int| 0 <= j < i ==> #[trigger] nv[j] == ov[j],
        forall|j: int| i < j < nv.len() ==> #[trigger] nv[j] == ov[j - 1],
        nv[i] == lv,
        forall|j: int| 0 <= j < i ==> crate::order::lex_lt(lit_var(#[trigger] ov[j]), lit_var(lv)),
        i < ov.len() ==> crate::order::lex_lt(lit_var(lv), lit_var(ov[i])),
    ensures
        all_literals(nv),
        forall|a: int, b: int|
            0 <= a < b < nv.len() ==> crate::order::lex_lt(
                lit_var(#[trigger] nv[a]),
                lit_var(#[trigger] nv[b]),
            ),
        forall|v: Seq<char>, p: bool|
            has_lit(nv, v, p) == (has_lit(ov, v, p) || (v == lit_var(lv) && p == lit_pos(lv))),
{
    crate::equation::lemma_all_literals_iff(ov);
    crate::equation::lemma_all_literals_iff(nv);
    assert forall|j: int| 0 <= j < nv.len() implies is_literal(#[trigger] nv[j]) by {
        if j < i {
        } else if j > i {
            assert(nv[j] == ov[j - 1]);
        }
    }
    assert forall|a: int, b: int|
        0 <= a < b < nv.len() implies crate::order::lex_lt(
        lit_var(#[trigger] nv[a]),
        lit_var(#[trigger] nv[b]),
    ) by {
        if a < i && b == i {
        } else if a == i && b > i {
            if b - 1 > i {
                crate::order::lemma_lex_trans(
                    lit_var(lv),
                    lit_var(ov[i]),
                    lit_var(ov[b - 1]),
                );
            }
        } else if a < i && b > i {
            assert(nv[a] == ov[a]);
            assert(nv[b] == ov[b - 1]);
        } else if a > i {
            assert(nv[a] == ov[a - 1]);
            assert(nv[b] == ov[b - 1]);
        } else {
            assert(nv[a] == ov[a]);
            assert(nv[b] == ov[b]);
        }
    }
    assert forall|v: Seq<char>, p: bool|
        has_lit(nv, v, p) == (has_lit(ov, v, p) || (v == lit_var(lv) && p == lit_pos(lv))) by {
        if has_lit(nv, v, p) {
            let k = choose|k: int|
                0 <= k < nv.len() && is_literal(#[trigger] nv[k]) && lit_var(nv[k]) == v && lit_pos(
                    nv[k],
                ) == p;
            if k < i {
                assert(has_lit(ov, v, p));
            } else if k > i {
                assert(nv[k] == ov[k - 1]);
                assert(has_lit(ov, v, p));
            }
        }
        if has_lit(ov, v, p) {
            let k = choose|k: int|
                0 <= k < ov.len() && is_literal(#[trigger] ov[k]) && lit_var(ov[k]) == v && lit_pos(
                    ov[k],
                ) == p;
            if k < i {
                assert(nv[k] == ov[k]);
                assert(has_lit(nv, v, p));
            } else {
                assert(nv[k + 1] == ov[k]);
                assert(has_lit(nv, v, p));
            }
        }
        if v == lit_var(lv) && p == lit_pos(lv) {
            assert(has_lit(nv, v, p));
        }
    }
}

impl Prod {
    /// The product's literals with duplicates removed, one per variable in
    /// name order; a variable required both true and false empties the
    /// result, as does an empty product.
    #[verifier::loop_isolation(false)]
    pub fn removed_doublons(&self) -> (r: Vec<Equation>)
        requires
            all_literals(views_of(self.inner@)),
        ensures
            all_literals(views_of(r@)),
            forall|a: int, b: int|
                0 <= a < b < r@.len() ==> crate::order::lex_lt(
                    lit_var(#[trigger] views_of(r@)[a]),
                    lit_var(#[trigger] views_of(r@)[b]),
                ),
            (r@.len() == 0) == (self.inner@.len() == 0 || contradictory(views_of(self.inner@))),
            !contradictory(views_of(self.inner@)) ==> forall|v: Seq<char>, p: bool|
                has_lit(views_of(r@), v, p) == has_lit(views_of(self.inner@), v, p),
    {
        let ghost lits = views_of(self.inner@);
        proof {
            crate::equation::lemma_all_literals_iff(lits);
        }
        let mut out: Vec<Equation> = Vec::new();
        if self.inner.len() == 0 {
            proof {
                assert(views_of(out@) =~= Seq::<Expr>::empty());
                assert forall|v: Seq<char>, p: bool|
                    !has_lit(views_of(out@), v, p) && !has_lit(lits, v, p) by {}
            }
            return out;
        }
        if has_contradiction(&self.inner) {
            proof {
                assert(views_of(out@) =~= Seq::<Expr>::empty());
            }
            return out;
        }
        let mut i: usize = 0;
        proof {
            assert(views_of(out@) =~= Seq::<Expr>::empty());
        }
        while i < self.inner.len()
            invariant
                i <= self.inner@.len(),
                all_literals(views_of(out@)),
                forall|a: int, b: int|
                    0 <= a < b < out@.len() ==> crate::order::lex_lt(
                        lit_var(#[trigger] views_of(out@)[a]),
                        lit_var(#[trigger] views_of(out@)[b]),
                    ),
                forall|v: Seq<char>, p: bool|
                    #[trigger] has_lit(views_of(out@), v, p) ==> has_lit(lits, v, p),
                forall|j: int| #![trigger lit_var(lits[j])]
                    0 <= j < i ==> exists|k: int|
                        0 <= k < out@.len() && lit_var(#[trigger] views_of(out@)[k]) == lit_var(
                            lits[j],
                        ),
                out@.len() <= i,
            decreases self.inner@.len() - i,
        {
            let ghost before = views_of(out@);
            proof {
                assert(is_literal(lits[i as int]));
            }
            let lit = self.inner[i].deep_clone();
            proof {
                assert(lit@ == lits[i as int]);
            }
            insert_literal(&mut out, lit);
            proof {
                let present = exists|j: int|
                    0 <= j < before.len() && lit_var(#[trigger] before[j]) == lit_var(
                        lits[i as int],
                    );
                if present {
                    assert(views_of(out@) == before);
                    let j0 = choose|j: int|
                        0 <= j < before.len() && lit_var(#[trigger] before[j]) == lit_var(
                            lits[i as int],
                        );
                    assert forall|j: int| #![trigger lit_var(lits[j])]
                        0 <= j < i + 1 implies exists|k: int|
                        0 <= k < out@.len() && lit_var(#[trigger] views_of(out@)[k]) == lit_var(
                            lits[j],
                        ) by {}
                } else {
                    assert forall|v: Seq<char>, p: bool|
                        #[trigger] has_lit(views_of(out@), v, p) implies has_lit(lits, v, p) by {
                        if !(v == lit_var(lits[i as int]) && p == lit_pos(lits[i as int])) {
                            assert(has_lit(before, v, p));
                        } else {
                            assert(has_lit(lits, v, p)) by {
                                assert(is_literal(lits[i as int]));
                            }
                        }
                    }
                    assert forall|j: int| #![trigger lit_var(lits[j])]
                        0 <= j < i + 1 implies exists|k: int|
                        0 <= k < out@.len() && lit_var(#[trigger] views_of(out@)[k]) == lit_var(
                            lits[j],
                        ) by {
                        if j < i {
                            let k0 = choose|k: int|
                                0 <= k < before.len() && lit_var(#[trigger] before[k]) == lit_var(
                                    lits[j],
                                );
                            assert(has_lit(before, lit_var(before[k0]), lit_pos(before[k0])))
                                by {
                                crate::equation::lemma_all_literals_iff(before);
                            }
                            assert(has_lit(views_of(out@), lit_var(before[k0]), lit_pos(
                                before[k0],
                            )));
                            let k1 = choose|k: int|
                                0 <= k < views_of(out@).len() && is_literal(
                                    #[trigger] views_of(out@)[k],
                                ) && lit_var(views_of(out@)[k]) == lit_var(before[k0]) && lit_pos(
                                    views_of(out@)[k],
                                ) == lit_pos(before[k0]);
                        } else {
                            assert(has_lit(views_of(out@), lit_var(lits[i as int]), lit_pos(
                                lits[i as int],
                            )));
                            let k1 = choose|k: int|
                                0 <= k < views_of(out@).len() && is_literal(
                                    #[trigger] views_of(out@)[k],
                                ) && lit_var(views_of(out@)[k]) == lit_var(lits[i as int])
                                    && lit_pos(views_of(out@)[k]) == lit_pos(lits[i as int]);
                        }
                    }
                }
            }
            i = i + 1;
        }
        proof {
            assert(out@.len() > 0) by {
                let v0 = lit_var(lits[0]);
                assert(exists|k: int|
                    0 <= k < out@.len() && lit_var(#[trigger] views_of(out@)[k]) == v0);
            }
            assert forall|v: Seq<char>, p: bool|
                #[trigger] has_lit(views_of(out@), v, p) == has_lit(lits, v, p) by {
                if has_lit(lits, v, p) {
                    let j = choose|j: int|
                        0 <= j < lits.len() && is_literal(#[trigger] lits[j]) && lit_var(lits[j])
                            == v && lit_pos(lits[j]) == p;
                    let k = choose|k: int|
                        0 <= k < out@.len() && lit_var(#[trigger] views_of(out@)[k]) == lit_var(
                            lits[j],
                        );
                    crate::equation::lemma_all_literals_iff(views_of(out@));
                    assert(is_literal(views_of(out@)[k]));
                    assert(has_lit(views_of(out@), v, lit_pos(views_of(out@)[k])));
                    if lit_pos(views_of(out@)[k]) != p {
                        assert(has_lit(lits, v, lit_pos(views_of(out@)[k])));
                        assert(contradictory(lits)) by {
                            if p {
                                assert(has_lit(lits, v, true) && has_lit(lits, v, false));
                            } else {
                                assert(has_lit(lits, v, true) && has_lit(lits, v, false));
                            }
                        }
                    }
                }
            }
        }
        out
    }
}

} // verus!
