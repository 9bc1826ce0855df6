//! The equivalence oracle: evaluates two trees on random assignments over
//! their shared variables and reports whether every trial agreed.

use vstd::prelude::*;

use crate::assignment::Assignment;
use crate::equation::{appears, clean, eval_spec, Equation};
use crate::order::has_name;

verus! {

broadcast use {vstd::std_specs::vec::group_vec_axioms, vstd::seq::group_seq_axioms};

/// Relies on `rand::random`: a boolean drawn from the thread-local
/// generator. Nothing is promised of the value.
#[verifier::external_body]
fn random_bool() -> bool {
    rand::random()
}

/// Whether every name of `a` is a name of `b`.
#[verifier::loop_isolation(false)]
fn names_subset(a: &Vec<String>, b: &Vec<String>) -> (r: bool)
    ensures
        r == forall|n: Seq<char>| #[trigger] has_name(a@, n) ==> has_name(b@, n),
{
    let mut i: usize = 0;
    while i < a.len()
        invariant
            i <= a@.len(),
            forall|j: int| 0 <= j < i ==> has_name(b@, #[trigger] a@[j]@),
        decreases a@.len() - i,
    {
        if !contains_name(b, &a[i]) {
            proof {
                assert(has_name(a@, a@[i as int]@));
            }
            return false;
        }
        i = i + 1;
    }
    proof {
        assert forall|n: Seq<char>| #[trigger] has_name(a@, n) implies has_name(b@, n) by {
            let j = choose|j: int| 0 <= j < a@.len() && a@[j]@ == n;
            assert(has_name(b@, a@[j]@));
        }
    }
    true
}

/// Whether the list holds the name.
#[verifier::loop_isolation(false)]
fn contains_name(l: &Vec<String>, name: &String) -> (r: bool)
    ensures
        r == has_name(l@, name@),
{
    let mut i: usize = 0;
    while i < l.len()
        invariant
            i <= l@.len(),
            forall|j: int| 0 <= j < i ==> #[trigger] l@[j]@ != name@,
        decreases l@.len() - i,
    {
        if l[i].eq(name) {
            return true;
        }
        i = i + 1;
    }
    proof {
        if has_name(l@, name@) {
            let j = choose|j: int| 0 <= j < l@.len() && l@[j]@ == name@;
            assert(false);
        }
    }
    false
}

impl Equation {
    /// Draws `tests` random assignments over the shared variables and
    /// checks that the two trees always agree; trees over different
    /// variable sets disagree outright. Two logically equal trees over the
    /// same variables always pass.
    #[verifier::loop_isolation(false)]
    pub fn compare_random_values(&self, other: &Equation, tests: usize) -> (r: bool)
        requires
            clean(self@),
            clean(other@),
        ensures
            ((forall|m: Map<Seq<char>, bool>|
                #[trigger] eval_spec(self@, m) == eval_spec(other@, m)) && (forall|n: Seq<char>|
                #[trigger] appears(self@, n) == appears(other@, n))) ==> r,
            (exists|n: Seq<char>| #[trigger] appears(self@, n) != appears(other@, n)) ==> !r,
    {
        let vars = other.get_vars();
        let own_vars = self.get_vars();
        let sub1 = names_subset(&own_vars, &vars);
        let sub2 = names_subset(&vars, &own_vars);
        proof {
            if sub1 && sub2 {
                assert forall|n: Seq<char>|
                    #[trigger] appears(self@, n) == appears(other@, n) by {
                    if appears(self@, n) {
                        assert(has_name(own_vars@, n));
                        assert(has_name(vars@, n));
                    }
                    if appears(other@, n) {
                        assert(has_name(vars@, n));
                        assert(has_name(own_vars@, n));
                    }
                }
            }
        }
        if !sub1 || !sub2 {
            proof {
                if (forall|n: Seq<char>| #[trigger] appears(self@, n) == appears(other@, n)) {
                    assert forall|n: Seq<char>|
                        #[trigger] has_name(own_vars@, n) implies has_name(vars@, n) by {
                        assert(appears(self@, n));
                        assert(appears(other@, n));
                    }
                    assert forall|n: Seq<char>|
                        #[trigger] has_name(vars@, n) implies has_name(own_vars@, n) by {
                        assert(appears(other@, n));
                        assert(appears(self@, n));
                    }
                }
            }
            return false;
        }
        let mut t: usize = 0;
        while t < tests
            invariant
                t <= tests,
                forall|n: Seq<char>| #[trigger] has_name(own_vars@, n) ==> has_name(vars@, n),
            decreases tests - t,
        {
            let mut vals = Assignment::new();
            let mut i: usize = 0;
            while i < vars.len()
                invariant
                    i <= vars@.len(),
                    forall|j: int| 0 <= j < i ==> vals@.dom().contains(#[trigger] vars@[j]@),
                decreases vars@.len() - i,
            {
                let b = random_bool();
                let name = vars[i].clone();
                vals.insert(name, b);
                proof {
                    assert forall|j: int|
                        0 <= j < i + 1 implies vals@.dom().contains(#[trigger] vars@[j]@) by {}
                }
                i = i + 1;
            }
            proof {
                assert forall|n: Seq<char>|
                    appears(other@, n) implies #[trigger] vals@.dom().contains(n) by {
                    assert(has_name(vars@, n));
                    let j = choose|j: int| 0 <= j < vars@.len() && vars@[j]@ == n;
                }
                assert forall|n: Seq<char>|
                    appears(self@, n) implies #[trigger] vals@.dom().contains(n) by {
                    assert(has_name(own_vars@, n));
                    assert(has_name(vars@, n));
                    let j = choose|j: int| 0 <= j < vars@.len() && vars@[j]@ == n;
                }
            }
            let a = other.eval(&vals);
            let b = self.eval(&vals);
            if a != b {
                return false;
            }
            t = t + 1;
        }
        true
    }
}

} // verus!
