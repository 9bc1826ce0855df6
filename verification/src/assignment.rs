//! A truth assignment: a finite map from variable names to boolean values,
//! with the entry added last taking precedence.

use vstd::prelude::*;

verus! {

/// The map described by a list of (name, value) pairs, later pairs winning.
pub open spec fn map_of(s: Seq<(String, bool)>) -> Map<Seq<char>, bool>
    decreases s.len(),
{
    if s.len() == 0 {
        Map::empty()
    } else {
        map_of(s.drop_last()).insert(s.last().0@, s.last().1)
    }
}

/// A truth assignment for variables, looked up by name.
pub struct Assignment {
    pub pairs: Vec<(String, bool)>,
}

impl View for Assignment {
    type V = Map<Seq<char>, bool>;

    open spec fn view(&self) -> Map<Seq<char>, bool> {
        map_of(self.pairs@)
    }
}

impl Assignment {
    /// An assignment with no variables.
    pub fn new() -> (r: Assignment)
        ensures
            r@ == Map::<Seq<char>, bool>::empty(),
    {
        Assignment { pairs: Vec::new() }
    }

    /// Binds `name` to `value`, replacing any earlier binding.
    pub fn insert(&mut self, name: String, value: bool)
        ensures
            final(self)@ == old(self)@.insert(name@, value),
    {
        let ghost orig = self.pairs@;
        self.pairs.push((name, value));
        proof {
            assert(self.pairs@.drop_last() =~= orig);
        }
    }

    /// The value bound to `name`, if any.
    #[verifier::loop_isolation(false)]
    pub fn get(&self, name: &String) -> (r: Option<bool>)
        ensures
            r == if self@.dom().contains(name@) {
                Some(self@[name@])
            } else {
                None::<bool>
            },
    {
        let mut i: usize = self.pairs.len();
        proof {
            assert(self.pairs@.subrange(0, self.pairs@.len() as int) =~= self.pairs@);
        }
        while i > 0
            invariant
                i <= self.pairs@.len(),
                self@.dom().contains(name@) == map_of(
                    self.pairs@.subrange(0, i as int),
                ).dom().contains(name@),
                self@.dom().contains(name@) ==> self@[name@] == map_of(
                    self.pairs@.subrange(0, i as int),
                )[name@],
            decreases i,
        {
            i = i - 1;
            proof {
                assert(self.pairs@.subrange(0, i + 1).drop_last() =~= self.pairs@.subrange(
                    0,
                    i as int,
                ));
                assert(self.pairs@.subrange(0, i + 1).last() == self.pairs@[i as int]);
            }
            if self.pairs[i].0.eq(name) {
                return Some(self.pairs[i].1);
            }
        }
        proof {
            assert(self.pairs@.subrange(0, 0) =~= Seq::<(String, bool)>::empty());
        }
        None
    }
}

} // verus!
