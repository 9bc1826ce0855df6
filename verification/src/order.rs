//! Lexicographic order on variable names, and insertion into a sorted,
//! duplicate-free list of names.

use vstd::prelude::*;

verus! {

/// Strict lexicographic order on character sequences, by code point.
pub open spec fn lex_lt(a: Seq<char>, b: Seq<char>) -> bool
    decreases a.len(),
{
    if b.len() == 0 {
        false
    } else if a.len() == 0 {
        true
    } else if a[0] != b[0] {
        (a[0] as u32) < (b[0] as u32)
    } else {
        lex_lt(a.drop_first(), b.drop_first())
    }
}

/// Two names that neither precedes are the same name.
pub proof fn lemma_lex_total(a: Seq<char>, b: Seq<char>)
    requires
        !lex_lt(a, b),
        !lex_lt(b, a),
    ensures
        a == b,
    decreases a.len(),
{
    if a.len() == 0 || b.len() == 0 {
        assert(a =~= b);
    } else if a[0] == b[0] {
        lemma_lex_total(a.drop_first(), b.drop_first());
        assert(a =~= seq![a[0]] + a.drop_first());
        assert(b =~= seq![a[0]] + b.drop_first());
    } else {
        assert((a[0] as u32) != (b[0] as u32)) by {
            if (a[0] as u32) == (b[0] as u32) {
                vstd::utf8::char_u32_cast(a[0], a[0] as u32);
                vstd::utf8::char_u32_cast(b[0], b[0] as u32);
            }
        }
    }
}

/// Lexicographic order is transitive.
pub proof fn lemma_lex_trans(a: Seq<char>, b: Seq<char>, c: Seq<char>)
    requires
        lex_lt(a, b),
        lex_lt(b, c),
    ensures
        lex_lt(a, c),
    decreases a.len(),
{
    if a.len() == 0 {
    } else if b.len() == 0 {
    } else if c.len() == 0 {
    } else {
        if a[0] == b[0] && b[0] == c[0] {
            lemma_lex_trans(a.drop_first(), b.drop_first(), c.drop_first());
        } else if a[0] == c[0] {
            assert((a[0] as u32) <= (b[0] as u32));
            assert((b[0] as u32) <= (a[0] as u32));
            assert(a[0] == b[0]);
        }
    }
}

/// A name never precedes itself.
pub proof fn lemma_lex_irrefl(a: Seq<char>)
    ensures
        !lex_lt(a, a),
    decreases a.len(),
{
    if a.len() > 0 {
        lemma_lex_irrefl(a.drop_first());
    }
}

/// Equal prefixes do not decide the lexicographic order.
proof fn lemma_lex_skip(a: Seq<char>, b: Seq<char>, i: int)
    requires
        0 <= i <= a.len(),
        i <= b.len(),
        forall|j: int| 0 <= j < i ==> a[j] == b[j],
    ensures
        lex_lt(a, b) == lex_lt(a.skip(i), b.skip(i)),
    decreases i,
{
    if i == 0 {
        assert(a.skip(0) =~= a);
        assert(b.skip(0) =~= b);
    } else {
        assert(a[0] == b[0]);
        assert(lex_lt(a, b) == lex_lt(a.drop_first(), b.drop_first()));
        lemma_lex_skip(a.drop_first(), b.drop_first(), i - 1);
        assert(a.drop_first().skip(i - 1) =~= a.skip(i));
        assert(b.drop_first().skip(i - 1) =~= b.skip(i));
    }
}

/// Whether the first name precedes the second lexicographically.
#[verifier::loop_isolation(false)]
pub(crate) fn str_lt(a: &String, b: &String) -> (r: bool)
    ensures
        r == lex_lt(a@, b@),
{
    let ca = crate::lexer::chars_of(a.as_str());
    let cb = crate::lexer::chars_of(b.as_str());
    let mut i: usize = 0;
    while i < ca.len() && i < cb.len()
        invariant
            i <= ca@.len(),
            i <= cb@.len(),
            ca@ == a@,
            cb@ == b@,
            forall|j: int| 0 <= j < i ==> a@[j] == b@[j],
        decreases ca@.len() - i,
    {
        if ca[i] != cb[i] {
            proof {
                lemma_lex_skip(a@, b@, i as int);
                assert(a@.skip(i as int)[0] == a@[i as int]);
                assert(b@.skip(i as int)[0] == b@[i as int]);
                assert(a@.skip(i as int).len() > 0);
                assert(b@.skip(i as int).len() > 0);
            }
            return (ca[i] as u32) < (cb[i] as u32);
        }
        i = i + 1;
    }
    proof {
        lemma_lex_skip(a@, b@, i as int);
        if i == a@.len() {
            assert(a@.skip(i as int) =~= Seq::<char>::empty());
        } else {
            assert(i == b@.len());
            assert(b@.skip(i as int) =~= Seq::<char>::empty());
            assert(a@.skip(i as int).len() > 0);
        }
    }
    i == ca.len() && i < cb.len()
}

/// Whether some entry of `s` is the name `n`.
pub open spec fn has_name(s: Seq<String>, n: Seq<char>) -> bool {
    exists|i: int| 0 <= i < s.len() && s[i]@ == n
}

/// The list is strictly sorted, so each name occurs at most once.
pub open spec fn sorted_names(s: Seq<String>) -> bool {
    forall|i: int, j: int| 0 <= i < j < s.len() ==> lex_lt(#[trigger] s[i]@, #[trigger] s[j]@)
}

/// Inserts `name` into a sorted, duplicate-free list of names, keeping it
/// sorted; a name already present is not added again.
pub(crate) fn insert_name(acc: &mut Vec<String>, name: &String)
    requires
        sorted_names(old(acc)@),
    ensures
        sorted_names(final(acc)@),
        forall|n: Seq<char>|
            has_name(final(acc)@, n) <==> (has_name(old(acc)@, n) || n == name@),
{
    let ghost orig = acc@;
    let mut i: usize = 0;
    while i < acc.len()
        invariant
            acc@ == orig,
            orig == old(acc)@,
            sorted_names(orig),
            i <= orig.len(),
            forall|j: int| 0 <= j < i ==> lex_lt(#[trigger] orig[j]@, name@),
        decreases orig.len() - i,
    {
        if !str_lt(&acc[i], name) {
            if !str_lt(name, &acc[i]) {
                proof {
                    lemma_lex_total(name@, orig[i as int]@);
                    assert(orig[i as int]@ == name@);
                    assert(has_name(orig, name@));
                    assert forall|n: Seq<char>|
                        has_name(acc@, n) <==> (has_name(orig, n) || n == name@) by {
                        if n == name@ {
                            assert(has_name(orig, n));
                        }
                    }
                }
                return ;
            }
            let cloned = name.clone();
            acc.insert(i, cloned);
            proof {
                assert(acc@ == orig.insert(i as int, cloned));
                assert(acc@[i as int] == cloned);
                assert(forall|j: int| 0 <= j < i ==> #[trigger] acc@[j] == orig[j]);
                assert(forall|j: int| i < j < acc@.len() ==> #[trigger] acc@[j] == orig[j - 1]);
                lemma_insert_keeps_order(orig, acc@, name@, i as int);
            }
            return ;
        }
        i = i + 1;
    }
    let cloned = name.clone();
    acc.push(cloned);
    proof {
        lemma_insert_keeps_order(orig, acc@, name@, orig.len() as int);
    }
}

/// After placing `name` at position `i` of a sorted list, where everything
/// before `i` precedes it and the old occupant of `i` (if any) follows it,
/// the list is still sorted and holds exactly the old names plus `name`.
proof fn lemma_insert_keeps_order(orig: Seq<String>, upd: Seq<String>, name: Seq<char>, i: int)
    requires
        sorted_names(orig),
        0 <= i <= orig.len(),
        upd.len() == orig.len() + 1,
        forall|j: int| 0 <= j < i ==> #[trigger] upd[j] == orig[j],
        forall|j: int| i < j < upd.len() ==> #[trigger] upd[j] == orig[j - 1],
        upd[i]@ == name,
        forall|j: int| 0 <= j < i ==> lex_lt(#[trigger] orig[j]@, name),
        i < orig.len() ==> lex_lt(name, orig[i]@),
    ensures
        sorted_names(upd),
        forall|n: Seq<char>| has_name(upd, n) <==> (has_name(orig, n) || n == name),
{
    assert forall|a: int, b: int| 0 <= a < b < upd.len() implies lex_lt(
        #[trigger] upd[a]@,
        #[trigger] upd[b]@,
    ) by {
        if a < i && b == i {
        } else if a == i && b > i {
            if i < b - 1 + 1 && b - 1 > i - 1 {
                if b - 1 == i {
                } else {
                    lemma_lex_trans(name, orig[i]@, orig[b - 1]@);
                }
            }
        } else if a < i && b > i {
            assert(upd[a] == orig[a]);
            assert(upd[b] == orig[b - 1]);
        }
    }
    assert forall|n: Seq<char>| has_name(upd, n) <==> (has_name(orig, n) || n == name) by {
        if has_name(upd, n) {
            let k = choose|k: int| 0 <= k < upd.len() && upd[k]@ == n;
            if k < i {
                assert(orig[k]@ == n);
            } else if k > i {
                assert(orig[k - 1]@ == n);
            }
        }
        if has_name(orig, n) {
            let k = choose|k: int| 0 <= k < orig.len() && orig[k]@ == n;
            if k < i {
                assert(upd[k]@ == n);
            } else {
                assert(upd[k + 1]@ == n);
            }
        }
        if n == name {
            assert(upd[i]@ == n);
        }
    }
}

} // verus!
