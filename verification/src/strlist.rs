//! Lists of strings used as ordered sets: membership, adding an entry once,
//! and removing every copy of an entry.
use vstd::prelude::*;
use crate::text::{chars_of, range_eq};

verus! {

/// The views of a sequence of strings.
pub open spec fn views(v: Seq<String>) -> Seq<Seq<char>> {
    v.map_values(|s: String| s@)
}

/// `s` with `x` appended, unless `s` already holds it.
pub open spec fn inserted(s: Seq<Seq<char>>, x: Seq<char>) -> Seq<Seq<char>> {
    if s.contains(x) {
        s
    } else {
        s.push(x)
    }
}

/// The test "differs from `x`".
pub open spec fn differs_from(x: Seq<char>) -> spec_fn(Seq<char>) -> bool {
    |p: Seq<char>| p != x
}

/// `s` without any copy of `x`, the rest in order.
pub open spec fn removed(s: Seq<Seq<char>>, x: Seq<char>) -> Seq<Seq<char>> {
    s.filter(differs_from(x))
}

/// Whether two strings are equal.
pub fn str_eq(a: &str, b: &str) -> (r: bool)
    ensures
        r == (a@ == b@),
{
    let ac = chars_of(a);
    let bc = chars_of(b);
    assert(ac@.subrange(0, ac.len() as int) =~= ac@);
    range_eq(&ac, 0, ac.len(), &bc)
}

/// Whether `v` holds a string equal to `x`.
pub fn contains_str(v: &Vec<String>, x: &str) -> (r: bool)
    ensures
        r == views(v@).contains(x@),
{
    let mut i: usize = 0;
    while i < v.len()
        invariant
            i <= v.len(),
            forall|j: int| 0 <= j < i ==> v@[j]@ != x@,
        decreases v.len() - i,
    {
        if str_eq(v[i].as_str(), x) {
            assert(views(v@)[i as int] == x@);
            return true;
        }
        i = i + 1;
    }
    assert forall|j: int| 0 <= j < views(v@).len() implies views(v@)[j] != x@ by {
        assert(views(v@)[j] == v@[j]@);
    }
    false
}

/// Appends `x` to `v` unless `v` already holds it.
pub fn insert_str(v: &mut Vec<String>, x: String)
    ensures
        views(final(v)@) == inserted(views(old(v)@), x@),
{
    if !contains_str(v, x.as_str()) {
        v.push(x);
        assert(views(v@) =~= views(old(v)@).push(x@));
    }
}

/// Removes from `v` every string equal to `x`, keeping the others in order.
pub fn remove_str(v: &mut Vec<String>, x: &str)
    ensures
        views(final(v)@) == removed(views(old(v)@), x@),
{
    let mut kept: Vec<String> = Vec::new();
    let mut i: usize = 0;
    let ghost s = views(v@);
    while i < v.len()
        invariant
            i <= v.len(),
            s == views(v@),
            views(kept@) == s.take(i as int).filter(differs_from(x@)),
        decreases v.len() - i,
    {
        let ghost before = kept@;
        proof {
            reveal(Seq::filter);
            assert(s.take(i + 1).drop_last() =~= s.take(i as int));
            assert(s.take(i + 1).last() == s[i as int]);
        }
        if !str_eq(v[i].as_str(), x) {
            kept.push(v[i].clone());
            assert(views(kept@) =~= views(before).push(s[i as int]));
        }
        i = i + 1;
    }
    assert(s.take(s.len() as int) =~= s);
    *v = kept;
}

/// Adding an entry that a list already holds leaves the list as it is, and
/// after adding an entry the list holds it.
pub proof fn lemma_inserted_contains(s: Seq<Seq<char>>, x: Seq<char>)
    ensures
        inserted(s, x).contains(x),
        s.contains(x) ==> inserted(s, x) == s,
        forall|y: Seq<char>| s.contains(y) ==> inserted(s, x).contains(y),
{
    if !s.contains(x) {
        assert(s.push(x)[s.len() as int] == x);
        assert forall|y: Seq<char>| s.contains(y) implies s.push(x).contains(y) by {
            let i = choose|i: int| 0 <= i < s.len() && s[i] == y;
            assert(s.push(x)[i] == y);
        }
    }
}

/// After removing an entry the list no longer holds it, and every other
/// entry stays.
pub proof fn lemma_removed_contains(s: Seq<Seq<char>>, x: Seq<char>)
    ensures
        !removed(s, x).contains(x),
        forall|y: Seq<char>| y != x ==> (removed(s, x).contains(y) <==> s.contains(y)),
{
    broadcast use vstd::seq_lib::group_filter_ensures;

    if removed(s, x).contains(x) {
        let i = choose|i: int| 0 <= i < removed(s, x).len() && removed(s, x)[i] == x;
        assert(false);
    }
    assert forall|y: Seq<char>| y != x implies (removed(s, x).contains(y) <==> s.contains(y)) by {
        if s.contains(y) {
            let i = choose|i: int| 0 <= i < s.len() && s[i] == y;
            s.lemma_filter_contains(differs_from(x), i);
        }
        if removed(s, x).contains(y) {
            s.lemma_filter_contains_rev(differs_from(x), y);
        }
    }
}

/// `s` after inserting each of `xs` in turn (see [`inserted`]).
pub open spec fn inserted_all(s: Seq<Seq<char>>, xs: Seq<Seq<char>>) -> Seq<Seq<char>>
    decreases xs.len(),
{
    if xs.len() == 0 {
        s
    } else {
        inserted(inserted_all(s, xs.drop_last()), xs.last())
    }
}

/// `s` after removing each of `xs` in turn (see [`removed`]).
pub open spec fn removed_all(s: Seq<Seq<char>>, xs: Seq<Seq<char>>) -> Seq<Seq<char>>
    decreases xs.len(),
{
    if xs.len() == 0 {
        s
    } else {
        removed(removed_all(s, xs.drop_last()), xs.last())
    }
}

/// Inserts each of `xs` into `v` in turn.
pub fn insert_all(v: &mut Vec<String>, xs: &Vec<String>)
    ensures
        views(final(v)@) == inserted_all(views(old(v)@), views(xs@)),
{
    let mut i: usize = 0;
    while i < xs.len()
        invariant
            i <= xs.len(),
            views(v@) == inserted_all(views(old(v)@), views(xs@).take(i as int)),
        decreases xs.len() - i,
    {
        proof {
            assert(views(xs@).take(i + 1).drop_last() =~= views(xs@).take(i as int));
            assert(views(xs@).take(i + 1).last() == xs@[i as int]@);
        }
        insert_str(v, xs[i].clone());
        i = i + 1;
    }
    assert(views(xs@).take(xs.len() as int) =~= views(xs@));
}

/// Removes each of `xs` from `v` in turn.
pub fn remove_all(v: &mut Vec<String>, xs: &Vec<String>)
    ensures
        views(final(v)@) == removed_all(views(old(v)@), views(xs@)),
{
    let mut i: usize = 0;
    while i < xs.len()
        invariant
            i <= xs.len(),
            views(v@) == removed_all(views(old(v)@), views(xs@).take(i as int)),
        decreases xs.len() - i,
    {
        proof {
            assert(views(xs@).take(i + 1).drop_last() =~= views(xs@).take(i as int));
            assert(views(xs@).take(i + 1).last() == xs@[i as int]@);
        }
        remove_str(v, xs[i].as_str());
        i = i + 1;
    }
    assert(views(xs@).take(xs.len() as int) =~= views(xs@));
}

/// The entries of `xs` that `ys` does not hold, in order.
pub open spec fn absent_from(xs: Seq<Seq<char>>, ys: Seq<Seq<char>>) -> Seq<Seq<char>>
    decreases xs.len(),
{
    if xs.len() == 0 {
        seq![]
    } else {
        let rest = absent_from(xs.drop_last(), ys);
        if ys.contains(xs.last()) {
            rest
        } else {
            rest.push(xs.last())
        }
    }
}

/// The entries of `xs` that `ys` does not hold, in order (see
/// [`absent_from`]).
pub fn keep_absent(xs: &Vec<String>, ys: &Vec<String>) -> (out: Vec<String>)
    ensures
        views(out@) == absent_from(views(xs@), views(ys@)),
{
    let mut out: Vec<String> = Vec::new();
    let mut i: usize = 0;
    while i < xs.len()
        invariant
            i <= xs.len(),
            views(out@) == absent_from(views(xs@).take(i as int), views(ys@)),
        decreases xs.len() - i,
    {
        proof {
            assert(views(xs@).take(i + 1).drop_last() =~= views(xs@).take(i as int));
            assert(views(xs@).take(i + 1).last() == xs@[i as int]@);
        }
        if !contains_str(ys, xs[i].as_str()) {
            let ghost before = out@;
            out.push(xs[i].clone());
            assert(views(out@) =~= views(before).push(xs@[i as int]@));
        }
        i = i + 1;
    }
    assert(views(xs@).take(xs.len() as int) =~= views(xs@));
    out
}

/// After inserting each of `xs`, the list holds every one of them and every
/// entry it held before.
pub proof fn lemma_inserted_all_contains(s: Seq<Seq<char>>, xs: Seq<Seq<char>>)
    ensures
        forall|x: Seq<char>| xs.contains(x) ==> inserted_all(s, xs).contains(x),
        forall|y: Seq<char>| s.contains(y) ==> inserted_all(s, xs).contains(y),
    decreases xs.len(),
{
    if xs.len() > 0 {
        lemma_inserted_all_contains(s, xs.drop_last());
        lemma_inserted_contains(inserted_all(s, xs.drop_last()), xs.last());
        assert forall|x: Seq<char>| xs.contains(x) implies inserted_all(s, xs).contains(x) by {
            let i = choose|i: int| 0 <= i < xs.len() && xs[i] == x;
            if i < xs.len() - 1 {
                assert(xs.drop_last()[i] == x);
                assert(xs.drop_last().contains(x));
            } else {
                assert(x == xs.last());
            }
        }
    }
}

/// After removing each of `xs`, the list holds none of them, and holds
/// exactly the other entries it held before.
pub proof fn lemma_removed_all_contains(s: Seq<Seq<char>>, xs: Seq<Seq<char>>)
    ensures
        forall|x: Seq<char>| xs.contains(x) ==> !removed_all(s, xs).contains(x),
        forall|y: Seq<char>| !xs.contains(y) ==> (removed_all(s, xs).contains(y) <==> s.contains(y)),
    decreases xs.len(),
{
    if xs.len() > 0 {
        let prev = removed_all(s, xs.drop_last());
        lemma_removed_all_contains(s, xs.drop_last());
        lemma_removed_contains(prev, xs.last());
        assert forall|x: Seq<char>| xs.contains(x) implies !removed_all(s, xs).contains(x) by {
            let i = choose|i: int| 0 <= i < xs.len() && xs[i] == x;
            if x != xs.last() {
                assert(xs.drop_last()[i] == x);
                assert(xs.drop_last().contains(x));
                assert(!prev.contains(x));
            }
        }
        assert forall|y: Seq<char>| !xs.contains(y) implies (removed_all(s, xs).contains(y)
            <==> s.contains(y)) by {
            if xs.drop_last().contains(y) {
                let i = choose|i: int| 0 <= i < xs.drop_last().len() && xs.drop_last()[i] == y;
                assert(xs[i] == y);
            }
            assert(y != xs.last());
        }
    }
}

/// An entry is kept by [`absent_from`] exactly when the first list holds it
/// and the second does not.
pub proof fn lemma_absent_from_contains(xs: Seq<Seq<char>>, ys: Seq<Seq<char>>)
    ensures
        forall|x: Seq<char>|
            absent_from(xs, ys).contains(x) <==> (xs.contains(x) && !ys.contains(x)),
    decreases xs.len(),
{
    if xs.len() > 0 {
        lemma_absent_from_contains(xs.drop_last(), ys);
        let rest = absent_from(xs.drop_last(), ys);
        let last = xs.last();
        assert forall|x: Seq<char>| absent_from(xs, ys).contains(x) <==> (xs.contains(x)
            && !ys.contains(x)) by {
            let in_prefix = xs.drop_last().contains(x);
            assert(xs.contains(x) <==> (in_prefix || x == last)) by {
                if xs.contains(x) {
                    let i = choose|i: int| 0 <= i < xs.len() && xs[i] == x;
                    if i < xs.len() - 1 {
                        assert(xs.drop_last()[i] == x);
                    }
                }
                if in_prefix {
                    let i = choose|i: int| 0 <= i < xs.drop_last().len() && xs.drop_last()[i] == x;
                    assert(xs[i] == x);
                }
                if x == last {
                    assert(xs[xs.len() - 1] == x);
                }
            }
            if !ys.contains(last) {
                assert(rest.push(last).contains(x) <==> (rest.contains(x) || x == last)) by {
                    if rest.push(last).contains(x) {
                        let i = choose|i: int| 0 <= i < rest.push(last).len() && rest.push(last)[i]
                            == x;
                        if i < rest.len() {
                            assert(rest[i] == x);
                        }
                    }
                    if rest.contains(x) {
                        let i = choose|i: int| 0 <= i < rest.len() && rest[i] == x;
                        assert(rest.push(last)[i] == x);
                    }
                    if x == last {
                        assert(rest.push(last)[rest.len() as int] == x);
                    }
                }
            }
        }
    }
}

} // verus!
