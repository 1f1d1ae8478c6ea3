//! Facts about sequences that the rest of the crate leans on.

use vstd::prelude::*;

verus! {

/// Taking one more element appends that element.
pub proof fn lemma_take_push<A>(s: Seq<A>, i: int)
    requires
        0 <= i < s.len(),
    ensures
        s.take(i + 1) == s.take(i).push(s[i]),
        s.take(i + 1).drop_last() == s.take(i),
        s.take(i + 1).last() == s[i],
{
    assert(s.take(i + 1) =~= s.take(i).push(s[i]));
    assert(s.take(i + 1).drop_last() =~= s.take(i));
}

/// Taking everything is the sequence itself.
pub proof fn lemma_take_all<A>(s: Seq<A>)
    ensures
        s.take(s.len() as int) == s,
{
    assert(s.take(s.len() as int) =~= s);
}

/// Filtering one more element.
pub proof fn lemma_filter_step<A>(s: Seq<A>, i: int, pred: spec_fn(A) -> bool)
    requires
        0 <= i < s.len(),
    ensures
        s.take(i + 1).filter(pred) == if pred(s[i]) {
            s.take(i).filter(pred).push(s[i])
        } else {
            s.take(i).filter(pred)
        },
{
    lemma_take_push(s, i);
    s.take(i).lemma_filter_push(s[i], pred);
}

/// A filtered sequence holds exactly the elements that pass.
pub proof fn lemma_filter_member<A>(s: Seq<A>, pred: spec_fn(A) -> bool, x: A)
    ensures
        s.filter(pred).contains(x) <==> (s.contains(x) && pred(x)),
{
    broadcast use vstd::seq_lib::group_filter_ensures;

    if s.filter(pred).contains(x) {
        s.lemma_filter_contains_rev(pred, x);
        let i = choose|i: int| 0 <= i < s.filter(pred).len() && s.filter(pred)[i] == x;
        assert(pred(s.filter(pred)[i]));
    }
    if s.contains(x) && pred(x) {
        let i = choose|i: int| 0 <= i < s.len() && s[i] == x;
        assert(s.filter(pred).contains(s[i]));
    }
}

/// Membership after a push.
pub proof fn lemma_push_member<A>(s: Seq<A>, v: A, x: A)
    ensures
        s.push(v).contains(x) <==> (v == x || s.contains(x)),
{
    vstd::seq_lib::lemma_seq_contains_after_push(s, v, x);
}

/// Membership in a concatenation.
pub proof fn lemma_concat_member<A>(a: Seq<A>, b: Seq<A>, x: A)
    ensures
        (a + b).contains(x) <==> (a.contains(x) || b.contains(x)),
{
    vstd::seq_lib::lemma_seq_concat_contains_all_elements(a, b, x);
}

/// The predicate "differs from `label`".
pub open spec fn differs_from(label: usize) -> spec_fn(usize) -> bool {
    |x: usize| x != label
}

/// Mapping one more element.
pub proof fn lemma_map_step<A, B>(s: Seq<A>, i: int, f: spec_fn(A) -> B)
    requires
        0 <= i < s.len(),
    ensures
        s.take(i + 1).map_values(f) == s.take(i).map_values(f).push(f(s[i])),
{
    lemma_take_push(s, i);
    assert(s.take(i + 1).map_values(f) =~= s.take(i).map_values(f).push(f(s[i])));
}

/// A mapped sequence holds exactly the images of the elements.
pub proof fn lemma_map_member<A, B>(s: Seq<A>, f: spec_fn(A) -> B, y: B)
    ensures
        s.map_values(f).contains(y) <==> exists|i: int| 0 <= i < s.len() && f(#[trigger] s[i]) == y,
{
    if s.map_values(f).contains(y) {
        let i = choose|i: int| 0 <= i < s.map_values(f).len() && s.map_values(f)[i] == y;
        assert(f(s[i]) == y);
    }
    if exists|i: int| 0 <= i < s.len() && f(#[trigger] s[i]) == y {
        let i = choose|i: int| 0 <= i < s.len() && f(#[trigger] s[i]) == y;
        assert(s.map_values(f)[i] == y);
    }
}

/// A sequence none of whose elements passes filters to nothing.
pub proof fn lemma_filter_none<A>(s: Seq<A>, pred: spec_fn(A) -> bool)
    requires
        forall|i: int| 0 <= i < s.len() ==> !pred(#[trigger] s[i]),
    ensures
        s.filter(pred) == Seq::<A>::empty(),
{
    if s.filter(pred).len() > 0 {
        let x = s.filter(pred)[0];
        assert(s.filter(pred).contains(x));
        lemma_filter_member(s, pred, x);
        let i = choose|i: int| 0 <= i < s.len() && s[i] == x;
        assert(!pred(s[i]));
    }
    assert(s.filter(pred) =~= Seq::<A>::empty());
}

/// A sequence all of whose elements pass filters to itself.
pub proof fn lemma_filter_all<A>(s: Seq<A>, pred: spec_fn(A) -> bool)
    requires
        forall|i: int| 0 <= i < s.len() ==> pred(#[trigger] s[i]),
    ensures
        s.filter(pred) == s,
    decreases s.len(),
{
    if s.len() == 0 {
        lemma_filter_none(s, pred);
        assert(s =~= Seq::<A>::empty());
    } else {
        let rest = s.drop_last();
        assert forall|i: int| 0 <= i < rest.len() implies pred(#[trigger] rest[i]) by {
            assert(rest[i] == s[i]);
        }
        lemma_filter_all(rest, pred);
        rest.lemma_filter_push(s.last(), pred);
        assert(rest.push(s.last()) =~= s);
    }
}

} // verus!
