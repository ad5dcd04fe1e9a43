use vstd::prelude::*;

verus! {

/// Membership in a sequence extended by one element.
pub proof fn lemma_contains_push<A>(s: Seq<A>, x: A)
    ensures
        forall|p: A| s.push(x).contains(p) <==> s.contains(p) || p == x,
{
    assert forall|p: A| s.push(x).contains(p) implies s.contains(p) || p == x by {
        let w = choose|w: int| 0 <= w < s.push(x).len() && s.push(x)[w] == p;
        if w < s.len() {
            assert(s[w] == p);
        }
    }
    assert forall|p: A| s.contains(p) || p == x implies s.push(x).contains(p) by {
        if s.contains(p) {
            let w = choose|w: int| 0 <= w < s.len() && s[w] == p;
            assert(s.push(x)[w] == p);
        } else {
            assert(s.push(x)[s.len() as int] == p);
        }
    }
}

/// Membership in one more step of a prefix.
pub proof fn lemma_contains_take_step<A>(s: Seq<A>, i: int)
    requires
        0 <= i < s.len(),
    ensures
        forall|p: A| s.take(i + 1).contains(p) <==> s.take(i).contains(p) || p == s[i],
{
    assert(s.take(i + 1) =~= s.take(i).push(s[i]));
    lemma_contains_push(s.take(i), s[i]);
}

/// Reversal distributes over concatenation, swapping the halves.
pub proof fn lemma_reverse_add<A>(a: Seq<A>, b: Seq<A>)
    ensures
        (a + b).reverse() == b.reverse() + a.reverse(),
{
    assert((a + b).reverse() =~= b.reverse() + a.reverse());
}

} // verus!
