//! Small general lemmas about `Seq::map_values`, used to push view
//! functions through the vector operations the executable code performs.

use vstd::prelude::*;

verus! {

/// Mapping a function over a concatenation is the concatenation of the
/// mapped halves.
pub proof fn lemma_map_values_add<A, B>(a: Seq<A>, b: Seq<A>, f: spec_fn(A) -> B)
    ensures
        (a + b).map_values(f) == a.map_values(f) + b.map_values(f),
{
    assert((a + b).map_values(f) =~= a.map_values(f) + b.map_values(f));
}

/// Mapping a function over a sequence with one element appended.
pub proof fn lemma_map_values_push<A, B>(s: Seq<A>, x: A, f: spec_fn(A) -> B)
    ensures
        s.push(x).map_values(f) == s.map_values(f).push(f(x)),
{
    assert(s.push(x).map_values(f) =~= s.map_values(f).push(f(x)));
}

/// Mapping a function commutes with updating one element.
pub proof fn lemma_map_values_update<A, B>(s: Seq<A>, i: int, x: A, f: spec_fn(A) -> B)
    requires
        0 <= i < s.len(),
    ensures
        s.update(i, x).map_values(f) == s.map_values(f).update(i, f(x)),
{
    assert(s.update(i, x).map_values(f) =~= s.map_values(f).update(i, f(x)));
}

/// A sequence is a prefix of itself.
pub proof fn lemma_prefix_refl<A>(a: Seq<A>)
    ensures
        a.is_prefix_of(a),
{
    assert(a =~= a.subrange(0, a.len() as int));
}

/// Prefixes compose.
pub proof fn lemma_prefix_trans<A>(a: Seq<A>, b: Seq<A>, c: Seq<A>)
    requires
        a.is_prefix_of(b),
        b.is_prefix_of(c),
    ensures
        a.is_prefix_of(c),
{
    assert(a =~= c.subrange(0, a.len() as int));
}

/// Appending to a prefix-larger tail keeps the prefix relation.
pub proof fn lemma_prefix_append<A>(a: Seq<A>, b1: Seq<A>, b2: Seq<A>)
    requires
        b1.is_prefix_of(b2),
    ensures
        (a + b1).is_prefix_of(a + b2),
{
    assert(a + b1 =~= (a + b2).subrange(0, a.len() + b1.len() as int));
}

} // verus!
