//! Sequences without repetition, and the sets that they list.

use vstd::prelude::*;

verus! {

/// A sequence without repetition that stays inside a finite set and is as long
/// as the set is large holds every element of the set.
pub proof fn lemma_seq_fills_set<A>(s: Seq<A>, t: Set<A>)
    requires
        s.no_duplicates(),
        t.finite(),
        s.len() == t.len(),
        forall|i: int| 0 <= i < s.len() ==> t.contains(#[trigger] s[i]),
    ensures
        forall|a: A| s.contains(a) <==> t.contains(a),
{
    s.unique_seq_to_set();
    assert(s.to_set().subset_of(t)) by {
        assert forall|a: A| s.to_set().contains(a) implies t.contains(a) by {
            let i = choose|i: int| 0 <= i < s.len() && s[i] == a;
            assert(t.contains(s[i]));
        }
    }
    vstd::set_lib::lemma_set_subset_finite(t, s.to_set());
    vstd::set_lib::lemma_subset_equality(s.to_set(), t);
    assert forall|a: A| s.contains(a) <==> t.contains(a) by {
        assert(s.to_set().contains(a) <==> t.contains(a));
    }
}

/// Whether `s` lists the elements of `t`, each once.
pub open spec fn enumerates<A>(s: Seq<A>, t: Set<A>) -> bool {
    &&& s.no_duplicates()
    &&& forall|a: A| s.contains(a) <==> t.contains(a)
}

/// A set that a sequence lists is finite and has the length of the sequence
/// as its size.
pub proof fn lemma_enumerated_len<A>(s: Seq<A>, t: Set<A>)
    requires
        enumerates(s, t),
    ensures
        t.finite(),
        t.len() == s.len(),
{
    s.unique_seq_to_set();
    vstd::seq_lib::seq_to_set_is_finite(s);
    assert(s.to_set() =~= t);
}

/// A sequence without repetition that stays inside a finite set is no longer
/// than the set is large.
pub proof fn lemma_seq_within_set<A>(s: Seq<A>, t: Set<A>)
    requires
        s.no_duplicates(),
        t.finite(),
        forall|i: int| 0 <= i < s.len() ==> t.contains(#[trigger] s[i]),
    ensures
        s.len() <= t.len(),
{
    s.unique_seq_to_set();
    assert(s.to_set().subset_of(t)) by {
        assert forall|a: A| s.to_set().contains(a) implies t.contains(a) by {
            let i = choose|i: int| 0 <= i < s.len() && s[i] == a;
            assert(t.contains(s[i]));
        }
    }
    vstd::set_lib::lemma_len_subset(s.to_set(), t);
}

/// Returns a vector with the items of `items`, in their order.
pub fn copy_of<T: Copy>(items: &Vec<T>) -> (copy: Vec<T>)
    ensures
        copy@ == items@,
{
    let mut copy: Vec<T> = Vec::with_capacity(items.len());
    let mut i: usize = 0;
    while i < items.len()
        invariant
            i <= items.len(),
            copy@ == items@.take(i as int),
        decreases items.len() - i,
    {
        copy.push(items[i]);
        assert(items@.take(i + 1) =~= items@.take(i as int).push(items@[i as int]));
        i += 1;
    }
    assert(items@.take(items@.len() as int) =~= items@);
    copy
}

} // verus!
