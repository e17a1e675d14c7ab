use vstd::prelude::*;
use std::collections::BTreeSet;
use vstd::std_specs::cmp::OrdSpec;
use vstd::std_specs::iter::IteratorSpec;

verus! {

/// The values of `s` are strictly increasing.
pub open spec fn increasing(s: Seq<u32>) -> bool {
    forall|i: int, j: int| 0 <= i < j < s.len() ==> #[trigger] s[i] < #[trigger] s[j]
}

proof fn lemma_increasing_refs(r: Seq<&u32>)
    requires
        vstd::std_specs::btree::increasing_seq(r),
    ensures
        forall|i: int, j: int| 0 <= i < j < r.len() ==> *r[i] < *r[j],
{
    assert(vstd::laws_cmp::obeys_cmp::<&u32>());
    vstd::std_specs::btree::axiom_increasing_seq_meaning(r);
    assert forall|i: int, j: int| 0 <= i < j < r.len() implies *r[i] < *r[j] by {
        assert(OrdSpec::cmp_spec(&r[i], &r[j]) is Less);
    }
}

/// The members of a set, in increasing order.
pub fn sorted_members(s: &BTreeSet<u32>) -> (v: Vec<u32>)
    ensures
        v@.to_set() == s@,
        increasing(v@),
{
    let mut v: Vec<u32> = Vec::new();
    for x in it: s.iter()
        invariant
            v@ == it.seq().take(it.index()).map_values(|r: &u32| *r),
            it.seq() == vstd::std_specs::btree::spec_btree_keys_iter(s).remaining(),
    {
        v.push(*x);
    }
    proof {
        let r = vstd::std_specs::btree::spec_btree_keys_iter(s).remaining();
        assert(r.unref().to_set() == s@);
        assert(v@ == r.map_values(|r: &u32| *r));
        assert(r.map_values(|r: &u32| *r) =~= r.unref());
        lemma_increasing_refs(r);
    }
    v
}

} // verus!
