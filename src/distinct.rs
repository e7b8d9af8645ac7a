//! Order-preserving removal of repeated values, and facts about it.
use itertools::Itertools;
use crate::replication::labels_view;
use vstd::prelude::*;

verus! {

/// The values of `s` in order, each kept at its first occurrence only.
pub open spec fn dedup<A>(s: Seq<A>) -> Seq<A>
    decreases s.len(),
{
    if s.len() == 0 {
        Seq::empty()
    } else if s.drop_last().contains(s.last()) {
        dedup(s.drop_last())
    } else {
        dedup(s.drop_last()).push(s.last())
    }
}

/// Relies on itertools::Itertools::unique: it yields each value the first
/// time it is met and skips it afterwards, keeping the input order.
#[verifier::external_body]
pub(crate) fn unique_indices(v: &Vec<usize>) -> (r: Vec<usize>)
    ensures
        r@ == dedup(v@),
{
    v.iter().copied().unique().collect()
}

/// Relies on itertools::Itertools::unique on optional labels: two labels are
/// the same value exactly when both are absent or both hold the same text;
/// each value is yielded the first time it is met, in input order.
#[verifier::external_body]
pub(crate) fn unique_labels(v: &Vec<Option<String>>) -> (r: Vec<Option<String>>)
    ensures
        labels_view(r@) == dedup(labels_view(v@)),
{
    v.iter().cloned().unique().collect()
}

/// Removing repeats keeps exactly the values that were there.
pub proof fn lemma_dedup_to_set<A>(s: Seq<A>)
    ensures
        dedup(s).to_set() == s.to_set(),
        dedup(s).no_duplicates(),
    decreases s.len(),
{
    if s.len() > 0 {
        let p = s.drop_last();
        lemma_dedup_to_set(p);
        assert(s == p.push(s.last()));
        if p.contains(s.last()) {
            assert(dedup(s).to_set() =~= s.to_set()) by {
                assert forall|x: A| s.to_set().contains(x) implies p.to_set().contains(x) by {
                    let i = choose|i: int| 0 <= i < s.len() && s[i] == x;
                    if i == s.len() - 1 {
                        let j = choose|j: int| 0 <= j < p.len() && p[j] == x;
                        assert(p.to_set().contains(p[j]));
                    } else {
                        assert(p[i] == x);
                    }
                }
                assert forall|x: A| p.to_set().contains(x) implies s.to_set().contains(x) by {
                    let i = choose|i: int| 0 <= i < p.len() && p[i] == x;
                    assert(s[i] == x);
                }
            }
        } else {
            let d = dedup(p);
            assert(!d.contains(s.last())) by {
                if d.contains(s.last()) {
                    let j = choose|j: int| 0 <= j < d.len() && d[j] == s.last();
                    assert(d.to_set().contains(d[j]));
                    assert(p.to_set().contains(s.last()));
                }
            }
            assert(dedup(s).to_set() =~= s.to_set()) by {
                assert forall|x: A| s.to_set().contains(x) implies dedup(s).to_set().contains(x) by {
                    let i = choose|i: int| 0 <= i < s.len() && s[i] == x;
                    if i == s.len() - 1 {
                        assert(dedup(s)[d.len() as int] == x);
                    } else {
                        assert(p[i] == x);
                        assert(p.to_set().contains(x));
                        assert(d.to_set().contains(x));
                        let j = choose|j: int| 0 <= j < d.len() && d[j] == x;
                        assert(dedup(s)[j] == x);
                    }
                }
                assert forall|x: A| dedup(s).to_set().contains(x) implies s.to_set().contains(x) by {
                    let i = choose|i: int| 0 <= i < dedup(s).len() && dedup(s)[i] == x;
                    if i == d.len() {
                        assert(s[s.len() - 1] == x);
                    } else {
                        assert(d[i] == x);
                        assert(d.to_set().contains(x));
                        let j = choose|j: int| 0 <= j < p.len() && p[j] == x;
                        assert(s[j] == x);
                    }
                }
            }
        }
    }
}

/// The number of values left after removing repeats is the number of
/// distinct values.
pub proof fn lemma_dedup_len<A>(s: Seq<A>)
    ensures
        dedup(s).len() == s.to_set().len(),
{
    lemma_dedup_to_set(s);
    dedup(s).unique_seq_to_set();
}

/// Two sequences holding the same values keep the same number of values
/// once repeats are removed.
pub proof fn lemma_dedup_len_same_set<A>(a: Seq<A>, b: Seq<A>)
    requires
        a.to_set() == b.to_set(),
    ensures
        dedup(a).len() == dedup(b).len(),
{
    lemma_dedup_len(a);
    lemma_dedup_len(b);
}

} // verus!
