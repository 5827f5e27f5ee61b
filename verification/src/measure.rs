use vstd::prelude::*;

use crate::observable::NodeId;

verus! {

/// Weight of one worklist entry in a store of `n` nodes: exponentially larger
/// for upstream nodes, so that replacing a popped node by its (strictly
/// downstream) subscribers shrinks the total.
pub(crate) open spec fn id_weight(n: int, id: int) -> int {
    vstd::arithmetic::power::pow(n + 1, (n - id) as nat)
}

/// Termination measure of a worklist: the sum of its entries' weights.
pub(crate) open spec fn stack_measure(s: Seq<NodeId>, n: int) -> int
    decreases s.len(),
{
    if s.len() == 0 {
        0
    } else {
        stack_measure(s.drop_last(), n) + id_weight(n, s.last().idx())
    }
}

pub(crate) proof fn lemma_id_weight_pos(n: int, id: int)
    requires
        0 <= id <= n,
    ensures
        id_weight(n, id) >= 1,
{
    vstd::arithmetic::power::lemma_pow_positive(n + 1, (n - id) as nat);
}

pub(crate) proof fn lemma_stack_measure_nonneg(s: Seq<NodeId>, n: int)
    requires
        forall|k: int| 0 <= k < s.len() ==> 0 <= (#[trigger] s[k]).idx() <= n,
    ensures
        stack_measure(s, n) >= 0,
    decreases s.len(),
{
    if s.len() > 0 {
        lemma_stack_measure_nonneg(s.drop_last(), n);
        lemma_id_weight_pos(n, s.last().idx());
    }
}

pub(crate) proof fn lemma_stack_measure_append(s: Seq<NodeId>, t: Seq<NodeId>, n: int)
    ensures
        stack_measure(s + t, n) == stack_measure(s, n) + stack_measure(t, n),
    decreases t.len(),
{
    if t.len() == 0 {
        assert(s + t =~= s);
    } else {
        assert((s + t).drop_last() =~= s + t.drop_last());
        assert((s + t).last() == t.last());
        lemma_stack_measure_append(s, t.drop_last(), n);
    }
}

/// A worklist whose entries all weigh at most `w` weighs at most `len * w`.
pub(crate) proof fn lemma_stack_measure_le(s: Seq<NodeId>, n: int, w: int)
    requires
        w >= 0,
        forall|k: int| 0 <= k < s.len() ==> id_weight(n, (#[trigger] s[k]).idx()) <= w,
    ensures
        stack_measure(s, n) <= s.len() * w,
    decreases s.len(),
{
    if s.len() == 0 {
    } else {
        lemma_stack_measure_le(s.drop_last(), n, w);
        assert((s.len() - 1) * w + w == s.len() * w) by (nonlinear_arith);
    }
}

/// A duplicate-free worklist of nodes strictly between `lo` and `n` weighs
/// strictly less than the single node `lo` does.
pub(crate) proof fn lemma_stack_measure_bounded(s: Seq<NodeId>, n: int, lo: int)
    requires
        0 <= lo < n,
        s.no_duplicates(),
        forall|k: int| 0 <= k < s.len() ==> lo < (#[trigger] s[k]).idx() < n,
    ensures
        stack_measure(s, n) < id_weight(n, lo),
{
    let ids = s.map_values(|x: NodeId| x.idx());
    assert(ids.no_duplicates()) by {
        assert forall|i: int, j: int|
            0 <= i < ids.len() && 0 <= j < ids.len() && i != j implies ids[i] != ids[j] by {
            assert(s[i] != s[j]);
        }
    }
    ids.unique_seq_to_set();
    assert(ids.to_set().subset_of(vstd::set_lib::set_int_range(lo + 1, n))) by {
        assert forall|e: int| ids.to_set().contains(e) implies vstd::set_lib::set_int_range(
            lo + 1,
            n,
        ).contains(e) by {
            let k = choose|k: int| 0 <= k < ids.len() && ids[k] == e;
            assert(lo < s[k].idx() < n);
        }
    }
    vstd::set_lib::lemma_int_range(lo + 1, n);
    vstd::set_lib::lemma_len_subset(ids.to_set(), vstd::set_lib::set_int_range(lo + 1, n));
    assert(s.len() <= n - lo - 1);

    let w = id_weight(n, lo + 1);
    assert(w >= 1) by {
        lemma_id_weight_pos(n, lo + 1);
    }
    assert forall|k: int| 0 <= k < s.len() implies id_weight(n, (#[trigger] s[k]).idx()) <= w by {
        let e = s[k].idx();
        if e > lo + 1 {
            vstd::arithmetic::power::lemma_pow_increases(
                (n + 1) as nat,
                (n - e) as nat,
                (n - lo - 1) as nat,
            );
        }
    }
    lemma_stack_measure_le(s, n, w);
    assert(s.len() * w <= (n - lo - 1) * w) by (nonlinear_arith)
        requires
            s.len() <= n - lo - 1,
            w >= 0,
    ;
    assert((n - lo - 1) * w < (n + 1) * w) by (nonlinear_arith)
        requires
            w >= 1,
            lo >= 0,
    ;
    assert((n + 1) * w == id_weight(n, lo)) by {
        assert(id_weight(n, lo) == vstd::arithmetic::power::pow(n + 1, (n - lo) as nat));
        assert((n - lo) as nat == ((n - lo - 1) as nat + 1) as nat);
        vstd::arithmetic::power::lemma_pow_adds(n + 1, 1nat, (n - lo - 1) as nat);
        assert(vstd::arithmetic::power::pow(n + 1, 1nat) == n + 1) by {
            vstd::arithmetic::power::lemma_pow1(n + 1);
        }
    }
}

} // verus!
