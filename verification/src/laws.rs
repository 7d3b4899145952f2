//! Laws of the registry model: what insert, remove and round-robin
//! selection guarantee across calls.

use vstd::prelude::*;

verus! {

use vstd::arithmetic::div_mod::{lemma_add_mod_noop, lemma_mod_multiples_vanish, lemma_small_mod};
use crate::registry::rr_index;
use crate::simple_sublist::{is_group_match, is_plain_match, SubModel};

/// Law: inserting a subscription under a fresh handle and then removing
/// that handle restores the registry model exactly, and no subject then
/// matches the removed handle, plain or queued.
pub proof fn lemma_insert_then_remove_restores(m: Map<u64, SubModel>, id: u64, s: SubModel)
    requires
        !m.contains_key(id),
    ensures
        m.insert(id, s).remove(id) == m,
        forall|subj: Seq<Seq<char>>| !is_plain_match(m.insert(id, s).remove(id), subj, id),
        forall|subj: Seq<Seq<char>>, gn: Seq<char>|
            !is_group_match(m.insert(id, s).remove(id), subj, gn, id),
{
    assert(m.insert(id, s).remove(id) =~= m);
}

/// Law: inserting the same subscription value twice, under two distinct
/// handles, creates two independently removable entries: removing the first
/// leaves the second in place with the same value, and removing both
/// restores the starting model.
pub proof fn lemma_duplicate_inserts_independent(
    m: Map<u64, SubModel>,
    id1: u64,
    id2: u64,
    s: SubModel,
)
    requires
        id1 != id2,
        !m.contains_key(id1),
        !m.contains_key(id2),
    ensures
        m.insert(id1, s).insert(id2, s).remove(id1).contains_key(id2),
        m.insert(id1, s).insert(id2, s).remove(id1)[id2] == s,
        m.insert(id1, s).insert(id2, s).remove(id1).remove(id2) == m,
{
    assert(m.insert(id1, s).insert(id2, s).remove(id1).remove(id2) =~= m);
}

/// Law: queue fairness under round-robin. With `members.len()` members and
/// no churn, the cursor values `c, c+1, ..., c+len-1` of `len` consecutive
/// publishes of the same subject select every member at least once: for
/// every member index there is a step at which `rr_index` picks it.
/// (Cursor wrap-around at the top of `u64` is excluded.)
pub proof fn lemma_round_robin_covers(members: Seq<u64>, c: u64, i: int)
    requires
        members.len() > 0,
        c + members.len() <= u64::MAX,
        0 <= i < members.len(),
    ensures
        exists|k: int|
            0 <= k < members.len() && #[trigger] rr_index((c + k) as u64, members.len()) == i,
{
    let n = members.len() as int;
    let r = (c as int) % n;
    assert(0 <= r < n) by {
        vstd::arithmetic::div_mod::lemma_mod_bound(c as int, n);
    };
    let k: int = if i >= r {
        i - r
    } else {
        i - r + n
    };
    assert(0 <= k < n);
    lemma_add_mod_noop(c as int, k, n);
    lemma_small_mod(k as nat, n as nat);
    if i >= r {
        lemma_small_mod(i as nat, n as nat);
        assert((r + k) % n == i);
    } else {
        lemma_mod_multiples_vanish(1, i, n);
        lemma_small_mod(i as nat, n as nat);
        assert(r + k == i + n);
        assert((i + n) % n == i);
    }
    assert(rr_index((c + k) as u64, members.len()) == i);
}

} // verus!
