//! The subject trie: one node per token position, with dedicated branches
//! for the `*` and `>` wildcards.
//!
//! A subscription on pattern `a.b` is stored in the plain or queue set of
//! the node reached from the root along the literal children `a`, `b`; a
//! `*` token steps into the node's star branch; a final `>` token is stored
//! in the node's own full-wildcard sets, since `>` ends every pattern that
//! holds it. Matching a published subject descends the literal branch, the
//! star branch and the full-wildcard sets of every node simultaneously and
//! unions everything it finds. Empty nodes are pruned on removal, so the
//! trie never retains nodes for subjects without subscriptions.

use vstd::prelude::*;

verus! {

use crate::error::{RmqError, ERROR_INVALID_PATTERN, ERROR_INVALID_SUBJECT,
    ERROR_SUBSCRIPTION_NOT_FOUND};
use crate::simple_sublist::{find_group, contains_id, group_entry_ok, is_group_match,
    is_match_of, is_plain_match, MatchSet, QGroup, SubListTrait, SubModel, Subscription,
    queue_view};
use crate::subject::{check_pattern, check_subject, copy_token, fwc_token, is_fwc, is_pwc,
    pat_matches, pwc_token, spec_tokenize, tokenize, tokens_eq, token_is_fwc, token_is_pwc,
    toks_view, valid_pattern, valid_subject};

/// One literal child of a trie node, keyed by its token.
pub struct ChildEntry {
    pub key: Vec<char>,
    pub node: Level,
}

/// One trie node: the subscriptions stored exactly here, the literal
/// children, the star branch (held in a vector of length at most one), and
/// the sets for patterns ending in `>` at this depth.
pub struct Level {
    pub psubs: Vec<u64>,
    pub qsubs: Vec<QGroup>,
    pub children: Vec<ChildEntry>,
    pub star: Vec<Level>,
    pub fwc_psubs: Vec<u64>,
    pub fwc_qsubs: Vec<QGroup>,
}

/// Membership of `x` in the group named `gn` of a group list.
pub open spec fn in_group(gs: Seq<QGroup>, gn: Seq<char>, x: u64) -> bool {
    exists|j: int| 0 <= j < gs.len() && (#[trigger] gs[j]).name@ == gn && gs[j].members@.contains(x)
}

/// Whether a group list has a group named `gn`.
pub open spec fn has_group(gs: Seq<QGroup>, gn: Seq<char>) -> bool {
    exists|j: int| 0 <= j < gs.len() && (#[trigger] gs[j]).name@ == gn
}

/// Well-formed group list: unique names, each group non-empty and
/// duplicate-free.
pub open spec fn groups_wf(gs: Seq<QGroup>) -> bool {
    &&& forall|j: int, k: int|
        0 <= j < k < gs.len() ==> (#[trigger] gs[j]).name@ != (#[trigger] gs[k]).name@
    &&& forall|j: int|
        0 <= j < gs.len() ==> (#[trigger] gs[j]).members@.len() > 0
            && gs[j].members@.no_duplicates()
}

/// The literal child for token `tok`, if any.
pub open spec fn lookup_child(cs: Seq<ChildEntry>, tok: Seq<char>) -> Option<Level>
    decreases cs.len(),
{
    if cs.len() == 0 {
        None
    } else if cs[0].key@ == tok {
        Some(cs[0].node)
    } else {
        lookup_child(cs.skip(1), tok)
    }
}

/// The branch a pattern token selects: the star branch for `*`, otherwise
/// the literal child of that token.
pub open spec fn child_for(l: Level, tok: Seq<char>) -> Option<Level> {
    if is_pwc(tok) {
        if l.star@.len() > 0 {
            Some(l.star@[0])
        } else {
            None
        }
    } else {
        lookup_child(l.children@, tok)
    }
}

/// The subscription with handle `id`, queue `q` and remaining pattern `pat`
/// is stored in this subtree.
pub open spec fn level_contains(l: Level, pat: Seq<Seq<char>>, q: Option<Seq<char>>, id: u64) -> bool
    decreases pat.len(),
{
    if pat.len() == 0 {
        match q {
            None => l.psubs@.contains(id),
            Some(g) => in_group(l.qsubs@, g, id),
        }
    } else if is_fwc(pat[0]) {
        pat.len() == 1 && match q {
            None => l.fwc_psubs@.contains(id),
            Some(g) => in_group(l.fwc_qsubs@, g, id),
        }
    } else {
        match child_for(l, pat[0]) {
            Some(c) => level_contains(c, pat.skip(1), q, id),
            None => false,
        }
    }
}

/// A node with nothing stored here and no branches.
pub open spec fn shallow_empty(l: Level) -> bool {
    &&& l.psubs@.len() == 0
    &&& l.qsubs@.len() == 0
    &&& l.children@.len() == 0
    &&& l.star@.len() == 0
    &&& l.fwc_psubs@.len() == 0
    &&& l.fwc_qsubs@.len() == 0
}

/// Child keys are unique, non-empty and never a wildcard token.
pub open spec fn child_keys_wf(cs: Seq<ChildEntry>) -> bool {
    &&& forall|j: int, k: int|
        0 <= j < k < cs.len() ==> (#[trigger] cs[j]).key@ != (#[trigger] cs[k]).key@
    &&& forall|j: int|
        0 <= j < cs.len() ==> {
            let t = (#[trigger] cs[j]).key@;
            t.len() > 0 && !is_pwc(t) && !is_fwc(t)
        }
}

/// Trie well-formedness: local sets duplicate-free, groups well-formed,
/// child keys well-formed, and every branch a non-empty subtree (pruning).
pub open spec fn wf_level(l: Level) -> bool
    decreases l,
{
    &&& l.psubs@.no_duplicates()
    &&& groups_wf(l.qsubs@)
    &&& l.fwc_psubs@.no_duplicates()
    &&& groups_wf(l.fwc_qsubs@)
    &&& child_keys_wf(l.children@)
    &&& l.star@.len() <= 1
    &&& forall|j: int|
        0 <= j < l.children@.len() ==> wf_level((#[trigger] l.children@[j]).node) && !shallow_empty(
            l.children@[j].node,
        )
    &&& forall|j: int|
        0 <= j < l.star@.len() ==> wf_level(#[trigger] l.star@[j]) && !shallow_empty(l.star@[j])
}

/// Handle `id` with queue `q` matches subject suffix `subj` somewhere in
/// this subtree: stored exactly at the end of `subj`, stored in the
/// full-wildcard sets above a non-empty rest, or matched through the
/// literal or star branch of the next token.
pub open spec fn lmatch(l: Level, subj: Seq<Seq<char>>, q: Option<Seq<char>>, id: u64) -> bool
    decreases subj.len(),
{
    ||| (subj.len() == 0 && level_contains(l, Seq::empty(), q, id))
    ||| (subj.len() >= 1 && level_contains(l, seq![fwc_token()], q, id))
    ||| (subj.len() >= 1 && match lookup_child(l.children@, subj[0]) {
        Some(c) => lmatch(c, subj.skip(1), q, id),
        None => false,
    })
    ||| (subj.len() >= 1 && l.star@.len() > 0 && lmatch(l.star@[0], subj.skip(1), q, id))
}

pub proof fn lemma_push_contains<A>(s: Seq<A>, x: A)
    ensures
        forall|y: A| #[trigger] s.push(x).contains(y) <==> (s.contains(y) || y == x),
{
    assert forall|y: A| #[trigger] s.push(x).contains(y) implies (s.contains(y) || y == x) by {
        let k = choose|k: int| 0 <= k < s.push(x).len() && s.push(x)[k] == y;
        if k < s.len() {
            assert(s[k] == y);
        }
    };
    assert forall|y: A| (s.contains(y) || y == x) implies #[trigger] s.push(x).contains(y) by {
        if s.contains(y) {
            let k = choose|k: int| 0 <= k < s.len() && s[k] == y;
            assert(s.push(x)[k] == y);
        } else {
            assert(s.push(x)[s.len() as int] == y);
        }
    };
}

pub proof fn lemma_remove_contains<A>(s: Seq<A>, j: int)
    requires
        0 <= j < s.len(),
        s.no_duplicates(),
    ensures
        s.remove(j).no_duplicates(),
        forall|y: A| #[trigger] s.remove(j).contains(y) <==> (s.contains(y) && y != s[j]),
{
    let t = s.remove(j);
    assert(forall|k: int|
        0 <= k < t.len() ==> #[trigger] t[k] == (if k < j {
            s[k]
        } else {
            s[k + 1]
        }));
    assert forall|y: A| #[trigger] t.contains(y) implies (s.contains(y) && y != s[j]) by {
        let k = choose|k: int| 0 <= k < t.len() && t[k] == y;
        if k < j {
            assert(s[k] == y);
        } else {
            assert(s[k + 1] == y);
        }
    };
    assert forall|y: A| (s.contains(y) && y != s[j]) implies #[trigger] t.contains(y) by {
        let k = choose|k: int| 0 <= k < s.len() && s[k] == y;
        if k < j {
            assert(t[k] == y);
        } else {
            assert(k > j);
            assert(t[k - 1] == y);
        }
    };
}

/// Looking a token up after updating entry `j` (whose key is unchanged).
pub proof fn lemma_lookup_update(cs: Seq<ChildEntry>, j: int, e: ChildEntry)
    requires
        0 <= j < cs.len(),
        child_keys_wf(cs),
        e.key@ == cs[j].key@,
    ensures
        forall|t: Seq<char>| #[trigger] lookup_child(cs.update(j, e), t) == (if t == e.key@ {
            Some(e.node)
        } else {
            lookup_child(cs, t)
        }),
    decreases cs.len(),
{
    assert forall|t: Seq<char>| #[trigger] lookup_child(cs.update(j, e), t) == (if t == e.key@ {
        Some(e.node)
    } else {
        lookup_child(cs, t)
    }) by {
        lemma_lookup_update_one(cs, j, e, t);
    };
}

proof fn lemma_lookup_update_one(cs: Seq<ChildEntry>, j: int, e: ChildEntry, t: Seq<char>)
    requires
        0 <= j < cs.len(),
        child_keys_wf(cs),
        e.key@ == cs[j].key@,
    ensures
        lookup_child(cs.update(j, e), t) == (if t == e.key@ {
            Some(e.node)
        } else {
            lookup_child(cs, t)
        }),
    decreases cs.len(),
{
    let cu = cs.update(j, e);
    if j == 0 {
        assert(cu[0] == e);
        if t != e.key@ {
            assert(cu.skip(1) =~= cs.skip(1));
        }
    } else {
        assert(cu[0] == cs[0]);
        assert(cs[0].key@ != cs[j].key@);
        assert(cu.skip(1) =~= cs.skip(1).update(j - 1, e));
        assert(child_keys_wf(cs.skip(1)));
        lemma_lookup_update_one(cs.skip(1), j - 1, e, t);
    }
}

/// Looking a token up after appending a child with a fresh key.
pub proof fn lemma_lookup_push(cs: Seq<ChildEntry>, e: ChildEntry)
    requires
        forall|j: int| 0 <= j < cs.len() ==> (#[trigger] cs[j]).key@ != e.key@,
    ensures
        forall|t: Seq<char>| #[trigger] lookup_child(cs.push(e), t) == (if t == e.key@ {
            Some(e.node)
        } else {
            lookup_child(cs, t)
        }),
    decreases cs.len(),
{
    assert forall|t: Seq<char>| #[trigger] lookup_child(cs.push(e), t) == (if t == e.key@ {
        Some(e.node)
    } else {
        lookup_child(cs, t)
    }) by {
        lemma_lookup_push_one(cs, e, t);
    };
}

proof fn lemma_lookup_push_one(cs: Seq<ChildEntry>, e: ChildEntry, t: Seq<char>)
    requires
        forall|j: int| 0 <= j < cs.len() ==> (#[trigger] cs[j]).key@ != e.key@,
    ensures
        lookup_child(cs.push(e), t) == (if t == e.key@ {
            Some(e.node)
        } else {
            lookup_child(cs, t)
        }),
    decreases cs.len(),
{
    let cp = cs.push(e);
    if cs.len() == 0 {
        assert(cp[0] == e);
        assert(cp.skip(1) =~= Seq::<ChildEntry>::empty());
    } else {
        assert(cp[0] == cs[0]);
        assert(cs[0].key@ != e.key@);
        assert(cp.skip(1) =~= cs.skip(1).push(e));
        lemma_lookup_push_one(cs.skip(1), e, t);
        if cs[0].key@ == t {
            assert(lookup_child(cp, t) == Some(cs[0].node));
            assert(lookup_child(cs, t) == Some(cs[0].node));
        } else {
            assert(lookup_child(cp, t) == lookup_child(cp.skip(1), t));
            assert(lookup_child(cs, t) == lookup_child(cs.skip(1), t));
        }
    }
}

/// Looking a token up after removing entry `j`.
pub proof fn lemma_lookup_remove(cs: Seq<ChildEntry>, j: int)
    requires
        0 <= j < cs.len(),
        child_keys_wf(cs),
    ensures
        forall|t: Seq<char>| #[trigger] lookup_child(cs.remove(j), t) == (if t == cs[j].key@ {
            None::<Level>
        } else {
            lookup_child(cs, t)
        }),
{
    assert forall|t: Seq<char>| #[trigger] lookup_child(cs.remove(j), t) == (if t == cs[j].key@ {
        None::<Level>
    } else {
        lookup_child(cs, t)
    }) by {
        lemma_lookup_remove_one(cs, j, t);
    };
}

proof fn lemma_lookup_remove_one(cs: Seq<ChildEntry>, j: int, t: Seq<char>)
    requires
        0 <= j < cs.len(),
        child_keys_wf(cs),
    ensures
        lookup_child(cs.remove(j), t) == (if t == cs[j].key@ {
            None::<Level>
        } else {
            lookup_child(cs, t)
        }),
    decreases cs.len(),
{
    let cr = cs.remove(j);
    if j == 0 {
        assert(cr =~= cs.skip(1));
        if t == cs[0].key@ {
            lemma_lookup_absent(cs.skip(1), t);
        }
    } else {
        assert(cr[0] == cs[0]);
        assert(cr.skip(1) =~= cs.skip(1).remove(j - 1));
        assert(child_keys_wf(cs.skip(1)));
        lemma_lookup_remove_one(cs.skip(1), j - 1, t);
    }
}

/// A token under no key looks up to nothing.
pub proof fn lemma_lookup_absent(cs: Seq<ChildEntry>, t: Seq<char>)
    requires
        forall|j: int| 0 <= j < cs.len() ==> (#[trigger] cs[j]).key@ != t,
    ensures
        lookup_child(cs, t) is None,
    decreases cs.len(),
{
    if cs.len() > 0 {
        assert(cs[0].key@ != t);
        lemma_lookup_absent(cs.skip(1), t);
    }
}

/// A key present at index `j` looks up to that entry's node.
pub proof fn lemma_lookup_at(cs: Seq<ChildEntry>, j: int)
    requires
        0 <= j < cs.len(),
        child_keys_wf(cs),
    ensures
        lookup_child(cs, cs[j].key@) == Some(cs[j].node),
    decreases cs.len(),
{
    if j > 0 {
        assert(cs[0].key@ != cs[j].key@);
        assert(child_keys_wf(cs.skip(1)));
        lemma_lookup_at(cs.skip(1), j - 1);
        assert(cs.skip(1)[j - 1] == cs[j]);
    }
}

/// Nothing is stored under a node with no contents and no branches.
pub proof fn lemma_empty_contains(l: Level, pat: Seq<Seq<char>>, q: Option<Seq<char>>, id: u64)
    requires
        shallow_empty(l),
    ensures
        !level_contains(l, pat, q, id),
{
    if pat.len() == 0 {
    } else if is_fwc(pat[0]) {
    } else {
        if !is_pwc(pat[0]) {
            lemma_lookup_absent(l.children@, pat[0]);
        }
    }
}

/// A node storing something is not empty.
pub proof fn lemma_contains_nonempty(l: Level, pat: Seq<Seq<char>>, q: Option<Seq<char>>, id: u64)
    requires
        level_contains(l, pat, q, id),
    ensures
        !shallow_empty(l),
{
    if shallow_empty(l) {
        lemma_empty_contains(l, pat, q, id);
    }
}


/// The index of `id` in `v`, if present.
fn find_id(v: &Vec<u64>, id: u64) -> (r: Option<usize>)
    ensures
        match r {
            Some(k) => k < v@.len() && v@[k as int] == id,
            None => !v@.contains(id),
        },
{
    let mut k: usize = 0;
    while k < v.len()
        invariant
            k <= v@.len(),
            forall|j: int| 0 <= j < k ==> v@[j] != id,
        decreases v@.len() - k,
    {
        if v[k] == id {
            return Some(k);
        }
        k += 1;
    }
    None
}

/// The index of the child keyed by `tok`, if any.
fn find_child(cs: &Vec<ChildEntry>, tok: &Vec<char>) -> (r: Option<usize>)
    ensures
        match r {
            Some(j) => j < cs@.len() && cs@[j as int].key@ == tok@,
            None => forall|j: int| 0 <= j < cs@.len() ==> (#[trigger] cs@[j]).key@ != tok@,
        },
{
    let mut j: usize = 0;
    while j < cs.len()
        invariant
            j <= cs@.len(),
            forall|k: int| 0 <= k < j ==> (#[trigger] cs@[k]).key@ != tok@,
        decreases cs@.len() - j,
    {
        if tokens_eq(&cs[j].key, tok) {
            return Some(j);
        }
        j += 1;
    }
    None
}

/// A fresh empty node.
fn empty_level() -> (r: Level)
    ensures
        shallow_empty(r),
        wf_level(r),
{
    Level {
        psubs: Vec::new(),
        qsubs: Vec::new(),
        children: Vec::new(),
        star: Vec::new(),
        fwc_psubs: Vec::new(),
        fwc_qsubs: Vec::new(),
    }
}

/// Whether this node stores nothing and has no branches.
fn is_empty_node(l: &Level) -> (r: bool)
    ensures
        r == shallow_empty(*l),
{
    l.psubs.len() == 0 && l.qsubs.len() == 0 && l.children.len() == 0 && l.star.len() == 0
        && l.fwc_psubs.len() == 0 && l.fwc_qsubs.len() == 0
}

/// Add `id` (fresh across all groups) to the group named `name`, creating
/// the group if needed.
fn add_member(gs: &mut Vec<QGroup>, name: &String, id: u64)
    requires
        groups_wf(old(gs)@),
        forall|gn: Seq<char>| !in_group(old(gs)@, gn, id),
    ensures
        groups_wf(final(gs)@),
        forall|gn: Seq<char>, x: u64|
            in_group(final(gs)@, gn, x) <==> (in_group(old(gs)@, gn, x) || (gn == name@ && x == id)),
        forall|gn: Seq<char>|
            has_group(final(gs)@, gn) <==> (has_group(old(gs)@, gn) || gn == name@),
{
    let ghost gs0 = gs@;
    let found = find_group(gs, name);
    match found {
        Some(j) => {
            let mut g = gs.remove(j);
            let ghost mem0 = g.members@;
            proof {
                assert(!mem0.contains(id)) by {
                    if mem0.contains(id) {
                        assert(in_group(gs0, gs0[j as int].name@, id));
                    }
                };
            }
            g.members.push(id);
            gs.insert(j, g);
            proof {
                assert(gs@ =~= gs0.update(j as int, gs@[j as int]));
                assert(gs@[j as int].name@ == name@);
                assert(gs@[j as int].members@ == mem0.push(id));
                lemma_push_contains(mem0, id);
                assert(mem0.push(id).no_duplicates());
                assert(forall|k: int| 0 <= k < gs0.len() && k != j ==> gs@[k] == gs0[k]);
                assert forall|gn: Seq<char>, x: u64|
                    in_group(gs@, gn, x) implies (in_group(gs0, gn, x) || (gn == name@ && x == id)) by {
                    let k = choose|k: int|
                        0 <= k < gs@.len() && (#[trigger] gs@[k]).name@ == gn
                            && gs@[k].members@.contains(x);
                    if k == j {
                        if x != id {
                            assert(mem0.contains(x));
                            assert(in_group(gs0, gn, x));
                        }
                    } else {
                        assert(in_group(gs0, gn, x));
                    }
                };
                assert forall|gn: Seq<char>, x: u64|
                    (in_group(gs0, gn, x) || (gn == name@ && x == id)) implies in_group(
                    gs@,
                    gn,
                    x,
                ) by {
                    if in_group(gs0, gn, x) {
                        let k = choose|k: int|
                            0 <= k < gs0.len() && (#[trigger] gs0[k]).name@ == gn
                                && gs0[k].members@.contains(x);
                        assert(gs@[k].name@ == gn && gs@[k].members@.contains(x));
                    } else {
                        assert(gs@[j as int].members@.contains(id));
                    }
                };
                assert forall|gn: Seq<char>|
                    has_group(gs@, gn) <==> (has_group(gs0, gn) || gn == name@) by {
                    if has_group(gs@, gn) {
                        let k = choose|k: int| 0 <= k < gs@.len() && (#[trigger] gs@[k]).name@ == gn;
                        assert(gs0[k].name@ == gn);
                    }
                    if has_group(gs0, gn) {
                        let k = choose|k: int| 0 <= k < gs0.len() && (#[trigger] gs0[k]).name@ == gn;
                        assert(gs@[k].name@ == gn);
                    }
                    if gn == name@ {
                        assert(gs@[j as int].name@ == gn);
                    }
                };
            }
        },
        None => {
            let mut mv: Vec<u64> = Vec::new();
            mv.push(id);
            let key = name.clone();
            let g = QGroup { name: key, members: mv };
            gs.push(g);
            proof {
                assert(gs@.len() == gs0.len() + 1);
                assert(forall|k: int| 0 <= k < gs0.len() ==> gs@[k] == gs0[k]);
                assert(gs@[gs0.len() as int].name@ == name@);
                assert(gs@[gs0.len() as int].members@ =~= seq![id]);
                assert forall|gn: Seq<char>, x: u64|
                    in_group(gs@, gn, x) implies (in_group(gs0, gn, x) || (gn == name@ && x == id)) by {
                    let k = choose|k: int|
                        0 <= k < gs@.len() && (#[trigger] gs@[k]).name@ == gn
                            && gs@[k].members@.contains(x);
                    if k < gs0.len() {
                        assert(in_group(gs0, gn, x));
                    } else {
                        assert(gs@[k].members@[0] == id);
                    }
                };
                assert forall|gn: Seq<char>, x: u64|
                    (in_group(gs0, gn, x) || (gn == name@ && x == id)) implies in_group(
                    gs@,
                    gn,
                    x,
                ) by {
                    if in_group(gs0, gn, x) {
                        let k = choose|k: int|
                            0 <= k < gs0.len() && (#[trigger] gs0[k]).name@ == gn
                                && gs0[k].members@.contains(x);
                        assert(gs@[k].name@ == gn && gs@[k].members@.contains(x));
                    } else {
                        assert(gs@[gs0.len() as int].members@.contains(id)) by {
                            assert(gs@[gs0.len() as int].members@[0] == id);
                        };
                    }
                };
                assert forall|gn: Seq<char>|
                    has_group(gs@, gn) <==> (has_group(gs0, gn) || gn == name@) by {
                    if has_group(gs@, gn) {
                        let k = choose|k: int| 0 <= k < gs@.len() && (#[trigger] gs@[k]).name@ == gn;
                        if k < gs0.len() {
                            assert(has_group(gs0, gn));
                        }
                    }
                    if has_group(gs0, gn) {
                        let k = choose|k: int| 0 <= k < gs0.len() && (#[trigger] gs0[k]).name@ == gn;
                        assert(gs@[k].name@ == gn);
                    }
                    if gn == name@ {
                        assert(gs@[gs0.len() as int].name@ == gn);
                    }
                };
                assert(groups_wf(gs@)) by {
                    assert forall|j2: int, k2: int|
                        0 <= j2 < k2 < gs@.len() implies (#[trigger] gs@[j2]).name@ != (
                    #[trigger] gs@[k2]).name@ by {
                        if k2 == gs0.len() {
                            assert(gs0[j2].name@ != name@);
                        }
                    };
                };
            }
        },
    }
}

/// Remove `id` from the group named `name`, dropping the group if it
/// becomes empty. Returns whether it was a member.
fn remove_member(gs: &mut Vec<QGroup>, name: &String, id: u64) -> (r: bool)
    requires
        groups_wf(old(gs)@),
    ensures
        groups_wf(final(gs)@),
        (r <==> in_group(old(gs)@, name@, id)),
        forall|gn: Seq<char>, x: u64|
            in_group(final(gs)@, gn, x) <==> (in_group(old(gs)@, gn, x) && (gn != name@ || x != id)),
{
    let ghost gs0 = gs@;
    let found = find_group(gs, name);
    match found {
        Some(j) => {
            let pos = find_id(&gs[j].members, id);
            match pos {
                Some(k) => {
                    let mut g = gs.remove(j);
                    let ghost mem0 = g.members@;
                    g.members.remove(k);
                    proof {
                        lemma_remove_contains(mem0, k as int);
                        assert(in_group(gs0, name@, id)) by {
                            assert(gs0[j as int].members@.contains(id)) by {
                                assert(mem0[k as int] == id);
                            };
                        };
                    }
                    if g.members.len() == 0 {
                        proof {
                            assert(gs@ =~= gs0.remove(j as int));
                            assert(forall|k2: int|
                                0 <= k2 < gs@.len() ==> gs@[k2] == (if k2 < j {
                                    gs0[k2]
                                } else {
                                    gs0[k2 + 1]
                                }));
                            assert forall|gn: Seq<char>, x: u64|
                                in_group(gs@, gn, x) implies (in_group(gs0, gn, x) && !(gn == name@ && x == id)) by {
                                let k2 = choose|k2: int|
                                    0 <= k2 < gs@.len() && (#[trigger] gs@[k2]).name@ == gn
                                        && gs@[k2].members@.contains(x);
                                let k3: int = if k2 < j { k2 } else { k2 + 1 };
                                assert(gs0[k3].name@ == gn && gs0[k3].members@.contains(x));
                                if gn == name@ {
                                    assert(k3 == j);
                                }
                            };
                            assert forall|gn: Seq<char>, x: u64|
                                (in_group(gs0, gn, x) && !(gn == name@ && x == id)) implies in_group(
                                gs@,
                                gn,
                                x,
                            ) by {
                                let k2 = choose|k2: int|
                                    0 <= k2 < gs0.len() && (#[trigger] gs0[k2]).name@ == gn
                                        && gs0[k2].members@.contains(x);
                                if k2 == j {
                                    assert(gn == name@);
                                    assert(mem0.contains(x) && x != id);
                                    assert(mem0.remove(k as int).contains(x));
                                    assert(mem0.remove(k as int).len() == 0);
                                } else if k2 < j {
                                    assert(gs@[k2].name@ == gn && gs@[k2].members@.contains(x));
                                } else {
                                    assert(gs@[k2 - 1].name@ == gn && gs@[k2 - 1].members@.contains(
                                        x,
                                    ));
                                }
                            };
                        }
                    } else {
                        gs.insert(j, g);
                        proof {
                            assert(gs@ =~= gs0.update(j as int, gs@[j as int]));
                            assert(gs@[j as int].name@ == name@);
                            assert(gs@[j as int].members@ == mem0.remove(k as int));
                            assert(forall|k2: int| 0 <= k2 < gs0.len() && k2 != j ==> gs@[k2] == gs0[k2]);
                            assert forall|gn: Seq<char>, x: u64|
                                in_group(gs@, gn, x) implies (in_group(gs0, gn, x) && !(gn == name@ && x == id)) by {
                                let k2 = choose|k2: int|
                                    0 <= k2 < gs@.len() && (#[trigger] gs@[k2]).name@ == gn
                                        && gs@[k2].members@.contains(x);
                                if k2 == j {
                                    assert(mem0.contains(x) && x != id);
                                    assert(in_group(gs0, gn, x));
                                    if gn == name@ && x == id {
                                        assert(false);
                                    }
                                } else {
                                    assert(in_group(gs0, gn, x));
                                    if gn == name@ {
                                        assert(false);
                                    }
                                }
                            };
                            assert forall|gn: Seq<char>, x: u64|
                                (in_group(gs0, gn, x) && !(gn == name@ && x == id)) implies in_group(
                                gs@,
                                gn,
                                x,
                            ) by {
                                let k2 = choose|k2: int|
                                    0 <= k2 < gs0.len() && (#[trigger] gs0[k2]).name@ == gn
                                        && gs0[k2].members@.contains(x);
                                if k2 == j {
                                    assert(gs@[k2].members@.contains(x));
                                } else {
                                    assert(gs@[k2].members@.contains(x));
                                }
                            };
                        }
                    }
                    true
                },
                None => {
                    proof {
                        assert(!in_group(gs0, name@, id)) by {
                            if in_group(gs0, name@, id) {
                                let k2 = choose|k2: int|
                                    0 <= k2 < gs0.len() && (#[trigger] gs0[k2]).name@ == name@
                                        && gs0[k2].members@.contains(id);
                                assert(k2 == j);
                            }
                        };
                    }
                    false
                },
            }
        },
        None => {
            proof {
                assert(!in_group(gs0, name@, id)) by {
                    if in_group(gs0, name@, id) {
                        let k2 = choose|k2: int|
                            0 <= k2 < gs0.len() && (#[trigger] gs0[k2]).name@ == name@
                                && gs0[k2].members@.contains(id);
                    }
                };
            }
            false
        },
    }
}


/// Remove `id` from a duplicate-free id list; returns whether it was there.
fn remove_plain(v: &mut Vec<u64>, id: u64) -> (r: bool)
    requires
        old(v)@.no_duplicates(),
    ensures
        final(v)@.no_duplicates(),
        (r <==> old(v)@.contains(id)),
        forall|y: u64| #[trigger] final(v)@.contains(y) == (old(v)@.contains(y) && y != id),
{
    let pos = find_id(v, id);
    match pos {
        Some(k) => {
            proof {
                lemma_remove_contains(v@, k as int);
                assert(v@.contains(id)) by {
                    assert(v@[k as int] == id);
                };
            }
            v.remove(k);
            true
        },
        None => {
            proof {
                assert(forall|y: u64| #[trigger] v@.contains(y) == (v@.contains(y) && y != id));
            }
            false
        },
    }
}

/// Insert handle `id` with queue `q` along `pat` from position `idx`,
/// creating nodes as needed.
#[verifier::rlimit(50)]
fn insert_at(l: &mut Level, pat: &Vec<Vec<char>>, idx: usize, q: &Option<String>, id: u64)
    requires
        wf_level(*old(l)),
        valid_pattern(toks_view(*pat)),
        idx <= pat@.len(),
        forall|pat2: Seq<Seq<char>>, q2: Option<Seq<char>>|
            !level_contains(*old(l), pat2, q2, id),
    ensures
        wf_level(*final(l)),
        forall|pat2: Seq<Seq<char>>, q2: Option<Seq<char>>, id2: u64|
            level_contains(*final(l), pat2, q2, id2) == (level_contains(*old(l), pat2, q2, id2)
                || (pat2 == toks_view(*pat).skip(idx as int) && q2 == queue_view(*q) && id2 == id)),
    decreases pat@.len() - idx,
{
    let ghost lo = *old(l);
    let ghost suffix = toks_view(*pat).skip(idx as int);
    let ghost qv = queue_view(*q);
    if idx == pat.len() {
        proof {
            assert(suffix =~= Seq::<Seq<char>>::empty());
        }
        match q {
            None => {
                proof {
                    assert(!level_contains(lo, Seq::<Seq<char>>::empty(), None, id));
                    assert(!lo.psubs@.contains(id));
                    lemma_push_contains(lo.psubs@, id);
                }
                l.psubs.push(id);
            },
            Some(name) => {
                proof {
                    assert forall|gn: Seq<char>| !in_group(l.qsubs@, gn, id) by {
                        assert(!level_contains(lo, Seq::<Seq<char>>::empty(), Some(gn), id));
                    };
                }
                add_member(&mut l.qsubs, name, id);
            },
        }
        proof {
            assert forall|pat2: Seq<Seq<char>>, q2: Option<Seq<char>>, id2: u64|
                level_contains(*l, pat2, q2, id2) == (level_contains(lo, pat2, q2, id2) || (pat2
                == suffix && q2 == qv && id2 == id)) by {
                if pat2.len() == 0 {
                    assert(pat2 =~= suffix);
                } else {
                    assert(pat2 != suffix);
                }
            };
        }
    } else {
        let tok = &pat[idx];
        proof {
            assert(toks_view(*pat)[idx as int] == tok@);
            assert(suffix[0] == tok@);
            assert(suffix.skip(1) =~= toks_view(*pat).skip(idx + 1 as int));
            assert(tok@.len() > 0);
        }
        if token_is_fwc(tok) {
            proof {
                assert(is_fwc(toks_view(*pat)[idx as int]));
                assert(idx == pat@.len() - 1) by {
                    if (idx as int) < pat@.len() - 1 {
                        assert(!is_fwc(toks_view(*pat)[idx as int]));
                    }
                };
                assert(suffix =~= seq![fwc_token()]);
            }
            match q {
                None => {
                    proof {
                        assert(!level_contains(lo, seq![fwc_token()], None, id));
                        assert(!lo.fwc_psubs@.contains(id));
                        lemma_push_contains(lo.fwc_psubs@, id);
                    }
                    l.fwc_psubs.push(id);
                },
                Some(name) => {
                    proof {
                        assert forall|gn: Seq<char>| !in_group(l.fwc_qsubs@, gn, id) by {
                            assert(!level_contains(lo, seq![fwc_token()], Some(gn), id));
                        };
                    }
                    add_member(&mut l.fwc_qsubs, name, id);
                },
            }
            proof {
                assert forall|pat2: Seq<Seq<char>>, q2: Option<Seq<char>>, id2: u64|
                    level_contains(*l, pat2, q2, id2) == (level_contains(lo, pat2, q2, id2) || (
                pat2 == suffix && q2 == qv && id2 == id)) by {
                    if pat2.len() == 0 {
                        assert(pat2 != suffix);
                    } else if is_fwc(pat2[0]) {
                        if pat2.len() == 1 {
                            assert(pat2 =~= suffix);
                        } else {
                            assert(pat2 != suffix);
                        }
                    } else {
                        assert(pat2 != suffix) by {
                            if pat2 == suffix {
                                assert(is_fwc(pat2[0]));
                            }
                        };
                    }
                };
            }
        } else if token_is_pwc(tok) {
            if l.star.len() == 0 {
                let nl = empty_level();
                l.star.push(nl);
            }
            let ghost c0 = l.star@[0];
            proof {
                assert(wf_level(c0));
                assert(pwc_token() != fwc_token()) by {
                    assert(pwc_token()[0] == '*');
                    assert(fwc_token()[0] == '>');
                };
                assert forall|p2: Seq<Seq<char>>, q2: Option<Seq<char>>|
                    !level_contains(c0, p2, q2, id) by {
                    if level_contains(c0, p2, q2, id) {
                        if lo.star@.len() > 0 {
                            let cons = seq![pwc_token()] + p2;
                            assert(cons[0] == pwc_token());
                            assert(cons.skip(1) =~= p2);
                            assert(child_for(lo, cons[0]) == Some(c0));
                            assert(level_contains(lo, cons, q2, id));
                        } else {
                            lemma_empty_contains(c0, p2, q2, id);
                        }
                    }
                };
            }
            let mut c = l.star.remove(0);
            insert_at(&mut c, pat, idx + 1, q, id);
            l.star.insert(0, c);
            proof {
                let cp = l.star@[0];
                assert(l.star@ =~= seq![cp]);
                assert(level_contains(cp, suffix.skip(1), qv, id)) by {
                    assert(level_contains(cp, toks_view(*pat).skip(idx + 1 as int), qv, id));
                };
                lemma_contains_nonempty(cp, suffix.skip(1), qv, id);
                assert(wf_level(*l));
                assert forall|pat2: Seq<Seq<char>>, q2: Option<Seq<char>>, id2: u64|
                    level_contains(*l, pat2, q2, id2) == (level_contains(lo, pat2, q2, id2) || (
                pat2 == suffix && q2 == qv && id2 == id)) by {
                    if pat2.len() == 0 {
                        assert(pat2 != suffix);
                    } else if is_fwc(pat2[0]) {
                        assert(pat2 != suffix) by {
                            if pat2 == suffix {
                                assert(is_pwc(suffix[0]));
                            }
                        };
                    } else if is_pwc(pat2[0]) {
                        assert(child_for(*l, pat2[0]) == Some(cp));
                        assert(level_contains(*l, pat2, q2, id2) == level_contains(
                            cp,
                            pat2.skip(1),
                            q2,
                            id2,
                        ));
                        if lo.star@.len() > 0 {
                            assert(child_for(lo, pat2[0]) == Some(c0));
                        } else {
                            assert(child_for(lo, pat2[0]) is None);
                            lemma_empty_contains(c0, pat2.skip(1), q2, id2);
                        }
                        if pat2.skip(1) == suffix.skip(1) && q2 == qv && id2 == id {
                            assert(pat2.len() == suffix.len());
                            assert forall|k: int| 0 <= k < pat2.len() implies pat2[k] == suffix[k] by {
                                if k >= 1 {
                                    assert(pat2.skip(1)[k - 1] == suffix.skip(1)[k - 1]);
                                }
                            };
                            assert(pat2 =~= suffix);
                        }
                        if pat2 == suffix {
                            assert(pat2.skip(1) == suffix.skip(1));
                        }
                    } else {
                        assert(child_for(*l, pat2[0]) == child_for(lo, pat2[0]));
                        assert(pat2 != suffix) by {
                            if pat2 == suffix {
                                assert(is_pwc(pat2[0]));
                            }
                        };
                    }
                };
            }
        } else {
            let pos = find_child(&l.children, tok);
            match pos {
                Some(j) => {
                    let ghost cs0 = lo.children@;
                    let ghost c0 = cs0[j as int].node;
                    proof {
                        lemma_lookup_at(cs0, j as int);
                        assert(child_for(lo, tok@) == Some(c0));
                        assert forall|p2: Seq<Seq<char>>, q2: Option<Seq<char>>|
                            !level_contains(c0, p2, q2, id) by {
                            if level_contains(c0, p2, q2, id) {
                                let cons = seq![tok@] + p2;
                                assert(cons[0] == tok@);
                                assert(cons.skip(1) =~= p2);
                                assert(level_contains(lo, cons, q2, id));
                            }
                        };
                    }
                    let mut e = l.children.remove(j);
                    insert_at(&mut e.node, pat, idx + 1, q, id);
                    let ghost ep = e;
                    l.children.insert(j, e);
                    proof {
                        assert(l.children@ =~= cs0.update(j as int, ep));
                        lemma_lookup_update(cs0, j as int, ep);
                        assert(level_contains(ep.node, suffix.skip(1), qv, id)) by {
                            assert(level_contains(ep.node, toks_view(*pat).skip(idx + 1 as int), qv, id));
                        };
                        lemma_contains_nonempty(ep.node, suffix.skip(1), qv, id);
                        assert(child_keys_wf(l.children@));
                        assert(wf_level(*l));
                        assert forall|pat2: Seq<Seq<char>>, q2: Option<Seq<char>>, id2: u64|
                            level_contains(*l, pat2, q2, id2) == (level_contains(lo, pat2, q2, id2)
                            || (pat2 == suffix && q2 == qv && id2 == id)) by {
                            if pat2.len() == 0 {
                                assert(pat2 != suffix);
                            } else if is_fwc(pat2[0]) {
                                assert(pat2 != suffix) by {
                                    if pat2 == suffix {
                                        assert(!is_fwc(suffix[0]));
                                    }
                                };
                            } else if is_pwc(pat2[0]) {
                                assert(child_for(*l, pat2[0]) == child_for(lo, pat2[0]));
                                assert(pat2 != suffix) by {
                                    if pat2 == suffix {
                                        assert(is_pwc(tok@));
                                    }
                                };
                            } else if pat2[0] == tok@ {
                                assert(child_for(*l, pat2[0]) == Some(ep.node));
                                assert(level_contains(*l, pat2, q2, id2) == level_contains(
                                    ep.node,
                                    pat2.skip(1),
                                    q2,
                                    id2,
                                ));
                                assert(child_for(lo, pat2[0]) == Some(c0));
                                if pat2.skip(1) == suffix.skip(1) && q2 == qv && id2 == id {
                                    assert(pat2.len() == suffix.len());
                                    assert forall|k: int| 0 <= k < pat2.len() implies pat2[k] == suffix[k] by {
                                        if k >= 1 {
                                            assert(pat2.skip(1)[k - 1] == suffix.skip(1)[k - 1]);
                                        }
                                    };
                                    assert(pat2 =~= suffix);
                                }
                                if pat2 == suffix {
                                    assert(pat2.skip(1) == suffix.skip(1));
                                }
                            } else {
                                assert(child_for(*l, pat2[0]) == child_for(lo, pat2[0]));
                                assert(pat2 != suffix) by {
                                    if pat2 == suffix {
                                        assert(pat2[0] == tok@);
                                    }
                                };
                            }
                        };
                    }
                },
                None => {
                    let ghost cs0 = lo.children@;
                    let key = copy_token(tok);
                    let nl = empty_level();
                    let mut e = ChildEntry { key, node: nl };
                    proof {
                        assert(shallow_empty(e.node));
                        assert forall|p2: Seq<Seq<char>>, q2: Option<Seq<char>>|
                            !level_contains(e.node, p2, q2, id) by {
                            lemma_empty_contains(e.node, p2, q2, id);
                        };
                    }
                    let ghost nl0 = e.node;
                    insert_at(&mut e.node, pat, idx + 1, q, id);
                    let ghost ep = e;
                    l.children.push(e);
                    proof {
                        assert(l.children@ =~= cs0.push(ep));
                        lemma_lookup_push(cs0, ep);
                        lemma_lookup_absent(cs0, tok@);
                        assert(child_for(lo, tok@) is None);
                        assert(level_contains(ep.node, suffix.skip(1), qv, id)) by {
                            assert(level_contains(ep.node, toks_view(*pat).skip(idx + 1 as int), qv, id));
                        };
                        lemma_contains_nonempty(ep.node, suffix.skip(1), qv, id);
                        assert(child_keys_wf(l.children@)) by {
                            assert(forall|k: int|
                                0 <= k < cs0.len() ==> (#[trigger] l.children@[k]) == cs0[k]);
                            assert(l.children@[cs0.len() as int] == ep);
                            assert(ep.key@ == tok@);
                        };
                        assert(wf_level(*l));
                        assert forall|pat2: Seq<Seq<char>>, q2: Option<Seq<char>>, id2: u64|
                            level_contains(*l, pat2, q2, id2) == (level_contains(lo, pat2, q2, id2)
                            || (pat2 == suffix && q2 == qv && id2 == id)) by {
                            if pat2.len() == 0 {
                                assert(pat2 != suffix);
                            } else if is_fwc(pat2[0]) {
                                assert(pat2 != suffix) by {
                                    if pat2 == suffix {
                                        assert(!is_fwc(suffix[0]));
                                    }
                                };
                            } else if is_pwc(pat2[0]) {
                                assert(child_for(*l, pat2[0]) == child_for(lo, pat2[0]));
                                assert(pat2 != suffix) by {
                                    if pat2 == suffix {
                                        assert(is_pwc(tok@));
                                    }
                                };
                            } else if pat2[0] == tok@ {
                                assert(child_for(*l, pat2[0]) == Some(ep.node));
                                assert(level_contains(*l, pat2, q2, id2) == level_contains(
                                    ep.node,
                                    pat2.skip(1),
                                    q2,
                                    id2,
                                ));
                                assert(!level_contains(lo, pat2, q2, id2));
                                lemma_empty_contains(nl0, pat2.skip(1), q2, id2);
                                if pat2.skip(1) == suffix.skip(1) && q2 == qv && id2 == id {
                                    assert(pat2.len() == suffix.len());
                                    assert forall|k: int| 0 <= k < pat2.len() implies pat2[k] == suffix[k] by {
                                        if k >= 1 {
                                            assert(pat2.skip(1)[k - 1] == suffix.skip(1)[k - 1]);
                                        }
                                    };
                                    assert(pat2 =~= suffix);
                                }
                                if pat2 == suffix {
                                    assert(pat2.skip(1) == suffix.skip(1));
                                }
                            } else {
                                assert(child_for(*l, pat2[0]) == child_for(lo, pat2[0]));
                                assert(pat2 != suffix) by {
                                    if pat2 == suffix {
                                        assert(pat2[0] == tok@);
                                    }
                                };
                            }
                        };
                    }
                },
            }
        }
    }
}


/// Remove handle `id` with queue `q` along `pat` from position `idx`,
/// pruning nodes that become empty. Returns whether it was found.
#[verifier::rlimit(50)]
fn remove_at(l: &mut Level, pat: &Vec<Vec<char>>, idx: usize, q: &Option<String>, id: u64) -> (r:
    bool)
    requires
        wf_level(*old(l)),
        valid_pattern(toks_view(*pat)),
        idx <= pat@.len(),
    ensures
        wf_level(*final(l)),
        (r <==> level_contains(*old(l), toks_view(*pat).skip(idx as int), queue_view(*q), id)),
        forall|pat2: Seq<Seq<char>>, q2: Option<Seq<char>>, id2: u64|
            level_contains(*final(l), pat2, q2, id2) == (level_contains(*old(l), pat2, q2, id2)
                && !(pat2 == toks_view(*pat).skip(idx as int) && q2 == queue_view(*q) && id2 == id)),
    decreases pat@.len() - idx,
{
    let ghost lo = *old(l);
    let ghost suffix = toks_view(*pat).skip(idx as int);
    let ghost qv = queue_view(*q);
    if idx == pat.len() {
        proof {
            assert(suffix =~= Seq::<Seq<char>>::empty());
        }
        let r = match q {
            None => remove_plain(&mut l.psubs, id),
            Some(name) => remove_member(&mut l.qsubs, name, id),
        };
        proof {
            assert forall|pat2: Seq<Seq<char>>, q2: Option<Seq<char>>, id2: u64|
                level_contains(*l, pat2, q2, id2) implies (level_contains(lo, pat2, q2, id2) && !(
            pat2 == suffix && q2 == qv && id2 == id)) by {
                if pat2.len() == 0 {
                    assert(pat2 =~= suffix);
                } else {
                    assert(pat2 != suffix);
                }
            };
            assert forall|pat2: Seq<Seq<char>>, q2: Option<Seq<char>>, id2: u64|
                (level_contains(lo, pat2, q2, id2) && !(pat2 == suffix && q2 == qv && id2 == id))
                implies level_contains(*l, pat2, q2, id2) by {
                if pat2.len() == 0 {
                    assert(pat2 =~= suffix);
                } else {
                    assert(pat2 != suffix);
                }
            };
        }
        r
    } else {
        let tok = &pat[idx];
        proof {
            assert(toks_view(*pat)[idx as int] == tok@);
            assert(suffix[0] == tok@);
            assert(suffix.skip(1) =~= toks_view(*pat).skip(idx + 1 as int));
        }
        if token_is_fwc(tok) {
            proof {
                assert(is_fwc(toks_view(*pat)[idx as int]));
                assert(idx == pat@.len() - 1) by {
                    if (idx as int) < pat@.len() - 1 {
                        assert(!is_fwc(toks_view(*pat)[idx as int]));
                    }
                };
                assert(suffix =~= seq![fwc_token()]);
            }
            let r = match q {
                None => remove_plain(&mut l.fwc_psubs, id),
                Some(name) => remove_member(&mut l.fwc_qsubs, name, id),
            };
            proof {
                assert forall|pat2: Seq<Seq<char>>, q2: Option<Seq<char>>, id2: u64|
                    level_contains(*l, pat2, q2, id2) implies (level_contains(lo, pat2, q2, id2)
                    && !(pat2 == suffix && q2 == qv && id2 == id)) by {
                    if pat2.len() == 0 {
                        assert(pat2 != suffix);
                    } else if is_fwc(pat2[0]) {
                        if pat2.len() == 1 {
                            assert(pat2 =~= suffix);
                        } else {
                            assert(pat2 != suffix);
                        }
                    } else {
                        assert(pat2 != suffix) by {
                            if pat2 == suffix {
                                assert(is_fwc(pat2[0]));
                            }
                        };
                    }
                };
                assert forall|pat2: Seq<Seq<char>>, q2: Option<Seq<char>>, id2: u64|
                    (level_contains(lo, pat2, q2, id2) && !(pat2 == suffix && q2 == qv && id2
                    == id)) implies level_contains(*l, pat2, q2, id2) by {
                    if pat2.len() == 0 {
                        assert(pat2 != suffix);
                    } else if is_fwc(pat2[0]) {
                        if pat2.len() == 1 {
                            assert(pat2 =~= suffix);
                        } else {
                            assert(pat2 != suffix);
                        }
                    } else {
                        assert(pat2 != suffix) by {
                            if pat2 == suffix {
                                assert(is_fwc(pat2[0]));
                            }
                        };
                    }
                };
            }
            r
        } else if token_is_pwc(tok) {
            if l.star.len() == 0 {
                proof {
                    assert(child_for(lo, suffix[0]) is None);
                    assert(!level_contains(lo, suffix, qv, id));
                    assert forall|pat2: Seq<Seq<char>>, q2: Option<Seq<char>>, id2: u64|
                        level_contains(*l, pat2, q2, id2) == (level_contains(lo, pat2, q2, id2)
                        && !(pat2 == suffix && q2 == qv && id2 == id)) by {
                        if pat2 == suffix && q2 == qv && id2 == id {
                            assert(!level_contains(lo, pat2, q2, id2));
                        }
                    };
                }
                return false;
            }
            let ghost c0 = l.star@[0];
            let mut c = l.star.remove(0);
            let r = remove_at(&mut c, pat, idx + 1, q, id);
            let pruned = is_empty_node(&c);
            let ghost cp = c;
            if !pruned {
                l.star.insert(0, c);
            }
            proof {
                assert(pwc_token() != fwc_token()) by {
                    assert(pwc_token()[0] == '*');
                    assert(fwc_token()[0] == '>');
                };
                assert(child_for(lo, suffix[0]) == Some(c0));
                assert(wf_level(*l));
                assert forall|pat2: Seq<Seq<char>>, q2: Option<Seq<char>>, id2: u64|
                    level_contains(*l, pat2, q2, id2) == (level_contains(lo, pat2, q2, id2) && !(
                pat2 == suffix && q2 == qv && id2 == id)) by {
                    if pat2.len() == 0 {
                        assert(pat2 != suffix);
                    } else if is_fwc(pat2[0]) {
                        assert(pat2 != suffix) by {
                            if pat2 == suffix {
                                assert(is_pwc(suffix[0]));
                            }
                        };
                    } else if is_pwc(pat2[0]) {
                        assert(child_for(lo, pat2[0]) == Some(c0));
                        assert(level_contains(cp, pat2.skip(1), q2, id2) == (level_contains(
                            c0,
                            pat2.skip(1),
                            q2,
                            id2,
                        ) && !(pat2.skip(1) == toks_view(*pat).skip(idx + 1 as int) && q2 == qv
                            && id2 == id)));
                        if pruned {
                            assert(child_for(*l, pat2[0]) is None);
                            lemma_empty_contains(cp, pat2.skip(1), q2, id2);
                        } else {
                            assert(child_for(*l, pat2[0]) == Some(cp));
                        }
                        if pat2.skip(1) == suffix.skip(1) && q2 == qv && id2 == id {
                            assert(pat2.len() == suffix.len());
                            assert forall|k: int| 0 <= k < pat2.len() implies pat2[k] == suffix[k] by {
                                if k >= 1 {
                                    assert(pat2.skip(1)[k - 1] == suffix.skip(1)[k - 1]);
                                }
                            };
                            assert(pat2 =~= suffix);
                        }
                        if pat2 == suffix {
                            assert(pat2.skip(1) == suffix.skip(1));
                        }
                    } else {
                        assert(child_for(*l, pat2[0]) == child_for(lo, pat2[0]));
                        assert(pat2 != suffix) by {
                            if pat2 == suffix {
                                assert(is_pwc(pat2[0]));
                            }
                        };
                    }
                };
            }
            r
        } else {
            let pos = find_child(&l.children, tok);
            match pos {
                None => {
                    proof {
                        lemma_lookup_absent(lo.children@, tok@);
                        assert(child_for(lo, suffix[0]) is None);
                        assert(!level_contains(lo, suffix, qv, id));
                        assert forall|pat2: Seq<Seq<char>>, q2: Option<Seq<char>>, id2: u64|
                            level_contains(*l, pat2, q2, id2) == (level_contains(lo, pat2, q2, id2)
                            && !(pat2 == suffix && q2 == qv && id2 == id)) by {
                            if pat2 == suffix && q2 == qv && id2 == id {
                                assert(!level_contains(lo, pat2, q2, id2));
                            }
                        };
                    }
                    false
                },
                Some(j) => {
                    let ghost cs0 = lo.children@;
                    let ghost c0 = cs0[j as int].node;
                    proof {
                        lemma_lookup_at(cs0, j as int);
                        assert(child_for(lo, tok@) == Some(c0));
                    }
                    let mut e = l.children.remove(j);
                    let r = remove_at(&mut e.node, pat, idx + 1, q, id);
                    let pruned = is_empty_node(&e.node);
                    let ghost ep = e;
                    if !pruned {
                        l.children.insert(j, e);
                    }
                    proof {
                        if pruned {
                            assert(l.children@ =~= cs0.remove(j as int));
                            lemma_lookup_remove(cs0, j as int);
                            assert(child_keys_wf(l.children@)) by {
                                assert(forall|k: int|
                                    0 <= k < l.children@.len() ==> #[trigger] l.children@[k] == (
                                    if k < j {
                                        cs0[k]
                                    } else {
                                        cs0[k + 1]
                                    }));
                            };
                        } else {
                            assert(l.children@ =~= cs0.update(j as int, ep));
                            lemma_lookup_update(cs0, j as int, ep);
                            assert(child_keys_wf(l.children@));
                        }
                        assert(wf_level(*l));
                        assert forall|pat2: Seq<Seq<char>>, q2: Option<Seq<char>>, id2: u64|
                            level_contains(*l, pat2, q2, id2) == (level_contains(lo, pat2, q2, id2)
                            && !(pat2 == suffix && q2 == qv && id2 == id)) by {
                            if pat2.len() == 0 {
                                assert(pat2 != suffix);
                            } else if is_fwc(pat2[0]) {
                                assert(pat2 != suffix) by {
                                    if pat2 == suffix {
                                        assert(!is_fwc(suffix[0]));
                                    }
                                };
                            } else if is_pwc(pat2[0]) {
                                assert(child_for(*l, pat2[0]) == child_for(lo, pat2[0]));
                                assert(pat2 != suffix) by {
                                    if pat2 == suffix {
                                        assert(is_pwc(tok@));
                                    }
                                };
                            } else if pat2[0] == tok@ {
                                assert(child_for(lo, pat2[0]) == Some(c0));
                                assert(level_contains(ep.node, pat2.skip(1), q2, id2) == (
                                level_contains(c0, pat2.skip(1), q2, id2) && !(pat2.skip(1)
                                    == toks_view(*pat).skip(idx + 1 as int) && q2 == qv && id2
                                    == id)));
                                if pruned {
                                    assert(child_for(*l, pat2[0]) is None);
                                    lemma_empty_contains(ep.node, pat2.skip(1), q2, id2);
                                } else {
                                    assert(child_for(*l, pat2[0]) == Some(ep.node));
                                }
                                if pat2.skip(1) == suffix.skip(1) && q2 == qv && id2 == id {
                                    assert(pat2.len() == suffix.len());
                                    assert forall|k: int| 0 <= k < pat2.len() implies pat2[k] == suffix[k] by {
                                        if k >= 1 {
                                            assert(pat2.skip(1)[k - 1] == suffix.skip(1)[k - 1]);
                                        }
                                    };
                                    assert(pat2 =~= suffix);
                                }
                                if pat2 == suffix {
                                    assert(pat2.skip(1) == suffix.skip(1));
                                }
                            } else {
                                assert(child_for(*l, pat2[0]) == child_for(lo, pat2[0]));
                                assert(pat2 != suffix) by {
                                    if pat2 == suffix {
                                        assert(pat2[0] == tok@);
                                    }
                                };
                            }
                        };
                    }
                    r
                },
            }
        }
    }
}


/// Group membership over an extended group list.
pub proof fn lemma_in_group_push(s: Seq<QGroup>, g: QGroup)
    ensures
        forall|gn: Seq<char>, y: u64|
            in_group(s.push(g), gn, y) <==> (in_group(s, gn, y) || (gn == g.name@
                && g.members@.contains(y))),
{
    assert forall|gn: Seq<char>, y: u64|
        in_group(s.push(g), gn, y) implies (in_group(s, gn, y) || (gn == g.name@
        && g.members@.contains(y))) by {
        let j = choose|j: int|
            0 <= j < s.push(g).len() && (#[trigger] s.push(g)[j]).name@ == gn
                && s.push(g)[j].members@.contains(y);
        if j < s.len() {
            assert(s[j].name@ == gn && s[j].members@.contains(y));
        }
    };
    assert forall|gn: Seq<char>, y: u64|
        (in_group(s, gn, y) || (gn == g.name@ && g.members@.contains(y))) implies in_group(
        s.push(g),
        gn,
        y,
    ) by {
        if in_group(s, gn, y) {
            let j = choose|j: int|
                0 <= j < s.len() && (#[trigger] s[j]).name@ == gn && s[j].members@.contains(y);
            assert(s.push(g)[j].name@ == gn && s.push(g)[j].members@.contains(y));
        } else {
            assert(s.push(g)[s.len() as int].name@ == gn);
            assert(s.push(g)[s.len() as int].members@.contains(y));
        }
    };
}

/// Add `x` to the group named `name` unless already a member, creating the
/// group if needed.
fn merge_member(gs: &mut Vec<QGroup>, name: &String, x: u64)
    requires
        groups_wf(old(gs)@),
    ensures
        groups_wf(final(gs)@),
        forall|gn: Seq<char>, y: u64|
            #![trigger in_group(final(gs)@, gn, y)]
            #![trigger in_group(old(gs)@, gn, y)]
            in_group(final(gs)@, gn, y) <==> (in_group(old(gs)@, gn, y) || (gn == name@ && y == x)),
{
    let ghost gs0 = gs@;
    let found = find_group(gs, name);
    match found {
        Some(j) => {
            if contains_id(&gs[j].members, x) {
                proof {
                    assert(in_group(gs0, name@, x)) by {
                        assert(gs0[j as int].members@.contains(x));
                    };
                }
                return;
            }
            let mut g = gs.remove(j);
            let ghost mem0 = g.members@;
            g.members.push(x);
            gs.insert(j, g);
            proof {
                assert(gs@ =~= gs0.update(j as int, gs@[j as int]));
                assert(gs@[j as int].name@ == name@);
                assert(gs@[j as int].members@ == mem0.push(x));
                lemma_push_contains(mem0, x);
                assert(mem0.push(x).no_duplicates());
                assert(forall|k: int| 0 <= k < gs0.len() && k != j ==> gs@[k] == gs0[k]);
                assert forall|gn: Seq<char>, y: u64|
                    in_group(gs@, gn, y) implies (in_group(gs0, gn, y) || (gn == name@ && y == x)) by {
                    let k = choose|k: int|
                        0 <= k < gs@.len() && (#[trigger] gs@[k]).name@ == gn
                            && gs@[k].members@.contains(y);
                    if k == j {
                        if y != x {
                            assert(mem0.contains(y));
                            assert(in_group(gs0, gn, y));
                        }
                    } else {
                        assert(in_group(gs0, gn, y));
                    }
                };
                assert forall|gn: Seq<char>, y: u64|
                    (in_group(gs0, gn, y) || (gn == name@ && y == x)) implies in_group(
                    gs@,
                    gn,
                    y,
                ) by {
                    if in_group(gs0, gn, y) {
                        let k = choose|k: int|
                            0 <= k < gs0.len() && (#[trigger] gs0[k]).name@ == gn
                                && gs0[k].members@.contains(y);
                        assert(gs@[k].name@ == gn && gs@[k].members@.contains(y));
                    } else {
                        assert(gs@[j as int].members@.contains(x));
                    }
                };
            }
        },
        None => {
            let mut mv: Vec<u64> = Vec::new();
            mv.push(x);
            let key = name.clone();
            let g = QGroup { name: key, members: mv };
            proof {
                assert(g.members@ =~= seq![x]);
            }
            let ghost gg = g;
            gs.push(g);
            proof {
                assert(gs@ == gs0.push(gg));
                lemma_in_group_push(gs0, gg);
                assert(gg.members@.contains(x)) by {
                    assert(gg.members@[0] == x);
                };
                assert forall|y: u64| gg.members@.contains(y) implies y == x by {
                    let k = choose|k: int| 0 <= k < gg.members@.len() && gg.members@[k] == y;
                };
                assert(groups_wf(gs@)) by {
                    assert(forall|k: int| 0 <= k < gs0.len() ==> gs@[k] == gs0[k]);
                    assert(gs@[gs0.len() as int] == gg);
                    assert(gg.members@.no_duplicates());
                    assert forall|j2: int, k2: int|
                        0 <= j2 < k2 < gs@.len() implies (#[trigger] gs@[j2]).name@ != (
                    #[trigger] gs@[k2]).name@ by {
                        if k2 == gs0.len() {
                            assert(gs0[j2].name@ != name@);
                        }
                    };
                };
            }
        },
    }
}

/// Add every id of `v` to the plain result list, skipping ids already there.
fn add_plain_ids(v: &Vec<u64>, ms: &mut MatchSet)
    requires
        old(ms).subs@.no_duplicates(),
    ensures
        final(ms).subs@.no_duplicates(),
        final(ms).groups@ == old(ms).groups@,
        forall|y: u64|
            #![trigger final(ms).subs@.contains(y)]
            #![trigger old(ms).subs@.contains(y)]
            final(ms).subs@.contains(y) == (old(ms).subs@.contains(y) || v@.contains(y)),
{
    let ghost s0 = old(ms).subs@;
    let mut k: usize = 0;
    while k < v.len()
        invariant
            k <= v@.len(),
            ms.subs@.no_duplicates(),
            ms.groups@ == old(ms).groups@,
            s0 == old(ms).subs@,
            forall|i: int|
                0 <= i < ms.subs@.len() ==> s0.contains(#[trigger] ms.subs@[i]) || v@.contains(
                    ms.subs@[i],
                ),
            forall|y: u64| #[trigger] s0.contains(y) ==> ms.subs@.contains(y),
            forall|i: int| 0 <= i < k ==> ms.subs@.contains(#[trigger] v@[i]),
        decreases v@.len() - k,
    {
        let ghost mid = ms.subs@;
        if !contains_id(&ms.subs, v[k]) {
            ms.subs.push(v[k]);
            proof {
                lemma_push_contains(mid, v@[k as int]);
                assert(ms.subs@.no_duplicates());
                assert(v@.contains(v@[k as int]));
                assert(forall|i: int| 0 <= i < mid.len() ==> ms.subs@[i] == mid[i]);
                assert(ms.subs@[mid.len() as int] == v@[k as int]);
            }
        }
        proof {
            assert(ms.subs@.contains(v@[k as int])) by {
                if mid.contains(v@[k as int]) {
                    let i = choose|i: int| 0 <= i < mid.len() && mid[i] == v@[k as int];
                    assert(ms.subs@[i] == v@[k as int]);
                } else {
                    assert(ms.subs@[mid.len() as int] == v@[k as int]);
                }
            };
            assert forall|y: u64| #[trigger] s0.contains(y) implies ms.subs@.contains(y) by {
                assert(mid.contains(y));
                let i = choose|i: int| 0 <= i < mid.len() && mid[i] == y;
                assert(ms.subs@[i] == y);
            };
            assert forall|i: int| 0 <= i < k + 1 implies ms.subs@.contains(#[trigger] v@[i]) by {
                if i < k {
                    assert(mid.contains(v@[i]));
                    let i2 = choose|i2: int| 0 <= i2 < mid.len() && mid[i2] == v@[i];
                    assert(ms.subs@[i2] == v@[i]);
                }
            };
        }
        k += 1;
    }
    proof {
        assert forall|y: u64| ms.subs@.contains(y) implies (s0.contains(y) || v@.contains(y)) by {
            let i = choose|i: int| 0 <= i < ms.subs@.len() && ms.subs@[i] == y;
        };
        assert forall|y: u64| (s0.contains(y) || v@.contains(y)) implies ms.subs@.contains(y) by {
            if v@.contains(y) {
                let i = choose|i: int| 0 <= i < v@.len() && v@[i] == y;
                assert(ms.subs@.contains(v@[i]));
            }
        };
    }
}

/// Merge every group of `gs` into the grouped results.
fn merge_groups(gs: &Vec<QGroup>, ms: &mut MatchSet)
    requires
        groups_wf(old(ms).groups@),
    ensures
        groups_wf(final(ms).groups@),
        final(ms).subs@ == old(ms).subs@,
        forall|gn: Seq<char>, y: u64|
            #![trigger in_group(final(ms).groups@, gn, y)]
            #![trigger in_group(old(ms).groups@, gn, y)]
            in_group(final(ms).groups@, gn, y) == (in_group(old(ms).groups@, gn, y) || in_group(
                gs@,
                gn,
                y,
            )),
{
    let ghost g0 = old(ms).groups@;
    let mut j: usize = 0;
    while j < gs.len()
        invariant
            j <= gs@.len(),
            groups_wf(ms.groups@),
            ms.subs@ == old(ms).subs@,
            g0 == old(ms).groups@,
            forall|gn: Seq<char>, y: u64|
                #![trigger in_group(ms.groups@, gn, y)]
                #![trigger in_group(g0, gn, y)]
                in_group(ms.groups@, gn, y) == (in_group(g0, gn, y) || in_group(
                    gs@.take(j as int),
                    gn,
                    y,
                )),
        decreases gs@.len() - j,
    {
        proof {
            assert(gs@.take(j + 1 as int) =~= gs@.take(j as int).push(gs@[j as int]));
            lemma_in_group_push(gs@.take(j as int), gs@[j as int]);
        }
        let ghost gmidouter = ms.groups@;
        let members = &gs[j].members;
        let name = &gs[j].name;
        let mut k: usize = 0;
        while k < members.len()
            invariant
                k <= members@.len(),
                groups_wf(ms.groups@),
                ms.subs@ == old(ms).subs@,
                members@ == gs@[j as int].members@,
                name@ == gs@[j as int].name@,
                j < gs@.len(),
                forall|gn: Seq<char>, y: u64|
                    #![trigger in_group(ms.groups@, gn, y)]
                    #![trigger in_group(gmidouter, gn, y)]
                    in_group(ms.groups@, gn, y) == (in_group(gmidouter, gn, y) || (gn == name@
                        && members@.take(k as int).contains(y))),
            decreases members@.len() - k,
        {
            proof {
                assert(members@.take(k + 1 as int) =~= members@.take(k as int).push(
                    members@[k as int],
                ));
                lemma_push_contains(members@.take(k as int), members@[k as int]);
            }
            merge_member(&mut ms.groups, name, members[k]);
            k += 1;
        }
        proof {
            assert(members@.take(members@.len() as int) =~= members@);
            assert forall|gn: Seq<char>, y: u64|
                in_group(ms.groups@, gn, y) == (in_group(g0, gn, y) || in_group(
                    gs@.take(j + 1 as int),
                    gn,
                    y,
                )) by {
                assert(in_group(ms.groups@, gn, y) == (in_group(gmidouter, gn, y) || (gn
                    == gs@[j as int].name@ && gs@[j as int].members@.contains(y))));
                assert(in_group(gmidouter, gn, y) == (in_group(g0, gn, y) || in_group(
                    gs@.take(j as int),
                    gn,
                    y,
                )));
            };
        }
        j += 1;
    }
    proof {
        assert(gs@.take(gs@.len() as int) =~= gs@);
    }
}

/// Collect into `ms` everything this subtree matches against the subject
/// tokens from position `idx`.
#[verifier::rlimit(50)]
fn match_at(l: &Level, toks: &Vec<Vec<char>>, idx: usize, ms: &mut MatchSet)
    requires
        wf_level(*l),
        idx <= toks@.len(),
        old(ms).subs@.no_duplicates(),
        groups_wf(old(ms).groups@),
    ensures
        final(ms).subs@.no_duplicates(),
        groups_wf(final(ms).groups@),
        forall|x: u64|
            #![trigger final(ms).subs@.contains(x)]
            #![trigger old(ms).subs@.contains(x)]
            final(ms).subs@.contains(x) == (old(ms).subs@.contains(x) || lmatch(
                *l,
                toks_view(*toks).skip(idx as int),
                None,
                x,
            )),
        forall|gn: Seq<char>, x: u64|
            #![trigger in_group(final(ms).groups@, gn, x)]
            #![trigger in_group(old(ms).groups@, gn, x)]
            in_group(final(ms).groups@, gn, x) == (in_group(old(ms).groups@, gn, x) || lmatch(
                *l,
                toks_view(*toks).skip(idx as int),
                Some(gn),
                x,
            )),
    decreases toks@.len() - idx,
{
    let ghost suffix = toks_view(*toks).skip(idx as int);
    let ghost subs0 = old(ms).subs@;
    let ghost groups0 = old(ms).groups@;
    if idx == toks.len() {
        proof {
            assert(suffix =~= Seq::<Seq<char>>::empty());
        }
        add_plain_ids(&l.psubs, ms);
        merge_groups(&l.qsubs, ms);
        proof {
            assert forall|x: u64|
                ms.subs@.contains(x) == (subs0.contains(x) || lmatch(*l, suffix, None, x)) by {
                assert(lmatch(*l, suffix, None, x) == level_contains(
                    *l,
                    Seq::<Seq<char>>::empty(),
                    None,
                    x,
                ));
            };
            assert forall|gn: Seq<char>, x: u64|
                in_group(ms.groups@, gn, x) == (in_group(groups0, gn, x) || lmatch(
                    *l,
                    suffix,
                    Some(gn),
                    x,
                )) by {
                assert(lmatch(*l, suffix, Some(gn), x) == level_contains(
                    *l,
                    Seq::<Seq<char>>::empty(),
                    Some(gn),
                    x,
                ));
            };
        }
    } else {
        proof {
            assert(suffix.len() >= 1);
            assert(suffix[0] == toks_view(*toks)[idx as int]);
            assert(suffix.skip(1) =~= toks_view(*toks).skip(idx + 1 as int));
            assert(seq![fwc_token()][0] == fwc_token());
        }
        add_plain_ids(&l.fwc_psubs, ms);
        merge_groups(&l.fwc_qsubs, ms);
        let ghost subsA = ms.subs@;
        let ghost groupsA = ms.groups@;
        let pos = find_child(&l.children, &toks[idx]);
        let ghost child = lookup_child(l.children@, suffix[0]);
        match pos {
            Some(j) => {
                proof {
                    lemma_lookup_at(l.children@, j as int);
                    assert(child == Some(l.children@[j as int].node));
                }
                let c = &l.children[j];
                match_at(&c.node, toks, idx + 1, ms);
            },
            None => {
                proof {
                    lemma_lookup_absent(l.children@, suffix[0]);
                    assert(child is None);
                }
            },
        }
        let ghost subsB = ms.subs@;
        let ghost groupsB = ms.groups@;
        if l.star.len() > 0 {
            let s = &l.star[0];
            match_at(s, toks, idx + 1, ms);
        }
        proof {
            assert forall|x: u64|
                ms.subs@.contains(x) == (subs0.contains(x) || lmatch(*l, suffix, None, x)) by {
                assert(subsA.contains(x) == (subs0.contains(x) || l.fwc_psubs@.contains(x)));
                assert(level_contains(*l, seq![fwc_token()], None, x) == l.fwc_psubs@.contains(x));
                if child is Some {
                    assert(subsB.contains(x) == (subsA.contains(x) || lmatch(
                        child->0,
                        toks_view(*toks).skip(idx + 1 as int),
                        None,
                        x,
                    )));
                } else {
                    assert(subsB == subsA);
                }
                if l.star@.len() > 0 {
                    assert(ms.subs@.contains(x) == (subsB.contains(x) || lmatch(
                        l.star@[0],
                        toks_view(*toks).skip(idx + 1 as int),
                        None,
                        x,
                    )));
                } else {
                    assert(ms.subs@ == subsB);
                }
            };
            assert forall|gn: Seq<char>, x: u64|
                in_group(ms.groups@, gn, x) == (in_group(groups0, gn, x) || lmatch(
                    *l,
                    suffix,
                    Some(gn),
                    x,
                )) by {
                assert(in_group(groupsA, gn, x) == (in_group(groups0, gn, x) || in_group(
                    l.fwc_qsubs@,
                    gn,
                    x,
                )));
                assert(level_contains(*l, seq![fwc_token()], Some(gn), x) == in_group(
                    l.fwc_qsubs@,
                    gn,
                    x,
                ));
                if child is Some {
                    assert(in_group(groupsB, gn, x) == (in_group(groupsA, gn, x) || lmatch(
                        child->0,
                        toks_view(*toks).skip(idx + 1 as int),
                        Some(gn),
                        x,
                    )));
                } else {
                    assert(groupsB == groupsA);
                }
                if l.star@.len() > 0 {
                    assert(in_group(ms.groups@, gn, x) == (in_group(groupsB, gn, x) || lmatch(
                        l.star@[0],
                        toks_view(*toks).skip(idx + 1 as int),
                        Some(gn),
                        x,
                    )));
                } else {
                    assert(ms.groups@ == groupsB);
                }
            };
        }
    }
}


/// The subject tokens hold no wildcard token.
pub open spec fn wildcard_free(toks: Seq<Seq<char>>) -> bool {
    forall|i: int| 0 <= i < toks.len() ==> !is_pwc(#[trigger] toks[i]) && !is_fwc(toks[i])
}

/// The subtree matches `(q, id)` against a wildcard-free subject iff it
/// stores `(q, id)` under some pattern that matches the subject token-wise.
pub proof fn lemma_lmatch_iff_contains(l: Level, subj: Seq<Seq<char>>, q: Option<Seq<char>>, id: u64)
    requires
        wildcard_free(subj),
    ensures
        lmatch(l, subj, q, id) <==> exists|pat: Seq<Seq<char>>|
            #[trigger] level_contains(l, pat, q, id) && pat_matches(pat, subj),
    decreases subj.len(),
{
    assert(!is_fwc(pwc_token()) && !is_pwc(fwc_token())) by {
        assert(pwc_token()[0] == '*');
        assert(fwc_token()[0] == '>');
    }
    if lmatch(l, subj, q, id) {
        if subj.len() == 0 {
            assert(level_contains(l, Seq::<Seq<char>>::empty(), q, id));
            assert(pat_matches(Seq::<Seq<char>>::empty(), subj));
        } else if level_contains(l, seq![fwc_token()], q, id) {
            assert(is_fwc(seq![fwc_token()][0]));
            assert(pat_matches(seq![fwc_token()], subj));
        } else {
            assert(wildcard_free(subj.skip(1)));
            if lookup_child(l.children@, subj[0]) is Some && lmatch(
                lookup_child(l.children@, subj[0])->0,
                subj.skip(1),
                q,
                id,
            ) {
                let c = lookup_child(l.children@, subj[0])->0;
                lemma_lmatch_iff_contains(c, subj.skip(1), q, id);
                let pat1 = choose|pat1: Seq<Seq<char>>|
                    #[trigger] level_contains(c, pat1, q, id) && pat_matches(pat1, subj.skip(1));
                let cons = seq![subj[0]] + pat1;
                assert(cons[0] == subj[0]);
                assert(cons.skip(1) =~= pat1);
                assert(!is_pwc(cons[0]) && !is_fwc(cons[0]));
                assert(level_contains(l, cons, q, id));
                assert(pat_matches(cons, subj));
            } else {
                assert(l.star@.len() > 0 && lmatch(l.star@[0], subj.skip(1), q, id));
                let c = l.star@[0];
                lemma_lmatch_iff_contains(c, subj.skip(1), q, id);
                let pat1 = choose|pat1: Seq<Seq<char>>|
                    #[trigger] level_contains(c, pat1, q, id) && pat_matches(pat1, subj.skip(1));
                let cons = seq![pwc_token()] + pat1;
                assert(cons[0] == pwc_token());
                assert(cons.skip(1) =~= pat1);
                assert(child_for(l, cons[0]) == Some(c));
                assert(level_contains(l, cons, q, id));
                assert(pat_matches(cons, subj));
            }
        }
    }
    if exists|pat: Seq<Seq<char>>| #[trigger] level_contains(l, pat, q, id) && pat_matches(
        pat,
        subj,
    ) {
        let pat = choose|pat: Seq<Seq<char>>|
            #[trigger] level_contains(l, pat, q, id) && pat_matches(pat, subj);
        if pat.len() == 0 {
            assert(subj.len() == 0);
            assert(lmatch(l, subj, q, id));
        } else if is_fwc(pat[0]) {
            assert(pat.len() == 1 && subj.len() >= 1);
            assert(pat =~= seq![fwc_token()]);
            assert(lmatch(l, subj, q, id));
        } else {
            assert(subj.len() >= 1);
            assert(wildcard_free(subj.skip(1)));
            let c = child_for(l, pat[0])->0;
            assert(level_contains(c, pat.skip(1), q, id));
            assert(pat_matches(pat.skip(1), subj.skip(1)));
            lemma_lmatch_iff_contains(c, subj.skip(1), q, id);
            assert(lmatch(c, subj.skip(1), q, id));
            if is_pwc(pat[0]) {
                assert(l.star@.len() > 0 && l.star@[0] == c);
                assert(lmatch(l, subj, q, id));
            } else {
                assert(pat[0] == subj[0]);
                assert(lookup_child(l.children@, subj[0]) == Some(c));
                assert(lmatch(l, subj, q, id));
            }
        }
    }
}

/// A well-formed node that stores nothing and has no branches is the only
/// empty subtree: any other well-formed node stores some subscription.
pub proof fn lemma_nonempty_has_entry(l: Level)
    requires
        wf_level(l),
        !shallow_empty(l),
    ensures
        exists|pat: Seq<Seq<char>>, q: Option<Seq<char>>, id: u64|
            level_contains(l, pat, q, id),
    decreases l,
{
    if l.psubs@.len() > 0 {
        let id = l.psubs@[0];
        assert(l.psubs@.contains(id));
        assert(level_contains(l, Seq::<Seq<char>>::empty(), None, id));
    } else if l.qsubs@.len() > 0 {
        let g = l.qsubs@[0];
        let id = g.members@[0];
        assert(g.members@.contains(id));
        assert(in_group(l.qsubs@, g.name@, id)) by {
            assert(l.qsubs@[0].name@ == g.name@ && l.qsubs@[0].members@.contains(id));
        };
        assert(level_contains(l, Seq::<Seq<char>>::empty(), Some(g.name@), id));
    } else if l.fwc_psubs@.len() > 0 {
        let id = l.fwc_psubs@[0];
        assert(l.fwc_psubs@.contains(id));
        assert(is_fwc(seq![fwc_token()][0]));
        assert(level_contains(l, seq![fwc_token()], None, id));
    } else if l.fwc_qsubs@.len() > 0 {
        let g = l.fwc_qsubs@[0];
        let id = g.members@[0];
        assert(g.members@.contains(id));
        assert(in_group(l.fwc_qsubs@, g.name@, id)) by {
            assert(l.fwc_qsubs@[0].name@ == g.name@ && l.fwc_qsubs@[0].members@.contains(id));
        };
        assert(is_fwc(seq![fwc_token()][0]));
        assert(level_contains(l, seq![fwc_token()], Some(g.name@), id));
    } else if l.children@.len() > 0 {
        let c = l.children@[0].node;
        lemma_nonempty_has_entry(c);
        let (pat, q, id) = choose|pat: Seq<Seq<char>>, q: Option<Seq<char>>, id: u64|
            level_contains(c, pat, q, id);
        let key = l.children@[0].key@;
        let cons = seq![key] + pat;
        assert(cons[0] == key);
        assert(cons.skip(1) =~= pat);
        assert(!is_pwc(key) && !is_fwc(key));
        lemma_lookup_at(l.children@, 0);
        assert(child_for(l, key) == Some(c));
        assert(level_contains(l, cons, q, id));
    } else {
        let c = l.star@[0];
        lemma_nonempty_has_entry(c);
        let (pat, q, id) = choose|pat: Seq<Seq<char>>, q: Option<Seq<char>>, id: u64|
            level_contains(c, pat, q, id);
        let cons = seq![pwc_token()] + pat;
        assert(cons[0] == pwc_token());
        assert(cons.skip(1) =~= pat);
        assert(!is_fwc(pwc_token())) by {
            assert(pwc_token()[0] == '*');
            assert(fwc_token()[0] == '>');
        };
        assert(child_for(l, pwc_token()) == Some(c));
        assert(level_contains(l, cons, q, id));
    }
}

/// The trie-based registry backend: the root node, with the map it
/// represents carried alongside as a ghost model.
pub struct Sublist {
    pub root: Level,
    pub entries: Ghost<Map<u64, SubModel>>,
}

/// The trie stores exactly the entries of the model, each under its own
/// pattern and queue, and every stored pattern is valid.
pub open spec fn sublist_inv(s: Sublist) -> bool {
    &&& wf_level(s.root)
    &&& forall|pat: Seq<Seq<char>>, q: Option<Seq<char>>, id: u64|
        #[trigger] level_contains(s.root, pat, q, id) ==> s.entries@.contains_key(id)
            && s.entries@[id].pattern == pat && s.entries@[id].queue == q
    &&& forall|id: u64|
        #[trigger] s.entries@.contains_key(id) ==> level_contains(
            s.root,
            s.entries@[id].pattern,
            s.entries@[id].queue,
            id,
        ) && valid_pattern(s.entries@[id].pattern)
}

impl Sublist {
    pub fn new() -> (r: Self)
        ensures
            r.inv(),
            r.model() == Map::<u64, SubModel>::empty(),
    {
        let root = empty_level();
        let r = Sublist { root, entries: Ghost(Map::empty()) };
        proof {
            assert forall|pat: Seq<Seq<char>>, q: Option<Seq<char>>, id: u64|
                !level_contains(r.root, pat, q, id) by {
                lemma_empty_contains(r.root, pat, q, id);
            };
        }
        r
    }

    /// Whether no subscription is stored: with pruning, this is exactly
    /// "the root has no contents and no branches".
    pub fn is_empty(&self) -> (r: bool)
        requires
            self.inv(),
        ensures
            r <==> forall|id: u64| !(#[trigger] self.model().contains_key(id)),
    {
        let r = is_empty_node(&self.root);
        proof {
            if r {
                assert forall|id: u64| !(#[trigger] self.model().contains_key(id)) by {
                    if self.entries@.contains_key(id) {
                        lemma_contains_nonempty(
                            self.root,
                            self.entries@[id].pattern,
                            self.entries@[id].queue,
                            id,
                        );
                    }
                };
            } else {
                lemma_nonempty_has_entry(self.root);
                let (pat, q, id) = choose|pat: Seq<Seq<char>>, q: Option<Seq<char>>, id: u64|
                    level_contains(self.root, pat, q, id);
                assert(self.model().contains_key(id));
            }
        }
        r
    }
}

impl SubListTrait for Sublist {
    open spec fn model(&self) -> Map<u64, SubModel> {
        self.entries@
    }

    open spec fn inv(&self) -> bool {
        sublist_inv(*self)
    }

    fn insert(&mut self, id: u64, sub: &Subscription) -> (r: Result<(), RmqError>) {
        let pattern = tokenize(sub.subject.as_str());
        if !check_pattern(&pattern) {
            return Err(RmqError::new(ERROR_INVALID_PATTERN));
        }
        let ghost m0 = self.entries@;
        let ghost root0 = self.root;
        proof {
            assert forall|pat2: Seq<Seq<char>>, q2: Option<Seq<char>>|
                !level_contains(root0, pat2, q2, id) by {
                if level_contains(root0, pat2, q2, id) {
                    assert(m0.contains_key(id));
                }
            };
        }
        insert_at(&mut self.root, &pattern, 0, &sub.queue, id);
        proof {
            let suffix = toks_view(pattern).skip(0);
            assert(suffix =~= toks_view(pattern));
            assert(suffix == sub@.pattern);
            assert(queue_view(sub.queue) == sub@.queue);
            self.entries@ = m0.insert(id, sub@);
            assert forall|pat2: Seq<Seq<char>>, q2: Option<Seq<char>>, id2: u64|
                #[trigger] level_contains(self.root, pat2, q2, id2) implies self.entries@.contains_key(
                id2,
            ) && self.entries@[id2].pattern == pat2 && self.entries@[id2].queue == q2 by {
                if !(pat2 == suffix && q2 == sub@.queue && id2 == id) {
                    assert(level_contains(root0, pat2, q2, id2));
                }
            };
            assert forall|id2: u64| #[trigger] self.entries@.contains_key(id2) implies level_contains(
                self.root,
                self.entries@[id2].pattern,
                self.entries@[id2].queue,
                id2,
            ) && valid_pattern(self.entries@[id2].pattern) by {
                if id2 != id {
                    assert(m0.contains_key(id2));
                    assert(level_contains(root0, m0[id2].pattern, m0[id2].queue, id2));
                }
            };
            assert(self.entries@ == m0.insert(id, sub@));
        }
        Ok(())
    }

    fn remove(&mut self, id: u64, sub: &Subscription) -> (r: Result<(), RmqError>) {
        let pattern = tokenize(sub.subject.as_str());
        if !check_pattern(&pattern) {
            proof {
                if self.entries@.contains_key(id) {
                    assert(valid_pattern(self.entries@[id].pattern));
                    assert(self.entries@[id] == sub@);
                }
            }
            return Err(RmqError::new(ERROR_SUBSCRIPTION_NOT_FOUND));
        }
        let ghost m0 = self.entries@;
        let ghost root0 = self.root;
        let found = remove_at(&mut self.root, &pattern, 0, &sub.queue, id);
        proof {
            let suffix = toks_view(pattern).skip(0);
            assert(suffix =~= toks_view(pattern));
            assert(suffix == sub@.pattern);
            assert(queue_view(sub.queue) == sub@.queue);
        }
        if !found {
            proof {
                assert(!level_contains(root0, sub@.pattern, sub@.queue, id));
                if m0.contains_key(id) {
                    assert(m0[id] == sub@);
                    assert(level_contains(root0, m0[id].pattern, m0[id].queue, id));
                }
                assert(!m0.contains_key(id));
                assert forall|pat2: Seq<Seq<char>>, q2: Option<Seq<char>>, id2: u64|
                    level_contains(self.root, pat2, q2, id2) == level_contains(
                        root0,
                        pat2,
                        q2,
                        id2,
                    ) by {
                    if pat2 == sub@.pattern && q2 == sub@.queue && id2 == id {
                        assert(!level_contains(root0, pat2, q2, id2));
                    }
                };
            }
            return Err(RmqError::new(ERROR_SUBSCRIPTION_NOT_FOUND));
        }
        proof {
            assert(level_contains(root0, sub@.pattern, sub@.queue, id));
            assert(m0.contains_key(id));
            self.entries@ = m0.remove(id);
            assert forall|pat2: Seq<Seq<char>>, q2: Option<Seq<char>>, id2: u64|
                #[trigger] level_contains(self.root, pat2, q2, id2) implies self.entries@.contains_key(
                id2,
            ) && self.entries@[id2].pattern == pat2 && self.entries@[id2].queue == q2 by {
                assert(level_contains(root0, pat2, q2, id2));
                if id2 == id {
                    assert(pat2 == m0[id].pattern && q2 == m0[id].queue);
                    assert(!level_contains(self.root, pat2, q2, id2));
                }
            };
            assert forall|id2: u64| #[trigger] self.entries@.contains_key(id2) implies level_contains(
                self.root,
                self.entries@[id2].pattern,
                self.entries@[id2].queue,
                id2,
            ) && valid_pattern(self.entries@[id2].pattern) by {
                assert(m0.contains_key(id2) && id2 != id);
                assert(level_contains(root0, m0[id2].pattern, m0[id2].queue, id2));
                if m0[id2].pattern == sub@.pattern && m0[id2].queue == sub@.queue {
                    assert(level_contains(root0, sub@.pattern, sub@.queue, id2));
                    assert(m0[id2] == m0[id2]);
                }
            };
            assert(self.entries@ == m0.remove(id));
        }
        Ok(())
    }

    fn match_subject(&mut self, subject: &str) -> (r: Result<MatchSet, RmqError>) {
        let toks = tokenize(subject);
        if !check_subject(&toks) {
            return Err(RmqError::new(ERROR_INVALID_SUBJECT));
        }
        let ghost subj = spec_tokenize(subject@);
        let ghost m = self.entries@;
        let mut ms = MatchSet::new();
        match_at(&self.root, &toks, 0, &mut ms);
        proof {
            assert(toks_view(toks).skip(0) =~= subj);
            assert(wildcard_free(subj));
            assert forall|x: u64|
                ms.subs@.contains(x) == is_plain_match(m, subj, x) by {
                lemma_lmatch_iff_contains(self.root, subj, None, x);
                assert(ms.subs@.contains(x) == lmatch(self.root, subj, None, x));
                if is_plain_match(m, subj, x) {
                    assert(level_contains(self.root, m[x].pattern, m[x].queue, x));
                }
                if lmatch(self.root, subj, None, x) {
                    let pat = choose|pat: Seq<Seq<char>>|
                        #[trigger] level_contains(self.root, pat, None, x) && pat_matches(
                            pat,
                            subj,
                        );
                    assert(m.contains_key(x) && m[x].pattern == pat && m[x].queue is None);
                }
            };
            assert forall|gn: Seq<char>, x: u64|
                in_group(ms.groups@, gn, x) == is_group_match(m, subj, gn, x) by {
                lemma_lmatch_iff_contains(self.root, subj, Some(gn), x);
                assert(in_group(ms.groups@, gn, x) == lmatch(self.root, subj, Some(gn), x));
                if is_group_match(m, subj, gn, x) {
                    assert(level_contains(self.root, m[x].pattern, m[x].queue, x));
                }
                if lmatch(self.root, subj, Some(gn), x) {
                    let pat = choose|pat: Seq<Seq<char>>|
                        #[trigger] level_contains(self.root, pat, Some(gn), x) && pat_matches(
                            pat,
                            subj,
                        );
                    assert(m.contains_key(x) && m[x].pattern == pat && m[x].queue == Some(gn));
                }
            };
            assert(is_match_of(ms, m, subj)) by {
                assert(forall|k: int|
                    0 <= k < ms.subs@.len() ==> ms.subs@.contains(#[trigger] ms.subs@[k]));
                assert forall|j: int|
                    0 <= j < ms.groups@.len() implies group_entry_ok(m, subj, #[trigger] ms.groups@[j]) by {
                    let g = ms.groups@[j];
                    assert forall|k: int|
                        0 <= k < g.members@.len() implies is_group_match(
                        m,
                        subj,
                        g.name@,
                        #[trigger] g.members@[k],
                    ) by {
                        assert(in_group(ms.groups@, g.name@, g.members@[k])) by {
                            assert(g.members@.contains(g.members@[k]));
                        };
                    };
                    assert forall|x: u64| is_group_match(m, subj, g.name@, x) implies g.members@.contains(
                        x,
                    ) by {
                        assert(in_group(ms.groups@, g.name@, x));
                        let j2 = choose|j2: int|
                            0 <= j2 < ms.groups@.len() && (#[trigger] ms.groups@[j2]).name@
                                == g.name@ && ms.groups@[j2].members@.contains(x);
                        assert(j2 == j);
                    };
                };
                assert forall|gn: Seq<char>, x: u64| is_group_match(m, subj, gn, x) implies exists|j: int|
                    0 <= j < ms.groups@.len() && (#[trigger] ms.groups@[j]).name@ == gn by {
                    assert(in_group(ms.groups@, gn, x));
                    let j2 = choose|j2: int|
                        0 <= j2 < ms.groups@.len() && (#[trigger] ms.groups@[j2]).name@ == gn
                            && ms.groups@[j2].members@.contains(x);
                    assert(ms.groups@[j2].name@ == gn);
                };
            };
        }
        Ok(ms)
    }
}

} // verus!
