//! The broker-facing registry: subscribe / unsubscribe / publish_match over
//! the subject trie, with a match-result cache and round-robin queue-group
//! selection.
//!
//! The cache maps a literal subject string to the full match the trie
//! computed for it. Every subscribe and unsubscribe clears the whole cache
//! (the always-correct baseline policy), so every cached entry matches the
//! current trie. Queue-group selection happens after the cache: the cache
//! keeps every matching member of each group, and each publish picks one
//! member per group by a persistent per-group round-robin cursor, so
//! repeated publishes of a cached subject still rotate through the group.

use vstd::prelude::*;

verus! {

use std::collections::HashMap;
use crate::error::{RmqError, ERROR_INVALID_SUBJECT, ERROR_SUBSCRIPTION_NOT_FOUND,
    ERROR_UNKNOWN_ERROR};
use crate::simple_sublist::{is_group_match, is_match_of, is_plain_match, MatchSet, SubListTrait,
    SubModel, Subscription};
use crate::sublist::{groups_wf, Sublist};
use crate::subject::{chars_of, spec_tokenize, tokens_eq, valid_pattern, valid_subject};

/// One cached lookup: a literal subject and the full match computed for it.
#[derive(Debug)]
pub struct CacheEntry {
    pub subject: String,
    pub ms: MatchSet,
}

/// A persistent round-robin cursor for one queue group.
#[derive(Debug)]
pub struct CursorEntry {
    pub name: String,
    pub next: u64,
}

/// What a publish returns: every matching plain subscription, and for each
/// matched queue group its name and the one selected member.
#[derive(Debug)]
pub struct SubResult {
    pub subs: Vec<u64>,
    pub qsubs: Vec<(String, u64)>,
}

/// The round-robin rule: cursor value `c` over `n` members picks member
/// `c % n`.
pub open spec fn rr_index(c: u64, n: nat) -> int
    recommends
        n > 0,
{
    (c as int) % (n as int)
}

/// The published result is exact for model `m` and subject `subj`: the
/// plain list holds exactly the matching plain subscriptions, and the queue
/// list holds exactly one member per matched group, each a matching member
/// of its group.
pub open spec fn is_publish_result(
    res: SubResult,
    m: Map<u64, SubModel>,
    subj: Seq<Seq<char>>,
) -> bool {
    &&& res.subs@.no_duplicates()
    &&& forall|k: int|
        0 <= k < res.subs@.len() ==> is_plain_match(m, subj, #[trigger] res.subs@[k])
    &&& forall|x: u64| is_plain_match(m, subj, x) ==> res.subs@.contains(x)
    &&& forall|j: int, k: int|
        0 <= j < k < res.qsubs@.len()
            ==> (#[trigger] res.qsubs@[j]).0@ != (#[trigger] res.qsubs@[k]).0@
    &&& forall|j: int|
        0 <= j < res.qsubs@.len() ==> is_group_match(
            m,
            subj,
            (#[trigger] res.qsubs@[j]).0@,
            res.qsubs@[j].1,
        )
    &&& forall|gn: Seq<char>, x: u64|
        is_group_match(m, subj, gn, x) ==> exists|j: int|
            0 <= j < res.qsubs@.len() && (#[trigger] res.qsubs@[j]).0@ == gn
}

/// The index of the cached entry for `subject`, if any.
fn find_cache(cache: &Vec<CacheEntry>, subject: &str) -> (r: Option<usize>)
    ensures
        r matches Some(i) ==> i < cache@.len() && cache@[i as int].subject@ == subject@,
{
    let mut i: usize = 0;
    while i < cache.len()
        invariant
            i <= cache@.len(),
        decreases cache@.len() - i,
    {
        if str_eq(cache[i].subject.as_str(), subject) {
            return Some(i);
        }
        i += 1;
    }
    None
}

/// Compare a `&str` pair for equality of contents.
fn str_eq(a: &str, b: &str) -> (r: bool)
    ensures
        r == (a@ == b@),
{
    let ca = chars_of(a);
    let cb = chars_of(b);
    tokens_eq(&ca, &cb)
}

/// A copy of an id list.
fn copy_ids(v: &Vec<u64>) -> (r: Vec<u64>)
    ensures
        r@ == v@,
{
    let mut r: Vec<u64> = Vec::new();
    let mut i: usize = 0;
    while i < v.len()
        invariant
            i <= v@.len(),
            r@ == v@.take(i as int),
        decreases v@.len() - i,
    {
        r.push(v[i]);
        proof {
            assert(v@.take(i + 1 as int) =~= v@.take(i as int).push(v@[i as int]));
        }
        i += 1;
    }
    proof {
        assert(v@.take(v@.len() as int) =~= v@);
    }
    r
}

/// Advance the round-robin cursor for `name` and return its prior value
/// (0 the first time a group is seen).
fn take_cursor(cursors: &mut Vec<CursorEntry>, name: &String) -> (c: u64) {
    let mut i: usize = 0;
    while i < cursors.len()
        invariant
            i <= cursors@.len(),
        decreases cursors@.len() - i,
    {
        if str_eq(cursors[i].name.as_str(), name.as_str()) {
            let c = cursors[i].next;
            let mut e = cursors.remove(i);
            e.next = if c == u64::MAX {
                0
            } else {
                c + 1
            };
            cursors.insert(i, e);
            return c;
        }
        i += 1;
    }
    cursors.push(CursorEntry { name: name.clone(), next: 1 });
    0
}

/// Select one member per matched group: each group's persistent cursor is
/// advanced and the member at position `rr_index(cursor, members)` of the
/// group's member list is picked, so repeated publishes rotate through the
/// group.
fn select_members(ms: &MatchSet, cursors: &mut Vec<CursorEntry>) -> (r: SubResult)
    requires
        ms.subs@.no_duplicates(),
        groups_wf(ms.groups@),
    ensures
        r.subs@ == ms.subs@,
        r.qsubs@.len() == ms.groups@.len(),
        forall|j: int|
            0 <= j < r.qsubs@.len() ==> (#[trigger] r.qsubs@[j]).0@ == ms.groups@[j].name@
                && ms.groups@[j].members@.contains(r.qsubs@[j].1),
{
    let subs = copy_ids(&ms.subs);
    let mut qsubs: Vec<(String, u64)> = Vec::new();
    let mut j: usize = 0;
    while j < ms.groups.len()
        invariant
            j <= ms.groups@.len(),
            ms.subs@.no_duplicates(),
            groups_wf(ms.groups@),
            qsubs@.len() == j,
            forall|k: int|
                0 <= k < j ==> (#[trigger] qsubs@[k]).0@ == ms.groups@[k].name@
                    && ms.groups@[k].members@.contains(qsubs@[k].1),
        decreases ms.groups@.len() - j,
    {
        let g = &ms.groups[j];
        let c = take_cursor(cursors, &g.name);
        let n = g.members.len();
        let pick = g.members[(c % (n as u64)) as usize];
        proof {
            assert(g.members@.len() > 0);
            assert(0 <= (c as int) % (n as int) < n as int) by {
                assert(n as int > 0);
            };
            assert(g.members@.contains(g.members@[(c as int) % (n as int)]));
        }
        let name = g.name.clone();
        qsubs.push((name, pick));
        j += 1;
    }
    SubResult { subs, qsubs }
}

/// The subscription registry: the subject trie, the arena of live
/// subscriptions keyed by handle, the match cache, and the round-robin
/// cursors. One value of this type is the single shared resource the
/// broker's connection handlers operate on (behind one lock).
pub struct Registry {
    pub sublist: Sublist,
    pub arena: HashMap<u64, Subscription>,
    pub cache: Vec<CacheEntry>,
    pub cursors: Vec<CursorEntry>,
    pub next_id: u64,
}

impl Registry {
    /// The handle-to-subscription map this registry represents.
    pub open spec fn model(&self) -> Map<u64, SubModel> {
        self.sublist.model()
    }

    /// A fresh handle can still be issued.
    pub open spec fn ids_left(&self) -> bool {
        self.next_id < u64::MAX
    }

    pub open spec fn inv(&self) -> bool {
        &&& self.sublist.inv()
        &&& forall|id: u64|
            #[trigger] self.arena@.contains_key(id) <==> self.model().contains_key(id)
        &&& forall|id: u64|
            self.arena@.contains_key(id) ==> (#[trigger] self.arena@[id])@ == self.model()[id]
        &&& forall|id: u64| #[trigger] self.model().contains_key(id) ==> id < self.next_id
        &&& forall|i: int|
            0 <= i < self.cache@.len() ==> is_match_of(
                (#[trigger] self.cache@[i]).ms,
                self.model(),
                spec_tokenize(self.cache@[i].subject@),
            ) && self.cache@[i].ms.subs@.no_duplicates() && groups_wf(self.cache@[i].ms.groups@)
    }

    pub fn new() -> (r: Self)
        ensures
            r.inv(),
            r.model() == Map::<u64, SubModel>::empty(),
    {
        Registry {
            sublist: Sublist::new(),
            arena: HashMap::new(),
            cache: Vec::new(),
            cursors: Vec::new(),
            next_id: 0,
        }
    }

    /// Register a subscription and return its fresh handle. Rejects a
    /// pattern with an empty token or a non-final `>`; the registry is then
    /// unchanged.
    pub fn subscribe(&mut self, subject: &str, queue: Option<&str>, sid: &str, target: u64) -> (r:
        Result<u64, RmqError>)
        requires
            old(self).inv(),
        ensures
            final(self).inv(),
            (r is Ok <==> valid_pattern(spec_tokenize(subject@)) && old(self).ids_left()),
            r matches Ok(id) ==> !old(self).model().contains_key(id) && final(self).model()
                == old(self).model().insert(
                id,
                SubModel {
                    pattern: spec_tokenize(subject@),
                    queue: match queue {
                        Some(q) => Some(q@),
                        None => None,
                    },
                    sid: sid@,
                    target: target,
                },
            ),
            r is Err ==> final(self).model() == old(self).model(),
            r matches Err(e) ==> e.err_code == crate::error::ERROR_INVALID_PATTERN || e.err_code
                == ERROR_UNKNOWN_ERROR,
    {
        if self.next_id == u64::MAX {
            return Err(RmqError::new(ERROR_UNKNOWN_ERROR));
        }
        let id = self.next_id;
        proof {
            assert(forall|id2: u64|
                #[trigger] self.model().contains_key(id2) ==> id2 < self.next_id);
            if self.sublist.model().contains_key(id) {
                assert(self.model().contains_key(id));
                assert(id < self.next_id);
            }
        }
        let sub = Subscription::new(subject, queue, sid, target);
        let dup = sub.duplicate();
        let res = self.sublist.insert(id, &dup);
        match res {
            Ok(_) => {
                self.next_id = id + 1;
                let ghost arena0 = self.arena@;
                self.arena.insert(id, sub);
                self.cache.clear();
                proof {
                    assert(self.arena@ == arena0.insert(id, sub));
                    assert(dup@ == sub@);
                    assert(self.model() == old(self).model().insert(id, sub@));
                    assert forall|id2: u64|
                        #[trigger] self.arena@.contains_key(id2) <==> self.model().contains_key(
                        id2,
                    ) by {
                        if id2 != id {
                            assert(self.arena@.contains_key(id2) == arena0.contains_key(id2));
                            assert(old(self).arena@.contains_key(id2) <==> old(
                                self,
                            ).model().contains_key(id2));
                        }
                    };
                    assert forall|id2: u64| self.arena@.contains_key(id2) implies (
                    #[trigger] self.arena@[id2])@ == self.model()[id2] by {
                        if id2 != id {
                            assert(old(self).arena@.contains_key(id2));
                            assert((old(self).arena@[id2])@ == old(self).model()[id2]);
                        }
                    };
                    assert forall|id2: u64| #[trigger] self.model().contains_key(id2) implies id2
                        < self.next_id by {
                        if id2 != id {
                            assert(old(self).model().contains_key(id2));
                        }
                    };
                    assert(sub@ == SubModel {
                        pattern: spec_tokenize(subject@),
                        queue: match queue {
                            Some(q) => Some(q@),
                            None => None,
                        },
                        sid: sid@,
                        target: target,
                    });
                }
                Ok(id)
            },
            Err(e) => {
                proof {
                    assert(self.model() == old(self).model());
                    assert(self.next_id == old(self).next_id);
                    assert forall|id2: u64| #[trigger] self.model().contains_key(id2) implies id2
                        < self.next_id by {
                        assert(old(self).model().contains_key(id2));
                    };
                }
                Err(e)
            },
        }
    }

    /// Drop the subscription with the given handle; fails if the handle is
    /// not live.
    pub fn unsubscribe(&mut self, id: u64) -> (r: Result<(), RmqError>)
        requires
            old(self).inv(),
        ensures
            final(self).inv(),
            (r is Ok <==> old(self).model().contains_key(id)),
            r is Ok ==> final(self).model() == old(self).model().remove(id),
            r is Err ==> final(self).model() == old(self).model(),
            r matches Err(e) ==> e.err_code == ERROR_SUBSCRIPTION_NOT_FOUND,
    {
        let found = match self.arena.get(&id) {
            Some(sub) => self.sublist.remove(id, sub),
            None => Err(RmqError::new(ERROR_SUBSCRIPTION_NOT_FOUND)),
        };
        match found {
            Ok(_) => {
                self.arena.remove(&id);
                self.cache.clear();
                Ok(())
            },
            Err(e) => Err(e),
        }
    }

    /// Whether no subscription is live. With pruning this also means the
    /// trie has no residual nodes.
    pub fn is_empty(&self) -> (r: bool)
        requires
            self.inv(),
        ensures
            r <==> forall|id: u64| !(#[trigger] self.model().contains_key(id)),
    {
        let r = self.sublist.is_empty();
        proof {
            if r {
                assert forall|id: u64| !(#[trigger] self.model().contains_key(id)) by {
                    assert(!self.sublist.model().contains_key(id));
                };
            } else {
                assert(!(forall|id: u64| !(#[trigger] self.sublist.model().contains_key(id))));
                let id = choose|id: u64| self.sublist.model().contains_key(id);
                assert(self.model().contains_key(id));
            }
        }
        r
    }

    /// The live subscription under a handle, if any.
    pub fn get_subscription(&self, id: u64) -> (r: Option<&Subscription>)
        requires
            self.inv(),
        ensures
            match r {
                Some(sub) => self.model().contains_key(id) && sub@ == self.model()[id],
                None => !self.model().contains_key(id),
            },
    {
        self.arena.get(&id)
    }

    /// Match a published subject against every live subscription, serving
    /// from the cache when possible and caching the full result on a miss.
    /// For each matched queue group exactly one member is selected, by a
    /// persistent per-group round-robin cursor that advances on every
    /// publish, cached or not.
    pub fn publish_match(&mut self, subject: &str) -> (r: Result<SubResult, RmqError>)
        requires
            old(self).inv(),
        ensures
            final(self).inv(),
            final(self).model() == old(self).model(),
            (r is Ok <==> valid_subject(spec_tokenize(subject@))),
            r matches Err(e) ==> e.err_code == ERROR_INVALID_SUBJECT,
            r matches Ok(res) ==> is_publish_result(
                res,
                old(self).model(),
                spec_tokenize(subject@),
            ),
    {
        let ghost m = self.model();
        let ghost subj = spec_tokenize(subject@);
        let hit = find_cache(&self.cache, subject);
        match hit {
            Some(i) => {
                let valid = crate::subject::check_subject(&crate::subject::tokenize(subject));
                if !valid {
                    return Err(RmqError::new(ERROR_INVALID_SUBJECT));
                }
                let entry = &self.cache[i];
                let res = select_members(&entry.ms, &mut self.cursors);
                proof {
                    assert(is_match_of(entry.ms, m, subj));
                    lemma_publish_from_match(res, entry.ms, m, subj);
                }
                Ok(res)
            },
            None => {
                let got = self.sublist.match_subject(subject);
                match got {
                    Ok(ms) => {
                        let res = select_members(&ms, &mut self.cursors);
                        proof {
                            lemma_publish_from_match(res, ms, m, subj);
                        }
                        self.cache.push(CacheEntry { subject: subject.to_owned(), ms });
                        Ok(res)
                    },
                    Err(e) => Err(e),
                }
            },
        }
    }
}

/// A selection over an exact match is an exact publish result.
proof fn lemma_publish_from_match(
    res: SubResult,
    ms: MatchSet,
    m: Map<u64, SubModel>,
    subj: Seq<Seq<char>>,
)
    requires
        is_match_of(ms, m, subj),
        res.subs@ == ms.subs@,
        res.qsubs@.len() == ms.groups@.len(),
        forall|j: int|
            0 <= j < res.qsubs@.len() ==> (#[trigger] res.qsubs@[j]).0@ == ms.groups@[j].name@
                && ms.groups@[j].members@.contains(res.qsubs@[j].1),
    ensures
        is_publish_result(res, m, subj),
{
    assert forall|j: int|
        0 <= j < res.qsubs@.len() implies is_group_match(
        m,
        subj,
        (#[trigger] res.qsubs@[j]).0@,
        res.qsubs@[j].1,
    ) by {
        let g = ms.groups@[j];
        let x = res.qsubs@[j].1;
        let k = choose|k: int| 0 <= k < g.members@.len() && g.members@[k] == x;
        assert(is_group_match(m, subj, g.name@, g.members@[k]));
    };
    assert forall|gn: Seq<char>, x: u64| is_group_match(m, subj, gn, x) implies exists|j: int|
        0 <= j < res.qsubs@.len() && (#[trigger] res.qsubs@[j]).0@ == gn by {
        let j = choose|j: int| 0 <= j < ms.groups@.len() && (#[trigger] ms.groups@[j]).name@ == gn;
        assert(res.qsubs@[j].0@ == gn);
    };
}

} // verus!
