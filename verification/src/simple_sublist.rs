//! Subscriptions, match results, the registry-backend interface, and the
//! linear-scan backend.
//!
//! A subscription's identity is an integer handle chosen by the caller, not
//! its field values: two subscriptions with identical fields but different
//! handles are tracked independently. A backend is modelled as a map from
//! handle to the subscription's abstract value.

use vstd::prelude::*;

verus! {

use crate::error::{RmqError, ERROR_INVALID_PATTERN, ERROR_INVALID_SUBJECT,
    ERROR_SUBSCRIPTION_NOT_FOUND};
use crate::subject::{check_pattern, check_subject, match_tokens, pat_matches, spec_tokenize,
    tokenize, toks_view, valid_pattern, valid_subject};

/// The abstract value of a subscription: its pattern as tokens, its queue
/// group, its subscriber id, and its delivery-target handle.
pub ghost struct SubModel {
    pub pattern: Seq<Seq<char>>,
    pub queue: Option<Seq<char>>,
    pub sid: Seq<char>,
    pub target: u64,
}

/// An immutable subscription: a subject pattern, an optional queue-group
/// name, a subscriber identifier, and a delivery-target handle.
#[derive(Debug)]
pub struct Subscription {
    pub subject: String,
    pub queue: Option<String>,
    pub sid: String,
    pub target: u64,
}

/// The view of an optional queue-group name.
pub open spec fn queue_view(q: Option<String>) -> Option<Seq<char>> {
    match q {
        Some(s) => Some(s@),
        None => None,
    }
}

impl View for Subscription {
    type V = SubModel;

    open spec fn view(&self) -> SubModel {
        SubModel {
            pattern: spec_tokenize(self.subject@),
            queue: queue_view(self.queue),
            sid: self.sid@,
            target: self.target,
        }
    }
}

impl Subscription {
    pub fn new(subject: &str, queue: Option<&str>, sid: &str, target: u64) -> (r: Self)
        ensures
            r.subject@ == subject@,
            queue_view(r.queue) == match queue {
                Some(q) => Some(q@),
                None => None::<Seq<char>>,
            },
            r.sid@ == sid@,
            r.target == target,
    {
        Subscription {
            subject: subject.to_owned(),
            queue: match queue {
                Some(q) => Some(q.to_owned()),
                None => None,
            },
            sid: sid.to_owned(),
            target,
        }
    }

    /// A copy with the same field values (and hence the same view).
    pub fn duplicate(&self) -> (r: Self)
        ensures
            r.subject@ == self.subject@,
            queue_view(r.queue) == queue_view(self.queue),
            r.sid@ == self.sid@,
            r.target == self.target,
            r@ == self@,
    {
        Subscription {
            subject: self.subject.clone(),
            queue: match &self.queue {
                Some(q) => Some(q.clone()),
                None => None,
            },
            sid: self.sid.clone(),
            target: self.target,
        }
    }
}

/// One matched queue group: its name and every matching member.
#[derive(Debug)]
pub struct QGroup {
    pub name: String,
    pub members: Vec<u64>,
}

/// The full result of a trie traversal for one subject: every matching
/// plain subscriber, and every matched queue group with all of its
/// matching members.
#[derive(Debug)]
pub struct MatchSet {
    pub subs: Vec<u64>,
    pub groups: Vec<QGroup>,
}

/// Handle `id` is a plain (no-queue) subscription of `m` matching `subj`.
pub open spec fn is_plain_match(m: Map<u64, SubModel>, subj: Seq<Seq<char>>, id: u64) -> bool {
    m.contains_key(id) && m[id].queue is None && pat_matches(m[id].pattern, subj)
}

/// Handle `id` is a subscription of `m` in queue group `g` matching `subj`.
pub open spec fn is_group_match(
    m: Map<u64, SubModel>,
    subj: Seq<Seq<char>>,
    g: Seq<char>,
    id: u64,
) -> bool {
    m.contains_key(id) && m[id].queue == Some(g) && pat_matches(m[id].pattern, subj)
}

/// A well-formed entry for one queue group: non-empty, duplicate-free, and
/// holding exactly the matching members of that group.
pub open spec fn group_entry_ok(m: Map<u64, SubModel>, subj: Seq<Seq<char>>, g: QGroup) -> bool {
    &&& g.members@.no_duplicates()
    &&& g.members@.len() > 0
    &&& forall|k: int|
        0 <= k < g.members@.len() ==> is_group_match(m, subj, g.name@, #[trigger] g.members@[k])
    &&& forall|id: u64| is_group_match(m, subj, g.name@, id) ==> g.members@.contains(id)
}

/// `ms` is the complete match of subject `subj` against registry model `m`:
/// its plain list holds exactly the matching plain subscriptions, and its
/// group list holds exactly the matched queue groups, each with exactly its
/// matching members.
pub open spec fn is_match_of(ms: MatchSet, m: Map<u64, SubModel>, subj: Seq<Seq<char>>) -> bool {
    &&& ms.subs@.no_duplicates()
    &&& forall|k: int|
        0 <= k < ms.subs@.len() ==> is_plain_match(m, subj, #[trigger] ms.subs@[k])
    &&& forall|id: u64| is_plain_match(m, subj, id) ==> ms.subs@.contains(id)
    &&& forall|j: int, k: int|
        0 <= j < k < ms.groups@.len()
            ==> (#[trigger] ms.groups@[j]).name@ != (#[trigger] ms.groups@[k]).name@
    &&& forall|j: int|
        0 <= j < ms.groups@.len() ==> group_entry_ok(m, subj, #[trigger] ms.groups@[j])
    &&& forall|g: Seq<char>, id: u64|
        is_group_match(m, subj, g, id)
            ==> exists|j: int| 0 <= j < ms.groups@.len() && (#[trigger] ms.groups@[j]).name@ == g
}

impl MatchSet {
    pub fn new() -> (r: Self)
        ensures
            r.subs@ == Seq::<u64>::empty(),
            r.groups@ == Seq::<QGroup>::empty(),
    {
        MatchSet { subs: Vec::new(), groups: Vec::new() }
    }
}

/// The index of the group named `name`, if any.
pub fn find_group(gs: &Vec<QGroup>, name: &String) -> (r: Option<usize>)
    ensures
        match r {
            Some(j) => j < gs@.len() && gs@[j as int].name@ == name@,
            None => forall|j: int| 0 <= j < gs@.len() ==> (#[trigger] gs@[j]).name@ != name@,
        },
{
    let mut j: usize = 0;
    while j < gs.len()
        invariant
            j <= gs@.len(),
            forall|k: int| 0 <= k < j ==> (#[trigger] gs@[k]).name@ != name@,
        decreases gs@.len() - j,
    {
        if gs[j].name == *name {
            return Some(j);
        }
        j += 1;
    }
    None
}

/// Whether `v` holds `id`.
pub fn contains_id(v: &Vec<u64>, id: u64) -> (r: bool)
    ensures
        r == v@.contains(id),
{
    let mut j: usize = 0;
    while j < v.len()
        invariant
            j <= v@.len(),
            forall|k: int| 0 <= k < j ==> v@[k] != id,
        decreases v@.len() - j,
    {
        if v[j] == id {
            return true;
        }
        j += 1;
    }
    false
}

/// A subscription-registry backend: a mutable set of subscriptions keyed by
/// handle, matched against publish subjects under the wildcard rule.
pub trait SubListTrait: Sized {
    /// The handle-to-subscription map this backend represents.
    spec fn model(&self) -> Map<u64, SubModel>;

    /// The backend's internal well-formedness.
    spec fn inv(&self) -> bool;

    /// Add the subscription under the fresh handle `id`; rejects a pattern
    /// with an empty token or a non-final `>`, leaving the backend unchanged.
    fn insert(&mut self, id: u64, sub: &Subscription) -> (r: Result<(), RmqError>)
        requires
            old(self).inv(),
            !old(self).model().contains_key(id),
        ensures
            final(self).inv(),
            r is Ok <==> valid_pattern(spec_tokenize(sub.subject@)),
            r is Ok ==> final(self).model() == old(self).model().insert(id, sub@),
            r matches Err(e) ==> final(self).model() == old(self).model() && e.err_code
                == ERROR_INVALID_PATTERN;

    /// Remove the subscription with handle `id` (whose value must be `sub`,
    /// as the registry recorded it); fails if the handle is absent.
    fn remove(&mut self, id: u64, sub: &Subscription) -> (r: Result<(), RmqError>)
        requires
            old(self).inv(),
            old(self).model().contains_key(id) ==> old(self).model()[id] == sub@,
        ensures
            final(self).inv(),
            r is Ok <==> old(self).model().contains_key(id),
            r is Ok ==> final(self).model() == old(self).model().remove(id),
            r matches Err(e) ==> final(self).model() == old(self).model() && e.err_code
                == ERROR_SUBSCRIPTION_NOT_FOUND;

    /// Match a wildcard-free publish subject against every subscription.
    fn match_subject(&mut self, subject: &str) -> (r: Result<MatchSet, RmqError>)
        requires
            old(self).inv(),
        ensures
            final(self).inv(),
            *final(self) == *old(self),
            r is Ok <==> valid_subject(spec_tokenize(subject@)),
            r matches Ok(ms) ==> is_match_of(ms, old(self).model(), spec_tokenize(subject@)),
            r matches Err(e) ==> e.err_code == ERROR_INVALID_SUBJECT;
}

/// One stored subscription of the linear-scan backend, with its handle and
/// its pre-tokenized pattern.
pub struct SimpleEntry {
    pub id: u64,
    pub pattern: Vec<Vec<char>>,
    pub sub: Subscription,
}

/// The map represented by a sequence of entries.
pub open spec fn entries_model(s: Seq<SimpleEntry>) -> Map<u64, SubModel>
    decreases s.len(),
{
    if s.len() == 0 {
        Map::empty()
    } else {
        entries_model(s.drop_last()).insert(s.last().id, s.last().sub@)
    }
}

pub open spec fn ids_unique(s: Seq<SimpleEntry>) -> bool {
    forall|j: int, k: int| 0 <= j < k < s.len() ==> (#[trigger] s[j]).id != (#[trigger] s[k]).id
}

pub proof fn lemma_model_contains(s: Seq<SimpleEntry>, id: u64)
    ensures
        entries_model(s).contains_key(id) <==> exists|j: int|
            0 <= j < s.len() && (#[trigger] s[j]).id == id,
    decreases s.len(),
{
    if s.len() > 0 {
        lemma_model_contains(s.drop_last(), id);
        if entries_model(s).contains_key(id) {
            if id == s.last().id {
                assert(s[s.len() - 1].id == id);
            } else {
                let j = choose|j: int|
                    0 <= j < s.drop_last().len() && (#[trigger] s.drop_last()[j]).id == id;
                assert(s[j].id == id);
            }
        }
        if exists|j: int| 0 <= j < s.len() && (#[trigger] s[j]).id == id {
            let j = choose|j: int| 0 <= j < s.len() && (#[trigger] s[j]).id == id;
            if j < s.len() - 1 {
                assert(s.drop_last()[j].id == id);
            }
        }
    }
}

pub proof fn lemma_model_index(s: Seq<SimpleEntry>, j: int)
    requires
        ids_unique(s),
        0 <= j < s.len(),
    ensures
        entries_model(s).contains_key(s[j].id),
        entries_model(s)[s[j].id] == s[j].sub@,
    decreases s.len(),
{
    if j == s.len() - 1 {
    } else {
        lemma_model_index(s.drop_last(), j);
        assert(s.drop_last()[j] == s[j]);
        assert(s[j].id != s.last().id);
    }
}

pub proof fn lemma_model_push(s: Seq<SimpleEntry>, e: SimpleEntry)
    ensures
        entries_model(s.push(e)) == entries_model(s).insert(e.id, e.sub@),
{
    assert(s.push(e).drop_last() =~= s);
    assert(s.push(e).last() == e);
}

pub proof fn lemma_model_remove(s: Seq<SimpleEntry>, j: int)
    requires
        ids_unique(s),
        0 <= j < s.len(),
    ensures
        entries_model(s.remove(j)) == entries_model(s).remove(s[j].id),
    decreases s.len(),
{
    lemma_model_contains(s.drop_last(), s.last().id);
    if j == s.len() - 1 {
        assert(s.remove(j) =~= s.drop_last());
        assert(!entries_model(s.drop_last()).contains_key(s.last().id));
        assert(entries_model(s.drop_last()) =~= entries_model(s).remove(s[j].id));
    } else {
        lemma_model_remove(s.drop_last(), j);
        assert(s.remove(j).drop_last() =~= s.drop_last().remove(j));
        assert(s.remove(j).last() == s.last());
        assert(s.drop_last()[j] == s[j]);
        assert(s[j].id != s.last().id);
        assert(entries_model(s.remove(j)) == entries_model(s.drop_last().remove(j)).insert(
            s.last().id,
            s.last().sub@,
        ));
        assert(entries_model(s.drop_last()).remove(s[j].id).insert(s.last().id, s.last().sub@)
            =~= entries_model(s.drop_last()).insert(s.last().id, s.last().sub@).remove(s[j].id));
    }
}

/// The linear-scan backend: every subscription in one vector, matched by
/// scanning all of them.
pub struct SimpleSubList {
    pub entries: Vec<SimpleEntry>,
}

impl SimpleSubList {
    pub fn new() -> (r: Self)
        ensures
            r.inv(),
            r.model() == Map::<u64, SubModel>::empty(),
    {
        SimpleSubList { entries: Vec::new() }
    }
}

impl SubListTrait for SimpleSubList {
    open spec fn model(&self) -> Map<u64, SubModel> {
        entries_model(self.entries@)
    }

    open spec fn inv(&self) -> bool {
        &&& ids_unique(self.entries@)
        &&& forall|j: int|
            0 <= j < self.entries@.len() ==> {
                let e = #[trigger] self.entries@[j];
                toks_view(e.pattern) == e.sub@.pattern && valid_pattern(e.sub@.pattern)
            }
    }

    fn insert(&mut self, id: u64, sub: &Subscription) -> (r: Result<(), RmqError>) {
        let pattern = tokenize(sub.subject.as_str());
        if !check_pattern(&pattern) {
            return Err(RmqError::new(ERROR_INVALID_PATTERN));
        }
        let e = SimpleEntry { id, pattern, sub: sub.duplicate() };
        proof {
            lemma_model_contains(self.entries@, id);
            lemma_model_push(self.entries@, e);
        }
        self.entries.push(e);
        Ok(())
    }

    fn remove(&mut self, id: u64, _sub: &Subscription) -> (r: Result<(), RmqError>) {
        let ghost s0 = self.entries@;
        let mut j: usize = 0;
        while j < self.entries.len()
            invariant
                *self == *old(self),
                self.inv(),
                s0 == self.entries@,
                j <= s0.len(),
                forall|k: int| 0 <= k < j ==> (#[trigger] s0[k]).id != id,
            decreases s0.len() - j,
        {
            if self.entries[j].id == id {
                proof {
                    lemma_model_remove(s0, j as int);
                    lemma_model_contains(s0, id);
                    assert(s0[j as int].id == id);
                    assert(entries_model(s0).contains_key(id));
                    assert(old(self).model() == entries_model(s0));
                    assert(forall|k: int|
                        0 <= k < s0.remove(j as int).len() ==> #[trigger] s0.remove(j as int)[k]
                            == (if k < j { s0[k] } else { s0[k + 1] }));
                }
                self.entries.remove(j);
                proof {
                    assert(self.entries@ == s0.remove(j as int));
                    assert(self.model() == entries_model(s0).remove(id));
                }
                return Ok(());
            }
            j += 1;
        }
        proof {
            lemma_model_contains(s0, id);
        }
        Err(RmqError::new(ERROR_SUBSCRIPTION_NOT_FOUND))
    }

    fn match_subject(&mut self, subject: &str) -> (r: Result<MatchSet, RmqError>) {
        let toks = tokenize(subject);
        if !check_subject(&toks) {
            return Err(RmqError::new(ERROR_INVALID_SUBJECT));
        }
        let ghost subj = spec_tokenize(subject@);
        let ghost s0 = self.entries@;
        let mut ms = MatchSet::new();
        let mut i: usize = 0;
        while i < self.entries.len()
            invariant
                *self == *old(self),
                self.inv(),
                s0 == self.entries@,
                subj == spec_tokenize(subject@),
                toks_view(toks) == subj,
                i <= s0.len(),
                is_match_of(ms, entries_model(s0.take(i as int)), subj),
            decreases s0.len() - i,
        {
            let ghost m = entries_model(s0.take(i as int));
            let ghost mp = entries_model(s0.take(i + 1 as int));
            let ghost e = s0[i as int];
            proof {
                assert(s0.take(i + 1 as int) =~= s0.take(i as int).push(e));
                lemma_model_push(s0.take(i as int), e);
                assert(mp == m.insert(e.id, e.sub@));
                lemma_model_contains(s0.take(i as int), e.id);
                assert(forall|k: int| 0 <= k < i ==> s0.take(i as int)[k] == s0[k]);
                assert(!m.contains_key(e.id));
                assert(forall|x: u64|
                    #[trigger] is_plain_match(m, subj, x) ==> is_plain_match(mp, subj, x));
                assert(forall|x: u64|
                    #[trigger] is_plain_match(mp, subj, x) && x != e.id ==> is_plain_match(
                        m,
                        subj,
                        x,
                    ));
                assert(forall|gn: Seq<char>, x: u64|
                    #[trigger] is_group_match(m, subj, gn, x) ==> is_group_match(mp, subj, gn, x));
                assert(forall|gn: Seq<char>, x: u64|
                    #[trigger] is_group_match(mp, subj, gn, x) && x != e.id ==> is_group_match(
                        m,
                        subj,
                        gn,
                        x,
                    ));
            }
            let matched = match_tokens(&self.entries[i].pattern, &toks);
            if matched {
                let eid = self.entries[i].id;
                proof {
                    assert(pat_matches(e.sub@.pattern, subj));
                }
                match &self.entries[i].sub.queue {
                    None => {
                        let ghost subs0 = ms.subs@;
                        proof {
                            assert(e.sub@.queue is None);
                            assert(!subs0.contains(eid)) by {
                                if subs0.contains(eid) {
                                    let k = choose|k: int|
                                        0 <= k < subs0.len() && subs0[k] == eid;
                                    assert(is_plain_match(m, subj, subs0[k]));
                                }
                            };
                        }
                        ms.subs.push(eid);
                        proof {
                            assert(ms.subs@ == subs0.push(eid));
                            assert(forall|k: int| 0 <= k < subs0.len() ==> ms.subs@[k] == subs0[k]);
                            assert(ms.subs@[subs0.len() as int] == eid);
                            assert(ms.subs@.no_duplicates());
                            assert(is_plain_match(mp, subj, eid));
                            assert forall|x: u64| is_plain_match(mp, subj, x) implies ms.subs@.contains(
                                x,
                            ) by {
                                if x == eid {
                                    assert(ms.subs@[subs0.len() as int] == x);
                                } else {
                                    assert(is_plain_match(m, subj, x));
                                    assert(subs0.contains(x));
                                    let k = choose|k: int|
                                        0 <= k < subs0.len() && subs0[k] == x;
                                    assert(ms.subs@[k] == x);
                                }
                            };
                            assert(is_match_of(ms, mp, subj));
                        }
                    },
                    Some(q) => {
                        let name = q.clone();
                        let ghost gn = name@;
                        let ghost groups0 = ms.groups@;
                        proof {
                            assert(e.sub@.queue == Some(gn));
                            assert forall|j: int|
                                0 <= j < groups0.len() implies !(#[trigger] groups0[j]).members@.contains(
                                eid,
                            ) by {
                                if groups0[j].members@.contains(eid) {
                                    let k = choose|k: int|
                                        0 <= k < groups0[j].members@.len() && groups0[j].members@[k]
                                            == eid;
                                    assert(is_group_match(m, subj, groups0[j].name@, eid));
                                }
                            };
                        }
                        let found = find_group(&ms.groups, &name);
                        match found {
                            Some(gj) => {
                                let mut g = ms.groups.remove(gj);
                                let ghost mem0 = g.members@;
                                g.members.push(eid);
                                ms.groups.insert(gj, g);
                                proof {
                                    assert(ms.groups@ =~= groups0.update(
                                        gj as int,
                                        QGroup { name: g.name, members: g.members },
                                    ));
                                    assert(ms.groups@.len() == groups0.len());
                                    assert(forall|j: int|
                                        0 <= j < groups0.len() && j != gj ==> ms.groups@[j]
                                            == groups0[j]);
                                    assert(ms.groups@[gj as int].name@ == gn);
                                    assert(ms.groups@[gj as int].members@ == mem0.push(eid));
                                    assert(forall|k: int|
                                        0 <= k < mem0.len() ==> mem0.push(eid)[k] == mem0[k]);
                                    assert(mem0.push(eid)[mem0.len() as int] == eid);
                                    assert(!mem0.contains(eid));
                                    assert(mem0.push(eid).no_duplicates());
                                    assert forall|j: int|
                                        0 <= j < ms.groups@.len() implies group_entry_ok(
                                        mp,
                                        subj,
                                        #[trigger] ms.groups@[j],
                                    ) by {
                                        let gr = ms.groups@[j];
                                        if j == gj {
                                            assert(is_group_match(mp, subj, gn, eid));
                                            assert forall|x: u64|
                                                is_group_match(mp, subj, gn, x) implies gr.members@.contains(
                                                x,
                                            ) by {
                                                if x == eid {
                                                    assert(gr.members@[mem0.len() as int] == x);
                                                } else {
                                                    assert(is_group_match(m, subj, gn, x));
                                                    assert(mem0.contains(x));
                                                    let k = choose|k: int|
                                                        0 <= k < mem0.len() && mem0[k] == x;
                                                    assert(gr.members@[k] == x);
                                                }
                                            };
                                        } else {
                                            assert(group_entry_ok(m, subj, groups0[j]));
                                            assert forall|x: u64|
                                                is_group_match(mp, subj, gr.name@, x) implies gr.members@.contains(
                                                x,
                                            ) by {
                                                if x == eid {
                                                    assert(gr.name@ == gn);
                                                    assert(false);
                                                } else {
                                                    assert(is_group_match(m, subj, gr.name@, x));
                                                }
                                            };
                                        }
                                    };
                                    assert forall|g2: Seq<char>, x: u64|
                                        is_group_match(mp, subj, g2, x) implies exists|j: int|
                                        0 <= j < ms.groups@.len() && (#[trigger] ms.groups@[j]).name@
                                            == g2 by {
                                        if x == eid {
                                            assert(ms.groups@[gj as int].name@ == g2);
                                        } else {
                                            assert(is_group_match(m, subj, g2, x));
                                            let j = choose|j: int|
                                                0 <= j < groups0.len() && (#[trigger] groups0[j]).name@
                                                    == g2;
                                            assert(ms.groups@[j].name@ == g2);
                                        }
                                    };
                                    assert(is_match_of(ms, mp, subj));
                                }
                            },
                            None => {
                                let mut mv: Vec<u64> = Vec::new();
                                mv.push(eid);
                                let g = QGroup { name, members: mv };
                                ms.groups.push(g);
                                proof {
                                    assert(ms.groups@.len() == groups0.len() + 1);
                                    assert(forall|j: int|
                                        0 <= j < groups0.len() ==> ms.groups@[j] == groups0[j]);
                                    let gl = ms.groups@[groups0.len() as int];
                                    assert(gl.name@ == gn);
                                    assert(gl.members@ =~= seq![eid]);
                                    assert(gl.members@.no_duplicates());
                                    assert forall|j: int|
                                        0 <= j < ms.groups@.len() implies group_entry_ok(
                                        mp,
                                        subj,
                                        #[trigger] ms.groups@[j],
                                    ) by {
                                        let gr = ms.groups@[j];
                                        if j == groups0.len() {
                                            assert(is_group_match(mp, subj, gn, eid));
                                            assert forall|x: u64|
                                                is_group_match(mp, subj, gn, x) implies gr.members@.contains(
                                                x,
                                            ) by {
                                                if x == eid {
                                                    assert(gr.members@[0] == x);
                                                } else {
                                                    assert(is_group_match(m, subj, gn, x));
                                                    let k = choose|k: int|
                                                        0 <= k < groups0.len() && (#[trigger] groups0[k]).name@
                                                            == gn;
                                                    assert(false);
                                                }
                                            };
                                        } else {
                                            assert(group_entry_ok(m, subj, groups0[j]));
                                            assert forall|x: u64|
                                                is_group_match(mp, subj, gr.name@, x) implies gr.members@.contains(
                                                x,
                                            ) by {
                                                if x == eid {
                                                    assert(gr.name@ == gn);
                                                    assert(false);
                                                } else {
                                                    assert(is_group_match(m, subj, gr.name@, x));
                                                }
                                            };
                                        }
                                    };
                                    assert forall|j: int, k: int|
                                        0 <= j < k < ms.groups@.len() implies (
                                    #[trigger] ms.groups@[j]).name@ != (#[trigger] ms.groups@[k]).name@ by {
                                        if k == groups0.len() {
                                            assert(groups0[j].name@ != gn);
                                        }
                                    };
                                    assert forall|g2: Seq<char>, x: u64|
                                        is_group_match(mp, subj, g2, x) implies exists|j: int|
                                        0 <= j < ms.groups@.len() && (#[trigger] ms.groups@[j]).name@
                                            == g2 by {
                                        if x == eid {
                                            assert(ms.groups@[groups0.len() as int].name@ == g2);
                                        } else {
                                            assert(is_group_match(m, subj, g2, x));
                                            let j = choose|j: int|
                                                0 <= j < groups0.len() && (#[trigger] groups0[j]).name@
                                                    == g2;
                                            assert(ms.groups@[j].name@ == g2);
                                        }
                                    };
                                    assert(is_match_of(ms, mp, subj));
                                }
                            },
                        }
                    },
                }
            } else {
                proof {
                    assert(!pat_matches(e.sub@.pattern, subj));
                    assert(is_match_of(ms, mp, subj)) by {
                        assert(forall|x: u64|
                            #[trigger] is_plain_match(mp, subj, x) ==> is_plain_match(m, subj, x));
                        assert(forall|gn2: Seq<char>, x: u64|
                            #[trigger] is_group_match(mp, subj, gn2, x) ==> is_group_match(
                                m,
                                subj,
                                gn2,
                                x,
                            ));
                    }
                }
            }
            i += 1;
        }
        proof {
            assert(s0.take(s0.len() as int) =~= s0);
        }
        Ok(ms)
    }
}

} // verus!
