use rmq::error::{RmqError, ERROR_INVALID_PATTERN, ERROR_INVALID_SUBJECT, ERROR_PARSE,
    ERROR_SUBSCRIPTION_NOT_FOUND};
use rmq::registry::Registry;
use rmq::simple_sublist::{SimpleSubList, SubListTrait, Subscription};
use rmq::sublist::Sublist;

#[test]
fn lone_wildcards() {
    let mut sl = Sublist::new();
    sl.insert(1, &Subscription::new(">", None, "1", 0)).unwrap();
    sl.insert(2, &Subscription::new("*", None, "2", 0)).unwrap();
    let r = sl.match_subject("anything").unwrap();
    let mut ids = r.subs.clone();
    ids.sort();
    assert_eq!(ids, vec![1, 2]);
    let r = sl.match_subject("two.tokens").unwrap();
    assert_eq!(r.subs, vec![1]);
}

#[test]
fn queue_group_behind_full_wildcard() {
    let mut reg = Registry::new();
    let m = reg.subscribe("logs.>", Some("audit"), "1", 0).unwrap();
    let r = reg.publish_match("logs.app.err").unwrap();
    assert_eq!(r.subs.len(), 0);
    assert_eq!(r.qsubs, vec![("audit".to_string(), m)]);
    reg.unsubscribe(m).unwrap();
    assert!(reg.is_empty());
}

#[test]
fn star_branch_pruned() {
    let mut reg = Registry::new();
    let a = reg.subscribe("a.*.c", None, "1", 0).unwrap();
    let b = reg.subscribe("a.b", None, "2", 0).unwrap();
    reg.unsubscribe(a).unwrap();
    let r = reg.publish_match("a.x.c").unwrap();
    assert_eq!(r.subs.len(), 0);
    reg.unsubscribe(b).unwrap();
    assert!(reg.is_empty());
}

#[test]
fn test() {
    let e = RmqError::new(ERROR_PARSE);
    println!("NError[{},{}]", e.err_code, e.error_description());
    assert_eq!(e.error_description(), "parse error");
    assert_eq!(RmqError::new(99).error_description(), "unknown error");
}

#[test]
fn test_match() {
    let mut sl = SimpleSubList::new();
    let mut subs: Vec<(u64, Subscription)> = Vec::new();
    let mut next_id: u64 = 0;
    let r = sl.match_subject("test").unwrap();
    assert_eq!(r.subs.len(), 0);
    assert_eq!(r.groups.len(), 0);

    let sub = Subscription::new("test", None, "1", 0);
    let id = next_id;
    next_id += 1;
    assert!(!sl.insert(id, &sub).is_err());
    subs.push((id, sub));
    let r = sl.match_subject("test").unwrap();
    assert_eq!(r.subs.len(), 1);
    assert_eq!(r.groups.len(), 0);

    let sub = Subscription::new("test", None, "1", 0);
    let id = next_id;
    next_id += 1;
    assert!(!sl.insert(id, &sub).is_err());
    subs.push((id, sub));
    let r = sl.match_subject("test").unwrap();
    assert_eq!(r.subs.len(), 2);
    assert_eq!(r.groups.len(), 0);

    let sub = Subscription::new("test", Some("q"), "1", 0);
    let id = next_id;
    next_id += 1;
    assert!(!sl.insert(id, &sub).is_err());
    subs.push((id, sub));
    let r = sl.match_subject("test").unwrap();
    assert_eq!(r.subs.len(), 2);
    assert_eq!(r.groups.len(), 1);

    let sub = Subscription::new("test", Some("q"), "1", 0);
    let id = next_id;
    next_id += 1;
    assert!(!sl.insert(id, &sub).is_err());
    subs.push((id, sub));
    let r = sl.match_subject("test").unwrap();
    assert_eq!(r.subs.len(), 2);
    assert_eq!(r.groups.len(), 1);

    let sub = Subscription::new("test", Some("q2"), "1", 0);
    let id = next_id;
    assert!(!sl.insert(id, &sub).is_err());
    subs.push((id, sub));
    let r = sl.match_subject("test").unwrap();
    assert_eq!(r.subs.len(), 2);
    assert_eq!(r.groups.len(), 2);

    let (id, s) = subs.pop().unwrap();
    assert!(!sl.remove(id, &s).is_err());
    let r = sl.match_subject("test").unwrap();
    assert_eq!(r.subs.len(), 2);
    assert_eq!(r.groups.len(), 1);

    let (id, s) = subs.pop().unwrap();
    assert!(!sl.remove(id, &s).is_err());
    let r = sl.match_subject("test").unwrap();
    assert_eq!(r.subs.len(), 2);
    assert_eq!(r.groups.len(), 1);

    let (id, s) = subs.pop().unwrap();
    assert!(!sl.remove(id, &s).is_err());
    let r = sl.match_subject("test").unwrap();
    assert_eq!(r.subs.len(), 2);
    assert_eq!(r.groups.len(), 0);

    let (id, s) = subs.pop().unwrap();
    assert!(!sl.remove(id, &s).is_err());
    let r = sl.match_subject("test").unwrap();
    assert_eq!(r.subs.len(), 1);
    assert_eq!(r.groups.len(), 0);

    let (id, s) = subs.pop().unwrap();
    assert!(!sl.remove(id, &s).is_err());
    let r = sl.match_subject("test").unwrap();
    assert_eq!(r.subs.len(), 0);
    assert_eq!(r.groups.len(), 0);
}

#[test]
fn registry_end_to_end() {
    let mut reg = Registry::new();
    let s1 = reg.subscribe("test", None, "1", 10).unwrap();
    let r = reg.publish_match("test").unwrap();
    assert_eq!(r.subs.len(), 1);
    assert_eq!(r.qsubs.len(), 0);

    let s2 = reg.subscribe("test", None, "2", 11).unwrap();
    let r = reg.publish_match("test").unwrap();
    assert_eq!(r.subs.len(), 2);
    assert_eq!(r.qsubs.len(), 0);

    let q1 = reg.subscribe("test", Some("q"), "3", 12).unwrap();
    let r = reg.publish_match("test").unwrap();
    assert_eq!(r.subs.len(), 2);
    assert_eq!(r.qsubs.len(), 1);

    let q2 = reg.subscribe("test", Some("q"), "4", 13).unwrap();
    let r = reg.publish_match("test").unwrap();
    assert_eq!(r.subs.len(), 2);
    assert_eq!(r.qsubs.len(), 1);

    let q3 = reg.subscribe("test", Some("q2"), "5", 14).unwrap();
    let r = reg.publish_match("test").unwrap();
    assert_eq!(r.subs.len(), 2);
    assert_eq!(r.qsubs.len(), 2);

    reg.unsubscribe(q3).unwrap();
    let r = reg.publish_match("test").unwrap();
    assert_eq!(r.subs.len(), 2);
    assert_eq!(r.qsubs.len(), 1);

    reg.unsubscribe(q2).unwrap();
    let r = reg.publish_match("test").unwrap();
    assert_eq!(r.subs.len(), 2);
    assert_eq!(r.qsubs.len(), 1);

    reg.unsubscribe(q1).unwrap();
    let r = reg.publish_match("test").unwrap();
    assert_eq!(r.subs.len(), 2);
    assert_eq!(r.qsubs.len(), 0);

    reg.unsubscribe(s1).unwrap();
    reg.unsubscribe(s2).unwrap();
    let r = reg.publish_match("test").unwrap();
    assert_eq!(r.subs.len(), 0);
    assert_eq!(r.qsubs.len(), 0);
    assert!(reg.is_empty());
}

#[test]
fn wildcard_scenario() {
    let mut sl = Sublist::new();
    let exact = Subscription::new("foo.bar.aa", None, "1", 0);
    let star = Subscription::new("foo.*.aa", None, "2", 0);
    let full = Subscription::new("foo.>", None, "3", 0);
    sl.insert(1, &exact).unwrap();
    sl.insert(2, &star).unwrap();
    sl.insert(3, &full).unwrap();

    let r = sl.match_subject("foo.bar.aa").unwrap();
    let mut ids = r.subs.clone();
    ids.sort();
    assert_eq!(ids, vec![1, 2, 3]);

    let r = sl.match_subject("foo.xx.yy").unwrap();
    assert_eq!(r.subs, vec![3]);
}

#[test]
fn wildcard_rules() {
    let mut sl = Sublist::new();
    sl.insert(1, &Subscription::new("a.*.c", None, "1", 0)).unwrap();
    sl.insert(2, &Subscription::new("a.>", None, "2", 0)).unwrap();
    sl.insert(3, &Subscription::new("a", None, "3", 0)).unwrap();

    let r = sl.match_subject("a.b.c").unwrap();
    let mut ids = r.subs.clone();
    ids.sort();
    assert_eq!(ids, vec![1, 2]);

    // `>` needs at least one more token: "a" matches only the exact pattern.
    let r = sl.match_subject("a").unwrap();
    assert_eq!(r.subs, vec![3]);

    let r = sl.match_subject("a.b.d").unwrap();
    assert_eq!(r.subs, vec![2]);
}

#[test]
fn invalid_inputs() {
    let mut reg = Registry::new();
    let e = reg.subscribe("a..b", None, "1", 0).unwrap_err();
    assert_eq!(e.err_code, ERROR_INVALID_PATTERN);
    let e = reg.subscribe("a.>.b", None, "1", 0).unwrap_err();
    assert_eq!(e.err_code, ERROR_INVALID_PATTERN);
    let e = reg.subscribe("", None, "1", 0).unwrap_err();
    assert_eq!(e.err_code, ERROR_INVALID_PATTERN);
    // A lone `>` is a valid pattern.
    assert!(reg.subscribe(">", None, "1", 0).is_ok());

    let e = reg.publish_match("a.*").unwrap_err();
    assert_eq!(e.err_code, ERROR_INVALID_SUBJECT);
    let e = reg.publish_match("a.>").unwrap_err();
    assert_eq!(e.err_code, ERROR_INVALID_SUBJECT);
    let e = reg.publish_match("a..b").unwrap_err();
    assert_eq!(e.err_code, ERROR_INVALID_SUBJECT);

    let e = reg.unsubscribe(999).unwrap_err();
    assert_eq!(e.err_code, ERROR_SUBSCRIPTION_NOT_FOUND);
}

#[test]
fn cache_coherence() {
    let mut reg = Registry::new();
    let a = reg.subscribe("x.y", None, "1", 0).unwrap();
    // Populate the cache for "x.y".
    let r = reg.publish_match("x.y").unwrap();
    assert_eq!(r.subs, vec![a]);
    // A cached subject still sees a later insert...
    let b = reg.subscribe("x.*", None, "2", 0).unwrap();
    let r = reg.publish_match("x.y").unwrap();
    let mut ids = r.subs.clone();
    ids.sort();
    assert_eq!(ids, vec![a, b]);
    // ...and never returns a removed subscription.
    reg.unsubscribe(a).unwrap();
    let r = reg.publish_match("x.y").unwrap();
    assert_eq!(r.subs, vec![b]);
}

#[test]
fn queue_fairness_round_robin() {
    let mut reg = Registry::new();
    let m1 = reg.subscribe("job", Some("workers"), "1", 0).unwrap();
    let m2 = reg.subscribe("job", Some("workers"), "2", 0).unwrap();
    let m3 = reg.subscribe("job", Some("workers"), "3", 0).unwrap();
    let mut seen = vec![false, false, false];
    // Three publishes with no churn select every member once, even though
    // the second and third are served from the cache.
    for _ in 0..3 {
        let r = reg.publish_match("job").unwrap();
        assert_eq!(r.qsubs.len(), 1);
        assert_eq!(r.qsubs[0].0, "workers");
        let picked = r.qsubs[0].1;
        if picked == m1 {
            seen[0] = true;
        } else if picked == m2 {
            seen[1] = true;
        } else if picked == m3 {
            seen[2] = true;
        }
    }
    assert!(seen[0] && seen[1] && seen[2]);
}

#[test]
fn identity_semantics() {
    // Two structurally identical subscriptions are distinct entries, each
    // removable on its own.
    let mut reg = Registry::new();
    let a = reg.subscribe("dup.subject", None, "same", 7).unwrap();
    let b = reg.subscribe("dup.subject", None, "same", 7).unwrap();
    assert_ne!(a, b);
    let r = reg.publish_match("dup.subject").unwrap();
    assert_eq!(r.subs.len(), 2);
    reg.unsubscribe(a).unwrap();
    let r = reg.publish_match("dup.subject").unwrap();
    assert_eq!(r.subs, vec![b]);
    reg.unsubscribe(b).unwrap();
    let r = reg.publish_match("dup.subject").unwrap();
    assert_eq!(r.subs.len(), 0);
    // A handle is removable once only.
    assert!(reg.unsubscribe(a).is_err());
}

#[test]
fn insert_remove_restores() {
    let mut reg = Registry::new();
    let id = reg.subscribe("some.long.subject", None, "1", 0).unwrap();
    let r = reg.publish_match("some.long.subject").unwrap();
    assert_eq!(r.subs, vec![id]);
    reg.unsubscribe(id).unwrap();
    let r = reg.publish_match("some.long.subject").unwrap();
    assert_eq!(r.subs.len(), 0);
    // Pruning leaves no residual nodes.
    assert!(reg.is_empty());
}

#[test]
fn queue_groups_merge_across_patterns() {
    // Members of one group reached through different patterns compete as
    // one group.
    let mut reg = Registry::new();
    reg.subscribe("foo.*", Some("g"), "1", 0).unwrap();
    reg.subscribe("foo.bar", Some("g"), "2", 0).unwrap();
    reg.subscribe("foo.>", Some("h"), "3", 0).unwrap();
    let r = reg.publish_match("foo.bar").unwrap();
    assert_eq!(r.subs.len(), 0);
    assert_eq!(r.qsubs.len(), 2);
}

#[test]
fn get_subscription_fields() {
    let mut reg = Registry::new();
    let id = reg.subscribe("a.b", Some("grp"), "sid-1", 42).unwrap();
    let sub = reg.get_subscription(id).unwrap();
    assert_eq!(sub.subject, "a.b");
    assert_eq!(sub.queue.as_deref(), Some("grp"));
    assert_eq!(sub.sid, "sid-1");
    assert_eq!(sub.target, 42);
    assert!(reg.get_subscription(id + 1).is_none());
}
