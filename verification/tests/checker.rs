use dexscreen_paid_notifier::checker::{CooldownAction, Dispatcher, PaidChecker};

#[test]
fn proxies_get_numbers_in_order() {
    let mut c = PaidChecker::new();
    assert_eq!(c.proxy_id("http://p1"), None);
    assert_eq!(c.add_proxy("http://p1"), 0);
    assert_eq!(c.add_proxy("http://p2"), 1);
    assert_eq!(c.proxy_id("http://p1"), Some(0));
    assert_eq!(c.proxy_id("http://p2"), Some(1));
    assert_eq!(c.proxy_id("http://p3"), None);
}

#[test]
fn watched_tokens_keep_their_order() {
    let mut c = PaidChecker::new();
    let p = c.add_proxy("http://p1");
    assert_eq!(c.check_count(), 0);
    c.add_check("MintA".to_string(), p);
    c.add_check("MintB".to_string(), p);
    assert_eq!(c.check_count(), 2);
    assert_eq!(c.check_at(0), ("MintA", 0));
    assert_eq!(c.check_at(1), ("MintB", 0));
}

#[test]
fn paid_tokens_are_remembered_until_the_cooldown_runs_out() {
    let mut c = PaidChecker::new();
    assert_eq!(c.end_round(true), CooldownAction::Keep);
    assert!(!c.is_recent_paid("MintA"));
    c.mark_paid("MintA");
    c.mark_paid("MintA");
    assert!(c.is_recent_paid("MintA"));
    assert!(!c.is_recent_paid("MintB"));
    assert_eq!(c.end_round(false), CooldownAction::Start);
    assert_eq!(c.end_round(false), CooldownAction::Keep);
    assert!(c.is_recent_paid("MintA"));
    assert_eq!(c.end_round(true), CooldownAction::ClearAndRestart);
    assert!(!c.is_recent_paid("MintA"));
    // nothing paid since: the running cooldown is left alone
    assert_eq!(c.end_round(true), CooldownAction::Keep);
    c.mark_paid("MintB");
    assert_eq!(c.end_round(true), CooldownAction::ClearAndRestart);
}

#[test]
fn dispatcher_goes_round_checkers_and_proxies() {
    let mut d = Dispatcher::new(2, 3);
    let routes: Vec<(usize, usize)> = (0..7).map(|_| d.next_route()).collect();
    assert_eq!(routes, vec![(0, 0), (1, 1), (0, 2), (1, 0), (0, 1), (1, 2), (0, 0)]);
}

#[test]
fn dispatcher_with_one_of_each() {
    let mut d = Dispatcher::new(1, 1);
    assert_eq!(d.next_route(), (0, 0));
    assert_eq!(d.next_route(), (0, 0));
}

#[test]
fn dispatcher_remembers_seen_tokens() {
    let mut d = Dispatcher::new(1, 1);
    assert!(!d.is_seen("MintA"));
    d.mark_seen("MintA");
    d.mark_seen("MintA");
    assert!(d.is_seen("MintA"));
    assert!(!d.is_seen("MintB"));
    assert_eq!(d.next_route(), (0, 0));
    assert!(d.is_seen("MintA"));
}

#[test]
fn next_due_passes_over_recently_paid_tokens() {
    let mut c = PaidChecker::new();
    let p = c.add_proxy("http://p1");
    c.add_check("MintA".to_string(), p);
    c.add_check("MintB".to_string(), p);
    c.add_check("MintC".to_string(), p);
    assert_eq!(c.next_due(0), Some(0));
    c.mark_paid("MintA");
    assert_eq!(c.next_due(0), Some(1));
    assert_eq!(c.next_due(2), Some(2));
    c.mark_paid("MintC");
    assert_eq!(c.next_due(2), None);
    assert_eq!(c.next_due(5), None);
    assert_eq!(c.end_round(false), CooldownAction::Start);
    assert_eq!(c.end_round(true), CooldownAction::ClearAndRestart);
    assert_eq!(c.next_due(0), Some(0));
}

#[test]
fn a_paid_answer_is_recorded_and_reported() {
    let mut c = PaidChecker::new();
    assert!(!c.record_result("MintA", false));
    assert!(!c.is_recent_paid("MintA"));
    assert!(c.record_result("MintA", true));
    assert!(c.is_recent_paid("MintA"));
}
