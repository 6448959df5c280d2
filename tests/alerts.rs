use std::collections::HashMap;
use std::rc::Rc;
use sodg::{Alert, Sodg, SodgError, Vertex};

struct Deny;

impl Alert for Deny {
    fn check(&self, _g: &HashMap<u32, Vertex>, _vx: &Vec<u32>) -> Vec<String> {
        vec!["first".to_string(), "second".to_string()]
    }
}

struct Quiet;

impl Alert for Quiet {
    fn check(&self, _g: &HashMap<u32, Vertex>, _vx: &Vec<u32>) -> Vec<String> {
        vec![]
    }
}

#[test]
fn failed_alert_keeps_the_change() {
    let mut g = Sodg::empty();
    g.alerts.push(Rc::new(Quiet));
    g.alerts.push(Rc::new(Deny));
    match g.add(5) {
        Err(SodgError::ValidationFailed(msg)) => assert_eq!("first; second", msg),
        _ => panic!("the alert should have failed the change"),
    }
    assert!(g.contains(5));
}

#[test]
fn alerts_off_skips_checks() {
    let mut g = Sodg::empty();
    g.alerts.push(Rc::new(Deny));
    g.alerts_off();
    assert!(g.add(1).is_ok());
    g.alerts_on();
    assert!(matches!(g.add(2), Err(SodgError::ValidationFailed(_))));
}

#[test]
fn quiet_alert_passes() {
    let mut g = Sodg::empty();
    g.alerts.push(Rc::new(Quiet));
    assert!(g.add(1).is_ok());
    assert!(g.add(2).is_ok());
    assert!(g.bind(1, 2, "x").is_ok());
}

#[test]
fn slice_inherits_alerts() {
    let mut g = Sodg::empty();
    g.add(0).unwrap();
    g.alerts.push(Rc::new(Deny));
    let s = g.slice("").unwrap();
    assert_eq!(1, s.alerts.len());
    assert!(s.alerts_active);
}

#[test]
fn verdict_joins_messages() {
    assert!(sodg::graph::verdict(&vec![]).is_ok());
    match sodg::graph::verdict(&vec!["a".to_string(), "b".to_string(), "c".to_string()]) {
        Err(SodgError::ValidationFailed(msg)) => assert_eq!("a; b; c", msg),
        _ => panic!("messages should fail"),
    }
}
