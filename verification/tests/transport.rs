//! Publish and subscribe within one process.
use continuo::ids::{ComponentId, ComponentPath};
use continuo::keyexpr::KeyExpr;
use continuo::messages::Message;
use continuo::time::SimTime;
use continuo::transport::{
    path_comes_before, show, InProcTransport, Monitor, MonitorTransport, ReleaseRule, Transport,
};
use continuo::tree::Tree;

fn path(s: &str) -> ComponentPath {
    ComponentPath::parse(s).unwrap()
}

fn kx(s: &str) -> KeyExpr {
    KeyExpr::new(s).unwrap()
}

fn message(key: &str, publisher: &str, seq: u64, millis: i64) -> Message {
    Message {
        key: kx(key),
        publisher: path(publisher),
        seq,
        sim_time: SimTime::from_millis(millis),
        payload: Vec::new(),
    }
}

/// Drains a component at an instant, as publishers and numbers.
fn drained<T: Transport>(
    transport: &mut T,
    tree: &Tree,
    who: &str,
    millis: i64,
) -> Vec<(String, u64)> {
    let who = path(who);
    let rule = ReleaseRule::new(tree, SimTime::from_millis(millis), &who);
    transport
        .drain(&who, &rule)
        .iter()
        .map(|m| (m.publisher.to_string(), m.seq))
        .collect()
}

#[test]
fn paths_are_in_the_order_of_their_names() {
    assert!(path_comes_before(&path("a"), &path("b")));
    assert!(path_comes_before(&path("a"), &path("a/b")));
    assert!(path_comes_before(&path("a/z"), &path("ab")));
    assert!(path_comes_before(&ComponentPath::root(), &path("a")));
    assert!(!path_comes_before(&path("a/b"), &path("a/b")));
    assert!(!path_comes_before(&path("b"), &path("a/b")));
}

#[test]
fn an_inbox_is_sorted_whatever_order_it_arrived_in() {
    let tree = Tree::new();
    let arrivals = [("b", 0), ("a/y", 7), ("a/x", 1), ("a/x", 0), ("a", 9)];
    let expected = vec![
        ("a".to_string(), 9),
        ("a/x".to_string(), 0),
        ("a/x".to_string(), 1),
        ("a/y".to_string(), 7),
        ("b".to_string(), 0),
    ];
    for turn in 0..arrivals.len() {
        let mut transport = InProcTransport::new();
        transport.subscribe(path("reader"), kx("**"));
        for k in 0..arrivals.len() {
            let (publisher, seq) = arrivals[(turn + k) % arrivals.len()];
            transport.publish(&message("k", publisher, seq, 0));
        }
        assert_eq!(drained(&mut transport, &tree, "reader", 1), expected);
        assert!(drained(&mut transport, &tree, "reader", 2).is_empty());
    }
}

#[test]
fn only_what_was_asked_for_is_delivered_and_only_from_then_on() {
    let tree = Tree::new();
    let mut transport = InProcTransport::new();
    transport.publish(&message("x/pose", "a", 0, 0));
    transport.subscribe(path("reader"), kx("*/pose"));
    transport.subscribe(path("reader"), kx("x/radar"));
    transport.publish(&message("x/pose", "a", 1, 0));
    transport.publish(&message("x/radar", "a", 2, 0));
    transport.publish(&message("x/y/pose", "a", 3, 0));
    assert_eq!(
        drained(&mut transport, &tree, "reader", 1),
        vec![("a".to_string(), 1), ("a".to_string(), 2)]
    );
    assert!(drained(&mut transport, &tree, "stranger", 1).is_empty());
}

#[test]
fn a_message_of_this_instant_waits_unless_an_earlier_sibling_sent_it() {
    let mut tree = Tree::new();
    for name in ["controller", "physics"] {
        tree.note_child(&path("car"), &ComponentId::new(name).unwrap());
    }
    tree.note_child(&ComponentPath::root(), &ComponentId::new("car").unwrap());
    tree.note_child(&ComponentPath::root(), &ComponentId::new("other").unwrap());
    let mut transport = InProcTransport::new();
    transport.subscribe(path("car/physics"), kx("k"));
    transport.publish(&message("k", "other", 0, 10));
    transport.publish(&message("k", "car/controller", 0, 10));
    assert_eq!(
        drained(&mut transport, &tree, "car/physics", 10),
        vec![("car/controller".to_string(), 0)]
    );
    assert_eq!(
        drained(&mut transport, &tree, "car/physics", 11),
        vec![("other".to_string(), 0)]
    );
}

#[test]
fn a_mailbox_goes_with_its_owner() {
    let tree = Tree::new();
    let mut transport = InProcTransport::new();
    transport.subscribe(path("a"), kx("k"));
    transport.subscribe(path("b"), kx("k"));
    transport.publish(&message("k", "p", 0, 0));
    transport.unsubscribe(&path("a"));
    transport.subscribe(path("a"), kx("k"));
    transport.publish(&message("k", "p", 1, 0));
    assert_eq!(
        drained(&mut transport, &tree, "a", 1),
        vec![("p".to_string(), 1)]
    );
    assert_eq!(
        drained(&mut transport, &tree, "b", 1),
        vec![("p".to_string(), 0), ("p".to_string(), 1)]
    );
}

/// Writes down what it is shown.
struct Notes(std::rc::Rc<std::cell::RefCell<Vec<(String, u64)>>>);

impl Monitor for Notes {
    fn published(&mut self, message: &Message) {
        self.0
            .borrow_mut()
            .push((message.key.to_string(), message.seq));
    }
}

#[test]
fn showing_a_message_is_one_call_of_the_monitors_own() {
    let notes: std::rc::Rc<std::cell::RefCell<Vec<(String, u64)>>> = Default::default();
    let monitor = show(Notes(notes.clone()), &message("w/a", "b", 7, 10));
    assert_eq!(*monitor.0.borrow(), vec![("w/a".to_string(), 7)]);
    assert_eq!(notes.borrow().len(), 1);
}

#[test]
fn a_monitor_is_shown_every_message_and_changes_none() {
    let tree = Tree::new();
    let notes: std::rc::Rc<std::cell::RefCell<Vec<(String, u64)>>> = Default::default();
    let mut plain = InProcTransport::new();
    let mut monitored = MonitorTransport::new(InProcTransport::new(), Notes(notes.clone()));
    plain.subscribe(path("a"), kx("w/wanted"));
    monitored.subscribe(path("a"), kx("w/wanted"));
    for m in [
        message("w/wanted", "b", 1, 10),
        message("w/unwanted", "b", 2, 10),
        message("w/wanted", "b", 0, 10),
    ] {
        plain.publish(&m);
        monitored.publish(&m);
    }
    assert_eq!(
        *notes.borrow(),
        vec![
            ("w/wanted".to_string(), 1),
            ("w/unwanted".to_string(), 2),
            ("w/wanted".to_string(), 0),
        ],
        "in the order they were published, whether or not anybody asked"
    );
    let seen = drained(&mut monitored, &tree, "a", 20);
    assert_eq!(seen, drained(&mut plain, &tree, "a", 20));
    assert_eq!(seen, vec![("b".to_string(), 0), ("b".to_string(), 1)]);
    monitored.unsubscribe(&path("a"));
    monitored.publish(&message("w/wanted", "b", 3, 30));
    assert!(drained(&mut monitored, &tree, "a", 40).is_empty());
    assert_eq!(notes.borrow().len(), 4);
}
