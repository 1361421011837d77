//! Rejecting non-finite floats at the publisher.
//!
//! Two things are under test and they pull in opposite directions. A `NaN` or
//! an infinity must be refused wherever it is nested, because JSON writes it
//! as `null` and it would decode nowhere. And a payload that legitimately
//! holds a `null` must still publish.
use continuo::component::StepCtx;
use continuo::error::CoreError;
use continuo::finite::{may_hide_non_finite, Finder, NonFinite, NonFiniteValue};
use continuo::keyexpr::KeyExpr;
use continuo::time::SimTime;

/// A value to publish.
enum Tree {
    Float(f64),
    Text(String),
    Missing,
    List(Vec<Tree>),
    Record(Vec<(&'static str, Tree)>),
}

/// What a serializer makes of a value.
fn json(value: &Tree) -> serde_json::Value {
    match value {
        Tree::Float(number) => serde_json::Value::from(*number),
        Tree::Text(text) => serde_json::Value::from(text.clone()),
        Tree::Missing => serde_json::Value::Null,
        Tree::List(items) => serde_json::Value::Array(items.iter().map(json).collect()),
        Tree::Record(fields) => {
            let mut object = serde_json::Map::new();
            for (name, field) in fields {
                object.insert(name.to_string(), json(field));
            }
            serde_json::Value::Object(object)
        }
    }
}

/// Walks a value, judging every float where it stands.
fn walk(finder: &mut Finder, value: &Tree) -> Result<(), NonFinite> {
    match value {
        Tree::Float(number) => finder.check(number.to_bits()),
        Tree::Text(_) | Tree::Missing => Ok(()),
        Tree::List(items) => {
            finder.enter_sequence();
            for item in items {
                walk(finder, item)?;
                finder.next_element();
            }
            finder.leave();
            Ok(())
        }
        Tree::Record(fields) => {
            for (name, field) in fields {
                finder.enter_field(name);
                walk(finder, field)?;
                finder.leave();
            }
            Ok(())
        }
    }
}

/// Publishes a value through a real `StepCtx` and returns what came back.
fn publish(value: &Tree) -> Result<(), CoreError> {
    let mut ctx = StepCtx::new(SimTime::zero(), None, "demo", 0, Vec::new());
    ctx.publish(
        KeyExpr::new("test/payload").expect("valid key"),
        serde_json::to_vec(&json(value)).map_err(|error| error.to_string()),
        walk(&mut Finder::new(), value).err(),
    )
}

/// The message a rejection carries, for asserting on what it names.
fn rejection(result: Result<(), CoreError>) -> String {
    match result {
        Err(error @ CoreError::NonFiniteFloat { .. }) => error.to_string(),
        other => panic!("expected a non-finite rejection, got {other:?}"),
    }
}

fn vec3(x: f64, y: f64, z: f64) -> Tree {
    Tree::Record(vec![
        ("x", Tree::Float(x)),
        ("y", Tree::Float(y)),
        ("z", Tree::Float(z)),
    ])
}

fn finite_vec3() -> Tree {
    vec3(1.0, 2.0, 3.0)
}

fn finite_quat() -> Tree {
    Tree::Record(vec![
        ("w", Tree::Float(1.0)),
        ("x", Tree::Float(0.0)),
        ("y", Tree::Float(0.0)),
        ("z", Tree::Float(0.0)),
    ])
}

fn nested(position: Tree) -> Tree {
    Tree::Record(vec![
        ("label", Tree::Text("ego".to_string())),
        ("position", position),
        ("orientation", finite_quat()),
    ])
}

fn optional(name: Tree, reading: Tree, position: Tree) -> Tree {
    Tree::Record(vec![
        ("name", name),
        ("reading", reading),
        ("position", position),
    ])
}

#[test]
fn every_kind_of_non_finite_is_refused() {
    for value in [f64::NAN, f64::INFINITY, f64::NEG_INFINITY] {
        let message = rejection(publish(&nested(vec3(1.0, value, 3.0))));

        assert!(
            message.contains("position.y"),
            "the message has to name the field, since finding it is the point: {message}"
        );
        assert!(
            message.contains("test/payload"),
            "and the key, since a component publishes more than one: {message}"
        );
    }
}

#[test]
fn the_value_is_named_so_the_three_causes_are_told_apart() {
    let cases = [
        (f64::NAN, "NaN"),
        (f64::INFINITY, "inf"),
        (f64::NEG_INFINITY, "-inf"),
    ];
    for (value, expected) in cases {
        let message = rejection(publish(&Tree::Float(value)));
        assert!(
            message.contains(expected),
            "expected {expected:?} in the message, got {message}"
        );
    }
}

#[test]
fn a_non_finite_inside_a_sequence_names_its_index() {
    let message = rejection(publish(&Tree::Record(vec![(
        "waypoints",
        Tree::List(vec![
            finite_vec3(),
            vec3(1.0, 2.0, f64::NAN),
            finite_vec3(),
        ]),
    )])));

    assert!(
        message.contains("waypoints[1].z"),
        "the index has to survive into the path: {message}"
    );
}

#[test]
fn a_bare_float_is_refused_without_a_path_to_name() {
    let message = rejection(publish(&Tree::Float(f64::NAN)));

    assert!(message.contains("NaN"), "{message}");
    assert!(
        !message.contains(" at "),
        "a bare value has nowhere to be, so the message should not say where: {message}"
    );
}

#[test]
fn an_f32_is_refused_as_readily_as_an_f64() {
    // The check is on the widened value.
    let message = rejection(publish(&Tree::Record(vec![(
        "temperature",
        Tree::Float(f64::from(f32::NAN)),
    )])));
    assert!(message.contains("temperature"), "{message}");
}

#[test]
fn a_payload_whose_floats_are_finite_publishes() {
    publish(&nested(finite_vec3())).expect("every float is finite");
}

#[test]
fn a_none_still_publishes_even_though_it_writes_null() {
    publish(&optional(Tree::Missing, Tree::Missing, finite_vec3()))
        .expect("a missing value is not a broken one");
}

#[test]
fn the_word_null_inside_a_string_still_publishes() {
    publish(&Tree::Record(vec![
        ("label", Tree::Text("nullable sensor".to_string())),
        ("position", finite_vec3()),
    ]))
    .expect("a string is not a float");
}

#[test]
fn a_non_finite_hidden_behind_a_none_is_still_found() {
    let message = rejection(publish(&optional(
        Tree::Missing,
        Tree::Missing,
        vec3(f64::INFINITY, 2.0, 3.0),
    )));

    assert!(message.contains("position.x"), "{message}");
}

#[test]
fn a_non_finite_inside_a_some_is_found() {
    let message = rejection(publish(&optional(
        Tree::Text("ego".to_string()),
        Tree::Float(f64::NAN),
        finite_vec3(),
    )));

    assert!(message.contains("reading"), "{message}");
}

#[test]
fn the_bits_of_a_float_say_whether_it_is_finite() {
    let finder = Finder::new();
    for finite in [0.0, -0.0, 1.5, f64::MAX, f64::MIN, f64::MIN_POSITIVE, 5e-324] {
        assert!(finder.check(finite.to_bits()).is_ok(), "{finite}");
    }
    let kinds = [
        (f64::NAN, NonFiniteValue::Nan),
        (-f64::NAN, NonFiniteValue::Nan),
        (f64::INFINITY, NonFiniteValue::Infinity),
        (f64::NEG_INFINITY, NonFiniteValue::NegativeInfinity),
    ];
    for (value, kind) in kinds {
        assert_eq!(finder.check(value.to_bits()).unwrap_err().value, kind);
    }
}

#[test]
fn a_walk_says_where_it_is() {
    let mut finder = Finder::new();
    assert_eq!(finder.path(), "");
    finder.enter_field("road");
    finder.enter_field("waypoints");
    finder.enter_sequence();
    finder.next_element();
    finder.next_element();
    finder.enter_field("y");
    assert_eq!(finder.path(), "road.waypoints[2].y");
    finder.leave();
    finder.leave();
    assert_eq!(finder.path(), "road.waypoints");
}

#[test]
fn only_a_payload_with_null_in_it_is_looked_at_closer() {
    assert!(may_hide_non_finite(&b"{\"x\":null}".to_vec()));
    assert!(may_hide_non_finite(&b"\"nullable\"".to_vec()));
    assert!(!may_hide_non_finite(&b"{\"x\":nul}".to_vec()));
    assert!(!may_hide_non_finite(&b"".to_vec()));
}
