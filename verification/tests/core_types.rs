//! The core value types: base64, hashes, ids, key expressions, random
//! streams, seeds, sim time, and what a step is shown.
use continuo::base64::{decode, encode, Base64Error};
use continuo::component::StepCtx;
use continuo::error::CoreError;
use continuo::hash::{hash_bytes, hex_text, parse_hex, HashFnv1a64};
use continuo::ids::{ComponentId, ComponentPath};
use continuo::keyexpr::KeyExpr;
use continuo::messages::{Message, TickDone, TickStart};
use continuo::random::RandomSplitMix64;
use continuo::seed::{derive_component_seed, derive_step_seed, mix_seeds};
use continuo::time::{format_ns, parse_ns, SimDuration, SimTime};

/// RFC 4648 section 10, which is what "canonical" means here.
const VECTORS: [(&str, &str); 7] = [
    ("", ""),
    ("f", "Zg=="),
    ("fo", "Zm8="),
    ("foo", "Zm9v"),
    ("foob", "Zm9vYg=="),
    ("fooba", "Zm9vYmE="),
    ("foobar", "Zm9vYmFy"),
];

#[test]
fn the_encoded_bytes_are_the_standards_own() {
    for (plain, encoded) in VECTORS {
        assert_eq!(encode(plain.as_bytes()), encoded, "encoding {plain:?}");
        assert_eq!(decode(encoded).unwrap(), plain.as_bytes(), "{encoded:?}");
    }
}

#[test]
fn every_byte_value_survives_the_round_trip() {
    let all: Vec<u8> = (0..=255).collect();
    assert_eq!(decode(&encode(&all)).unwrap(), all);

    // Every remainder, since the tail is where an encoder goes wrong.
    for length in 0..8 {
        let bytes = &all[..length];
        assert_eq!(decode(&encode(bytes)).unwrap(), bytes, "{length} bytes");
    }
}

#[test]
fn the_alphabet_is_the_standard_one_rather_than_the_url_safe_one() {
    assert_eq!(encode(&[0xfb, 0xff]), "+/8=");
    assert_eq!(decode("+/8=").unwrap(), [0xfb, 0xff]);
    assert!(decode("-_8=").is_err());
}

#[test]
fn text_outside_the_alphabet_is_refused_with_its_position() {
    assert_eq!(
        decode("Zm.v"),
        Err(Base64Error::NotInAlphabet {
            position: 2,
            found: b'.'
        })
    );

    // Whitespace and line breaks among them, since MIME's wrapped variant is
    // a different encoding rather than a lenient spelling of this one.
    assert!(decode("Zm9v\nZm9v").is_err());
    assert!(decode("Zm9v Zm9v").is_err());
}

#[test]
fn a_group_that_is_not_four_characters_is_refused() {
    assert_eq!(decode("Zg="), Err(Base64Error::Length { length: 3 }));
    assert!(decode("Zm9vYg").is_err());
}

#[test]
fn padding_is_refused_anywhere_but_the_end() {
    assert!(matches!(
        decode("Zg==Zg=="),
        Err(Base64Error::Padding { position: 2 })
    ));
    assert!(decode("Z===").is_err());
    assert!(decode("====").is_err());
}

#[test]
fn a_second_spelling_of_one_value_is_refused() {
    assert_eq!(decode("Zg==").unwrap(), b"f");
    assert!(matches!(
        decode("Zh=="),
        Err(Base64Error::NonCanonical { position: 1 })
    ));
    assert!(matches!(
        decode("Zm9="),
        Err(Base64Error::NonCanonical { position: 2 })
    ));
}

#[test]
fn base64_errors_say_what_is_wrong() {
    assert_eq!(
        decode("Zm.v").unwrap_err().to_string(),
        "byte 2 is 0x2e, which is not in the base64 alphabet"
    );
    assert_eq!(
        decode("Zg=").unwrap_err().to_string(),
        "length 3 is not a multiple of four, so a group is incomplete"
    );
    assert_eq!(
        decode("Zg==Zg==").unwrap_err().to_string(),
        "padding at byte 2 is not at the end, or is more than two characters"
    );
    assert_eq!(
        decode("Zh==").unwrap_err().to_string(),
        "byte 1 sets bits that a canonical encoding leaves zero, so this text decodes to the same \
         value as some other text"
    );
    assert_eq!(
        Base64Error::NotInAlphabet {
            position: 0,
            found: 7
        }
        .to_string(),
        "byte 0 is 0x07, which is not in the base64 alphabet"
    );
}

#[test]
fn known_vectors() {
    // Published FNV-1a 64 test vectors.
    assert_eq!(hash_bytes(b""), 0xcbf2_9ce4_8422_2325);
    assert_eq!(hash_bytes(b"a"), 0xaf63_dc4c_8601_ec8c);
    assert_eq!(hash_bytes(b"foobar"), 0x85944171f73967e8);
}

#[test]
fn incremental_equals_one_shot() {
    let mut h = HashFnv1a64::new();
    h.write(b"foo");
    h.write(b"bar");
    assert_eq!(h.finish(), hash_bytes(b"foobar"));
}

#[test]
fn resume_chains() {
    let first = hash_bytes(b"tick1");
    let mut chained = HashFnv1a64::resume(first);
    chained.write(b"tick2");
    let mut manual = HashFnv1a64::new();
    manual.write(b"tick1");
    manual.write(b"tick2");
    assert_eq!(chained.finish(), manual.finish());
}

#[test]
fn hex_round_trip() {
    let json = serde_json::to_string(&hex_text(0xcbf2_9ce4_8422_2325)).unwrap();
    assert_eq!(json, r#""cbf29ce484222325""#);
    let back: String = serde_json::from_str(&json).unwrap();
    assert_eq!(parse_hex(&back), Some(0xcbf2_9ce4_8422_2325));
}

#[test]
fn hex_is_fixed_width_and_only_hex_is_read() {
    assert_eq!(hex_text(0), "0000000000000000");
    assert_eq!(hex_text(0xabc), "0000000000000abc");
    assert_eq!(parse_hex("xyz"), None);
    assert_eq!(parse_hex(""), None);
    assert_eq!(parse_hex("10000000000000000"), None, "one digit too many");
}

#[test]
fn words_are_absorbed_least_significant_byte_first() {
    let mut by_word = HashFnv1a64::new();
    by_word.write_u64(0x0807_0605_0403_0201);
    assert_eq!(by_word.finish(), hash_bytes(&[1, 2, 3, 4, 5, 6, 7, 8]));

    let mut signed = HashFnv1a64::new();
    signed.write_i64(-1);
    assert_eq!(signed.finish(), hash_bytes(&[0xff; 8]));
}

#[test]
fn different_states_stay_different() {
    let mut a = HashFnv1a64::resume(1);
    let mut b = HashFnv1a64::resume(2);
    a.write(b"the same bytes");
    b.write(b"the same bytes");
    assert_ne!(a.finish(), b.finish());
}

#[test]
fn id_validation() {
    assert!(ComponentId::new("car1").is_ok());
    assert!(ComponentId::new("").is_err());
    assert!(ComponentId::new("a/b").is_err());
    assert!(ComponentId::new("a*").is_err());
}

#[test]
fn path_parse_and_display() {
    let p = ComponentPath::parse("car1/physics").unwrap();
    assert_eq!(p.segments().len(), 2);
    assert_eq!(p.to_string(), "car1/physics");
    assert_eq!(ComponentPath::parse("").unwrap(), ComponentPath::root());
    assert!(ComponentPath::parse("a//b").is_err());
}

#[test]
fn common_prefix() {
    let a = ComponentPath::parse("car1/physics").unwrap();
    let b = ComponentPath::parse("car1/controller").unwrap();
    let c = ComponentPath::parse("car2/physics").unwrap();
    assert_eq!(a.common_prefix_len(&b), 1);
    assert_eq!(a.common_prefix_len(&c), 0);
    assert_eq!(a.common_prefix_len(&a), 2);
}

#[test]
fn a_path_that_does_not_parse_names_the_segment_at_fault() {
    match ComponentPath::parse("car1/phy*sics/x") {
        Err(CoreError::InvalidComponentId(segment)) => assert_eq!(segment, "phy*sics"),
        other => panic!("expected the bad segment, got {other:?}"),
    }
    let text = ComponentPath::parse("a//b").unwrap_err().to_string();
    assert!(text.contains("\"\""), "{text}");
}

#[test]
fn a_path_goes_up_and_down_by_one_segment() {
    let p = ComponentPath::parse("car1/sensors/imu").unwrap();
    assert_eq!(p.parent().unwrap().to_string(), "car1/sensors");
    assert_eq!(
        p.parent().unwrap().join(ComponentId::new("imu").unwrap()),
        p
    );
    assert!(ComponentPath::root().parent().is_none());
    assert!(ComponentPath::root().is_root());
    assert_eq!(ComponentPath::root().to_string(), "");
}

fn kx(s: &str) -> KeyExpr {
    KeyExpr::new(s).unwrap()
}

#[test]
fn validation() {
    assert!(KeyExpr::new("continuo/demo/actor/car1/pose").is_ok());
    assert!(KeyExpr::new("continuo/*/actor/**").is_ok());
    assert!(KeyExpr::new("").is_err());
    assert!(KeyExpr::new("/leading").is_err());
    assert!(KeyExpr::new("trailing/").is_err());
    assert!(KeyExpr::new("a//b").is_err());
    assert!(KeyExpr::new("a/b*c").is_err());
}

#[test]
fn a_refused_key_says_why() {
    let reason = |expr: &str| match KeyExpr::new(expr) {
        Err(CoreError::InvalidKeyExpr { expr: said, reason }) => {
            assert_eq!(said, expr);
            reason
        }
        other => panic!("expected a refusal, got {other:?}"),
    };
    assert_eq!(reason(""), "must be non-empty");
    assert_eq!(
        reason("a//b"),
        "empty chunk (leading, trailing, or double '/')"
    );
    assert_eq!(
        reason("a/b*c"),
        "literal chunks may not contain wildcard characters"
    );
}

#[test]
fn rooting() {
    // Written out rather than built from the root constant: a test assembled
    // from the same constant as the code would agree with it however the
    // constant changed.
    assert_eq!(
        KeyExpr::new_rooted("demo/actor/car1/pose")
            .unwrap()
            .as_str(),
        "continuo/demo/actor/car1/pose"
    );
    assert_eq!(
        KeyExpr::new_rooted("*/actor/*/pose").unwrap().as_str(),
        "continuo/*/actor/*/pose"
    );

    // The separator belongs to `new_rooted`, so passing one is a doubled
    // chunk and is rejected rather than quietly producing `continuo//...`.
    assert!(KeyExpr::new_rooted("/demo/actor").is_err());
}

#[test]
fn rooting_is_not_folded_into_new() {
    // `new` is the deserialization path, so it has to take a complete key.
    let key = KeyExpr::new("continuo/demo/actor/car1/pose").unwrap();
    let text: String =
        serde_json::from_str(&serde_json::to_string(key.as_str()).unwrap()).unwrap();
    let round_tripped = KeyExpr::new(&text).unwrap();

    assert_eq!(round_tripped, key);
}

#[test]
fn literal_matching() {
    assert!(kx("a/b/c").matches(&kx("a/b/c")));
    assert!(!kx("a/b/c").matches(&kx("a/b")));
    assert!(!kx("a/b").matches(&kx("a/b/c")));
    assert!(!kx("a/b/c").matches(&kx("a/b/d")));
}

#[test]
fn single_wildcard() {
    assert!(kx("a/*/c").matches(&kx("a/b/c")));
    assert!(!kx("a/*/c").matches(&kx("a/c")));
    assert!(!kx("a/*").matches(&kx("a/b/c")));
}

#[test]
fn multi_wildcard() {
    assert!(kx("a/**").matches(&kx("a/b/c")));
    assert!(kx("a/**").matches(&kx("a")));
    assert!(kx("**/pose").matches(&kx("continuo/demo/actor/car1/pose")));
    assert!(kx("a/**/d").matches(&kx("a/b/c/d")));
    assert!(kx("a/**/d").matches(&kx("a/d")));
    assert!(!kx("a/**/d").matches(&kx("a/b/c")));
    assert!(kx("**").matches(&kx("anything/at/all")));
}

#[test]
fn deterministic_stream() {
    let mut a = RandomSplitMix64::new(42);
    let mut b = RandomSplitMix64::new(42);
    for _ in 0..100 {
        assert_eq!(a.next_u64(), b.next_u64());
    }
}

#[test]
fn splitmix64_reference_vector() {
    // First outputs of splitmix64 with seed 0, from the reference
    // implementation.
    let mut r = RandomSplitMix64::new(0);
    assert_eq!(r.next_u64(), 0xE220_A839_7B1D_CDAF);
    assert_eq!(r.next_u64(), 0x6E78_9E6A_A1B9_65F4);
    assert_eq!(r.next_u64(), 0x06C4_5D18_8009_454F);
}

#[test]
fn component_seeds_differ_by_path_and_world_seed() {
    let p1 = ComponentPath::parse("car1/physics").unwrap();
    let p2 = ComponentPath::parse("car2/physics").unwrap();
    assert_ne!(derive_component_seed(1, &p1), derive_component_seed(1, &p2));
    assert_ne!(derive_component_seed(1, &p1), derive_component_seed(2, &p1));
    assert_eq!(derive_component_seed(1, &p1), derive_component_seed(1, &p1));
}

#[test]
fn step_seeds_differ_by_the_smallest_time_step() {
    let component_seed = derive_component_seed(42, &ComponentPath::parse("car1").unwrap());
    assert_ne!(
        derive_step_seed(component_seed, 1_000_000_000),
        derive_step_seed(component_seed, 1_000_000_001)
    );
}

#[test]
fn mixing_tells_both_seeds_apart() {
    assert_ne!(mix_seeds(1, 7), mix_seeds(2, 7));
    assert_ne!(mix_seeds(7, 1), mix_seeds(7, 2));
    // The first draw of a stream whose state is the mixed seed word.
    let mut r = RandomSplitMix64::new(5 ^ 3u64.wrapping_mul(0x9E37_79B9_7F4A_7C15));
    assert_eq!(mix_seeds(5, 3), r.next_u64());
}

#[test]
fn per_step_rng_is_reproducible_and_time_dependent() {
    let mut a = StepCtx::new(SimTime::from_millis(10), None, "w", 99, Vec::new());
    let mut b = StepCtx::new(SimTime::from_millis(10), None, "w", 99, Vec::new());
    assert_eq!(a.step_random().next_u64(), b.step_random().next_u64());

    let mut later = StepCtx::new(SimTime::from_millis(20), None, "w", 99, Vec::new());
    assert_ne!(a.step_random().next_u64(), later.step_random().next_u64());

    // Silence unused-mut lints via harmless use.
    let _ = (a.take_outbox(), b.take_outbox(), later.take_outbox());
}

#[test]
fn a_step_is_shown_what_it_was_given() {
    let mut ctx = StepCtx::new(
        SimTime::from_millis(20),
        Some(SimDuration::from_millis(10)),
        "demo",
        7,
        Vec::new(),
    );
    assert_eq!(ctx.now(), SimTime::from_millis(20));
    assert_eq!(ctx.dt(), Some(SimDuration::from_millis(10)));
    assert_eq!(ctx.world_name(), "demo");
    assert_eq!(ctx.component_seed(), 7);
    assert!(ctx.inbox().is_empty());

    ctx.publish(kx("a/b"), Ok(b"1".to_vec()), None).unwrap();
    ctx.publish(kx("a/c"), Ok(b"2".to_vec()), None).unwrap();
    let outbox = ctx.take_outbox();
    assert_eq!(outbox.len(), 2);
    assert_eq!(outbox[0].0.as_str(), "a/b");
    assert_eq!(outbox[1].1, b"2");
    assert!(ctx.take_outbox().is_empty(), "taking drains");
}

#[test]
fn a_value_that_does_not_serialize_is_refused_with_the_serializers_words() {
    let mut ctx = StepCtx::new(SimTime::zero(), None, "demo", 0, Vec::new());
    let refused = ctx.publish(kx("a/b"), Err("key must be a string".to_string()), None);
    match refused {
        Err(CoreError::PayloadSerialize { key, source }) => {
            assert_eq!(key, "a/b");
            assert_eq!(source, "key must be a string");
        }
        other => panic!("expected a serialize error, got {other:?}"),
    }
    assert!(ctx.take_outbox().is_empty());
}

#[test]
fn canonical_formatting() {
    assert_eq!(SimTime::from_nanos(0).to_canonical_string(), "0.0");
    assert_eq!(
        SimTime::from_nanos(1_500_000_000).to_canonical_string(),
        "1.5"
    );
    assert_eq!(
        SimTime::from_nanos(2_000_000_000).to_canonical_string(),
        "2.0"
    );
    assert_eq!(
        SimTime::from_nanos(33_333_333).to_canonical_string(),
        "0.033333333"
    );
    assert_eq!(SimTime::from_nanos(1).to_canonical_string(), "0.000000001");
    assert_eq!(
        SimDuration::from_nanos(-1_500_000_000).to_canonical_string(),
        "-1.5"
    );
}

#[test]
fn parse_round_trip() {
    for ns in [
        0i64,
        1,
        999_999_999,
        1_000_000_000,
        1_500_000_000,
        33_333_333,
        -42_000_000_001,
        i64::MAX,
        i64::MIN + 1,
    ] {
        let s = format_ns(ns);
        assert_eq!(parse_ns(&s).unwrap(), ns, "round-trip failed for {s}");
    }
}

#[test]
fn parse_accepts_bare_integers() {
    assert_eq!(
        "2".parse::<SimTime>().unwrap(),
        SimTime::from_nanos(2_000_000_000)
    );
    assert_eq!(
        "-3".parse::<SimDuration>().unwrap(),
        SimDuration::from_secs(-3)
    );
}

#[test]
fn parse_rejects_bad_input() {
    assert!(parse_ns("1.0000000001").is_err()); // 10 fractional digits
    assert!(parse_ns("1e9").is_err());
    assert!(parse_ns("1.").is_err());
    assert!(parse_ns(".5").is_err());
    assert!(parse_ns("").is_err());
    assert!(parse_ns("abc").is_err());
    assert!(parse_ns("99999999999999999999.0").is_err()); // overflow
}

#[test]
fn the_smallest_instant_survives_the_round_trip() {
    let text = format_ns(i64::MIN);
    assert_eq!(text, "-9223372036.854775808");
    assert_eq!(parse_ns(&text).unwrap(), i64::MIN);
}

#[test]
fn serde_json_round_trip_is_exact_and_canonical() {
    // The canonical text is a JSON number, and a reader that keeps a number's
    // spelling gives it back digit for digit.
    let t = SimTime::from_nanos(1_234_567_891);
    let number: serde_json::Number = serde_json::from_str(&t.to_canonical_string()).unwrap();
    let json = serde_json::to_string(&number).unwrap();
    assert_eq!(json, "1.234567891");
    let back = json.parse::<SimTime>().unwrap();
    assert_eq!(back, t);

    let whole = SimTime::from_nanos(2_000_000_000);
    let number: serde_json::Number = serde_json::from_str(&whole.to_canonical_string()).unwrap();
    assert_eq!(serde_json::to_string(&number).unwrap(), "2.0");
}

#[test]
fn arithmetic() {
    let t = SimTime::from_nanos(5_000_000_000);
    let d = SimDuration::from_millis(1500);
    assert_eq!(t + d, SimTime::from_nanos(6_500_000_000));
    assert_eq!(t - d, SimTime::from_nanos(3_500_000_000));
    assert_eq!(t + d - t, d);
    assert_eq!(d * 2, SimDuration::from_secs(3));
}

#[test]
fn an_unreadable_payload_names_its_key_and_its_publisher() {
    let message = Message {
        key: kx("a/b"),
        publisher: ComponentPath::parse("car1/physics").unwrap(),
        seq: 0,
        sim_time: SimTime::zero(),
        payload: b"1".to_vec(),
    };
    assert_eq!(message.decode(Ok(7)).unwrap(), 7);
    let error = message
        .decode::<u8>(Err("invalid type".to_string()))
        .unwrap_err()
        .to_string();
    for expected in ["a/b", "car1/physics", "invalid type"] {
        assert!(error.contains(expected), "{expected}: {error}");
    }
}

#[test]
fn tick_protocol_messages_carry_their_tick() {
    let start = TickStart {
        tick: 3,
        sim_time: SimTime::from_secs(1),
    };
    let done = TickDone {
        tick: start.tick,
        component_id: ComponentId::new("physics").unwrap(),
        next_due: SimTime::from_secs(2),
    };
    assert_eq!(done.tick, 3);
    assert!(done.next_due.as_nanos() > start.sim_time.as_nanos());
}
