use toywoot::codec::{json_decode, json_encode};
use toywoot::woot::{new_site, Character, Operation, WootError, ID};

#[test]
fn test_encode_exact_shape() {
    let mut s1 = new_site(1, 0);
    let op = s1.generate_ins(1, "a").unwrap();
    let expected = "{\"op\":\"INS\",\
\"c\":{\"id\":{\"ns\":1,\"ng\":1},\"c\":\"a\",\"visible\":true,\
\"prev_id\":{\"ns\":-9223372036854775808,\"ng\":0},\
\"next_id\":{\"ns\":9223372036854775807,\"ng\":0}},\
\"arg1\":{\"id\":{\"ns\":-9223372036854775808,\"ng\":0},\"c\":\"\",\
\"visible\":false,\"prev_id\":null,\"next_id\":null},\
\"arg2\":{\"id\":{\"ns\":9223372036854775807,\"ng\":0},\"c\":\"\",\
\"visible\":false,\"prev_id\":null,\"next_id\":null}}";
    assert_eq!(json_encode(&op), expected);
}

#[test]
fn test_round_trip_ins() {
    let mut s1 = new_site(42, 7) ;
    let op = s1.generate_ins(1, "q").unwrap();
    let wire = json_encode(&op);
    let back = json_decode(wire.as_str()).unwrap();
    assert_eq!(back.op, op.op);
    assert_eq!(back.c.id, op.c.id);
    assert_eq!(back.c.c, op.c.c);
    assert_eq!(back.c.visible, op.c.visible);
    assert_eq!(back.c.prev_id, op.c.prev_id);
    assert_eq!(back.c.next_id, op.c.next_id);
    assert_eq!(back.arg1.as_ref().map(|c| c.id), op.arg1.as_ref().map(|c| c.id));
    assert_eq!(back.arg2.as_ref().map(|c| c.id), op.arg2.as_ref().map(|c| c.id));
}

#[test]
fn test_round_trip_del() {
    let mut s1 = new_site(-3, 0);
    s1.generate_ins(1, "a").unwrap();
    let op = s1.generate_del(1).unwrap();
    let wire = json_encode(&op);
    let back = json_decode(wire.as_str()).unwrap();
    assert_eq!(back.op, "DEL");
    assert_eq!(back.c.id, op.c.id);
    assert!(back.arg1.is_none());
    assert!(back.arg2.is_none());
}

#[test]
fn test_round_trip_escaped_glyph() {
    let tricky = Character {
        id: ID { ns: 5, ng: 9 },
        c: String::from("\"\\x"),
        visible: true,
        prev_id: Some(ID { ns: i64::MIN, ng: 0 }),
        next_id: Some(ID { ns: i64::MAX, ng: 0 }),
    };
    let op = Operation {
        op: String::from("DEL"),
        c: tricky,
        arg1: None,
        arg2: None,
    };
    let wire = json_encode(&op);
    assert!(wire.contains("\\\"\\\\x"));
    let back = json_decode(wire.as_str()).unwrap();
    assert_eq!(back.c.c, "\"\\x");
    assert_eq!(back.c.id, ID { ns: 5, ng: 9 });
}

#[test]
fn test_round_trip_extreme_ids() {
    let edge = Character {
        id: ID { ns: i64::MIN, ng: i64::MAX },
        c: String::from("z"),
        visible: false,
        prev_id: None,
        next_id: Some(ID { ns: -1, ng: -9223372036854775808 }),
    };
    let op = Operation {
        op: String::from("DEL"),
        c: edge,
        arg1: None,
        arg2: None,
    };
    let wire = json_encode(&op);
    let back = json_decode(wire.as_str()).unwrap();
    assert_eq!(back.c.id, ID { ns: i64::MIN, ng: i64::MAX });
    assert_eq!(back.c.visible, false);
    assert_eq!(back.c.prev_id, None);
    assert_eq!(back.c.next_id, Some(ID { ns: -1, ng: i64::MIN }));
}

#[test]
fn test_decode_hand_written() {
    let wire = "{\"op\":\"DEL\",\
\"c\":{\"id\":{\"ns\":-7,\"ng\":12},\"c\":\"k\",\"visible\":true,\
\"prev_id\":null,\"next_id\":null},\
\"arg1\":null,\"arg2\":null}";
    let op = json_decode(wire).unwrap();
    assert_eq!(op.op, "DEL");
    assert_eq!(op.c.id, ID { ns: -7, ng: 12 });
    assert_eq!(op.c.c, "k");
    assert!(op.c.visible);
}

#[test]
fn test_decode_rejects_garbage() {
    assert_eq!(json_decode("").err(), Some(WootError::MalformedOperation));
    assert_eq!(json_decode("{}").err(), Some(WootError::MalformedOperation));
    assert_eq!(json_decode("{\"op\":\"DEL\"").err(), Some(WootError::MalformedOperation));
    assert_eq!(
        json_decode("{\"op\":\"DEL\",\"c\":{\"id\":{\"ns\":1e3,\"ng\":0}").err(),
        Some(WootError::MalformedOperation)
    );
    // A clock beyond the signed 64-bit range must not wrap.
    let overflowing = "{\"op\":\"DEL\",\
\"c\":{\"id\":{\"ns\":9223372036854775808,\"ng\":0},\"c\":\"k\",\
\"visible\":true,\"prev_id\":null,\"next_id\":null},\
\"arg1\":null,\"arg2\":null}";
    assert_eq!(json_decode(overflowing).err(), Some(WootError::MalformedOperation));
}

#[test]
fn test_decoded_operation_integrates() {
    let mut s1 = new_site(1, 0);
    let mut s2 = new_site(2, 0);
    let op = s1.generate_ins(1, "a").unwrap();
    let wire = json_encode(&op);
    let received = json_decode(wire.as_str()).unwrap();
    s2.execute(received).unwrap();
    assert_eq!(s2.seq.text(), "a");
}
