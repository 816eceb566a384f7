use toywoot::woot::{cb, ce, new_sequence, new_site, Character, Operation, Sequence, WootError, ID};

fn site_id() -> i64 {
    1
}

fn initial_seq() -> Sequence {
    new_sequence()
}

fn character(_s: String, site_id: i64, clock: i64) -> Character {
    Character {
        id: ID { ns: site_id, ng: clock },
        c: String::from("a"),
        visible: true,
        prev_id: None,
        next_id: None,
    }
}

#[test]
fn test_pos() {
    let seq = initial_seq();
    assert_eq!(seq.pos(&cb()).is_some_and(|p| p == 0), true);
    assert_eq!(seq.pos(&ce()).is_some_and(|p| p == 1), true);

    let ch = character(String::from("a"), site_id(), 0);
    assert_eq!(seq.pos(&ch).is_none(), true);
}

#[test]
fn test_insert_and_delete() {
    let mut site = new_site(1, 0);
    // [cb,ce] => [cb, a, b, ce]
    assert_eq!(site.generate_ins(1, "a").is_ok(), true);
    assert_eq!(site.generate_ins(2, "b").is_ok(), true);
    assert_eq!(site.seq.ith_visible(1).is_some_and(|c| c.c == "a"), true);
    assert_eq!(site.seq.ith_visible(2).is_some_and(|c| c.c == "b"), true);

    // [cb, a, b, ce] - ins(1,b) -> [cb, b, a, b, ce]
    assert_eq!(site.generate_ins(1, "b").is_ok(), true);
    assert_eq!(site.seq.ith_visible(1).is_some_and(|c| c.c == "b"), true);
    assert_eq!(site.seq.ith_visible(2).is_some_and(|c| c.c == "a"), true);
    assert_eq!(site.seq.ith_visible(3).is_some_and(|c| c.c == "b"), true);

    // [cb, b, a, b, ce] - ins(3, c) -> [cb, b, a, c, b, ce]
    assert_eq!(site.generate_ins(3, "c").is_ok(), true);
    assert_eq!(site.seq.ith_visible(1).is_some_and(|c| c.c == "b"), true);
    assert_eq!(site.seq.ith_visible(2).is_some_and(|c| c.c == "a"), true);
    assert_eq!(site.seq.ith_visible(3).is_some_and(|c| c.c == "c"), true);
    assert_eq!(site.seq.ith_visible(4).is_some_and(|c| c.c == "b"), true);

    // [cb, b, a, c, b, ce] - (del 4) -> [cb, b, a, c, ce]
    assert_eq!(site.generate_del(4).is_ok(), true);
    assert_eq!(site.seq.ith_visible(1).is_some_and(|c| c.c == "b"), true);
    assert_eq!(site.seq.ith_visible(2).is_some_and(|c| c.c == "a"), true);
    assert_eq!(site.seq.ith_visible(3).is_some_and(|c| c.c == "c"), true);

    // [cb, b, a, c, ce] - (del 2) -> [cb, b, c, ce]
    assert_eq!(site.generate_del(2).is_ok(), true);
    assert_eq!(site.seq.ith_visible(1).is_some_and(|c| c.c == "b"), true);
    assert_eq!(site.seq.ith_visible(2).is_some_and(|c| c.c == "c"), true);
    assert_eq!(site.seq.ith_visible(3).is_none(), true);

    // [b, a(not visible), c] of subseq(b,c) should be a(not visible)
    let c1 = site.seq.ith_visible(1).unwrap();
    let c2 = site.seq.ith_visible(2).unwrap();
    let sub = site.seq.subseq(&c1, &c2).unwrap();
    assert_eq!(sub.len(), 1);

    // [cb, b, c, ce] - ins(2,a) -> [cb, b, c, a, ce]
    assert_eq!(site.generate_ins(2, "a").is_ok(), true);
    assert_eq!(site.seq.ith_visible(1).is_some_and(|c| c.c == "b"), true);
    assert_eq!(site.seq.ith_visible(2).is_some_and(|c| c.c == "a"), true);
    assert_eq!(site.seq.ith_visible(3).is_some_and(|c| c.c == "c"), true);

    assert_eq!(site.seq.text(), "bac");
}

#[test]
fn test_first_insert_spans_the_sentinels() {
    let mut site = new_site(1, 0);
    let op = site.generate_ins(1, "x").unwrap();
    assert_eq!(op.op, "INS");
    assert_eq!(op.c.prev_id, Some(ID { ns: i64::MIN, ng: 0 }));
    assert_eq!(op.c.next_id, Some(ID { ns: i64::MAX, ng: 0 }));
    assert_eq!(op.c.id, ID { ns: 1, ng: 1 });
    assert!(op.c.visible);
    assert_eq!(site.seq.text(), "x");
}

#[test]
fn test_generate_del_at_zero_fails() {
    let mut site = new_site(1, 0);
    assert_eq!(site.generate_del(0).err(), Some(WootError::TargetNotFound));
    site.generate_ins(1, "x").unwrap();
    assert_eq!(site.generate_del(0).err(), Some(WootError::TargetNotFound));
}

#[test]
fn test_nth_visible_beyond_count_is_absent() {
    let mut site = new_site(1, 0);
    assert!(site.seq.ith_visible(0).is_none());
    assert!(site.seq.ith_visible(1).is_none());
    site.generate_ins(1, "x").unwrap();
    site.generate_ins(2, "y").unwrap();
    assert!(site.seq.ith_visible(2).is_some());
    assert!(site.seq.ith_visible(3).is_none());
    assert!(site.seq.ith_visible(100).is_none());
}

#[test]
fn test_single_site_sequential_insert() {
    let mut s1 = new_site(1, 0);
    s1.generate_ins(1, "a").unwrap();
    s1.generate_ins(2, "b").unwrap();
    s1.generate_ins(1, "b").unwrap();
    s1.generate_ins(3, "c").unwrap();
    assert_eq!(s1.seq.text(), "bacb");
}

#[test]
fn test_single_site_insert_then_delete() {
    let mut s1 = new_site(1, 0);
    s1.generate_ins(1, "a").unwrap();
    s1.generate_ins(2, "b").unwrap();
    s1.generate_ins(1, "b").unwrap();
    s1.generate_ins(3, "c").unwrap();
    s1.generate_del(4).unwrap();
    s1.generate_del(2).unwrap();
    assert_eq!(s1.seq.text(), "bc");
}

#[test]
fn test_reinsert_at_tombstoned_gap() {
    // Build "bc" with a tombstoned "a" between them.
    let mut s1 = new_site(1, 0);
    s1.generate_ins(1, "b").unwrap();
    s1.generate_ins(2, "a").unwrap();
    s1.generate_ins(3, "c").unwrap();
    s1.generate_del(2).unwrap();
    assert_eq!(s1.seq.text(), "bc");
    let before = s1.seq.len();
    s1.generate_ins(2, "a").unwrap();
    assert_eq!(s1.seq.text(), "bac");
    // The tombstone stays; the new character is added beside it.
    assert_eq!(s1.seq.len(), before + 1);
}

#[test]
fn test_concurrent_insert_at_same_position() {
    let mut s1 = new_site(1, 0);
    let mut s2 = new_site(2, 0);
    let op1 = s1.generate_ins(1, "a").unwrap();
    let op2 = s2.generate_ins(1, "b").unwrap();
    s1.execute(op2).unwrap();
    s2.execute(op1).unwrap();
    assert_eq!(s1.seq.text(), "ab");
    assert_eq!(s2.seq.text(), "ab");
}

#[test]
fn test_concurrent_insert_inside_anothers_insert() {
    let mut s1 = new_site(1, 0);
    let mut s2 = new_site(2, 0);
    let op_x = s1.generate_ins(1, "x").unwrap();
    assert_eq!(s1.seq.text(), "x");
    let op_y = s2.generate_ins(1, "y").unwrap();
    assert_eq!(s2.seq.text(), "y");
    s1.execute(op_y).unwrap();
    s2.execute(op_x).unwrap();
    assert_eq!(s1.seq.text(), s2.seq.text());
    assert_eq!(s1.seq.text(), "xy");
}

#[test]
fn test_delete_then_insert_interleave() {
    let mut s1 = new_site(1, 0);
    let mut s2 = new_site(2, 0);
    let op_x = s1.generate_ins(1, "x").unwrap();
    s2.execute(op_x).unwrap();
    assert_eq!(s2.seq.text(), "x");
    let op_d = s1.generate_del(1).unwrap();
    let op_y = s2.generate_ins(2, "y").unwrap();
    s1.execute(op_y).unwrap();
    s2.execute(op_d).unwrap();
    assert_eq!(s1.seq.text(), "y");
    assert_eq!(s2.seq.text(), "y");
    // "x" is tombstoned, not removed.
    assert_eq!(s1.seq.len(), 4);
    assert_eq!(s2.seq.len(), 4);
}

#[test]
fn test_delete_is_idempotent() {
    let mut s1 = new_site(1, 0);
    let mut s2 = new_site(2, 0);
    let op_x = s1.generate_ins(1, "x").unwrap();
    s2.execute(op_x).unwrap();
    let op_d = s1.generate_del(1).unwrap();
    let copy = Operation {
        op: op_d.op.clone(),
        c: Character {
            id: op_d.c.id,
            c: op_d.c.c.clone(),
            visible: op_d.c.visible,
            prev_id: op_d.c.prev_id,
            next_id: op_d.c.next_id,
        },
        arg1: None,
        arg2: None,
    };
    s2.execute(op_d).unwrap();
    assert_eq!(s2.seq.text(), "");
    let len_once = s2.seq.len();
    s2.execute(copy).unwrap();
    assert_eq!(s2.seq.text(), "");
    assert_eq!(s2.seq.len(), len_once);
}

#[test]
fn test_insert_is_idempotent() {
    let mut s1 = new_site(1, 0);
    let mut s2 = new_site(2, 0);
    let op_x = s1.generate_ins(1, "x").unwrap();
    let encoded = toywoot::codec::json_encode(&op_x);
    s2.execute(op_x).unwrap();
    assert_eq!(s2.seq.text(), "x");
    let len_once = s2.seq.len();
    let again = toywoot::codec::json_decode(encoded.as_str()).unwrap();
    s2.execute(again).unwrap();
    assert_eq!(s2.seq.text(), "x");
    assert_eq!(s2.seq.len(), len_once);
}

#[test]
fn test_concurrent_ops_commute() {
    // One deletion and one insertion of distinct characters, integrated in
    // both orders, converge.
    let mut origin = new_site(1, 0);
    let op_x = origin.generate_ins(1, "x").unwrap();
    let x_enc = toywoot::codec::json_encode(&op_x);
    let op_y = origin.generate_ins(2, "y").unwrap();
    let y_enc = toywoot::codec::json_encode(&op_y);
    let op_d = origin.generate_del(1).unwrap();
    let d_enc = toywoot::codec::json_encode(&op_d);

    let mut a = new_site(7, 0);
    a.execute(toywoot::codec::json_decode(x_enc.as_str()).unwrap()).unwrap();
    a.execute(toywoot::codec::json_decode(y_enc.as_str()).unwrap()).unwrap();
    a.execute(toywoot::codec::json_decode(d_enc.as_str()).unwrap()).unwrap();

    let mut b = new_site(8, 0);
    b.execute(toywoot::codec::json_decode(x_enc.as_str()).unwrap()).unwrap();
    b.execute(toywoot::codec::json_decode(d_enc.as_str()).unwrap()).unwrap();
    b.execute(toywoot::codec::json_decode(y_enc.as_str()).unwrap()).unwrap();

    assert_eq!(a.seq.text(), b.seq.text());
    assert_eq!(a.seq.text(), "y");
    assert_eq!(a.seq.len(), b.seq.len());
}

#[test]
fn test_no_resurrection() {
    // Re-integrating the insertion of a tombstoned character must not make
    // it visible again.
    let mut s1 = new_site(1, 0);
    let op_x = s1.generate_ins(1, "x").unwrap();
    let x_wire = toywoot::codec::json_encode(&op_x);
    s1.generate_del(1).unwrap();
    assert_eq!(s1.seq.text(), "");
    let replay = toywoot::codec::json_decode(x_wire.as_str()).unwrap();
    s1.execute(replay).unwrap();
    assert_eq!(s1.seq.text(), "");
}

#[test]
fn test_disjoint_inserts_commute() {
    let mut origin = new_site(1, 0);
    let op_a = origin.generate_ins(1, "a").unwrap();
    let a_enc = toywoot::codec::json_encode(&op_a);
    let op_b = origin.generate_ins(2, "b").unwrap();
    let b_enc = toywoot::codec::json_encode(&op_b);
    // An insertion before "a" and one after "b" have disjoint contexts.
    let op_l = origin.generate_ins(1, "l").unwrap();
    let l_enc = toywoot::codec::json_encode(&op_l);
    let op_r = origin.generate_ins(4, "r").unwrap();
    let r_enc = toywoot::codec::json_encode(&op_r);
    assert_eq!(origin.seq.text(), "labr");

    let decode = |s: &str| toywoot::codec::json_decode(s).unwrap();
    let mut p = new_site(5, 0);
    p.execute(decode(a_enc.as_str())).unwrap();
    p.execute(decode(b_enc.as_str())).unwrap();
    p.execute(decode(l_enc.as_str())).unwrap();
    p.execute(decode(r_enc.as_str())).unwrap();

    let mut q = new_site(6, 0);
    q.execute(decode(a_enc.as_str())).unwrap();
    q.execute(decode(b_enc.as_str())).unwrap();
    q.execute(decode(r_enc.as_str())).unwrap();
    q.execute(decode(l_enc.as_str())).unwrap();

    assert_eq!(p.seq.text(), "labr");
    assert_eq!(q.seq.text(), "labr");
}

#[test]
fn test_execute_rejects_missing_context() {
    let mut site = new_site(1, 0);
    let ghostly = |ng: i64| Character {
        id: ID { ns: 9, ng },
        c: String::from("z"),
        visible: true,
        prev_id: Some(ID { ns: i64::MIN, ng: 0 }),
        next_id: Some(ID { ns: i64::MAX, ng: 0 }),
    };
    let op = Operation {
        op: String::from("INS"),
        c: ghostly(3),
        arg1: Some(ghostly(1)),
        arg2: Some(ghostly(2)),
    };
    assert_eq!(site.execute(op).err(), Some(WootError::ContextMissing));
}

#[test]
fn test_execute_rejects_unknown_tag_and_missing_args() {
    let mut site = new_site(1, 0);
    let c = Character {
        id: ID { ns: 1, ng: 1 },
        c: String::from("z"),
        visible: true,
        prev_id: Some(ID { ns: i64::MIN, ng: 0 }),
        next_id: Some(ID { ns: i64::MAX, ng: 0 }),
    };
    let bad_tag = Operation {
        op: String::from("MOV"),
        c,
        arg1: None,
        arg2: None,
    };
    assert_eq!(site.execute(bad_tag).err(), Some(WootError::MalformedOperation));
    let c2 = Character {
        id: ID { ns: 1, ng: 1 },
        c: String::from("z"),
        visible: true,
        prev_id: Some(ID { ns: i64::MIN, ng: 0 }),
        next_id: Some(ID { ns: i64::MAX, ng: 0 }),
    };
    let no_args = Operation {
        op: String::from("INS"),
        c: c2,
        arg1: None,
        arg2: None,
    };
    assert_eq!(site.execute(no_args).err(), Some(WootError::MalformedOperation));
}

#[test]
fn test_sequence_insert_out_of_bounds() {
    let mut seq = new_sequence();
    let ch = character(String::from("a"), 1, 1);
    assert_eq!(seq.insert(&ch, 99), Err(WootError::OutOfBounds));
    assert_eq!(seq.insert(&ch, 2), Err(WootError::OutOfBounds));
    assert!(seq.insert(&ch, 1).is_ok());
}

#[test]
fn test_subseq_endpoints() {
    let seq = new_sequence();
    let sub = seq.subseq(&cb(), &ce()).unwrap();
    assert_eq!(sub.len(), 0);
    let missing = character(String::from("a"), 1, 1);
    assert_eq!(seq.subseq(&cb(), &missing).err(), Some(WootError::TargetNotFound));
    // Reversed endpoints yield the empty slice.
    let rev = seq.subseq(&ce(), &cb()).unwrap();
    assert_eq!(rev.len(), 0);
}

#[test]
fn test_subsequence_pos_and_nth() {
    let mut site = new_site(1, 0);
    site.generate_ins(1, "a").unwrap();
    site.generate_ins(2, "b").unwrap();
    let sub = site.seq.subseq(&cb(), &ce()).unwrap();
    assert_eq!(sub.len(), 2);
    assert_eq!(sub.nth(0).map(|c| c.c.clone()), Some(String::from("a")));
    assert_eq!(sub.nth(1).map(|c| c.c.clone()), Some(String::from("b")));
    assert!(sub.nth(2).is_none());
    let b = site.seq.ith_visible(2).unwrap();
    assert_eq!(sub.pos(&b), Some(1));
    assert_eq!(sub.pos(&ce()), None);
}

#[test]
fn test_id_order() {
    let a = ID { ns: 1, ng: 5 };
    let b = ID { ns: 2, ng: 1 };
    let c = ID { ns: 1, ng: 6 };
    assert!(a.less_than(&b));
    assert!(!b.less_than(&a));
    assert!(a.less_than(&c));
    assert!(a.less_than_or_equal(&a));
    assert!(!a.less_than(&a));
    // The corrected comparator: a bigger clock on a smaller site wins nothing.
    let big_clock = ID { ns: 1, ng: 100 };
    assert!(!b.less_than_or_equal(&big_clock));
    assert!(big_clock.less_than_or_equal(&b));
}

#[test]
fn test_countup_advances_clock() {
    let mut site = new_site(1, 0);
    site.countup();
    site.countup();
    let op = site.generate_ins(1, "a").unwrap();
    assert_eq!(op.c.id, ID { ns: 1, ng: 3 });
}
