use confix_rs::cbor_cursor::{focus, focus_bytes};
use confix_rs::confix::{confix_doc, PathStep, Syntax, Value};
use confix_rs::item::{
    decode, decode_with, encode, float_bits, float_heads, item_array_of, item_map_of, render_json, Item,
};
use confix_rs::typedef_oracle::{doc_float_values, TypeDefOracle};

// ── codec ───────────────────────────────────────────────────────────────────

#[test]
fn roundtrip_smoke() {
    let item = item_map_of(vec![
        ("a", Item::Num(1)),
        ("b", Item::Str("two".into())),
        ("c", Item::Nil),
        ("d", item_array_of(vec![Item::Num(3)])),
    ]);
    let enc = encode(&item);
    let dec = decode(&enc).unwrap();
    assert_eq!(item, dec);
}

#[test]
fn keys_sorted_by_encoded_bytes() {
    let first = item_map_of(vec![("b", Item::Num(2)), ("a", Item::Num(1))]);
    let second = item_map_of(vec![("a", Item::Num(1)), ("b", Item::Num(2))]);
    let expected: Vec<u8> = vec![0xa2, 0x61, 0x61, 0x01, 0x61, 0x62, 0x02];
    assert_eq!(encode(&first), expected);
    assert_eq!(encode(&second), expected);
}

#[test]
fn decode_gives_canonical_key_order() {
    let item = item_map_of(vec![("bb", Item::Num(2)), ("a", Item::Num(1)), ("c", Item::Nil)]);
    let dec = decode(&encode(&item)).unwrap();
    assert_eq!(dec.map_keys(), vec!["a", "c", "bb"]);
}

#[test]
fn roundtrip_keeps_extreme_integers_and_tags() {
    for v in [i64::MIN, i64::MIN + 1, -1, 0, 1, i64::MAX] {
        assert_eq!(decode(&encode(&Item::Num(v))).unwrap(), Item::Num(v));
    }
    let tagged = Item::Tag(1, Box::new(Item::Num(2)));
    assert_eq!(encode(&tagged), vec![0xc1, 0x02]);
    assert_eq!(decode(&[0xc1, 0x02]).unwrap(), tagged);
}

#[test]
fn decode_reads_indefinite_lengths_as_definite() {
    assert_eq!(
        decode(&[0x9f, 0x01, 0x02, 0xff]).unwrap(),
        Item::Arr(vec![Item::Num(1), Item::Num(2)])
    );
    assert_eq!(
        decode(&[0xbf, 0x61, 0x61, 0x01, 0xff]).unwrap(),
        item_map_of(vec![("a", Item::Num(1))])
    );
    assert_eq!(
        decode(&[0x7f, 0x61, 0x61, 0x61, 0x62, 0xff]).unwrap(),
        Item::Str("ab".into())
    );
    assert_eq!(
        decode(&[0x5f, 0x41, 0x01, 0x42, 0x02, 0x03, 0xff]).unwrap(),
        Item::Bin(vec![1, 2, 3])
    );
}

#[test]
fn decode_widens_half_and_single_floats() {
    assert_eq!(decode(&[0xf9, 0x3c, 0x00]).unwrap(), Item::Flt(1.0f64.to_bits()));
    assert_eq!(decode(&[0xf9, 0xc0, 0x00]).unwrap(), Item::Flt((-2.0f64).to_bits()));
    assert_eq!(decode(&[0xf9, 0x7c, 0x00]).unwrap(), Item::Flt(f64::INFINITY.to_bits()));
    assert_eq!(
        decode(&[0xf9, 0x00, 0x01]).unwrap(),
        Item::Flt(5.960464477539063e-8f64.to_bits())
    );
    match decode(&[0xf9, 0x7e, 0x00]).unwrap() {
        Item::Flt(b) => assert_eq!(b, 0x7ff8_0000_0000_0000),
        other => panic!("not a float: {other:?}"),
    }
    assert_eq!(decode(&[0xfa, 0x3f, 0xc0, 0x00, 0x00]).unwrap(), Item::Flt(1.5f64.to_bits()));
    assert_eq!(decode(&[0xf4]).unwrap(), Item::Bool(false));
    assert_eq!(decode(&[0xf7]).unwrap(), Item::Nil);
}

#[test]
fn decode_errors_name_their_cause() {
    assert_eq!(decode(&[]).unwrap_err(), "unexpected end of input");
    assert_eq!(decode(&[0x19, 0x01]).unwrap_err(), "unexpected end of input");
    assert_eq!(decode(&[0x62, 0x61]).unwrap_err(), "unexpected end of input");
    assert_eq!(decode(&[0x82, 0x01]).unwrap_err(), "unexpected end of input");
    assert_eq!(decode(&[0x9f, 0x01]).unwrap_err(), "unexpected end of input");
    assert_eq!(
        decode(&[0x1b, 0x80, 0, 0, 0, 0, 0, 0, 0]).unwrap_err(),
        "u64 too large"
    );
    assert_eq!(
        decode(&[0x3b, 0x80, 0, 0, 0, 0, 0, 0, 0]).unwrap_err(),
        "u64 too large"
    );
    assert_eq!(
        decode(&[0x1f]).unwrap_err(),
        "Indefinite length not supported for major type 0"
    );
    assert_eq!(
        decode(&[0xdf]).unwrap_err(),
        "Indefinite length not supported for major type 6"
    );
    assert_eq!(decode(&[0x1c]).unwrap_err(), "Invalid CBOR additional info: 28");
    assert_eq!(decode(&[0xe0]).unwrap_err(), "Unknown CBOR simple value: 0");
    assert_eq!(decode(&[0xf8, 0x20]).unwrap_err(), "Unknown CBOR simple value: 24");
    assert_eq!(
        decode(&[0x62, 0xff, 0xfe]).unwrap_err(),
        "invalid utf8: invalid utf-8 sequence of 1 bytes from index 0"
    );
    assert_eq!(
        decode(&[0x5f, 0x01, 0xff]).unwrap_err(),
        "indefinite byte string chunk must be a byte string"
    );
    assert_eq!(
        decode(&[0x7f, 0x01, 0xff]).unwrap_err(),
        "indefinite text chunk must be text"
    );
}

#[test]
fn decode_min_negative_integer() {
    assert_eq!(
        decode(&[0x3b, 0x7f, 0xff, 0xff, 0xff, 0xff, 0xff, 0xff, 0xff]).unwrap(),
        Item::Num(i64::MIN)
    );
}

#[test]
fn decode_keys_that_are_not_text_by_their_debug_form() {
    let dec = decode(&[0xa1, 0x01, 0x02]).unwrap();
    assert_eq!(dec.map_keys(), vec!["Num(1)"]);
    assert_eq!(dec.map_get("Num(1)"), Some(&Item::Num(2)));
}

#[test]
fn decode_ignores_trailing_bytes() {
    assert_eq!(decode(&[0x01, 0x02]).unwrap(), Item::Num(1));
}

#[test]
fn item_equality_ignores_map_order_and_follows_float_rules() {
    let a = item_map_of(vec![("x", Item::Num(1)), ("y", Item::Num(2))]);
    let b = item_map_of(vec![("y", Item::Num(2)), ("x", Item::Num(1))]);
    assert_eq!(a, b);
    assert_ne!(a, item_map_of(vec![("x", Item::Num(1))]));
    assert_eq!(Item::Flt(0.0f64.to_bits()), Item::Flt((-0.0f64).to_bits()));
    assert_ne!(Item::Flt(f64::NAN.to_bits()), Item::Flt(f64::NAN.to_bits()));
    assert_ne!(Item::Num(1), Item::Str("1".into()));
}

#[test]
fn item_accessors() {
    let m = item_map_of(vec![("k", Item::Num(1)), ("k", Item::Num(2)), ("j", Item::Nil)]);
    assert_eq!(m.map_get("k"), Some(&Item::Num(1)));
    assert_eq!(m.map_get("missing"), None);
    assert_eq!(m.map_keys(), vec!["k", "k", "j"]);
    assert_eq!(m.size(), 3);
    assert_eq!(item_array_of(vec![Item::Nil, Item::Nil]).size(), 2);
    assert_eq!(Item::Num(5).size(), 0);
    assert_eq!(Item::Num(5).map_get("k"), None);
}

// ── JSON text ───────────────────────────────────────────────────────────────

#[test]
fn render_json_writes_every_kind() {
    let flt = 1.5f64.to_bits();
    let item = item_map_of(vec![
        ("a", Item::Num(-12)),
        ("b", Item::Str("x\"y\\\n\r\t".into())),
        ("c", Item::Bin(vec![0xab, 0x01])),
        (
            "d",
            item_array_of(vec![Item::Bool(true), Item::Nil, Item::Flt(flt), Item::Bool(false)]),
        ),
        ("e", Item::Tag(7, Box::new(Item::Num(3)))),
    ]);
    assert_eq!(float_bits(&item), vec![flt]);
    let floats = vec![(flt, "1.5".to_string())];
    assert_eq!(
        render_json(&item, &floats),
        "{\"a\":-12,\"b\":\"x\\\"y\\\\\\n\\r\\t\",\"c\":\"ab01\",\"d\":[true,null,1.5,false],\"e\":3}"
    );
    assert_eq!(render_json(&Item::Flt(flt), &vec![]), "");
    assert_eq!(render_json(&Item::Num(i64::MIN), &vec![]), "-9223372036854775808");
}

// ── CBOR cursor ─────────────────────────────────────────────────────────────

#[test]
fn focus_canonical_cbor_tree() {
    let item = item_map_of(vec![(
        "a",
        item_array_of(vec![
            Item::Num(1),
            item_map_of(vec![("b", Item::Str("deep".into()))]),
        ]),
    )]);
    let bytes = encode(&item);
    let path = [
        PathStep::Key("a".into()),
        PathStep::Index(1),
        PathStep::Key("b".into()),
    ];
    let focused = focus_bytes(&bytes, &path).unwrap();
    assert_eq!(focused, Some(Item::Str("deep".into())));
}

#[test]
fn focus_stops_at_a_dead_step() {
    let item = item_map_of(vec![("a", item_array_of(vec![Item::Num(1)]))]);
    assert_eq!(focus(&item, &[]), Some(&item));
    assert_eq!(focus(&item, &[PathStep::Key("missing".into())]), None);
    assert_eq!(focus(&item, &[PathStep::Key("a".into()), PathStep::Index(1)]), None);
    assert_eq!(focus(&item, &[PathStep::Index(0)]), None);
    assert_eq!(
        focus(&item, &[PathStep::Key("a".into()), PathStep::Key("a".into())]),
        None
    );
    assert_eq!(
        focus(&item, &[PathStep::Key("a".into()), PathStep::Index(0)]),
        Some(&Item::Num(1))
    );
    assert_eq!(
        focus_bytes(&[0x82], &[PathStep::Index(0)]).unwrap_err(),
        "unexpected end of input"
    );
}

#[test]
fn focus_of_a_joined_path_is_focus_of_focus() {
    let item = item_map_of(vec![(
        "a",
        item_array_of(vec![item_map_of(vec![("b", Item::Num(9))])]),
    )]);
    let first = [PathStep::Key("a".into()), PathStep::Index(0)];
    let second = [PathStep::Key("b".into())];
    let joined = [
        PathStep::Key("a".into()),
        PathStep::Index(0),
        PathStep::Key("b".into()),
    ];
    let mid = focus(&item, &first).unwrap();
    assert_eq!(focus(mid, &second), focus(&item, &joined));
    assert_eq!(focus(&item, &joined), Some(&Item::Num(9)));
}

// ── declarations from CBOR ──────────────────────────────────────────────────

#[test]
fn parse_cbor_type_defs_reads_object_rows() {
    let row = item_map_of(vec![
        ("name", Item::Str("Tuple".into())),
        ("referredTo", Item::Str("Join<A, B>".into())),
        ("params", Item::Str("A: Any, B".into())),
    ]);
    let bytes = encode(&row);
    let doc = confix_doc(&bytes, Syntax::Cbor);
    assert!(doc_float_values(&doc).is_empty());
    let mut oracle = TypeDefOracle::new();
    oracle.parse_cbor_type_defs(&doc, &vec![]);
    assert_eq!(1, oracle.size());
    let o = oracle.build();
    assert_eq!("Tuple", o.entries[0].name);
    assert_eq!("Join<A, B>", o.entries[0].referred_to_type);
    assert_eq!("cbor", o.entries[0].source);
    assert_eq!(2, o.entries[0].params.len());
    assert_eq!("A", o.entries[0].params[0].name);
    assert_eq!(Some("Any".to_string()), o.entries[0].params[0].bound);
    assert_eq!("B", o.entries[0].params[1].name);
    assert_eq!(None, o.entries[0].params[1].bound);
    let tuple = o.by_name("Tuple").unwrap();
    let join = o.by_name("Join").unwrap();
    assert!(o.lattice.is_a(tuple, join));
}

#[test]
fn parse_cbor_type_defs_renders_scalar_fields_and_skips_incomplete_rows() {
    let flt = 2.5f64.to_bits();
    let row = item_map_of(vec![
        ("name", Item::Flt(flt)),
        ("referredTo", Item::Num(-7)),
    ]);
    let incomplete = item_map_of(vec![("name", Item::Str("Lonely".into()))]);
    let mut oracle = TypeDefOracle::new();
    for item in [row, incomplete] {
        let bytes = encode(&item);
        let doc = confix_doc(&bytes, Syntax::Cbor);
        let floats: Vec<(Value, String)> = doc_float_values(&doc)
            .into_iter()
            .map(|v| (v, "2.5".to_string()))
            .collect();
        oracle.parse_cbor_type_defs(&doc, &floats);
    }
    let o = oracle.build();
    assert_eq!(1, o.entries.len());
    assert_eq!("2.5", o.entries[0].name);
    assert_eq!("-7", o.entries[0].referred_to_type);
}

#[test]
fn declaration_fields_can_be_reified_in_scanned_cbor() {
    let row = item_map_of(vec![("name", Item::Str("A".into())), ("referredTo", Item::Num(1))]);
    let bytes = encode(&row);
    let doc = confix_doc(&bytes, Syntax::Cbor);
    assert!(confix_rs::typedef_oracle::defs_can_reify(&doc));
    let kids = doc.root().unwrap().kids();
    assert!(kids.iter().all(|k| k.can_reify(doc.src())));
}

#[test]
fn map_encoding_ignores_entry_order_for_distinct_keys() {
    let entries = [("zz", Item::Num(1)), ("a", Item::Bool(true)), ("mm", Item::Nil)];
    let orders = [[0, 1, 2], [2, 1, 0], [1, 0, 2], [1, 2, 0]];
    let mut encodings = Vec::new();
    for order in orders {
        let item = item_map_of(order.iter().map(|&i| (entries[i].0, entries[i].1.clone())).collect());
        encodings.push(encode(&item));
    }
    for e in &encodings {
        assert_eq!(e, &encodings[0]);
    }
    assert_eq!(
        encodings[0],
        vec![0xa3, 0x61, 0x61, 0xf5, 0x62, 0x6d, 0x6d, 0xf6, 0x62, 0x7a, 0x7a, 0x01]
    );
}

#[test]
fn duplicate_keys_keep_their_order_when_sorted() {
    let item = item_map_of(vec![("b", Item::Num(1)), ("a", Item::Num(2)), ("b", Item::Num(3))]);
    let dec = decode(&encode(&item)).unwrap();
    assert_eq!(dec.map_keys(), vec!["a", "b", "b"]);
    assert_eq!(dec.map_get("b"), Some(&Item::Num(1)));
}

fn only_key(bytes: &[u8]) -> String {
    let dec = decode(bytes).unwrap();
    let keys = dec.map_keys();
    assert_eq!(1, keys.len());
    keys[0].to_string()
}

#[test]
fn decode_names_keys_of_every_kind_by_their_debug_form() {
    assert_eq!("Num(-5)", only_key(&[0xa1, 0x24, 0x01]));
    assert_eq!("Bin([1, 2])", only_key(&[0xa1, 0x42, 0x01, 0x02, 0x01]));
    assert_eq!("Bin([])", only_key(&[0xa1, 0x40, 0x01]));
    assert_eq!("Bool(true)", only_key(&[0xa1, 0xf5, 0x01]));
    assert_eq!("Nil", only_key(&[0xa1, 0xf6, 0x01]));
    assert_eq!("Arr([Num(1), Str(\"a\\\"b\")])", only_key(&[0xa1, 0x82, 0x01, 0x63, b'a', b'"', b'b', 0x01]));
    assert_eq!("Map([(\"k\", Nil)])", only_key(&[0xa1, 0xa1, 0x61, b'k', 0xf6, 0x01]));
    assert_eq!("Tag(7, Num(0))", only_key(&[0xa1, 0xc7, 0x00, 0x01]));
}

#[test]
fn decode_with_writes_float_keys_by_the_given_texts() {
    let bytes = [0xa1, 0xfb, 0x3f, 0xf8, 0, 0, 0, 0, 0, 0, 0x01];
    assert_eq!(vec![0x3ff8_0000_0000_0000u64], float_heads(&bytes));
    let texts = vec![(0x3ff8_0000_0000_0000u64, "1.5".to_string())];
    let dec = decode_with(&bytes, &texts).unwrap();
    assert_eq!(dec.map_keys(), vec!["Flt(1.5)"]);
    assert_eq!(only_key(&bytes), "Flt()");
}

#[test]
fn float_heads_widens_half_and_single_floats() {
    assert_eq!(vec![0x3ff0_0000_0000_0000u64], float_heads(&[0xf9, 0x3c, 0x00]));
    assert_eq!(vec![0x3ff8_0000_0000_0000u64], float_heads(&[0xfa, 0x3f, 0xc0, 0x00, 0x00]));
    assert!(float_heads(&[0xfb, 0x3f]).is_empty());
}
