use dofus_decoder::deserialize::deserialize;
use dofus_decoder::{
    ByteCursor, DecodeError, DofusPacket, FieldSpec, LengthSpec, PacketDecoder, SchemaCatalog,
    Source, TypeSpec, Value,
};

fn leaf_type(name: &str, vars: Vec<FieldSpec>) -> TypeSpec {
    TypeSpec { name: name.to_string(), parent: None, bool_vars: vec![], vars }
}

fn single_field(name: &str, wire_type: &str) -> FieldSpec {
    FieldSpec {
        name: name.to_string(),
        wire_type: wire_type.to_string(),
        length: LengthSpec::Single,
        optional: false,
    }
}

fn hello_catalog() -> SchemaCatalog {
    SchemaCatalog::new(
        vec![(10, "Hello".to_string())],
        vec![],
        vec![leaf_type("Hello", vec![single_field("name", "UTF")])],
    )
}

fn get_str(p: &DofusPacket, key: &str) -> String {
    match p.body.get(&key.to_string()) {
        Some(Value::Str(s)) => s.clone(),
        other => panic!("expected a string under {key}, got {other:?}"),
    }
}

#[test]
fn one_message_no_split() {
    // A "Hello" message: id 10, one-byte length, then a UTF body.
    let mut d = PacketDecoder::new(hello_catalog());
    let seg = [0x00, 0x29, 0x07, 0x00, 0x05, b'H', b'e', b'l', b'l', b'o'];
    d.decode_packet_at(&seg, 5555, 0);
    let msgs = d.get_messages();
    assert_eq!(msgs.len(), 1);
    assert_eq!(msgs[0].id, 10);
    assert_eq!(msgs[0].name.as_str(), "Hello");
    assert_eq!(msgs[0].source, Source::Server);
    assert_eq!(get_str(&msgs[0], "name").as_str(), "Hello");
    assert_eq!(msgs[0].raw, vec![0x00, 0x05, b'H', b'e', b'l', b'l', b'o']);
}

#[test]
fn short_declared_length_still_decodes_and_trims() {
    // The header declares a two-byte body but the decoder reads the whole
    // string; the framer trims back to the declared end afterwards.
    let mut d = PacketDecoder::new(hello_catalog());
    let seg = [0x00, 0x29, 0x02, 0x00, 0x05, b'H', b'e', b'l', b'l', b'o'];
    d.decode_packet_at(&seg, 5555, 0);
    let msgs = d.get_messages();
    assert_eq!(msgs.len(), 1);
    assert_eq!(get_str(&msgs[0], "name").as_str(), "Hello");
    assert_eq!(msgs[0].raw, vec![0x00, 0x05]);
}

#[test]
fn split_message_across_two_segments() {
    // A "Data" message with one ByteArray field, split inside the body.
    let cat = SchemaCatalog::new(
        vec![(12, "Data".to_string())],
        vec![],
        vec![leaf_type("Data", vec![single_field("payload", "ByteArray")])],
    );
    let mut d = PacketDecoder::new(cat);
    // id 12, length type 1, body length 9: a var-int count 8 then 8 bytes.
    let seg1 = [0x00, 0x31, 0x09, 0x08, 0x0A, 0x01, 0x02, 0x03];
    let seg2 = [0x04, 0x05, 0x06, 0x07];
    d.decode_packet_at(&seg1, 5555, 0);
    assert_eq!(d.get_messages().len(), 0);
    d.decode_packet_at(&seg2, 5555, 0);
    let msgs = d.get_messages();
    assert_eq!(msgs.len(), 1);
    match msgs[0].body.get(&"payload".to_string()) {
        Some(Value::Bytes(b)) => assert_eq!(b, &vec![10, 1, 2, 3, 4, 5, 6, 7]),
        other => panic!("expected bytes, got {other:?}"),
    }
}

#[test]
fn split_point_does_not_change_the_record() {
    // Delivering the same message whole or split anywhere inside the body
    // yields the same single record.
    let whole = [0x00, 0x29, 0x07, 0x00, 0x05, b'H', b'e', b'l', b'l', b'o'];
    for k in 3..whole.len() {
        let mut d = PacketDecoder::new(hello_catalog());
        d.decode_packet_at(&whole[..k], 5555, 0);
        d.decode_packet_at(&whole[k..], 5555, 0);
        let msgs = d.get_messages();
        assert_eq!(msgs.len(), 1, "split at {k}");
        assert_eq!(get_str(&msgs[0], "name").as_str(), "Hello", "split at {k}");
    }
}

#[test]
fn client_direction_strips_instance_id() {
    let cat = SchemaCatalog::new(
        vec![(5, "Act".to_string())],
        vec![],
        vec![leaf_type("Act", vec![single_field("b", "UnsignedByte")])],
    );
    let mut d = PacketDecoder::new(cat);
    // id 5, length type 1; the client direction carries a u32 instance id
    // (0x2A here) between the header and the length byte.
    let seg = [0x00, 0x15, 0x00, 0x00, 0x00, 0x2A, 0x01, 0x07];
    d.decode_packet_at(&seg, 4444, 0);
    let msgs = d.get_messages();
    assert_eq!(msgs.len(), 1);
    assert_eq!(msgs[0].source, Source::Client);
    assert!(matches!(msgs[0].body.get(&"b".to_string()), Some(Value::U8(7))));
}

#[test]
fn unknown_id_drops_segment_tail() {
    // One empty message for id 10, then four bytes of trailer garbage whose
    // apparent id is unknown: the remainder is dropped.
    let mut d = PacketDecoder::new(hello_catalog());
    let seg = [0x00, 0x29, 0x00, 0xFF, 0xFF, 0xFF, 0xFF];
    d.decode_packet_at(&seg, 5555, 0);
    let msgs = d.get_messages();
    assert_eq!(msgs.len(), 1);
    assert_eq!(msgs[0].id, 10);
    assert_eq!(msgs[0].body.len(), 0);
    assert_eq!(msgs[0].raw.len(), 0);
}

#[test]
fn polymorphic_id_merges_fields_upward() {
    // A wrapper whose single field has the wire type "ID": the wire names
    // type 77, whose fields land at the top level of the record.
    let cat = SchemaCatalog::new(
        vec![(20, "Wrapper".to_string())],
        vec![(77, "ItemX".to_string())],
        vec![
            leaf_type("Wrapper", vec![single_field("item", "ID")]),
            leaf_type("ItemX", vec![single_field("q", "VarShort")]),
        ],
    );
    let mut d = PacketDecoder::new(cat);
    let seg = [0x00, 0x51, 0x03, 0x00, 0x4D, 0x2A];
    d.decode_packet_at(&seg, 5555, 0);
    let msgs = d.get_messages();
    assert_eq!(msgs.len(), 1);
    assert!(matches!(msgs[0].body.get(&"q".to_string()), Some(Value::I16(42))));
    assert!(msgs[0].body.get(&"item".to_string()).is_none());
    assert_eq!(msgs[0].body.len(), 1);
}

#[test]
fn bit_packed_booleans() {
    let cat = SchemaCatalog::new(
        vec![(30, "Flags".to_string())],
        vec![],
        vec![TypeSpec {
            name: "Flags".to_string(),
            parent: None,
            bool_vars: vec!["a".to_string(), "b".to_string(), "c".to_string()],
            vars: vec![],
        }],
    );
    let mut d = PacketDecoder::new(cat);
    // id 30, length 1, body 0x05: bits 0 and 2 set.
    let seg = [0x00, 0x79, 0x01, 0x05];
    d.decode_packet_at(&seg, 5555, 0);
    let msgs = d.get_messages();
    assert_eq!(msgs.len(), 1);
    assert!(matches!(msgs[0].body.get(&"a".to_string()), Some(Value::Bool(true))));
    assert!(matches!(msgs[0].body.get(&"b".to_string()), Some(Value::Bool(false))));
    assert!(matches!(msgs[0].body.get(&"c".to_string()), Some(Value::Bool(true))));
}

#[test]
fn parent_fields_come_first() {
    let cat = SchemaCatalog::new(
        vec![(40, "Child".to_string())],
        vec![],
        vec![
            TypeSpec {
                name: "Child".to_string(),
                parent: Some("Base".to_string()),
                bool_vars: vec![],
                vars: vec![single_field("own", "UnsignedByte")],
            },
            leaf_type("Base", vec![single_field("inherited", "UnsignedByte")]),
        ],
    );
    let mut d = PacketDecoder::new(cat);
    let seg = [0x00, 0xA1, 0x02, 0x11, 0x22];
    d.decode_packet_at(&seg, 5555, 0);
    let msgs = d.get_messages();
    assert_eq!(msgs.len(), 1);
    assert_eq!(msgs[0].body.len(), 2);
    assert_eq!(msgs[0].body.key_at(0).as_str(), "inherited");
    assert_eq!(msgs[0].body.key_at(1).as_str(), "own");
    assert!(matches!(msgs[0].body.value_at(0), Value::U8(0x11)));
    assert!(matches!(msgs[0].body.value_at(1), Value::U8(0x22)));
}

#[test]
fn two_messages_in_order() {
    let mut d = PacketDecoder::new(hello_catalog());
    let seg = [
        0x00, 0x29, 0x05, 0x00, 0x03, b'o', b'n', b'e', // first message
        0x00, 0x29, 0x05, 0x00, 0x03, b't', b'w', b'o', // second message
    ];
    d.decode_packet_at(&seg, 5555, 0);
    let msgs = d.get_messages();
    assert_eq!(msgs.len(), 2);
    assert_eq!(get_str(&msgs[0], "name").as_str(), "one");
    assert_eq!(get_str(&msgs[1], "name").as_str(), "two");
}

#[test]
fn spanning_message_keeps_stream_order() {
    // A short message, then one that spans into the next segment: the drain
    // after both segments holds them in byte-stream order.
    let mut d = PacketDecoder::new(hello_catalog());
    let seg1 = [
        0x00, 0x29, 0x05, 0x00, 0x03, b'o', b'n', b'e', // complete message
        0x00, 0x29, 0x07, 0x00, 0x05, b't', // message cut inside its body
    ];
    let seg2 = [b'h', b'r', b'e', b'e'];
    d.decode_packet_at(&seg1, 5555, 0);
    d.decode_packet_at(&seg2, 5555, 0);
    let msgs = d.get_messages();
    assert_eq!(msgs.len(), 2);
    assert_eq!(get_str(&msgs[0], "name").as_str(), "one");
    assert_eq!(get_str(&msgs[1], "name").as_str(), "three");
}

#[test]
fn keepalive_id_zero_clears_segment() {
    let cat = SchemaCatalog::new(
        vec![(0, "Nop".to_string()), (10, "Hello".to_string())],
        vec![],
        vec![
            leaf_type("Nop", vec![]),
            leaf_type("Hello", vec![single_field("name", "UTF")]),
        ],
    );
    let mut d = PacketDecoder::new(cat);
    // id 0 with length 0, followed by a whole Hello message: the keepalive
    // discards the rest of the segment.
    let seg = [0x00, 0x00, 0x00, 0x29, 0x07, 0x00, 0x05, b'H', b'e', b'l', b'l', b'o'];
    d.decode_packet_at(&seg, 5555, 0);
    assert_eq!(d.get_messages().len(), 0);
}

#[test]
fn one_byte_remainder_is_dropped() {
    let mut d = PacketDecoder::new(hello_catalog());
    d.decode_packet_at(&[0x00], 5555, 0);
    assert_eq!(d.get_messages().len(), 0);
}

#[test]
fn get_messages_empties_the_queue() {
    let mut d = PacketDecoder::new(hello_catalog());
    let seg = [0x00, 0x29, 0x00];
    d.decode_packet_at(&seg, 5555, 0);
    assert_eq!(d.get_messages().len(), 1);
    assert_eq!(d.get_messages().len(), 0);
}

#[test]
fn two_byte_length_type() {
    let mut d = PacketDecoder::new(hello_catalog());
    // id 10, length type 2: a u16 length of 7.
    let seg = [0x00, 0x2A, 0x00, 0x07, 0x00, 0x05, b'H', b'e', b'l', b'l', b'o'];
    d.decode_packet_at(&seg, 5555, 0);
    let msgs = d.get_messages();
    assert_eq!(msgs.len(), 1);
    assert_eq!(get_str(&msgs[0], "name").as_str(), "Hello");
}

#[test]
fn three_byte_length_type() {
    let mut d = PacketDecoder::new(hello_catalog());
    // id 10, length type 3: three big-endian length bytes.
    let seg = [0x00, 0x2B, 0x00, 0x00, 0x07, 0x00, 0x05, b'H', b'e', b'l', b'l', b'o'];
    d.decode_packet_at(&seg, 5555, 0);
    let msgs = d.get_messages();
    assert_eq!(msgs.len(), 1);
    assert_eq!(get_str(&msgs[0], "name").as_str(), "Hello");
}

#[test]
fn zero_length_type_gives_empty_body() {
    let mut d = PacketDecoder::new(hello_catalog());
    let seg = [0x00, 0x28];
    d.decode_packet_at(&seg, 5555, 0);
    let msgs = d.get_messages();
    assert_eq!(msgs.len(), 1);
    assert_eq!(msgs[0].body.len(), 0);
}

#[test]
fn undecodable_body_drops_the_record_but_resyncs() {
    // The first message's body is too short for its UTF field; the record is
    // dropped and the framer resynchronizes at the declared end, where the
    // second message parses.
    let mut d = PacketDecoder::new(hello_catalog());
    let seg = [
        0x00, 0x29, 0x02, 0x00, 0x63, // declares a 99-byte string, body ends
        0x00, 0x29, 0x05, 0x00, 0x03, b'y', b'e', b's',
    ];
    d.decode_packet_at(&seg, 5555, 0);
    let msgs = d.get_messages();
    assert_eq!(msgs.len(), 1);
    assert_eq!(get_str(&msgs[0], "name").as_str(), "yes");
}

#[test]
fn optional_field_guard_stops_record() {
    let cat = SchemaCatalog::new(
        vec![(50, "Opt".to_string())],
        vec![],
        vec![leaf_type(
            "Opt",
            vec![
                single_field("first", "UnsignedByte"),
                FieldSpec {
                    name: "maybe".to_string(),
                    wire_type: "UnsignedByte".to_string(),
                    length: LengthSpec::Single,
                    optional: true,
                },
            ],
        )],
    );
    // Guard byte nonzero: the record ends after "first".
    let mut d = PacketDecoder::new(cat);
    let seg = [0x00, 0xC9, 0x02, 0x11, 0x01];
    d.decode_packet_at(&seg, 5555, 0);
    let msgs = d.get_messages();
    assert_eq!(msgs.len(), 1);
    assert_eq!(msgs[0].body.len(), 1);
    assert!(matches!(msgs[0].body.get(&"first".to_string()), Some(Value::U8(0x11))));
}

#[test]
fn optional_field_guard_zero_reads_field() {
    let cat = SchemaCatalog::new(
        vec![(50, "Opt".to_string())],
        vec![],
        vec![leaf_type(
            "Opt",
            vec![FieldSpec {
                name: "maybe".to_string(),
                wire_type: "UnsignedByte".to_string(),
                length: LengthSpec::Single,
                optional: true,
            }],
        )],
    );
    let mut d = PacketDecoder::new(cat);
    let seg = [0x00, 0xC9, 0x02, 0x00, 0x2A];
    d.decode_packet_at(&seg, 5555, 0);
    let msgs = d.get_messages();
    assert_eq!(msgs.len(), 1);
    assert!(matches!(msgs[0].body.get(&"maybe".to_string()), Some(Value::U8(0x2A))));
}

#[test]
fn prefixed_array_of_primitives() {
    let cat = SchemaCatalog::new(
        vec![(60, "Arr".to_string())],
        vec![],
        vec![leaf_type(
            "Arr",
            vec![FieldSpec {
                name: "xs".to_string(),
                wire_type: "UnsignedShort".to_string(),
                length: LengthSpec::Prefixed("UnsignedByte".to_string()),
                optional: false,
            }],
        )],
    );
    let mut d = PacketDecoder::new(cat);
    // Count byte 2, then two u16 values.
    let seg = [0x00, 0xF1, 0x05, 0x02, 0x01, 0x02, 0x03, 0x04];
    d.decode_packet_at(&seg, 5555, 0);
    let msgs = d.get_messages();
    assert_eq!(msgs.len(), 1);
    match msgs[0].body.get(&"xs".to_string()) {
        Some(Value::Array(items)) => {
            assert_eq!(items.len(), 2);
            assert!(matches!(items[0], Value::U16(0x0102)));
            assert!(matches!(items[1], Value::U16(0x0304)));
        },
        other => panic!("expected an array, got {other:?}"),
    }
}

#[test]
fn fixed_count_array_of_objects() {
    let cat = SchemaCatalog::new(
        vec![(61, "Pairs".to_string())],
        vec![],
        vec![
            leaf_type(
                "Pairs",
                vec![FieldSpec {
                    name: "ps".to_string(),
                    wire_type: "Pair".to_string(),
                    length: LengthSpec::Fixed(2),
                    optional: false,
                }],
            ),
            leaf_type("Pair", vec![single_field("x", "UnsignedByte")]),
        ],
    );
    let mut d = PacketDecoder::new(cat);
    let seg = [0x00, 0xF5, 0x02, 0x0A, 0x0B];
    d.decode_packet_at(&seg, 5555, 0);
    let msgs = d.get_messages();
    assert_eq!(msgs.len(), 1);
    match msgs[0].body.get(&"ps".to_string()) {
        Some(Value::Array(items)) => {
            assert_eq!(items.len(), 2);
            match &items[1] {
                Value::Object(f) => {
                    assert!(matches!(f.get(&"x".to_string()), Some(Value::U8(0x0B))))
                },
                other => panic!("expected an object, got {other:?}"),
            }
        },
        other => panic!("expected an array, got {other:?}"),
    }
}

#[test]
fn deserialize_unknown_type_is_an_error() {
    let cat = SchemaCatalog::new(vec![], vec![], vec![]);
    let mut cur = ByteCursor::from_slice(&[0x01]);
    assert!(matches!(
        deserialize(&mut cur, &"Nowhere".to_string(), &cat),
        Err(DecodeError::UnknownType)
    ));
}

#[test]
fn deserialize_short_buffer_is_an_error() {
    let cat = SchemaCatalog::new(
        vec![],
        vec![],
        vec![leaf_type("Needs4", vec![single_field("x", "Int")])],
    );
    let mut cur = ByteCursor::from_slice(&[0x01, 0x02]);
    assert!(matches!(
        deserialize(&mut cur, &"Needs4".to_string(), &cat),
        Err(DecodeError::ShortBuffer)
    ));
}

#[test]
fn deserialize_invalid_utf8_is_an_error() {
    let cat = SchemaCatalog::new(
        vec![],
        vec![],
        vec![leaf_type("Txt", vec![single_field("s", "UTF")])],
    );
    let mut cur = ByteCursor::from_slice(&[0x00, 0x02, 0xC3, 0x28]);
    assert!(matches!(deserialize(&mut cur, &"Txt".to_string(), &cat), Err(DecodeError::BadUtf8)));
}

#[test]
fn deserialize_cyclic_catalog_hits_depth_limit() {
    let cat = SchemaCatalog::new(
        vec![],
        vec![],
        vec![TypeSpec {
            name: "Loop".to_string(),
            parent: Some("Loop".to_string()),
            bool_vars: vec![],
            vars: vec![],
        }],
    );
    let mut cur = ByteCursor::from_slice(&[]);
    assert!(matches!(
        deserialize(&mut cur, &"Loop".to_string(), &cat),
        Err(DecodeError::DepthLimit)
    ));
}

#[test]
fn unknown_length_prefix_type_yields_null() {
    let cat = SchemaCatalog::new(
        vec![(70, "Odd".to_string())],
        vec![],
        vec![leaf_type(
            "Odd",
            vec![FieldSpec {
                name: "xs".to_string(),
                wire_type: "UnsignedByte".to_string(),
                length: LengthSpec::Prefixed("NoSuchPrim".to_string()),
                optional: false,
            }],
        )],
    );
    let mut d = PacketDecoder::new(cat);
    let seg = [0x01, 0x19, 0x01, 0x00];
    d.decode_packet_at(&seg, 5555, 0);
    let msgs = d.get_messages();
    assert_eq!(msgs.len(), 1);
    assert!(matches!(msgs[0].body.get(&"xs".to_string()), Some(Value::Null)));
}

#[test]
fn polymorphic_id_array_nests_objects() {
    // An array of "ID" elements nests one object per element, unlike the
    // scalar case where the fields merge upward.
    let cat = SchemaCatalog::new(
        vec![(21, "Bag".to_string())],
        vec![(77, "ItemX".to_string())],
        vec![
            leaf_type(
                "Bag",
                vec![FieldSpec {
                    name: "items".to_string(),
                    wire_type: "ID".to_string(),
                    length: LengthSpec::Prefixed("UnsignedByte".to_string()),
                    optional: false,
                }],
            ),
            leaf_type("ItemX", vec![single_field("q", "VarShort")]),
        ],
    );
    let mut d = PacketDecoder::new(cat);
    // id 21, length 7: count 2, then two elements of wire id 77.
    let seg = [0x00, 0x55, 0x07, 0x02, 0x00, 0x4D, 0x2A, 0x00, 0x4D, 0x05];
    d.decode_packet_at(&seg, 5555, 0);
    let msgs = d.get_messages();
    assert_eq!(msgs.len(), 1);
    match msgs[0].body.get(&"items".to_string()) {
        Some(Value::Array(items)) => {
            assert_eq!(items.len(), 2);
            match (&items[0], &items[1]) {
                (Value::Object(a), Value::Object(b)) => {
                    assert!(matches!(a.get(&"q".to_string()), Some(Value::I16(42))));
                    assert!(matches!(b.get(&"q".to_string()), Some(Value::I16(5))));
                },
                _ => panic!("expected nested objects"),
            }
        },
        other => panic!("expected an array, got {other:?}"),
    }
}

#[test]
fn unknown_wire_id_in_array_skips_element() {
    let cat = SchemaCatalog::new(
        vec![(21, "Bag".to_string())],
        vec![(77, "ItemX".to_string())],
        vec![
            leaf_type(
                "Bag",
                vec![FieldSpec {
                    name: "items".to_string(),
                    wire_type: "ID".to_string(),
                    length: LengthSpec::Prefixed("UnsignedByte".to_string()),
                    optional: false,
                }],
            ),
            leaf_type("ItemX", vec![single_field("q", "VarShort")]),
        ],
    );
    let mut d = PacketDecoder::new(cat);
    // Two elements: the first names an unknown wire id and contributes
    // nothing; the second decodes.
    let seg = [0x00, 0x55, 0x06, 0x02, 0x00, 0x63, 0x00, 0x4D, 0x2A];
    d.decode_packet_at(&seg, 5555, 0);
    let msgs = d.get_messages();
    assert_eq!(msgs.len(), 1);
    match msgs[0].body.get(&"items".to_string()) {
        Some(Value::Array(items)) => assert_eq!(items.len(), 1),
        other => panic!("expected an array, got {other:?}"),
    }
}

#[test]
fn nine_booleans_take_two_bytes() {
    let names: Vec<String> = (0..9).map(|i| format!("f{i}")).collect();
    let cat = SchemaCatalog::new(
        vec![(30, "Flags".to_string())],
        vec![],
        vec![TypeSpec {
            name: "Flags".to_string(),
            parent: None,
            bool_vars: names,
            vars: vec![single_field("after", "UnsignedByte")],
        }],
    );
    let mut d = PacketDecoder::new(cat);
    // Two boolean bytes (0x81: bits 0 and 7; 0x01: bit 8), then a field.
    let seg = [0x00, 0x79, 0x03, 0x81, 0x01, 0x2A];
    d.decode_packet_at(&seg, 5555, 0);
    let msgs = d.get_messages();
    assert_eq!(msgs.len(), 1);
    assert!(matches!(msgs[0].body.get(&"f0".to_string()), Some(Value::Bool(true))));
    assert!(matches!(msgs[0].body.get(&"f1".to_string()), Some(Value::Bool(false))));
    assert!(matches!(msgs[0].body.get(&"f7".to_string()), Some(Value::Bool(true))));
    assert!(matches!(msgs[0].body.get(&"f8".to_string()), Some(Value::Bool(true))));
    assert!(matches!(msgs[0].body.get(&"after".to_string()), Some(Value::U8(0x2A))));
}

#[test]
fn decode_packet_stamps_a_timestamp() {
    // The undated entry point stamps records with the wall clock.
    let mut d = PacketDecoder::new(hello_catalog());
    let seg = [0x00, 0x29, 0x00];
    d.decode_packet(&seg, 5555);
    let msgs = d.get_messages();
    assert_eq!(msgs.len(), 1);
    assert!(msgs[0].time > 0);
}

#[test]
fn fixed_count_array_of_primitives() {
    let cat = SchemaCatalog::new(
        vec![(62, "Trio".to_string())],
        vec![],
        vec![leaf_type(
            "Trio",
            vec![FieldSpec {
                name: "xs".to_string(),
                wire_type: "UnsignedByte".to_string(),
                length: LengthSpec::Fixed(3),
                optional: false,
            }],
        )],
    );
    let mut d = PacketDecoder::new(cat);
    let seg = [0x00, 0xF9, 0x03, 0x07, 0x08, 0x09];
    d.decode_packet_at(&seg, 5555, 0);
    let msgs = d.get_messages();
    assert_eq!(msgs.len(), 1);
    match msgs[0].body.get(&"xs".to_string()) {
        Some(Value::Array(items)) => {
            assert_eq!(items.len(), 3);
            assert!(matches!(items[0], Value::U8(7)));
            assert!(matches!(items[2], Value::U8(9)));
        },
        other => panic!("expected an array, got {other:?}"),
    }
}
