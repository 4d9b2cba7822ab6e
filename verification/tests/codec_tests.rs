use pbf_glyphs::codec::decode_glyphs;
use pbf_glyphs::codec::encode_glyphs;
use pbf_glyphs::error::DecodeError;
use pbf_glyphs::model::Fontstack;
use pbf_glyphs::model::Glyph;
use pbf_glyphs::model::Glyphs;

fn sample_glyphs() -> Glyphs {
    Glyphs {
        stacks: vec![
            Fontstack {
                name: Some(String::from("Fönt Regular")),
                range: Some(String::from("0-255")),
                glyphs: vec![
                    Glyph {
                        id: Some(65),
                        bitmap: Some(vec![0, 1, 254, 255]),
                        width: Some(300),
                        height: Some(2),
                        left: Some(-3),
                        top: Some(-17),
                        advance: Some(9),
                    },
                    Glyph {
                        id: Some(66),
                        bitmap: Some(Vec::new()),
                        width: None,
                        height: None,
                        left: Some(0),
                        top: None,
                        advance: None,
                    },
                ],
            },
            Fontstack { name: None, range: None, glyphs: Vec::new() },
        ],
    }
}

#[test]
fn test_round_trip() {
    // Encoding then decoding restores the collection exactly, presence
    // and absence of every optional field included.
    let original = sample_glyphs();
    let bytes = encode_glyphs(&original);
    let decoded = decode_glyphs(&bytes).unwrap();
    assert_eq!(decoded, original);
}

#[test]
fn test_round_trip_empty() {
    let original = Glyphs { stacks: Vec::new() };
    let bytes = encode_glyphs(&original);
    assert_eq!(bytes, Vec::<u8>::new());
    assert_eq!(decode_glyphs(&bytes).unwrap(), original);
}

#[test]
fn test_exact_wire_bytes() {
    // One stack named "A" holding one glyph with id 1 and left -1: the
    // glyph body zigzags the signed field, and every message is
    // length-delimited.
    let g = Glyphs {
        stacks: vec![Fontstack {
            name: Some(String::from("A")),
            range: None,
            glyphs: vec![Glyph {
                id: Some(1),
                bitmap: None,
                width: None,
                height: None,
                left: Some(-1),
                top: None,
                advance: None,
            }],
        }],
    };
    let bytes = encode_glyphs(&g);
    assert_eq!(
        bytes,
        vec![
            0x0A, 9, // stack, 9 bytes
            0x0A, 1, 0x41, // name "A"
            0x1A, 4, // glyph, 4 bytes
            0x08, 1, // id = 1
            0x28, 1, // left = -1, zigzag-folded to 1
        ]
    );
}

#[test]
fn test_multi_byte_varint() {
    // 300 needs two varint groups: 0xAC 0x02.
    let g = Glyphs {
        stacks: vec![Fontstack {
            name: None,
            range: None,
            glyphs: vec![Glyph {
                id: Some(300),
                bitmap: None,
                width: None,
                height: None,
                left: None,
                top: None,
                advance: None,
            }],
        }],
    };
    let bytes = encode_glyphs(&g);
    assert_eq!(bytes, vec![0x0A, 5, 0x1A, 3, 0x08, 0xAC, 0x02]);
    assert_eq!(decode_glyphs(&bytes).unwrap(), g);
}

#[test]
fn test_decode_truncated() {
    // A stack whose length prefix runs past the end of the input.
    let bytes = vec![0x0A, 5];
    assert_eq!(decode_glyphs(&bytes).unwrap_err(), DecodeError::Truncated);
}

#[test]
fn test_decode_unknown_field() {
    // The top-level message has only the stack field.
    let bytes = vec![0x12, 0];
    assert_eq!(decode_glyphs(&bytes).unwrap_err(), DecodeError::UnknownField);
}

#[test]
fn test_decode_invalid_string() {
    // A stack name that is not UTF-8.
    let bytes = vec![0x0A, 3, 0x0A, 1, 0xFF];
    assert_eq!(decode_glyphs(&bytes).unwrap_err(), DecodeError::InvalidString);
}

#[test]
fn test_decode_varint_too_long() {
    // Ten continuation groups never fit a 64-bit length.
    let mut bytes = vec![0x0A];
    bytes.extend_from_slice(&[0x80; 10]);
    assert_eq!(decode_glyphs(&bytes).unwrap_err(), DecodeError::VarintTooLong);
}

#[test]
fn test_builders() {
    let mut glyph = Glyph::new();
    glyph.set_id(65);
    glyph.set_bitmap(vec![1, 2, 3]);
    glyph.set_width(4);
    glyph.set_height(5);
    glyph.set_left(-6);
    glyph.set_top(-7);
    glyph.set_advance(8);
    assert_eq!(
        glyph,
        Glyph {
            id: Some(65),
            bitmap: Some(vec![1, 2, 3]),
            width: Some(4),
            height: Some(5),
            left: Some(-6),
            top: Some(-7),
            advance: Some(8),
        }
    );
    let mut stack = Fontstack::new();
    stack.set_name(String::from("Name"));
    stack.set_range(String::from("0-255"));
    assert_eq!(stack.name.as_deref(), Some("Name"));
    assert_eq!(stack.range.as_deref(), Some("0-255"));
    assert!(stack.glyphs.is_empty());
    assert!(Glyphs::new().stacks.is_empty());
}

#[test]
fn test_decimal_labels() {
    assert_eq!(pbf_glyphs::text::u32_to_decimal(0), "0");
    assert_eq!(pbf_glyphs::text::u32_to_decimal(65535), "65535");
    assert_eq!(pbf_glyphs::text::range_label(0, 255), "0-255");
    assert_eq!(pbf_glyphs::text::range_label(65280, 65535), "65280-65535");
}
