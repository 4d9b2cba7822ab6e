//! The binary codec: bit-exact serialization of the glyph record model in
//! the tagged wire format.
//!
//! Integers travel as base-128 varints (low group first, high bit set on
//! every group but the last); signed fields are zigzag-folded first;
//! strings, byte arrays and nested messages are length-delimited.  Each
//! field is written only when present, in tag order, and decoding restores
//! exactly the encoded value: the round trip is proved below.

use crate::error::DecodeError;
use crate::model::Fontstack;
use crate::model::FontstackModel;
use crate::model::Glyph;
use crate::model::GlyphModel;
use crate::model::Glyphs;
use crate::model::GlyphsModel;
use vstd::prelude::*;

verus! {

/// The base-128 encoding of an unsigned value, low group first.
pub open spec fn spec_varint(x: nat) -> Seq<u8>
    decreases x,
{
    if x < 128 {
        seq![x as u8]
    } else {
        seq![(128 + x % 128) as u8] + spec_varint(x / 128)
    }
}

/// The zigzag fold carrying a signed 32-bit value onto the unsigned range:
/// alternating positives and negatives by magnitude.
pub open spec fn spec_zigzag(n: int) -> nat {
    if n >= 0 {
        (2 * n) as nat
    } else {
        (-2 * n - 1) as nat
    }
}

/// The inverse zigzag fold.
pub open spec fn spec_unzigzag(z: nat) -> int {
    if z % 2 == 0 {
        (z / 2) as int
    } else {
        -((z / 2) as int) - 1
    }
}

/// Unfolding then folding gives the value back.
proof fn lemma_zigzag_roundtrip(n: int)
    ensures
        spec_unzigzag(spec_zigzag(n)) == n,
{
}

/// Appends the varint encoding of `x`.
fn push_varint(out: &mut Vec<u8>, x: u64)
    ensures
        final(out)@ == old(out)@ + spec_varint(x as nat),
    decreases x,
{
    if x < 128 {
        out.push(x as u8);
        proof {
            assert(out@ =~= old(out)@ + spec_varint(x as nat));
        }
    } else {
        out.push((128 + x % 128) as u8);
        push_varint(out, x / 128);
        proof {
            assert(out@ =~= old(out)@ + spec_varint(x as nat));
        }
    }
}

/// Reads one varint from the front of `b`: its value and the count of
/// bytes consumed.
pub open spec fn take_varint(b: Seq<u8>) -> Option<(nat, nat)>
    decreases b.len(),
{
    if b.len() == 0 {
        None
    } else if b[0] < 128 {
        Some((b[0] as nat, 1 as nat))
    } else {
        match take_varint(b.skip(1)) {
            None => None,
            Some((v, c)) => Some((((b[0] - 128) as nat + 128 * v), (c + 1) as nat)),
        }
    }
}

/// Reads one varint that a 64-bit integer field accepts: at most ten
/// bytes and a value under two to the sixty-fourth.
pub open spec fn take_varint64(b: Seq<u8>) -> Option<(u64, nat)> {
    match take_varint(b) {
        None => None,
        Some((v, c)) => if c <= 10 && v < 0x1_0000_0000_0000_0000 {
            Some((v as u64, c))
        } else {
            None
        },
    }
}

/// A successful varint read consumes between one byte and the whole
/// input.
proof fn lemma_take_varint_consumed(b: Seq<u8>)
    ensures
        take_varint(b) matches Some((v, c)) ==> 1 <= c <= b.len(),
    decreases b.len(),
{
    if b.len() > 0 && b[0] >= 128 {
        lemma_take_varint_consumed(b.skip(1));
    }
}

/// Reading the front of an encoding gives the encoded value back,
/// whatever follows it.
proof fn lemma_take_varint_of_encode(x: nat, rest: Seq<u8>)
    ensures
        take_varint(spec_varint(x) + rest) == Some::<(nat, nat)>((x, spec_varint(x).len())),
    decreases x,
{
    let b = spec_varint(x) + rest;
    if x < 128 {
        assert(b[0] == x as u8);
    } else {
        lemma_take_varint_of_encode(x / 128, rest);
        assert(b[0] == (128 + x % 128) as u8);
        assert(b.skip(1) =~= spec_varint(x / 128) + rest);
        assert(b[0] as int - 128 == x % 128);
        assert((x % 128) + 128 * (x / 128) == x) by (nonlinear_arith)
            requires
                x >= 0,
        ;
    }
}

/// Every encoding has at least one byte, and a value under two to the
/// sixty-fourth encodes in at most ten bytes.
proof fn lemma_varint_len(x: nat)
    requires
        x < 0x1_0000_0000_0000_0000,
    ensures
        1 <= spec_varint(x).len() <= 10,
{
    let x1 = x / 128;
    let x2 = x1 / 128;
    let x3 = x2 / 128;
    let x4 = x3 / 128;
    let x5 = x4 / 128;
    let x6 = x5 / 128;
    let x7 = x6 / 128;
    let x8 = x7 / 128;
    let x9 = x8 / 128;
    assert(x9 < 128);
    assert(spec_varint(x9).len() == 1);
    assert(spec_varint(x8).len() <= 2);
    assert(spec_varint(x7).len() <= 3);
    assert(spec_varint(x6).len() <= 4);
    assert(spec_varint(x5).len() <= 5);
    assert(spec_varint(x4).len() <= 6);
    assert(spec_varint(x3).len() <= 7);
    assert(spec_varint(x2).len() <= 8);
    assert(spec_varint(x1).len() <= 9);
    assert(spec_varint(x).len() <= 10);
}

/// Wire tag of the glyph id field.
pub const TAG_GLYPH_ID: u8 = 0x08;

/// Wire tag of the glyph bitmap field.
pub const TAG_GLYPH_BITMAP: u8 = 0x12;

/// Wire tag of the glyph width field.
pub const TAG_GLYPH_WIDTH: u8 = 0x18;

/// Wire tag of the glyph height field.
pub const TAG_GLYPH_HEIGHT: u8 = 0x20;

/// Wire tag of the glyph left field.
pub const TAG_GLYPH_LEFT: u8 = 0x28;

/// Wire tag of the glyph top field.
pub const TAG_GLYPH_TOP: u8 = 0x30;

/// Wire tag of the glyph advance field.
pub const TAG_GLYPH_ADVANCE: u8 = 0x38;

/// Wire tag of the fontstack name field.
pub const TAG_STACK_NAME: u8 = 0x0A;

/// Wire tag of the fontstack range field.
pub const TAG_STACK_RANGE: u8 = 0x12;

/// Wire tag of the fontstack's repeated glyph field.
pub const TAG_STACK_GLYPH: u8 = 0x1A;

/// Wire tag of the collection's repeated fontstack field.
pub const TAG_GLYPHS_STACK: u8 = 0x0A;

/// An optional unsigned field: tag then varint, or nothing when absent.
pub open spec fn spec_u32_field(tag: u8, v: Option<u32>) -> Seq<u8> {
    match v {
        None => Seq::empty(),
        Some(x) => seq![tag] + spec_varint(x as nat),
    }
}

/// An optional signed field: tag then zigzag varint, or nothing.
pub open spec fn spec_sint_field(tag: u8, v: Option<i32>) -> Seq<u8> {
    match v {
        None => Seq::empty(),
        Some(x) => seq![tag] + spec_varint(spec_zigzag(x as int)),
    }
}

/// An optional length-delimited field: tag, byte count, bytes.
pub open spec fn spec_len_field(tag: u8, v: Option<Seq<u8>>) -> Seq<u8> {
    match v {
        None => Seq::empty(),
        Some(b) => seq![tag] + spec_varint(b.len()) + b,
    }
}

/// An optional string field: its UTF-8 bytes, length-delimited.
pub open spec fn spec_str_field(tag: u8, v: Option<Seq<char>>) -> Seq<u8> {
    match v {
        None => Seq::empty(),
        Some(s) => spec_len_field(tag, Some(vstd::utf8::encode_utf8(s))),
    }
}

/// The encoding of one glyph record: each present field in tag order.
pub open spec fn spec_encode_glyph(g: GlyphModel) -> Seq<u8> {
    spec_u32_field(TAG_GLYPH_ID, g.id) + spec_len_field(TAG_GLYPH_BITMAP, g.bitmap)
        + spec_u32_field(TAG_GLYPH_WIDTH, g.width) + spec_u32_field(TAG_GLYPH_HEIGHT, g.height)
        + spec_sint_field(TAG_GLYPH_LEFT, g.left) + spec_sint_field(TAG_GLYPH_TOP, g.top)
        + spec_u32_field(TAG_GLYPH_ADVANCE, g.advance)
}

/// The encoding of a run of glyph records, each length-delimited.
pub open spec fn spec_encode_glyph_list(gs: Seq<GlyphModel>) -> Seq<u8>
    decreases gs.len(),
{
    if gs.len() == 0 {
        Seq::empty()
    } else {
        spec_len_field(TAG_STACK_GLYPH, Some(spec_encode_glyph(gs[0]))) + spec_encode_glyph_list(
            gs.drop_first(),
        )
    }
}

/// The encoding of one fontstack: name, range, then its glyphs.
pub open spec fn spec_encode_fontstack(s: FontstackModel) -> Seq<u8> {
    spec_str_field(TAG_STACK_NAME, s.name) + spec_str_field(TAG_STACK_RANGE, s.range)
        + spec_encode_glyph_list(s.glyphs)
}

/// The encoding of a run of fontstacks, each length-delimited.
pub open spec fn spec_encode_stack_list(ss: Seq<FontstackModel>) -> Seq<u8>
    decreases ss.len(),
{
    if ss.len() == 0 {
        Seq::empty()
    } else {
        spec_len_field(TAG_GLYPHS_STACK, Some(spec_encode_fontstack(ss[0])))
            + spec_encode_stack_list(ss.drop_first())
    }
}

/// The encoding of the top-level collection.
pub open spec fn spec_encode_glyphs(m: GlyphsModel) -> Seq<u8> {
    spec_encode_stack_list(m.stacks)
}

/// Appending one more record extends the run's encoding at its end.
proof fn lemma_glyph_list_snoc(gs: Seq<GlyphModel>, g: GlyphModel)
    ensures
        spec_encode_glyph_list(gs.push(g)) == spec_encode_glyph_list(gs) + spec_len_field(
            TAG_STACK_GLYPH,
            Some(spec_encode_glyph(g)),
        ),
    decreases gs.len(),
{
    if gs.len() == 0 {
        assert(gs.push(g)[0] == g);
        assert(gs.push(g).drop_first() =~= Seq::<GlyphModel>::empty());
        assert(spec_encode_glyph_list(Seq::<GlyphModel>::empty()) == Seq::<u8>::empty());
        assert(spec_encode_glyph_list(gs.push(g)) =~= spec_encode_glyph_list(gs) + spec_len_field(
            TAG_STACK_GLYPH,
            Some(spec_encode_glyph(g)),
        ));
    } else {
        assert(gs.push(g).drop_first() =~= gs.drop_first().push(g));
        lemma_glyph_list_snoc(gs.drop_first(), g);
        assert(gs.push(g)[0] == gs[0]);
        assert(spec_encode_glyph_list(gs.push(g)) =~= spec_encode_glyph_list(gs) + spec_len_field(
            TAG_STACK_GLYPH,
            Some(spec_encode_glyph(g)),
        ));
    }
}

/// Appending one more fontstack extends the run's encoding at its end.
proof fn lemma_stack_list_snoc(ss: Seq<FontstackModel>, s: FontstackModel)
    ensures
        spec_encode_stack_list(ss.push(s)) == spec_encode_stack_list(ss) + spec_len_field(
            TAG_GLYPHS_STACK,
            Some(spec_encode_fontstack(s)),
        ),
    decreases ss.len(),
{
    if ss.len() == 0 {
        assert(ss.push(s)[0] == s);
        assert(ss.push(s).drop_first() =~= Seq::<FontstackModel>::empty());
        assert(spec_encode_stack_list(Seq::<FontstackModel>::empty()) == Seq::<u8>::empty());
        assert(spec_encode_stack_list(ss.push(s)) =~= spec_encode_stack_list(ss) + spec_len_field(
            TAG_GLYPHS_STACK,
            Some(spec_encode_fontstack(s)),
        ));
    } else {
        assert(ss.push(s).drop_first() =~= ss.drop_first().push(s));
        lemma_stack_list_snoc(ss.drop_first(), s);
        assert(ss.push(s)[0] == ss[0]);
        assert(spec_encode_stack_list(ss.push(s)) =~= spec_encode_stack_list(ss) + spec_len_field(
            TAG_GLYPHS_STACK,
            Some(spec_encode_fontstack(s)),
        ));
    }
}

/// Appends an optional unsigned field.
fn push_u32_field(out: &mut Vec<u8>, tag: u8, v: &Option<u32>)
    ensures
        final(out)@ == old(out)@ + spec_u32_field(tag, *v),
{
    match v {
        None => {
            proof {
                assert(out@ =~= old(out)@ + spec_u32_field(tag, *v));
            }
        },
        Some(x) => {
            out.push(tag);
            push_varint(out, *x as u64);
            proof {
                assert(out@ =~= old(out)@ + spec_u32_field(tag, *v));
            }
        },
    }
}

/// Appends an optional signed field, zigzag-folded.
fn push_sint_field(out: &mut Vec<u8>, tag: u8, v: &Option<i32>)
    ensures
        final(out)@ == old(out)@ + spec_sint_field(tag, *v),
{
    match v {
        None => {
            proof {
                assert(out@ =~= old(out)@ + spec_sint_field(tag, *v));
            }
        },
        Some(x) => {
            out.push(tag);
            let n = *x as i64;
            let z: u64 = if n >= 0 {
                (2 * n) as u64
            } else {
                ((-2 * n) - 1) as u64
            };
            proof {
                assert(z as nat == spec_zigzag(*x as int));
            }
            push_varint(out, z);
            proof {
                assert(out@ =~= old(out)@ + spec_sint_field(tag, *v));
            }
        },
    }
}

/// Appends an optional length-delimited byte field.
fn push_bytes_field(out: &mut Vec<u8>, tag: u8, v: &Option<Vec<u8>>)
    ensures
        final(out)@ == old(out)@ + spec_len_field(
            tag,
            match *v {
                Some(b) => Some(b@),
                None => None,
            },
        ),
        *v matches Some(b) ==> b@.len() < 0x1_0000_0000_0000_0000,
{
    match v {
        None => {
            proof {
                assert(out@ =~= old(out)@ + Seq::<u8>::empty());
            }
        },
        Some(b) => {
            out.push(tag);
            push_varint(out, b.len() as u64);
            extend_bytes(out, b.as_slice());
            proof {
                assert(out@ =~= old(out)@ + spec_len_field(tag, Some(b@)));
            }
        },
    }
}

/// Appends a byte slice.
fn extend_bytes(out: &mut Vec<u8>, b: &[u8])
    ensures
        final(out)@ == old(out)@ + b@,
{
    out.extend_from_slice(b);
    proof {
        assert forall|i: int| 0 <= i < out@.len() implies out@[i] == (old(out)@ + b@)[i] by {
            if i >= old(out)@.len() {
                assert(cloned::<u8>(b@[i - old(out)@.len()], out@[i]));
            }
        }
        assert(out@ =~= old(out)@ + b@);
    }
}

/// Appends an optional length-delimited string field as UTF-8.
fn push_str_field(out: &mut Vec<u8>, tag: u8, v: &Option<String>)
    ensures
        final(out)@ == old(out)@ + spec_str_field(
            tag,
            match *v {
                Some(s) => Some(s@),
                None => None,
            },
        ),
        *v matches Some(s) ==> vstd::utf8::encode_utf8(s@).len() < 0x1_0000_0000_0000_0000,
{
    match v {
        None => {
            proof {
                assert(out@ =~= old(out)@ + Seq::<u8>::empty());
            }
        },
        Some(s) => {
            let bytes = s.as_str().as_bytes();
            out.push(tag);
            push_varint(out, bytes.len() as u64);
            extend_bytes(out, bytes);
            proof {
                assert(out@ =~= old(out)@ + spec_str_field(tag, Some(s@)));
            }
        },
    }
}

/// Encodes one glyph record.
fn encode_glyph_body(g: &Glyph) -> (r: Vec<u8>)
    ensures
        r@ == spec_encode_glyph(g@),
        glyph_model_wf(g@),
        spec_encode_glyph(g@).len() < 0x1_0000_0000_0000_0000,
{
    let mut out: Vec<u8> = Vec::new();
    push_u32_field(&mut out, TAG_GLYPH_ID, &g.id);
    push_bytes_field(&mut out, TAG_GLYPH_BITMAP, &g.bitmap);
    push_u32_field(&mut out, TAG_GLYPH_WIDTH, &g.width);
    push_u32_field(&mut out, TAG_GLYPH_HEIGHT, &g.height);
    push_sint_field(&mut out, TAG_GLYPH_LEFT, &g.left);
    push_sint_field(&mut out, TAG_GLYPH_TOP, &g.top);
    push_u32_field(&mut out, TAG_GLYPH_ADVANCE, &g.advance);
    let n = out.len();
    proof {
        assert(out@ =~= spec_encode_glyph(g@));
        assert(n < 0x1_0000_0000_0000_0000);
    }
    out
}

/// Encodes one fontstack.
#[verifier::rlimit(40)]
fn encode_fontstack_body(s: &Fontstack) -> (r: Vec<u8>)
    ensures
        r@ == spec_encode_fontstack(s@),
        fontstack_model_wf(s@),
        spec_encode_fontstack(s@).len() < 0x1_0000_0000_0000_0000,
{
    let mut out: Vec<u8> = Vec::new();
    push_str_field(&mut out, TAG_STACK_NAME, &s.name);
    push_str_field(&mut out, TAG_STACK_RANGE, &s.range);
    let ghost head = out@;
    let mut i: usize = 0;
    while i < s.glyphs.len()
        invariant
            i <= s.glyphs.len(),
            head == spec_str_field(TAG_STACK_NAME, s@.name) + spec_str_field(
                TAG_STACK_RANGE,
                s@.range,
            ),
            s@.glyphs.len() == s.glyphs.len(),
            forall|t: int| 0 <= t < s.glyphs.len() ==> #[trigger] s@.glyphs[t] == s.glyphs[t]@,
            forall|t: int|
                0 <= t < i ==> glyph_model_wf(#[trigger] s@.glyphs[t]) && spec_encode_glyph(
                    s@.glyphs[t],
                ).len() < 0x1_0000_0000_0000_0000,
            out@ == head + spec_encode_glyph_list(s@.glyphs.take(i as int)),
        decreases s.glyphs.len() - i,
    {
        let body = encode_glyph_body(&s.glyphs[i]);
        out.push(TAG_STACK_GLYPH);
        push_varint(&mut out, body.len() as u64);
        extend_bytes(&mut out, body.as_slice());
        proof {
            lemma_glyph_list_snoc(s@.glyphs.take(i as int), s@.glyphs[i as int]);
            assert(s@.glyphs.take(i as int).push(s@.glyphs[i as int]) =~= s@.glyphs.take(
                i as int + 1,
            ));
            assert(out@ =~= head + spec_encode_glyph_list(s@.glyphs.take(i as int + 1)));
        }
        i = i + 1;
    }
    let n = out.len();
    proof {
        assert(s@.glyphs.take(s.glyphs.len() as int) =~= s@.glyphs);
        assert(out@ =~= spec_encode_fontstack(s@));
        assert(n < 0x1_0000_0000_0000_0000);
    }
    out
}

/// Serializes the collection to its wire bytes.  Whatever the collection
/// holds, the bytes decode back to exactly its model.
#[verifier::rlimit(60)]
pub fn encode_glyphs(m: &Glyphs) -> (r: Vec<u8>)
    ensures
        r@ == spec_encode_glyphs(m@),
        glyphs_model_wf(m@),
        spec_decode_glyphs(r@) == Some(m@),
{
    let mut out: Vec<u8> = Vec::new();
    let mut i: usize = 0;
    while i < m.stacks.len()
        invariant
            i <= m.stacks.len(),
            m@.stacks.len() == m.stacks.len(),
            forall|t: int| 0 <= t < m.stacks.len() ==> #[trigger] m@.stacks[t] == m.stacks[t]@,
            forall|t: int|
                0 <= t < i ==> fontstack_model_wf(#[trigger] m@.stacks[t]) && spec_encode_fontstack(
                    m@.stacks[t],
                ).len() < 0x1_0000_0000_0000_0000,
            out@ == spec_encode_stack_list(m@.stacks.take(i as int)),
        decreases m.stacks.len() - i,
    {
        let body = encode_fontstack_body(&m.stacks[i]);
        out.push(TAG_GLYPHS_STACK);
        push_varint(&mut out, body.len() as u64);
        extend_bytes(&mut out, body.as_slice());
        proof {
            lemma_stack_list_snoc(m@.stacks.take(i as int), m@.stacks[i as int]);
            assert(m@.stacks.take(i as int).push(m@.stacks[i as int]) =~= m@.stacks.take(
                i as int + 1,
            ));
            assert(out@ =~= spec_encode_stack_list(m@.stacks.take(i as int + 1)));
        }
        i = i + 1;
    }
    proof {
        assert(m@.stacks.take(m.stacks.len() as int) =~= m@.stacks);
        lemma_codec_round_trip(m@);
    }
    out
}

/// Decodes the glyph fields at the front of `b` into `acc`, later
/// occurrences of a field winning; `None` on any malformed byte.
pub open spec fn spec_decode_glyph_fields(b: Seq<u8>, acc: GlyphModel) -> Option<GlyphModel>
    decreases b.len(),
{
    if b.len() == 0 {
        Some(acc)
    } else {
        let tag = b[0];
        let rest = b.skip(1);
        if tag == TAG_GLYPH_ID || tag == TAG_GLYPH_WIDTH || tag == TAG_GLYPH_HEIGHT || tag
            == TAG_GLYPH_ADVANCE {
            match take_varint64(rest) {
                None => None,
                Some((v, c)) => if c <= rest.len() {
                    let x = ((v as nat) % 0x1_0000_0000) as u32;
                    spec_decode_glyph_fields(
                        rest.skip(c as int),
                        if tag == TAG_GLYPH_ID {
                            GlyphModel { id: Some(x), ..acc }
                        } else if tag == TAG_GLYPH_WIDTH {
                            GlyphModel { width: Some(x), ..acc }
                        } else if tag == TAG_GLYPH_HEIGHT {
                            GlyphModel { height: Some(x), ..acc }
                        } else {
                            GlyphModel { advance: Some(x), ..acc }
                        },
                    )
                } else {
                    None
                },
            }
        } else if tag == TAG_GLYPH_LEFT || tag == TAG_GLYPH_TOP {
            match take_varint64(rest) {
                None => None,
                Some((v, c)) => if c <= rest.len() {
                    let x = spec_unzigzag((v as nat) % 0x1_0000_0000) as i32;
                    spec_decode_glyph_fields(
                        rest.skip(c as int),
                        if tag == TAG_GLYPH_LEFT {
                            GlyphModel { left: Some(x), ..acc }
                        } else {
                            GlyphModel { top: Some(x), ..acc }
                        },
                    )
                } else {
                    None
                },
            }
        } else if tag == TAG_GLYPH_BITMAP {
            match take_varint64(rest) {
                None => None,
                Some((v, c)) => if c + v <= rest.len() {
                    let bytes = rest.subrange(c as int, c as int + v as int);
                    spec_decode_glyph_fields(
                        rest.skip(c as int + v as int),
                        GlyphModel { bitmap: Some(bytes), ..acc },
                    )
                } else {
                    None
                },
            }
        } else {
            None
        }
    }
}

/// Decodes one glyph record from the whole of `b`.
pub open spec fn spec_decode_glyph(b: Seq<u8>) -> Option<GlyphModel> {
    spec_decode_glyph_fields(b, crate::model::glyph_model_empty())
}

/// Decodes the fontstack fields at the front of `b` into `acc`.
pub open spec fn spec_decode_fontstack_fields(b: Seq<u8>, acc: FontstackModel) -> Option<
    FontstackModel,
>
    decreases b.len(),
{
    if b.len() == 0 {
        Some(acc)
    } else {
        let tag = b[0];
        let rest = b.skip(1);
        if tag == TAG_STACK_NAME || tag == TAG_STACK_RANGE {
            match take_varint64(rest) {
                None => None,
                Some((v, c)) => if c + v <= rest.len() {
                    let bytes = rest.subrange(c as int, c as int + v as int);
                    if vstd::utf8::valid_utf8(bytes) {
                        let s = vstd::utf8::decode_utf8(bytes);
                        spec_decode_fontstack_fields(
                            rest.skip(c as int + v as int),
                            if tag == TAG_STACK_NAME {
                                FontstackModel { name: Some(s), ..acc }
                            } else {
                                FontstackModel { range: Some(s), ..acc }
                            },
                        )
                    } else {
                        None
                    }
                } else {
                    None
                },
            }
        } else if tag == TAG_STACK_GLYPH {
            match take_varint64(rest) {
                None => None,
                Some((v, c)) => if c + v <= rest.len() {
                    match spec_decode_glyph(rest.subrange(c as int, c as int + v as int)) {
                        None => None,
                        Some(g) => spec_decode_fontstack_fields(
                            rest.skip(c as int + v as int),
                            FontstackModel { glyphs: acc.glyphs.push(g), ..acc },
                        ),
                    }
                } else {
                    None
                },
            }
        } else {
            None
        }
    }
}

/// Decodes one fontstack from the whole of `b`.
pub open spec fn spec_decode_fontstack(b: Seq<u8>) -> Option<FontstackModel> {
    spec_decode_fontstack_fields(b, crate::model::fontstack_model_empty())
}

/// Decodes the collection fields at the front of `b` into `acc`.
pub open spec fn spec_decode_glyphs_fields(b: Seq<u8>, acc: GlyphsModel) -> Option<GlyphsModel>
    decreases b.len(),
{
    if b.len() == 0 {
        Some(acc)
    } else {
        let tag = b[0];
        let rest = b.skip(1);
        if tag == TAG_GLYPHS_STACK {
            match take_varint64(rest) {
                None => None,
                Some((v, c)) => if c + v <= rest.len() {
                    match spec_decode_fontstack(rest.subrange(c as int, c as int + v as int)) {
                        None => None,
                        Some(s) => spec_decode_glyphs_fields(
                            rest.skip(c as int + v as int),
                            GlyphsModel { stacks: acc.stacks.push(s) },
                        ),
                    }
                } else {
                    None
                },
            }
        } else {
            None
        }
    }
}

/// Decodes the collection from the whole of `b`.
pub open spec fn spec_decode_glyphs(b: Seq<u8>) -> Option<GlyphsModel> {
    spec_decode_glyphs_fields(b, GlyphsModel { stacks: Seq::empty() })
}

/// Powers of 128, the place values of a varint's groups.
spec fn pow128(k: nat) -> nat
    decreases k,
{
    if k == 0 {
        1
    } else {
        128 * pow128((k - 1) as nat)
    }
}

/// The place values of the ten groups a 64-bit varint can span.
proof fn lemma_pow128_bounds(k: nat)
    requires
        k <= 9,
    ensures
        1 <= pow128(k) <= 0x8000_0000_0000_0000,
        k <= 8 ==> pow128(k) <= 0x100_0000_0000_0000,
        k == 9 ==> pow128(k) == 0x8000_0000_0000_0000,
{
    assert(pow128(0) == 1);
    assert(pow128(1) == 128);
    assert(pow128(2) == 0x4000);
    assert(pow128(3) == 0x20_0000);
    assert(pow128(4) == 0x1000_0000);
    assert(pow128(5) == 0x8_0000_0000);
    assert(pow128(6) == 0x400_0000_0000);
    assert(pow128(7) == 0x2_0000_0000_0000);
    assert(pow128(8) == 0x100_0000_0000_0000);
    assert(pow128(9) == 0x8000_0000_0000_0000);
}

/// Reads one 64-bit varint from `bytes` between `pos` and `end`.
fn read_varint64(bytes: &Vec<u8>, pos: usize, end: usize) -> (r: Result<(u64, usize), DecodeError>)
    requires
        pos <= end <= bytes@.len(),
    ensures
        match r {
            Ok((v, c)) => {
                &&& take_varint64(bytes@.subrange(pos as int, end as int)) == Some((v, c as nat))
                &&& 1 <= c <= end - pos
            },
            Err(e) => take_varint64(bytes@.subrange(pos as int, end as int)) is None,
        },
{
    let ghost sub = bytes@.subrange(pos as int, end as int);
    let mut i: usize = 0;
    let mut acc: u64 = 0;
    let mut pow: u64 = 1;
    proof {
        assert(pow128(0) == 1);
        assert(sub.skip(0) =~= sub);
        match take_varint(sub) {
            None => {},
            Some((v, c)) => {
                assert(0 + v * 1 == v) by (nonlinear_arith);
            },
        }
    }
    loop
        invariant
            pos <= end <= bytes@.len(),
            sub == bytes@.subrange(pos as int, end as int),
            i <= 9,
            i <= end - pos,
            pow as nat == pow128(i as nat),
            acc < pow,
            match take_varint(sub.skip(i as int)) {
                None => take_varint(sub) is None,
                Some((v, c)) => take_varint(sub) == Some::<(nat, nat)>(
                    ((acc as nat + v * pow as nat), (c + i) as nat),
                ),
            },
        decreases 10 - i,
    {
        proof {
            lemma_pow128_bounds(i as nat);
        }
        if pos + i >= end {
            proof {
                assert(sub.skip(i as int).len() == 0);
            }
            return Err(DecodeError::Truncated);
        }
        let byte = bytes[pos + i];
        proof {
            assert(sub.skip(i as int)[0] == byte);
        }
        if byte < 128 {
            let low = byte as u64;
            proof {
                assert(take_varint(sub.skip(i as int)) == Some::<(nat, nat)>(
                    (low as nat, 1 as nat),
                ));
            }
            if i == 9 && byte > 1 {
                // The tenth group would carry the value past 64 bits.
                proof {
                    assert(acc as nat + low as nat * pow128(9) >= 0x1_0000_0000_0000_0000) by (
                    nonlinear_arith)
                        requires
                            low >= 2,
                            pow128(9) == 0x8000_0000_0000_0000,
                            acc >= 0,
                    ;
                }
                return Err(DecodeError::VarintTooLong);
            }
            proof {
                assert(low as nat * pow as nat <= 127 * 0x100_0000_0000_0000 || (i == 9 && low <= 1
                    && low as nat * pow as nat <= 0x8000_0000_0000_0000)) by (nonlinear_arith)
                    requires
                        0 <= low < 128,
                        1 <= pow,
                        i <= 9,
                        (i <= 8 ==> pow <= 0x100_0000_0000_0000),
                        (i == 9 ==> (pow <= 0x8000_0000_0000_0000 && low <= 1)),
                ;
            }
            let value = acc + low * pow;
            return Ok((value, i + 1));
        }
        let low = (byte - 128) as u64;
        proof {
            assert(sub.skip(i as int).skip(1) =~= sub.skip(i as int + 1));
        }
        if i == 9 {
            // Ten continuation groups: no 64-bit varint is this long.
            proof {
                lemma_take_varint_consumed(sub.skip(10));
                assert(take_varint64(sub) is None);
            }
            return Err(DecodeError::VarintTooLong);
        }
        proof {
            assert(low as nat * pow as nat <= 127 * 0x100_0000_0000_0000 && (acc as nat + low as nat
                * pow as nat) < 128 * pow as nat) by (nonlinear_arith)
                requires
                    0 <= low < 128,
                    1 <= pow <= 0x100_0000_0000_0000,
                    acc < pow,
            ;
            let ghost po = pow as nat;
            let ghost ao = acc as nat;
            let ghost lo = low as nat;
            match take_varint(sub.skip(i as int + 1)) {
                None => {},
                Some((v, c)) => {
                    assert(take_varint(sub.skip(i as int)) == Some::<(nat, nat)>(
                        ((lo + 128 * v), (c + 1) as nat),
                    ));
                    assert(ao + (lo + 128 * v) * po == (ao + lo * po) + v * (128 * po)) by (
                    nonlinear_arith);
                },
            }
        }
        acc = acc + low * pow;
        pow = pow * 128;
        i = i + 1;
    }
}

/// Copies the byte range `[from, to)` out of `bytes`.
fn copy_range(bytes: &Vec<u8>, from: usize, to: usize) -> (r: Vec<u8>)
    requires
        from <= to <= bytes@.len(),
    ensures
        r@ == bytes@.subrange(from as int, to as int),
{
    let mut out: Vec<u8> = Vec::new();
    let mut i: usize = from;
    while i < to
        invariant
            from <= i <= to <= bytes@.len(),
            out@ == bytes@.subrange(from as int, i as int),
        decreases to - i,
    {
        out.push(bytes[i]);
        proof {
            assert(out@ =~= bytes@.subrange(from as int, i as int + 1));
        }
        i = i + 1;
    }
    out
}

/// Relies on `String::from_utf8`: it succeeds exactly on valid UTF-8 and
/// returns the string those bytes encode (`into_bytes` is its inverse).
#[verifier::external_body]
fn string_from_utf8(bytes: Vec<u8>) -> (r: Option<String>)
    ensures
        match r {
            Some(s) => vstd::utf8::valid_utf8(bytes@) && vstd::utf8::encode_utf8(s@) == bytes@,
            None => !vstd::utf8::valid_utf8(bytes@),
        },
{
    String::from_utf8(bytes).ok()
}

/// Decodes the glyph fields between `pos` and `end` into `acc`.
fn decode_glyph_fields(bytes: &Vec<u8>, pos: usize, end: usize, acc: Glyph) -> (r: Result<
    Glyph,
    DecodeError,
>)
    requires
        pos <= end <= bytes@.len(),
    ensures
        match r {
            Ok(g) => spec_decode_glyph_fields(bytes@.subrange(pos as int, end as int), acc@)
                == Some(g@),
            Err(e) => spec_decode_glyph_fields(bytes@.subrange(pos as int, end as int), acc@)
                is None,
        },
    decreases end - pos,
{
    let ghost sub = bytes@.subrange(pos as int, end as int);
    if pos == end {
        return Ok(acc);
    }
    let tag = bytes[pos];
    proof {
        assert(sub[0] == tag);
        assert(sub.skip(1) =~= bytes@.subrange(pos as int + 1, end as int));
    }
    let ghost rest = sub.skip(1);
    if tag == TAG_GLYPH_ID || tag == TAG_GLYPH_WIDTH || tag == TAG_GLYPH_HEIGHT || tag
        == TAG_GLYPH_ADVANCE {
        match read_varint64(bytes, pos + 1, end) {
            Err(e) => Err(e),
            Ok((v, c)) => {
                let x = (v % 0x1_0000_0000) as u32;
                let mut acc2 = acc;
                if tag == TAG_GLYPH_ID {
                    acc2.id = Some(x);
                } else if tag == TAG_GLYPH_WIDTH {
                    acc2.width = Some(x);
                } else if tag == TAG_GLYPH_HEIGHT {
                    acc2.height = Some(x);
                } else {
                    acc2.advance = Some(x);
                }
                proof {
                    assert(rest.skip(c as int) =~= bytes@.subrange(
                        pos as int + 1 + c as int,
                        end as int,
                    ));
                }
                decode_glyph_fields(bytes, pos + 1 + c, end, acc2)
            },
        }
    } else if tag == TAG_GLYPH_LEFT || tag == TAG_GLYPH_TOP {
        match read_varint64(bytes, pos + 1, end) {
            Err(e) => Err(e),
            Ok((v, c)) => {
                let z = (v % 0x1_0000_0000) as u32;
                let x: i32 = if z % 2 == 0 {
                    (z / 2) as i32
                } else {
                    -((z / 2) as i32) - 1
                };
                proof {
                    assert(x as int == spec_unzigzag((v as nat) % 0x1_0000_0000));
                }
                let mut acc2 = acc;
                if tag == TAG_GLYPH_LEFT {
                    acc2.left = Some(x);
                } else {
                    acc2.top = Some(x);
                }
                proof {
                    assert(rest.skip(c as int) =~= bytes@.subrange(
                        pos as int + 1 + c as int,
                        end as int,
                    ));
                }
                decode_glyph_fields(bytes, pos + 1 + c, end, acc2)
            },
        }
    } else if tag == TAG_GLYPH_BITMAP {
        match read_varint64(bytes, pos + 1, end) {
            Err(e) => Err(e),
            Ok((v, c)) => {
                let rem = end - (pos + 1) - c;
                if v > rem as u64 {
                    proof {
                        assert(c as nat + v as nat > rest.len());
                    }
                    return Err(DecodeError::Truncated);
                }
                let len = v as usize;
                let start = pos + 1 + c;
                let bm = copy_range(bytes, start, start + len);
                proof {
                    assert(bm@ =~= rest.subrange(c as int, c as int + v as int));
                    assert(rest.skip(c as int + v as int) =~= bytes@.subrange(
                        start as int + len as int,
                        end as int,
                    ));
                }
                let mut acc2 = acc;
                acc2.bitmap = Some(bm);
                decode_glyph_fields(bytes, start + len, end, acc2)
            },
        }
    } else {
        Err(DecodeError::UnknownField)
    }
}

/// Decodes the fontstack fields between `pos` and `end` into `acc`.
#[verifier::rlimit(100)]
#[verifier::spinoff_prover]
fn decode_fontstack_fields(bytes: &Vec<u8>, pos: usize, end: usize, acc: Fontstack) -> (r: Result<
    Fontstack,
    DecodeError,
>)
    requires
        pos <= end <= bytes@.len(),
    ensures
        match r {
            Ok(s) => spec_decode_fontstack_fields(bytes@.subrange(pos as int, end as int), acc@)
                == Some(s@),
            Err(e) => spec_decode_fontstack_fields(bytes@.subrange(pos as int, end as int), acc@)
                is None,
        },
    decreases end - pos,
{
    let ghost sub = bytes@.subrange(pos as int, end as int);
    if pos == end {
        return Ok(acc);
    }
    let tag = bytes[pos];
    proof {
        assert(sub[0] == tag);
        assert(sub.skip(1) =~= bytes@.subrange(pos as int + 1, end as int));
    }
    let ghost rest = sub.skip(1);
    if tag == TAG_STACK_NAME || tag == TAG_STACK_RANGE {
        match read_varint64(bytes, pos + 1, end) {
            Err(e) => Err(e),
            Ok((v, c)) => {
                let rem = end - (pos + 1) - c;
                if v > rem as u64 {
                    proof {
                        assert(c as nat + v as nat > rest.len());
                    }
                    return Err(DecodeError::Truncated);
                }
                let len = v as usize;
                let start = pos + 1 + c;
                let raw = copy_range(bytes, start, start + len);
                proof {
                    assert(raw@ =~= rest.subrange(c as int, c as int + v as int));
                    assert(rest.skip(c as int + v as int) =~= bytes@.subrange(
                        start as int + len as int,
                        end as int,
                    ));
                }
                match string_from_utf8(raw) {
                    None => Err(DecodeError::InvalidString),
                    Some(s) => {
                        proof {
                            vstd::utf8::encode_utf8_decode_utf8(s@);
                        }
                        let mut acc2 = acc;
                        if tag == TAG_STACK_NAME {
                            acc2.name = Some(s);
                        } else {
                            acc2.range = Some(s);
                        }
                        decode_fontstack_fields(bytes, start + len, end, acc2)
                    },
                }
            },
        }
    } else if tag == TAG_STACK_GLYPH {
        match read_varint64(bytes, pos + 1, end) {
            Err(e) => Err(e),
            Ok((v, c)) => {
                let rem = end - (pos + 1) - c;
                if v > rem as u64 {
                    proof {
                        assert(c as nat + v as nat > rest.len());
                    }
                    return Err(DecodeError::Truncated);
                }
                let len = v as usize;
                let start = pos + 1 + c;
                proof {
                    assert(bytes@.subrange(start as int, start as int + len as int) =~= rest
                        .subrange(c as int, c as int + v as int));
                    assert(rest.skip(c as int + v as int) =~= bytes@.subrange(
                        start as int + len as int,
                        end as int,
                    ));
                }
                match decode_glyph_fields(bytes, start, start + len, Glyph::new()) {
                    Err(e) => Err(e),
                    Ok(g) => {
                        let mut acc2 = acc;
                        acc2.glyphs.push(g);
                        proof {
                            assert(acc2.glyphs@.map_values(|t: Glyph| t@) =~= acc@.glyphs.push(g@));
                        }
                        decode_fontstack_fields(bytes, start + len, end, acc2)
                    },
                }
            },
        }
    } else {
        Err(DecodeError::UnknownField)
    }
}

/// Decodes the collection fields between `pos` and `end` into `acc`.
fn decode_glyphs_fields(bytes: &Vec<u8>, pos: usize, end: usize, acc: Glyphs) -> (r: Result<
    Glyphs,
    DecodeError,
>)
    requires
        pos <= end <= bytes@.len(),
    ensures
        match r {
            Ok(m) => spec_decode_glyphs_fields(bytes@.subrange(pos as int, end as int), acc@)
                == Some(m@),
            Err(e) => spec_decode_glyphs_fields(bytes@.subrange(pos as int, end as int), acc@)
                is None,
        },
    decreases end - pos,
{
    let ghost sub = bytes@.subrange(pos as int, end as int);
    if pos == end {
        return Ok(acc);
    }
    let tag = bytes[pos];
    proof {
        assert(sub[0] == tag);
        assert(sub.skip(1) =~= bytes@.subrange(pos as int + 1, end as int));
    }
    let ghost rest = sub.skip(1);
    if tag == TAG_GLYPHS_STACK {
        match read_varint64(bytes, pos + 1, end) {
            Err(e) => Err(e),
            Ok((v, c)) => {
                let rem = end - (pos + 1) - c;
                if v > rem as u64 {
                    proof {
                        assert(c as nat + v as nat > rest.len());
                    }
                    return Err(DecodeError::Truncated);
                }
                let len = v as usize;
                let start = pos + 1 + c;
                proof {
                    assert(bytes@.subrange(start as int, start as int + len as int) =~= rest
                        .subrange(c as int, c as int + v as int));
                    assert(rest.skip(c as int + v as int) =~= bytes@.subrange(
                        start as int + len as int,
                        end as int,
                    ));
                }
                match decode_fontstack_fields(bytes, start, start + len, Fontstack::new()) {
                    Err(e) => Err(e),
                    Ok(s) => {
                        let mut acc2 = acc;
                        acc2.stacks.push(s);
                        proof {
                            assert(acc2.stacks@.map_values(|t: Fontstack| t@) =~= acc@.stacks.push(
                                s@,
                            ));
                        }
                        decode_glyphs_fields(bytes, start + len, end, acc2)
                    },
                }
            },
        }
    } else {
        Err(DecodeError::UnknownField)
    }
}

/// Deserializes a collection from its wire bytes, rejecting malformed
/// input with a decoding error.
pub fn decode_glyphs(bytes: &Vec<u8>) -> (r: Result<Glyphs, DecodeError>)
    ensures
        match r {
            Ok(m) => spec_decode_glyphs(bytes@) == Some(m@),
            Err(e) => spec_decode_glyphs(bytes@) is None,
        },
{
    proof {
        assert(bytes@.subrange(0, bytes@.len() as int) =~= bytes@);
    }
    decode_glyphs_fields(bytes, 0, bytes.len(), Glyphs::new())
}

/// A glyph model the wire format can carry: its bitmap's byte count fits
/// the length prefix.
pub open spec fn glyph_model_wf(g: GlyphModel) -> bool {
    g.bitmap matches Some(b) ==> b.len() < 0x1_0000_0000_0000_0000
}

/// A fontstack model the wire format can carry.
pub open spec fn fontstack_model_wf(s: FontstackModel) -> bool {
    &&& (s.name matches Some(n) ==> vstd::utf8::encode_utf8(n).len() < 0x1_0000_0000_0000_0000)
    &&& (s.range matches Some(n) ==> vstd::utf8::encode_utf8(n).len() < 0x1_0000_0000_0000_0000)
    &&& (forall|i: int|
        0 <= i < s.glyphs.len() ==> glyph_model_wf(#[trigger] s.glyphs[i]) && spec_encode_glyph(
            s.glyphs[i],
        ).len() < 0x1_0000_0000_0000_0000)
}

/// A collection model the wire format can carry.
pub open spec fn glyphs_model_wf(m: GlyphsModel) -> bool {
    forall|i: int|
        0 <= i < m.stacks.len() ==> fontstack_model_wf(#[trigger] m.stacks[i])
            && spec_encode_fontstack(m.stacks[i]).len() < 0x1_0000_0000_0000_0000
}

/// Peeling one optional unsigned field off the front of a glyph body.
proof fn lemma_glyph_u32_step(tag: u8, v: Option<u32>, tail: Seq<u8>, acc: GlyphModel)
    requires
        tag == TAG_GLYPH_ID || tag == TAG_GLYPH_WIDTH || tag == TAG_GLYPH_HEIGHT || tag
            == TAG_GLYPH_ADVANCE,
    ensures
        spec_decode_glyph_fields(spec_u32_field(tag, v) + tail, acc) == spec_decode_glyph_fields(
            tail,
            match v {
                None => acc,
                Some(x) => if tag == TAG_GLYPH_ID {
                    GlyphModel { id: Some(x), ..acc }
                } else if tag == TAG_GLYPH_WIDTH {
                    GlyphModel { width: Some(x), ..acc }
                } else if tag == TAG_GLYPH_HEIGHT {
                    GlyphModel { height: Some(x), ..acc }
                } else {
                    GlyphModel { advance: Some(x), ..acc }
                },
            },
        ),
{
    match v {
        None => {
            assert(spec_u32_field(tag, v) + tail =~= tail);
        },
        Some(x) => {
            let b = spec_u32_field(tag, v) + tail;
            assert(b[0] == tag);
            assert(b.skip(1) =~= spec_varint(x as nat) + tail);
            lemma_take_varint_of_encode(x as nat, tail);
            lemma_varint_len(x as nat);
            let l = spec_varint(x as nat).len();
            assert((x as nat) % 0x1_0000_0000 == x as nat);
            assert(b.skip(1).skip(l as int) =~= tail);
        },
    }
}

/// Peeling one optional signed field off the front of a glyph body.
proof fn lemma_glyph_sint_step(tag: u8, v: Option<i32>, tail: Seq<u8>, acc: GlyphModel)
    requires
        tag == TAG_GLYPH_LEFT || tag == TAG_GLYPH_TOP,
    ensures
        spec_decode_glyph_fields(spec_sint_field(tag, v) + tail, acc) == spec_decode_glyph_fields(
            tail,
            match v {
                None => acc,
                Some(x) => if tag == TAG_GLYPH_LEFT {
                    GlyphModel { left: Some(x), ..acc }
                } else {
                    GlyphModel { top: Some(x), ..acc }
                },
            },
        ),
{
    match v {
        None => {
            assert(spec_sint_field(tag, v) + tail =~= tail);
        },
        Some(x) => {
            let z = spec_zigzag(x as int);
            let b = spec_sint_field(tag, v) + tail;
            assert(b[0] == tag);
            assert(b.skip(1) =~= spec_varint(z) + tail);
            lemma_take_varint_of_encode(z, tail);
            assert(z < 0x1_0000_0000);
            lemma_varint_len(z);
            let l = spec_varint(z).len();
            assert(z % 0x1_0000_0000 == z);
            lemma_zigzag_roundtrip(x as int);
            assert(b.skip(1).skip(l as int) =~= tail);
        },
    }
}

/// Peeling the optional bitmap field off the front of a glyph body.
proof fn lemma_glyph_bytes_step(v: Option<Seq<u8>>, tail: Seq<u8>, acc: GlyphModel)
    requires
        v matches Some(b) ==> b.len() < 0x1_0000_0000_0000_0000,
    ensures
        spec_decode_glyph_fields(spec_len_field(TAG_GLYPH_BITMAP, v) + tail, acc)
            == spec_decode_glyph_fields(
            tail,
            match v {
                None => acc,
                Some(d) => GlyphModel { bitmap: Some(d), ..acc },
            },
        ),
{
    match v {
        None => {
            assert(spec_len_field(TAG_GLYPH_BITMAP, v) + tail =~= tail);
        },
        Some(d) => {
            let b = spec_len_field(TAG_GLYPH_BITMAP, v) + tail;
            assert(b[0] == TAG_GLYPH_BITMAP);
            assert(b.skip(1) =~= spec_varint(d.len()) + (d + tail));
            lemma_take_varint_of_encode(d.len(), d + tail);
            lemma_varint_len(d.len());
            let l = spec_varint(d.len()).len();
            let rest = b.skip(1);
            assert(rest.subrange(l as int, l as int + d.len() as int) =~= d);
            assert(rest.skip(l as int + d.len() as int) =~= tail);
        },
    }
}

/// Decoding the encoding of a glyph's fields fills exactly its present
/// fields into the accumulator.
#[verifier::rlimit(100)]
#[verifier::spinoff_prover]
proof fn lemma_glyph_fields_roundtrip(g: GlyphModel, acc: GlyphModel)
    requires
        glyph_model_wf(g),
    ensures
        spec_decode_glyph_fields(spec_encode_glyph(g), acc) == Some(
            GlyphModel {
                id: if g.id is Some {
                    g.id
                } else {
                    acc.id
                },
                bitmap: if g.bitmap is Some {
                    g.bitmap
                } else {
                    acc.bitmap
                },
                width: if g.width is Some {
                    g.width
                } else {
                    acc.width
                },
                height: if g.height is Some {
                    g.height
                } else {
                    acc.height
                },
                left: if g.left is Some {
                    g.left
                } else {
                    acc.left
                },
                top: if g.top is Some {
                    g.top
                } else {
                    acc.top
                },
                advance: if g.advance is Some {
                    g.advance
                } else {
                    acc.advance
                },
            },
        ),
{
    let f1 = spec_u32_field(TAG_GLYPH_ID, g.id);
    let f2 = spec_len_field(TAG_GLYPH_BITMAP, g.bitmap);
    let f3 = spec_u32_field(TAG_GLYPH_WIDTH, g.width);
    let f4 = spec_u32_field(TAG_GLYPH_HEIGHT, g.height);
    let f5 = spec_sint_field(TAG_GLYPH_LEFT, g.left);
    let f6 = spec_sint_field(TAG_GLYPH_TOP, g.top);
    let f7 = spec_u32_field(TAG_GLYPH_ADVANCE, g.advance);
    let t6 = f7;
    let t5 = f6 + t6;
    let t4 = f5 + t5;
    let t3 = f4 + t4;
    let t2 = f3 + t3;
    let t1 = f2 + t2;
    assert(spec_encode_glyph(g) =~= f1 + t1);
    lemma_glyph_u32_step(TAG_GLYPH_ID, g.id, t1, acc);
    let a1 = match g.id {
        None => acc,
        Some(x) => GlyphModel { id: Some(x), ..acc },
    };
    lemma_glyph_bytes_step(g.bitmap, t2, a1);
    let a2 = match g.bitmap {
        None => a1,
        Some(d) => GlyphModel { bitmap: Some(d), ..a1 },
    };
    lemma_glyph_u32_step(TAG_GLYPH_WIDTH, g.width, t3, a2);
    let a3 = match g.width {
        None => a2,
        Some(x) => GlyphModel { width: Some(x), ..a2 },
    };
    lemma_glyph_u32_step(TAG_GLYPH_HEIGHT, g.height, t4, a3);
    let a4 = match g.height {
        None => a3,
        Some(x) => GlyphModel { height: Some(x), ..a3 },
    };
    lemma_glyph_sint_step(TAG_GLYPH_LEFT, g.left, t5, a4);
    let a5 = match g.left {
        None => a4,
        Some(x) => GlyphModel { left: Some(x), ..a4 },
    };
    lemma_glyph_sint_step(TAG_GLYPH_TOP, g.top, t6, a5);
    let a6 = match g.top {
        None => a5,
        Some(x) => GlyphModel { top: Some(x), ..a5 },
    };
    lemma_glyph_u32_step(TAG_GLYPH_ADVANCE, g.advance, Seq::empty(), a6);
    assert(f7 + Seq::<u8>::empty() =~= f7);
    let a7 = match g.advance {
        None => a6,
        Some(x) => GlyphModel { advance: Some(x), ..a6 },
    };
    assert(spec_decode_glyph_fields(Seq::empty(), a7) == Some(a7));
}

/// Decoding the encoding of a glyph gives the glyph back.
pub proof fn lemma_glyph_round_trip(g: GlyphModel)
    requires
        glyph_model_wf(g),
    ensures
        spec_decode_glyph(spec_encode_glyph(g)) == Some(g),
{
    lemma_glyph_fields_roundtrip(g, crate::model::glyph_model_empty());
}

/// Peeling one optional string field off the front of a fontstack body.
proof fn lemma_stack_str_step(tag: u8, v: Option<Seq<char>>, tail: Seq<u8>, acc: FontstackModel)
    requires
        tag == TAG_STACK_NAME || tag == TAG_STACK_RANGE,
        v matches Some(s) ==> vstd::utf8::encode_utf8(s).len() < 0x1_0000_0000_0000_0000,
    ensures
        spec_decode_fontstack_fields(spec_str_field(tag, v) + tail, acc)
            == spec_decode_fontstack_fields(
            tail,
            match v {
                None => acc,
                Some(s) => if tag == TAG_STACK_NAME {
                    FontstackModel { name: Some(s), ..acc }
                } else {
                    FontstackModel { range: Some(s), ..acc }
                },
            },
        ),
{
    match v {
        None => {
            assert(spec_str_field(tag, v) + tail =~= tail);
        },
        Some(s) => {
            let d = vstd::utf8::encode_utf8(s);
            let b = spec_str_field(tag, v) + tail;
            assert(b[0] == tag);
            assert(b.skip(1) =~= spec_varint(d.len()) + (d + tail));
            lemma_take_varint_of_encode(d.len(), d + tail);
            lemma_varint_len(d.len());
            let l = spec_varint(d.len()).len();
            let rest = b.skip(1);
            assert(rest.subrange(l as int, l as int + d.len() as int) =~= d);
            assert(rest.skip(l as int + d.len() as int) =~= tail);
            vstd::utf8::encode_utf8_valid_utf8(s);
            vstd::utf8::encode_utf8_decode_utf8(s);
        },
    }
}

/// Decoding the encoding of a run of glyph records appends exactly those
/// records.
#[verifier::rlimit(100)]
#[verifier::spinoff_prover]
proof fn lemma_glyph_list_roundtrip(gs: Seq<GlyphModel>, tail: Seq<u8>, acc: FontstackModel)
    requires
        forall|i: int|
            0 <= i < gs.len() ==> glyph_model_wf(#[trigger] gs[i]) && spec_encode_glyph(gs[i]).len()
                < 0x1_0000_0000_0000_0000,
    ensures
        spec_decode_fontstack_fields(spec_encode_glyph_list(gs) + tail, acc)
            == spec_decode_fontstack_fields(
            tail,
            FontstackModel { glyphs: acc.glyphs + gs, ..acc },
        ),
    decreases gs.len(),
{
    if gs.len() == 0 {
        assert(spec_encode_glyph_list(gs) + tail =~= tail);
        assert(acc.glyphs + gs =~= acc.glyphs);
        assert((FontstackModel { glyphs: acc.glyphs + gs, ..acc }) == acc);
    } else {
        let g = gs[0];
        let d = spec_encode_glyph(g);
        let b = spec_encode_glyph_list(gs) + tail;
        let tail2 = spec_encode_glyph_list(gs.drop_first()) + tail;
        assert(b =~= (seq![TAG_STACK_GLYPH] + spec_varint(d.len()) + d) + tail2);
        assert(b[0] == TAG_STACK_GLYPH);
        assert(b.skip(1) =~= spec_varint(d.len()) + (d + tail2));
        lemma_take_varint_of_encode(d.len(), d + tail2);
        lemma_varint_len(d.len());
        let l = spec_varint(d.len()).len();
        let rest = b.skip(1);
        assert(rest.subrange(l as int, l as int + d.len() as int) =~= d);
        assert(rest.skip(l as int + d.len() as int) =~= tail2);
        lemma_glyph_round_trip(g);
        let acc2 = FontstackModel { glyphs: acc.glyphs.push(g), ..acc };
        lemma_glyph_list_roundtrip(gs.drop_first(), tail, acc2);
        assert(acc.glyphs.push(g) + gs.drop_first() =~= acc.glyphs + gs);
    }
}

/// Decoding the encoding of a fontstack gives the fontstack back.
pub proof fn lemma_fontstack_round_trip(s: FontstackModel)
    requires
        fontstack_model_wf(s),
    ensures
        spec_decode_fontstack(spec_encode_fontstack(s)) == Some(s),
{
    let acc = crate::model::fontstack_model_empty();
    let f1 = spec_str_field(TAG_STACK_NAME, s.name);
    let f2 = spec_str_field(TAG_STACK_RANGE, s.range);
    let f3 = spec_encode_glyph_list(s.glyphs);
    let t2 = f3;
    let t1 = f2 + t2;
    assert(spec_encode_fontstack(s) =~= f1 + t1);
    lemma_stack_str_step(TAG_STACK_NAME, s.name, t1, acc);
    let a1 = match s.name {
        None => acc,
        Some(n) => FontstackModel { name: Some(n), ..acc },
    };
    lemma_stack_str_step(TAG_STACK_RANGE, s.range, t2, a1);
    let a2 = match s.range {
        None => a1,
        Some(n) => FontstackModel { range: Some(n), ..a1 },
    };
    assert(f3 + Seq::<u8>::empty() =~= f3);
    lemma_glyph_list_roundtrip(s.glyphs, Seq::empty(), a2);
    let a3 = FontstackModel { glyphs: a2.glyphs + s.glyphs, ..a2 };
    assert(spec_decode_fontstack_fields(Seq::empty(), a3) == Some(a3));
    assert(a2.glyphs + s.glyphs =~= s.glyphs);
    assert(a3 == s);
}

/// Decoding the encoding of a run of fontstacks appends exactly those
/// stacks.
#[verifier::rlimit(100)]
#[verifier::spinoff_prover]
proof fn lemma_stack_list_roundtrip(ss: Seq<FontstackModel>, acc: GlyphsModel)
    requires
        forall|i: int|
            0 <= i < ss.len() ==> fontstack_model_wf(#[trigger] ss[i]) && spec_encode_fontstack(
                ss[i],
            ).len() < 0x1_0000_0000_0000_0000,
    ensures
        spec_decode_glyphs_fields(spec_encode_stack_list(ss), acc) == Some(
            GlyphsModel { stacks: acc.stacks + ss },
        ),
    decreases ss.len(),
{
    if ss.len() == 0 {
        assert(spec_encode_stack_list(ss) =~= Seq::<u8>::empty());
        assert(acc.stacks + ss =~= acc.stacks);
        assert(spec_decode_glyphs_fields(Seq::empty(), acc) == Some(acc));
        assert((GlyphsModel { stacks: acc.stacks + ss }) == acc);
    } else {
        let s = ss[0];
        let d = spec_encode_fontstack(s);
        let b = spec_encode_stack_list(ss);
        let tail2 = spec_encode_stack_list(ss.drop_first());
        assert(b =~= (seq![TAG_GLYPHS_STACK] + spec_varint(d.len()) + d) + tail2);
        assert(b[0] == TAG_GLYPHS_STACK);
        assert(b.skip(1) =~= spec_varint(d.len()) + (d + tail2));
        lemma_take_varint_of_encode(d.len(), d + tail2);
        lemma_varint_len(d.len());
        let l = spec_varint(d.len()).len();
        let rest = b.skip(1);
        assert(rest.subrange(l as int, l as int + d.len() as int) =~= d);
        assert(rest.skip(l as int + d.len() as int) =~= tail2);
        lemma_fontstack_round_trip(s);
        let acc2 = GlyphsModel { stacks: acc.stacks.push(s) };
        lemma_stack_list_roundtrip(ss.drop_first(), acc2);
        assert(acc.stacks.push(s) + ss.drop_first() =~= acc.stacks + ss);
    }
}

/// Round trip: decoding the encoding of any collection the wire format
/// can carry gives the collection back, bit-exactly.
pub proof fn lemma_codec_round_trip(m: GlyphsModel)
    requires
        glyphs_model_wf(m),
    ensures
        spec_decode_glyphs(spec_encode_glyphs(m)) == Some(m),
{
    let acc = GlyphsModel { stacks: Seq::empty() };
    lemma_stack_list_roundtrip(m.stacks, acc);
    assert(acc.stacks + m.stacks =~= m.stacks);
}

} // verus!
