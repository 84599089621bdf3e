//! What holds of the encoder and decoder together.
use vstd::prelude::*;
use crate::model::{Val, Shape, conforms, fields_conform, utf8_valid};
use crate::profile::{DecodeError, Profile, pow256, le_bytes, uint_bytes, uint_dec, valid_width,
    lemma_pow256_values, lemma_le_round_trip};
use crate::encoder::{enc, enc_list, enc_pairs, signed_wire};
use crate::decoder::{dec, dec_list, dec_fields, dec_pair, dec_pairs, signed_from_wire};

verus! {

/// An unsigned field reads back as written, whatever follows it.
pub proof fn lemma_uint_round_trip(p: Profile, x: nat, w: nat, rest: Seq<u8>)
    requires
        valid_width(w),
        x < pow256(w),
    ensures
        uint_dec(p, w, uint_bytes(p, x, w) + rest) == Ok::<(nat, nat), DecodeError>(
            (x, uint_bytes(p, x, w).len()),
        ),
{
    lemma_pow256_values();
    let e = uint_bytes(p, x, w);
    let b = e + rest;
    if w == 1 || p == Profile::LegacyFixed {
        assert(b.subrange(0, w as int) =~= le_bytes(x, w));
        lemma_le_round_trip(x, w);
    } else if x <= 250 {
        assert(b[0] == x as u8);
    } else if x < pow256(2) {
        assert(b.subrange(1, 3) =~= le_bytes(x, 2));
        lemma_le_round_trip(x, 2);
    } else if x < pow256(4) {
        assert(b.subrange(1, 5) =~= le_bytes(x, 4));
        lemma_le_round_trip(x, 4);
    } else {
        assert(b.subrange(1, 9) =~= le_bytes(x, 8));
        lemma_le_round_trip(x, 8);
    }
}

/// A signed value in range reads back from its wire integer.
pub proof fn lemma_signed_round_trip(p: Profile, x: int, w: nat)
    requires
        valid_width(w),
        -(pow256(w) / 2) <= x < pow256(w) / 2,
    ensures
        signed_wire(p, x, w) < pow256(w),
        signed_from_wire(p, signed_wire(p, x, w), w) == x,
{
    lemma_pow256_values();
}

proof fn lemma_dec_enc_scalar(p: Profile, v: Val, s: Shape, rest: Seq<u8>)
    requires
        conforms(v, s),
        s is U8 || s is U16 || s is U32 || s is U64 || s is I8 || s is I16 || s is I32 || s is I64
            || s is F32 || s is F64 || s is Bool,
    ensures
        dec(p, s, enc(p, v) + rest) == Ok::<(Val, nat), DecodeError>((v, enc(p, v).len())),
{
    lemma_pow256_values();
    match v {
        Val::U8(x) => lemma_uint_round_trip(p, x as nat, 1, rest),
        Val::U16(x) => lemma_uint_round_trip(p, x as nat, 2, rest),
        Val::U32(x) => lemma_uint_round_trip(p, x as nat, 4, rest),
        Val::U64(x) => lemma_uint_round_trip(p, x as nat, 8, rest),
        Val::I8(x) => {
            lemma_signed_round_trip(p, x as int, 1);
            lemma_uint_round_trip(p, signed_wire(p, x as int, 1), 1, rest);
        },
        Val::I16(x) => {
            lemma_signed_round_trip(p, x as int, 2);
            lemma_uint_round_trip(p, signed_wire(p, x as int, 2), 2, rest);
        },
        Val::I32(x) => {
            lemma_signed_round_trip(p, x as int, 4);
            lemma_uint_round_trip(p, signed_wire(p, x as int, 4), 4, rest);
        },
        Val::I64(x) => {
            lemma_signed_round_trip(p, x as int, 8);
            lemma_uint_round_trip(p, signed_wire(p, x as int, 8), 8, rest);
        },
        Val::F32(x) => lemma_uint_round_trip(Profile::LegacyFixed, x as nat, 4, rest),
        Val::F64(x) => lemma_uint_round_trip(Profile::LegacyFixed, x as nat, 8, rest),
        _ => {},
    }
}

/// A value that conforms to its shape reads back from its encoding, taking
/// exactly the encoded bytes, whatever follows them.
pub proof fn lemma_dec_enc(p: Profile, v: Val, s: Shape, rest: Seq<u8>)
    requires
        conforms(v, s),
    ensures
        dec(p, s, enc(p, v) + rest) == Ok::<(Val, nat), DecodeError>((v, enc(p, v).len())),
    decreases s, 3nat, 0nat,
{
    match s {
        Shape::Text => lemma_dec_enc_text(p, v, s, rest),
        Shape::Array(e, k) => lemma_dec_list(p, *e, v->Array_0, rest),
        Shape::Sequence(_) => lemma_dec_enc_sequence(p, v, s, rest),
        Shape::Tuple(fs) => lemma_dec_fields(p, fs@, v->Tuple_0, rest),
        Shape::Record(fs) => lemma_dec_fields(p, fs@, v->Record_0, rest),
        Shape::Dict(_, _) => lemma_dec_enc_dict(p, v, s, rest),
        Shape::Opt(_) => lemma_dec_enc_option(p, v, s, rest),
        Shape::Enum(_) => lemma_dec_enc_enum(p, v, s, rest),
        _ => lemma_dec_enc_scalar(p, v, s, rest),
    }
}

proof fn lemma_dec_enc_text(p: Profile, v: Val, s: Shape, rest: Seq<u8>)
    requires
        conforms(v, s),
        s is Text,
    ensures
        dec(p, s, enc(p, v) + rest) == Ok::<(Val, nat), DecodeError>((v, enc(p, v).len())),
{
    lemma_pow256_values();
    let b = enc(p, v) + rest;
    let t = v->Text_0;
    let e = uint_bytes(p, t.len(), 8);
    assert(b =~= e + (t + rest));
    lemma_uint_round_trip(p, t.len(), 8, t + rest);
    assert(b.subrange(e.len() as int, (e.len() + t.len()) as int) =~= t);
}

proof fn lemma_dec_enc_sequence(p: Profile, v: Val, s: Shape, rest: Seq<u8>)
    requires
        conforms(v, s),
        s is Sequence,
    ensures
        dec(p, s, enc(p, v) + rest) == Ok::<(Val, nat), DecodeError>((v, enc(p, v).len())),
    decreases s, 2nat, 0nat,
{
    lemma_pow256_values();
    let b = enc(p, v) + rest;
    let vs = v->Sequence_0;
    let h = uint_bytes(p, vs.len(), 8);
    assert(b =~= h + (enc_list(p, vs) + rest));
    lemma_uint_round_trip(p, vs.len(), 8, enc_list(p, vs) + rest);
    assert(b.skip(h.len() as int) =~= enc_list(p, vs) + rest);
    lemma_dec_list(p, *s->Sequence_0, vs, rest);
}

proof fn lemma_dec_enc_dict(p: Profile, v: Val, s: Shape, rest: Seq<u8>)
    requires
        conforms(v, s),
        s is Dict,
    ensures
        dec(p, s, enc(p, v) + rest) == Ok::<(Val, nat), DecodeError>((v, enc(p, v).len())),
    decreases s, 2nat, 0nat,
{
    lemma_pow256_values();
    let b = enc(p, v) + rest;
    let ps = v->Dict_0;
    let h = uint_bytes(p, ps.len(), 8);
    assert(b =~= h + (enc_pairs(p, ps) + rest));
    lemma_uint_round_trip(p, ps.len(), 8, enc_pairs(p, ps) + rest);
    assert(b.skip(h.len() as int) =~= enc_pairs(p, ps) + rest);
    lemma_dec_pairs(p, s, ps, rest);
}

proof fn lemma_dec_enc_option(p: Profile, v: Val, s: Shape, rest: Seq<u8>)
    requires
        conforms(v, s),
        s is Opt,
    ensures
        dec(p, s, enc(p, v) + rest) == Ok::<(Val, nat), DecodeError>((v, enc(p, v).len())),
    decreases s, 2nat, 0nat,
{
    let b = enc(p, v) + rest;
    match v->Opt_0 {
        Some(x) => {
            assert(b.skip(1) =~= enc(p, *x) + rest);
            lemma_dec_enc(p, *x, *s->Opt_0, rest);
        },
        None => {},
    }
}

proof fn lemma_dec_enc_enum(p: Profile, v: Val, s: Shape, rest: Seq<u8>)
    requires
        conforms(v, s),
        s is Enum,
    ensures
        dec(p, s, enc(p, v) + rest) == Ok::<(Val, nat), DecodeError>((v, enc(p, v).len())),
    decreases s, 2nat, 0nat,
{
    lemma_pow256_values();
    let b = enc(p, v) + rest;
    let vs = s->Enum_0;
    let i = v->Enum_0;
    let x = *v->Enum_1;
    let h = uint_bytes(p, i as nat, 4);
    assert(b =~= h + (enc(p, x) + rest));
    lemma_uint_round_trip(p, i as nat, 4, enc(p, x) + rest);
    assert(b.skip(h.len() as int) =~= enc(p, x) + rest);
    assert(decreases_to!(s => vs));
    lemma_dec_enc(p, x, vs@[i as int], rest);
}

/// Values of one shape read back from their encodings laid end to end.
pub proof fn lemma_dec_list(p: Profile, e: Shape, vs: Seq<Val>, rest: Seq<u8>)
    requires
        forall|i: int| 0 <= i < vs.len() ==> conforms(#[trigger] vs[i], e),
    ensures
        dec_list(p, e, vs.len(), enc_list(p, vs) + rest) == Ok::<(Seq<Val>, nat), DecodeError>(
            (vs, enc_list(p, vs).len()),
        ),
    decreases e, 4nat, vs.len(),
{
    if vs.len() == 0 {
        assert(vs =~= Seq::<Val>::empty());
    } else {
        let t = vs.subrange(1, vs.len() as int);
        let b = enc_list(p, vs) + rest;
        assert(b =~= enc(p, vs[0]) + (enc_list(p, t) + rest));
        lemma_dec_enc(p, vs[0], e, enc_list(p, t) + rest);
        assert(b.skip(enc(p, vs[0]).len() as int) =~= enc_list(p, t) + rest);
        assert forall|i: int| 0 <= i < t.len() implies conforms(#[trigger] t[i], e) by {
            assert(t[i] == vs[i + 1]);
        }
        lemma_dec_list(p, e, t, rest);
        assert(seq![vs[0]] + t =~= vs);
    }
}

/// Heterogeneous fields read back from their encodings laid end to end.
pub proof fn lemma_dec_fields(p: Profile, fs: Seq<Shape>, vs: Seq<Val>, rest: Seq<u8>)
    requires
        fields_conform(vs, fs),
    ensures
        dec_fields(p, fs, enc_list(p, vs) + rest) == Ok::<(Seq<Val>, nat), DecodeError>(
            (vs, enc_list(p, vs).len()),
        ),
    decreases fs, 0nat, 0nat,
{
    if fs.len() == 0 {
        assert(vs =~= Seq::<Val>::empty());
    } else {
        let t = vs.subrange(1, vs.len() as int);
        let b = enc_list(p, vs) + rest;
        assert(b =~= enc(p, vs[0]) + (enc_list(p, t) + rest));
        lemma_dec_enc(p, vs[0], fs[0], enc_list(p, t) + rest);
        assert(b.skip(enc(p, vs[0]).len() as int) =~= enc_list(p, t) + rest);
        lemma_dec_fields(p, fs.subrange(1, fs.len() as int), t, rest);
        assert(seq![vs[0]] + t =~= vs);
    }
}

/// Key/value pairs read back from their encodings laid end to end.
#[verifier::rlimit(100)]
pub proof fn lemma_dec_pairs(p: Profile, s: Shape, ps: Seq<(Val, Val)>, rest: Seq<u8>)
    requires
        s is Dict,
        forall|i: int|
            0 <= i < ps.len() ==> conforms(#[trigger] ps[i].0, *s->Dict_0) && conforms(ps[i].1, *s->Dict_1),
    ensures
        dec_pairs(p, s, ps.len(), enc_pairs(p, ps) + rest) == Ok::<(Seq<(Val, Val)>, nat), DecodeError>(
            (ps, enc_pairs(p, ps).len()),
        ),
    decreases s, 1nat, ps.len() + 1,
{
    if ps.len() == 0 {
        assert(ps =~= Seq::<(Val, Val)>::empty());
    } else {
        let t = ps.subrange(1, ps.len() as int);
        let k = ps[0].0;
        let x = ps[0].1;
        let b = enc_pairs(p, ps) + rest;
        let tail = enc_pairs(p, t) + rest;
        assert(b =~= enc(p, k) + (enc(p, x) + tail));
        lemma_dec_enc(p, k, *s->Dict_0, enc(p, x) + tail);
        assert(b.skip(enc(p, k).len() as int) =~= enc(p, x) + tail);
        lemma_dec_enc(p, x, *s->Dict_1, tail);
        assert(b.skip(enc(p, k).len() as int).skip(enc(p, x).len() as int) =~= tail);
        assert(b.skip((enc(p, k).len() + enc(p, x).len()) as int) =~= tail);
        assert(dec_pair(p, s, b) == Ok::<((Val, Val), nat), DecodeError>(
            ((k, x), enc(p, k).len() + enc(p, x).len()),
        ));
        assert forall|i: int| 0 <= i < t.len() implies conforms(#[trigger] t[i].0, *s->Dict_0) && conforms(
            t[i].1,
            *s->Dict_1,
        ) by {
            assert(t[i] == ps[i + 1]);
        }
        lemma_dec_pairs(p, s, t, rest);
        assert(seq![(k, x)] + t =~= ps);
    }
}

/// Round trip: decoding the encoding of a value, under the same profile and a
/// shape the value conforms to, gives the value back and takes every byte.
pub proof fn round_trip(p: Profile, v: Val, s: Shape)
    requires
        conforms(v, s),
    ensures
        dec(p, s, enc(p, v)) == Ok::<(Val, nat), DecodeError>((v, enc(p, v).len())),
{
    lemma_dec_enc(p, v, s, Seq::empty());
    assert(enc(p, v) + Seq::<u8>::empty() =~= enc(p, v));
}


/// A strict prefix of an unsigned field is reported as truncated.
pub proof fn lemma_uint_truncated(p: Profile, x: nat, w: nat, k: nat)
    requires
        valid_width(w),
        x < pow256(w),
        k < uint_bytes(p, x, w).len(),
    ensures
        uint_dec(p, w, uint_bytes(p, x, w).take(k as int)) == Err::<(nat, nat), DecodeError>(DecodeError::Truncated),
{
    lemma_pow256_values();
    let b = uint_bytes(p, x, w).take(k as int);
    if w == 1 || p == Profile::LegacyFixed {
    } else if k == 0 {
    } else {
        assert(b[0] == uint_bytes(p, x, w)[0]);
    }
}

/// Splits a prefix of `a + c` into a prefix of `a`, or `a` and a prefix of `c`.
proof fn lemma_take_concat(a: Seq<u8>, c: Seq<u8>, k: int)
    requires
        0 <= k <= a.len() + c.len(),
    ensures
        k < a.len() ==> (a + c).take(k) == a.take(k),
        k >= a.len() ==> (a + c).take(k) == a + c.take(k - a.len()),
{
    if k < a.len() {
        assert((a + c).take(k) =~= a.take(k));
    } else {
        assert((a + c).take(k) =~= a + c.take(k - a.len()));
    }
}

proof fn lemma_truncated_scalar(p: Profile, v: Val, s: Shape, k: nat)
    requires
        conforms(v, s),
        k < enc(p, v).len(),
        s is U8 || s is U16 || s is U32 || s is U64 || s is I8 || s is I16 || s is I32 || s is I64
            || s is F32 || s is F64 || s is Bool,
    ensures
        dec(p, s, enc(p, v).take(k as int)) == Err::<(Val, nat), DecodeError>(DecodeError::Truncated),
{
    lemma_pow256_values();
    match v {
        Val::U8(x) => lemma_uint_truncated(p, x as nat, 1, k),
        Val::U16(x) => lemma_uint_truncated(p, x as nat, 2, k),
        Val::U32(x) => lemma_uint_truncated(p, x as nat, 4, k),
        Val::U64(x) => lemma_uint_truncated(p, x as nat, 8, k),
        Val::I8(x) => {
            lemma_signed_round_trip(p, x as int, 1);
            lemma_uint_truncated(p, signed_wire(p, x as int, 1), 1, k);
        },
        Val::I16(x) => {
            lemma_signed_round_trip(p, x as int, 2);
            lemma_uint_truncated(p, signed_wire(p, x as int, 2), 2, k);
        },
        Val::I32(x) => {
            lemma_signed_round_trip(p, x as int, 4);
            lemma_uint_truncated(p, signed_wire(p, x as int, 4), 4, k);
        },
        Val::I64(x) => {
            lemma_signed_round_trip(p, x as int, 8);
            lemma_uint_truncated(p, signed_wire(p, x as int, 8), 8, k);
        },
        _ => {},
    }
}

/// A strict prefix of the encoding of a conforming value is reported as
/// truncated.
pub proof fn lemma_truncated(p: Profile, v: Val, s: Shape, k: nat)
    requires
        conforms(v, s),
        k < enc(p, v).len(),
    ensures
        dec(p, s, enc(p, v).take(k as int)) == Err::<(Val, nat), DecodeError>(DecodeError::Truncated),
    decreases s, 3nat, 0nat,
{
    match s {
        Shape::Text => lemma_truncated_text(p, v, s, k),
        Shape::Array(e, _) => lemma_truncated_list(p, *e, v->Array_0, k),
        Shape::Sequence(_) => lemma_truncated_sequence(p, v, s, k),
        Shape::Tuple(fs) => lemma_truncated_fields(p, fs@, v->Tuple_0, k),
        Shape::Record(fs) => lemma_truncated_fields(p, fs@, v->Record_0, k),
        Shape::Dict(_, _) => lemma_truncated_dict(p, v, s, k),
        Shape::Opt(_) => lemma_truncated_option(p, v, s, k),
        Shape::Enum(_) => lemma_truncated_enum(p, v, s, k),
        _ => lemma_truncated_scalar(p, v, s, k),
    }
}

proof fn lemma_truncated_text(p: Profile, v: Val, s: Shape, k: nat)
    requires
        conforms(v, s),
        k < enc(p, v).len(),
        s is Text,
    ensures
        dec(p, s, enc(p, v).take(k as int)) == Err::<(Val, nat), DecodeError>(DecodeError::Truncated),
{
    lemma_pow256_values();
    let t = v->Text_0;
    let h = uint_bytes(p, t.len(), 8);
    lemma_take_concat(h, t, k as int);
    if k < h.len() {
        lemma_uint_truncated(p, t.len(), 8, k);
    } else {
        lemma_uint_round_trip(p, t.len(), 8, t.take(k - h.len()));
    }
}

proof fn lemma_truncated_sequence(p: Profile, v: Val, s: Shape, k: nat)
    requires
        conforms(v, s),
        k < enc(p, v).len(),
        s is Sequence,
    ensures
        dec(p, s, enc(p, v).take(k as int)) == Err::<(Val, nat), DecodeError>(DecodeError::Truncated),
    decreases s, 2nat, 0nat,
{
    lemma_pow256_values();
    let vs = v->Sequence_0;
    let h = uint_bytes(p, vs.len(), 8);
    let body = enc_list(p, vs);
    lemma_take_concat(h, body, k as int);
    if k < h.len() {
        lemma_uint_truncated(p, vs.len(), 8, k);
    } else {
        let b = enc(p, v).take(k as int);
        lemma_uint_round_trip(p, vs.len(), 8, body.take(k - h.len()));
        assert(b.skip(h.len() as int) =~= body.take(k - h.len()));
        lemma_truncated_list(p, *s->Sequence_0, vs, (k - h.len()) as nat);
    }
}

proof fn lemma_truncated_dict(p: Profile, v: Val, s: Shape, k: nat)
    requires
        conforms(v, s),
        k < enc(p, v).len(),
        s is Dict,
    ensures
        dec(p, s, enc(p, v).take(k as int)) == Err::<(Val, nat), DecodeError>(DecodeError::Truncated),
    decreases s, 2nat, 0nat,
{
    lemma_pow256_values();
    let ps = v->Dict_0;
    let h = uint_bytes(p, ps.len(), 8);
    let body = enc_pairs(p, ps);
    lemma_take_concat(h, body, k as int);
    if k < h.len() {
        lemma_uint_truncated(p, ps.len(), 8, k);
    } else {
        let b = enc(p, v).take(k as int);
        lemma_uint_round_trip(p, ps.len(), 8, body.take(k - h.len()));
        assert(b.skip(h.len() as int) =~= body.take(k - h.len()));
        lemma_truncated_pairs(p, s, ps, (k - h.len()) as nat);
    }
}

proof fn lemma_truncated_option(p: Profile, v: Val, s: Shape, k: nat)
    requires
        conforms(v, s),
        k < enc(p, v).len(),
        s is Opt,
    ensures
        dec(p, s, enc(p, v).take(k as int)) == Err::<(Val, nat), DecodeError>(DecodeError::Truncated),
    decreases s, 2nat, 0nat,
{
    let b = enc(p, v).take(k as int);
    if k > 0 {
        let x = *v->Opt_0->Some_0;
        assert(b[0] == 1u8);
        assert(b.skip(1) =~= enc(p, x).take(k - 1));
        lemma_truncated(p, x, *s->Opt_0, (k - 1) as nat);
    }
}

proof fn lemma_truncated_enum(p: Profile, v: Val, s: Shape, k: nat)
    requires
        conforms(v, s),
        k < enc(p, v).len(),
        s is Enum,
    ensures
        dec(p, s, enc(p, v).take(k as int)) == Err::<(Val, nat), DecodeError>(DecodeError::Truncated),
    decreases s, 2nat, 0nat,
{
    lemma_pow256_values();
    let vs = s->Enum_0;
    let i = v->Enum_0;
    let x = *v->Enum_1;
    let h = uint_bytes(p, i as nat, 4);
    lemma_take_concat(h, enc(p, x), k as int);
    if k < h.len() {
        lemma_uint_truncated(p, i as nat, 4, k);
    } else {
        let b = enc(p, v).take(k as int);
        lemma_uint_round_trip(p, i as nat, 4, enc(p, x).take(k - h.len()));
        assert(b.skip(h.len() as int) =~= enc(p, x).take(k - h.len()));
        assert(decreases_to!(s => vs));
        lemma_truncated(p, x, vs@[i as int], (k - h.len()) as nat);
    }
}

/// A strict prefix of values of one shape laid end to end is reported as
/// truncated.
pub proof fn lemma_truncated_list(p: Profile, e: Shape, vs: Seq<Val>, k: nat)
    requires
        forall|i: int| 0 <= i < vs.len() ==> conforms(#[trigger] vs[i], e),
        k < enc_list(p, vs).len(),
    ensures
        dec_list(p, e, vs.len(), enc_list(p, vs).take(k as int)) == Err::<(Seq<Val>, nat), DecodeError>(
            DecodeError::Truncated,
        ),
    decreases e, 4nat, vs.len(),
{
    let t = vs.subrange(1, vs.len() as int);
    let a = enc(p, vs[0]);
    let c = enc_list(p, t);
    lemma_take_concat(a, c, k as int);
    if k < a.len() {
        lemma_truncated(p, vs[0], e, k);
    } else {
        let b = enc_list(p, vs).take(k as int);
        lemma_dec_enc(p, vs[0], e, c.take(k - a.len()));
        assert(b.skip(a.len() as int) =~= c.take(k - a.len()));
        assert forall|i: int| 0 <= i < t.len() implies conforms(#[trigger] t[i], e) by {
            assert(t[i] == vs[i + 1]);
        }
        lemma_truncated_list(p, e, t, (k - a.len()) as nat);
    }
}

/// A strict prefix of heterogeneous fields laid end to end is reported as
/// truncated.
pub proof fn lemma_truncated_fields(p: Profile, fs: Seq<Shape>, vs: Seq<Val>, k: nat)
    requires
        fields_conform(vs, fs),
        k < enc_list(p, vs).len(),
    ensures
        dec_fields(p, fs, enc_list(p, vs).take(k as int)) == Err::<(Seq<Val>, nat), DecodeError>(
            DecodeError::Truncated,
        ),
    decreases fs, 0nat, 0nat,
{
    if fs.len() == 0 {
        assert(vs.len() == 0);
    } else {
        let t = vs.subrange(1, vs.len() as int);
        let a = enc(p, vs[0]);
        let c = enc_list(p, t);
        lemma_take_concat(a, c, k as int);
        if k < a.len() {
            lemma_truncated(p, vs[0], fs[0], k);
        } else {
            let b = enc_list(p, vs).take(k as int);
            lemma_dec_enc(p, vs[0], fs[0], c.take(k - a.len()));
            assert(b.skip(a.len() as int) =~= c.take(k - a.len()));
            lemma_truncated_fields(p, fs.subrange(1, fs.len() as int), t, (k - a.len()) as nat);
        }
    }
}

/// A strict prefix of key/value pairs laid end to end is reported as
/// truncated.
#[verifier::rlimit(100)]
pub proof fn lemma_truncated_pairs(p: Profile, s: Shape, ps: Seq<(Val, Val)>, k: nat)
    requires
        s is Dict,
        forall|i: int|
            0 <= i < ps.len() ==> conforms(#[trigger] ps[i].0, *s->Dict_0) && conforms(ps[i].1, *s->Dict_1),
        k < enc_pairs(p, ps).len(),
    ensures
        dec_pairs(p, s, ps.len(), enc_pairs(p, ps).take(k as int)) == Err::<(Seq<(Val, Val)>, nat), DecodeError>(
            DecodeError::Truncated,
        ),
    decreases s, 1nat, ps.len() + 1,
{
    let t = ps.subrange(1, ps.len() as int);
    let key = ps[0].0;
    let x = ps[0].1;
    let a = enc(p, key);
    let c = enc(p, x) + enc_pairs(p, t);
    let b = enc_pairs(p, ps).take(k as int);
    assert(enc_pairs(p, ps) =~= a + c);
    assert forall|i: int| 0 <= i < t.len() implies conforms(#[trigger] t[i].0, *s->Dict_0) && conforms(
        t[i].1,
        *s->Dict_1,
    ) by {
        assert(t[i] == ps[i + 1]);
    }
    lemma_take_concat(a, c, k as int);
    if k < a.len() {
        lemma_truncated(p, key, *s->Dict_0, k);
        assert(dec_pair(p, s, b) == Err::<((Val, Val), nat), DecodeError>(DecodeError::Truncated));
    } else {
        let k1 = (k - a.len()) as nat;
        lemma_dec_enc(p, key, *s->Dict_0, c.take(k1 as int));
        assert(b.skip(a.len() as int) =~= c.take(k1 as int));
        lemma_take_concat(enc(p, x), enc_pairs(p, t), k1 as int);
        if k1 < enc(p, x).len() {
            lemma_truncated(p, x, *s->Dict_1, k1);
            assert(dec_pair(p, s, b) == Err::<((Val, Val), nat), DecodeError>(DecodeError::Truncated));
        } else {
            let k2 = (k1 - enc(p, x).len()) as nat;
            let tail = enc_pairs(p, t).take(k2 as int);
            lemma_dec_enc(p, x, *s->Dict_1, tail);
            assert(c.take(k1 as int).skip(enc(p, x).len() as int) =~= tail);
            assert(b.skip((a.len() + enc(p, x).len()) as int) =~= tail);
            assert(dec_pair(p, s, b) == Ok::<((Val, Val), nat), DecodeError>(
                ((key, x), a.len() + enc(p, x).len()),
            ));
            lemma_truncated_pairs(p, s, t, k2);
        }
    }
}

/// Truncation detection: decoding any strict prefix of the encoding of a
/// conforming value fails with `Truncated`, never with a value.
pub proof fn truncation_detected(p: Profile, v: Val, s: Shape, k: nat)
    requires
        conforms(v, s),
        k < enc(p, v).len(),
    ensures
        dec(p, s, enc(p, v).take(k as int)) == Err::<(Val, nat), DecodeError>(DecodeError::Truncated),
{
    lemma_truncated(p, v, s, k);
}

/// Text is written as its byte count and then its bytes unchanged, and reads
/// back byte for byte.
pub proof fn text_keeps_bytes(p: Profile, t: Seq<u8>)
    requires
        utf8_valid(t),
        t.len() <= u64::MAX,
    ensures
        enc(p, Val::Text(t)) == uint_bytes(p, t.len(), 8) + t,
        dec(p, Shape::Text, enc(p, Val::Text(t))) == Ok::<(Val, nat), DecodeError>(
            (Val::Text(t), enc(p, Val::Text(t)).len()),
        ),
{
    round_trip(p, Val::Text(t), Shape::Text);
}

/// An absent option is the single byte 0, whatever its payload shape, and
/// reads back from that byte alone.
pub proof fn absent_option_is_one_byte(p: Profile, s: Shape, rest: Seq<u8>)
    requires
        s is Opt,
    ensures
        enc(p, Val::Opt(None)) == seq![0u8],
        dec(p, s, seq![0u8] + rest) == Ok::<(Val, nat), DecodeError>((Val::Opt(None), 1)),
{
    assert((seq![0u8] + rest)[0] == 0u8);
}

} // verus!

