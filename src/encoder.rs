//! The encoder: a depth-first walk of a value, emitting bytes in declaration
//! order.
use vstd::prelude::*;
use crate::model::{Val, Value, models, pair_models, lemma_models, lemma_pair_models};
use crate::profile::{Profile, pow256, le_bytes, uint_bytes, valid_width, lemma_pow256_values};

verus! {

/// The unsigned wire integer that carries the signed `x` in a field of `w`
/// bytes: two's complement at fixed width, zigzag as a varint.
pub open spec fn signed_wire(p: Profile, x: int, w: nat) -> nat {
    if w == 1 || p == Profile::LegacyFixed {
        if x >= 0 {
            x as nat
        } else {
            (x + pow256(w)) as nat
        }
    } else if x >= 0 {
        (2 * x) as nat
    } else {
        (-2 * x - 1) as nat
    }
}

/// The bytes of `v` under profile `p`.
pub open spec fn enc(p: Profile, v: Val) -> Seq<u8>
    decreases v,
{
    match v {
        Val::U8(x) => uint_bytes(p, x as nat, 1),
        Val::U16(x) => uint_bytes(p, x as nat, 2),
        Val::U32(x) => uint_bytes(p, x as nat, 4),
        Val::U64(x) => uint_bytes(p, x as nat, 8),
        Val::I8(x) => uint_bytes(p, signed_wire(p, x as int, 1), 1),
        Val::I16(x) => uint_bytes(p, signed_wire(p, x as int, 2), 2),
        Val::I32(x) => uint_bytes(p, signed_wire(p, x as int, 4), 4),
        Val::I64(x) => uint_bytes(p, signed_wire(p, x as int, 8), 8),
        Val::F32(x) => le_bytes(x as nat, 4),
        Val::F64(x) => le_bytes(x as nat, 8),
        Val::Bool(x) => seq![if x { 1u8 } else { 0u8 }],
        Val::Text(b) => uint_bytes(p, b.len(), 8) + b,
        Val::Array(vs) => enc_list(p, vs),
        Val::Sequence(vs) => uint_bytes(p, vs.len(), 8) + enc_list(p, vs),
        Val::Tuple(vs) => enc_list(p, vs),
        Val::Record(vs) => enc_list(p, vs),
        Val::Dict(ps) => uint_bytes(p, ps.len(), 8) + enc_pairs(p, ps),
        Val::Opt(o) => match o {
            Some(x) => seq![1u8] + enc(p, *x),
            None => seq![0u8],
        },
        Val::Enum(i, x) => uint_bytes(p, i as nat, 4) + enc(p, *x),
    }
}

/// The encodings of `vs`, one after another.
pub open spec fn enc_list(p: Profile, vs: Seq<Val>) -> Seq<u8>
    decreases vs,
{
    if vs.len() == 0 {
        Seq::empty()
    } else {
        enc(p, vs[0]) + enc_list(p, vs.subrange(1, vs.len() as int))
    }
}

/// The encodings of each key followed by its value, pair after pair.
pub open spec fn enc_pairs(p: Profile, ps: Seq<(Val, Val)>) -> Seq<u8>
    decreases ps,
{
    if ps.len() == 0 {
        Seq::empty()
    } else {
        enc(p, ps[0].0) + enc(p, ps[0].1) + enc_pairs(p, ps.subrange(1, ps.len() as int))
    }
}

pub proof fn lemma_enc_list_push(p: Profile, vs: Seq<Val>, x: Val)
    ensures
        enc_list(p, vs.push(x)) == enc_list(p, vs) + enc(p, x),
    decreases vs.len(),
{
    let ws = vs.push(x);
    if vs.len() == 0 {
        assert(ws.subrange(1, ws.len() as int) =~= Seq::<Val>::empty());
        assert(enc_list(p, Seq::<Val>::empty()) == Seq::<u8>::empty());
        assert(ws[0] == x);
        assert(enc_list(p, ws) =~= enc_list(p, vs) + enc(p, x));
    } else {
        let t = vs.subrange(1, vs.len() as int);
        assert(ws.subrange(1, ws.len() as int) =~= t.push(x));
        lemma_enc_list_push(p, t, x);
        assert(enc_list(p, ws) =~= enc_list(p, vs) + enc(p, x));
    }
}

pub proof fn lemma_enc_pairs_push(p: Profile, ps: Seq<(Val, Val)>, x: (Val, Val))
    ensures
        enc_pairs(p, ps.push(x)) == enc_pairs(p, ps) + enc(p, x.0) + enc(p, x.1),
    decreases ps.len(),
{
    let ws = ps.push(x);
    if ps.len() == 0 {
        assert(ws.subrange(1, ws.len() as int) =~= Seq::<(Val, Val)>::empty());
        assert(enc_pairs(p, Seq::<(Val, Val)>::empty()) == Seq::<u8>::empty());
        assert(ws[0] == x);
        assert(enc_pairs(p, ws) =~= enc_pairs(p, ps) + enc(p, x.0) + enc(p, x.1));
    } else {
        let t = ps.subrange(1, ps.len() as int);
        assert(ws.subrange(1, ws.len() as int) =~= t.push(x));
        lemma_enc_pairs_push(p, t, x);
        assert(enc_pairs(p, ws) =~= enc_pairs(p, ps) + enc(p, x.0) + enc(p, x.1));
    }
}

/// The wire integer of the signed `x` in a field of `w` bytes.
fn signed_to_wire(p: Profile, x: i64, w: usize) -> (r: u64)
    requires
        valid_width(w as nat),
        -(pow256(w as nat) / 2) <= x < pow256(w as nat) / 2,
    ensures
        r as nat == signed_wire(p, x as int, w as nat),
        (r as nat) < pow256(w as nat),
{
    proof {
        lemma_pow256_values();
    }
    if w == 1 || p == Profile::LegacyFixed {
        if x >= 0 {
            x as u64
        } else {
            let span: i128 = if w == 1 {
                0x100
            } else if w == 2 {
                0x1_0000
            } else if w == 4 {
                0x1_0000_0000
            } else {
                0x1_0000_0000_0000_0000
            };
            (x as i128 + span) as u64
        }
    } else if x >= 0 {
        (2 * (x as i128)) as u64
    } else {
        let y: i128 = x as i128;
        ((0 - y) * 2 - 1) as u64
    }
}

/// Appends the bytes of `b` to `out`.
fn push_bytes(b: &Vec<u8>, out: &mut Vec<u8>)
    ensures
        final(out)@ == old(out)@ + b@,
{
    let mut i: usize = 0;
    while i < b.len()
        invariant
            i <= b@.len(),
            out@ == old(out)@ + b@.subrange(0, i as int),
        decreases b.len() - i,
    {
        out.push(b[i]);
        assert(out@ =~= old(out)@ + b@.subrange(0, i + 1));
        i = i + 1;
    }
    assert(b@.subrange(0, b@.len() as int) =~= b@);
}

/// Appends the encoding of a value with no nested values.
fn encode_scalar(p: Profile, v: &Value, out: &mut Vec<u8>)
    requires
        v.model() is U8 || v.model() is U16 || v.model() is U32 || v.model() is U64
            || v.model() is I8 || v.model() is I16 || v.model() is I32 || v.model() is I64
            || v.model() is F32 || v.model() is F64 || v.model() is Bool,
    ensures
        final(out)@ == old(out)@ + enc(p, v.model()),
{
    proof {
        lemma_pow256_values();
    }
    match v {
        Value::U8(x) => p.encode_uint(*x as u64, 1, out),
        Value::U16(x) => p.encode_uint(*x as u64, 2, out),
        Value::U32(x) => p.encode_uint(*x as u64, 4, out),
        Value::U64(x) => p.encode_uint(*x, 8, out),
        Value::I8(x) => {
            let u = signed_to_wire(p, *x as i64, 1);
            p.encode_uint(u, 1, out);
        },
        Value::I16(x) => {
            let u = signed_to_wire(p, *x as i64, 2);
            p.encode_uint(u, 2, out);
        },
        Value::I32(x) => {
            let u = signed_to_wire(p, *x as i64, 4);
            p.encode_uint(u, 4, out);
        },
        Value::I64(x) => {
            let u = signed_to_wire(p, *x, 8);
            p.encode_uint(u, 8, out);
        },
        Value::F32(x) => Profile::LegacyFixed.encode_uint(*x as u64, 4, out),
        Value::F64(x) => Profile::LegacyFixed.encode_uint(*x, 8, out),
        Value::Bool(x) => {
            out.push(if *x { 1u8 } else { 0u8 });
            assert(out@ =~= old(out)@ + enc(p, v.model()));
        },
        _ => {},
    }
}

/// Appends the encoding of `v` under profile `p` to `out`.
pub fn encode_into(p: Profile, v: &Value, out: &mut Vec<u8>)
    ensures
        final(out)@ == old(out)@ + enc(p, v.model()),
    decreases v,
{
    proof {
        lemma_pow256_values();
    }
    match v {
        Value::Text(b) => {
            p.encode_uint(b.len() as u64, 8, out);
            push_bytes(b, out);
            assert(out@ =~= old(out)@ + enc(p, v.model()));
        },
        Value::Array(vs) => encode_list(p, vs, out),
        Value::Sequence(vs) => {
            p.encode_uint(vs.len() as u64, 8, out);
            encode_list(p, vs, out);
            proof {
                lemma_models(vs@);
            }
            assert(out@ =~= old(out)@ + enc(p, v.model()));
        },
        Value::Tuple(vs) => encode_list(p, vs, out),
        Value::Record(vs) => encode_list(p, vs, out),
        Value::Dict(ps) => {
            p.encode_uint(ps.len() as u64, 8, out);
            encode_pairs(p, ps, out);
            proof {
                lemma_pair_models(ps@);
            }
            assert(out@ =~= old(out)@ + enc(p, v.model()));
        },
        Value::Opt(o) => match o {
            Some(x) => {
                out.push(1u8);
                encode_into(p, x, out);
                assert(out@ =~= old(out)@ + enc(p, v.model()));
            },
            None => {
                out.push(0u8);
                assert(out@ =~= old(out)@ + enc(p, v.model()));
            },
        },
        Value::Enum { index, payload } => {
            p.encode_uint(*index as u64, 4, out);
            encode_into(p, payload, out);
            assert(out@ =~= old(out)@ + enc(p, v.model()));
        },
        _ => encode_scalar(p, v, out),
    }
}

/// Appends the encodings of `vs` in order.
fn encode_list(p: Profile, vs: &Vec<Value>, out: &mut Vec<u8>)
    ensures
        final(out)@ == old(out)@ + enc_list(p, models(vs@)),
    decreases vs,
{
    proof {
        lemma_models(vs@);
    }
    let mut i: usize = 0;
    assert(models(vs@).take(0) =~= Seq::<Val>::empty());
    assert(out@ =~= old(out)@ + enc_list(p, models(vs@).take(0)));
    while i < vs.len()
        invariant
            i <= vs@.len(),
            models(vs@).len() == vs@.len(),
            forall|j: int| 0 <= j < vs@.len() ==> #[trigger] models(vs@)[j] == vs@[j].model(),
            out@ == old(out)@ + enc_list(p, models(vs@).take(i as int)),
        decreases vs.len() - i,
    {
        proof {
            assert(models(vs@).take(i + 1) =~= models(vs@).take(i as int).push(vs@[i as int].model()));
            lemma_enc_list_push(p, models(vs@).take(i as int), vs@[i as int].model());
        }
        encode_into(p, &vs[i], out);
        i = i + 1;
    }
    assert(models(vs@).take(i as int) =~= models(vs@));
}

/// Appends each key's encoding followed by its value's, pair after pair.
fn encode_pairs(p: Profile, ps: &Vec<(Value, Value)>, out: &mut Vec<u8>)
    ensures
        final(out)@ == old(out)@ + enc_pairs(p, pair_models(ps@)),
    decreases ps,
{
    proof {
        lemma_pair_models(ps@);
    }
    let mut i: usize = 0;
    assert(pair_models(ps@).take(0) =~= Seq::<(Val, Val)>::empty());
    assert(out@ =~= old(out)@ + enc_pairs(p, pair_models(ps@).take(0)));
    while i < ps.len()
        invariant
            i <= ps@.len(),
            pair_models(ps@).len() == ps@.len(),
            forall|j: int|
                0 <= j < ps@.len() ==> #[trigger] pair_models(ps@)[j] == (
                    ps@[j].0.model(),
                    ps@[j].1.model(),
                ),
            out@ == old(out)@ + enc_pairs(p, pair_models(ps@).take(i as int)),
        decreases ps.len() - i,
    {
        let ghost x = pair_models(ps@)[i as int];
        proof {
            assert(pair_models(ps@).take(i + 1) =~= pair_models(ps@).take(i as int).push(x));
            lemma_enc_pairs_push(p, pair_models(ps@).take(i as int), x);
        }
        let pair = &ps[i];
        proof {
            assert(decreases_to!(ps => ps@));
            assert(decreases_to!(ps@ => ps@[i as int]));
        }
        encode_into(p, &pair.0, out);
        encode_into(p, &pair.1, out);
        i = i + 1;
    }
    assert(pair_models(ps@).take(i as int) =~= pair_models(ps@));
}

/// The encoding of `v` under profile `p`.
pub fn encode(p: Profile, v: &Value) -> (r: Vec<u8>)
    ensures
        r@ == enc(p, v.model()),
{
    let mut out: Vec<u8> = Vec::new();
    encode_into(p, v, &mut out);
    assert(out@ =~= enc(p, v.model()));
    out
}

} // verus!
