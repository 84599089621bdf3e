//! The decoder: given a shape, reads back exactly the value that the encoder
//! wrote, or reports why it cannot.
use vstd::prelude::*;
use crate::model::{Val, Value, Shape, utf8_valid, check_utf8, models, pair_models, lemma_models_push, lemma_pair_models_push};
use crate::profile::{DecodeError, Profile, pow256, uint_dec, valid_width, lemma_pow256_values};

verus! {

/// The signed value that the wire integer `u` of a `w`-byte field carries.
pub open spec fn signed_from_wire(p: Profile, u: nat, w: nat) -> int {
    if w == 1 || p == Profile::LegacyFixed {
        if u < pow256(w) / 2 {
            u as int
        } else {
            u - pow256(w)
        }
    } else if u % 2 == 0 {
        (u / 2) as int
    } else {
        -((u + 1) / 2)
    }
}

/// Prefixes `acc`, which took `c` bytes, to the outcome `r` of reading on.
pub open spec fn join<T>(acc: Seq<T>, c: nat, r: Result<(Seq<T>, nat), DecodeError>) -> Result<(Seq<T>, nat), DecodeError> {
    match r {
        Ok((ws, m)) => Ok((acc + ws, c + m)),
        Err(e) => Err(e),
    }
}

/// Reading a value of shape `s` from the front of `b`: the value and the
/// number of bytes it took.
pub open spec fn dec(p: Profile, s: Shape, b: Seq<u8>) -> Result<(Val, nat), DecodeError>
    decreases s, 1nat, 0nat,
{
    match s {
        Shape::U8 => match uint_dec(p, 1, b) {
            Ok((x, n)) => Ok((Val::U8(x as u8), n)),
            Err(e) => Err(e),
        },
        Shape::U16 => match uint_dec(p, 2, b) {
            Ok((x, n)) => Ok((Val::U16(x as u16), n)),
            Err(e) => Err(e),
        },
        Shape::U32 => match uint_dec(p, 4, b) {
            Ok((x, n)) => Ok((Val::U32(x as u32), n)),
            Err(e) => Err(e),
        },
        Shape::U64 => match uint_dec(p, 8, b) {
            Ok((x, n)) => Ok((Val::U64(x as u64), n)),
            Err(e) => Err(e),
        },
        Shape::I8 => match uint_dec(p, 1, b) {
            Ok((x, n)) => Ok((Val::I8(signed_from_wire(p, x, 1) as i8), n)),
            Err(e) => Err(e),
        },
        Shape::I16 => match uint_dec(p, 2, b) {
            Ok((x, n)) => Ok((Val::I16(signed_from_wire(p, x, 2) as i16), n)),
            Err(e) => Err(e),
        },
        Shape::I32 => match uint_dec(p, 4, b) {
            Ok((x, n)) => Ok((Val::I32(signed_from_wire(p, x, 4) as i32), n)),
            Err(e) => Err(e),
        },
        Shape::I64 => match uint_dec(p, 8, b) {
            Ok((x, n)) => Ok((Val::I64(signed_from_wire(p, x, 8) as i64), n)),
            Err(e) => Err(e),
        },
        Shape::F32 => match uint_dec(Profile::LegacyFixed, 4, b) {
            Ok((x, n)) => Ok((Val::F32(x as u32), n)),
            Err(e) => Err(e),
        },
        Shape::F64 => match uint_dec(Profile::LegacyFixed, 8, b) {
            Ok((x, n)) => Ok((Val::F64(x as u64), n)),
            Err(e) => Err(e),
        },
        Shape::Bool => if b.len() == 0 {
            Err(DecodeError::Truncated)
        } else if b[0] == 0 {
            Ok((Val::Bool(false), 1))
        } else if b[0] == 1 {
            Ok((Val::Bool(true), 1))
        } else {
            Err(DecodeError::InvalidDiscriminant)
        },
        Shape::Text => match uint_dec(p, 8, b) {
            Ok((len, n)) => if b.len() - n < len {
                Err(DecodeError::Truncated)
            } else if utf8_valid(b.subrange(n as int, (n + len) as int)) {
                Ok((Val::Text(b.subrange(n as int, (n + len) as int)), n + len))
            } else {
                Err(DecodeError::InvalidText)
            },
            Err(e) => Err(e),
        },
        Shape::Array(e, k) => match dec_list(p, *e, k as nat, b) {
            Ok((vs, n)) => Ok((Val::Array(vs), n)),
            Err(x) => Err(x),
        },
        Shape::Sequence(e) => match uint_dec(p, 8, b) {
            Ok((len, n)) => match dec_list(p, *e, len, b.skip(n as int)) {
                Ok((vs, m)) => Ok((Val::Sequence(vs), n + m)),
                Err(x) => Err(x),
            },
            Err(x) => Err(x),
        },
        Shape::Tuple(fs) => match dec_fields(p, fs@, b) {
            Ok((vs, n)) => Ok((Val::Tuple(vs), n)),
            Err(x) => Err(x),
        },
        Shape::Record(fs) => match dec_fields(p, fs@, b) {
            Ok((vs, n)) => Ok((Val::Record(vs), n)),
            Err(x) => Err(x),
        },
        Shape::Dict(_, _) => match uint_dec(p, 8, b) {
            Ok((len, n)) => match dec_pairs(p, s, len, b.skip(n as int)) {
                Ok((ps, m)) => Ok((Val::Dict(ps), n + m)),
                Err(x) => Err(x),
            },
            Err(x) => Err(x),
        },
        Shape::Opt(e) => if b.len() == 0 {
            Err(DecodeError::Truncated)
        } else if b[0] == 0 {
            Ok((Val::Opt(None), 1))
        } else if b[0] == 1 {
            match dec(p, *e, b.skip(1)) {
                Ok((x, m)) => Ok((Val::Opt(Some(Box::new(x))), 1 + m)),
                Err(x) => Err(x),
            }
        } else {
            Err(DecodeError::InvalidDiscriminant)
        },
        Shape::Enum(vs) => match uint_dec(p, 4, b) {
            Ok((i, n)) => if i >= vs@.len() {
                Err(DecodeError::InvalidDiscriminant)
            } else {
                match dec(p, vs@[i as int], b.skip(n as int)) {
                    Ok((x, m)) => Ok((Val::Enum(i as u32, Box::new(x)), n + m)),
                    Err(x) => Err(x),
                }
            },
            Err(x) => Err(x),
        },
    }
}

/// Reading `k` values of shape `e`, one after another.
pub open spec fn dec_list(p: Profile, e: Shape, k: nat, b: Seq<u8>) -> Result<(Seq<Val>, nat), DecodeError>
    decreases e, 2nat, k,
{
    if k == 0 {
        Ok((Seq::empty(), 0))
    } else {
        match dec(p, e, b) {
            Ok((v, n)) => join(seq![v], n, dec_list(p, e, (k - 1) as nat, b.skip(n as int))),
            Err(x) => Err(x),
        }
    }
}

/// Reading one value for each shape of `fs`, in order.
pub open spec fn dec_fields(p: Profile, fs: Seq<Shape>, b: Seq<u8>) -> Result<(Seq<Val>, nat), DecodeError>
    decreases fs, 0nat, 0nat,
{
    if fs.len() == 0 {
        Ok((Seq::empty(), 0))
    } else {
        match dec(p, fs[0], b) {
            Ok((v, n)) => join(seq![v], n, dec_fields(p, fs.subrange(1, fs.len() as int), b.skip(n as int))),
            Err(x) => Err(x),
        }
    }
}

/// Reading one key/value pair under the map shape `s`: the pair and the bytes
/// it took.
pub open spec fn dec_pair(p: Profile, s: Shape, b: Seq<u8>) -> Result<((Val, Val), nat), DecodeError>
    decreases s, 0nat, 0nat,
{
    match s {
        Shape::Dict(ks, vs) => match dec(p, *ks, b) {
            Ok((k, n)) => match dec(p, *vs, b.skip(n as int)) {
                Ok((v, m)) => Ok(((k, v), n + m)),
                Err(x) => Err(x),
            },
            Err(x) => Err(x),
        },
        _ => Err(DecodeError::Truncated),
    }
}

/// Reading `k` key/value pairs under the map shape `s`.
pub open spec fn dec_pairs(p: Profile, s: Shape, k: nat, b: Seq<u8>) -> Result<(Seq<(Val, Val)>, nat), DecodeError>
    decreases s, 0nat, k + 1,
{
    if k == 0 {
        Ok((Seq::empty(), 0))
    } else {
        match dec_pair(p, s, b) {
            Ok((v, n)) => join(seq![v], n, dec_pairs(p, s, (k - 1) as nat, b.skip(n as int))),
            Err(x) => Err(x),
        }
    }
}

} // verus!

verus! {

pub proof fn lemma_join_empty<T>(r: Result<(Seq<T>, nat), DecodeError>)
    ensures
        join(Seq::<T>::empty(), 0, r) == r,
{
    match r {
        Ok((ws, m)) => {
            assert(Seq::<T>::empty() + ws =~= ws);
        },
        Err(_) => {},
    }
}

pub proof fn lemma_join_step<T>(acc: Seq<T>, c: nat, v: T, n: nat, r: Result<(Seq<T>, nat), DecodeError>)
    ensures
        join(acc, c, join(seq![v], n, r)) == join(acc.push(v), c + n, r),
{
    match r {
        Ok((ws, m)) => {
            assert(acc + (seq![v] + ws) =~= acc.push(v) + ws);
        },
        Err(_) => {},
    }
}

/// Whether the executable outcome `r`, read from `pos`, is the outcome `d`
/// of reading the bytes from `pos` on.
pub open spec fn decoded(r: Result<(Value, usize), DecodeError>, d: Result<(Val, nat), DecodeError>, pos: usize) -> bool {
    match (r, d) {
        (Ok((v, np)), Ok((m, n))) => v.model() == m && np == pos + n,
        (Err(e), Err(f)) => e == f,
        _ => false,
    }
}

/// The signed value that the wire integer `u` of a `w`-byte field carries.
fn wire_to_signed(p: Profile, u: u64, w: usize) -> (r: i128)
    requires
        valid_width(w as nat),
    ensures
        r as int == signed_from_wire(p, u as nat, w as nat),
{
    proof {
        lemma_pow256_values();
    }
    if w == 1 || p == Profile::LegacyFixed {
        let span: i128 = if w == 1 {
            0x100
        } else if w == 2 {
            0x1_0000
        } else if w == 4 {
            0x1_0000_0000
        } else {
            0x1_0000_0000_0000_0000
        };
        if (u as i128) < span / 2 {
            u as i128
        } else {
            u as i128 - span
        }
    } else if u % 2 == 0 {
        (u / 2) as i128
    } else {
        0 - (u / 2) as i128 - 1
    }
}

/// Reads a value with no nested values.
fn decode_scalar(p: Profile, s: &Shape, b: &[u8], pos: usize) -> (r: Result<(Value, usize), DecodeError>)
    requires
        pos <= b@.len(),
        *s is U8 || *s is U16 || *s is U32 || *s is U64 || *s is I8 || *s is I16 || *s is I32
            || *s is I64 || *s is F32 || *s is F64 || *s is Bool,
    ensures
        decoded(r, dec(p, *s, b@.skip(pos as int)), pos),
        r matches Ok((_, np)) ==> np <= b@.len(),
{
    let ghost bs = b@.skip(pos as int);
    match s {
        Shape::U8 => match p.decode_uint(1, b, pos) {
            Ok((x, np)) => Ok((Value::U8(x as u8), np)),
            Err(e) => Err(e),
        },
        Shape::U16 => match p.decode_uint(2, b, pos) {
            Ok((x, np)) => Ok((Value::U16(x as u16), np)),
            Err(e) => Err(e),
        },
        Shape::U32 => match p.decode_uint(4, b, pos) {
            Ok((x, np)) => Ok((Value::U32(x as u32), np)),
            Err(e) => Err(e),
        },
        Shape::U64 => match p.decode_uint(8, b, pos) {
            Ok((x, np)) => Ok((Value::U64(x), np)),
            Err(e) => Err(e),
        },
        Shape::I8 => match p.decode_uint(1, b, pos) {
            Ok((x, np)) => Ok((Value::I8(wire_to_signed(p, x, 1) as i8), np)),
            Err(e) => Err(e),
        },
        Shape::I16 => match p.decode_uint(2, b, pos) {
            Ok((x, np)) => Ok((Value::I16(wire_to_signed(p, x, 2) as i16), np)),
            Err(e) => Err(e),
        },
        Shape::I32 => match p.decode_uint(4, b, pos) {
            Ok((x, np)) => Ok((Value::I32(wire_to_signed(p, x, 4) as i32), np)),
            Err(e) => Err(e),
        },
        Shape::I64 => match p.decode_uint(8, b, pos) {
            Ok((x, np)) => Ok((Value::I64(wire_to_signed(p, x, 8) as i64), np)),
            Err(e) => Err(e),
        },
        Shape::F32 => match Profile::LegacyFixed.decode_uint(4, b, pos) {
            Ok((x, np)) => Ok((Value::F32(x as u32), np)),
            Err(e) => Err(e),
        },
        Shape::F64 => match Profile::LegacyFixed.decode_uint(8, b, pos) {
            Ok((x, np)) => Ok((Value::F64(x), np)),
            Err(e) => Err(e),
        },
        _ => {
            if pos == b.len() {
                Err(DecodeError::Truncated)
            } else if b[pos] == 0 {
                Ok((Value::Bool(false), pos + 1))
            } else if b[pos] == 1 {
                Ok((Value::Bool(true), pos + 1))
            } else {
                Err(DecodeError::InvalidDiscriminant)
            }
        },
    }
}

} // verus!

verus! {

/// Reads a length-prefixed UTF-8 text starting at `pos`.
fn decode_text(p: Profile, b: &[u8], pos: usize) -> (r: Result<(Value, usize), DecodeError>)
    requires
        pos <= b@.len(),
    ensures
        decoded(r, dec(p, Shape::Text, b@.skip(pos as int)), pos),
        r matches Ok((_, np)) ==> np <= b@.len(),
{
    let ghost bs = b@.skip(pos as int);
    match p.decode_uint(8, b, pos) {
        Ok((len, np)) => {
            if ((b.len() - np) as u64) < len {
                Err(DecodeError::Truncated)
            } else {
                let end = np + len as usize;
                let mut t: Vec<u8> = Vec::new();
                let mut i: usize = np;
                while i < end
                    invariant
                        np <= i <= end,
                        end <= b@.len(),
                        t@ == b@.subrange(np as int, i as int),
                    decreases end - i,
                {
                    t.push(b[i]);
                    assert(t@ =~= b@.subrange(np as int, i + 1));
                    i = i + 1;
                }
                assert(t@ =~= bs.subrange((np - pos) as int, (np - pos) + len));
                if check_utf8(t.as_slice()) {
                    Ok((Value::Text(t), end))
                } else {
                    Err(DecodeError::InvalidText)
                }
            }
        },
        Err(e) => Err(e),
    }
}

/// Reads a value of shape `s` starting at `pos`: the value and the position
/// after it.
pub fn decode_at(p: Profile, s: &Shape, b: &[u8], pos: usize) -> (r: Result<(Value, usize), DecodeError>)
    requires
        pos <= b@.len(),
    ensures
        decoded(r, dec(p, *s, b@.skip(pos as int)), pos),
        r matches Ok((_, np)) ==> np <= b@.len(),
    decreases s, 3nat,
{
    match s {
        Shape::Text => decode_text(p, b, pos),
        Shape::Array(e, k) => match decode_list(p, e, *k as u64, b, pos) {
            Ok((vs, np)) => Ok((Value::Array(vs), np)),
            Err(x) => Err(x),
        },
        Shape::Sequence(_) => decode_sequence(p, s, b, pos),
        Shape::Tuple(fs) => match decode_fields(p, fs, b, pos) {
            Ok((vs, np)) => Ok((Value::Tuple(vs), np)),
            Err(x) => Err(x),
        },
        Shape::Record(fs) => match decode_fields(p, fs, b, pos) {
            Ok((vs, np)) => Ok((Value::Record(vs), np)),
            Err(x) => Err(x),
        },
        Shape::Dict(_, _) => decode_dict(p, s, b, pos),
        Shape::Opt(_) => decode_option(p, s, b, pos),
        Shape::Enum(_) => decode_enum(p, s, b, pos),
        _ => decode_scalar(p, s, b, pos),
    }
}

/// Reads a length-prefixed sequence of shape `s` starting at `pos`.
fn decode_sequence(p: Profile, s: &Shape, b: &[u8], pos: usize) -> (r: Result<(Value, usize), DecodeError>)
    requires
        pos <= b@.len(),
        *s is Sequence,
    ensures
        decoded(r, dec(p, *s, b@.skip(pos as int)), pos),
        r matches Ok((_, np)) ==> np <= b@.len(),
    decreases s, 2nat,
{
    let ghost bs = b@.skip(pos as int);
    match s {
        Shape::Sequence(e) => match p.decode_uint(8, b, pos) {
            Ok((len, np)) => {
                assert(b@.skip(np as int) =~= bs.skip((np - pos) as int));
                match decode_list(p, e, len, b, np) {
                    Ok((vs, end)) => Ok((Value::Sequence(vs), end)),
                    Err(x) => Err(x),
                }
            },
            Err(x) => Err(x),
        },
        _ => Err(DecodeError::Truncated),
    }
}

/// Reads a length-prefixed map of shape `s` starting at `pos`.
fn decode_dict(p: Profile, s: &Shape, b: &[u8], pos: usize) -> (r: Result<(Value, usize), DecodeError>)
    requires
        pos <= b@.len(),
        *s is Dict,
    ensures
        decoded(r, dec(p, *s, b@.skip(pos as int)), pos),
        r matches Ok((_, np)) ==> np <= b@.len(),
    decreases s, 2nat,
{
    let ghost bs = b@.skip(pos as int);
    match s {
        Shape::Dict(_, _) => match p.decode_uint(8, b, pos) {
            Ok((len, np)) => {
                assert(b@.skip(np as int) =~= bs.skip((np - pos) as int));
                match decode_pairs(p, s, len, b, np) {
                    Ok((ps, end)) => Ok((Value::Dict(ps), end)),
                    Err(x) => Err(x),
                }
            },
            Err(x) => Err(x),
        },
        _ => Err(DecodeError::Truncated),
    }
}

/// Reads an optional value of shape `s` starting at `pos`.
fn decode_option(p: Profile, s: &Shape, b: &[u8], pos: usize) -> (r: Result<(Value, usize), DecodeError>)
    requires
        pos <= b@.len(),
        *s is Opt,
    ensures
        decoded(r, dec(p, *s, b@.skip(pos as int)), pos),
        r matches Ok((_, np)) ==> np <= b@.len(),
    decreases s, 2nat,
{
    let ghost bs = b@.skip(pos as int);
    match s {
        Shape::Opt(e) => {
            if pos == b.len() {
                Err(DecodeError::Truncated)
            } else if b[pos] == 0 {
                Ok((Value::Opt(None), pos + 1))
            } else if b[pos] == 1 {
                assert(b@.skip(pos + 1) =~= bs.skip(1));
                match decode_at(p, e, b, pos + 1) {
                    Ok((x, np)) => Ok((Value::Opt(Some(Box::new(x))), np)),
                    Err(x) => Err(x),
                }
            } else {
                Err(DecodeError::InvalidDiscriminant)
            }
        },
        _ => Err(DecodeError::Truncated),
    }
}

/// Reads an enum value of shape `s` starting at `pos`.
fn decode_enum(p: Profile, s: &Shape, b: &[u8], pos: usize) -> (r: Result<(Value, usize), DecodeError>)
    requires
        pos <= b@.len(),
        *s is Enum,
    ensures
        decoded(r, dec(p, *s, b@.skip(pos as int)), pos),
        r matches Ok((_, np)) ==> np <= b@.len(),
    decreases s, 2nat,
{
    let ghost bs = b@.skip(pos as int);
    match s {
        Shape::Enum(vs) => match p.decode_uint(4, b, pos) {
            Ok((i, np)) => {
                if i >= vs.len() as u64 {
                    Err(DecodeError::InvalidDiscriminant)
                } else {
                    assert(b@.skip(np as int) =~= bs.skip((np - pos) as int));
                    proof {
                        assert(decreases_to!(vs => vs@));
                        assert(decreases_to!(vs@ => vs@[i as int]));
                    }
                    match decode_at(p, &vs[i as usize], b, np) {
                        Ok((x, end)) => Ok((Value::Enum { index: i as u32, payload: Box::new(x) }, end)),
                        Err(x) => Err(x),
                    }
                }
            },
            Err(x) => Err(x),
        },
        _ => Err(DecodeError::Truncated),
    }
}

/// Reads `k` values of shape `e` starting at `pos`.
fn decode_list(p: Profile, e: &Shape, k: u64, b: &[u8], pos: usize) -> (r: Result<(Vec<Value>, usize), DecodeError>)
    requires
        pos <= b@.len(),
    ensures
        match (r, dec_list(p, *e, k as nat, b@.skip(pos as int))) {
            (Ok((vs, np)), Ok((ms, n))) => models(vs@) == ms && np == pos + n,
            (Err(x), Err(y)) => x == y,
            _ => false,
        },
        r matches Ok((_, np)) ==> np <= b@.len(),
    decreases e, 4nat,
{
    let mut out: Vec<Value> = Vec::new();
    let mut cur: usize = pos;
    let mut i: u64 = 0;
    proof {
        lemma_join_empty(dec_list(p, *e, k as nat, b@.skip(pos as int)));
        assert(models(out@) =~= Seq::<Val>::empty());
    }
    while i < k
        invariant
            pos <= cur <= b@.len(),
            i <= k,
            dec_list(p, *e, k as nat, b@.skip(pos as int)) == join(
                models(out@),
                (cur - pos) as nat,
                dec_list(p, *e, (k - i) as nat, b@.skip(cur as int)),
            ),
        decreases k - i,
    {
        match decode_at(p, e, b, cur) {
            Ok((v, np)) => {
                proof {
                    let n = (np - cur) as nat;
                    assert(b@.skip(cur as int).skip(n as int) =~= b@.skip(np as int));
                    lemma_join_step(models(out@), (cur - pos) as nat, v.model(), n,
                        dec_list(p, *e, (k - i - 1) as nat, b@.skip(np as int)));
                    lemma_models_push(out@, v);
                }
                out.push(v);
                cur = np;
                i = i + 1;
            },
            Err(x) => {
                return Err(x);
            },
        }
    }
    assert(models(out@) + Seq::<Val>::empty() =~= models(out@));
    Ok((out, cur))
}

/// Reads one value for each shape of `fs`, in order, starting at `pos`.
fn decode_fields(p: Profile, fs: &Vec<Shape>, b: &[u8], pos: usize) -> (r: Result<(Vec<Value>, usize), DecodeError>)
    requires
        pos <= b@.len(),
    ensures
        match (r, dec_fields(p, fs@, b@.skip(pos as int))) {
            (Ok((vs, np)), Ok((ms, n))) => models(vs@) == ms && np == pos + n,
            (Err(x), Err(y)) => x == y,
            _ => false,
        },
        r matches Ok((_, np)) ==> np <= b@.len(),
    decreases fs, 0nat,
{
    let mut out: Vec<Value> = Vec::new();
    let mut cur: usize = pos;
    let mut i: usize = 0;
    proof {
        lemma_join_empty(dec_fields(p, fs@, b@.skip(pos as int)));
        assert(models(out@) =~= Seq::<Val>::empty());
        assert(fs@.subrange(0, fs@.len() as int) =~= fs@);
    }
    while i < fs.len()
        invariant
            pos <= cur <= b@.len(),
            i <= fs@.len(),
            dec_fields(p, fs@, b@.skip(pos as int)) == join(
                models(out@),
                (cur - pos) as nat,
                dec_fields(p, fs@.subrange(i as int, fs@.len() as int), b@.skip(cur as int)),
            ),
        decreases fs.len() - i,
    {
        let ghost rest = fs@.subrange(i as int, fs@.len() as int);
        assert(rest[0] == fs@[i as int]);
        assert(rest.subrange(1, rest.len() as int) =~= fs@.subrange(i + 1, fs@.len() as int));
        proof {
            assert(decreases_to!(fs => fs@));
            assert(decreases_to!(fs@ => fs@[i as int]));
        }
        match decode_at(p, &fs[i], b, cur) {
            Ok((v, np)) => {
                proof {
                    let n = (np - cur) as nat;
                    assert(b@.skip(cur as int).skip(n as int) =~= b@.skip(np as int));
                    lemma_join_step(models(out@), (cur - pos) as nat, v.model(), n,
                        dec_fields(p, fs@.subrange(i + 1, fs@.len() as int), b@.skip(np as int)));
                    lemma_models_push(out@, v);
                }
                out.push(v);
                cur = np;
                i = i + 1;
            },
            Err(x) => {
                return Err(x);
            },
        }
    }
    assert(models(out@) + Seq::<Val>::empty() =~= models(out@));
    Ok((out, cur))
}

/// Reads `k` key/value pairs under the map shape `s`, starting at `pos`.
#[verifier::rlimit(100)]
fn decode_pairs(p: Profile, s: &Shape, k: u64, b: &[u8], pos: usize) -> (r: Result<(Vec<(Value, Value)>, usize), DecodeError>)
    requires
        pos <= b@.len(),
        *s is Dict,
    ensures
        match (r, dec_pairs(p, *s, k as nat, b@.skip(pos as int))) {
            (Ok((ps, np)), Ok((ms, n))) => pair_models(ps@) == ms && np == pos + n,
            (Err(x), Err(y)) => x == y,
            _ => false,
        },
        r matches Ok((_, np)) ==> np <= b@.len(),
    decreases s, 1nat,
{
    let mut out: Vec<(Value, Value)> = Vec::new();
    let mut cur: usize = pos;
    let mut i: u64 = 0;
    proof {
        lemma_join_empty(dec_pairs(p, *s, k as nat, b@.skip(pos as int)));
        assert(pair_models(out@) =~= Seq::<(Val, Val)>::empty());
    }
    match s {
        Shape::Dict(ks, vs) => {
            while i < k
                invariant
                    pos <= cur <= b@.len(),
                    i <= k,
                    *s == Shape::Dict(*ks, *vs),
                    dec_pairs(p, *s, k as nat, b@.skip(pos as int)) == join(
                        pair_models(out@),
                        (cur - pos) as nat,
                        dec_pairs(p, *s, (k - i) as nat, b@.skip(cur as int)),
                    ),
                decreases k - i,
            {
                proof {
                    assert(decreases_to!(*s => s->Dict_0));
                    assert(decreases_to!(*s => s->Dict_1));
                }
                let ghost rest = b@.skip(cur as int);
                match decode_at(p, ks, b, cur) {
                    Ok((kv, mid)) => {
                        assert(rest.skip((mid - cur) as int) =~= b@.skip(mid as int));
                        match decode_at(p, vs, b, mid) {
                            Ok((vv, np)) => {
                                proof {
                                    assert(dec_pair(p, *s, rest) == Ok::<((Val, Val), nat), DecodeError>(
                                        ((kv.model(), vv.model()), (np - cur) as nat),
                                    ));
                                    let n = (np - cur) as nat;
                                    assert(b@.skip(cur as int).skip(n as int) =~= b@.skip(np as int));
                                    lemma_join_step(pair_models(out@), (cur - pos) as nat,
                                        (kv.model(), vv.model()), n,
                                        dec_pairs(p, *s, (k - i - 1) as nat, b@.skip(np as int)));
                                    lemma_pair_models_push(out@, (kv, vv));
                                }
                                out.push((kv, vv));
                                cur = np;
                                i = i + 1;
                            },
                            Err(x) => {
                                assert(dec_pair(p, *s, rest) == Err::<((Val, Val), nat), DecodeError>(x));
                                return Err(x);
                            },
                        }
                    },
                    Err(x) => {
                        assert(dec_pair(p, *s, rest) == Err::<((Val, Val), nat), DecodeError>(x));
                        return Err(x);
                    },
                }
            }
        },
        _ => {},
    }
    assert(pair_models(out@) + Seq::<(Val, Val)>::empty() =~= pair_models(out@));
    Ok((out, cur))
}

/// Decodes one value of shape `s` from the front of `b`: the value and the
/// number of bytes it took. Bytes after it are left alone.
pub fn decode(p: Profile, s: &Shape, b: &[u8]) -> (r: Result<(Value, usize), DecodeError>)
    ensures
        decoded(r, dec(p, *s, b@), 0),
{
    assert(b@.skip(0) =~= b@);
    decode_at(p, s, b, 0)
}

} // verus!
