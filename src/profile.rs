//! Wire profiles: how integers, lengths and discriminants are laid out.
use vstd::prelude::*;
use vstd::arithmetic::div_mod::lemma_div_denominator;

verus! {

/// Why a decode call failed.
#[derive(Clone, Copy, Debug, PartialEq, Eq, Structural)]
pub enum DecodeError {
    /// Fewer bytes remain than a field or length demands.
    Truncated,
    /// An enum ordinal, option tag or bool byte outside its valid set.
    InvalidDiscriminant,
    /// A length-prefixed text span is not valid UTF-8.
    InvalidText,
    /// A wire integer does not fit the width declared for it.
    Overflow,
}

/// The two rule sets for integer, length and discriminant fields.
#[derive(Clone, Copy, Debug, PartialEq, Eq, Structural)]
pub enum Profile {
    /// Every integer at its exact width, little-endian; lengths as 8 bytes,
    /// discriminants as 4 bytes.
    LegacyFixed,
    /// Integers of two bytes or more, lengths and discriminants as varints.
    StandardVarint,
}

/// Largest value of a one-byte varint.
pub const SINGLE_BYTE_MAX: u8 = 250;
/// Varint marker for a 2-byte payload.
pub const MARKER_U16: u8 = 251;
/// Varint marker for a 4-byte payload.
pub const MARKER_U32: u8 = 252;
/// Varint marker for an 8-byte payload.
pub const MARKER_U64: u8 = 253;
/// Varint marker for a 16-byte payload.
pub const MARKER_U128: u8 = 254;

pub open spec fn pow256(n: nat) -> nat
    decreases n,
{
    if n == 0 {
        1
    } else {
        256 * pow256((n - 1) as nat)
    }
}

/// A byte count that the integer rules accept.
pub open spec fn valid_width(w: nat) -> bool {
    w == 1 || w == 2 || w == 4 || w == 8
}

/// `x` as `n` little-endian bytes.
pub open spec fn le_bytes(x: nat, n: nat) -> Seq<u8> {
    Seq::new(n, |i: int| ((x / pow256(i as nat)) % 256) as u8)
}

/// The unsigned value of little-endian bytes.
pub open spec fn le_value(b: Seq<u8>) -> nat
    decreases b.len(),
{
    if b.len() == 0 {
        0
    } else {
        (b[0] + 256 * le_value(b.subrange(1, b.len() as int))) as nat
    }
}

/// The width in bytes of the payload that a varint marker announces.
pub open spec fn marker_width(m: u8) -> nat {
    if m == MARKER_U16 {
        2
    } else if m == MARKER_U32 {
        4
    } else if m == MARKER_U64 {
        8
    } else {
        16
    }
}

/// The variable-length form of `x`: one byte up to 250, else a marker and
/// the smallest payload that holds it.
pub open spec fn varint_bytes(x: nat) -> Seq<u8> {
    if x <= SINGLE_BYTE_MAX {
        seq![x as u8]
    } else if x < pow256(2) {
        seq![MARKER_U16] + le_bytes(x, 2)
    } else if x < pow256(4) {
        seq![MARKER_U32] + le_bytes(x, 4)
    } else {
        seq![MARKER_U64] + le_bytes(x, 8)
    }
}

/// The bytes of an unsigned field of `w` bytes holding `x`.
pub open spec fn uint_bytes(p: Profile, x: nat, w: nat) -> Seq<u8> {
    if w == 1 || p == Profile::LegacyFixed {
        le_bytes(x, w)
    } else {
        varint_bytes(x)
    }
}

/// Reading an unsigned field of `w` bytes from the front of `b`: the value
/// and the number of bytes it took.
pub open spec fn uint_dec(p: Profile, w: nat, b: Seq<u8>) -> Result<(nat, nat), DecodeError> {
    if w == 1 || p == Profile::LegacyFixed {
        if b.len() < w {
            Err(DecodeError::Truncated)
        } else {
            Ok((le_value(b.subrange(0, w as int)), w))
        }
    } else if b.len() == 0 {
        Err(DecodeError::Truncated)
    } else if b[0] <= SINGLE_BYTE_MAX {
        Ok((b[0] as nat, 1))
    } else if b[0] > MARKER_U128 || marker_width(b[0]) > w {
        Err(DecodeError::Overflow)
    } else {
        let k = marker_width(b[0]);
        if b.len() < 1 + k {
            Err(DecodeError::Truncated)
        } else {
            Ok((le_value(b.subrange(1, 1 + k as int)), 1 + k))
        }
    }
}

pub proof fn lemma_pow256_values()
    ensures
        pow256(1) == 256,
        pow256(2) == 0x1_0000,
        pow256(4) == 0x1_0000_0000,
        pow256(8) == 0x1_0000_0000_0000_0000,
{
    reveal_with_fuel(pow256, 9);
}

pub proof fn lemma_pow256_pos(n: nat)
    ensures
        pow256(n) > 0,
    decreases n,
{
    if n > 0 {
        lemma_pow256_pos((n - 1) as nat);
    }
}

pub proof fn lemma_pow256_mono(a: nat, b: nat)
    requires
        a <= b,
    ensures
        pow256(a) <= pow256(b),
    decreases b,
{
    if a < b {
        lemma_pow256_mono(a, (b - 1) as nat);
    }
}

pub proof fn lemma_le_value_bound(b: Seq<u8>)
    ensures
        le_value(b) < pow256(b.len()),
    decreases b.len(),
{
    if b.len() > 0 {
        let t = b.subrange(1, b.len() as int);
        lemma_le_value_bound(t);
        assert(pow256(b.len()) == 256 * pow256(t.len()));
        assert(b[0] + 256 * le_value(t) < 256 * pow256(t.len())) by (nonlinear_arith)
            requires
                b[0] < 256,
                le_value(t) < pow256(t.len()),
        ;
    }
}

/// Reading back `n` little-endian bytes of `x` gives `x`.
pub proof fn lemma_le_round_trip(x: nat, n: nat)
    requires
        x < pow256(n),
    ensures
        le_value(le_bytes(x, n)) == x,
    decreases n,
{
    let b = le_bytes(x, n);
    if n == 0 {
    } else {
        let m = (n - 1) as nat;
        let q = x / 256;
        lemma_pow256_pos(m);
        assert(b.subrange(1, b.len() as int) =~= le_bytes(q, m)) by {
            assert forall|i: int| 0 <= i < m implies #[trigger] b.subrange(1, b.len() as int)[i]
                == le_bytes(q, m)[i] by {
                lemma_pow256_pos(i as nat);
                lemma_div_denominator(x as int, 256, pow256(i as nat) as int);
            }
        }
        assert(q < pow256(m)) by (nonlinear_arith)
            requires
                x < 256 * pow256(m),
                q == x / 256,
        ;
        lemma_le_round_trip(q, m);
        assert(pow256(0) == 1);
        assert(b[0] == ((x / pow256(0)) % 256) as u8);
        assert(x / 1 == x);
        assert(b[0] == x % 256);
    }
}

/// Writes the `n` low bytes of `x`, least significant first.
fn push_le(out: &mut Vec<u8>, x: u64, n: usize)
    requires
        n <= 8,
    ensures
        final(out)@ == old(out)@ + le_bytes(x as nat, n as nat),
{
    let mut cur: u64 = x;
    let mut i: usize = 0;
    assert(pow256(0) == 1);
    assert(out@ =~= old(out)@ + le_bytes(x as nat, 0));
    while i < n
        invariant
            i <= n,
            n <= 8,
            cur == x as nat / pow256(i as nat),
            out@ == old(out)@ + le_bytes(x as nat, i as nat),
        decreases n - i,
    {
        proof {
            lemma_pow256_pos(i as nat);
            lemma_div_denominator(x as int, pow256(i as nat) as int, 256);
        }
        out.push((cur % 256) as u8);
        cur = cur / 256;
        assert(out@ =~= old(out)@ + le_bytes(x as nat, (i + 1) as nat));
        i = i + 1;
    }
}

/// Reads `n` little-endian bytes of `b` starting at `pos`.
fn read_le(b: &[u8], pos: usize, n: usize) -> (r: u64)
    requires
        n <= 8,
        pos + n <= b@.len(),
    ensures
        r as nat == le_value(b@.subrange(pos as int, pos + n)),
{
    let mut acc: u64 = 0;
    let mut i: usize = n;
    proof {
        lemma_pow256_values();
    }
    while i > 0
        invariant
            i <= n,
            n <= 8,
            pos + n <= b.len(),
            acc as nat == le_value(b@.subrange(pos + i, pos + n)),
            pow256(8) == 0x1_0000_0000_0000_0000,
        decreases i,
    {
        i = i - 1;
        let ghost s = b@.subrange(pos + i, pos + n);
        assert(s.subrange(1, s.len() as int) =~= b@.subrange(pos + i + 1, pos + n));
        proof {
            lemma_le_value_bound(s);
            lemma_pow256_mono(s.len(), 8);
        }
        let byte = b[pos + i];
        assert(s[0] == byte);
        assert(byte + 256 * acc < pow256(8));
        acc = byte as u64 + acc * 256;
    }
    acc
}

impl Profile {
    /// Appends the wire form of an unsigned field of `w` bytes holding `x`.
    pub fn encode_uint(self, x: u64, w: usize, out: &mut Vec<u8>)
        requires
            valid_width(w as nat),
            (x as nat) < pow256(w as nat),
        ensures
            final(out)@ == old(out)@ + uint_bytes(self, x as nat, w as nat),
    {
        proof {
            lemma_pow256_values();
        }
        if w == 1 || self == Profile::LegacyFixed {
            push_le(out, x, w);
        } else if x <= SINGLE_BYTE_MAX as u64 {
            out.push(x as u8);
            assert(out@ =~= old(out)@ + uint_bytes(self, x as nat, w as nat));
        } else if x <= 0xffff {
            out.push(MARKER_U16);
            push_le(out, x, 2);
            assert(out@ =~= old(out)@ + uint_bytes(self, x as nat, w as nat));
        } else if x <= 0xffff_ffff {
            out.push(MARKER_U32);
            push_le(out, x, 4);
            assert(out@ =~= old(out)@ + uint_bytes(self, x as nat, w as nat));
        } else {
            out.push(MARKER_U64);
            push_le(out, x, 8);
            assert(out@ =~= old(out)@ + uint_bytes(self, x as nat, w as nat));
        }
    }

    /// Reads an unsigned field of `w` bytes at `pos`: its value and the
    /// position after it.
    pub fn decode_uint(self, w: usize, b: &[u8], pos: usize) -> (r: Result<(u64, usize), DecodeError>)
        requires
            valid_width(w as nat),
            pos <= b@.len(),
        ensures
            match (r, uint_dec(self, w as nat, b@.skip(pos as int))) {
                (Ok((x, np)), Ok((v, n))) => x as nat == v && np == pos + n,
                (Err(e), Err(f)) => e == f,
                _ => false,
            },
            r matches Ok((_, np)) ==> np <= b@.len(),
    {
        let ghost rest = b@.skip(pos as int);
        let avail = b.len() - pos;
        if w == 1 || self == Profile::LegacyFixed {
            if avail < w {
                Err(DecodeError::Truncated)
            } else {
                assert(rest.subrange(0, w as int) =~= b@.subrange(pos as int, pos + w));
                Ok((read_le(b, pos, w), pos + w))
            }
        } else if avail == 0 {
            Err(DecodeError::Truncated)
        } else {
            let m = b[pos];
            if m <= SINGLE_BYTE_MAX {
                Ok((m as u64, pos + 1))
            } else if m > MARKER_U128 {
                Err(DecodeError::Overflow)
            } else {
                let k: usize = if m == MARKER_U16 {
                    2
                } else if m == MARKER_U32 {
                    4
                } else if m == MARKER_U64 {
                    8
                } else {
                    16
                };
                if k > w {
                    Err(DecodeError::Overflow)
                } else if avail < 1 + k {
                    Err(DecodeError::Truncated)
                } else {
                    assert(rest.subrange(1, 1 + k) =~= b@.subrange(pos + 1, pos + 1 + k));
                    Ok((read_le(b, pos + 1, k), pos + 1 + k))
                }
            }
        }
    }
}

} // verus!
