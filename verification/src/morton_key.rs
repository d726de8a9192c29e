//! Morton keys: two 16-bit coordinates interleaved bit by bit into 32 bits.
use vstd::prelude::*;

verus! {

/// Spread the low 16 bits of `n` over the even bit positions.
pub open spec fn spread(n: u32) -> u32 {
    let a = n & 0x0000_ffff;
    let b = (a | (a << 8)) & 0x00ff_00ff;
    let c = (b | (b << 4)) & 0x0f0f_0f0f;
    let d = (c | (c << 2)) & 0x3333_3333;
    (d | (d << 1)) & 0x5555_5555
}

/// Gather the even bit positions of `n` into the low 16 bits.
pub open spec fn squeeze(n: u32) -> u32 {
    let a = n & 0x5555_5555;
    let b = (a | (a >> 1)) & 0x3333_3333;
    let c = (b | (b >> 2)) & 0x0f0f_0f0f;
    let d = (c | (c >> 4)) & 0x00ff_00ff;
    (d | (d >> 8)) & 0x0000_ffff
}

/// Bit `i` of `x` at position `2 i`, bit `i` of `y` at position `2 i + 1`.
pub open spec fn interleave(x: u16, y: u16) -> u32 {
    spread(x as u32) | (spread(y as u32) << 1)
}

proof fn lemma_stage8(a: u32)
    requires
        a & 0x0000_ffff == a,
    ensures
        ({
            let b = (a | (a << 8)) & 0x00ff_00ff;
            b & 0x00ff_00ff == b && (b | (b >> 8)) & 0x0000_ffff == a
        }),
{
    assert(a & 0x0000_ffff == a ==> ({
        let b = (a | (a << 8)) & 0x00ff_00ff;
        b & 0x00ff_00ff == b && (b | (b >> 8)) & 0x0000_ffff == a
    })) by (bit_vector);
}

proof fn lemma_stage4(a: u32)
    requires
        a & 0x00ff_00ff == a,
    ensures
        ({
            let b = (a | (a << 4)) & 0x0f0f_0f0f;
            b & 0x0f0f_0f0f == b && (b | (b >> 4)) & 0x00ff_00ff == a
        }),
{
    assert(a & 0x00ff_00ff == a ==> ({
        let b = (a | (a << 4)) & 0x0f0f_0f0f;
        b & 0x0f0f_0f0f == b && (b | (b >> 4)) & 0x00ff_00ff == a
    })) by (bit_vector);
}

proof fn lemma_stage2(a: u32)
    requires
        a & 0x0f0f_0f0f == a,
    ensures
        ({
            let b = (a | (a << 2)) & 0x3333_3333;
            b & 0x3333_3333 == b && (b | (b >> 2)) & 0x0f0f_0f0f == a
        }),
{
    assert(a & 0x0f0f_0f0f == a ==> ({
        let b = (a | (a << 2)) & 0x3333_3333;
        b & 0x3333_3333 == b && (b | (b >> 2)) & 0x0f0f_0f0f == a
    })) by (bit_vector);
}

proof fn lemma_stage1(a: u32)
    requires
        a & 0x3333_3333 == a,
    ensures
        ({
            let b = (a | (a << 1)) & 0x5555_5555;
            b & 0x5555_5555 == b && (b | (b >> 1)) & 0x3333_3333 == a
        }),
{
    assert(a & 0x3333_3333 == a ==> ({
        let b = (a | (a << 1)) & 0x5555_5555;
        b & 0x5555_5555 == b && (b | (b >> 1)) & 0x3333_3333 == a
    })) by (bit_vector);
}

/// Gathering undoes spreading, and a spread value has only even bits.
pub proof fn lemma_squeeze_spread(n: u32)
    requires
        n <= 0xffff,
    ensures
        squeeze(spread(n)) == n,
        spread(n) & 0x5555_5555 == spread(n),
{
    assert(n <= 0xffff ==> n & 0x0000_ffff == n) by (bit_vector);
    let a = n & 0x0000_ffff;
    lemma_stage8(a);
    let b = (a | (a << 8)) & 0x00ff_00ff;
    lemma_stage4(b);
    let c = (b | (b << 4)) & 0x0f0f_0f0f;
    lemma_stage2(c);
    let d = (c | (c << 2)) & 0x3333_3333;
    lemma_stage1(d);
}

proof fn lemma_split(sx: u32, sy: u32)
    requires
        sx & 0x5555_5555 == sx,
        sy & 0x5555_5555 == sy,
    ensures
        (sx | (sy << 1)) & 0x5555_5555 == sx,
        ((sx | (sy << 1)) >> 1) & 0x5555_5555 == sy,
{
    assert(sx & 0x5555_5555 == sx && sy & 0x5555_5555 == sy ==> (sx | (sy << 1)) & 0x5555_5555
        == sx && ((sx | (sy << 1)) >> 1) & 0x5555_5555 == sy) by (bit_vector);
}

proof fn lemma_squeeze_masks(k: u32)
    ensures
        squeeze(k) == squeeze(k & 0x5555_5555),
        squeeze(k) <= 0xffff,
{
    assert((k & 0x5555_5555) & 0x5555_5555 == k & 0x5555_5555) by (bit_vector);
    let a = k & 0x5555_5555;
    let b = (a | (a >> 1)) & 0x3333_3333;
    let c = (b | (b >> 2)) & 0x0f0f_0f0f;
    let d = (c | (c >> 4)) & 0x00ff_00ff;
    assert((d | (d >> 8)) & 0x0000_ffff <= 0xffff) by (bit_vector);
}

/// The two coordinates can be read back from the key.
pub proof fn lemma_interleave_round_trip(x: u16, y: u16)
    ensures
        squeeze(interleave(x, y)) == x,
        squeeze(interleave(x, y) >> 1) == y,
{
    lemma_squeeze_spread(x as u32);
    lemma_squeeze_spread(y as u32);
    lemma_split(spread(x as u32), spread(y as u32));
    lemma_squeeze_masks(interleave(x, y));
    lemma_squeeze_masks(interleave(x, y) >> 1);
}

/// Distinct coordinate pairs have distinct keys.
pub proof fn lemma_interleave_injective(x1: u16, y1: u16, x2: u16, y2: u16)
    requires
        interleave(x1, y1) == interleave(x2, y2),
    ensures
        x1 == x2,
        y1 == y2,
{
    lemma_interleave_round_trip(x1, y1);
    lemma_interleave_round_trip(x2, y2);
}

/// Key of a cell in the Morton order.
#[derive(Clone, Copy, Debug, PartialEq, Eq, Structural, Hash)]
pub struct MortonKey(pub u32);

impl MortonKey {
    pub fn new(x: u16, y: u16) -> (key: MortonKey)
        ensures
            key.0 == interleave(x, y),
    {
        MortonKey(Self::part(x as u32) | (Self::part(y as u32) << 1))
    }

    fn part(n: u32) -> (r: u32)
        ensures
            r == spread(n),
    {
        let a: u32 = n & 0x0000_ffff;
        let b: u32 = (a | (a << 8)) & 0x00ff_00ff;
        let c: u32 = (b | (b << 4)) & 0x0f0f_0f0f;
        let d: u32 = (c | (c << 2)) & 0x3333_3333;
        (d | (d << 1)) & 0x5555_5555
    }

    fn compact(n: u32) -> (r: u16)
        ensures
            r == squeeze(n),
    {
        let a: u32 = n & 0x5555_5555;
        let b: u32 = (a | (a >> 1)) & 0x3333_3333;
        let c: u32 = (b | (b >> 2)) & 0x0f0f_0f0f;
        let d: u32 = (c | (c >> 4)) & 0x00ff_00ff;
        let e: u32 = (d | (d >> 8)) & 0x0000_ffff;
        assert((d | (d >> 8)) & 0x0000_ffff <= 0xffff) by (bit_vector);
        e as u16
    }

    /// The coordinates `[x, y]` that the key was made of.
    pub fn as_point(&self) -> (p: [u16; 2])
        ensures
            p[0] == squeeze(self.0),
            p[1] == squeeze(self.0 >> 1),
            forall|x: u16, y: u16| self.0 == interleave(x, y) ==> p[0] == x && p[1] == y,
    {
        proof {
            assert forall|x: u16, y: u16| self.0 == interleave(x, y) implies squeeze(self.0) == x
                && squeeze(self.0 >> 1) == y by {
                lemma_interleave_round_trip(x, y);
            }
        }
        [Self::compact(self.0), Self::compact(self.0 >> 1)]
    }
}

} // verus!
