use vstd::prelude::*;

verus! {

/// The bit-reversed CRC32 polynomial.
pub const CRC32_POLYNOMIAL: u32 = 0xedb88320;

/// One bit-reflection step of the CRC32 register update: shift right once
/// and fold the polynomial back in when the dropped bit was set.
pub open spec fn crc32_step(x: u32) -> u32 {
    if x & 1 == 1 {
        (x >> 1) ^ CRC32_POLYNOMIAL
    } else {
        x >> 1
    }
}

/// `n` bit-reflection steps applied to `x`.
pub open spec fn crc32_steps(x: u32, n: nat) -> u32
    decreases n,
{
    if n == 0 {
        x
    } else {
        crc32_step(crc32_steps(x, (n - 1) as nat))
    }
}

/// The register after folding one input byte into `reg`: the byte is XORed
/// with the low byte of the register, run through eight reflection steps,
/// and XORed into the register shifted right by eight bits.
pub open spec fn crc32_update(reg: u32, b: u8) -> u32 {
    crc32_steps(((b as u32) ^ reg) & 255, 8) ^ (reg >> 8)
}

/// The register after folding every byte of `s` into `reg`, in order.
pub open spec fn crc32_spec(reg: u32, s: Seq<u8>) -> u32
    decreases s.len(),
{
    if s.len() == 0 {
        reg
    } else {
        crc32_update(crc32_spec(reg, s.drop_last()), s.last())
    }
}

/// Calculates the CRC32 value of a byte slice, starting from `reg`.
///
/// Callers supply `!0` for a fresh computation, or a prior result to
/// continue incrementally; a finished checksum is the bit complement of the
/// final register.
pub fn crc32(reg: u32, s: &[u8]) -> (r: u32)
    ensures
        r == crc32_spec(reg, s@),
{
    let mut r = reg;
    let mut j: usize = 0;
    while j < s.len()
        invariant
            j <= s@.len(),
            r == crc32_spec(reg, s@.take(j as int)),
        decreases s@.len() - j,
    {
        let ghost prev = r;
        let mut x: u32 = ((s[j] as u32) ^ r) & 255;
        let ghost x0 = x;
        let mut i: usize = 0;
        while i < 8
            invariant
                i <= 8,
                x == crc32_steps(x0, i as nat),
        decreases 8 - i,
        {
            x = if x & 1 == 1 {
                (x >> 1) ^ CRC32_POLYNOMIAL
            } else {
                x >> 1
            };
            i = i + 1;
        }
        r = x ^ (r >> 8);
        assert(r == crc32_update(prev, s@[j as int]));
        assert(s@.take(j + 1).drop_last() =~= s@.take(j as int));
        assert(s@.take(j + 1).last() == s@[j as int]);
        j = j + 1;
    }
    assert(s@.take(s@.len() as int) =~= s@);
    r
}

/// Chaining law: feeding a register through two byte sequences in turn is
/// the same as feeding it through their concatenation. This is what lets a
/// caller continue a computation incrementally from a prior result.
pub proof fn lemma_crc32_append(reg: u32, a: Seq<u8>, b: Seq<u8>)
    ensures
        crc32_spec(reg, a + b) == crc32_spec(crc32_spec(reg, a), b),
    decreases b.len(),
{
    if b.len() == 0 {
        assert(a + b =~= a);
    } else {
        lemma_crc32_append(reg, a, b.drop_last());
        assert((a + b).drop_last() =~= a + b.drop_last());
    }
}

/// One reflection step loses no information: the dropped bit reappears as
/// the polynomial's top bit.
proof fn lemma_crc32_step_injective(x: u32, y: u32)
    requires
        x != y,
    ensures
        crc32_step(x) != crc32_step(y),
{
    assert(((if x & 1 == 1 {
        (x >> 1) ^ 0xedb88320u32
    } else {
        x >> 1
    }) == (if y & 1 == 1 {
        (y >> 1) ^ 0xedb88320u32
    } else {
        y >> 1
    })) ==> x == y) by (bit_vector);
}

/// Any number of reflection steps is injective.
proof fn lemma_crc32_steps_injective(x: u32, y: u32, n: nat)
    requires
        x != y,
    ensures
        crc32_steps(x, n) != crc32_steps(y, n),
    decreases n,
{
    if n > 0 {
        lemma_crc32_steps_injective(x, y, (n - 1) as nat);
        lemma_crc32_step_injective(crc32_steps(x, (n - 1) as nat), crc32_steps(y, (n - 1) as nat));
    }
}

/// For a fixed register, distinct input bytes give distinct updated
/// registers.
proof fn lemma_crc32_update_injective_byte(reg: u32, b1: u8, b2: u8)
    requires
        b1 != b2,
    ensures
        crc32_update(reg, b1) != crc32_update(reg, b2),
{
    let a1 = ((b1 as u32) ^ reg) & 255;
    let a2 = ((b2 as u32) ^ reg) & 255;
    assert(b1 != b2 ==> ((b1 as u32) ^ reg) & 255 != ((b2 as u32) ^ reg) & 255) by (bit_vector);
    lemma_crc32_steps_injective(a1, a2, 8);
    let s1 = crc32_steps(a1, 8);
    let s2 = crc32_steps(a2, 8);
    assert(s1 != s2 ==> s1 ^ (reg >> 8) != s2 ^ (reg >> 8)) by (bit_vector);
}

/// For a fixed input byte, distinct registers give distinct updated
/// registers: the byte update is invertible.
proof fn lemma_crc32_update_injective_reg(r1: u32, r2: u32, b: u8)
    requires
        r1 != r2,
    ensures
        crc32_update(r1, b) != crc32_update(r2, b),
{
    let c = b as u32;
    let x0 = (c ^ r1) & 255;
    let x1 = crc32_step(x0);
    let x2 = crc32_step(x1);
    let x3 = crc32_step(x2);
    let x4 = crc32_step(x3);
    let x5 = crc32_step(x4);
    let x6 = crc32_step(x5);
    let x7 = crc32_step(x6);
    let x8 = crc32_step(x7);
    let y0 = (c ^ r2) & 255;
    let y1 = crc32_step(y0);
    let y2 = crc32_step(y1);
    let y3 = crc32_step(y2);
    let y4 = crc32_step(y3);
    let y5 = crc32_step(y4);
    let y6 = crc32_step(y5);
    let y7 = crc32_step(y6);
    let y8 = crc32_step(y7);
    reveal_with_fuel(crc32_steps, 10);
    assert(crc32_steps(x0, 8) == x8);
    assert(crc32_steps(y0, 8) == y8);
    assert((x0 == (c ^ r1) & 255 && y0 == (c ^ r2) & 255 && x1 == (if x0 & 1 == 1 {
        (x0 >> 1) ^ 0xedb88320u32
    } else {
        x0 >> 1
    }) && y1 == (if y0 & 1 == 1 {
        (y0 >> 1) ^ 0xedb88320u32
    } else {
        y0 >> 1
    }) && x2 == (if x1 & 1 == 1 {
        (x1 >> 1) ^ 0xedb88320u32
    } else {
        x1 >> 1
    }) && y2 == (if y1 & 1 == 1 {
        (y1 >> 1) ^ 0xedb88320u32
    } else {
        y1 >> 1
    }) && x3 == (if x2 & 1 == 1 {
        (x2 >> 1) ^ 0xedb88320u32
    } else {
        x2 >> 1
    }) && y3 == (if y2 & 1 == 1 {
        (y2 >> 1) ^ 0xedb88320u32
    } else {
        y2 >> 1
    }) && x4 == (if x3 & 1 == 1 {
        (x3 >> 1) ^ 0xedb88320u32
    } else {
        x3 >> 1
    }) && y4 == (if y3 & 1 == 1 {
        (y3 >> 1) ^ 0xedb88320u32
    } else {
        y3 >> 1
    }) && x5 == (if x4 & 1 == 1 {
        (x4 >> 1) ^ 0xedb88320u32
    } else {
        x4 >> 1
    }) && y5 == (if y4 & 1 == 1 {
        (y4 >> 1) ^ 0xedb88320u32
    } else {
        y4 >> 1
    }) && x6 == (if x5 & 1 == 1 {
        (x5 >> 1) ^ 0xedb88320u32
    } else {
        x5 >> 1
    }) && y6 == (if y5 & 1 == 1 {
        (y5 >> 1) ^ 0xedb88320u32
    } else {
        y5 >> 1
    }) && x7 == (if x6 & 1 == 1 {
        (x6 >> 1) ^ 0xedb88320u32
    } else {
        x6 >> 1
    }) && y7 == (if y6 & 1 == 1 {
        (y6 >> 1) ^ 0xedb88320u32
    } else {
        y6 >> 1
    }) && x8 == (if x7 & 1 == 1 {
        (x7 >> 1) ^ 0xedb88320u32
    } else {
        x7 >> 1
    }) && y8 == (if y7 & 1 == 1 {
        (y7 >> 1) ^ 0xedb88320u32
    } else {
        y7 >> 1
    }) && r1 != r2) ==> (x8 ^ (r1 >> 8)) != (y8 ^ (r2 >> 8))) by (bit_vector);
}

/// Registers once distinct stay distinct however many further bytes both
/// computations consume.
proof fn lemma_crc32_ne_propagates(r1: u32, r2: u32, s: Seq<u8>)
    requires
        r1 != r2,
    ensures
        crc32_spec(r1, s) != crc32_spec(r2, s),
    decreases s.len(),
{
    if s.len() > 0 {
        lemma_crc32_ne_propagates(r1, r2, s.drop_last());
        lemma_crc32_update_injective_reg(
            crc32_spec(r1, s.drop_last()),
            crc32_spec(r2, s.drop_last()),
            s.last(),
        );
    }
}

/// Corruption of a single byte always changes the checksum: two sequences
/// of equal length that differ in exactly one position have distinct CRC32
/// values, whatever register the computation starts from.
pub proof fn lemma_crc32_single_byte_change(reg: u32, s1: Seq<u8>, s2: Seq<u8>, i: int)
    requires
        s1.len() == s2.len(),
        0 <= i < s1.len(),
        s1[i] != s2[i],
        forall|j: int| 0 <= j < s1.len() && j != i ==> s1[j] == s2[j],
    ensures
        crc32_spec(reg, s1) != crc32_spec(reg, s2),
{
    let p = s1.take(i);
    let q = s1.skip(i + 1);
    assert(s2.take(i) =~= p);
    assert(s2.skip(i + 1) =~= q);
    assert(s1 =~= p.push(s1[i]) + q);
    assert(s2 =~= p.push(s2[i]) + q);
    let r0 = crc32_spec(reg, p);
    assert(p.push(s1[i]).drop_last() =~= p);
    assert(p.push(s2[i]).drop_last() =~= p);
    assert(crc32_spec(reg, p.push(s1[i])) == crc32_update(r0, s1[i]));
    assert(crc32_spec(reg, p.push(s2[i])) == crc32_update(r0, s2[i]));
    lemma_crc32_update_injective_byte(r0, s1[i], s2[i]);
    lemma_crc32_append(reg, p.push(s1[i]), q);
    lemma_crc32_append(reg, p.push(s2[i]), q);
    lemma_crc32_ne_propagates(crc32_update(r0, s1[i]), crc32_update(r0, s2[i]), q);
}

} // verus!
