use vstd::prelude::*;

verus! {

/// Ken Perlin's reference permutation of 0..=255.
pub const PERM: [u8; 256] = [
    151, 160, 137, 91, 90, 15, 131, 13, 201, 95, 96, 53, 194, 233, 7, 225,
    140, 36, 103, 30, 69, 142, 8, 99, 37, 240, 21, 10, 23, 190, 6, 148,
    247, 120, 234, 75, 0, 26, 197, 62, 94, 252, 219, 203, 117, 35, 11, 32,
    57, 177, 33, 88, 237, 149, 56, 87, 174, 20, 125, 136, 171, 168, 68, 175,
    74, 165, 71, 134, 139, 48, 27, 166, 77, 146, 158, 231, 83, 111, 229, 122,
    60, 211, 133, 230, 220, 105, 92, 41, 55, 46, 245, 40, 244, 102, 143, 54,
    65, 25, 63, 161, 1, 216, 80, 73, 209, 76, 132, 187, 208, 89, 18, 169,
    200, 196, 135, 130, 116, 188, 159, 86, 164, 100, 109, 198, 173, 186, 3, 64,
    52, 217, 226, 250, 124, 123, 5, 202, 38, 147, 118, 126, 255, 82, 85, 212,
    207, 206, 59, 227, 47, 16, 58, 17, 182, 189, 28, 42, 223, 183, 170, 213,
    119, 248, 152, 2, 44, 154, 163, 70, 221, 153, 101, 155, 167, 43, 172, 9,
    129, 22, 39, 253, 19, 98, 108, 110, 79, 113, 224, 232, 178, 185, 112, 104,
    218, 246, 97, 228, 251, 34, 242, 193, 238, 210, 144, 12, 191, 179, 162, 241,
    81, 51, 145, 235, 249, 14, 239, 107, 49, 192, 214, 31, 181, 199, 106, 157,
    184, 84, 204, 176, 115, 121, 50, 45, 127, 4, 150, 254, 138, 236, 205, 93,
    222, 114, 67, 29, 24, 72, 243, 141, 128, 195, 78, 66, 215, 61, 156, 180,
];

/// The permutation, applied to an index wrapped into 0..=255.
#[verifier::opaque]
pub open spec fn perm(i: int) -> int {
    PERM@[i % 256] as int
}

/// Hash of the lattice corner (x, y), as Perlin's reference noise computes it.
pub open spec fn corner_hash(x: int, y: int) -> int {
    perm(perm(perm(x) + y))
}

/// Wrap an integer lattice coordinate (the floor of a sample coordinate)
/// into the permutation's period: its least non-negative remainder mod 256.
pub fn lattice_cell(floor: i32) -> (cell: usize)
    ensures
        cell == floor % 256,
        cell < 256,
{
    let r = floor.checked_rem_euclid(256).unwrap();
    r as usize
}

/// Look the permutation up at `i & 255`.
fn perm_at(i: usize) -> (v: usize)
    ensures
        v == perm(i as int),
        v < 256,
{
    let j = i & 255;
    assert(j == i % 256) by (bit_vector)
        requires
            j == i & 255,
    ;
    proof {
        reveal(perm);
    }
    PERM[j] as usize
}

/// Hashes of the four lattice corners around a sample point, in the order
/// Perlin's interpolation uses them.
#[derive(Clone, Copy, Debug, PartialEq, Eq, Structural)]
pub struct CornerHashes {
    /// Corner (xi, yi).
    pub aa: u8,
    /// Corner (xi + 1, yi).
    pub ba: u8,
    /// Corner (xi, yi + 1).
    pub ab: u8,
    /// Corner (xi + 1, yi + 1).
    pub bb: u8,
}

/// Hash the four lattice corners of the cell whose lower-left corner is
/// (xi, yi), both already wrapped into 0..=255.
pub fn corner_hashes(xi: usize, yi: usize) -> (h: CornerHashes)
    requires
        xi < 256,
        yi < 256,
    ensures
        h.aa == corner_hash(xi as int, yi as int),
        h.ba == corner_hash(xi + 1, yi as int),
        h.ab == corner_hash(xi as int, yi + 1),
        h.bb == corner_hash(xi + 1, yi + 1),
{
    let px0 = perm_at(xi);
    let px1 = perm_at(xi + 1);
    let aa = perm_at(px0 + yi);
    let ab = perm_at(px0 + yi + 1);
    let ba = perm_at(px1 + yi);
    let bb = perm_at(px1 + yi + 1);
    CornerHashes {
        aa: perm_at(aa) as u8,
        ba: perm_at(ba) as u8,
        ab: perm_at(ab) as u8,
        bb: perm_at(bb) as u8,
    }
}

/// Signs of the gradient that a corner hash selects: the gradient's dot
/// product with the offset (x, y) is `sx * x + sy * y`.
pub open spec fn gradient_signs(hash: int) -> (int, int) {
    let h = hash % 4;
    if h == 0 {
        (1, 1)
    } else if h == 1 {
        (-1, 1)
    } else if h == 2 {
        (1, -1)
    } else {
        (-1, -1)
    }
}

/// Select the gradient for a corner hash from its two low bits.
pub fn gradient(hash: u8) -> (g: (i8, i8))
    ensures
        g.0 as int == gradient_signs(hash as int).0,
        g.1 as int == gradient_signs(hash as int).1,
{
    let h = hash & 3;
    assert(h == hash % 4) by (bit_vector)
        requires
            h == hash & 3,
    ;
    match h {
        0 => (1, 1),
        1 => (-1, 1),
        2 => (1, -1),
        _ => (-1, -1),
    }
}

/// The lattice hashes repeat every 256 cells along each axis, so the noise
/// field tiles with that period.
pub proof fn lemma_corner_hash_periodic(x: int, y: int)
    ensures
        corner_hash(x + 256, y) == corner_hash(x, y),
        corner_hash(x, y + 256) == corner_hash(x, y),
{
    reveal(perm);
    assert((x + 256) % 256 == x % 256);
    let p = perm(x);
    assert((p + y + 256) % 256 == (p + y) % 256);
}

} // verus!
