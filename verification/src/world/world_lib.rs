//! Seeds from strings and lattice points in a disk.
use vstd::prelude::*;
use sha2::{Digest, Sha256};
use crate::grid::{GridPos, lex_lt};

verus! {

/// The SHA-256 digest of a byte string, as the `sha2` crate computes it.
pub uninterp spec fn sha256_digest(data: Seq<u8>) -> Seq<u8>;

/// Calls `sha2::Sha256::digest` on `data`. Trusted: the result is the
/// SHA-256 digest of `data` (named `sha256_digest`) and is 32 bytes long,
/// as the output size of SHA-256 is 256 bits.
#[verifier::external_body]
fn sha256(data: &[u8]) -> (digest: Vec<u8>)
    ensures
        digest@ == sha256_digest(data@),
        digest@.len() == 32,
{
    Sha256::digest(data).to_vec()
}

/// `256` to the power `n`.
pub open spec fn pow256(n: nat) -> nat
    decreases n,
{
    if n == 0 { 1 } else { 256 * pow256((n - 1) as nat) }
}

/// The unsigned number whose little-endian bytes are `b`.
pub open spec fn le_bytes_value(b: Seq<u8>) -> nat
    decreases b.len(),
{
    if b.len() == 0 { 0 } else { b[0] as nat + 256 * le_bytes_value(b.drop_first()) }
}

proof fn lemma_le_bytes_bound(b: Seq<u8>)
    ensures
        le_bytes_value(b) < pow256(b.len()),
    decreases b.len(),
{
    if b.len() > 0 {
        lemma_le_bytes_bound(b.drop_first());
    }
}

/// The seed that a world name stands for: the first 8 bytes of the SHA-256
/// digest of its UTF-8 bytes, read as a little-endian number.
pub open spec fn seed_of(input: Seq<char>) -> nat {
    le_bytes_value(sha256_digest(vstd::utf8::encode_utf8(input)).subrange(0, 8))
}

/// Derives a numeric world seed from a string.
pub fn numeric_seed_from_string(input: &str) -> (seed: u64)
    ensures
        seed == seed_of(input@),
{
    let digest = sha256(input.as_bytes());
    let ghost b = digest@.subrange(0, 8);
    let mut acc: u64 = 0;
    let mut i: usize = 8;
    proof {
        assert(b.subrange(8, 8) =~= Seq::<u8>::empty());
    }
    while i > 0
        invariant
            i <= 8,
            digest@.len() == 32,
            b == digest@.subrange(0, 8),
            acc as nat == le_bytes_value(b.subrange(i as int, 8)),
        decreases i,
    {
        proof {
            lemma_le_bytes_bound(b.subrange(i as int, 8));
            assert(pow256((8 - i) as nat) <= pow256(7)) by {
                lemma_pow256_mono((8 - i) as nat, 7);
            }
            assert(pow256(7) == 72057594037927936nat) by {
                reveal_with_fuel(pow256, 8);
            }
            assert(b.subrange(i - 1, 8).drop_first() =~= b.subrange(i as int, 8));
        }
        acc = acc * 256 + digest[i - 1] as u64;
        i = i - 1;
    }
    proof {
        assert(b.subrange(0, 8) =~= b);
    }
    acc
}

proof fn lemma_pow256_mono(a: nat, b: nat)
    requires
        a <= b,
    ensures
        pow256(a) <= pow256(b),
    decreases b,
{
    if a < b {
        lemma_pow256_mono(a, (b - 1) as nat);
    }
}

/// `p` lies in the closed disk of radius `r` around `(cx, cy)`.
pub open spec fn in_disk(p: GridPos, cx: int, cy: int, r: int) -> bool {
    (p.x - cx) * (p.x - cx) + (p.y - cy) * (p.y - cy) <= r * r
}

/// `p` comes before the position `(x, y)` when ordered by `x`, then by `y`.
pub open spec fn before(p: GridPos, x: int, y: int) -> bool {
    p.x < x || (p.x == x && p.y < y)
}

proof fn lemma_outside_band(p: GridPos, cx: int, cy: int, r: int)
    requires
        r >= 0,
        p.x > cx + r || p.x < cx - r || p.y > cy + r || p.y < cy - r,
    ensures
        !in_disk(p, cx, cy, r),
{
    let dx = p.x - cx;
    let dy = p.y - cy;
    assert(dx * dx >= 0 && dy * dy >= 0) by (nonlinear_arith);
    if dx > r || dx < -r {
        assert(dx * dx > r * r) by (nonlinear_arith)
            requires
                r >= 0,
                dx > r || dx < -r,
        ;
    } else {
        assert(dy * dy > r * r) by (nonlinear_arith)
            requires
                r >= 0,
                dy > r || dy < -r,
        ;
    }
}

/// Every grid point within `radius` of `(center_x, center_y)`, ordered by
/// `x`, then by `y`. A radius beyond `i32::MAX` gives no point.
pub fn get_points_in_radius(center_x: i32, center_y: i32, radius: u32) -> (points: Vec<GridPos>)
    ensures
        radius > i32::MAX ==> points@.len() == 0,
        forall|i: int|
            0 <= i < points@.len() ==> in_disk(
                #[trigger] points@[i],
                center_x as int,
                center_y as int,
                radius as int,
            ),
        radius <= i32::MAX ==> forall|p: GridPos|
            in_disk(p, center_x as int, center_y as int, radius as int) ==> points@.contains(p),
        forall|i: int, j: int|
            0 <= i < j < points@.len() ==> lex_lt(#[trigger] points@[i], #[trigger] points@[j]),
{
    let mut points: Vec<GridPos> = Vec::new();
    if radius > i32::MAX as u32 {
        // The bounding box is empty for such a radius.
        return points;
    }
    let cx = center_x as i64;
    let cy = center_y as i64;
    let r = radius as i64;
    assert((r as i128) * (r as i128) <= 0x1_0000_0000_0000_0000i128) by (nonlinear_arith)
        requires
            0 <= r <= 0x1_0000_0000i128,
    ;
    let radius_sq: i128 = (r as i128) * (r as i128);
    let x_min: i64 = if cx - r < i32::MIN as i64 { i32::MIN as i64 } else { cx - r };
    let x_max: i64 = if cx + r > i32::MAX as i64 { i32::MAX as i64 } else { cx + r };
    let y_min: i64 = if cy - r < i32::MIN as i64 { i32::MIN as i64 } else { cy - r };
    let y_max: i64 = if cy + r > i32::MAX as i64 { i32::MAX as i64 } else { cy + r };
    let mut x: i64 = x_min;
    proof {
        assert forall|q: GridPos| in_disk(q, cx as int, cy as int, r as int) implies q.x >= x_min by {
            if q.x < x_min {
                lemma_outside_band(q, cx as int, cy as int, r as int);
            }
        }
    }
    while x <= x_max
        invariant
            r == radius as i64,
            0 <= r <= i32::MAX,
            cx == center_x as i64,
            cy == center_y as i64,
            radius_sq == r * r,
            x_min == if cx - r < i32::MIN { i32::MIN as int } else { cx - r },
            x_max == if cx + r > i32::MAX { i32::MAX as int } else { cx + r },
            y_min == if cy - r < i32::MIN { i32::MIN as int } else { cy - r },
            y_max == if cy + r > i32::MAX { i32::MAX as int } else { cy + r },
            x_min <= x <= x_max + 1,
            forall|i: int|
                0 <= i < points@.len() ==> in_disk(#[trigger] points@[i], cx as int, cy as int, r as int)
                    && points@[i].x < x,
            forall|p: GridPos|
                in_disk(p, cx as int, cy as int, r as int) && p.x < x ==> points@.contains(p),
            forall|i: int, j: int|
                0 <= i < j < points@.len() ==> lex_lt(#[trigger] points@[i], #[trigger] points@[j]),
        decreases x_max + 1 - x,
    {
        let mut y: i64 = y_min;
        proof {
            assert forall|q: GridPos| in_disk(q, cx as int, cy as int, r as int) && before(q, x as int, y as int)
                implies points@.contains(q) by {
                if q.x == x {
                    lemma_outside_band(q, cx as int, cy as int, r as int);
                }
            }
        }
        while y <= y_max
            invariant
                r == radius as i64,
                0 <= r <= i32::MAX,
                cx == center_x as i64,
                cy == center_y as i64,
                radius_sq == r * r,
                x_min == if cx - r < i32::MIN { i32::MIN as int } else { cx - r },
                x_max == if cx + r > i32::MAX { i32::MAX as int } else { cx + r },
                y_min == if cy - r < i32::MIN { i32::MIN as int } else { cy - r },
                y_max == if cy + r > i32::MAX { i32::MAX as int } else { cy + r },
                x_min <= x <= x_max,
                y_min <= y <= y_max + 1,
                forall|i: int|
                    0 <= i < points@.len() ==> in_disk(#[trigger] points@[i], cx as int, cy as int, r as int)
                        && before(points@[i], x as int, y as int),
                forall|p: GridPos|
                    in_disk(p, cx as int, cy as int, r as int) && before(p, x as int, y as int)
                        ==> points@.contains(p),
                forall|i: int, j: int|
                    0 <= i < j < points@.len() ==> lex_lt(#[trigger] points@[i], #[trigger] points@[j]),
            decreases y_max + 1 - y,
        {
            let dx = (x - cx) as i128;
            let dy = (y - cy) as i128;
            assert(0 <= dx * dx < 0x10_0000_0000_0000_0000i128) by (nonlinear_arith)
                requires
                    -0x2_0000_0000 < dx < 0x2_0000_0000,
            ;
            assert(0 <= dy * dy < 0x10_0000_0000_0000_0000i128) by (nonlinear_arith)
                requires
                    -0x2_0000_0000 < dy < 0x2_0000_0000,
            ;
            let distance_sq = dx * dx + dy * dy;
            let ghost old_points = points@;
            if distance_sq <= radius_sq {
                let p = GridPos { x: x as i32, y: y as i32 };
                points.push(p);
                proof {
                    assert(in_disk(p, cx as int, cy as int, r as int));
                    assert forall|q: GridPos|
                        in_disk(q, cx as int, cy as int, r as int) && before(q, x as int, y + 1)
                            implies points@.contains(q) by {
                        if q.x == x && q.y == y {
                            assert(points@[points@.len() - 1] == q);
                        } else {
                            assert(old_points.contains(q));
                            let k = choose|k: int| 0 <= k < old_points.len() && old_points[k] == q;
                            assert(points@[k] == q);
                        }
                    }
                }
            } else {
                proof {
                    assert forall|q: GridPos|
                        in_disk(q, cx as int, cy as int, r as int) && before(q, x as int, y + 1)
                            implies points@.contains(q) by {
                        if q.x == x && q.y == y {
                            assert(!in_disk(q, cx as int, cy as int, r as int));
                        }
                    }
                }
            }
            y = y + 1;
        }
        proof {
            assert forall|q: GridPos| in_disk(q, cx as int, cy as int, r as int) && q.x < x + 1
                implies points@.contains(q) by {
                if q.x == x && q.y >= y {
                    lemma_outside_band(q, cx as int, cy as int, r as int);
                }
                assert(before(q, x as int, y as int));
            }
        }
        x = x + 1;
    }
    proof {
        assert forall|q: GridPos| in_disk(q, cx as int, cy as int, r as int) implies points@.contains(q) by {
            if q.x >= x {
                lemma_outside_band(q, cx as int, cy as int, r as int);
            }
        }
    }
    points
}

} // verus!
