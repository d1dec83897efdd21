//! Dense linear algebra over the PID $\mathbb{F}_2[\tau]$, with polynomials packed
//! as `u128` bitmasks (bit $i$ = coefficient of $\tau^i$).
use vstd::prelude::*;

verus! {

/// Number of leading zero bits of a 128-bit word.
pub open spec fn leading_zeros128(i: u128) -> int
    decreases i,
{
    if i == 0 {
        128
    } else {
        leading_zeros128(i / 2) - 1
    }
}

/// `u128::leading_zeros` counts the zero bits above the highest set bit (all 128 for zero).
pub assume_specification[ u128::leading_zeros ](i: u128) -> (r: u32)
    ensures
        r as int == leading_zeros128(i),
;

/// The degree of the polynomial `a`: the index of its highest set bit, `-1` for zero.
pub open spec fn poly_deg(a: u128) -> int {
    127 - leading_zeros128(a)
}

/// `(x >> 1) >> d` is `x >> (d + 1)`.
proof fn lemma_shr_shr1(x: u128, d: u128)
    requires
        d < 127,
    ensures
        (x >> 1u128) >> d == x >> (d + 1) as u128,
{
    assert((x >> 1u128) >> d == x >> ((d + 1) as u128)) by (bit_vector)
        requires
            d < 127,
    ;
}

/// The degree is the position of the highest set bit.
pub proof fn lemma_deg(a: u128)
    ensures
        -1 <= poly_deg(a) < 128,
        a == 0 <==> poly_deg(a) == -1,
        a != 0 ==> a >> (poly_deg(a) as u128) == 1,
    decreases a,
{
    if a != 0 {
        assert(a / 2 == a >> 1u128 && a >> 0u128 == a && (a >> 1u128) >> 127u128 == 0) by (bit_vector);
        lemma_deg(a / 2);
        let d = poly_deg(a / 2);
        if d >= 0 {
            lemma_shr_shr1(a, d as u128);
        }
    }
}

/// Degree of `a` (`-1` for the zero polynomial).
pub fn deg(a: u128) -> (d: i32)
    ensures
        d == poly_deg(a),
        a == 0 <==> d == -1,
        a != 0 ==> 0 <= d < 128 && a >> (d as u128) == 1,
{
    proof {
        lemma_deg(a);
    }
    if a == 0 {
        -1
    } else {
        127 - a.leading_zeros() as i32
    }
}


/// Facts about `^` on words: it is associative and commutative, `0` is its unit and
/// every word is its own inverse.
pub proof fn lemma_xor(x: u128, y: u128, z: u128)
    ensures
        (x ^ y) ^ z == x ^ (y ^ z),
        x ^ y == y ^ x,
        x ^ 0 == x,
        0 ^ x == x,
        x ^ x == 0,
{
    assert((x ^ y) ^ z == x ^ (y ^ z) && x ^ y == y ^ x && x ^ 0 == x && 0 ^ x == x && x ^ x
        == 0) by (bit_vector);
}

/// The low bit and the halving of a word, by bits and by arithmetic.
proof fn lemma_low_bit(a: u128)
    ensures
        (a & 1 == 1) == (a % 2 == 1),
        a >> 1u128 == a / 2,
{
    assert((a & 1 == 1) == (a % 2 == 1) && a >> 1u128 == a / 2) by (bit_vector);
}

/// Carry-less (shift-and-add) product of two polynomials over $\mathbb{F}_2$, truncated to
/// the 128 coefficients a word holds: each set bit $i$ of `a` contributes `b` shifted up by $i$.
pub open spec fn clmul(a: u128, b: u128) -> u128
    decreases a,
{
    if a == 0 {
        0
    } else {
        (if a % 2 == 1 {
            b
        } else {
            0
        }) ^ clmul(a / 2, b << 1u128)
    }
}

/// One more doubling of a shifted word.
proof fn lemma_shl_shl1(b: u128, k: u32)
    requires
        k < 127,
    ensures
        (b << (k as u128)) << 1u128 == b << ((k + 1) as u128),
{
    let kk = k as u128;
    assert((b << kk) << 1u128 == b << ((kk + 1) as u128)) by (bit_vector)
        requires
            kk < 127,
    ;
}

/// Polynomial product over $\mathbb{F}_2$ (carryless multiply).
pub fn mul(a: u128, b: u128) -> (r: u128)
    ensures
        r == clmul(a, b),
{
    let ghost a0 = a;
    let mut a = a;
    let mut r: u128 = 0;
    let mut shift: u32 = 0;
    let ghost mut bs: u128 = b;
    proof {
        lemma_deg(a);
        lemma_xor(clmul(a, b), 0, 0);
        assert(b << 0u128 == b) by (bit_vector);
    }
    while a != 0
        invariant
            shift <= 128,
            shift + poly_deg(a) < 128,
            shift < 128 ==> bs == b << (shift as u128),
            r ^ clmul(a, bs) == clmul(a0, b),
        decreases a,
    {
        proof {
            lemma_deg(a);
            lemma_low_bit(a);
            let low = if a % 2 == 1 { bs } else { 0u128 };
            lemma_xor(r, low, clmul(a / 2, bs << 1u128));
            if shift + 1 < 128 {
                lemma_shl_shl1(b, shift);
            }
        }
        if a & 1 == 1 {
            r ^= b << shift;
        }
        a >>= 1;
        shift += 1;
        proof {
            bs = bs << 1u128;
        }
    }
    proof {
        lemma_xor(r, 0, 0);
    }
    r
}


/// One step of the shift-and-add product, valid for every `a` (zero included).
proof fn lemma_clmul_unfold(a: u128, b: u128)
    ensures
        clmul(a, b) == (if a % 2 == 1 {
            b
        } else {
            0
        }) ^ clmul(a / 2, b << 1u128),
{
    if a == 0 {
        lemma_xor(0, 0, 0);
    }
}

/// The product is additive in its first factor.
pub proof fn lemma_clmul_xor(x: u128, y: u128, b: u128)
    ensures
        clmul(x ^ y, b) == clmul(x, b) ^ clmul(y, b),
    decreases x + y,
{
    assert(((x ^ y) % 2 == 1) == ((x % 2 == 1) != (y % 2 == 1)) && (x ^ y) / 2 == (x / 2) ^ (y
        / 2) && ((x ^ y) == 0 ==> x == y)) by (bit_vector);
    if x ^ y == 0 {
        lemma_xor(clmul(x, b), 0, 0);
    } else {
        lemma_clmul_xor(x / 2, y / 2, b << 1u128);
        lemma_clmul_unfold(x, b);
        lemma_clmul_unfold(y, b);
        lemma_clmul_unfold(x ^ y, b);
        let lx = if x % 2 == 1 { b } else { 0u128 };
        let ly = if y % 2 == 1 { b } else { 0u128 };
        let lxy = if (x ^ y) % 2 == 1 { b } else { 0u128 };
        assert(lxy == lx ^ ly) by {
            lemma_xor(b, 0, 0);
            lemma_xor(0, 0, 0);
        }
        let xs = clmul(x / 2, b << 1u128);
        let ys = clmul(y / 2, b << 1u128);
        let zs = clmul((x ^ y) / 2, b << 1u128);
        assert(zs == xs ^ ys ==> lxy == lx ^ ly ==> lxy ^ zs == (lx ^ xs) ^ (ly ^ ys))
            by (bit_vector);
    }
}

/// One is the unit of the product.
proof fn lemma_clmul_one(b: u128)
    ensures
        clmul(1, b) == b,
{
    lemma_clmul_unfold(1, b);
    lemma_xor(b, 0, 0);
}

/// Multiplying by the monomial $\tau^k$ is a shift by `k`.
pub proof fn lemma_clmul_monomial(k: u32, b: u128)
    requires
        k < 128,
    ensures
        clmul(1u128 << (k as u128), b) == b << (k as u128),
    decreases k,
{
    let kk = k as u128;
    if k == 0 {
        assert(1u128 << 0u128 == 1 && b << 0u128 == b && b ^ 0 == b) by (bit_vector);
        assert(clmul(1, b) == b ^ clmul(0, b << 1u128));
    } else {
        assert((1u128 << kk) % 2 == 0 && (1u128 << kk) / 2 == 1u128 << ((kk - 1) as u128)
            && (b << 1u128) << ((kk - 1) as u128) == b << kk) by (bit_vector)
            requires
                0 < kk < 128,
        ;
        lemma_clmul_monomial((k - 1) as u32, b << 1u128);
        lemma_clmul_unfold(1u128 << kk, b);
        lemma_xor(clmul((1u128 << kk) / 2, b << 1u128), 0, 0);
    }
}

/// A word vanishing above bit `d` has degree below `d`.
proof fn lemma_deg_below(x: u128, d: int)
    requires
        0 <= d < 128,
        x >> (d as u128) == 0,
    ensures
        poly_deg(x) < d,
{
    lemma_deg(x);
    let e = poly_deg(x);
    if e >= d {
        let dd = d as u128;
        let ee = e as u128;
        assert(x >> dd == 0 ==> dd <= ee < 128 ==> x >> ee == 0) by (bit_vector);
    }
}

/// A word whose bits from `e` on read `1` has degree `e`.
proof fn lemma_deg_exact(a: u128, e: int)
    requires
        0 <= e < 128,
        a >> (e as u128) == 1,
    ensures
        poly_deg(a) == e,
{
    lemma_deg(a);
    let d = poly_deg(a);
    assert(a != 0) by {
        let ee = e as u128;
        assert(a == 0 ==> a >> ee == 0) by (bit_vector);
    }
    let dd = d as u128;
    let ee = e as u128;
    assert(a >> dd == 1 && a >> ee == 1 && dd < 128 && ee < 128 ==> dd == ee) by (bit_vector);
}

/// The sum of two polynomials of degree at most `k` has degree at most `k`.
proof fn lemma_deg_xor_le(x: u128, y: u128, k: int)
    requires
        0 <= k < 128,
        poly_deg(x) <= k,
        poly_deg(y) <= k,
    ensures
        poly_deg(x ^ y) <= k,
{
    lemma_deg(x);
    lemma_deg(y);
    lemma_deg(x ^ y);
    if k < 127 {
        let kk = (k + 1) as u128;
        assert(x >> kk == 0) by {
            if x != 0 {
                let ex = poly_deg(x) as u128;
                assert(x >> ex == 1 && ex < kk && kk < 128 ==> x >> kk == 0) by (bit_vector);
            } else {
                assert(x == 0 ==> x >> kk == 0) by (bit_vector);
            }
        }
        assert(y >> kk == 0) by {
            if y != 0 {
                let ey = poly_deg(y) as u128;
                assert(y >> ey == 1 && ey < kk && kk < 128 ==> y >> kk == 0) by (bit_vector);
            } else {
                assert(y == 0 ==> y >> kk == 0) by (bit_vector);
            }
        }
        assert(x >> kk == 0 && y >> kk == 0 ==> (x ^ y) >> kk == 0) by (bit_vector);
        lemma_deg_below(x ^ y, k + 1);
    }
}

/// Without overflow the degree of a product is the sum of the degrees.
pub proof fn lemma_clmul_deg(x: u128, b: u128)
    requires
        x != 0,
        b != 0,
        poly_deg(x) + poly_deg(b) <= 127,
    ensures
        poly_deg(clmul(x, b)) == poly_deg(x) + poly_deg(b),
    decreases x,
{
    lemma_deg(x);
    lemma_deg(b);
    lemma_clmul_unfold(x, b);
    let dx = poly_deg(x) as u128;
    let db = poly_deg(b) as u128;
    let low = if x % 2 == 1 {
        b
    } else {
        0u128
    };
    if x == 1 {
        lemma_xor(b, 0, 0);
        assert(clmul(0, b << 1u128) == 0);
        assert(1u128 >> 0u128 == 1) by (bit_vector);
        lemma_deg_exact(1, 0);
    } else {
        assert(x >> dx == 1 && x != 1 ==> dx >= 1 && (x / 2) >> ((dx - 1) as u128) == 1 && x / 2
            != 0) by (bit_vector);
        lemma_deg_exact(x / 2, poly_deg(x) - 1);
        assert(b >> db == 1 && db < 127 ==> (b << 1u128) >> ((db + 1) as u128) == 1) by (bit_vector);
        lemma_deg_exact(b << 1u128, poly_deg(b) + 1);
        lemma_clmul_deg(x / 2, b << 1u128);
        let rest = clmul(x / 2, b << 1u128);
        let d = (dx + db) as u128;
        lemma_deg(rest);
        assert(low >> d == 0) by {
            if x % 2 == 1 {
                assert(b >> db == 1 && db < d && d < 128 ==> b >> d == 0) by (bit_vector);
            } else {
                assert(0u128 >> d == 0) by (bit_vector);
            }
        }
        assert(low >> d == 0 && rest >> d == 1 ==> (low ^ rest) >> d == 1) by (bit_vector);
        lemma_deg_exact(low ^ rest, poly_deg(x) + poly_deg(b));
    }
}

/// The quotient of the division with remainder is unique: two quotients of `a` by `b` of
/// degree at most `deg a - deg b` that both leave a remainder of degree below `deg b` are equal.
pub proof fn lemma_quotient_unique(a: u128, b: u128, q1: u128, q2: u128)
    requires
        b != 0,
        poly_deg(a ^ clmul(q1, b)) < poly_deg(b),
        poly_deg(a ^ clmul(q2, b)) < poly_deg(b),
        q1 == 0 || poly_deg(q1) <= poly_deg(a) - poly_deg(b),
        q2 == 0 || poly_deg(q2) <= poly_deg(a) - poly_deg(b),
    ensures
        q1 == q2,
{
    lemma_deg(a);
    lemma_deg(b);
    lemma_deg(q1);
    lemma_deg(q2);
    let r1 = a ^ clmul(q1, b);
    let r2 = a ^ clmul(q2, b);
    lemma_clmul_xor(q1, q2, b);
    let x = q1 ^ q2;
    assert(r1 ^ r2 == clmul(q1, b) ^ clmul(q2, b)) by {
        let c1 = clmul(q1, b);
        let c2 = clmul(q2, b);
        assert((a ^ c1) ^ (a ^ c2) == c1 ^ c2) by (bit_vector);
    }
    lemma_deg(r1);
    lemma_deg(r2);
    if poly_deg(b) == 0 {
        assert(r1 == 0 && r2 == 0);
        assert(r1 ^ r2 == 0) by (bit_vector)
            requires
                r1 == 0,
                r2 == 0,
        ;
    } else {
        lemma_deg_xor_le(r1, r2, poly_deg(b) - 1);
    }
    lemma_deg(r1 ^ r2);
    if x != 0 {
        assert(q1 != q2) by {
            lemma_xor(q1, 0, 0);
        }
        let k = poly_deg(a) - poly_deg(b);
        assert(k >= 0) by {
            if q1 != 0 {
            } else {
                assert(q2 != 0);
            }
        }
        lemma_deg_xor_le(q1, q2, k);
        lemma_deg(x);
        lemma_clmul_deg(x, b);
        assert(clmul(x, b) == r1 ^ r2);
        assert(false);
    } else {
        assert(q1 ^ q2 == 0 ==> q1 == q2) by (bit_vector);
    }
}

/// Doubling zero gives zero.
proof fn lemma_shl_zero()
    ensures
        0u128 << 1u128 == 0,
{
    assert(0u128 << 1u128 == 0) by (bit_vector);
}

/// Shifting the second factor shifts the product.
proof fn lemma_clmul_shl_right(a: u128, b: u128)
    ensures
        clmul(a, b << 1u128) == clmul(a, b) << 1u128,
    decreases a,
{
    if a == 0 {
        lemma_shl_zero();
    } else {
        lemma_clmul_unfold(a, b << 1u128);
        lemma_clmul_unfold(a, b);
        lemma_clmul_shl_right(a / 2, b << 1u128);
        let low = if a % 2 == 1 {
            b
        } else {
            0u128
        };
        let rest = clmul(a / 2, b << 1u128);
        assert((low ^ rest) << 1u128 == (low << 1u128) ^ (rest << 1u128)) by (bit_vector);
        lemma_shl_zero();
    }
}

/// The top bit of the first factor contributes nothing to a product with a doubled word.
proof fn lemma_clmul_drop_top(b: u128, d: u128)
    ensures
        clmul(b, d << 1u128) == clmul(b & 0x7fff_ffff_ffff_ffff_ffff_ffff_ffff_ffffu128, d << 1u128),
{
    let low = b & 0x7fff_ffff_ffff_ffff_ffff_ffff_ffff_ffffu128;
    let top = b & 0x8000_0000_0000_0000_0000_0000_0000_0000u128;
    assert(b == low ^ top) by (bit_vector)
        requires
            low == b & 0x7fff_ffff_ffff_ffff_ffff_ffff_ffff_ffffu128,
            top == b & 0x8000_0000_0000_0000_0000_0000_0000_0000u128,
    ;
    lemma_clmul_xor(low, top, d << 1u128);
    if top == 0 {
        assert(clmul(0, d << 1u128) == 0);
        lemma_xor(clmul(low, d << 1u128), 0, 0);
    } else {
        assert(top == 1u128 << 127u128) by (bit_vector)
            requires
                top == b & 0x8000_0000_0000_0000_0000_0000_0000_0000u128,
                top != 0,
        ;
        lemma_clmul_monomial(127, d << 1u128);
        assert((d << 1u128) << 127u128 == 0) by (bit_vector);
        lemma_xor(clmul(low, d << 1u128), 0, 0);
    }
}

/// Shifting the first factor shifts the product.
proof fn lemma_clmul_shl_left(b: u128, c: u128)
    ensures
        clmul(b << 1u128, c) == clmul(b, c) << 1u128,
{
    let b2 = b << 1u128;
    lemma_clmul_unfold(b2, c);
    assert(b2 % 2 == 0 && b2 / 2 == b & 0x7fff_ffff_ffff_ffff_ffff_ffff_ffff_ffffu128) by (bit_vector)
        requires
            b2 == b << 1u128,
    ;
    lemma_xor(clmul(b2 / 2, c << 1u128), 0, 0);
    assert(0u128 ^ clmul(b2 / 2, c << 1u128) == clmul(b2 / 2, c << 1u128));
    lemma_clmul_drop_top(b, c);
    lemma_clmul_shl_right(b, c);
}

/// The product is associative (modulo $\tau^{128}$, as words hold it).
pub proof fn lemma_clmul_assoc(a: u128, b: u128, c: u128)
    ensures
        clmul(clmul(a, b), c) == clmul(a, clmul(b, c)),
    decreases a,
{
    if a == 0 {
        assert(clmul(0, b) == 0);
        assert(clmul(0, c) == 0);
    } else {
        lemma_clmul_unfold(a, b);
        lemma_clmul_unfold(a, clmul(b, c));
        let low = if a % 2 == 1 {
            b
        } else {
            0u128
        };
        lemma_clmul_xor(low, clmul(a / 2, b << 1u128), c);
        lemma_clmul_assoc(a / 2, b << 1u128, c);
        lemma_clmul_shl_left(b, c);
        if a % 2 == 1 {
        } else {
            assert(clmul(0, c) == 0);
        }
    }
}

/// The product distributes over sums in its second factor.
pub proof fn lemma_clmul_xor_right(a: u128, x: u128, y: u128)
    ensures
        clmul(a, x ^ y) == clmul(a, x) ^ clmul(a, y),
    decreases a,
{
    if a == 0 {
        lemma_xor(0, 0, 0);
    } else {
        lemma_clmul_unfold(a, x ^ y);
        lemma_clmul_unfold(a, x);
        lemma_clmul_unfold(a, y);
        assert((x ^ y) << 1u128 == (x << 1u128) ^ (y << 1u128)) by (bit_vector);
        lemma_clmul_xor_right(a / 2, x << 1u128, y << 1u128);
        let cx = clmul(a / 2, x << 1u128);
        let cy = clmul(a / 2, y << 1u128);
        if a % 2 == 1 {
            assert((x ^ y) ^ (cx ^ cy) == (x ^ cx) ^ (y ^ cy)) by (bit_vector);
        } else {
            assert(0u128 ^ (cx ^ cy) == (0u128 ^ cx) ^ (0u128 ^ cy)) by (bit_vector);
        }
    }
}

/// One is a unit on the right too.
proof fn lemma_clmul_one_right(b: u128)
    ensures
        clmul(b, 1) == b,
    decreases b,
{
    if b != 0 {
        lemma_clmul_unfold(b, 1);
        lemma_clmul_one_right(b / 2);
        assert(1u128 << 1u128 == 2) by (bit_vector);
        lemma_clmul_shl_right(b / 2, 1);
        let h = b / 2;
        assert((b % 2 == 1 ==> 1u128 ^ (h << 1u128) == b) && (b % 2 == 0 ==> 0u128 ^ (h << 1u128)
            == b)) by (bit_vector)
            requires
                h == b / 2,
        ;
    }
}

/// The product is commutative.
pub proof fn lemma_clmul_comm(a: u128, b: u128)
    ensures
        clmul(a, b) == clmul(b, a),
    decreases a,
{
    if a == 0 {
        lemma_clmul_zero(b);
    } else {
        let h = a / 2;
        lemma_clmul_unfold(a, b);
        lemma_clmul_shl_right(h, b);
        lemma_clmul_comm(h, b);
        let lo: u128 = if a % 2 == 1 {
            1
        } else {
            0
        };
        assert(a == (h << 1u128) ^ lo) by (bit_vector)
            requires
                h == a / 2,
                lo == (if a % 2 == 1 {
                    1u128
                } else {
                    0u128
                }),
        ;
        lemma_clmul_xor_right(b, h << 1u128, lo);
        lemma_clmul_shl_right(b, h);
        if a % 2 == 1 {
            lemma_clmul_one_right(b);
        } else {
            lemma_clmul_zero(b);
        }
        let t = clmul(b, h) << 1u128;
        let l = if a % 2 == 1 {
            b
        } else {
            0u128
        };
        lemma_xor(l, t, 0);
    }
}

/// `d` divides `x`: `x` is a multiple of `d`.
pub open spec fn divides(d: u128, x: u128) -> bool {
    exists|q: u128| #[trigger] clmul(q, d) == x
}

/// Multiples of `d` are closed under adding multiples of multiples of `d`.
proof fn lemma_divides_combination(d: u128, x: u128, y: u128, q: u128)
    requires
        divides(d, x),
        divides(d, y),
    ensures
        divides(d, x ^ clmul(q, y)),
{
    let qx = choose|k: u128| #[trigger] clmul(k, d) == x;
    let qy = choose|k: u128| #[trigger] clmul(k, d) == y;
    lemma_clmul_assoc(q, qy, d);
    lemma_clmul_xor(qx, clmul(q, qy), d);
    assert(clmul(qx ^ clmul(q, qy), d) == x ^ clmul(q, y));
}

/// `op`, applied to `m`, is a swap of rows or a division step: it subtracts from row `i` the
/// multiple of row `r` by the quotient of their entries in a column before which row `r`
/// vanishes, so that the entry of row `i` there falls below the degree of the entry of row `r`.
/// The quotient has no more degree than the two entries' degrees allow, so its product with
/// the entry of row `r` stays within a word: it is the quotient over $\mathbb{F}_2[\tau]$.
pub open spec fn division_step(m: Seq<Seq<u128>>, op: MatrixOp) -> bool {
    match op {
        MatrixOp::SwapRows(_, _) => true,
        MatrixOp::AddRow(i, q, r) => exists|col: int|
            #![trigger m[r as int][col]]
            {
                &&& 0 <= col < m[r as int].len()
                &&& col < m[i as int].len()
                &&& m[r as int][col] != 0
                &&& (forall|j: int| 0 <= j < col ==> #[trigger] m[r as int][j] == 0)
                &&& poly_deg(m[i as int][col] ^ clmul(q, m[r as int][col])) < poly_deg(
                    m[r as int][col],
                )
                &&& q != 0 ==> poly_deg(q) + poly_deg(m[r as int][col]) <= poly_deg(m[i as int][col])
            },
        _ => false,
    }
}

/// Each operation of `ops`, in turn, is a division step on the matrix the earlier ones left.
pub open spec fn division_steps(m: Seq<Seq<u128>>, ops: Seq<MatrixOp>) -> bool
    decreases ops.len(),
{
    ops.len() == 0 || (division_steps(m, ops.drop_last()) && division_step(
        apply_ops(m, ops.drop_last()),
        ops.last(),
    ))
}

proof fn lemma_division_steps_push(m: Seq<Seq<u128>>, ops: Seq<MatrixOp>, op: MatrixOp)
    requires
        division_steps(m, ops),
        division_step(apply_ops(m, ops), op),
    ensures
        division_steps(m, ops.push(op)),
{
    assert(ops.push(op).drop_last() == ops);
}

/// `op`, applied to `m`, is a step of the diagonalisation: a swap of rows or of columns, the
/// addition of one row to another, or a division step on rows (see [`division_step`]) or on
/// columns: subtracting from column `j` the multiple of column `c` by the quotient of their
/// entries in a row above which column `c` vanishes, with the quotient over
/// $\mathbb{F}_2[\tau]$.
pub open spec fn smith_step(m: Seq<Seq<u128>>, op: MatrixOp) -> bool {
    match op {
        MatrixOp::SwapRows(_, _) => true,
        MatrixOp::SwapCols(_, _) => true,
        MatrixOp::AddRow(_, q, _) => q == 1 || division_step(m, op),
        MatrixOp::AddCol(j, q, c) => exists|row: int|
            #![trigger m[row][c as int]]
            {
                &&& 0 <= row < m.len()
                &&& c < m[row].len()
                &&& j < m[row].len()
                &&& m[row][c as int] != 0
                &&& (forall|k: int| 0 <= k < row ==> #[trigger] m[k][c as int] == 0)
                &&& poly_deg(m[row][j as int] ^ clmul(q, m[row][c as int])) < poly_deg(
                    m[row][c as int],
                )
                &&& q != 0 ==> poly_deg(q) + poly_deg(m[row][c as int]) <= poly_deg(m[row][j as int])
            },
    }
}

/// Each operation of `ops`, in turn, is a step of the diagonalisation on the matrix the earlier
/// ones left.
pub open spec fn smith_steps(m: Seq<Seq<u128>>, ops: Seq<MatrixOp>) -> bool
    decreases ops.len(),
{
    ops.len() == 0 || (smith_steps(m, ops.drop_last()) && smith_step(
        apply_ops(m, ops.drop_last()),
        ops.last(),
    ))
}

proof fn lemma_smith_steps_push(m: Seq<Seq<u128>>, ops: Seq<MatrixOp>, op: MatrixOp)
    requires
        smith_steps(m, ops),
        smith_step(apply_ops(m, ops), op),
    ensures
        smith_steps(m, ops.push(op)),
{
    assert(ops.push(op).drop_last() == ops);
}

/// Each operation of `ops` acts on the first `n` rows and the row below them: it swaps two of
/// the first `n` rows, or adds to one of the first `n + 1` rows a multiple of one of the first
/// `n`. Row `n` is never swapped and never added to another row.
pub open spec fn from_rows(ops: Seq<MatrixOp>, n: nat) -> bool {
    forall|k: int|
        0 <= k < ops.len() ==> match #[trigger] ops[k] {
            MatrixOp::SwapRows(a, b) => a < n && b < n,
            MatrixOp::AddRow(i, _, r) => i <= n && r < n,
            _ => false,
        }
}

proof fn lemma_from_rows_push(ops: Seq<MatrixOp>, op: MatrixOp, n: nat)
    requires
        from_rows(ops, n),
        from_rows(seq![op], n),
    ensures
        from_rows(ops.push(op), n),
{
    assert forall|k: int| 0 <= k < ops.len() + 1 implies match #[trigger] ops.push(op)[k] {
        MatrixOp::SwapRows(a, b) => a < n && b < n,
        MatrixOp::AddRow(i, _, r) => i <= n && r < n,
        _ => false,
    } by {
        if k == ops.len() {
            assert(seq![op][0] == op);
        } else {
            assert(ops.push(op)[k] == ops[k]);
        }
    }
}

/// `rem` is what division steps make of `target` against `rows`: with `target` set below the
/// rows as one more row, swaps among the rows and division steps against them (see
/// [`division_step`] and [`from_rows`]) bring the rows to an echelon form against which the
/// last row, now `rem`, is reduced.
pub open spec fn reduces_to(rows: Seq<Seq<u128>>, target: Seq<u128>, rem: Seq<u128>) -> bool {
    exists|ops: Seq<MatrixOp>, pcols: Seq<int>|
        #[trigger] reduced_against(
            apply_ops(rows.push(target), ops).take(rows.len() as int),
            pcols,
            rem,
        ) && apply_ops(rows.push(target), ops)[rows.len() as int] == rem && from_rows(
            ops,
            rows.len(),
        ) && division_steps(rows.push(target), ops)
}

/// A swap of two rows above the last leaves the last row in place.
proof fn lemma_push_swap_rows(c: Seq<Seq<u128>>, t: Seq<u128>, a: usize, b: usize)
    requires
        a < c.len(),
        b < c.len(),
    ensures
        apply_op(c.push(t), MatrixOp::SwapRows(a, b)) == apply_op(c, MatrixOp::SwapRows(a, b)).push(t),
{
    assert(apply_op(c.push(t), MatrixOp::SwapRows(a, b)) =~= apply_op(c, MatrixOp::SwapRows(a, b)).push(t));
}

/// Adding a multiple of one row above the last to another leaves the last row in place.
proof fn lemma_push_add_row(c: Seq<Seq<u128>>, t: Seq<u128>, i: usize, q: u128, r: usize)
    requires
        i < c.len(),
        r < c.len(),
    ensures
        apply_op(c.push(t), MatrixOp::AddRow(i, q, r)) == apply_op(c, MatrixOp::AddRow(i, q, r)).push(t),
{
    assert(apply_op(c.push(t), MatrixOp::AddRow(i, q, r)) =~= apply_op(c, MatrixOp::AddRow(i, q, r)).push(t));
}

/// Adding a multiple of one of the rows above to the last row.
proof fn lemma_push_add_last(c: Seq<Seq<u128>>, t: Seq<u128>, q: u128, r: usize)
    requires
        r < c.len(),
        c.len() <= usize::MAX,
    ensures
        apply_op(c.push(t), MatrixOp::AddRow(c.len() as usize, q, r)) == c.push(vxor(t, vscale(q, c[r as int]))),
{
    let m = c.push(t);
    assert(m[c.len() as int] == t);
    assert(m[r as int] == c[r as int]);
    assert(apply_op(m, MatrixOp::AddRow(c.len() as usize, q, r)) =~= c.push(vxor(t, vscale(q, c[r as int]))));
}

/// Entry `j` of the combination of the first `n` rows of `m` with the coefficients `c`: the
/// sum of `c[k]` times `m[k][j]` over `k < n`.
pub open spec fn combination_entry(c: Seq<u128>, m: Seq<Seq<u128>>, j: int, n: int) -> u128
    decreases n,
{
    if n <= 0 {
        0
    } else {
        combination_entry(c, m, j, n - 1) ^ clmul(c[n - 1], m[n - 1][j])
    }
}

/// The combination of the rows of `m` with the coefficients `c`, one per row, over its first
/// `len` columns.
pub open spec fn combine(c: Seq<u128>, m: Seq<Seq<u128>>, len: nat) -> Seq<u128> {
    Seq::new(len, |j: int| combination_entry(c, m, j, m.len() as int))
}

/// Each product of a coefficient with an entry of its row stays within a word: the
/// combination is the one over $\mathbb{F}_2[\tau]$.
pub open spec fn combination_fits(c: Seq<u128>, m: Seq<Seq<u128>>) -> bool {
    forall|k: int, j: int|
        0 <= k < m.len() && 0 <= j < m[k].len() ==> #[trigger] product_fits(c[k], m[k][j])
}

/// A combination entry in which at most the term of row `k0` survives.
proof fn lemma_combination_entry_single(c: Seq<u128>, m: Seq<Seq<u128>>, j: int, n: int, k0: int)
    requires
        forall|k: int| 0 <= k < n && k != k0 ==> #[trigger] c[k] == 0 || m[k][j] == 0,
    ensures
        0 <= k0 < n ==> combination_entry(c, m, j, n) == clmul(c[k0], m[k0][j]),
        !(0 <= k0 < n) ==> combination_entry(c, m, j, n) == 0,
    decreases n,
{
    if n > 0 {
        lemma_combination_entry_single(c, m, j, n - 1, k0);
        let k = n - 1;
        let prev = combination_entry(c, m, j, n - 1);
        if k == k0 {
            lemma_xor(clmul(c[k0], m[k0][j]), 0, 0);
        } else {
            if c[k] == 0 {
                assert(clmul(0, m[k][j]) == 0);
            } else {
                lemma_clmul_zero(c[k]);
            }
            lemma_xor(prev, 0, 0);
        }
    }
}

/// Under a vector reduced against an echelon form and combined from its rows, the
/// coefficients of the first `n` pivot rows vanish.
proof fn lemma_leading_coefficients_vanish(
    e: Seq<Seq<u128>>,
    pcols: Seq<int>,
    c: Seq<u128>,
    v: Seq<u128>,
    n: int,
)
    requires
        reduced_against(e, pcols, v),
        forall|k: int| 0 <= k < e.len() ==> #[trigger] e[k].len() == v.len(),
        c.len() == e.len(),
        combination_fits(c, e),
        v == combine(c, e, v.len()),
        0 <= n <= pcols.len(),
    ensures
        forall|k: int| 0 <= k < n ==> #[trigger] c[k] == 0,
    decreases n,
{
    if n > 0 {
        lemma_leading_coefficients_vanish(e, pcols, c, v, n - 1);
        let k0 = n - 1;
        let pc = pcols[k0];
        assert forall|k: int| 0 <= k < e.len() && k != k0 implies #[trigger] c[k] == 0 || e[k][pc] == 0 by {
            if k < k0 {
            } else if k < pcols.len() {
                assert(pcols[k0] < pcols[k]);
            } else {
                assert(0 <= pc < e[k].len());
            }
        }
        lemma_combination_entry_single(c, e, pc, e.len() as int, k0);
        assert(v[pc] == clmul(c[k0], e[k0][pc]));
        if c[k0] != 0 {
            assert(product_fits(c[k0], e[k0][pc]));
            lemma_deg(c[k0]);
            lemma_deg(e[k0][pc]);
            lemma_clmul_deg(c[k0], e[k0][pc]);
            assert(poly_deg(v[pcols[k0]]) < poly_deg(e[k0][pcols[k0]]));
        }
    }
}

/// A vector reduced against an echelon form (see [`reduced_against`]) that is a combination
/// of the form's rows over $\mathbb{F}_2[\tau]$ is zero.
pub proof fn lemma_reduced_combination_is_zero(
    e: Seq<Seq<u128>>,
    pcols: Seq<int>,
    c: Seq<u128>,
    v: Seq<u128>,
)
    requires
        reduced_against(e, pcols, v),
        forall|k: int| 0 <= k < e.len() ==> #[trigger] e[k].len() == v.len(),
        c.len() == e.len(),
        combination_fits(c, e),
        v == combine(c, e, v.len()),
    ensures
        v == vzero(v.len()),
{
    lemma_leading_coefficients_vanish(e, pcols, c, v, pcols.len() as int);
    assert forall|j: int| 0 <= j < v.len() implies #[trigger] v[j] == vzero(v.len())[j] by {
        assert forall|k: int| 0 <= k < e.len() && k != -1 implies #[trigger] c[k] == 0 || e[k][j] == 0 by {
            if k >= pcols.len() {
                assert(j < e[k].len());
            }
        }
        lemma_combination_entry_single(c, e, j, e.len() as int, -1);
    }
    assert(v =~= vzero(v.len()));
}

/// Each coset of the span of an echelon form over $\mathbb{F}_2[\tau]$ holds at most one
/// vector reduced against the form: two reduced vectors that differ by a combination of its
/// rows are equal.
pub proof fn lemma_reduced_representative_unique(
    e: Seq<Seq<u128>>,
    pcols: Seq<int>,
    c: Seq<u128>,
    v: Seq<u128>,
    w: Seq<u128>,
)
    requires
        reduced_against(e, pcols, v),
        reduced_against(e, pcols, w),
        v.len() == w.len(),
        forall|k: int| 0 <= k < e.len() ==> #[trigger] e[k].len() == v.len(),
        c.len() == e.len(),
        combination_fits(c, e),
        vxor(v, w) == combine(c, e, v.len()),
    ensures
        v == w,
{
    let d = vxor(v, w);
    assert forall|k: int| 0 <= k < pcols.len() implies poly_deg(d[#[trigger] pcols[k]]) < poly_deg(e[k][pcols[k]]) by {
        let pc = pcols[k];
        let b = poly_deg(e[k][pc]);
        lemma_deg(v[pc]);
        lemma_deg(w[pc]);
        lemma_deg(e[k][pc]);
        if poly_deg(v[pc]) >= poly_deg(w[pc]) {
            if poly_deg(v[pc]) >= 0 {
                lemma_deg_xor_le(v[pc], w[pc], poly_deg(v[pc]));
            } else {
                lemma_xor(0, 0, 0);
            }
        } else {
            lemma_deg_xor_le(v[pc], w[pc], poly_deg(w[pc]));
        }
    }
    assert(d.len() == v.len());
    lemma_reduced_combination_is_zero(e, pcols, c, d);
    assert forall|j: int| 0 <= j < v.len() implies v[j] == w[j] by {
        assert(d[j] == vzero(v.len())[j]);
        assert(v[j] ^ w[j] == 0u128);
        lemma_xor(v[j], w[j], w[j]);
        lemma_xor(w[j], 0, 0);
    }
    assert(v =~= w);
}

/// The first `n` entries of each row.
fn truncate_rows(rows: Vec<Vec<u128>>, n: usize) -> (out: Vec<Vec<u128>>)
    requires
        forall|i: int| 0 <= i < rows.len() ==> #[trigger] rows@[i].len() >= n,
    ensures
        out@.len() == rows@.len(),
        forall|i: int| 0 <= i < rows.len() ==> #[trigger] out@[i]@ == rows@[i]@.subrange(0, n as int),
{
    let mut out: Vec<Vec<u128>> = Vec::new();
    let mut i: usize = 0;
    while i < rows.len()
        invariant
            i <= rows@.len(),
            out@.len() == i,
            forall|k: int| 0 <= k < rows.len() ==> #[trigger] rows@[k].len() >= n,
            forall|k: int| 0 <= k < i ==> #[trigger] out@[k]@ == rows@[k]@.subrange(0, n as int),
        decreases rows@.len() - i,
    {
        let mut row: Vec<u128> = Vec::new();
        let mut j: usize = 0;
        assert(rows@[i as int].len() >= n);
        while j < n
            invariant
                j <= n <= rows@[i as int]@.len(),
                i < rows@.len(),
                row@ == rows@[i as int]@.subrange(0, j as int),
            decreases n - j,
        {
            row.push(rows[i][j]);
            proof {
                assert(row@ =~= rows@[i as int]@.subrange(0, j + 1));
            }
            j += 1;
        }
        out.push(row);
        i += 1;
    }
    out
}

/// The product of `q` and `y` stays within a word: it is their product over
/// $\mathbb{F}_2[\tau]$.
pub open spec fn product_fits(q: u128, y: u128) -> bool {
    q == 0 || y == 0 || poly_deg(q) + poly_deg(y) <= 127
}

/// `d` divides `x` over $\mathbb{F}_2[\tau]$: `x` is `d` times a quotient whose product with
/// `d` stays within a word.
pub open spec fn divides_exactly(d: u128, x: u128) -> bool {
    exists|q: u128| #[trigger] clmul(q, d) == x && (q != 0 ==> poly_deg(q) + poly_deg(d) <= poly_deg(x))
}

/// Exact multiples of `d` are closed under adding a multiple of one another whose product
/// stays within a word.
proof fn lemma_divides_exactly_combination(d: u128, x: u128, y: u128, q: u128)
    requires
        divides_exactly(d, x),
        divides_exactly(d, y),
        product_fits(q, y),
    ensures
        divides_exactly(d, x ^ clmul(q, y)),
{
    let z = x ^ clmul(q, y);
    let a = choose|k: u128| #[trigger] clmul(k, d) == x && (k != 0 ==> poly_deg(k) + poly_deg(d) <= poly_deg(x));
    let b = choose|k: u128| #[trigger] clmul(k, d) == y && (k != 0 ==> poly_deg(k) + poly_deg(d) <= poly_deg(y));
    lemma_deg(x);
    lemma_deg(y);
    lemma_deg(d);
    if d == 0 {
        lemma_clmul_zero(a);
        lemma_clmul_zero(b);
        lemma_clmul_zero(q);
        lemma_xor(0, 0, 0);
        assert(clmul(0, d) == 0);
        assert(clmul(0, d) == z);
    } else {
        let qb = clmul(q, b);
        let c = a ^ qb;
        lemma_clmul_assoc(q, b, d);
        lemma_clmul_xor(a, qb, d);
        assert(clmul(c, d) == z);
        lemma_deg(a);
        lemma_deg(b);
        lemma_deg(q);
        lemma_deg(qb);
        lemma_deg(c);
        if c != 0 {
            if a != 0 {
                lemma_clmul_deg(a, d);
            }
            if q != 0 && b != 0 {
                assert(y != 0) by {
                    if y == 0 {
                        assert(poly_deg(b) + poly_deg(d) <= -1);
                    }
                }
                lemma_clmul_deg(b, d);
                lemma_clmul_deg(q, b);
                lemma_clmul_deg(qb, d);
            } else {
                if q == 0 {
                    lemma_clmul_zero(b);
                    assert(clmul(0, b) == 0);
                } else {
                    lemma_clmul_zero(q);
                }
            }
            let e = if poly_deg(a) >= poly_deg(qb) {
                poly_deg(a)
            } else {
                poly_deg(qb)
            };
            assert(a != 0 || qb != 0) by {
                if a == 0 && qb == 0 {
                    lemma_xor(0, 0, 0);
                }
            }
            assert(0 <= e);
            assert(e + poly_deg(d) <= 127);
            lemma_deg_xor_le(a, qb, e);
            lemma_clmul_deg(c, d);
        }
    }
}

/// Quotient $\lfloor a / b \rfloor$ over $\mathbb{F}_2[\tau]$ (the remainder is
/// dropped). `b` must be nonzero.
pub fn div(a: u128, b: u128) -> (q: u128)
    requires
        b != 0,
    ensures
        poly_deg(a ^ clmul(q, b)) < poly_deg(b),
        poly_deg(a) < poly_deg(b) ==> q == 0,
        poly_deg(a) >= poly_deg(b) ==> poly_deg(q) <= poly_deg(a) - poly_deg(b),
{
    let db = deg(b);
    let mut q: u128 = 0;
    let mut rem: u128 = a;
    proof {
        lemma_xor(a, 0, 0);
    }
    while deg(rem) >= db
        invariant
            db == poly_deg(b),
            0 <= db < 128,
            b >> (db as u128) == 1,
            rem == a ^ clmul(q, b),
            poly_deg(a) < db ==> q == 0,
            poly_deg(rem) <= poly_deg(a),
            poly_deg(a) >= db ==> poly_deg(q) <= poly_deg(a) - db,
        decreases poly_deg(rem) + 1,
    {
        proof {
            lemma_deg(rem);
        }
        let d = deg(rem);
        let sh = d - db;
        let ghost old_q = q;
        let ghost old_rem = rem;
        q ^= 1u128 << (sh as u32);
        rem ^= b << (sh as u32);
        proof {
            lemma_clmul_monomial(sh as u32, b);
            lemma_clmul_xor(old_q, 1u128 << (sh as u128), b);
            lemma_xor(a, clmul(old_q, b), b << (sh as u128));
            let dd = d as u128;
            let sd = sh as u128;
            let bd = db as u128;
            assert(b >> bd == 1 ==> old_rem >> dd == 1 ==> sd + bd == dd ==> dd < 128 ==> (
            old_rem ^ (b << sd)) >> dd == 0) by (bit_vector);
            assert(rem == old_rem ^ (b << sd));
            lemma_deg_below(rem, d as int);
            lemma_deg(rem);
            if poly_deg(a) < db {
                assert(old_rem == a) by {
                    lemma_xor(a, 0, 0);
                }
            } else {
                lemma_deg(a);
                assert((1u128 << sd) >> sd == 1) by (bit_vector)
                    requires
                        sd < 128,
                ;
                lemma_deg_exact(1u128 << sd, sh as int);
                lemma_deg(old_q);
                lemma_deg_xor_le(old_q, 1u128 << sd, poly_deg(a) - db);
            }
        }
    }
    q
}


/// Coefficient-wise sum of two vectors over $\mathbb{F}_2[\tau]$.
pub open spec fn vxor(u: Seq<u128>, v: Seq<u128>) -> Seq<u128> {
    Seq::new(u.len(), |j: int| u[j] ^ v[j])
}

/// The vector `v` multiplied by the scalar `q`.
pub open spec fn vscale(q: u128, v: Seq<u128>) -> Seq<u128> {
    Seq::new(v.len(), |j: int| clmul(q, v[j]))
}

/// The zero vector with `n` coordinates.
pub open spec fn vzero(n: nat) -> Seq<u128> {
    Seq::new(n, |j: int| 0u128)
}

/// A term built from the rows of a matrix by sums and scalar multiples: the elements of the
/// submodule the rows generate are exactly the values of such terms.
pub enum Combination {
    Zero,
    Row(usize),
    Sum(Box<Combination>, Box<Combination>),
    Scale(u128, Box<Combination>),
}

/// The vector (with `n` coordinates) that the combination `c` of `rows` denotes.
pub open spec fn combination_value(c: Combination, rows: Seq<Seq<u128>>, n: nat) -> Seq<u128>
    decreases c,
{
    match c {
        Combination::Zero => vzero(n),
        Combination::Row(k) => if k < rows.len() && rows[k as int].len() == n {
            rows[k as int]
        } else {
            vzero(n)
        },
        Combination::Sum(a, b) => vxor(
            combination_value(*a, rows, n),
            combination_value(*b, rows, n),
        ),
        Combination::Scale(q, a) => vscale(q, combination_value(*a, rows, n)),
    }
}

/// `v` lies in the $\mathbb{F}_2[\tau]$-submodule generated by `rows`.
pub open spec fn in_submodule(rows: Seq<Seq<u128>>, v: Seq<u128>) -> bool {
    exists|c: Combination| combination_value(c, rows, v.len()) == v
}

/// The rows of a matrix, each as a sequence of polynomials.
pub open spec fn matrix_view(m: Seq<Vec<u128>>) -> Seq<Seq<u128>> {
    Seq::new(m.len(), |i: int| m[i]@)
}

/// `dst + q * src`, coefficient by coefficient.
fn add_multiple(dst: &Vec<u128>, q: u128, src: &Vec<u128>) -> (out: Vec<u128>)
    requires
        dst.len() == src.len(),
    ensures
        out@ == vxor(dst@, vscale(q, src@)),
{
    let mut out: Vec<u128> = Vec::with_capacity(dst.len());
    let mut j: usize = 0;
    while j < dst.len()
        invariant
            j <= dst.len(),
            dst.len() == src.len(),
            out@.len() == j,
            forall|k: int| 0 <= k < j ==> out@[k] == dst@[k] ^ clmul(q, src@[k]),
        decreases dst.len() - j,
    {
        out.push(dst[j] ^ self::mul(q, src[j]));
        j += 1;
    }
    assert(out@ =~= vxor(dst@, vscale(q, src@)));
    out
}

/// Exchange two rows of a matrix.
fn swap_rows(m: &mut Vec<Vec<u128>>, a: usize, b: usize)
    requires
        a < old(m).len(),
        b < old(m).len(),
    ensures
        final(m)@ == old(m)@.update(a as int, old(m)@[b as int]).update(b as int, old(m)@[a as int]),
{
    if a != b {
        let mut tmp: Vec<u128> = Vec::new();
        m.set_and_swap(a, &mut tmp);
        m.set_and_swap(b, &mut tmp);
        m.set_and_swap(a, &mut tmp);
    } else {
        assert(m@ =~= old(m)@.update(a as int, old(m)@[b as int]).update(b as int, old(m)@[a as int]));
    }
}


/// The weight of column `col` over the first `n` rows: the sum of the degrees of its entries,
/// each raised by one so that a zero entry weighs nothing.
pub open spec fn column_weight(m: Seq<Seq<u128>>, col: int, n: int) -> int
    decreases n,
{
    if n <= 0 {
        0
    } else {
        column_weight(m, col, n - 1) + poly_deg(m[n - 1][col]) + 1
    }
}

proof fn lemma_column_weight_nonneg(m: Seq<Seq<u128>>, col: int, n: int)
    ensures
        column_weight(m, col, n) >= 0,
    decreases n,
{
    if n > 0 {
        lemma_column_weight_nonneg(m, col, n - 1);
        lemma_deg(m[n - 1][col]);
    }
}

/// Replacing one row changes the weight by the difference of the two entries' weights.
proof fn lemma_column_weight_update(
    m: Seq<Seq<u128>>,
    col: int,
    n: int,
    k: int,
    v: Seq<u128>,
)
    requires
        0 <= k < n <= m.len(),
    ensures
        column_weight(m.update(k, v), col, n) == column_weight(m, col, n) - poly_deg(m[k][col])
            + poly_deg(v[col]),
    decreases n,
{
    if n - 1 > k {
        lemma_column_weight_update(m, col, n - 1, k, v);
    } else {
        lemma_column_weight_same(m, m.update(k, v), col, n - 1);
    }
}

/// The weight only reads the first `n` entries of the column.
proof fn lemma_column_weight_same(m1: Seq<Seq<u128>>, m2: Seq<Seq<u128>>, col: int, n: int)
    requires
        n <= m1.len(),
        n <= m2.len(),
        forall|i: int| 0 <= i < n ==> m1[i][col] == m2[i][col],
    ensures
        column_weight(m1, col, n) == column_weight(m2, col, n),
    decreases n,
{
    if n > 0 {
        lemma_column_weight_same(m1, m2, col, n - 1);
    }
}

/// `(x ^ y) ^ z == (x ^ z) ^ y`.
proof fn lemma_xor_swap(x: u128, y: u128, z: u128)
    ensures
        (x ^ y) ^ z == (x ^ z) ^ y,
{
    assert((x ^ y) ^ z == (x ^ z) ^ y) by (bit_vector);
}

/// Each row of the working matrix is the recorded combination of the input rows.
pub open spec fn tracks(
    rows: Seq<Vec<u128>>,
    ds: Seq<Combination>,
    orig: Seq<Seq<u128>>,
    ncols: nat,
) -> bool {
    &&& rows.len() == ds.len()
    &&& rows.len() == orig.len()
    &&& forall|i: int| 0 <= i < rows.len() ==> #[trigger] rows[i]@.len() == ncols
    &&& forall|i: int|
        0 <= i < rows.len() ==> #[trigger] rows[i]@ == combination_value(ds[i], orig, ncols)
}

/// A zero remainder certifies membership: when the remainder that [`reduce_mod`] returns for
/// `target` is zero, `target` lies in the submodule the rows generate.
pub proof fn lemma_zero_remainder_in_submodule(
    rows: Seq<Seq<u128>>,
    target: Seq<u128>,
    result: Seq<u128>,
)
    requires
        result.len() == target.len(),
        in_submodule(rows, vxor(result, target)),
        result == vzero(target.len()),
    ensures
        in_submodule(rows, target),
{
    assert forall|j: int| 0 <= j < target.len() implies #[trigger] vxor(result, target)[j]
        == target[j] by {
        let x = target[j];
        lemma_xor(x, 0, 0);
    }
    assert(vxor(result, target) =~= target);
}

/// The rows of `m` before `r` are pivot rows in echelon form, with pivots in the columns
/// `pcols` (increasing, before `col`): each vanishes before its pivot, which is nonzero. The rows
/// from `r` on vanish before `col`.
pub open spec fn echelon_upto(m: Seq<Vec<u128>>, pcols: Seq<int>, r: int, col: int, nrows: int) -> bool {
    &&& pcols.len() == r
    &&& forall|k: int| 0 <= k < r ==> 0 <= #[trigger] pcols[k] < col
    &&& forall|a: int, b: int| 0 <= a < b < r ==> #[trigger] pcols[a] < #[trigger] pcols[b]
    &&& forall|k: int| 0 <= k < r ==> #[trigger] m[k]@[pcols[k]] != 0
    &&& forall|k: int, j: int| 0 <= k < r && 0 <= j < pcols[k] ==> #[trigger] m[k]@[j] == 0
    &&& forall|i: int, j: int| r <= i < nrows && 0 <= j < col ==> #[trigger] m[i]@[j] == 0
}

/// Each pivot column of `t` is reduced below the degree of its pivot.
pub open spec fn reduced_at(t: Seq<u128>, m: Seq<Vec<u128>>, pcols: Seq<int>) -> bool {
    forall|k: int|
        0 <= k < pcols.len() ==> poly_deg(t[#[trigger] pcols[k]]) < poly_deg(m[k]@[pcols[k]])
}

/// `v` is reduced against the echelon form `e`: the rows of `e` before `pcols.len()` vanish
/// before their pivots, in the increasing columns `pcols`, and the pivots are nonzero; the other
/// rows vanish; each pivot column of `v` has degree below its pivot.
pub open spec fn reduced_against(e: Seq<Seq<u128>>, pcols: Seq<int>, v: Seq<u128>) -> bool {
    &&& pcols.len() <= e.len()
    &&& forall|a: int, b: int|
        0 <= a < b < pcols.len() ==> #[trigger] pcols[a] < #[trigger] pcols[b]
    &&& forall|k: int|
        0 <= k < pcols.len() ==> 0 <= #[trigger] pcols[k] < v.len() && pcols[k] < e[k].len()
            && e[k][pcols[k]] != 0
    &&& forall|k: int, j: int| 0 <= k < pcols.len() && 0 <= j < pcols[k] ==> #[trigger] e[k][j] == 0
    &&& forall|i: int, j: int| pcols.len() <= i < e.len() && 0 <= j < e[i].len() ==> #[trigger] e[i][j] == 0
    &&& forall|k: int| 0 <= k < pcols.len() ==> poly_deg(v[#[trigger] pcols[k]]) < poly_deg(e[k][pcols[k]])
}

proof fn lemma_echelon_swap(
    before: Seq<Vec<u128>>,
    after: Seq<Vec<u128>>,
    pcols: Seq<int>,
    r: int,
    pi: int,
    col: int,
    nrows: int,
)
    requires
        nrows == before.len(),
        0 <= r <= pi < nrows,
        after == before.update(r, before[pi]).update(pi, before[r]),
        echelon_upto(before, pcols, r, col, nrows),
    ensures
        echelon_upto(after, pcols, r, col, nrows),
        forall|k: int| 0 <= k < r ==> #[trigger] after[k] == before[k],
{
    assert forall|k: int| 0 <= k < r implies #[trigger] after[k] == before[k] by {}
    assert forall|i: int, j: int| r <= i < nrows && 0 <= j < col implies #[trigger] after[i]@[j] == 0 by {
        if i == pi {
            assert(before[r]@[j] == 0);
        } else if i == r {
            assert(before[pi]@[j] == 0);
        } else {
            assert(before[i]@[j] == 0);
        }
    }
    assert forall|k: int, j: int| 0 <= k < r && 0 <= j < pcols[k] implies #[trigger] after[k]@[j] == 0 by {
        assert(before[k]@[j] == 0);
    }
    assert forall|k: int| 0 <= k < r implies #[trigger] after[k]@[pcols[k]] != 0 by {
        assert(before[k]@[pcols[k]] != 0);
    }
}

proof fn lemma_echelon_add_row(
    old: Seq<Vec<u128>>,
    new: Seq<Vec<u128>>,
    pcols: Seq<int>,
    i0: int,
    q: u128,
    r: int,
    col: int,
    nrows: int,
    ncols: int,
)
    requires
        nrows == old.len(),
        new.len() == old.len(),
        0 <= r < nrows,
        0 <= i0 < nrows,
        i0 != r,
        col < ncols,
        forall|k: int| 0 <= k < nrows ==> #[trigger] old[k]@.len() >= ncols,
        forall|k: int| 0 <= k < old.len() && k != i0 ==> #[trigger] new[k] == old[k],
        forall|j: int|
            0 <= j < ncols ==> #[trigger] new[i0]@[j] == old[i0]@[j] ^ clmul(q, old[r]@[j]),
        echelon_upto(old, pcols, r, col, nrows),
    ensures
        echelon_upto(new, pcols, r, col, nrows),
        forall|k: int| 0 <= k < r ==> #[trigger] new[k]@[pcols[k]] == old[k]@[pcols[k]],
{
    lemma_clmul_zero(q);
    assert forall|j: int| 0 <= j < col implies #[trigger] new[i0]@[j] == old[i0]@[j] by {
        assert(old[r]@[j] == 0);
        lemma_xor(old[i0]@[j], 0, 0);
    }
    assert forall|k: int| 0 <= k < r implies #[trigger] new[k]@[pcols[k]] == old[k]@[pcols[k]] by {
        if k == i0 {
            assert(pcols[k] < col);
        }
    }
    assert forall|k: int, j: int| 0 <= k < r && 0 <= j < pcols[k] implies #[trigger] new[k]@[j] == 0 by {
        assert(old[k]@[j] == 0);
        if k == i0 {
            assert(j < col);
        }
    }
    assert forall|i: int, j: int| r <= i < nrows && 0 <= j < col implies #[trigger] new[i]@[j] == 0 by {
        assert(old[i]@[j] == 0);
    }
    assert forall|k: int| 0 <= k < r implies #[trigger] new[k]@[pcols[k]] != 0 by {
        assert(old[k]@[pcols[k]] != 0);
    }
}

proof fn lemma_reduced_at_rows_same(t: Seq<u128>, old: Seq<Vec<u128>>, new: Seq<Vec<u128>>, pcols: Seq<int>)
    requires
        reduced_at(t, old, pcols),
        forall|k: int| 0 <= k < pcols.len() ==> #[trigger] new[k]@[pcols[k]] == old[k]@[pcols[k]],
    ensures
        reduced_at(t, new, pcols),
{
    assert forall|k: int| 0 <= k < pcols.len() implies poly_deg(t[#[trigger] pcols[k]]) < poly_deg(new[k]@[pcols[k]]) by {
        assert(new[k]@[pcols[k]] == old[k]@[pcols[k]]);
    }
}

proof fn lemma_new_pivot(m: Seq<Vec<u128>>, pcols: Seq<int>, r: int, col: int, nrows: int)
    requires
        echelon_upto(m, pcols, r, col, nrows),
        0 <= r < nrows,
        0 <= col,
        m[r]@[col] != 0,
        forall|i: int| r < i < nrows ==> #[trigger] m[i]@[col] == 0,
    ensures
        echelon_upto(m, pcols.push(col), r + 1, col + 1, nrows),
{
    let pc = pcols.push(col);
    assert forall|k: int| 0 <= k < r + 1 implies 0 <= #[trigger] pc[k] < col + 1 by {
        if k < r {
            assert(pc[k] == pcols[k]);
            assert(0 <= pcols[k] < col);
        } else {
            assert(pc[k] == col);
        }
    }
    assert forall|a: int, b: int| 0 <= a < b < r + 1 implies #[trigger] pc[a] < #[trigger] pc[b] by {
        assert(pc[a] == pcols[a]);
        if b < r {
            assert(pc[b] == pcols[b]);
        }
    }
    assert forall|k: int| 0 <= k < r + 1 implies #[trigger] m[k]@[pc[k]] != 0 by {
        if k < r {
            assert(pc[k] == pcols[k]);
        }
    }
    assert forall|k: int, j: int| 0 <= k < r + 1 && 0 <= j < pc[k] implies #[trigger] m[k]@[j] == 0 by {
        if k < r {
            assert(pc[k] == pcols[k]);
        }
    }
    assert forall|i: int, j: int| r + 1 <= i < nrows && 0 <= j < col + 1 implies #[trigger] m[i]@[j] == 0 by {
        if j < col {
        }
    }
}

proof fn lemma_no_pivot(m: Seq<Vec<u128>>, pcols: Seq<int>, r: int, col: int, nrows: int)
    requires
        echelon_upto(m, pcols, r, col, nrows),
        forall|i: int| r <= i < nrows ==> #[trigger] m[i]@[col] == 0,
    ensures
        echelon_upto(m, pcols, r, col + 1, nrows),
{
    assert forall|i: int, j: int| r <= i < nrows && 0 <= j < col + 1 implies #[trigger] m[i]@[j] == 0 by {
        if j < col {
        }
    }
}

proof fn lemma_reduced_new_pivot(
    t0: Seq<u128>,
    t1: Seq<u128>,
    m: Seq<Vec<u128>>,
    pcols: Seq<int>,
    r: int,
    col: int,
    nrows: int,
    q: u128,
)
    requires
        reduced_at(t0, m, pcols),
        echelon_upto(m, pcols, r, col, nrows),
        0 <= r < nrows,
        0 <= col < t0.len(),
        t1 == t0 || t1 == vxor(t0, vscale(q, m[r]@)),
        m[r]@.len() == t0.len(),
        poly_deg(t1[col]) < poly_deg(m[r]@[col]),
    ensures
        reduced_at(t1, m, pcols.push(col)),
{
    let pc = pcols.push(col);
    lemma_clmul_zero(q);
    assert forall|k: int| 0 <= k < pc.len() implies poly_deg(t1[#[trigger] pc[k]]) < poly_deg(m[k]@[pc[k]]) by {
        if k < r {
            assert(pc[k] == pcols[k]);
            let c = pcols[k];
            assert(m[r]@[c] == 0);
            lemma_xor(t0[c], 0, 0);
            assert(t1[c] == t0[c]);
        }
    }
}

/// Reduce the vector `target` modulo the $\mathbb{F}_2[\tau]$-submodule spanned by
/// the first `target.len()` entries of `rows`. Row-reduces `rows` to an echelon form (a
/// minimal-degree pivot per column, cleared below via Euclidean division), then reduces
/// `target` against the pivots. The returned remainder lies in the coset of `target` and is
/// what division steps against the rows make of `target` (see [`reduces_to`]): the steps have
/// the quotients over $\mathbb{F}_2[\tau]$, never move `target` among the rows, and leave it
/// reduced against the echelon form they reach, below its pivot in degree at every pivot
/// column. A zero remainder always means membership; and no other vector reduced against that
/// form differs from the remainder by a combination of the form's rows over
/// $\mathbb{F}_2[\tau]$ (see [`lemma_reduced_representative_unique`]).
pub fn reduce_mod(rows: Vec<Vec<u128>>, target: Vec<u128>) -> (result: Vec<u128>)
    requires
        forall|i: int| 0 <= i < rows.len() ==> #[trigger] rows@[i].len() >= target.len(),
    ensures
        result.len() == target.len(),
        in_submodule(cut(rows@, target.len() as nat), vxor(result@, target@)),
        reduces_to(cut(rows@, target.len() as nat), target@, result@),
{
    let ncols = target.len();
    let nrows = rows.len();
    let ghost input = rows@;
    let rows = truncate_rows(rows, ncols);
    proof {
        assert forall|i: int| 0 <= i < rows@.len() implies #[trigger] rows@[i]@.len() == ncols && cut(rows@, ncols as nat)[i] =~= cut(input, ncols as nat)[i] by {
            assert(input[i].len() >= ncols);
            assert(rows@[i]@ == input[i]@.subrange(0, ncols as int));
            assert(rows@[i]@.subrange(0, ncols as int) =~= input[i]@.subrange(0, ncols as int));
        }
        assert(matrix_view(rows@) =~= cut(input, ncols as nat));
        assert forall|i: int| 0 <= i < rows@.len() implies #[trigger] cut(rows@, ncols as nat)[i] =~= cut(input, ncols as nat)[i] by {
            assert(rows@[i]@.len() == ncols);
        }
        assert(cut(rows@, ncols as nat) =~= cut(input, ncols as nat));
    }
    let ghost orig = matrix_view(rows@);
    let ghost t0 = target@;
    let mut rows = rows;
    let mut target = target;
    let ghost mut ds: Seq<Combination> = Seq::new(nrows as nat, |i: int| Combination::Row(i as usize));
    let ghost mut tc: Combination = Combination::Zero;
    let ghost rows0 = rows@;
    let ghost mut ops: Seq<MatrixOp> = Seq::empty();
    let ghost aug0 = cut(rows0, ncols as nat).push(t0);
    assert(from_rows(ops, nrows as nat));
    assert(division_steps(aug0, ops));
    assert(cut(rows@, ncols as nat).push(target@) == apply_ops(aug0, ops));
    let ghost mut pcols: Seq<int> = Seq::empty();
    proof {
        assert forall|j: int| 0 <= j < ncols implies #[trigger] vxor(t0, t0)[j] == vzero(ncols as nat)[j] by {
            lemma_xor(t0[j], 0, 0);
        }
        assert(vxor(target@, t0) =~= combination_value(tc, orig, ncols as nat));
        assert forall|i: int| 0 <= i < rows@.len() implies #[trigger] rows@[i]@ == combination_value(ds[i], orig, ncols as nat) by {
            assert(ds[i] == Combination::Row(i as usize));
            assert(orig[i] == rows@[i]@);
            assert(rows@[i].len() == target.len());
            assert(rows@[i]@.len() == ncols);
        }
    }
    let mut r: usize = 0;
    let mut col: usize = 0;
    while col < ncols && r < nrows
        invariant
            rows.len() == nrows,
            target.len() == ncols,
            t0.len() == ncols,
            orig.len() == nrows,
            r <= nrows,
            col <= ncols,
            tracks(rows@, ds, orig, ncols as nat),
            vxor(target@, t0) == combination_value(tc, orig, ncols as nat),
            rows0.len() == nrows,
            forall|i: int| 0 <= i < nrows ==> #[trigger] rows0[i]@.len() == ncols,
            cut(rows@, ncols as nat).push(target@) == apply_ops(aug0, ops),
                from_rows(ops, nrows as nat),
                division_steps(aug0, ops),
            echelon_upto(rows@, pcols, r as int, col as int, nrows as int),
            reduced_at(target@, rows@, pcols),
        decreases ncols - col,
    {
        loop
            invariant
                rows.len() == nrows,
                r < nrows,
                col < ncols,
                tracks(rows@, ds, orig, ncols as nat),
                rows0.len() == nrows,
                forall|i: int| 0 <= i < nrows ==> #[trigger] rows0[i]@.len() == ncols,
                cut(rows@, ncols as nat).push(target@) == apply_ops(aug0, ops),
                from_rows(ops, nrows as nat),
                division_steps(aug0, ops),
                echelon_upto(rows@, pcols, r as int, col as int, nrows as int),
                reduced_at(target@, rows@, pcols),
            ensures
                rows.len() == nrows,
                tracks(rows@, ds, orig, ncols as nat),
                cut(rows@, ncols as nat).push(target@) == apply_ops(aug0, ops),
                from_rows(ops, nrows as nat),
                division_steps(aug0, ops),
                echelon_upto(rows@, pcols, r as int, col as int, nrows as int),
                reduced_at(target@, rows@, pcols),
                forall|i: int| r < i < nrows ==> #[trigger] rows@[i]@[col as int] == 0,
                rows@[r as int]@[col as int] == 0 ==> forall|i: int|
                    r <= i < nrows ==> #[trigger] rows@[i]@[col as int] == 0,
            decreases column_weight(matrix_view(rows@), col as int, nrows as int),
        {
            let ghost w_head = column_weight(matrix_view(rows@), col as int, nrows as int);
            proof {
                lemma_column_weight_nonneg(matrix_view(rows@), col as int, nrows as int);
            }
            let mut piv: Option<usize> = None;
            let mut i: usize = r;
            while i < nrows
                invariant
                    r <= i <= nrows,
                    rows.len() == nrows,
                    tracks(rows@, ds, orig, ncols as nat),
                    col < ncols,
                    match piv {
                        Some(p) => r <= p < i && rows@[p as int]@[col as int] != 0 && forall|k: int|
                            r <= k < i && #[trigger] rows@[k]@[col as int] != 0 ==> poly_deg(
                                rows@[k]@[col as int],
                            ) >= poly_deg(rows@[p as int]@[col as int]),
                        None => forall|k: int| r <= k < i ==> #[trigger] rows@[k]@[col as int] == 0,
                    },
                decreases nrows - i,
            {
                let ghost old_piv = piv;
                if rows[i][col] != 0 {
                    let better = match piv {
                        None => true,
                        Some(p) => deg(rows[i][col]) < deg(rows[p][col]),
                    };
                    if better {
                        piv = Some(i);
                    }
                }
                proof {
                    match old_piv {
                        Some(p0) => {
                            match piv {
                                Some(p1) => {
                                    assert forall|k: int|
                                        r <= k < i + 1 && #[trigger] rows@[k]@[col as int] != 0 implies poly_deg(
                                        rows@[k]@[col as int],
                                    ) >= poly_deg(rows@[p1 as int]@[col as int]) by {
                                        if k < i {
                                            assert(poly_deg(rows@[k]@[col as int]) >= poly_deg(rows@[p0 as int]@[col as int]));
                                        }
                                    }
                                },
                                None => {},
                            }
                        },
                        None => {
                            match piv {
                                Some(p1) => {
                                    assert forall|k: int|
                                        r <= k < i + 1 && #[trigger] rows@[k]@[col as int] != 0 implies poly_deg(
                                        rows@[k]@[col as int],
                                    ) >= poly_deg(rows@[p1 as int]@[col as int]) by {
                                        if k < i {
                                            assert(rows@[k]@[col as int] == 0);
                                        }
                                    }
                                },
                                None => {},
                            }
                        },
                    }
                }
                i += 1;
            }
            let pi = match piv {
                Some(p) => p,
                None => break,
            };
            let ghost before = rows@;
            swap_rows(&mut rows, r, pi);
            proof {
                lemma_cut_swap_rows(before, rows@, r, pi, ncols as nat);
                lemma_push_swap_rows(cut(before, ncols as nat), target@, r, pi);
                lemma_apply_ops_push(aug0, ops, MatrixOp::SwapRows(r, pi));
                lemma_division_steps_push(aug0, ops, MatrixOp::SwapRows(r, pi));
                lemma_from_rows_push(ops, MatrixOp::SwapRows(r, pi), nrows as nat);
                ops = ops.push(MatrixOp::SwapRows(r, pi));
                lemma_echelon_swap(before, rows@, pcols, r as int, pi as int, col as int, nrows as int);
                let d0 = ds;
                ds = d0.update(r as int, d0[pi as int]).update(pi as int, d0[r as int]);
                let mv = matrix_view(before);
                lemma_column_weight_update(mv, col as int, nrows as int, r as int, mv[pi as int]);
                lemma_column_weight_update(
                    mv.update(r as int, mv[pi as int]),
                    col as int,
                    nrows as int,
                    pi as int,
                    mv[r as int],
                );
                assert(matrix_view(rows@) =~= mv.update(r as int, mv[pi as int]).update(
                    pi as int,
                    mv[r as int],
                ));
                assert(tracks(rows@, ds, orig, ncols as nat));
                assert(column_weight(matrix_view(rows@), col as int, nrows as int) == w_head);
            }
            let p = rows[r][col];
            let ghost prow = rows@[r as int];
            let ghost w_swapped = column_weight(matrix_view(rows@), col as int, nrows as int);
            let ghost rows_start = rows@;
            proof {
                // The pivot has the least degree in its column among the rows from `r` on.
                assert forall|k: int| r < k < nrows && #[trigger] rows_start[k]@[col as int] != 0 implies poly_deg(
                    rows_start[k]@[col as int],
                ) >= poly_deg(p) by {
                    if k == pi {
                        assert(rows_start[k] == before[r as int]);
                    } else {
                        assert(rows_start[k] == before[k]);
                    }
                }
            }
            let ghost ds_start = ds;
            let mut changed = false;
            let mut i: usize = 0;
            while i < nrows
                invariant
                    i <= nrows,
                    r < nrows,
                    col < ncols,
                    rows.len() == nrows,
                    p != 0,
                    rows@[r as int] == prow,
                    prow@[col as int] == p,
                    tracks(rows@, ds, orig, ncols as nat),
                    w_swapped == column_weight(matrix_view(rows_start), col as int, nrows as int),
                    changed ==> column_weight(matrix_view(rows@), col as int, nrows as int)
                        < w_swapped,
                    !changed ==> rows@ == rows_start,
                    rows0.len() == nrows,
                    forall|k: int| 0 <= k < nrows ==> #[trigger] rows0[k]@.len() == ncols,
                    cut(rows@, ncols as nat).push(target@) == apply_ops(aug0, ops),
                from_rows(ops, nrows as nat),
                division_steps(aug0, ops),
                    echelon_upto(rows@, pcols, r as int, col as int, nrows as int),
                    reduced_at(target@, rows@, pcols),
                    !changed ==> forall|k: int|
                        0 <= k < i && k != r && #[trigger] rows@[k]@[col as int] != 0 ==> poly_deg(
                            rows@[k]@[col as int],
                        ) < poly_deg(p),
                    forall|k: int| r < k < nrows && #[trigger] rows_start[k]@[col as int] != 0 ==> poly_deg(
                        rows_start[k]@[col as int],
                    ) >= poly_deg(p),
                decreases nrows - i,
            {
                if i != r && rows[i][col] != 0 {
                    let a = rows[i][col];
                    let q = div(a, p);
                    if q == 0 {
                        proof {
                            lemma_xor(a, 0, 0);
                            assert(clmul(0, p) == 0);
                        }
                    }
                    if q != 0 {
                        let new_row = add_multiple(&rows[i], q, &rows[r]);
                        let ghost old_rows = rows@;
                        rows.set(i, new_row);
                        proof {
                            assert forall|j: int| 0 <= j < old_rows[i as int]@.len() implies #[trigger] rows@[i as int]@[j] == if j < ncols {
                                old_rows[i as int]@[j] ^ clmul(q, old_rows[r as int]@[j])
                            } else {
                                old_rows[i as int]@[j]
                            } by {
                                assert(rows@[i as int]@ == vxor(old_rows[i as int]@, vscale(q, old_rows[r as int]@)));
                            }
                            assert forall|k: int| 0 <= k < old_rows.len() && k != i implies #[trigger] rows@[k] == old_rows[k] by {}
                            assert forall|k: int| 0 <= k < nrows implies #[trigger] old_rows[k]@.len() >= ncols by {
                                assert(old_rows[k]@ == combination_value(ds[k], orig, ncols as nat));
                            }
                            lemma_cut_add_row(old_rows, rows@, i, q, r, ncols as nat);
                            lemma_push_add_row(cut(old_rows, ncols as nat), target@, i, q, r);
                            lemma_apply_ops_push(aug0, ops, MatrixOp::AddRow(i, q, r));
                            let cm = cut(old_rows, ncols as nat).push(target@);
                            assert(cm[r as int][col as int] == p);
                            assert forall|j: int| 0 <= j < col implies #[trigger] cm[r as int][j] == 0 by {
                                assert(cm[r as int][j] == old_rows[r as int]@[j]);
                            }
                            assert(cm[i as int][col as int] == a);
                            assert(division_step(cm, MatrixOp::AddRow(i, q, r)));
                            lemma_division_steps_push(aug0, ops, MatrixOp::AddRow(i, q, r));
                            lemma_from_rows_push(ops, MatrixOp::AddRow(i, q, r), nrows as nat);
                            ops = ops.push(MatrixOp::AddRow(i, q, r));
                            lemma_echelon_add_row(old_rows, rows@, pcols, i as int, q, r as int, col as int, nrows as int, ncols as int);
                            lemma_reduced_at_rows_same(target@, old_rows, rows@, pcols);
                            let d0 = ds;
                            ds = d0.update(
                                i as int,
                                Combination::Sum(
                                    Box::new(d0[i as int]),
                                    Box::new(Combination::Scale(q, Box::new(d0[r as int]))),
                                ),
                            );
                            let mv = matrix_view(old_rows);
                            assert(old_rows[i as int]@ == combination_value(d0[i as int], orig, ncols as nat));
                            assert(old_rows[r as int]@ == combination_value(d0[r as int], orig, ncols as nat));
                            lemma_column_weight_update(mv, col as int, nrows as int, i as int, new_row@);
                            assert(matrix_view(rows@) =~= mv.update(i as int, new_row@));
                            assert(new_row@[col as int] == a ^ clmul(q, p));
                            let sc = Combination::Scale(q, Box::new(d0[r as int]));
                            assert(combination_value(sc, orig, ncols as nat) == vscale(q, prow@));
                            assert(rows@[i as int]@ =~= combination_value(ds[i as int], orig, ncols as nat));
                            assert(tracks(rows@, ds, orig, ncols as nat));
                        }
                        changed = true;
                    }
                }
                i += 1;
            }
            if !changed {
                proof {
                    // The pivot had the least degree in its column among the rows from `r` on,
                    // and nothing below it could be reduced: those entries are zero.
                    assert forall|k: int| r < k < nrows implies #[trigger] rows@[k]@[col as int] == 0 by {
                        if rows@[k]@[col as int] != 0 {
                            assert(poly_deg(rows@[k]@[col as int]) < poly_deg(p));
                            assert(poly_deg(rows@[k]@[col as int]) >= poly_deg(p));
                        }
                    }
                }
                break;
            }
            proof {
                lemma_column_weight_nonneg(matrix_view(rows@), col as int, nrows as int);
            }
        }
        if rows[r][col] != 0 {
            let ghost t_before = target@;
            let q = div(target[col], rows[r][col]);
            proof {
                lemma_new_pivot(rows@, pcols, r as int, col as int, nrows as int);
            }
            if q != 0 {
                let ghost old_t = target@;
                target = add_multiple(&target, q, &rows[r]);
                proof {
                    let c = cut(rows@, ncols as nat);
                    let op = MatrixOp::AddRow(nrows, q, r);
                    assert(rows@[r as int]@ == combination_value(ds[r as int], orig, ncols as nat));
                    assert(c[r as int] =~= rows@[r as int]@);
                    lemma_push_add_last(c, old_t, q, r);
                    lemma_apply_ops_push(aug0, ops, op);
                    let cm = c.push(old_t);
                    assert(cm[r as int] == rows@[r as int]@);
                    assert(cm[nrows as int] == old_t);
                    assert forall|j: int| 0 <= j < col implies #[trigger] cm[r as int][j] == 0 by {
                        assert(rows@[r as int]@[j] == 0);
                    }
                    assert(cm[r as int][col as int] != 0);
                    assert(division_step(cm, op));
                    lemma_division_steps_push(aug0, ops, op);
                    lemma_from_rows_push(ops, op, nrows as nat);
                    ops = ops.push(op);
                    assert(cut(rows@, ncols as nat).push(target@) == apply_ops(aug0, ops));
                    let old_tc = tc;
                    let rr = rows@[r as int]@;
                    assert(rr == combination_value(ds[r as int], orig, ncols as nat));
                    assert(vxor(old_t, t0) == combination_value(old_tc, orig, ncols as nat));
                    let sc = Combination::Scale(q, Box::new(ds[r as int]));
                    assert(combination_value(sc, orig, ncols as nat) == vscale(q, rr));
                    tc = Combination::Sum(
                        Box::new(old_tc),
                        Box::new(Combination::Scale(q, Box::new(ds[r as int]))),
                    );
                    assert forall|j: int| 0 <= j < ncols implies #[trigger] vxor(target@, t0)[j]
                        == combination_value(tc, orig, ncols as nat)[j] by {
                        lemma_xor_swap(old_t[j], clmul(q, rr[j]), t0[j]);
                        assert(vxor(old_t, t0)[j] == old_t[j] ^ t0[j]);
                    }
                    assert(vxor(target@, t0) =~= combination_value(tc, orig, ncols as nat));
                }
            }
            proof {
                let pr = rows@[r as int]@;
                assert(pr.len() == ncols) by {
                    assert(pr == combination_value(ds[r as int], orig, ncols as nat));
                }
                if q == 0 {
                    lemma_xor(t_before[col as int], 0, 0);
                    assert(target@ == t_before);
                } else {
                    assert(target@ == vxor(t_before, vscale(q, pr)));
                }
                assert(poly_deg(target@[col as int]) < poly_deg(pr[col as int]));
                lemma_reduced_new_pivot(t_before, target@, rows@, pcols, r as int, col as int, nrows as int, q);
                pcols = pcols.push(col as int);
            }
            r += 1;
        } else {
            proof {
                lemma_no_pivot(rows@, pcols, r as int, col as int, nrows as int);
            }
        }
        col += 1;
    }
    proof {
        let e = cut(rows@, ncols as nat);
        assert forall|k: int| 0 <= k < nrows implies #[trigger] rows@[k]@.len() == ncols by {
            assert(rows@[k]@ == combination_value(ds[k], orig, ncols as nat));
        }
        assert forall|i: int, j: int| 0 <= i < e.len() && 0 <= j < e[i].len() implies #[trigger] e[i][j] == rows@[i]@[j] by {}
        assert(reduced_against(e, pcols, target@));
        let f = apply_ops(aug0, ops);
        assert(f.take(nrows as int) =~= e);
        assert(f[nrows as int] == target@);
        assert(aug0 == cut(input, ncols as nat).push(t0));
        assert(reduced_against(apply_ops(cut(input, ncols as nat).push(t0), ops).take(nrows as int), pcols, target@));
    }
    target
}


/// Every row of `m` has at least `n` entries.
pub open spec fn wide(m: Seq<Vec<u128>>, n: nat) -> bool {
    forall|i: int| 0 <= i < m.len() ==> #[trigger] m[i]@.len() >= n
}

/// Every entry of the matrix is zero.
pub open spec fn all_zero(m: Seq<Vec<u128>>) -> bool {
    forall|i: int, j: int| 0 <= i < m.len() && 0 <= j < m[i]@.len() ==> #[trigger] m[i]@[j] == 0
}

/// The weight of the first `n` entries of a row (see [`column_weight`]).
pub open spec fn row_weight(v: Seq<u128>, n: int) -> int
    decreases n,
{
    if n <= 0 {
        0
    } else {
        row_weight(v, n - 1) + poly_deg(v[n - 1]) + 1
    }
}

proof fn lemma_row_weight_nonneg(v: Seq<u128>, n: int)
    ensures
        row_weight(v, n) >= 0,
    decreases n,
{
    if n > 0 {
        lemma_row_weight_nonneg(v, n - 1);
        lemma_deg(v[n - 1]);
    }
}

proof fn lemma_row_weight_update(v: Seq<u128>, n: int, k: int, x: u128)
    requires
        0 <= k < n <= v.len(),
    ensures
        row_weight(v.update(k, x), n) == row_weight(v, n) - poly_deg(v[k]) + poly_deg(x),
    decreases n,
{
    if n - 1 > k {
        lemma_row_weight_update(v, n - 1, k, x);
    } else {
        lemma_row_weight_same(v, v.update(k, x), n - 1);
    }
}

proof fn lemma_row_weight_same(v1: Seq<u128>, v2: Seq<u128>, n: int)
    requires
        n <= v1.len(),
        n <= v2.len(),
        forall|j: int| 0 <= j < n ==> v1[j] == v2[j],
    ensures
        row_weight(v1, n) == row_weight(v2, n),
    decreases n,
{
    if n > 0 {
        lemma_row_weight_same(v1, v2, n - 1);
    }
}

/// Exchange two columns (entries `a` and `b` of every row).
fn swap_columns(m: &mut Vec<Vec<u128>>, a: usize, b: usize, Ghost(n): Ghost<nat>)
    requires
        a < n,
        b < n,
        wide(old(m)@, n),
    ensures
        final(m)@.len() == old(m)@.len(),
        forall|i: int|
            0 <= i < old(m)@.len() ==> #[trigger] final(m)@[i]@ == old(m)@[i]@.update(
                a as int,
                old(m)@[i]@[b as int],
            ).update(b as int, old(m)@[i]@[a as int]),
{
    let mut i: usize = 0;
    while i < m.len()
        invariant
            m@.len() == old(m)@.len(),
            a < n,
            b < n,
            wide(old(m)@, n),
            forall|k: int| i <= k < m@.len() ==> #[trigger] m@[k] == old(m)@[k],
            forall|k: int|
                0 <= k < i ==> #[trigger] m@[k]@ == old(m)@[k]@.update(
                    a as int,
                    old(m)@[k]@[b as int],
                ).update(b as int, old(m)@[k]@[a as int]),
        decreases m.len() - i,
    {
        let mut row: Vec<u128> = Vec::new();
        m.set_and_swap(i, &mut row);
        let x = row[a];
        let y = row[b];
        row.set(a, y);
        row.set(b, x);
        m.set_and_swap(i, &mut row);
        i += 1;
    }
}

/// Add `q` times column `c` to column `j` (in every row).
fn add_column_multiple(m: &mut Vec<Vec<u128>>, j: usize, q: u128, c: usize, Ghost(n): Ghost<nat>)
    requires
        j < n,
        c < n,
        wide(old(m)@, n),
    ensures
        final(m)@.len() == old(m)@.len(),
        forall|i: int|
            0 <= i < old(m)@.len() ==> #[trigger] final(m)@[i]@ == old(m)@[i]@.update(
                j as int,
                old(m)@[i]@[j as int] ^ clmul(q, old(m)@[i]@[c as int]),
            ),
{
    let mut i: usize = 0;
    while i < m.len()
        invariant
            m@.len() == old(m)@.len(),
            j < n,
            c < n,
            wide(old(m)@, n),
            forall|k: int| i <= k < m@.len() ==> #[trigger] m@[k] == old(m)@[k],
            forall|k: int|
                0 <= k < i ==> #[trigger] m@[k]@ == old(m)@[k]@.update(
                    j as int,
                    old(m)@[k]@[j as int] ^ clmul(q, old(m)@[k]@[c as int]),
                ),
        decreases m.len() - i,
    {
        let mut row: Vec<u128> = Vec::new();
        m.set_and_swap(i, &mut row);
        let x = row[j] ^ self::mul(q, row[c]);
        row.set(j, x);
        m.set_and_swap(i, &mut row);
        i += 1;
    }
}

/// Add `q` times row `r` to row `i`, over the first `n` entries.
fn add_row_multiple(m: &mut Vec<Vec<u128>>, i: usize, q: u128, r: usize, n: usize)
    requires
        i < old(m)@.len(),
        r < old(m)@.len(),
        i != r,
        wide(old(m)@, n as nat),
    ensures
        final(m)@.len() == old(m)@.len(),
        forall|k: int| 0 <= k < old(m)@.len() && k != i ==> #[trigger] final(m)@[k] == old(m)@[k],
        final(m)@[i as int]@.len() == old(m)@[i as int]@.len(),
        forall|j: int|
            0 <= j < old(m)@[i as int]@.len() ==> #[trigger] final(m)@[i as int]@[j] == if j < n {
                old(m)@[i as int]@[j] ^ clmul(q, old(m)@[r as int]@[j])
            } else {
                old(m)@[i as int]@[j]
            },
{
    let mut row: Vec<u128> = Vec::new();
    m.set_and_swap(i, &mut row);
    let ghost row0 = row@;
    let mut j: usize = 0;
    while j < n
        invariant
            j <= n,
            n <= row0.len(),
            row@.len() == row0.len(),
            m@.len() == old(m)@.len(),
            r < m@.len(),
            m@[r as int] == old(m)@[r as int],
            old(m)@[r as int]@.len() >= n,
            forall|k: int| 0 <= k < j ==> #[trigger] row@[k] == row0[k] ^ clmul(q, old(m)@[r as int]@[k]),
            forall|k: int| j <= k < row0.len() ==> #[trigger] row@[k] == row0[k],
        decreases n - j,
    {
        let x = row[j] ^ self::mul(q, m[r][j]);
        row.set(j, x);
        j += 1;
    }
    m.set_and_swap(i, &mut row);
}


/// An elementary operation on a matrix over $\mathbb{F}_2[\tau]$.
pub enum MatrixOp {
    /// Exchange two rows.
    SwapRows(usize, usize),
    /// Exchange two columns.
    SwapCols(usize, usize),
    /// Add `q` times row `r` to row `i` (`i != r`).
    AddRow(usize, u128, usize),
    /// Add `q` times column `c` to column `j` (`j != c`).
    AddCol(usize, u128, usize),
}

/// The matrix after one elementary operation.
pub open spec fn apply_op(m: Seq<Seq<u128>>, op: MatrixOp) -> Seq<Seq<u128>> {
    match op {
        MatrixOp::SwapRows(a, b) => if a < m.len() && b < m.len() {
            m.update(a as int, m[b as int]).update(b as int, m[a as int])
        } else {
            m
        },
        MatrixOp::SwapCols(a, b) => Seq::new(
            m.len(),
            |i: int|
                if a < m[i].len() && b < m[i].len() {
                    m[i].update(a as int, m[i][b as int]).update(b as int, m[i][a as int])
                } else {
                    m[i]
                },
        ),
        MatrixOp::AddRow(i, q, r) => if i < m.len() && r < m.len() && i != r {
            m.update(i as int, vxor(m[i as int], vscale(q, m[r as int])))
        } else {
            m
        },
        MatrixOp::AddCol(j, q, c) => Seq::new(
            m.len(),
            |i: int|
                if j < m[i].len() && c < m[i].len() && j != c {
                    m[i].update(j as int, m[i][j as int] ^ clmul(q, m[i][c as int]))
                } else {
                    m[i]
                },
        ),
    }
}

/// The matrix after a sequence of elementary operations, first to last.
pub open spec fn apply_ops(m: Seq<Seq<u128>>, ops: Seq<MatrixOp>) -> Seq<Seq<u128>>
    decreases ops.len(),
{
    if ops.len() == 0 {
        m
    } else {
        apply_op(apply_ops(m, ops.drop_last()), ops.last())
    }
}

/// The first `n` columns of a matrix.
pub open spec fn cut(m: Seq<Vec<u128>>, n: nat) -> Seq<Seq<u128>> {
    Seq::new(m.len(), |i: int| m[i]@.subrange(0, n as int))
}

/// Every entry off the diagonal is zero.
pub open spec fn is_diagonal(d: Seq<Seq<u128>>) -> bool {
    forall|i: int, j: int|
        0 <= i < d.len() && 0 <= j < d[i].len() && i != j ==> #[trigger] d[i][j] == 0
}

/// The diagonal entries `d[k][k]`, `k < n`, of degree at least one, in order.
pub open spec fn nonunit_diagonal(d: Seq<Seq<u128>>, n: int) -> Seq<u128>
    decreases n,
{
    if n <= 0 {
        Seq::empty()
    } else if poly_deg(d[n - 1][n - 1]) >= 1 {
        nonunit_diagonal(d, n - 1).push(d[n - 1][n - 1])
    } else {
        nonunit_diagonal(d, n - 1)
    }
}

/// Each elementary operation undoes itself: applying it twice gives the matrix back, so the
/// matrices reachable from one another by elementary operations form classes.
pub proof fn lemma_op_involution(m: Seq<Seq<u128>>, op: MatrixOp)
    ensures
        apply_op(apply_op(m, op), op) == m,
{
    let m1 = apply_op(m, op);
    let m2 = apply_op(m1, op);
    match op {
        MatrixOp::SwapRows(a, b) => {
            assert(m2 =~= m);
        },
        MatrixOp::SwapCols(a, b) => {
            assert forall|i: int| 0 <= i < m.len() implies #[trigger] m2[i] == m[i] by {
                assert(m2[i] =~= m[i]);
            }
            assert(m2 =~= m);
        },
        MatrixOp::AddRow(i, q, r) => {
            if i < m.len() && r < m.len() && i != r {
                assert(m1[r as int] == m[r as int]);
                assert forall|j: int| 0 <= j < m[i as int].len() implies #[trigger] m2[i as int][j]
                    == m[i as int][j] by {
                    let x = m[i as int][j];
                    let y = vscale(q, m[r as int])[j];
                    assert(m1[i as int][j] == x ^ y);
                    assert(m2[i as int][j] == m1[i as int][j] ^ vscale(q, m1[r as int])[j]);
                    assert((x ^ y) ^ y == x) by (bit_vector);
                }
                assert(m2[i as int] =~= m[i as int]);
            }
            assert(m2 =~= m);
        },
        MatrixOp::AddCol(j, q, c) => {
            assert forall|i: int| 0 <= i < m.len() implies #[trigger] m2[i] == m[i] by {
                if j < m[i].len() && c < m[i].len() && j != c {
                    let x = m[i][j as int];
                    let y = clmul(q, m[i][c as int]);
                    assert((x ^ y) ^ y == x) by (bit_vector);
                }
                assert(m2[i] =~= m[i]);
            }
            assert(m2 =~= m);
        },
    }
}

proof fn lemma_cut_swap_rows(old: Seq<Vec<u128>>, new: Seq<Vec<u128>>, a: usize, b: usize, n: nat)
    requires
        a < old.len(),
        b < old.len(),
        new == old.update(a as int, old[b as int]).update(b as int, old[a as int]),
    ensures
        cut(new, n) == apply_op(cut(old, n), MatrixOp::SwapRows(a, b)),
{
    let l = cut(new, n);
    let r = apply_op(cut(old, n), MatrixOp::SwapRows(a, b));
    assert forall|i: int| 0 <= i < old.len() implies #[trigger] l[i] == r[i] by {
        if i == b {
        } else if i == a {
        } else {
        }
    }
    assert(l =~= r);
}

proof fn lemma_cut_swap_cols(old: Seq<Vec<u128>>, new: Seq<Vec<u128>>, a: usize, b: usize, n: nat)
    requires
        a < n,
        b < n,
        wide(old, n),
        new.len() == old.len(),
        forall|i: int|
            0 <= i < old.len() ==> #[trigger] new[i]@ == old[i]@.update(a as int, old[i]@[b as int]).update(
                b as int,
                old[i]@[a as int],
            ),
    ensures
        cut(new, n) == apply_op(cut(old, n), MatrixOp::SwapCols(a, b)),
{
    let l = cut(new, n);
    let r = apply_op(cut(old, n), MatrixOp::SwapCols(a, b));
    assert forall|i: int| 0 <= i < old.len() implies #[trigger] l[i] == r[i] by {
        assert(old[i]@.len() >= n);
        let c = cut(old, n)[i];
        assert(c.len() == n);
        assert(r[i] == c.update(a as int, c[b as int]).update(b as int, c[a as int]));
        assert(l[i] =~= r[i]);
    }
    assert(l =~= r);
}

proof fn lemma_cut_add_row(
    old: Seq<Vec<u128>>,
    new: Seq<Vec<u128>>,
    i: usize,
    q: u128,
    r: usize,
    n: nat,
)
    requires
        i < old.len(),
        r < old.len(),
        i != r,
        wide(old, n),
        new.len() == old.len(),
        forall|k: int| 0 <= k < old.len() && k != i ==> #[trigger] new[k] == old[k],
        new[i as int]@.len() == old[i as int]@.len(),
        forall|j: int|
            0 <= j < old[i as int]@.len() ==> #[trigger] new[i as int]@[j] == if j < n {
                old[i as int]@[j] ^ clmul(q, old[r as int]@[j])
            } else {
                old[i as int]@[j]
            },
    ensures
        cut(new, n) == apply_op(cut(old, n), MatrixOp::AddRow(i, q, r)),
{
    let l = cut(new, n);
    let co = cut(old, n);
    let rr = apply_op(co, MatrixOp::AddRow(i, q, r));
    assert(old[i as int]@.len() >= n);
    assert(old[r as int]@.len() >= n);
    assert(rr[i as int] == vxor(co[i as int], vscale(q, co[r as int])));
    assert(l[i as int] =~= rr[i as int]);
    assert forall|k: int| 0 <= k < old.len() implies #[trigger] l[k] == rr[k] by {
        if k != i {
            assert(l[k] == co[k]);
        }
    }
    assert(l =~= rr);
}

proof fn lemma_cut_add_col(
    old: Seq<Vec<u128>>,
    new: Seq<Vec<u128>>,
    j: usize,
    q: u128,
    c: usize,
    n: nat,
)
    requires
        j < n,
        c < n,
        j != c,
        wide(old, n),
        new.len() == old.len(),
        forall|i: int|
            0 <= i < old.len() ==> #[trigger] new[i]@ == old[i]@.update(
                j as int,
                old[i]@[j as int] ^ clmul(q, old[i]@[c as int]),
            ),
    ensures
        cut(new, n) == apply_op(cut(old, n), MatrixOp::AddCol(j, q, c)),
{
    let l = cut(new, n);
    let r = apply_op(cut(old, n), MatrixOp::AddCol(j, q, c));
    assert forall|i: int| 0 <= i < old.len() implies #[trigger] l[i] == r[i] by {
        assert(old[i]@.len() >= n);
        let co = cut(old, n)[i];
        assert(co.len() == n);
        assert(r[i] == co.update(j as int, co[j as int] ^ clmul(q, co[c as int])));
        assert(l[i] =~= r[i]);
    }
    assert(l =~= r);
}

/// Appending an operation to the record.
proof fn lemma_apply_ops_push(m: Seq<Seq<u128>>, ops: Seq<MatrixOp>, op: MatrixOp)
    ensures
        apply_ops(m, ops.push(op)) == apply_op(apply_ops(m, ops), op),
{
    assert(ops.push(op).drop_last() == ops);
}

/// The number of columns of a matrix: the length of its first row.
pub open spec fn matrix_cols(m: Seq<Vec<u128>>) -> nat {
    if m.len() > 0 {
        m[0]@.len()
    } else {
        0
    }
}

/// The first `k` rows and columns are done: zero off the diagonal.
pub open spec fn diag_done(m: Seq<Vec<u128>>, k: int, rows: int, cols: int) -> bool {
    forall|i: int, j: int|
        0 <= i < rows && 0 <= j < cols && (i < k || j < k) && i != j ==> #[trigger] m[i]@[j] == 0
}

/// The first `k` rows and columns of `m` are those of `ms`.
pub open spec fn frozen(m: Seq<Vec<u128>>, ms: Seq<Vec<u128>>, k: int, rows: int, cols: int) -> bool {
    forall|i: int, j: int|
        0 <= i < rows && 0 <= j < cols && (i < k || j < k) ==> #[trigger] m[i]@[j] == ms[i]@[j]
}

proof fn lemma_clmul_zero(q: u128)
    ensures
        clmul(q, 0) == 0,
    decreases q,
{
    if q != 0 {
        lemma_shl_zero();
        lemma_clmul_zero(q / 2);
        lemma_xor(0, 0, 0);
    }
}

proof fn lemma_frozen_swap_rows(
    old: Seq<Vec<u128>>,
    new: Seq<Vec<u128>>,
    ms: Seq<Vec<u128>>,
    a: int,
    b: int,
    k: int,
    rows: int,
    cols: int,
)
    requires
        rows == old.len(),
        k <= a < rows,
        k <= b < rows,
        new == old.update(a, old[b]).update(b, old[a]),
        frozen(old, ms, k, rows, cols),
        diag_done(ms, k, rows, cols),
    ensures
        frozen(new, ms, k, rows, cols),
{
    assert forall|i: int, j: int|
        0 <= i < rows && 0 <= j < cols && (i < k || j < k) implies #[trigger] new[i]@[j]
        == ms[i]@[j] by {
        if i == a || i == b {
            assert(j < k);
            assert(old[a]@[j] == ms[a]@[j]);
            assert(old[b]@[j] == ms[b]@[j]);
            assert(ms[a]@[j] == 0);
            assert(ms[b]@[j] == 0);
            assert(ms[i]@[j] == 0);
        } else {
            assert(new[i] == old[i]);
        }
    }
}

proof fn lemma_frozen_swap_cols(
    old: Seq<Vec<u128>>,
    new: Seq<Vec<u128>>,
    ms: Seq<Vec<u128>>,
    a: int,
    b: int,
    k: int,
    rows: int,
    cols: int,
)
    requires
        rows == old.len(),
        k <= a < cols,
        k <= b < cols,
        new.len() == old.len(),
        forall|i: int|
            0 <= i < old.len() ==> #[trigger] new[i]@ == old[i]@.update(a, old[i]@[b]).update(
                b,
                old[i]@[a],
            ),
        wide(old, cols as nat),
        frozen(old, ms, k, rows, cols),
        diag_done(ms, k, rows, cols),
    ensures
        frozen(new, ms, k, rows, cols),
{
    assert forall|i: int, j: int|
        0 <= i < rows && 0 <= j < cols && (i < k || j < k) implies #[trigger] new[i]@[j]
        == ms[i]@[j] by {
        assert(new[i]@ == old[i]@.update(a, old[i]@[b]).update(b, old[i]@[a]));
        if j == a || j == b {
            assert(i < k);
            assert(old[i]@[a] == ms[i]@[a]);
            assert(old[i]@[b] == ms[i]@[b]);
            assert(ms[i]@[a] == 0);
            assert(ms[i]@[b] == 0);
            assert(ms[i]@[j] == 0);
        } else {
            assert(new[i]@[j] == old[i]@[j]);
        }
    }
}

proof fn lemma_frozen_add_row(
    old: Seq<Vec<u128>>,
    new: Seq<Vec<u128>>,
    ms: Seq<Vec<u128>>,
    i0: int,
    q: u128,
    r: int,
    k: int,
    rows: int,
    cols: int,
)
    requires
        rows == old.len(),
        k <= i0 < rows,
        0 <= r < rows,
        new.len() == old.len(),
        forall|x: int| 0 <= x < old.len() && x != i0 ==> #[trigger] new[x] == old[x],
        forall|j: int|
            0 <= j < cols ==> #[trigger] new[i0]@[j] == old[i0]@[j] ^ clmul(q, old[r]@[j]),
        forall|j: int| 0 <= j < k && j < cols ==> #[trigger] old[r]@[j] == 0,
        frozen(old, ms, k, rows, cols),
    ensures
        frozen(new, ms, k, rows, cols),
{
    assert forall|i: int, j: int|
        0 <= i < rows && 0 <= j < cols && (i < k || j < k) implies #[trigger] new[i]@[j]
        == ms[i]@[j] by {
        if i == i0 {
            assert(j < k);
            assert(old[r]@[j] == 0);
            lemma_clmul_zero(q);
            lemma_xor(old[i0]@[j], 0, 0);
            assert(old[i0]@[j] == ms[i0]@[j]);
        } else {
            assert(new[i] == old[i]);
        }
    }
}

proof fn lemma_frozen_add_col(
    old: Seq<Vec<u128>>,
    new: Seq<Vec<u128>>,
    ms: Seq<Vec<u128>>,
    j0: int,
    q: u128,
    c: int,
    k: int,
    rows: int,
    cols: int,
)
    requires
        rows == old.len(),
        k <= j0 < cols,
        0 <= c < cols,
        new.len() == old.len(),
        forall|i: int|
            0 <= i < old.len() ==> #[trigger] new[i]@ == old[i]@.update(
                j0,
                old[i]@[j0] ^ clmul(q, old[i]@[c]),
            ),
        wide(old, cols as nat),
        forall|i: int| 0 <= i < k && i < rows ==> #[trigger] old[i]@[c] == 0,
        frozen(old, ms, k, rows, cols),
    ensures
        frozen(new, ms, k, rows, cols),
{
    assert forall|i: int, j: int|
        0 <= i < rows && 0 <= j < cols && (i < k || j < k) implies #[trigger] new[i]@[j]
        == ms[i]@[j] by {
        assert(new[i]@ == old[i]@.update(j0, old[i]@[j0] ^ clmul(q, old[i]@[c])));
        if j == j0 {
            assert(i < k);
            assert(old[i]@[c] == 0);
            lemma_clmul_zero(q);
            lemma_xor(old[i]@[j0], 0, 0);
            assert(old[i]@[j0] == ms[i]@[j0]);
        } else {
            assert(new[i]@[j] == old[i]@[j]);
        }
    }
}

/// The non-unit diagonal only reads the diagonal.
proof fn lemma_nonunit_diagonal_same(d1: Seq<Seq<u128>>, d2: Seq<Seq<u128>>, n: int)
    requires
        forall|k: int| 0 <= k < n ==> #[trigger] d1[k][k] == d2[k][k],
    ensures
        nonunit_diagonal(d1, n) == nonunit_diagonal(d2, n),
    decreases n,
{
    if n > 0 {
        lemma_nonunit_diagonal_same(d1, d2, n - 1);
    }
}

/// Zero diagonal entries add nothing.
proof fn lemma_nonunit_diagonal_zero_tail(d: Seq<Seq<u128>>, a: int, b: int)
    requires
        0 <= a <= b,
        forall|k: int| a <= k < b ==> #[trigger] d[k][k] == 0,
    ensures
        nonunit_diagonal(d, b) == nonunit_diagonal(d, a),
    decreases b - a,
{
    if a < b {
        lemma_nonunit_diagonal_zero_tail(d, a, b - 1);
        lemma_deg(d[b - 1][b - 1]);
    }
}

/// Each of `fs` divides every entry of the block from row `k` and column `k` on.
pub open spec fn block_divisible(m: Seq<Vec<u128>>, fs: Seq<u128>, k: int, rows: int, cols: int) -> bool {
    forall|a: int, i: int, j: int|
        0 <= a < fs.len() && k <= i < rows && k <= j < cols ==> #[trigger] divides(fs[a], m[i]@[j])
}

proof fn lemma_block_swap_rows(
    old: Seq<Vec<u128>>,
    new: Seq<Vec<u128>>,
    fs: Seq<u128>,
    x: int,
    y: int,
    k: int,
    rows: int,
    cols: int,
)
    requires
        0 <= k,
        rows == old.len(),
        k <= x < rows,
        k <= y < rows,
        new == old.update(x, old[y]).update(y, old[x]),
        block_divisible(old, fs, k, rows, cols),
    ensures
        block_divisible(new, fs, k, rows, cols),
{
    assert forall|a: int, i: int, j: int|
        0 <= a < fs.len() && k <= i < rows && k <= j < cols implies #[trigger] divides(fs[a], new[i]@[j]) by {
        if i == y {
            assert(divides(fs[a], old[x]@[j]));
        } else if i == x {
            assert(divides(fs[a], old[y]@[j]));
        } else {
            assert(divides(fs[a], old[i]@[j]));
        }
    }
}

proof fn lemma_block_swap_cols(
    old: Seq<Vec<u128>>,
    new: Seq<Vec<u128>>,
    fs: Seq<u128>,
    x: int,
    y: int,
    k: int,
    rows: int,
    cols: int,
)
    requires
        0 <= k,
        rows == old.len(),
        k <= x < cols,
        k <= y < cols,
        new.len() == old.len(),
        forall|i: int|
            0 <= i < old.len() ==> #[trigger] new[i]@ == old[i]@.update(x, old[i]@[y]).update(
                y,
                old[i]@[x],
            ),
        wide(old, cols as nat),
        block_divisible(old, fs, k, rows, cols),
    ensures
        block_divisible(new, fs, k, rows, cols),
{
    assert forall|a: int, i: int, j: int|
        0 <= a < fs.len() && k <= i < rows && k <= j < cols implies #[trigger] divides(fs[a], new[i]@[j]) by {
        assert(new[i]@ == old[i]@.update(x, old[i]@[y]).update(y, old[i]@[x]));
        if j == y {
            assert(divides(fs[a], old[i]@[x]));
        } else if j == x {
            assert(divides(fs[a], old[i]@[y]));
        } else {
            assert(divides(fs[a], old[i]@[j]));
        }
    }
}

proof fn lemma_block_add_row(
    old: Seq<Vec<u128>>,
    new: Seq<Vec<u128>>,
    fs: Seq<u128>,
    i0: int,
    q: u128,
    r: int,
    k: int,
    rows: int,
    cols: int,
)
    requires
        0 <= k,
        rows == old.len(),
        k <= i0 < rows,
        k <= r < rows,
        new.len() == old.len(),
        forall|x: int| 0 <= x < old.len() && x != i0 ==> #[trigger] new[x] == old[x],
        forall|j: int|
            0 <= j < cols ==> #[trigger] new[i0]@[j] == old[i0]@[j] ^ clmul(q, old[r]@[j]),
        block_divisible(old, fs, k, rows, cols),
    ensures
        block_divisible(new, fs, k, rows, cols),
{
    assert forall|a: int, i: int, j: int|
        0 <= a < fs.len() && k <= i < rows && k <= j < cols implies #[trigger] divides(fs[a], new[i]@[j]) by {
        if i == i0 {
            assert(divides(fs[a], old[i0]@[j]));
            assert(divides(fs[a], old[r]@[j]));
            lemma_divides_combination(fs[a], old[i0]@[j], old[r]@[j], q);
        } else {
            assert(new[i] == old[i]);
            assert(divides(fs[a], old[i]@[j]));
        }
    }
}

proof fn lemma_block_add_col(
    old: Seq<Vec<u128>>,
    new: Seq<Vec<u128>>,
    fs: Seq<u128>,
    j0: int,
    q: u128,
    c: int,
    k: int,
    rows: int,
    cols: int,
)
    requires
        0 <= k,
        rows == old.len(),
        k <= j0 < cols,
        k <= c < cols,
        new.len() == old.len(),
        forall|i: int|
            0 <= i < old.len() ==> #[trigger] new[i]@ == old[i]@.update(
                j0,
                old[i]@[j0] ^ clmul(q, old[i]@[c]),
            ),
        wide(old, cols as nat),
        block_divisible(old, fs, k, rows, cols),
    ensures
        block_divisible(new, fs, k, rows, cols),
{
    assert forall|a: int, i: int, j: int|
        0 <= a < fs.len() && k <= i < rows && k <= j < cols implies #[trigger] divides(fs[a], new[i]@[j]) by {
        assert(new[i]@ == old[i]@.update(j0, old[i]@[j0] ^ clmul(q, old[i]@[c])));
        if j == j0 {
            assert(divides(fs[a], old[i]@[j0]));
            assert(divides(fs[a], old[i]@[c]));
            lemma_divides_combination(fs[a], old[i]@[j0], old[i]@[c], q);
        } else {
            assert(divides(fs[a], old[i]@[j]));
        }
    }
}

/// Each of `fs` divides every entry of the block from row `k` and column `k` on, over
/// $\mathbb{F}_2[\tau]$.
pub open spec fn block_divisible_exactly(m: Seq<Vec<u128>>, fs: Seq<u128>, k: int, rows: int, cols: int) -> bool {
    forall|a: int, i: int, j: int|
        0 <= a < fs.len() && k <= i < rows && k <= j < cols ==> #[trigger] divides_exactly(fs[a], m[i]@[j])
}

proof fn lemma_block_exactly_swap_rows(
    old: Seq<Vec<u128>>,
    new: Seq<Vec<u128>>,
    fs: Seq<u128>,
    x: int,
    y: int,
    k: int,
    rows: int,
    cols: int,
)
    requires
        0 <= k,
        rows == old.len(),
        k <= x < rows,
        k <= y < rows,
        new == old.update(x, old[y]).update(y, old[x]),
        block_divisible_exactly(old, fs, k, rows, cols),
    ensures
        block_divisible_exactly(new, fs, k, rows, cols),
{
    assert forall|a: int, i: int, j: int|
        0 <= a < fs.len() && k <= i < rows && k <= j < cols implies #[trigger] divides_exactly(fs[a], new[i]@[j]) by {
        if i == y {
            assert(divides_exactly(fs[a], old[x]@[j]));
        } else if i == x {
            assert(divides_exactly(fs[a], old[y]@[j]));
        } else {
            assert(divides_exactly(fs[a], old[i]@[j]));
        }
    }
}

proof fn lemma_block_exactly_swap_cols(
    old: Seq<Vec<u128>>,
    new: Seq<Vec<u128>>,
    fs: Seq<u128>,
    x: int,
    y: int,
    k: int,
    rows: int,
    cols: int,
)
    requires
        0 <= k,
        rows == old.len(),
        k <= x < cols,
        k <= y < cols,
        new.len() == old.len(),
        forall|i: int|
            0 <= i < old.len() ==> #[trigger] new[i]@ == old[i]@.update(x, old[i]@[y]).update(
                y,
                old[i]@[x],
            ),
        wide(old, cols as nat),
        block_divisible_exactly(old, fs, k, rows, cols),
    ensures
        block_divisible_exactly(new, fs, k, rows, cols),
{
    assert forall|a: int, i: int, j: int|
        0 <= a < fs.len() && k <= i < rows && k <= j < cols implies #[trigger] divides_exactly(fs[a], new[i]@[j]) by {
        assert(new[i]@ == old[i]@.update(x, old[i]@[y]).update(y, old[i]@[x]));
        if j == y {
            assert(divides_exactly(fs[a], old[i]@[x]));
        } else if j == x {
            assert(divides_exactly(fs[a], old[i]@[y]));
        } else {
            assert(divides_exactly(fs[a], old[i]@[j]));
        }
    }
}

proof fn lemma_block_exactly_add_row(
    old: Seq<Vec<u128>>,
    new: Seq<Vec<u128>>,
    fs: Seq<u128>,
    i0: int,
    q: u128,
    r: int,
    k: int,
    rows: int,
    cols: int,
)
    requires
        0 <= k,
        rows == old.len(),
        k <= i0 < rows,
        k <= r < rows,
        new.len() == old.len(),
        forall|x: int| 0 <= x < old.len() && x != i0 ==> #[trigger] new[x] == old[x],
        forall|j: int|
            0 <= j < cols ==> #[trigger] new[i0]@[j] == old[i0]@[j] ^ clmul(q, old[r]@[j]),
        forall|j: int| 0 <= j < cols ==> product_fits(q, #[trigger] old[r]@[j]),
        block_divisible_exactly(old, fs, k, rows, cols),
    ensures
        block_divisible_exactly(new, fs, k, rows, cols),
{
    assert forall|a: int, i: int, j: int|
        0 <= a < fs.len() && k <= i < rows && k <= j < cols implies #[trigger] divides_exactly(fs[a], new[i]@[j]) by {
        if i == i0 {
            assert(divides_exactly(fs[a], old[i0]@[j]));
            assert(divides_exactly(fs[a], old[r]@[j]));
            lemma_divides_exactly_combination(fs[a], old[i0]@[j], old[r]@[j], q);
        } else {
            assert(new[i] == old[i]);
            assert(divides_exactly(fs[a], old[i]@[j]));
        }
    }
}

proof fn lemma_block_exactly_add_col(
    old: Seq<Vec<u128>>,
    new: Seq<Vec<u128>>,
    fs: Seq<u128>,
    j0: int,
    q: u128,
    c: int,
    k: int,
    rows: int,
    cols: int,
)
    requires
        0 <= k,
        rows == old.len(),
        k <= j0 < cols,
        k <= c < cols,
        new.len() == old.len(),
        forall|i: int|
            0 <= i < old.len() ==> #[trigger] new[i]@ == old[i]@.update(
                j0,
                old[i]@[j0] ^ clmul(q, old[i]@[c]),
            ),
        wide(old, cols as nat),
        forall|i: int| 0 <= i < rows ==> product_fits(q, #[trigger] old[i]@[c]),
        block_divisible_exactly(old, fs, k, rows, cols),
    ensures
        block_divisible_exactly(new, fs, k, rows, cols),
{
    assert forall|a: int, i: int, j: int|
        0 <= a < fs.len() && k <= i < rows && k <= j < cols implies #[trigger] divides_exactly(fs[a], new[i]@[j]) by {
        assert(new[i]@ == old[i]@.update(j0, old[i]@[j0] ^ clmul(q, old[i]@[c])));
        if j == j0 {
            assert(divides_exactly(fs[a], old[i]@[j0]));
            assert(divides_exactly(fs[a], old[i]@[c]));
            lemma_divides_exactly_combination(fs[a], old[i]@[j0], old[i]@[c], q);
        } else {
            assert(divides_exactly(fs[a], old[i]@[j]));
        }
    }
}

/// Dividing over $\mathbb{F}_2[\tau]$ is dividing in the word ring too.
proof fn lemma_divides_exactly_divides(d: u128, x: u128)
    requires
        divides_exactly(d, x),
    ensures
        divides(d, x),
{
    let q = choose|k: u128| #[trigger] clmul(k, d) == x && (k != 0 ==> poly_deg(k) + poly_deg(d) <= poly_deg(x));
    assert(clmul(q, d) == x);
}

/// Each of `fs` divides the next over $\mathbb{F}_2[\tau]$.
pub open spec fn exact_chain(fs: Seq<u128>) -> bool {
    forall|a: int, b: int| 0 <= a < b < fs.len() ==> #[trigger] divides_exactly(fs[a], fs[b])
}

/// `op`, applied to `m`, keeps every product within a word.
pub open spec fn exact_op(m: Seq<Seq<u128>>, op: MatrixOp) -> bool {
    match op {
        MatrixOp::AddRow(_, q, r) => forall|j: int|
            0 <= j < m[r as int].len() ==> product_fits(q, #[trigger] m[r as int][j]),
        MatrixOp::AddCol(_, q, c) => forall|i: int|
            0 <= i < m.len() && c < m[i].len() ==> product_fits(q, #[trigger] m[i][c as int]),
        _ => true,
    }
}

/// Each operation of `ops`, in turn, keeps every product within a word: the operations are
/// those over $\mathbb{F}_2[\tau]$.
pub open spec fn exact_ops(m: Seq<Seq<u128>>, ops: Seq<MatrixOp>) -> bool
    decreases ops.len(),
{
    ops.len() == 0 || (exact_ops(m, ops.drop_last()) && exact_op(
        apply_ops(m, ops.drop_last()),
        ops.last(),
    ))
}

proof fn lemma_exact_ops_push(m: Seq<Seq<u128>>, ops: Seq<MatrixOp>, op: MatrixOp)
    ensures
        exact_ops(m, ops.push(op)) == (exact_ops(m, ops) && exact_op(apply_ops(m, ops), op)),
{
    assert(ops.push(op).drop_last() == ops);
}

/// A block entry past the pivot `p` at (`r0`, `c0`) that `p` leaves a nonzero
/// remainder in, with the quotient; `None` when `p` divides every such entry.
fn find_nondivisible(m: &Vec<Vec<u128>>, r0: usize, c0: usize, rows: usize, cols: usize, p: u128) -> (res: Option<(usize, usize, u128)>)
    requires
        r0 < rows,
        c0 < cols,
        m@.len() == rows,
        wide(m@, cols as nat),
        p != 0,
    ensures
        match res {
            None => forall|i: int, j: int|
                r0 < i < rows && c0 < j < cols ==> #[trigger] divides_exactly(p, m@[i]@[j]),
            Some((i, j, q)) => r0 < i < rows && c0 < j < cols && m@[i as int]@[j as int] ^ clmul(q, p) != 0
                && poly_deg(m@[i as int]@[j as int] ^ clmul(q, p)) < poly_deg(p) && (q != 0
                ==> poly_deg(q) + poly_deg(p) <= poly_deg(m@[i as int]@[j as int])),
        },
{
    let mut i: usize = r0 + 1;
    while i < rows
        invariant
            r0 < i,
            c0 < cols,
            m@.len() == rows,
            wide(m@, cols as nat),
            p != 0,
            forall|ii: int, jj: int|
                r0 < ii < i && ii < rows && c0 < jj < cols ==> #[trigger] divides_exactly(p, m@[ii]@[jj]),
        decreases rows - i,
    {
        let mut j: usize = c0 + 1;
        while j < cols
            invariant
                r0 < i < rows,
                c0 < j,
                m@.len() == rows,
                wide(m@, cols as nat),
                p != 0,
                forall|ii: int, jj: int|
                    r0 < ii < i && c0 < jj < cols ==> #[trigger] divides_exactly(p, m@[ii]@[jj]),
                forall|jj: int| c0 < jj < j && jj < cols ==> #[trigger] divides_exactly(p, m@[i as int]@[jj]),
            decreases cols - j,
        {
            let x = m[i][j];
            let q = div(x, p);
            let r = x ^ self::mul(q, p);
            if r != 0 {
                return Some((i, j, q));
            }
            proof {
                let cq = clmul(q, p);
                assert(x == cq) by (bit_vector)
                    requires
                        r == x ^ cq,
                        r == 0,
                ;
                lemma_deg(x);
                lemma_deg(q);
                assert(clmul(q, p) == m@[i as int]@[j as int]);
                assert(divides_exactly(p, m@[i as int]@[j as int]));
            }
            j += 1;
        }
        i += 1;
    }
    None
}

/// The non-unit invariant factors (degree $\ge 1$) of `m` over
/// $\mathbb{F}_2[\tau]$, by Smith normal form. `m` is consumed.
///
/// Pivot on the minimum-degree nonzero entry, clear its row and column by division,
/// and pull any lower-degree residual back into the pivot until the pivot divides
/// the remaining block; then recurse on the complementary submatrix. The factors
/// are the diagonal entries of degree at least one of the diagonal matrix reached by
/// these elementary operations, each dividing the next.
pub fn invariant_factors(m: Vec<Vec<u128>>) -> (factors: Vec<u128>)
    requires
        m.len() > 0 ==> wide(m@, m@[0]@.len()),
    ensures
        forall|k: int| 0 <= k < factors.len() ==> 1 <= #[trigger] poly_deg(factors@[k]),
        factors.len() <= m.len(),
        m.len() > 0 ==> factors.len() <= m@[0]@.len(),
        all_zero(m@) ==> factors.len() == 0,
        forall|a: int, b: int| 0 <= a < b < factors.len() ==> #[trigger] divides(factors@[a], factors@[b]),
        exists|ops: Seq<MatrixOp>|
            #[trigger] is_diagonal(apply_ops(cut(m@, matrix_cols(m@)), ops)) && smith_steps(
                cut(m@, matrix_cols(m@)),
                ops,
            ) && (exact_ops(cut(m@, matrix_cols(m@)), ops) ==> exact_chain(factors@)) && factors@
                == nonunit_diagonal(
                apply_ops(cut(m@, matrix_cols(m@)), ops),
                if m.len() < matrix_cols(m@) {
                    m.len() as int
                } else {
                    matrix_cols(m@) as int
                },
            ),
{
    let rows = m.len();
    let cols = if rows == 0 {
        0
    } else {
        m[0].len()
    };
    let ghost m0 = m@;
    let ghost mut ops: Seq<MatrixOp> = Seq::empty();
    assert(smith_steps(cut(m0, cols as nat), ops));
    let ghost mut exact: bool = true;
    assert(exact_ops(cut(m0, cols as nat), ops));
    let mut m = m;
    let mut factors: Vec<u128> = Vec::new();
    let mut r0: usize = 0;
    let mut c0: usize = 0;
    while r0 < rows && c0 < cols
        invariant
            m@.len() == rows,
            wide(m@, cols as nat),
            r0 == c0,
            r0 <= rows,
            c0 <= cols,
            rows > 0 ==> cols == m0[0]@.len(),
            rows == 0 ==> cols == 0,
            factors.len() <= r0,
            forall|k: int| 0 <= k < factors.len() ==> 1 <= #[trigger] poly_deg(factors@[k]),
            all_zero(m0) ==> m@ == m0 && factors.len() == 0,
            cut(m@, cols as nat) == apply_ops(cut(m0, cols as nat), ops),
            smith_steps(cut(m0, cols as nat), ops),
            exact == exact_ops(cut(m0, cols as nat), ops),
            exact ==> block_divisible_exactly(m@, factors@, r0 as int, rows as int, cols as int),
            exact ==> forall|a: int, b: int| 0 <= a < b < factors.len() ==> #[trigger] divides_exactly(factors@[a], factors@[b]),
            diag_done(m@, r0 as int, rows as int, cols as int),
            factors@ == nonunit_diagonal(cut(m@, cols as nat), r0 as int),
            block_divisible(m@, factors@, r0 as int, rows as int, cols as int),
            forall|a: int, b: int| 0 <= a < b < factors.len() ==> #[trigger] divides(factors@[a], factors@[b]),
            exact ==> forall|a: int, b: int| 0 <= a < b < factors.len() ==> #[trigger] divides_exactly(factors@[a], factors@[b]),
        ensures
            factors.len() <= rows,
            factors.len() <= cols,
            forall|k: int| 0 <= k < factors.len() ==> 1 <= #[trigger] poly_deg(factors@[k]),
            all_zero(m0) ==> factors.len() == 0,
            r0 == c0,
            r0 <= rows,
            c0 <= cols,
            m@.len() == rows,
            wide(m@, cols as nat),
            cut(m@, cols as nat) == apply_ops(cut(m0, cols as nat), ops),
            smith_steps(cut(m0, cols as nat), ops),
            exact == exact_ops(cut(m0, cols as nat), ops),
            exact ==> block_divisible_exactly(m@, factors@, r0 as int, rows as int, cols as int),
            exact ==> forall|a: int, b: int| 0 <= a < b < factors.len() ==> #[trigger] divides_exactly(factors@[a], factors@[b]),
            diag_done(m@, r0 as int, rows as int, cols as int),
            factors@ == nonunit_diagonal(cut(m@, cols as nat), r0 as int),
            forall|i: int, j: int|
                r0 <= i < rows && c0 <= j < cols ==> #[trigger] m@[i]@[j] == 0,
            forall|a: int, b: int| 0 <= a < b < factors.len() ==> #[trigger] divides(factors@[a], factors@[b]),
            exact ==> forall|a: int, b: int| 0 <= a < b < factors.len() ==> #[trigger] divides_exactly(factors@[a], factors@[b]),
        decreases rows - r0,
    {
        // Pivot = minimum-degree nonzero entry of the active submatrix.
        let mut piv: Option<(usize, usize)> = None;
        let mut i: usize = r0;
        while i < rows
            invariant
                r0 <= i <= rows,
                c0 <= cols,
                m@.len() == rows,
                wide(m@, cols as nat),
                match piv {
                    Some((pi, pj)) => r0 <= pi < rows && c0 <= pj < cols && m@[pi as int]@[pj as int] != 0,
                    None => forall|ii: int, jj: int|
                        r0 <= ii < i && c0 <= jj < cols ==> #[trigger] m@[ii]@[jj] == 0,
                },
            decreases rows - i,
        {
            let mut j: usize = c0;
            while j < cols
                invariant
                    r0 <= i < rows,
                    c0 <= j <= cols,
                    m@.len() == rows,
                    wide(m@, cols as nat),
                    match piv {
                        Some((pi, pj)) => r0 <= pi < rows && c0 <= pj < cols && m@[pi as int]@[pj as int] != 0,
                        None => (forall|ii: int, jj: int|
                            r0 <= ii < i && c0 <= jj < cols ==> #[trigger] m@[ii]@[jj] == 0) && (
                        forall|jj: int| c0 <= jj < j ==> #[trigger] m@[i as int]@[jj] == 0),
                    },
                decreases cols - j,
            {
                if m[i][j] != 0 {
                    let better = match piv {
                        None => true,
                        Some((pi, pj)) => deg(m[i][j]) < deg(m[pi][pj]),
                    };
                    if better {
                        piv = Some((i, j));
                    }
                }
                j += 1;
            }
            proof {
                if piv is None {
                    assert forall|ii: int, jj: int|
                        r0 <= ii < i + 1 && c0 <= jj < cols implies #[trigger] m@[ii]@[jj] == 0 by {
                        if ii == i {
                            assert(m@[i as int]@[jj] == 0);
                        }
                    }
                }
            }
            i += 1;
        }
        let (pi, pj) = match piv {
            Some(x) => x,
            None => break,
        };
        proof {
            if all_zero(m0) {
                assert(m@[pi as int]@[pj as int] == 0);
            }
        }
        let ghost ms = m@;
        let ghost before = m@;
        swap_rows(&mut m, r0, pi);
        proof {
            lemma_cut_swap_rows(before, m@, r0, pi, cols as nat);
            lemma_apply_ops_push(cut(m0, cols as nat), ops, MatrixOp::SwapRows(r0, pi));
            lemma_smith_steps_push(cut(m0, cols as nat), ops, MatrixOp::SwapRows(r0, pi));
            lemma_exact_ops_push(cut(m0, cols as nat), ops, MatrixOp::SwapRows(r0, pi));
            exact = exact && exact_op(apply_ops(cut(m0, cols as nat), ops), MatrixOp::SwapRows(r0, pi));
            ops = ops.push(MatrixOp::SwapRows(r0, pi));
            lemma_frozen_swap_rows(before, m@, ms, r0 as int, pi as int, r0 as int, rows as int, cols as int);
            lemma_block_swap_rows(before, m@, factors@, r0 as int, pi as int, r0 as int, rows as int, cols as int);
            if exact {
                lemma_block_exactly_swap_rows(before, m@, factors@, r0 as int, pi as int, r0 as int, rows as int, cols as int);
            }
        }
        let ghost before = m@;
        swap_columns(&mut m, c0, pj, Ghost(cols as nat));
        proof {
            lemma_cut_swap_cols(before, m@, c0, pj, cols as nat);
            lemma_apply_ops_push(cut(m0, cols as nat), ops, MatrixOp::SwapCols(c0, pj));
            lemma_smith_steps_push(cut(m0, cols as nat), ops, MatrixOp::SwapCols(c0, pj));
            lemma_exact_ops_push(cut(m0, cols as nat), ops, MatrixOp::SwapCols(c0, pj));
            exact = exact && exact_op(apply_ops(cut(m0, cols as nat), ops), MatrixOp::SwapCols(c0, pj));
            ops = ops.push(MatrixOp::SwapCols(c0, pj));
            lemma_frozen_swap_cols(before, m@, ms, c0 as int, pj as int, r0 as int, rows as int, cols as int);
            lemma_block_swap_cols(before, m@, factors@, c0 as int, pj as int, r0 as int, rows as int, cols as int);
            if exact {
                lemma_block_exactly_swap_cols(before, m@, factors@, c0 as int, pj as int, r0 as int, rows as int, cols as int);
            }
        }
        loop
            invariant
                m@.len() == rows,
                wide(m@, cols as nat),
                r0 < rows,
                c0 < cols,
                r0 == c0,
                m@[r0 as int]@[c0 as int] != 0,
                ms.len() == rows,
                cut(m@, cols as nat) == apply_ops(cut(m0, cols as nat), ops),
                smith_steps(cut(m0, cols as nat), ops),
                exact == exact_ops(cut(m0, cols as nat), ops),
                exact ==> block_divisible_exactly(m@, factors@, r0 as int, rows as int, cols as int),
                exact ==> forall|a: int, b: int| 0 <= a < b < factors.len() ==> #[trigger] divides_exactly(factors@[a], factors@[b]),
                frozen(m@, ms, r0 as int, rows as int, cols as int),
                diag_done(ms, r0 as int, rows as int, cols as int),
                block_divisible(m@, factors@, r0 as int, rows as int, cols as int),
            ensures
                m@.len() == rows,
                wide(m@, cols as nat),
                cut(m@, cols as nat) == apply_ops(cut(m0, cols as nat), ops),
                smith_steps(cut(m0, cols as nat), ops),
                exact == exact_ops(cut(m0, cols as nat), ops),
                exact ==> block_divisible_exactly(m@, factors@, r0 as int, rows as int, cols as int),
                exact ==> forall|a: int, b: int| 0 <= a < b < factors.len() ==> #[trigger] divides_exactly(factors@[a], factors@[b]),
                frozen(m@, ms, r0 as int, rows as int, cols as int),
                forall|i: int| r0 < i < rows ==> #[trigger] m@[i]@[c0 as int] == 0,
                forall|j: int| c0 < j < cols ==> #[trigger] m@[r0 as int]@[j] == 0,
                block_divisible(m@, factors@, r0 as int, rows as int, cols as int),
                forall|i: int, j: int|
                    r0 < i < rows && c0 < j < cols ==> #[trigger] divides_exactly(m@[r0 as int]@[c0 as int], m@[i]@[j]),
            decreases poly_deg(m@[r0 as int]@[c0 as int]), row_weight(m@[r0 as int]@, cols as int)
                + column_weight(matrix_view(m@), c0 as int, rows as int),
        {
            let ghost m_head = m@;
            let mut changed = false;
            let p = m[r0][c0];
            proof {
                lemma_deg(p);
            }
            // Clear the pivot column.
            let mut i: usize = 0;
            while i < rows
                invariant
                    i <= rows,
                    r0 < rows,
                    c0 < cols,
                    m@.len() == rows,
                    wide(m@, cols as nat),
                    p != 0,
                    m@[r0 as int] == m_head[r0 as int],
                    m_head[r0 as int]@[c0 as int] == p,
                    forall|k: int| 0 <= k < i && k != r0 ==> poly_deg(#[trigger] m@[k]@[c0 as int]) < poly_deg(p),
                    changed ==> column_weight(matrix_view(m@), c0 as int, rows as int)
                        < column_weight(matrix_view(m_head), c0 as int, rows as int),
                    !changed ==> m@ == m_head,
                    r0 == c0,
                    ms.len() == rows,
                    cut(m@, cols as nat) == apply_ops(cut(m0, cols as nat), ops),
                    smith_steps(cut(m0, cols as nat), ops),
                    exact == exact_ops(cut(m0, cols as nat), ops),
                    exact ==> block_divisible_exactly(m@, factors@, r0 as int, rows as int, cols as int),
                    exact ==> forall|a: int, b: int| 0 <= a < b < factors.len() ==> #[trigger] divides_exactly(factors@[a], factors@[b]),
                    frozen(m@, ms, r0 as int, rows as int, cols as int),
                    diag_done(ms, r0 as int, rows as int, cols as int),
                    block_divisible(m@, factors@, r0 as int, rows as int, cols as int),
                decreases rows - i,
            {
                proof {
                    lemma_deg(p);
                }
                if i != r0 && m[i][c0] != 0 {
                    let a = m[i][c0];
                    let q = div(a, p);
                    if q != 0 {
                        let ghost before = m@;
                        proof {
                            if i < r0 {
                                assert(m@[i as int]@[c0 as int] == ms[i as int]@[c0 as int]);
                            }
                            assert forall|j: int| 0 <= j < r0 && j < cols implies #[trigger] before[r0 as int]@[j] == 0 by {
                                assert(before[r0 as int]@[j] == ms[r0 as int]@[j]);
                            }
                        }
                        add_row_multiple(&mut m, i, q, r0, cols);
                        proof {
                            lemma_cut_add_row(before, m@, i, q, r0, cols as nat);
                            lemma_apply_ops_push(cut(m0, cols as nat), ops, MatrixOp::AddRow(i, q, r0));
                            let cm = cut(before, cols as nat);
                            assert(cm[r0 as int][c0 as int] == p);
                            assert(cm[i as int][c0 as int] == a);
                            assert forall|j: int| 0 <= j < c0 implies #[trigger] cm[r0 as int][j] == 0 by {
                                assert(cm[r0 as int][j] == before[r0 as int]@[j]);
                            }
                            assert(division_step(cm, MatrixOp::AddRow(i, q, r0)));
                            lemma_smith_steps_push(cut(m0, cols as nat), ops, MatrixOp::AddRow(i, q, r0));
                            lemma_exact_ops_push(cut(m0, cols as nat), ops, MatrixOp::AddRow(i, q, r0));
                            exact = exact && exact_op(apply_ops(cut(m0, cols as nat), ops), MatrixOp::AddRow(i, q, r0));
                            ops = ops.push(MatrixOp::AddRow(i, q, r0));
                            assert forall|j: int| 0 <= j < cols implies #[trigger] m@[i as int]@[j] == before[i as int]@[j] ^ clmul(q, before[r0 as int]@[j]) by {
                                assert(before[i as int]@.len() >= cols);
                            }
                            lemma_frozen_add_row(before, m@, ms, i as int, q, r0 as int, r0 as int, rows as int, cols as int);
                            lemma_block_add_row(before, m@, factors@, i as int, q, r0 as int, r0 as int, rows as int, cols as int);
                            if exact {
                                assert forall|jj: int| 0 <= jj < cols implies product_fits(q, #[trigger] before[r0 as int]@[jj]) by {
                                    assert(before[r0 as int]@.len() >= cols);
                                    assert(cut(before, cols as nat)[r0 as int][jj] == before[r0 as int]@[jj]);
                                }
                                lemma_block_exactly_add_row(before, m@, factors@, i as int, q, r0 as int, r0 as int, rows as int, cols as int);
                            }
                            let mv = matrix_view(before);
                            lemma_column_weight_update(mv, c0 as int, rows as int, i as int, m@[i as int]@);
                            assert(matrix_view(m@) =~= mv.update(i as int, m@[i as int]@));
                            assert(m@[i as int]@[c0 as int] == a ^ clmul(q, p));
                            assert forall|k: int| 0 <= k < i && k != r0 implies poly_deg(#[trigger] m@[k]@[c0 as int]) < poly_deg(p) by {
                                assert(before[k] == m@[k]);
                            }
                        }
                        changed = true;
                    } else {
                        proof {
                            lemma_xor(a, 0, 0);
                        }
                    }
                } else if i != r0 {
                    proof {
                        lemma_deg(m@[i as int]@[c0 as int]);
                    }
                }
                i += 1;
            }
            let ghost m_mid = m@;
            proof {
                lemma_column_weight_nonneg(matrix_view(m@), c0 as int, rows as int);
            }
            // Clear the pivot row.
            let p = m[r0][c0];
            let mut j: usize = 0;
            while j < cols
                invariant
                    j <= cols,
                    r0 < rows,
                    c0 < cols,
                    m@.len() == rows,
                    wide(m@, cols as nat),
                    p != 0,
                    m@[r0 as int]@[c0 as int] == p,
                    m@[r0 as int]@.len() == m_mid[r0 as int]@.len(),
                    forall|k: int| 0 <= k < rows ==> #[trigger] m@[k]@[c0 as int] == m_mid[k]@[c0 as int],
                    forall|k: int| 0 <= k < rows && k != r0 ==> poly_deg(#[trigger] m@[k]@[c0 as int]) < poly_deg(p),
                    forall|k: int| 0 <= k < j && k != c0 ==> poly_deg(#[trigger] m@[r0 as int]@[k]) < poly_deg(p),
                    forall|k: int| j <= k < cols ==> #[trigger] m@[r0 as int]@[k] == m_mid[r0 as int]@[k],
                    row_weight(m@[r0 as int]@, cols as int) <= row_weight(m_mid[r0 as int]@, cols as int),
                    changed ==> row_weight(m@[r0 as int]@, cols as int) + column_weight(matrix_view(m@), c0 as int, rows as int)
                        < row_weight(m_head[r0 as int]@, cols as int) + column_weight(matrix_view(m_head), c0 as int, rows as int),
                    !changed ==> m@ == m_head,
                    m_mid[r0 as int] == m_head[r0 as int],
                    !changed ==> m_mid == m_head,
                    column_weight(matrix_view(m@), c0 as int, rows as int) == column_weight(matrix_view(m_mid), c0 as int, rows as int),
                    r0 == c0,
                    ms.len() == rows,
                    cut(m@, cols as nat) == apply_ops(cut(m0, cols as nat), ops),
                    smith_steps(cut(m0, cols as nat), ops),
                    exact == exact_ops(cut(m0, cols as nat), ops),
                    exact ==> block_divisible_exactly(m@, factors@, r0 as int, rows as int, cols as int),
                    exact ==> forall|a: int, b: int| 0 <= a < b < factors.len() ==> #[trigger] divides_exactly(factors@[a], factors@[b]),
                    frozen(m@, ms, r0 as int, rows as int, cols as int),
                    diag_done(ms, r0 as int, rows as int, cols as int),
                    block_divisible(m@, factors@, r0 as int, rows as int, cols as int),
                decreases cols - j,
            {
                proof {
                    lemma_deg(p);
                }
                if j != c0 && m[r0][j] != 0 {
                    let a = m[r0][j];
                    let q = div(a, p);
                    if q != 0 {
                        let ghost before = m@;
                        proof {
                            if j < c0 {
                                assert(m@[r0 as int]@[j as int] == ms[r0 as int]@[j as int]);
                            }
                            assert forall|ii: int| 0 <= ii < r0 && ii < rows implies #[trigger] before[ii]@[c0 as int] == 0 by {
                                assert(before[ii]@[c0 as int] == ms[ii]@[c0 as int]);
                            }
                        }
                        add_column_multiple(&mut m, j, q, c0, Ghost(cols as nat));
                        proof {
                            lemma_cut_add_col(before, m@, j, q, c0, cols as nat);
                            lemma_apply_ops_push(cut(m0, cols as nat), ops, MatrixOp::AddCol(j, q, c0));
                            let cm = cut(before, cols as nat);
                            assert(cm[r0 as int][c0 as int] == p);
                            assert(cm[r0 as int][j as int] == a);
                            assert forall|k: int| 0 <= k < r0 implies #[trigger] cm[k][c0 as int] == 0 by {
                                assert(cm[k][c0 as int] == before[k]@[c0 as int]);
                            }
                            assert(smith_step(cm, MatrixOp::AddCol(j, q, c0)));
                            lemma_smith_steps_push(cut(m0, cols as nat), ops, MatrixOp::AddCol(j, q, c0));
                            lemma_exact_ops_push(cut(m0, cols as nat), ops, MatrixOp::AddCol(j, q, c0));
                            exact = exact && exact_op(apply_ops(cut(m0, cols as nat), ops), MatrixOp::AddCol(j, q, c0));
                            ops = ops.push(MatrixOp::AddCol(j, q, c0));
                            lemma_frozen_add_col(before, m@, ms, j as int, q, c0 as int, r0 as int, rows as int, cols as int);
                            lemma_block_add_col(before, m@, factors@, j as int, q, c0 as int, r0 as int, rows as int, cols as int);
                            if exact {
                                assert forall|ii: int| 0 <= ii < rows implies product_fits(q, #[trigger] before[ii]@[c0 as int]) by {
                                    assert(before[ii]@.len() >= cols);
                                    assert(cut(before, cols as nat)[ii][c0 as int] == before[ii]@[c0 as int]);
                                }
                                lemma_block_exactly_add_col(before, m@, factors@, j as int, q, c0 as int, r0 as int, rows as int, cols as int);
                            }
                            lemma_row_weight_update(before[r0 as int]@, cols as int, j as int, a ^ clmul(q, p));
                            assert(m@[r0 as int]@ =~= before[r0 as int]@.update(j as int, a ^ clmul(q, p)));
                            lemma_column_weight_same(matrix_view(before), matrix_view(m@), c0 as int, rows as int);
                            assert forall|k: int| 0 <= k < rows implies #[trigger] m@[k]@[c0 as int] == m_mid[k]@[c0 as int] by {
                                assert(m@[k]@ == before[k]@.update(j as int, before[k]@[j as int] ^ clmul(q, before[k]@[c0 as int])));
                            }
                            assert forall|k: int| 0 <= k < j && k != c0 implies poly_deg(#[trigger] m@[r0 as int]@[k]) < poly_deg(p) by {
                                assert(before[r0 as int]@[k] == m@[r0 as int]@[k]);
                            }
                        }
                        changed = true;
                    } else {
                        proof {
                            lemma_xor(a, 0, 0);
                        }
                    }
                } else if j != c0 {
                    proof {
                        lemma_deg(m@[r0 as int]@[j as int]);
                    }
                }
                j += 1;
            }
            // A nonzero residual left in the pivot row/column (degree below the
            // pivot): swap it in and keep reducing.
            let mut resid: Option<(usize, usize)> = None;
            let mut i: usize = r0 + 1;
            while i < rows
                invariant
                    r0 < i <= rows,
                    m@.len() == rows,
                    c0 < cols,
                    wide(m@, cols as nat),
                    match resid {
                        Some((ri, rj)) => rj == c0 && r0 < ri < rows && m@[ri as int]@[rj as int] != 0,
                        None => forall|k: int| r0 < k < i ==> #[trigger] m@[k]@[c0 as int] == 0,
                    },
                decreases rows - i,
            {
                if m[i][c0] != 0 {
                    resid = Some((i, c0));
                }
                i += 1;
            }
            let mut j: usize = c0 + 1;
            while j < cols
                invariant
                    c0 < j <= cols,
                    r0 < rows,
                    m@.len() == rows,
                    wide(m@, cols as nat),
                    match resid {
                        Some((ri, rj)) => (rj == c0 && r0 < ri < rows || ri == r0 && c0 < rj < cols)
                            && m@[ri as int]@[rj as int] != 0,
                        None => (forall|k: int| r0 < k < rows ==> #[trigger] m@[k]@[c0 as int] == 0)
                            && (forall|k: int| c0 < k < j ==> #[trigger] m@[r0 as int]@[k] == 0),
                    },
                decreases cols - j,
            {
                if m[r0][j] != 0 {
                    resid = Some((r0, j));
                }
                j += 1;
            }
            if let Some((ri, rj)) = resid {
                let ghost before = m@;
                proof {
                    lemma_deg(p);
                }
                swap_rows(&mut m, r0, ri);
                proof {
                    lemma_cut_swap_rows(before, m@, r0, ri, cols as nat);
                    lemma_apply_ops_push(cut(m0, cols as nat), ops, MatrixOp::SwapRows(r0, ri));
                    lemma_smith_steps_push(cut(m0, cols as nat), ops, MatrixOp::SwapRows(r0, ri));
                    lemma_exact_ops_push(cut(m0, cols as nat), ops, MatrixOp::SwapRows(r0, ri));
                    exact = exact && exact_op(apply_ops(cut(m0, cols as nat), ops), MatrixOp::SwapRows(r0, ri));
                    ops = ops.push(MatrixOp::SwapRows(r0, ri));
                    lemma_frozen_swap_rows(before, m@, ms, r0 as int, ri as int, r0 as int, rows as int, cols as int);
                    lemma_block_swap_rows(before, m@, factors@, r0 as int, ri as int, r0 as int, rows as int, cols as int);
                    if exact {
                        lemma_block_exactly_swap_rows(before, m@, factors@, r0 as int, ri as int, r0 as int, rows as int, cols as int);
                    }
                }
                if rj != c0 {
                    let ghost before2 = m@;
                    swap_columns(&mut m, c0, rj, Ghost(cols as nat));
                    proof {
                        lemma_cut_swap_cols(before2, m@, c0, rj, cols as nat);
                        lemma_apply_ops_push(cut(m0, cols as nat), ops, MatrixOp::SwapCols(c0, rj));
                        lemma_smith_steps_push(cut(m0, cols as nat), ops, MatrixOp::SwapCols(c0, rj));
                        lemma_exact_ops_push(cut(m0, cols as nat), ops, MatrixOp::SwapCols(c0, rj));
                        exact = exact && exact_op(apply_ops(cut(m0, cols as nat), ops), MatrixOp::SwapCols(c0, rj));
                        ops = ops.push(MatrixOp::SwapCols(c0, rj));
                        lemma_frozen_swap_cols(before2, m@, ms, c0 as int, rj as int, r0 as int, rows as int, cols as int);
                        lemma_block_swap_cols(before2, m@, factors@, c0 as int, rj as int, r0 as int, rows as int, cols as int);
                        if exact {
                            lemma_block_exactly_swap_cols(before2, m@, factors@, c0 as int, rj as int, r0 as int, rows as int, cols as int);
                        }
                    }
                }
                proof {
                    assert(m@[r0 as int]@[c0 as int] == before[ri as int]@[rj as int]);
                    lemma_deg(m@[r0 as int]@[c0 as int]);
                }
                changed = true;
            }
            if !changed {
                // The pivot row and column are clear; the pivot must also divide the rest
                // of the block. An entry that it does not divide is added into the pivot
                // row, reduced by the pivot column, and its remainder becomes the pivot.
                match find_nondivisible(&m, r0, c0, rows, cols, p) {
                    None => {
                        break;
                    },
                    Some((bi, bj, q)) => {
                        let ghost x = m@[bi as int]@[bj as int];
                        let ghost before = m@;
                        proof {
                            assert forall|j: int| 0 <= j < r0 && j < cols implies #[trigger] before[bi as int]@[j] == 0 by {
                                assert(before[bi as int]@[j] == ms[bi as int]@[j]);
                            }
                        }
                        add_row_multiple(&mut m, r0, 1, bi, cols);
                        proof {
                            lemma_cut_add_row(before, m@, r0, 1, bi, cols as nat);
                            lemma_apply_ops_push(cut(m0, cols as nat), ops, MatrixOp::AddRow(r0, 1, bi));
                            lemma_smith_steps_push(cut(m0, cols as nat), ops, MatrixOp::AddRow(r0, 1, bi));
                            lemma_exact_ops_push(cut(m0, cols as nat), ops, MatrixOp::AddRow(r0, 1, bi));
                            exact = exact && exact_op(apply_ops(cut(m0, cols as nat), ops), MatrixOp::AddRow(r0, 1, bi));
                            ops = ops.push(MatrixOp::AddRow(r0, 1, bi));
                            assert forall|j: int| 0 <= j < cols implies #[trigger] m@[r0 as int]@[j] == before[r0 as int]@[j] ^ clmul(1, before[bi as int]@[j]) by {
                                assert(before[r0 as int]@.len() >= cols);
                            }
                            lemma_frozen_add_row(before, m@, ms, r0 as int, 1, bi as int, r0 as int, rows as int, cols as int);
                            lemma_block_add_row(before, m@, factors@, r0 as int, 1, bi as int, r0 as int, rows as int, cols as int);
                            if exact {
                                assert forall|jj: int| 0 <= jj < cols implies product_fits(1, #[trigger] before[bi as int]@[jj]) by {
                                    assert(before[bi as int]@.len() >= cols);
                                    assert(cut(before, cols as nat)[bi as int][jj] == before[bi as int]@[jj]);
                                }
                                lemma_block_exactly_add_row(before, m@, factors@, r0 as int, 1, bi as int, r0 as int, rows as int, cols as int);
                            }
                            lemma_clmul_one(x);
                            lemma_clmul_one(0);
                            lemma_xor(x, 0, 0);
                            lemma_xor(p, 0, 0);
                            assert(m@[r0 as int]@[bj as int] == x);
                            assert(m@[r0 as int]@[c0 as int] == p);
                        }
                        let ghost before2 = m@;
                        proof {
                            assert forall|ii: int| 0 <= ii < r0 && ii < rows implies #[trigger] before2[ii]@[c0 as int] == 0 by {
                                assert(before2[ii]@[c0 as int] == ms[ii]@[c0 as int]);
                            }
                        }
                        add_column_multiple(&mut m, bj, q, c0, Ghost(cols as nat));
                        proof {
                            lemma_cut_add_col(before2, m@, bj, q, c0, cols as nat);
                            lemma_apply_ops_push(cut(m0, cols as nat), ops, MatrixOp::AddCol(bj, q, c0));
                            let cm = cut(before2, cols as nat);
                            assert(cm[r0 as int][c0 as int] == p);
                            assert(cm[r0 as int][bj as int] == x);
                            assert forall|k: int| 0 <= k < r0 implies #[trigger] cm[k][c0 as int] == 0 by {
                                assert(cm[k][c0 as int] == before2[k]@[c0 as int]);
                            }
                            assert(smith_step(cm, MatrixOp::AddCol(bj, q, c0)));
                            lemma_smith_steps_push(cut(m0, cols as nat), ops, MatrixOp::AddCol(bj, q, c0));
                            lemma_exact_ops_push(cut(m0, cols as nat), ops, MatrixOp::AddCol(bj, q, c0));
                            exact = exact && exact_op(apply_ops(cut(m0, cols as nat), ops), MatrixOp::AddCol(bj, q, c0));
                            ops = ops.push(MatrixOp::AddCol(bj, q, c0));
                            lemma_frozen_add_col(before2, m@, ms, bj as int, q, c0 as int, r0 as int, rows as int, cols as int);
                            lemma_block_add_col(before2, m@, factors@, bj as int, q, c0 as int, r0 as int, rows as int, cols as int);
                            if exact {
                                assert forall|ii: int| 0 <= ii < rows implies product_fits(q, #[trigger] before2[ii]@[c0 as int]) by {
                                    assert(before2[ii]@.len() >= cols);
                                    assert(cut(before2, cols as nat)[ii][c0 as int] == before2[ii]@[c0 as int]);
                                }
                                lemma_block_exactly_add_col(before2, m@, factors@, bj as int, q, c0 as int, r0 as int, rows as int, cols as int);
                            }
                            assert(m@[r0 as int]@ == before2[r0 as int]@.update(bj as int, x ^ clmul(q, p)));
                        }
                        let ghost before3 = m@;
                        swap_columns(&mut m, c0, bj, Ghost(cols as nat));
                        proof {
                            lemma_cut_swap_cols(before3, m@, c0, bj, cols as nat);
                            lemma_apply_ops_push(cut(m0, cols as nat), ops, MatrixOp::SwapCols(c0, bj));
                            lemma_smith_steps_push(cut(m0, cols as nat), ops, MatrixOp::SwapCols(c0, bj));
                            lemma_exact_ops_push(cut(m0, cols as nat), ops, MatrixOp::SwapCols(c0, bj));
                            exact = exact && exact_op(apply_ops(cut(m0, cols as nat), ops), MatrixOp::SwapCols(c0, bj));
                            ops = ops.push(MatrixOp::SwapCols(c0, bj));
                            lemma_frozen_swap_cols(before3, m@, ms, c0 as int, bj as int, r0 as int, rows as int, cols as int);
                            lemma_block_swap_cols(before3, m@, factors@, c0 as int, bj as int, r0 as int, rows as int, cols as int);
                            if exact {
                                lemma_block_exactly_swap_cols(before3, m@, factors@, c0 as int, bj as int, r0 as int, rows as int, cols as int);
                            }
                            assert(m@[r0 as int]@[c0 as int] == x ^ clmul(q, p));
                        }
                    },
                }
            }
            proof {
                lemma_row_weight_nonneg(m@[r0 as int]@, cols as int);
                lemma_column_weight_nonneg(matrix_view(m@), c0 as int, rows as int);
                lemma_deg(m@[r0 as int]@[c0 as int]);
            }
        }
        proof {
            lemma_deg(m@[r0 as int]@[c0 as int]);
            // The pivot row and column are now zero off the pivot, and the earlier ones are as
            // they were.
            assert forall|i: int, j: int|
                0 <= i < rows && 0 <= j < cols && (i < r0 + 1 || j < r0 + 1) && i != j implies #[trigger] m@[i]@[j] == 0 by {
                if i < r0 || j < r0 {
                    assert(m@[i]@[j] == ms[i]@[j]);
                } else if i == r0 {
                    assert(j > c0);
                } else {
                    assert(j == c0);
                }
            }
            let cm = cut(m@, cols as nat);
            let cs = cut(ms, cols as nat);
            assert forall|k: int| 0 <= k < r0 implies #[trigger] cm[k][k] == cs[k][k] by {
                assert(m@[k]@[k] == ms[k]@[k]);
            }
            lemma_nonunit_diagonal_same(cm, cs, r0 as int);
            assert(cm[r0 as int][r0 as int] == m@[r0 as int]@[c0 as int]);
        }
        let ghost fs = factors@;
        if deg(m[r0][c0]) >= 1 {
            factors.push(m[r0][c0]);
        }
        proof {
            let pv = m@[r0 as int]@[c0 as int];
            assert forall|a: int, i: int, j: int|
                0 <= a < factors.len() && r0 + 1 <= i < rows && r0 + 1 <= j < cols implies #[trigger] divides(factors@[a], m@[i]@[j]) by {
                if a < fs.len() {
                    assert(divides(fs[a], m@[i]@[j]));
                } else {
                    assert(factors@[a] == pv);
                    lemma_divides_exactly_divides(pv, m@[i]@[j]);
                }
            }
            if exact {
                assert forall|a: int, i: int, j: int|
                    0 <= a < factors.len() && r0 + 1 <= i < rows && r0 + 1 <= j < cols implies #[trigger] divides_exactly(factors@[a], m@[i]@[j]) by {
                    if a < fs.len() {
                        assert(divides_exactly(fs[a], m@[i]@[j]));
                    } else {
                        assert(factors@[a] == pv);
                    }
                }
                assert forall|a: int, b: int| 0 <= a < b < factors.len() implies #[trigger] divides_exactly(factors@[a], factors@[b]) by {
                    if b < fs.len() {
                        assert(divides_exactly(fs[a], fs[b]));
                    } else {
                        assert(factors@[b] == pv);
                        assert(divides_exactly(fs[a], m@[r0 as int]@[c0 as int]));
                    }
                }
            }
            assert forall|a: int, b: int| 0 <= a < b < factors.len() implies #[trigger] divides(factors@[a], factors@[b]) by {
                if b < fs.len() {
                    assert(divides(fs[a], fs[b]));
                } else {
                    assert(factors@[b] == pv);
                    assert(divides(fs[a], m@[r0 as int]@[c0 as int]));
                }
            }
        }
        r0 += 1;
        c0 += 1;
    }
    proof {
        let d = cut(m@, cols as nat);
        let n: int = if rows < cols { rows as int } else { cols as int };
        assert forall|i: int, j: int| 0 <= i < d.len() && 0 <= j < d[i].len() && i != j implies #[trigger] d[i][j] == 0 by {
            assert(d[i][j] == m@[i]@[j]);
            if i < r0 || j < r0 {
            } else {
            }
        }
        assert forall|k: int| r0 <= k < n implies #[trigger] d[k][k] == 0 by {
            assert(d[k][k] == m@[k]@[k]);
        }
        lemma_nonunit_diagonal_zero_tail(d, r0 as int, n);
        assert(cols == matrix_cols(m0));
        assert(is_diagonal(apply_ops(cut(m0, matrix_cols(m0)), ops)));
    }
    factors
}

} // verus!
