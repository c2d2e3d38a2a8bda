//! Packing of chunk coordinates into integer map keys.
use vstd::prelude::*;

verus! {

/// `(cx, cz)` packed into one `u64`: each coordinate shifted by 2^31 into
/// `0..2^32`, `cx` in the high half.
pub open spec fn chunk_key(cx: i32, cz: i32) -> u64 {
    ((cx as int + 0x8000_0000) * 0x1_0000_0000 + (cz as int + 0x8000_0000)) as u64
}

pub fn pack_chunk_key(cx: i32, cz: i32) -> (k: u64)
    ensures
        k == chunk_key(cx, cz),
{
    let hi = (cx as i64 + 0x8000_0000) as u64;
    let lo = (cz as i64 + 0x8000_0000) as u64;
    assert(hi * 0x1_0000_0000 + lo <= u64::MAX) by (nonlinear_arith)
        requires hi < 0x1_0000_0000, lo < 0x1_0000_0000;
    hi * 0x1_0000_0000 + lo
}

/// Different chunks get different keys.
pub proof fn lemma_chunk_key_inj(a: i32, b: i32, c: i32, d: i32)
    ensures
        chunk_key(a, b) == chunk_key(c, d) <==> (a == c && b == d),
{
    let ha = a as int + 0x8000_0000;
    let la = b as int + 0x8000_0000;
    let hc = c as int + 0x8000_0000;
    let lc = d as int + 0x8000_0000;
    assert(ha * 0x1_0000_0000 + la <= u64::MAX) by (nonlinear_arith)
        requires 0 <= ha < 0x1_0000_0000, 0 <= la < 0x1_0000_0000;
    assert(hc * 0x1_0000_0000 + lc <= u64::MAX) by (nonlinear_arith)
        requires 0 <= hc < 0x1_0000_0000, 0 <= lc < 0x1_0000_0000;
    assert(0 <= ha * 0x1_0000_0000 + la && 0 <= hc * 0x1_0000_0000 + lc) by (nonlinear_arith)
        requires 0 <= ha, 0 <= la, 0 <= hc, 0 <= lc;
    if chunk_key(a, b) == chunk_key(c, d) {
        let k = ha * 0x1_0000_0000 + la;
        vstd::arithmetic::div_mod::lemma_fundamental_div_mod_converse(k, 0x1_0000_0000, ha, la);
        vstd::arithmetic::div_mod::lemma_fundamental_div_mod_converse(k, 0x1_0000_0000, hc, lc);
    }
}

} // verus!

verus! {

/// Floor division and non-negative remainder of `w` by a positive `s`
/// (`i32::div_euclid` and `i32::rem_euclid` for positive divisors).
pub fn floor_div_mod(w: i32, s: i32) -> (r: (i32, i32))
    requires
        s > 0,
    ensures
        r.0 == (w as int) / (s as int),
        r.1 == (w as int) % (s as int),
        0 <= r.1 < s,
{
    let su = s as u64;
    if w >= 0 {
        let wu = w as u64;
        let q = wu / su;
        let m = wu % su;
        proof {
            vstd::arithmetic::div_mod::lemma_fundamental_div_mod(wu as int, su as int);
            vstd::arithmetic::div_mod::lemma_mod_pos_bound(wu as int, su as int);
            vstd::arithmetic::div_mod::lemma_div_pos_is_pos(wu as int, su as int);
            assert((wu as int) / (su as int) <= wu as int) by (nonlinear_arith)
                requires wu as int == su * ((wu as int) / (su as int)) + (wu as int) % (su as int), su >= 1,
                    (wu as int) % (su as int) >= 0, (wu as int) / (su as int) >= 0;
        }
        (q as i32, m as i32)
    } else {
        // w = -(m + 1) with m >= 0; m = a * s + b gives w = (-a - 1) * s + (s - 1 - b)
        let mu = (-(w as i64) - 1) as u64;
        let a = mu / su;
        let b = mu % su;
        proof {
            vstd::arithmetic::div_mod::lemma_fundamental_div_mod(mu as int, su as int);
            vstd::arithmetic::div_mod::lemma_mod_pos_bound(mu as int, su as int);
            vstd::arithmetic::div_mod::lemma_div_pos_is_pos(mu as int, su as int);
            assert((mu as int) / (su as int) <= mu as int) by (nonlinear_arith)
                requires mu as int == su * ((mu as int) / (su as int)) + (mu as int) % (su as int), su >= 1,
                    (mu as int) % (su as int) >= 0, (mu as int) / (su as int) >= 0;
            let q = -(a as int) - 1;
            let r = su as int - 1 - b as int;
            assert(w as int == q * (s as int) + r) by (nonlinear_arith)
                requires mu as int == su * (a as int) + b as int, w as int == -(mu as int) - 1, q == -(a as int) - 1,
                    r == su as int - 1 - b as int, su as int == s as int;
            vstd::arithmetic::div_mod::lemma_fundamental_div_mod_converse(w as int, s as int, q, r);
        }
        ((-(a as i64) - 1) as i32, (su - 1 - b) as i32)
    }
}

} // verus!
