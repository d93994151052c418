//! What can be drawn: a generator can make any 32 bits.
use crate::random;
use vstd::prelude::*;

verus! {

proof fn lemma_expand(t: int, r: int, u: int, a: int, b: int)
    ensures
        (t * b + r) * (u * b + a) == t * u * (b * b) + (t * a + r * u) * b + r * a,
{
    assert((t * b + r) * (u * b + a) == (t * b) * (u * b + a) + r * (u * b + a)) by (nonlinear_arith);
    assert((t * b) * (u * b + a) == (t * b) * (u * b) + (t * b) * a) by (nonlinear_arith);
    assert(r * (u * b + a) == r * (u * b) + r * a) by (nonlinear_arith);
    assert((t * b) * (u * b) == t * u * (b * b)) by (nonlinear_arith);
    assert((t * a + r * u) * b == (t * b) * a + r * (u * b)) by (nonlinear_arith);
}

/// The upper half of a product of two numbers, given by their halves.
proof fn lemma_upper_half(t: int, r: int, u: int, a: int)
    requires
        0 <= t < 0x1_0000_0000,
        0 <= r < 0x1_0000_0000,
        0 <= u < 0x1_0000_0000,
        0 <= a < 0x1_0000_0000,
    ensures
        ((t * 0x1_0000_0000 + r) * (u * 0x1_0000_0000 + a)) % 0x1_0000_0000_0000_0000
            / 0x1_0000_0000 == (t * a + r * u + (r * a) / 0x1_0000_0000) % 0x1_0000_0000,
        ((t * 0x1_0000_0000 + r) * (u * 0x1_0000_0000 + a)) % 0x1_0000_0000 == (r * a)
            % 0x1_0000_0000,
{
    let b = 0x1_0000_0000int;
    let bb = 0x1_0000_0000_0000_0000int;
    let whole = (t * b + r) * (u * b + a);
    let y1 = (r * a) / b;
    let y0 = (r * a) % b;
    let sum = t * a + r * u + y1;
    let g = sum / b;
    let h = sum % b;
    lemma_expand(t, r, u, a, b);
    assert(t * u * (b * b) == t * u * bb);
    assert(r * a == y1 * b + y0 && 0 <= y0 < b);
    assert(sum == g * b + h && 0 <= h < b);
    let k = t * u + g;
    assert(whole == k * bb + (h * b + y0)) by (nonlinear_arith)
        requires
            whole == t * u * bb + (t * a + r * u) * b + r * a,
            r * a == y1 * b + y0,
            sum == t * a + r * u + y1,
            sum == g * b + h,
            k == t * u + g,
            bb == b * b,
    ;
    assert(0 <= h * b + y0 < bb);
    vstd::arithmetic::div_mod::lemma_fundamental_div_mod_converse(whole, bb, k, h * b + y0);
    vstd::arithmetic::div_mod::lemma_fundamental_div_mod_converse(h * b + y0, b, h, y0);
    let low = k * b + h;
    assert(whole == low * b + y0) by (nonlinear_arith)
        requires
            whole == k * bb + (h * b + y0),
            low == k * b + h,
            bb == b * b,
    ;
    vstd::arithmetic::div_mod::lemma_fundamental_div_mod_converse(whole, b, low, y0);
}

/// What a generator makes of what it holds, given by halves.
proof fn lemma_product(t: u64, r: u64, ch: u64, cl: u64)
    requires
        t < 0x1_0000_0000,
        r < 0x1_0000_0000,
        ch < 0x1_0000_0000,
        cl < 0x1_0000_0000,
    ensures
        ({
            let held = (t * 0x1_0000_0000 + r) as u64;
            let mask = (ch * 0x1_0000_0000 + cl) as u64;
            let whole = random::wrapped_product(held, mask ^ held);
            &&& whole >> 32 == (t * (cl ^ r) + r * (ch ^ t) + (r * (cl ^ r)) / 0x1_0000_0000)
                % 0x1_0000_0000
            &&& whole as int % 0x1_0000_0000 == (r * (cl ^ r)) % 0x1_0000_0000
        }),
{
    let held = (t * 0x1_0000_0000 + r) as u64;
    let mask = (ch * 0x1_0000_0000 + cl) as u64;
    let a = cl ^ r;
    let u = ch ^ t;
    assert(a < 0x1_0000_0000 && u < 0x1_0000_0000 && mask ^ held == u * 0x1_0000_0000 + a)
        by (bit_vector)
        requires
            t < 0x1_0000_0000,
            r < 0x1_0000_0000,
            ch < 0x1_0000_0000,
            cl < 0x1_0000_0000,
            held == t * 0x1_0000_0000 + r,
            mask == ch * 0x1_0000_0000 + cl,
            a == cl ^ r,
            u == ch ^ t,
    ;
    let whole = random::wrapped_product(held, mask ^ held);
    lemma_upper_half(t as int, r as int, u as int, a as int);
    assert(whole >> 32 == whole / 0x1_0000_0000) by (bit_vector);
    let exact = (t * 0x1_0000_0000 + r) * (u * 0x1_0000_0000 + a);
    assert(0 <= exact) by (nonlinear_arith)
        requires
            exact == (t * 0x1_0000_0000 + r) * (u * 0x1_0000_0000 + a),
            0 <= t,
            0 <= r,
            0 <= u,
            0 <= a,
    ;
    assert(whole == exact % 0x1_0000_0000_0000_0000);
    let q = exact / 0x1_0000_0000_0000_0000;
    assert(exact == q * 0x1_0000_0000_0000_0000 + whole);
    assert(whole as int % 0x1_0000_0000 == exact % 0x1_0000_0000);
}

/// The upper half of what a generator holds can be chosen so that the upper half of the product
/// has any value in its lower bits, but for the lowest ones, which the lower half fixes.
proof fn lemma_steer(
    ch: u64,
    a: u64,
    r: u64,
    half_a: int,
    half_r: int,
    unit: int,
    rest: int,
    wanted: int,
    k: u64,
) -> (found: (u64, int))
    requires
        ch < 0x1_0000_0000,
        k <= 32,
        a == unit * (2 * half_a + 1),
        r == 2 * unit * half_r,
        (wanted - rest) % unit == 0,
        unit > 0,
    ensures
        found.0 < 1u64 << k,
        found.0 * a + r * (ch ^ found.0) + rest - wanted == unit * (1u64 << k) * found.1,
    decreases k,
{
    if k == 0 {
        assert(1u64 << 0 == 1) by (bit_vector);
        assert(ch ^ 0 == ch) by (bit_vector);
        let q = (rest - wanted) / unit;
        assert(rest - wanted == unit * q) by (nonlinear_arith)
            requires
                q == (rest - wanted) / unit,
                (wanted - rest) % unit == 0,
                unit > 0,
        ;
        let j = 2 * half_r * ch + q;
        assert(0 * a + r * ch + rest - wanted == unit * 1 * j) by (nonlinear_arith)
            requires
                r == 2 * unit * half_r,
                rest - wanted == unit * q,
                j == 2 * half_r * ch + q,
        ;
        (0, j)
    } else {
        let (t, j) = lemma_steer(ch, a, r, half_a, half_r, unit, rest, wanted, (k - 1) as u64);
        let w = 1u64 << ((k - 1) as u64);
        let l = (k - 1) as u64;
        assert(1u64 << k == 2 * w && w <= 0x8000_0000 && 1u64 << l == w) by (bit_vector)
            requires
                0 < k <= 32,
                l == k - 1,
                w == 1u64 << l,
        ;
        let f = t * a + r * (ch ^ t) + rest - wanted;
        if j % 2 == 0 {
            let i = j / 2;
            assert(f == unit * (2 * w) * i) by (nonlinear_arith)
                requires
                    f == unit * w * j,
                    j == 2 * i,
            ;
            (t, i)
        } else {
            let s = (t + w) as u64;
            assert((ch ^ s) == (ch ^ t) + w || (ch ^ s) + w == ch ^ t) by (bit_vector)
                requires
                    t < w,
                    w == 1u64 << l,
                    l < 32,
                    s == t + w,
            ;
            let sign = if (ch ^ s) == (ch ^ t) + w {
                1int
            } else {
                -1int
            };
            assert(sign * w == if sign == 1 {
                w as int
            } else {
                -w
            }) by (nonlinear_arith)
                requires
                    sign == 1 || sign == -1,
            ;
            let i = (j + 1) / 2 + half_a + sign * half_r;
            assert(j == 2 * ((j + 1) / 2) - 1);
            let up = (j + 1) / 2;
            assert(s * a + r * (ch ^ s) + rest - wanted == unit * (2 * w) * i)
                by (nonlinear_arith)
                requires
                    f == t * a + r * (ch ^ t) + rest - wanted,
                    f == unit * w * j,
                    s == t + w,
                    (ch ^ s) == (ch ^ t) + sign * w,
                    a == unit * (2 * half_a + 1),
                    r == 2 * unit * half_r,
                    j == 2 * up - 1,
                    i == up + half_a + sign * half_r,
            {
                let x = ch ^ t;
                assert(s * a + r * (x + sign * w) + rest - wanted == f + w * a + r * (sign * w));
                assert(w * a == unit * w * (2 * half_a + 1));
                assert(r * (sign * w) == unit * w * (2 * (sign * half_r)));
                assert(f + w * a + r * (sign * w) == unit * w * (j + 2 * half_a + 1 + 2 * (sign
                    * half_r)));
                assert(unit * (2 * w) * i == unit * w * (2 * i));
            }
            (s, i)
        }
    }
}

/// The lower half of what a generator holds that fixes the lowest five bits of what it makes.
spec fn lower_half(lowest: int) -> u64 {
    if lowest == 0 {
        0
    } else if lowest == 1 {
        4032
    } else if lowest == 2 {
        3776
    } else if lowest == 3 {
        3520
    } else if lowest == 4 {
        3264
    } else if lowest == 5 {
        2880
    } else if lowest == 6 {
        2624
    } else if lowest == 7 {
        2368
    } else if lowest == 8 {
        2112
    } else if lowest == 9 {
        1728
    } else if lowest == 10 {
        1472
    } else if lowest == 11 {
        1216
    } else if lowest == 12 {
        960
    } else if lowest == 13 {
        576
    } else if lowest == 14 {
        320
    } else if lowest == 15 {
        64
    } else if lowest == 16 {
        4352
    } else if lowest == 17 {
        4096
    } else if lowest == 18 {
        3840
    } else if lowest == 19 {
        3456
    } else if lowest == 20 {
        3200
    } else if lowest == 21 {
        2944
    } else if lowest == 22 {
        2688
    } else if lowest == 23 {
        2304
    } else if lowest == 24 {
        2048
    } else if lowest == 25 {
        1792
    } else if lowest == 26 {
        1536
    } else if lowest == 27 {
        1152
    } else if lowest == 28 {
        896
    } else if lowest == 29 {
        640
    } else if lowest == 30 {
        384
    } else {
        128
    }
}

proof fn lemma_lower_half(lowest: int)
    requires
        0 <= lowest < 32,
    ensures
        lower_half(lowest) % 64 == 0,
        lower_half(lowest) < 8192,
        (0xbf1b_b1a0u64 ^ lower_half(lowest)) % 64 == 32,
        (0xbf1b_b1a0u64 ^ lower_half(lowest)) < 0x1_0000_0000,
        (lower_half(lowest) * (0xbf1b_b1a0u64 ^ lower_half(lowest))) / 0x1_0000_0000 % 32 == lowest,
{
    let r = lower_half(lowest);
    assert(r % 64 == 0 && r < 8192 ==> (0xbf1b_b1a0u64 ^ r) % 64 == 32 && (0xbf1b_b1a0u64 ^ r)
        < 0x1_0000_0000) by (bit_vector);
    assert(0xbf1b_b1a0u64 ^ 0 == 3206263200
        && 0xbf1b_b1a0u64 ^ 4032 == 3206266464
        && 0xbf1b_b1a0u64 ^ 3776 == 3206266720
        && 0xbf1b_b1a0u64 ^ 3520 == 3206265952
        && 0xbf1b_b1a0u64 ^ 3264 == 3206266208
        && 0xbf1b_b1a0u64 ^ 2880 == 3206265568
        && 0xbf1b_b1a0u64 ^ 2624 == 3206265824
        && 0xbf1b_b1a0u64 ^ 2368 == 3206265056
        && 0xbf1b_b1a0u64 ^ 2112 == 3206265312
        && 0xbf1b_b1a0u64 ^ 1728 == 3206264672
        && 0xbf1b_b1a0u64 ^ 1472 == 3206263904
        && 0xbf1b_b1a0u64 ^ 1216 == 3206264160
        && 0xbf1b_b1a0u64 ^ 960 == 3206263392
        && 0xbf1b_b1a0u64 ^ 576 == 3206263776
        && 0xbf1b_b1a0u64 ^ 320 == 3206263008
        && 0xbf1b_b1a0u64 ^ 64 == 3206263264
        && 0xbf1b_b1a0u64 ^ 4352 == 3206258848
        && 0xbf1b_b1a0u64 ^ 4096 == 3206259104
        && 0xbf1b_b1a0u64 ^ 3840 == 3206266528
        && 0xbf1b_b1a0u64 ^ 3456 == 3206265888
        && 0xbf1b_b1a0u64 ^ 3200 == 3206266144
        && 0xbf1b_b1a0u64 ^ 2944 == 3206265376
        && 0xbf1b_b1a0u64 ^ 2688 == 3206265632
        && 0xbf1b_b1a0u64 ^ 2304 == 3206264992
        && 0xbf1b_b1a0u64 ^ 2048 == 3206265248
        && 0xbf1b_b1a0u64 ^ 1792 == 3206264480
        && 0xbf1b_b1a0u64 ^ 1536 == 3206264736
        && 0xbf1b_b1a0u64 ^ 1152 == 3206264096
        && 0xbf1b_b1a0u64 ^ 896 == 3206263328
        && 0xbf1b_b1a0u64 ^ 640 == 3206263584
        && 0xbf1b_b1a0u64 ^ 384 == 3206262816
        && 0xbf1b_b1a0u64 ^ 128 == 3206263072) by (bit_vector);
}

/// What a generator held before a step.
proof fn lemma_step_back(held: u64) -> (before: u64)
    ensures
        random::stepped(before) == held,
{
    let before = ((held + 0x1_0000_0000_0000_0000 - 12964901029718341801)
        % 0x1_0000_0000_0000_0000) as u64;
    before
}

/// From some state, a generator makes these 32 bits.
pub proof fn any_32_bits_can_be_made(bits: u32) -> (state: u64)
    ensures
        random::bits_32(random::stepped(state)) == bits,
{
    let lowest = bits as int % 32;
    let r = lower_half(lowest);
    let a = 0xbf1b_b1a0u64 ^ r;
    lemma_lower_half(lowest);
    let rest = (r * a) / 0x1_0000_0000;
    let (t, j) = lemma_steer(
        0xfc0c_cbff,
        a,
        r,
        (a as int - 32) / 64,
        r as int / 64,
        32,
        rest,
        bits as int,
        27,
    );
    assert(1u64 << 27 == 0x800_0000) by (bit_vector);
    lemma_product(t, r, 0xfc0c_cbff, 0xbf1b_b1a0);
    let held = (t * 0x1_0000_0000 + r) as u64;
    let made = t * a + r * (0xfc0c_cbffu64 ^ t) + rest;
    assert(made == bits + 0x1_0000_0000 * j);
    assert(made % 0x1_0000_0000 == bits) by {
        vstd::arithmetic::div_mod::lemma_fundamental_div_mod_converse(
            made,
            0x1_0000_0000,
            j,
            bits as int,
        );
    }
    assert(0xfc0c_cbff * 0x1_0000_0000 + 0xbf1b_b1a0 == 18162115696561729952);
    assert(random::bits_32(held) == bits);
    lemma_step_back(held)
}

/// From some state, a generator makes 64 bits of which these are the lower half.
pub proof fn any_lower_half_can_be_made(bits: u32) -> (state: u64)
    ensures
        random::bits_64(random::stepped(state)) as int % 0x1_0000_0000 == bits,
{
    let r: u64 = if bits % 2 == 0 {
        0
    } else {
        4
    };
    let cl = 0x68e6_18b6u64;
    let ch = 0x214_ddf2u64;
    let a = cl ^ r;
    assert(0x68e6_18b6u64 ^ 0 == 0x68e6_18b6 && 0x68e6_18b6u64 ^ 4 == 0x68e6_18b2) by (bit_vector);
    let low = ((r * a) % 0x1_0000_0000) as u64;
    let rest = (r * a) / 0x1_0000_0000;
    let wide = bits as u64;
    let wanted = wide ^ low;
    assert(wanted % 2 == (wide + low) % 2 && wanted < 0x1_0000_0000) by (bit_vector)
        requires
            wanted == wide ^ low,
            wide < 0x1_0000_0000,
            low < 0x1_0000_0000,
    ;
    let (t, j) = lemma_steer(
        ch,
        a,
        r,
        (a as int - 2) / 4,
        r as int / 4,
        2,
        rest,
        wanted as int,
        31,
    );
    assert(1u64 << 31 == 0x8000_0000) by (bit_vector);
    lemma_product(t, r, ch, cl);
    let held = (t * 0x1_0000_0000 + r) as u64;
    let made = t * a + r * (ch ^ t) + rest;
    assert(made == wanted + 0x1_0000_0000 * j);
    assert(made % 0x1_0000_0000 == wanted) by {
        vstd::arithmetic::div_mod::lemma_fundamental_div_mod_converse(
            made,
            0x1_0000_0000,
            j,
            wanted as int,
        );
    }
    assert(0x214_ddf2 * 0x1_0000_0000 + 0x68e6_18b6 == 149988720821803190);
    let whole = random::wrapped_product(held, 149988720821803190 ^ held);
    assert(whole >> 32 == wanted && whole % 0x1_0000_0000 == low);
    assert((whole ^ (whole >> 32)) % 0x1_0000_0000 == wide) by (bit_vector)
        requires
            whole >> 32 == wanted,
            whole % 0x1_0000_0000 == low,
            wanted == wide ^ low,
            wide < 0x1_0000_0000,
    ;
    assert(random::bits_64(held) == whole ^ (whole >> 32));
    lemma_step_back(held)
}

/// A draw takes one step and gives the remainder of the bits that it makes, counted from the first
/// number of the range.
pub proof fn draws_are_remainders(state: u64, from: int, to: int)
    requires
        from < to,
    ensures
        0 <= from && to <= u32::MAX ==> random::drawn_u32(state, from as u32, to as u32) == (
            (from + random::bits_32(random::stepped(state)) as int % (to - from)) as u32,
            random::stepped(state),
        ),
        0 <= from && to <= u64::MAX ==> random::drawn_u64(state, from as u64, to as u64) == (
            (from + random::bits_64(random::stepped(state)) as int % (to - from)) as u64,
            random::stepped(state),
        ),
        i16::MIN <= from && to <= i16::MAX ==> random::drawn_i16(state, from as i16, to as i16) == (
            (from + random::bits_32(random::stepped(state)) as int % 65536 % (to - from)) as i16,
            random::stepped(state),
        ),
{
    reveal(random::drawn_u32);
    reveal(random::drawn_u64);
    reveal(random::drawn_i16);
}

} // verus!
