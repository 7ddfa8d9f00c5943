//! Power-of-two arithmetic underlying the buddy system: the size classes are
//! the powers of two, and every block start is aligned to the block's size.

use vstd::prelude::*;
use vstd::arithmetic::div_mod::{
    lemma_fundamental_div_mod, lemma_div_is_ordered, lemma_mod_multiples_basic,
};

verus! {

/// Size of the arena in bytes: one fixed power of two.
pub const ARENA_SIZE: usize = 65536;

/// True when `n` is a power of two (1, 2, 4, ...).
pub open spec fn is_power_of_two(n: int) -> bool
    decreases n,
{
    if n <= 0 {
        false
    } else if n == 1 {
        true
    } else {
        n % 2 == 0 && is_power_of_two(n / 2)
    }
}

/// The smallest power of two that is at least `n` (and at least 1).
pub open spec fn align_up(n: int) -> int
    decreases n,
{
    if n <= 1 {
        1
    } else {
        2 * align_up((n + 1) / 2)
    }
}

/// A power of two is positive.
pub proof fn lemma_power_of_two_pos(n: int)
    requires
        is_power_of_two(n),
    ensures
        n >= 1,
{
}

/// The arena size itself is a power of two.
pub proof fn lemma_arena_power_of_two()
    ensures
        is_power_of_two(ARENA_SIZE as int),
{
    reveal_with_fuel(is_power_of_two, 20);
}

/// Between a power of two and any larger power of two there is room for a
/// whole doubling: `a < b` forces `2 * a <= b`.
pub proof fn lemma_pow2_double_le(a: int, b: int)
    requires
        is_power_of_two(a),
        is_power_of_two(b),
        a < b,
    ensures
        2 * a <= b,
    decreases b,
{
    lemma_power_of_two_pos(a);
    if b == 1 {
        assert(false);
    } else {
        if a == b / 2 {
            assert(b == 2 * (b / 2));
        } else if a < b / 2 {
            lemma_pow2_double_le(a, b / 2);
        } else {
            // b / 2 < a < b is impossible: applying the lemma to the pair
            // (b / 2, a) would squeeze b between two consecutive doublings.
            lemma_pow2_double_le(b / 2, a);
            assert(false);
        }
    }
}

/// A smaller power of two divides a larger one.
pub proof fn lemma_pow2_divides(a: int, b: int)
    requires
        is_power_of_two(a),
        is_power_of_two(b),
        a <= b,
    ensures
        b % a == 0,
    decreases b,
{
    lemma_power_of_two_pos(a);
    if a == b {
        assert(b % a == 0) by (nonlinear_arith)
            requires a == b, a >= 1;
    } else {
        lemma_pow2_double_le(a, b);
        lemma_pow2_divides(a, b / 2);
        let k = b / 2;
        lemma_fundamental_div_mod(k, a);
        assert(b == (2 * (k / a)) * a) by (nonlinear_arith)
            requires b == 2 * k, k == a * (k / a);
        lemma_mod_multiples_basic(2 * (k / a), a);
    }
}

/// Divisibility is transitive: a multiple of `b` is a multiple of any `a`
/// that divides `b`.
pub proof fn lemma_divides_transitive(x: int, a: int, b: int)
    requires
        a >= 1,
        b >= 1,
        x % b == 0,
        b % a == 0,
    ensures
        x % a == 0,
{
    lemma_fundamental_div_mod(x, b);
    lemma_fundamental_div_mod(b, a);
    assert(x == ((x / b) * (b / a)) * a) by (nonlinear_arith)
        requires x == b * (x / b), b == a * (b / a);
    lemma_mod_multiples_basic((x / b) * (b / a), a);
}

/// Two distinct multiples of `t` lie at least `t` apart.
pub proof fn lemma_aligned_gap(x: int, y: int, t: int)
    requires
        t >= 1,
        x % t == 0,
        y % t == 0,
        x < y,
    ensures
        x + t <= y,
{
    assert(x + t <= y) by (nonlinear_arith)
        requires t >= 1, x % t == 0, y % t == 0, x < y;
}

/// A multiple of `c` is, modulo `2 * c`, either `0` or `c`; in the latter
/// case stepping down by `c` reaches a multiple of `2 * c`.
pub proof fn lemma_mod_double(p: int, c: int)
    requires
        c >= 1,
        p >= 0,
        p % c == 0,
    ensures
        p % (2 * c) == 0 || p % (2 * c) == c,
        p % (2 * c) == c ==> (p - c) % (2 * c) == 0,
{
    let q = p / (2 * c);
    let r = p % (2 * c);
    lemma_fundamental_div_mod(p, 2 * c);
    lemma_fundamental_div_mod(p, c);
    let u = p / c;
    assert(r == (u - 2 * q) * c) by (nonlinear_arith)
        requires
            p == c * u,
            p == 2 * c * q + r,
    ;
    lemma_mod_multiples_basic(u - 2 * q, c);
    if r != 0 && r != c {
        lemma_mod_multiples_basic(0, c);
        lemma_mod_multiples_basic(1, c);
        if r < c {
            lemma_aligned_gap(0, r, c);
        } else {
            lemma_aligned_gap(c, r, c);
        }
        assert(false);
    }
    if r == c {
        assert(p - c == q * (2 * c)) by (nonlinear_arith)
            requires
                p == 2 * c * q + c,
        ;
        lemma_mod_multiples_basic(q, 2 * c);
    }
}

/// The sum of two multiples of `t` is a multiple of `t`.
pub proof fn lemma_mod_add_multiple(x: int, y: int, t: int)
    requires
        t >= 1,
        x % t == 0,
        y % t == 0,
    ensures
        (x + y) % t == 0,
{
    lemma_fundamental_div_mod(x, t);
    lemma_fundamental_div_mod(y, t);
    assert(x + y == (x / t + y / t) * t) by (nonlinear_arith)
        requires
            x == t * (x / t),
            y == t * (y / t),
    ;
    lemma_mod_multiples_basic(x / t + y / t, t);
}

/// `align_up` yields a power of two no smaller than its argument.
pub proof fn lemma_align_up_bounds(n: int)
    ensures
        is_power_of_two(align_up(n)),
        align_up(n) >= n,
        align_up(n) >= 1,
    decreases n,
{
    if n <= 1 {
    } else {
        let h = (n + 1) / 2;
        lemma_fundamental_div_mod(n + 1, 2);
        lemma_align_up_bounds(h);
    }
}

/// `align_up(n)` is the least power of two at least `n`: any power of two
/// `q >= n` is at least `align_up(n)`.
pub proof fn lemma_align_up_min(n: int, q: int)
    requires
        is_power_of_two(q),
        q >= n,
    ensures
        align_up(n) <= q,
    decreases n,
{
    lemma_power_of_two_pos(q);
    if n <= 1 {
    } else {
        let h = (n + 1) / 2;
        // q >= n >= 2, so q is an even power of two.
        lemma_fundamental_div_mod(q + 1, 2);
        lemma_div_is_ordered(n + 1, q + 1, 2);
        lemma_align_up_min(h, q / 2);
    }
}

/// On a power of two, `align_up` is the identity.
pub proof fn lemma_align_up_of_power_of_two(n: int)
    requires
        is_power_of_two(n),
    ensures
        align_up(n) == n,
{
    lemma_align_up_bounds(n);
    lemma_align_up_min(n, n);
}

/// Rounds a request up to the next power of two, the allocator's size class.
pub fn round_up_to_power_of_two(size: usize) -> (r: usize)
    requires
        1 <= size <= ARENA_SIZE,
    ensures
        r as int == align_up(size as int),
        is_power_of_two(r as int),
        size <= r <= ARENA_SIZE,
{
    proof {
        lemma_arena_power_of_two();
        lemma_align_up_bounds(size as int);
        lemma_align_up_min(size as int, ARENA_SIZE as int);
    }
    let mut p: usize = 1;
    while p < size
        invariant
            1 <= p,
            size <= ARENA_SIZE,
            is_power_of_two(p as int),
            p as int <= align_up(size as int),
            align_up(size as int) <= ARENA_SIZE as int,
        decreases align_up(size as int) - p,
    {
        proof {
            lemma_align_up_bounds(size as int);
            lemma_pow2_double_le(p as int, align_up(size as int));
        }
        p = p * 2;
    }
    proof {
        lemma_align_up_bounds(size as int);
        lemma_align_up_min(size as int, p as int);
    }
    p
}

} // verus!
