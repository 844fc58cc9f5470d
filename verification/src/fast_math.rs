//! Exact integer square root.
use vstd::prelude::*;

verus! {

/// `r` is the integer square root of `n`: the largest value whose square
/// does not exceed `n`.
pub open spec fn is_isqrt(n: int, r: int) -> bool {
    0 <= r && r * r <= n && n < (r + 1) * (r + 1)
}

/// The square of `s`.
pub open spec fn sq(s: int) -> int {
    s * s
}

/// A Newton step from `x > 0` never undershoots a value whose square fits in
/// `n`.
proof fn lemma_newton_step(n: int, x: int, s: int)
    requires
        x >= 1,
        s >= 0,
        n >= 0,
        s * s <= n,
    ensures
        (x + n / x) / 2 >= s,
{
    let q = n / x;
    assert(x * q <= n < x * (q + 1)) by (nonlinear_arith)
        requires
            x >= 1,
            n >= 0,
            q == n / x,
    ;
    if x + q < 2 * s {
        assert(false) by (nonlinear_arith)
            requires
                x >= 1,
                s >= 0,
                s * s <= n,
                n < x * (q + 1),
                x + q + 1 <= 2 * s,
        ;
    }
}

/// A Newton step from `x` with `x * x > n` goes strictly down.
proof fn lemma_newton_descends(n: int, x: int)
    requires
        x >= 1,
        n >= 0,
        x * x > n,
    ensures
        (x + n / x) / 2 < x,
{
    let q = n / x;
    assert(x * q <= n) by (nonlinear_arith)
        requires
            x >= 1,
            n >= 0,
            q == n / x,
    ;
    assert(q < x) by (nonlinear_arith)
        requires
            x >= 1,
            x * q <= n,
            x * x > n,
    ;
}

/// Integer square root (floor of the square root of `n`), exact, by Newton's
/// iteration.
pub fn isqrt(n: u32) -> (r: u32)
    ensures
        is_isqrt(n as int, r as int),
{
    if n == 0 {
        assert(is_isqrt(0, 0)) by (nonlinear_arith);
        return 0;
    }
    let mut x = n;
    let mut y = n / 2 + n % 2;
    proof {
        assert forall|s: int| 0 <= s && #[trigger] sq(s) <= n implies s <= x && s <= y by {
            lemma_newton_step(n as int, n as int, s);
            assert(n as int / n as int == 1) by (nonlinear_arith)
                requires
                    n >= 1,
            ;
            if s > n {
                assert(s * s > n) by (nonlinear_arith)
                    requires
                        s > n,
                        n >= 1,
                ;
            }
        }
    }
    while y < x
        invariant
            1 <= x <= n,
            y as int == (x + n as int / x as int) / 2,
            forall|s: int| 0 <= s && #[trigger] sq(s) <= n ==> s <= x && s <= y,
        decreases x,
    {
        proof {
            assert(sq(1) <= n);
        }
        x = y;
        let next = (x as u64 + (n / x) as u64) / 2;
        proof {
            assert forall|s: int| 0 <= s && #[trigger] sq(s) <= n implies s <= next by {
                lemma_newton_step(n as int, x as int, s);
            }
            assert(n as int / x as int <= n) by (nonlinear_arith)
                requires
                    x >= 1,
                    n >= 0,
            ;
        }
        y = next as u32;
    }
    proof {
        if x * x > n {
            lemma_newton_descends(n as int, x as int);
        }
        if (x + 1) * (x + 1) <= n {
            assert(sq(x + 1) <= n);
        }
    }
    x
}

} // verus!
