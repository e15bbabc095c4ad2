//! Probe sequences: the order in which a table visits its chunks for a hash.

use vstd::arithmetic::div_mod::*;
use vstd::arithmetic::power2::*;
use vstd::prelude::*;

verus! {

/// How far a probe sequence moves at each step.
#[derive(Clone, Copy, Debug, PartialEq, Eq, Structural)]
pub enum Probe {
    /// One chunk further at each step.
    Linear,
    /// One chunk further at the first step, two at the second, and so on.
    Triangular,
}

impl Probe {
    /// How far the chunk at step `d` lies from the first one.
    pub open spec fn offset(self, d: int) -> int {
        match self {
            Probe::Linear => d,
            Probe::Triangular => d * (d + 1) / 2,
        }
    }

    /// The chunk, out of `n`, that is visited for a hash at step `d`.
    pub open spec fn pos(self, n: int, hash: u64, d: int) -> int {
        (hash + self.offset(d)) % n
    }
}

/// If a power of two divides a product with an odd factor, it divides the
/// other factor.
proof fn lemma_odd_factor(e: nat, a: int, b: int)
    requires
        a % 2 == 1,
        (a * b) % (pow2(e) as int) == 0,
    ensures
        b % (pow2(e) as int) == 0,
    decreases e,
{
    lemma_pow2_pos(e);
    if e == 0 {
        lemma2_to64();
    } else {
        let half = pow2((e - 1) as nat) as int;
        lemma_pow2_pos((e - 1) as nat);
        lemma_pow2_unfold(e);
        assert(pow2(e) == 2 * half);
        let q = (a * b) / (2 * half);
        lemma_fundamental_div_mod(a * b, 2 * half);
        assert(a * b == 2 * (half * q)) by (nonlinear_arith)
            requires
                a * b == (2 * half) * q,
        ;
        if b % 2 == 1 {
            let x = a / 2;
            let y = b / 2;
            assert(a * b == 2 * (2 * (x * y) + x + y) + 1) by (nonlinear_arith)
                requires
                    a == 2 * x + 1,
                    b == 2 * y + 1,
            ;
        }
        let c = b / 2;
        assert(b == 2 * c);
        assert(a * b == 2 * (a * c)) by (nonlinear_arith)
            requires
                b == 2 * c,
        ;
        assert(a * c == half * q);
        assert((half * q) % half == 0) by {
            lemma_mod_multiples_basic(q, half);
            assert(half * q == q * half) by (nonlinear_arith);
        }
        lemma_odd_factor((e - 1) as nat, a, c);
        let r = c / half;
        lemma_fundamental_div_mod(c, half);
        assert(b == r * (2 * half)) by (nonlinear_arith)
            requires
                b == 2 * c,
                c == half * r,
        ;
        lemma_mod_multiples_basic(r, 2 * half);
    }
}

/// Two steps of a probe sequence over `2^e` chunks never meet.
proof fn lemma_offsets_differ(probe: Probe, e: nat, d1: int, d2: int)
    requires
        0 <= d1 < d2 < pow2(e),
    ensures
        (probe.offset(d2) - probe.offset(d1)) % (pow2(e) as int) != 0,
{
    let n = pow2(e) as int;
    match probe {
        Probe::Linear => {
            lemma_small_mod((d2 - d1) as nat, n as nat);
        },
        Probe::Triangular => {
            let gap = probe.offset(d2) - probe.offset(d1);
            let a = d2 - d1;
            let b = d1 + d2 + 1;
            assert(a * b == d2 * (d2 + 1) - d1 * (d1 + 1)) by (nonlinear_arith)
                requires
                    a == d2 - d1,
                    b == d1 + d2 + 1,
            ;
            lemma_consecutive_product(d1);
            lemma_consecutive_product(d2);
            assert(a * b == 2 * gap);
            if gap % n == 0 {
                let q = gap / n;
                lemma_fundamental_div_mod(gap, n);
                lemma_pow2_unfold(e + 1);
                assert(pow2(e + 1) == 2 * n);
                assert(a * b == q * (2 * n)) by (nonlinear_arith)
                    requires
                        a * b == 2 * gap,
                        gap == n * q,
                ;
                lemma_mod_multiples_basic(q, 2 * n);
                if a % 2 == 1 {
                    lemma_odd_factor(e + 1, a, b);
                    lemma_small_mod(b as nat, (2 * n) as nat);
                } else {
                    assert(b % 2 == 1);
                    assert(a * b == b * a) by (nonlinear_arith);
                    lemma_odd_factor(e + 1, b, a);
                    lemma_small_mod(a as nat, (2 * n) as nat);
                }
            }
        },
    }
}

proof fn lemma_consecutive_product(d: int)
    ensures
        (d * (d + 1)) % 2 == 0,
{
    let h = d / 2;
    if d % 2 == 0 {
        assert(d * (d + 1) == 2 * (h * (d + 1))) by (nonlinear_arith)
            requires
                d == 2 * h,
        ;
    } else {
        assert(d * (d + 1) == 2 * (d * (h + 1))) by (nonlinear_arith)
            requires
                d == 2 * h + 1,
        ;
    }
}

/// A probe sequence over a power of two of chunks never comes back to a chunk.
pub proof fn law_probe_is_injective(probe: Probe, n: int, hash: u64, d1: int, d2: int)
    requires
        is_pow2(n),
        0 <= d1 < n,
        0 <= d2 < n,
    ensures
        probe.pos(n, hash, d1) == probe.pos(n, hash, d2) <==> d1 == d2,
{
    is_pow2_equiv(n);
    let e = choose|e: nat| vstd::arithmetic::power::pow(2, e) == n;
    lemma_pow2_pos(e);
    assert(pow2(e) == n);
    if d1 != d2 && probe.pos(n, hash, d1) == probe.pos(n, hash, d2) {
        let (lo, hi) = if d1 < d2 {
            (d1, d2)
        } else {
            (d2, d1)
        };
        lemma_offsets_differ(probe, e, lo, hi);
        lemma_mod_equivalence(hash + probe.offset(hi), hash + probe.offset(lo), n);
    }
}

/// A probe sequence over a power of two of chunks visits every chunk.
pub proof fn law_probe_is_complete(probe: Probe, n: int, hash: u64, i: int)
    requires
        is_pow2(n),
        0 <= i < n,
    ensures
        exists|d: int| 0 <= d < n && #[trigger] probe.pos(n, hash, d) == i,
{
    let f = |d: int| probe.pos(n, hash, d);
    let steps = vstd::set_lib::set_int_range(0, n);
    let image = steps.map(f);
    vstd::set_lib::lemma_int_range(0, n);
    assert forall|d1: int, d2: int| #![trigger f(d1), f(d2)]
        steps.contains(d1) && steps.contains(d2) && f(d1) == f(d2) implies d1 == d2 by {
        law_probe_is_injective(probe, n, hash, d1, d2);
    }
    vstd::set_lib::lemma_map_size(steps, image, f);
    assert(image.subset_of(steps)) by {
        assert forall|p: int| image.contains(p) implies steps.contains(p) by {
            let d = choose|d: int| steps.contains(d) && f(d) == p;
            lemma_mod_bound(hash + probe.offset(d), n);
        }
    }
    vstd::set_lib::lemma_subset_equality(image, steps);
    assert(image.contains(i));
    let d = choose|d: int| steps.contains(d) && f(d) == i;
    assert(probe.pos(n, hash, d) == i);
}

/// One step of a probe sequence.
pub proof fn lemma_probe_step(probe: Probe, n: int, hash: u64, d: int)
    requires
        n > 0,
        d >= 0,
    ensures
        0 <= probe.pos(n, hash, d) < n,
        probe.pos(n, hash, 0) == hash as int % n,
        probe.pos(n, hash, d + 1) == (probe.pos(n, hash, d) + (match probe {
            Probe::Linear => 1,
            Probe::Triangular => d + 1,
        })) % n,
{
    lemma_mod_bound(hash + probe.offset(d), n);
    let step = match probe {
        Probe::Linear => 1,
        Probe::Triangular => d + 1,
    };
    lemma_consecutive_product(d);
    lemma_consecutive_product(d + 1);
    assert((d + 1) * (d + 2) == d * (d + 1) + 2 * (d + 1)) by (nonlinear_arith);
    assert(probe.offset(d + 1) == probe.offset(d) + step);
    lemma_add_mod_noop(hash + probe.offset(d), step, n);
    lemma_add_mod_noop(probe.pos(n, hash, d), step, n);
    lemma_mod_twice(hash + probe.offset(d), n);
    assert(0int * (0int + 1) == 0) by (nonlinear_arith);
}

} // verus!
