use vstd::arithmetic::div_mod::{
    lemma_fundamental_div_mod, lemma_mod_multiples_vanish, lemma_mul_mod_noop, lemma_mul_mod_noop_left,
    lemma_mul_mod_noop_right, lemma_small_mod,
};
use vstd::arithmetic::power::{
    lemma1_pow, lemma_pow0, lemma_pow1, lemma_pow_adds, lemma_pow_distributes, lemma_pow_mod_noop,
    lemma_pow_multiplies, lemma_square_is_pow2, pow,
};
use vstd::set_lib::{lemma_int_range, lemma_len_subset, lemma_map_size_bound, set_int_range};
use vstd::prelude::*;

use crate::baby_giant::{
    baby_table, lemma_baby_table_latest, lemma_same_group_run, lemma_scan_result, power, scan,
    same_group, spec_run, walk, BabyGiantOps, GroupModel,
};
use std::collections::HashMap;

verus! {

/// `y` is the inverse of `a` modulo `p`.
pub open spec fn is_inverse(a: int, y: int, p: int) -> bool {
    0 <= y < p && (a * y) % p == 1
}

/// The inverse of `a` modulo `p`, when there is one (it is unique: see `lemma_inverse_unique`).
pub open spec fn inverse_of(a: int, p: int) -> Option<int> {
    if exists|y: int| is_inverse(a, y, p) {
        Some(choose|y: int| is_inverse(a, y, p))
    } else {
        None
    }
}

/// The greatest common divisor, by Euclid's recursion.
pub open spec fn gcd(a: nat, b: nat) -> nat
    decreases b,
{
    if b == 0 {
        a
    } else {
        gcd(b, a % b)
    }
}

/// `x`, `y` congruent modulo `p` stay so after `x0 - q * x1` with congruent parts.
proof fn lemma_congruent_combination(x0: int, y0: int, x1: int, y1: int, q: int, p: int)
    requires
        p > 0,
        x0 % p == y0 % p,
        x1 % p == y1 % p,
    ensures
        (x0 - q * x1) % p == (y0 - q * y1) % p,
{
    lemma_fundamental_div_mod(x0, p);
    lemma_fundamental_div_mod(y0, p);
    lemma_fundamental_div_mod(x1, p);
    lemma_fundamental_div_mod(y1, p);
    let k = (x0 / p - y0 / p) - q * (x1 / p - y1 / p);
    assert(x0 - q * x1 == p * k + (y0 - q * y1)) by (nonlinear_arith)
        requires
            x0 == p * (x0 / p) + x0 % p,
            y0 == p * (y0 / p) + y0 % p,
            x1 == p * (x1 / p) + x1 % p,
            y1 == p * (y1 / p) + y1 % p,
            x0 % p == y0 % p,
            x1 % p == y1 % p,
            k == (x0 / p - y0 / p) - q * (x1 / p - y1 / p),
    ;
    lemma_mod_multiples_vanish(k, y0 - q * y1, p);
}

/// The inverse modulo `p` is unique.
pub proof fn lemma_inverse_unique(a: int, y1: int, y2: int, p: int)
    requires
        is_inverse(a, y1, p),
        is_inverse(a, y2, p),
    ensures
        y1 == y2,
{
    lemma_mul_mod_noop_right(y1, a * y2, p);
    lemma_mul_mod_noop_left(a * y1, y2, p);
    assert(y1 * (a * y2) == (a * y1) * y2) by (nonlinear_arith);
    lemma_small_mod(y1 as nat, p as nat);
    lemma_small_mod(y2 as nat, p as nat);
}

/// `gcd(a, b)` divides both `a` and `b`.
proof fn lemma_gcd_divides(a: nat, b: nat)
    requires
        a > 0 || b > 0,
    ensures
        gcd(a, b) > 0,
        a % gcd(a, b) == 0,
        b % gcd(a, b) == 0,
    decreases b,
{
    if b > 0 {
        lemma_gcd_divides(b, a % b);
        let g = gcd(a, b);
        lemma_fundamental_div_mod(a as int, b as int);
        lemma_fundamental_div_mod(b as int, g as int);
        lemma_fundamental_div_mod((a % b) as int, g as int);
        let k = (a / b) * (b / g) + (a % b) / g;
        assert(a == g * k) by (nonlinear_arith)
            requires
                a == b * (a / b) + a % b,
                b == g * (b / g),
                a % b == g * ((a % b) / g),
                k == (a / b) * (b / g) + (a % b) / g,
        ;
        lemma_mod_multiples_vanish(k as int, 0, g as int);
    }
}

/// Where `a` has an inverse modulo `p`, `gcd(a, p)` is 1.
proof fn lemma_inverse_coprime(a: nat, p: nat, y: int)
    requires
        p > 0,
        is_inverse(a as int, y, p as int),
    ensures
        gcd(a, p) == 1,
{
    lemma_gcd_divides(a, p);
    let g = gcd(a, p) as int;
    lemma_fundamental_div_mod(a as int, g);
    lemma_fundamental_div_mod(p as int, g);
    lemma_fundamental_div_mod(a * y, p as int);
    let w = (a as int / g) * y - (p as int / g) * ((a * y) / (p as int));
    assert(g * w == 1) by (nonlinear_arith)
        requires
            a == g * (a as int / g),
            p == g * (p as int / g),
            a * y == (p as int) * ((a * y) / (p as int)) + (a * y) % (p as int),
            (a * y) % (p as int) == 1,
            w == (a as int / g) * y - (p as int / g) * ((a * y) / (p as int)),
    ;
    assert(g == 1) by (nonlinear_arith)
        requires
            g > 0,
            g * w == 1,
    ;
}

/// Modular exponentiation by square-and-multiply: `base^exponent mod modulus`.
pub fn modular_exponentiation(base: u64, exponent: u64, modulus: u64) -> (r: u64)
    requires
        modulus > 0,
    ensures
        r == pow(base as int, exponent as nat) % (modulus as int),
{
    let p = modulus as u128;
    if modulus == 1 {
        proof {
            lemma_small_mod(0, 1);
            assert(pow(base as int, exponent as nat) % 1 == 0);
        }
        return 0;
    }
    let mut result: u128 = 1;
    let mut b: u128 = (base as u128) % p;
    let mut exp: u64 = exponent;
    proof {
        lemma_pow_mod_noop(base as int, exponent as nat, p as int);
        lemma_small_mod(1, p as nat);
    }
    while exp > 0
        invariant
            p == modulus as u128,
            p > 1,
            result < p,
            b < p,
            (result * pow(b as int, exp as nat)) % (p as int) == pow(base as int, exponent as nat)
                % (p as int),
        decreases exp,
    {
        let ghost r0 = result as int;
        let ghost b0 = b as int;
        let ghost e0 = exp as nat;
        assert(result * b < p * p && b * b < p * p && p * p <= u128::MAX) by (nonlinear_arith)
            requires
                result < p,
                b < p,
                p <= u64::MAX,
        ;
        if exp % 2 == 1 {
            result = (result * b) % p;
        }
        exp = exp / 2;
        b = (b * b) % p;
        proof {
            lemma_square_and_multiply(r0, b0, e0, p as int);
        }
    }
    proof {
        assert(pow(b as int, 0) == 1) by {
            reveal(pow);
        }
        lemma_small_mod(result as nat, p as nat);
    }
    result as u64
}

/// One step of square-and-multiply keeps `result * b^e mod p`.
proof fn lemma_square_and_multiply(r: int, b: int, e: nat, p: int)
    requires
        p > 1,
        e > 0,
    ensures
        ((if e % 2 == 1 {
            (r * b) % p
        } else {
            r
        }) * pow((b * b) % p, e / 2)) % p == (r * pow(b, e)) % p,
{
    let h = e / 2;
    let sq = pow((b * b) % p, h);
    lemma_pow_multiplies(b, 2, h);
    lemma_square_is_pow2(b);
    lemma_pow_mod_noop(b * b, h, p);
    assert(sq % p == pow(b, 2 * h) % p);
    if e % 2 == 1 {
        lemma_pow_adds(b, 1, 2 * h);
        lemma_pow1(b);
        assert(e == 1 + 2 * h);
        lemma_mul_mod_noop_left(r * b, sq, p);
        lemma_mul_mod_noop_right((r * b) % p, sq, p);
        lemma_mul_mod_noop_right(r * b, sq, p);
        lemma_mul_mod_noop_right(r * b, pow(b, 2 * h), p);
        assert((r * b) * pow(b, 2 * h) == r * (b * pow(b, 2 * h))) by (nonlinear_arith);
    } else {
        assert(e == 2 * h);
        lemma_mul_mod_noop_right(r, sq, p);
        lemma_mul_mod_noop_right(r, pow(b, 2 * h), p);
    }
}

/// The inverse of `a` modulo `p`, by the extended Euclidean algorithm; `None` when
/// `a` and `p` have a common divisor above 1.
pub fn modular_inverse(a: u64, p: u64) -> (r: Option<u64>)
    requires
        p > 0,
    ensures
        match r {
            Some(y) => inverse_of(a as int, p as int) == Some(y as int),
            None => inverse_of(a as int, p as int) is None,
        },
{
    if p == 1 {
        return None;
    }
    let pp = p as u128;
    let mut r0: u64 = a % p;
    let mut r1: u64 = p;
    let mut s0: u128 = 1;
    let mut s1: u128 = 0;
    proof {
        lemma_small_mod(1, p as nat);
        lemma_mul_mod_noop_left(a as int, 1, p as int);
        lemma_small_mod(r0 as nat, p as nat);
        lemma_mod_multiples_vanish(1, 0, p as int);
    }
    while r1 != 0
        invariant
            pp == p as u128,
            p > 1,
            s0 < pp,
            s1 < pp,
            r0 <= p,
            r1 <= p,
            (s0 * a) % (p as int) == (r0 as int) % (p as int),
            (s1 * a) % (p as int) == (r1 as int) % (p as int),
            gcd(r0 as nat, r1 as nat) == gcd((a % p) as nat, p as nat),
        decreases r1,
    {
        let q: u64 = r0 / r1;
        let r2: u64 = r0 % r1;
        assert(q <= r0) by {
            lemma_fundamental_div_mod(r0 as int, r1 as int);
            assert(q * r1 >= q) by (nonlinear_arith)
                requires
                    r1 >= 1,
                    q >= 0,
            ;
        }
        assert(q * s1 <= u128::MAX) by (nonlinear_arith)
            requires
                q <= p,
                s1 < p,
                p <= u64::MAX,
        ;
        let qs: u128 = ((q as u128) * s1) % pp;
        let s2: u128 = (s0 + pp - qs) % pp;
        proof {
            lemma_fundamental_div_mod(r0 as int, r1 as int);
            assert(r2 == r0 - q * r1);
            lemma_congruent_combination(s0 * a, r0 as int, s1 * a, r1 as int, q as int, p as int);
            assert(s0 * a - q * (s1 * a) == (s0 - q * s1) * a) by (nonlinear_arith);
            lemma_fundamental_div_mod(q * s1, p as int);
            assert(s0 + pp - qs == (s0 - q * s1) + p * (1 + (q * s1) / (p as int))) by (nonlinear_arith)
                requires
                    q * s1 == p * ((q * s1) / (p as int)) + (q * s1) % (p as int),
                    qs == (q * s1) % (p as int),
                    pp == p,
            ;
            lemma_mod_multiples_vanish(1 + (q * s1) / (p as int), s0 - q * s1, p as int);
            lemma_mul_mod_noop_left(s0 + pp - qs, a as int, p as int);
            lemma_mul_mod_noop_left(s0 - q * s1, a as int, p as int);
        }
        r0 = r1;
        r1 = r2;
        s0 = s1;
        s1 = s2;
    }
    proof {
        lemma_gcd_divides((a % p) as nat, p as nat);
        assert(gcd(r0 as nat, 0) == r0);
        lemma_mul_mod_noop_right(a as int, a as int, p as int);
    }
    if r0 == 1 {
        let y = s0 as u64;
        proof {
            lemma_small_mod(1, p as nat);
            assert((a * y) % (p as int) == 1) by {
                assert(a * y == s0 * a) by (nonlinear_arith)
                    requires
                        y == s0,
                ;
            }
            assert(is_inverse(a as int, y as int, p as int));
            let c = choose|z: int| is_inverse(a as int, z, p as int);
            lemma_inverse_unique(a as int, y as int, c, p as int);
        }
        Some(y)
    } else {
        proof {
            if exists|z: int| is_inverse(a as int, z, p as int) {
                let z = choose|z: int| is_inverse(a as int, z, p as int);
                lemma_mul_mod_noop_left(a as int, z, p as int);
                lemma_inverse_coprime((a % p) as nat, p as nat, z);
            }
        }
        None
    }
}

/// `r` is the integer square root of `n`.
pub open spec fn is_isqrt(n: u64, r: u64) -> bool {
    r * r <= n < (r + 1) * (r + 1)
}

/// The integer square root: the largest `r` with `r * r <= n`.
pub open spec fn isqrt_spec(n: u64) -> u64 {
    choose|r: u64| #[trigger] is_isqrt(n, r)
}

/// Only one `r` has `r * r <= n < (r + 1) * (r + 1)`.
proof fn lemma_isqrt_unique(n: u64, r: u64)
    requires
        r * r <= n < (r + 1) * (r + 1),
    ensures
        isqrt_spec(n) == r,
{
    assert(is_isqrt(n, r));
    let c = isqrt_spec(n);
    assert(is_isqrt(n, c));
    if c < r {
        assert((c + 1) * (c + 1) <= r * r) by (nonlinear_arith)
            requires
                c + 1 <= r,
        ;
    } else if c > r {
        assert((r + 1) * (r + 1) <= c * c) by (nonlinear_arith)
            requires
                r + 1 <= c,
        ;
    }
}

/// The integer square root: the largest `r` with `r * r <= n`.
pub fn isqrt(n: u64) -> (r: u64)
    ensures
        r * r <= n < (r + 1) * (r + 1),
        r == isqrt_spec(n),
{
    let mut lo: u64 = 0;
    let mut hi: u64 = 0x1_0000_0000;
    assert(hi * hi > u64::MAX) by (nonlinear_arith)
        requires
            hi == 0x1_0000_0000u64,
    ;
    while hi - lo > 1
        invariant
            lo < hi <= 0x1_0000_0000,
            lo * lo <= n,
            n < hi * hi,
        decreases hi - lo,
    {
        let mid: u64 = lo + (hi - lo) / 2;
        assert(mid * mid < 0x1_0000_0000 * 0x1_0000_0000) by (nonlinear_arith)
            requires
                mid < 0x1_0000_0000,
        ;
        if mid * mid <= n {
            lo = mid;
        } else {
            hi = mid;
        }
    }
    proof {
        assert(hi == lo + 1);
        lemma_isqrt_unique(n, lo);
    }
    lo
}

/// A table keyed by machine integers, seen with integer keys.
pub open spec fn int_keyed(t: Map<u64, u64>) -> Map<int, u64> {
    Map::new(|k: int| 0 <= k <= u64::MAX && t.contains_key(k as u64), |k: int| t[k as u64])
}

proof fn lemma_int_keyed_insert(t: Map<u64, u64>, k: u64, v: u64)
    ensures
        int_keyed(t.insert(k, v)) == int_keyed(t).insert(k as int, v),
{
    assert(int_keyed(t.insert(k, v)) =~= int_keyed(t).insert(k as int, v));
}

/// The multiplicative group of integers modulo `modulus`, searched with `steps_count`
/// baby steps.
pub struct ModularBabyGiant {
    modulus: u64,
    steps_count: u64,
    baby_steps: HashMap<u64, u64>,
}

impl GroupModel for ModularBabyGiant {
    type El = u64;

    closed spec fn spec_wf(&self) -> bool {
        self.modulus > 0 && self.steps_count <= u32::MAX
    }

    closed spec fn spec_steps_count(&self) -> u64 {
        self.steps_count
    }

    closed spec fn spec_key(&self, e: u64) -> int {
        e as int
    }

    closed spec fn spec_op(&self, lhs: u64, rhs: u64) -> u64 {
        ((lhs * rhs) % (self.modulus as int)) as u64
    }

    /// The inverse of `base^m` modulo the modulus, or 0 where it has none.
    closed spec fn spec_jump(&self, base: u64) -> u64 {
        match inverse_of(pow(base as int, self.steps_count as nat) % (self.modulus as int), self.modulus as int) {
            Some(y) => y as u64,
            None => 0,
        }
    }

    closed spec fn spec_table(&self) -> Map<int, u64> {
        int_keyed(self.baby_steps@)
    }
}

impl ModularBabyGiant {
    /// The modulus of the group.
    pub closed spec fn spec_modulus(&self) -> u64 {
        self.modulus
    }

    /// A solver for the integers modulo `modulus` with an empty table.
    pub fn new(modulus: u64, steps_count: u64) -> (r: Self)
        requires
            modulus > 0,
            steps_count <= u32::MAX,
        ensures
            r.spec_wf(),
            r.spec_modulus() == modulus,
            r.spec_steps_count() == steps_count,
            r.spec_table() == Map::<int, u64>::empty(),
    {
        let r = ModularBabyGiant { modulus, steps_count, baby_steps: HashMap::new() };
        proof {
            assert(r.spec_table() =~= Map::<int, u64>::empty());
        }
        r
    }

    /// The baby-step table, keyed by element.
    pub fn get_baby_steps(&self) -> (r: &HashMap<u64, u64>)
        ensures
            int_keyed(r@) == self.spec_table(),
    {
        &self.baby_steps
    }
}

impl BabyGiantOps for ModularBabyGiant {
    fn steps_count(&self) -> (r: u64) {
        self.steps_count
    }

    fn baby_steps(&mut self, base: &u64) {
        broadcast use vstd::std_specs::hash::group_hash_axioms;

        let ghost g = *self;
        let mut table: HashMap<u64, u64> = HashMap::new();
        let mut current: u64 = *base;
        let mut j: u64 = 0;
        proof {
            assert(int_keyed(table@) =~= Map::<int, u64>::empty());
        }
        while j < self.steps_count
            invariant
                *self == g,
                g.spec_wf(),
                j <= g.spec_steps_count(),
                current == crate::baby_giant::power(g, *base, (j + 1) as nat),
                int_keyed(table@) == baby_table(g, *base, j as nat),
            decreases g.spec_steps_count() - j,
        {
            j = j + 1;
            let ghost before = table@;
            table.insert(current, j);
            proof {
                lemma_int_keyed_insert(before, current, j);
            }
            current = self.el_operation(&current, base);
        }
        self.baby_steps = table;
    }

    fn in_baby_steps(&self, target: &u64) -> (r: Option<u64>) {
        broadcast use vstd::std_specs::hash::group_hash_axioms;

        match self.baby_steps.get(target) {
            Some(v) => Some(*v),
            None => None,
        }
    }

    fn el_operation(&self, lhs: &u64, rhs: &u64) -> (r: u64) {
        let a = *lhs as u128;
        let b = *rhs as u128;
        assert(a * b <= u128::MAX) by (nonlinear_arith)
            requires
                a <= u64::MAX,
                b <= u64::MAX,
        ;
        ((a * b) % (self.modulus as u128)) as u64
    }

    fn giant_step_jump(&self, base: &u64) -> (r: u64) {
        let bm = modular_exponentiation(*base, self.steps_count, self.modulus);
        match modular_inverse(bm, self.modulus) {
            Some(y) => y,
            None => 0,
        }
    }

    fn process_result(&self, baby: u64, giant: u64) -> (r: u64) {
        let m = self.steps_count;
        assert(giant * m + baby <= m * m && m * m <= u64::MAX) by (nonlinear_arith)
            requires
                giant < m,
                baby <= m,
                m <= u32::MAX,
        ;
        giant * m + baby
    }
}

/// The largest modulus whose step count `isqrt(modulus) + 1` keeps `m * m` in a `u64`.
pub const MAX_MODULUS: u64 = 0xFFFF_FFFE_0000_0000;

/// Solves `base^x == target (mod modulus)` with `m = isqrt(modulus) + 1` steps, which
/// covers every exponent below the modulus.
pub fn baby_step_giant_step(base: u64, target: u64, modulus: u64) -> (r: Option<u64>)
    requires
        0 < modulus <= MAX_MODULUS,
    ensures
        forall|g: ModularBabyGiant|
            g.spec_modulus() == modulus && g.spec_steps_count() == isqrt_spec(modulus) + 1
                ==> #[trigger] spec_run(g, base, target) == r,
{
    let root = isqrt(modulus);
    assert(root + 1 <= u32::MAX) by (nonlinear_arith)
        requires
            root * root <= modulus,
            modulus <= MAX_MODULUS,
    ;
    let mut solver = ModularBabyGiant::new(modulus, root + 1);
    let ghost s0 = solver;
    let r = solver.run(base, target);
    proof {
        assert forall|g: ModularBabyGiant|
            g.spec_modulus() == modulus && g.spec_steps_count() == isqrt_spec(modulus) + 1
                implies #[trigger] spec_run(g, base, target) == r by {
            lemma_isqrt_unique(modulus, root);
            assert(same_group(g, s0));
            lemma_same_group_run(g, s0, base, target);
        }
    }
    r
}

/// `b` has multiplicative order `o` modulo `p`: `o` is the least positive exponent with
/// `b^o == 1 (mod p)`.
pub open spec fn has_order(b: int, o: nat, p: int) -> bool {
    &&& o >= 1
    &&& pow(b, o) % p == 1
    &&& forall|i: nat| 0 < i < o ==> #[trigger] pow(b, i) % p != 1
}

/// A baby step of a reduced base is its power modulo the modulus.
proof fn lemma_power_is_pow(s: ModularBabyGiant, b: u64, j: nat)
    requires
        s.spec_wf(),
        b < s.modulus,
        j >= 1,
    ensures
        power(s, b, j) as int == pow(b as int, j) % (s.modulus as int),
    decreases j,
{
    let p = s.modulus as int;
    if j == 1 {
        lemma_pow1(b as int);
        lemma_small_mod(b as nat, p as nat);
    } else {
        lemma_power_is_pow(s, b, (j - 1) as nat);
        lemma_pow_adds(b as int, (j - 1) as nat, 1);
        lemma_pow1(b as int);
        lemma_mul_mod_noop_left(pow(b as int, (j - 1) as nat), b as int, p);
    }
}

/// The giant steps from a reduced `target` are `target * jump^t` modulo the modulus.
proof fn lemma_walk_is_pow(s: ModularBabyGiant, target: u64, jump: u64, t: nat)
    requires
        s.spec_wf(),
        target < s.modulus,
    ensures
        walk(s, target, jump, t) as int == (target * pow(jump as int, t)) % (s.modulus as int),
    decreases t,
{
    let p = s.modulus as int;
    if t == 0 {
        lemma_pow0(jump as int);
        lemma_small_mod(target as nat, p as nat);
    } else {
        lemma_walk_is_pow(s, target, jump, (t - 1) as nat);
        let prev = pow(jump as int, (t - 1) as nat);
        lemma_pow_adds(jump as int, (t - 1) as nat, 1);
        lemma_pow1(jump as int);
        lemma_mul_mod_noop_left(target * prev, jump as int, p);
        assert((target * prev) * jump == target * (prev * jump)) by (nonlinear_arith);
    }
}

/// A power of a number congruent to 1 is congruent to 1.
proof fn lemma_pow_of_one(a: int, t: nat, p: int)
    requires
        p > 1,
        a % p == 1,
    ensures
        pow(a, t) % p == 1,
{
    lemma_pow_mod_noop(a, t, p);
    lemma1_pow(t);
    lemma_small_mod(1, p as nat);
}

/// Where `base` has an order, the jump is the inverse of `base^m`.
proof fn lemma_jump_inverts(s: ModularBabyGiant, b: u64, o: nat)
    requires
        s.spec_wf(),
        has_order(b as int, o, s.modulus as int),
    ensures
        s.modulus > 1,
        (pow(b as int, s.steps_count as nat) * (s.spec_jump(b) as int)) % (s.modulus as int) == 1,
{
    let p = s.modulus as int;
    let m = s.steps_count as nat;
    assert(p > 1) by {
        if p == 1 {
            assert(pow(b as int, o) % 1 == 0);
        }
    }
    let bm = pow(b as int, m) % p;
    let e = ((o - 1) * m) as nat;
    let w = pow(b as int, e) % p;
    lemma_mul_mod_noop(pow(b as int, m), pow(b as int, e), p);
    lemma_pow_adds(b as int, m, e);
    assert(m + e == o * m) by (nonlinear_arith)
        requires
            e == (o - 1) * m,
            o >= 1,
    ;
    lemma_pow_multiplies(b as int, o, m);
    lemma_pow_of_one(pow(b as int, o), m, p);
    assert(is_inverse(bm, w, p));
    let c = choose|y: int| is_inverse(bm, y, p);
    assert(is_inverse(bm, c, p));
    assert(s.spec_jump(b) as int == c);
    lemma_mul_mod_noop_left(pow(b as int, m), c, p);
}

/// With the jump inverting `base^m`, `t` giant steps from `base^x` reach `base^(x - m t)`.
proof fn lemma_walk_reaches(s: ModularBabyGiant, b: u64, x: nat, t: nat)
    requires
        s.spec_wf(),
        s.modulus > 1,
        (pow(b as int, s.steps_count as nat) * (s.spec_jump(b) as int)) % (s.modulus as int) == 1,
        s.steps_count * t <= x,
    ensures
        walk(
            s,
            (pow(b as int, x) % (s.modulus as int)) as u64,
            s.spec_jump(b),
            t,
        ) as int == pow(b as int, (x - s.steps_count * t) as nat) % (s.modulus as int),
{
    let p = s.modulus as int;
    let m = s.steps_count as nat;
    let jump = s.spec_jump(b);
    let target = pow(b as int, x) % p;
    lemma_walk_is_pow(s, target as u64, jump, t);
    let rest = (x - m * t) as nat;
    let a = pow(b as int, m) * jump;
    lemma_pow_of_one(a, t, p);
    lemma_pow_distributes(pow(b as int, m), jump as int, t);
    lemma_pow_multiplies(b as int, m, t);
    lemma_pow_adds(b as int, rest, m * t);
    let big = pow(b as int, m * t);
    let jt = pow(jump as int, t);
    lemma_mul_mod_noop_right(pow(b as int, rest), pow(a, t), p);
    assert(pow(b as int, rest) * (big * jt) == (pow(b as int, rest) * big) * jt) by (nonlinear_arith);
    lemma_mul_mod_noop_left(pow(b as int, x), jt, p);
}

/// Whatever giant step is reached, adding back `m t` baby steps gives the target.
proof fn lemma_walk_returns(s: ModularBabyGiant, b: u64, target: u64, t: nat)
    requires
        s.spec_wf(),
        s.modulus > 1,
        target < s.modulus,
        (pow(b as int, s.steps_count as nat) * (s.spec_jump(b) as int)) % (s.modulus as int) == 1,
    ensures
        (walk(s, target, s.spec_jump(b), t) * pow(b as int, (s.steps_count * t) as nat)) % (s.modulus as int)
            == target,
{
    let p = s.modulus as int;
    let m = s.steps_count as nat;
    let jump = s.spec_jump(b);
    lemma_walk_is_pow(s, target, jump, t);
    let a = pow(b as int, m) * jump;
    lemma_pow_of_one(a, t, p);
    lemma_pow_distributes(pow(b as int, m), jump as int, t);
    lemma_pow_multiplies(b as int, m, t);
    let big = pow(b as int, m * t);
    let jt = pow(jump as int, t);
    lemma_mul_mod_noop_left(target * jt, big, p);
    assert((target * jt) * big == target * (big * jt)) by (nonlinear_arith);
    lemma_mul_mod_noop_right(target as int, pow(a, t), p);
    lemma_small_mod(target as nat, p as nat);
}

/// The powers `b^1, ..., b^o` of a base of order `o` are distinct.
proof fn lemma_powers_distinct(b: int, o: nat, p: int, i: nat, k: nat)
    requires
        p > 1,
        has_order(b, o, p),
        1 <= i < k <= o,
    ensures
        pow(b, i) % p != pow(b, k) % p,
{
    if pow(b, i) % p == pow(b, k) % p {
        let up = (o - i) as nat;
        let d = (k - i) as nat;
        lemma_mul_mod_noop_left(pow(b, i), pow(b, up), p);
        lemma_mul_mod_noop_left(pow(b, k), pow(b, up), p);
        lemma_pow_adds(b, i, up);
        lemma_pow_adds(b, k, up);
        lemma_pow_adds(b, o, d);
        assert(k + up == o + d);
        lemma_mul_mod_noop_left(pow(b, o), pow(b, d), p);
        assert(pow(b, d) % p == 1);
        assert(0 < d < o);
    }
}

/// A power of a base of order `o` depends on the exponent modulo `o` alone.
proof fn lemma_pow_reduce(b: int, o: nat, p: int, x: nat)
    requires
        p > 1,
        has_order(b, o, p),
    ensures
        pow(b, x) % p == pow(b, x % o) % p,
{
    lemma_fundamental_div_mod(x as int, o as int);
    let q = x / o;
    let r = x % o;
    lemma_pow_adds(b, o * q, r);
    lemma_pow_multiplies(b, o, q);
    lemma_pow_of_one(pow(b, o), q, p);
    lemma_mul_mod_noop_left(pow(b, o * q), pow(b, r), p);
}

/// Completeness: for a base of order `o` whose powers `base^1, ..., base^m` are distinct
/// (no two baby steps share a key), a search for `base^x` with `1 <= x <= m * m` and
/// `x <= o` returns exactly `x`.
pub proof fn lemma_completeness(s: ModularBabyGiant, b: u64, o: nat, x: nat)
    requires
        s.spec_wf(),
        b < s.spec_modulus(),
        has_order(b as int, o, s.spec_modulus() as int),
        forall|i: nat, j: nat|
            #![trigger pow(b as int, i), pow(b as int, j)]
            1 <= i < j <= s.spec_steps_count() ==> pow(b as int, i) % (s.spec_modulus() as int)
                != pow(b as int, j) % (s.spec_modulus() as int),
        1 <= x <= s.spec_steps_count() * s.spec_steps_count(),
        x <= o,
    ensures
        spec_run(s, b, (pow(b as int, x) % (s.spec_modulus() as int)) as u64) == Some(x as u64),
{
    let p = s.modulus as int;
    let m = s.steps_count as nat;
    let jump = s.spec_jump(b);
    let target = (pow(b as int, x) % p) as u64;
    let table = baby_table(s, b, m);
    lemma_jump_inverts(s, b, o);
    lemma_baby_table_latest(s, b, m);
    lemma_fundamental_div_mod(x - 1, m as int);
    let ts = ((x - 1) / (m as int)) as nat;
    let js = ((x - 1) % (m as int) + 1) as nat;
    assert(1 <= js <= m && ts < m && x == m * ts + js && x <= u64::MAX) by (nonlinear_arith)
        requires
            x - 1 == m * ts + (x - 1) % (m as int),
            0 <= (x - 1) % (m as int) < m,
            js == (x - 1) % (m as int) + 1,
            1 <= x <= m * m,
            m <= u32::MAX,
    ;
    lemma_walk_reaches(s, b, x, ts);
    lemma_power_is_pow(s, b, js);
    let hit = walk(s, target, jump, ts);
    assert(s.spec_key(hit) == s.spec_key(power(s, b, js)));
    assert(table.contains_key(s.spec_key(hit)));
    let v = table[s.spec_key(hit)];
    assert(v == js) by {
        lemma_power_is_pow(s, b, v as nat);
        if v > js {
            assert(pow(b as int, js) % p != pow(b as int, v as nat) % p);
        }
    }
    assert forall|w: nat| w < ts implies !table.contains_key(s.spec_key(#[trigger] walk(s, target, jump, w))) by {
        assert(m * w <= x) by (nonlinear_arith)
            requires
                w < ts,
                x == m * ts + js,
                js >= 1,
        ;
        lemma_walk_reaches(s, b, x, w);
        let e = (x - m * w) as nat;
        assert(e > m) by (nonlinear_arith)
            requires
                w < ts,
                e == x - m * w,
                x == m * ts + js,
                js >= 1,
        ;
        let k = s.spec_key(walk(s, target, jump, w));
        if table.contains_key(k) {
            let u = table[k];
            lemma_power_is_pow(s, b, u as nat);
            lemma_powers_distinct(b as int, o, p, u as nat, e);
        }
    }
    lemma_scan_result(s, table, jump, target, 0);
    match scan(s, table, jump, walk(s, target, jump, 0), 0) {
        Some(r) => {
            let u = choose|u: nat|
                {
                    &&& 0 <= u < m
                    &&& table.contains_key(s.spec_key(#[trigger] walk(s, target, jump, u)))
                    &&& r == (u * m + table[s.spec_key(walk(s, target, jump, u))]) as u64
                    &&& forall|w: nat|
                        0 <= w < u ==> !table.contains_key(s.spec_key(#[trigger] walk(s, target, jump, w)))
                };
            if u < ts {
            } else if u > ts {
                assert(0 <= ts < u);
            }
            assert(u == ts);
        },
        None => {
            assert(0 <= ts < m);
        },
    }
}

/// Soundness: for a base with an order, any answer `r` of a search for a reduced `target`
/// lies in `1..=m*m` and has `base^r == target (mod modulus)`.
pub proof fn lemma_soundness(s: ModularBabyGiant, b: u64, o: nat, target: u64)
    requires
        s.spec_wf(),
        b < s.spec_modulus(),
        target < s.spec_modulus(),
        has_order(b as int, o, s.spec_modulus() as int),
    ensures
        match spec_run(s, b, target) {
            Some(r) => 1 <= r <= s.spec_steps_count() * s.spec_steps_count() && pow(b as int, r as nat)
                % (s.spec_modulus() as int) == target,
            None => true,
        },
{
    let p = s.modulus as int;
    let m = s.steps_count as nat;
    let jump = s.spec_jump(b);
    let table = baby_table(s, b, m);
    lemma_jump_inverts(s, b, o);
    lemma_baby_table_latest(s, b, m);
    lemma_scan_result(s, table, jump, target, 0);
    if let Some(r) = scan(s, table, jump, walk(s, target, jump, 0), 0) {
        let u = choose|u: nat|
            {
                &&& 0 <= u < m
                &&& table.contains_key(s.spec_key(#[trigger] walk(s, target, jump, u)))
                &&& r == (u * m + table[s.spec_key(walk(s, target, jump, u))]) as u64
                &&& forall|w: nat|
                    0 <= w < u ==> !table.contains_key(s.spec_key(#[trigger] walk(s, target, jump, w)))
            };
        let here = walk(s, target, jump, u);
        let v = table[s.spec_key(here)];
        lemma_power_is_pow(s, b, v as nat);
        lemma_walk_returns(s, b, target, u);
        let e = v + m * u;
        assert(1 <= e <= m * m && m * m <= u64::MAX && u * m == m * u) by (nonlinear_arith)
            requires
                e == v + m * u,
                1 <= v <= m,
                u < m,
                m <= u32::MAX,
        ;
        lemma_pow_adds(b as int, v as nat, m * u);
        lemma_mul_mod_noop_left(pow(b as int, v as nat), pow(b as int, m * u), p);
        assert(r == e);
    }
}

/// Bounded failure: a search for `base^x` with `x > m * m` finds nothing, where the
/// order `o` of `base` exceeds `m * m` and `x mod o` is 0 or above `m * m` (otherwise
/// `base^x` equals a power inside the window, which is found).
pub proof fn lemma_bounded_failure(s: ModularBabyGiant, b: u64, o: nat, x: nat)
    requires
        s.spec_wf(),
        b < s.spec_modulus(),
        has_order(b as int, o, s.spec_modulus() as int),
        s.spec_steps_count() * s.spec_steps_count() < o,
        x > s.spec_steps_count() * s.spec_steps_count(),
        x % o == 0 || x % o > s.spec_steps_count() * s.spec_steps_count(),
    ensures
        spec_run(s, b, (pow(b as int, x) % (s.spec_modulus() as int)) as u64) is None,
{
    let p = s.modulus as int;
    let m = s.steps_count as nat;
    let target = (pow(b as int, x) % p) as u64;
    lemma_jump_inverts(s, b, o);
    lemma_soundness(s, b, o, target);
    lemma_pow_reduce(b as int, o, p, x);
    if let Some(r) = spec_run(s, b, target) {
        if x % o == 0 {
            lemma_pow0(b as int);
            lemma_small_mod(1, p as nat);
            assert(pow(b as int, r as nat) % p == 1);
            assert(0 < r < o);
        } else {
            lemma_powers_distinct(b as int, o, p, r as nat, x % o);
        }
        assert(false);
    }
}

/// The baby-step table of a base of order `o` holds at most `o` encodings, whatever
/// the step count.
pub proof fn lemma_table_size_bounded_by_order(s: ModularBabyGiant, b: u64, o: nat)
    requires
        s.spec_wf(),
        b < s.spec_modulus(),
        has_order(b as int, o, s.spec_modulus() as int),
    ensures
        baby_table(s, b, s.spec_steps_count() as nat).dom().finite(),
        baby_table(s, b, s.spec_steps_count() as nat).dom().len() <= o,
{
    let p = s.modulus as int;
    let m = s.steps_count as nat;
    let table = baby_table(s, b, m);
    lemma_jump_inverts(s, b, o);
    lemma_baby_table_latest(s, b, m);
    let f = |i: int| pow(b as int, i as nat) % p;
    let range = set_int_range(1, o as int + 1);
    let image = range.map(f);
    lemma_int_range(1, o as int + 1);
    lemma_map_size_bound(range, image, f);
    assert forall|k: int| #[trigger] table.dom().contains(k) implies image.contains(k) by {
        let v = table[k];
        lemma_power_is_pow(s, b, v as nat);
        lemma_pow_reduce(b as int, o, p, v as nat);
        let r = (v as nat) % o;
        if r == 0 {
            lemma_pow0(b as int);
            lemma_small_mod(1, p as nat);
            assert(f(o as int) == k);
            assert(range.contains(o as int));
        } else {
            assert(f(r as int) == k);
            assert(range.contains(r as int));
        }
    }
    lemma_len_subset(table.dom(), image);
}

} // verus!
