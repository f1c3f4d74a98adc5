use vstd::arithmetic::div_mod::{
    lemma_fundamental_div_mod, lemma_fundamental_div_mod_converse_div,
    lemma_fundamental_div_mod_converse_mod,
};
use vstd::prelude::*;

use crate::baby_giant::{
    baby_table, lemma_same_group_run, power, same_group, spec_run, BabyGiantOps,
    GroupModel,
};
use ark_ff::{BigInt, PrimeField};
use ark_ec::CurveGroup;
use ark_grumpkin::{Affine, Fq, Fr, Projective, G_GENERATOR_X, G_GENERATOR_Y};
use std::collections::HashMap;
use std::str::FromStr;

verus! {

/// 2^64.
pub const LIMB: u128 = 0x1_0000_0000_0000_0000;

/// 2^128.
pub open spec fn half_range() -> int {
    (LIMB as int) * (LIMB as int)
}

/// The order of Grumpkin's base field,
/// 21888242871839275222246405745257275088548364400416034343698204186575808495617.
pub open spec fn fq_modulus() -> int {
    0x30644e72e131a029b85045b68181585du128 * half_range() + 0x2833e84879b9709143e1f593f0000001u128
}

/// The integer that four little-endian 64-bit limbs hold.
pub open spec fn limbs_value(l: [u64; 4]) -> int {
    (l@[0] + l@[1] * (LIMB as int)) + (l@[2] + l@[3] * (LIMB as int)) * half_range()
}

/// A point of the Grumpkin curve in affine coordinates, each coordinate as the four
/// little-endian limbs of its canonical integer; the point at infinity has `infinity` set.
#[derive(Clone, Copy, Debug, PartialEq, Eq)]
pub struct Point {
    pub x: [u64; 4],
    pub y: [u64; 4],
    pub infinity: bool,
}

/// Both coordinates are canonical field elements.
pub open spec fn is_canonical(p: Point) -> bool {
    limbs_value(p.x) < fq_modulus() && limbs_value(p.y) < fq_modulus()
}

/// Grumpkin's standard generator `(1, 17631683881184975370165255887551781615748388533673675138860)`.
pub open spec fn generator() -> Point {
    Point {
        x: [1u64, 0u64, 0u64, 0u64],
        y: [0x833fc48d823f272cu64, 0x2d270d45f1181294u64, 0xcf135e7506a45d63u64, 0x2u64],
        infinity: false,
    }
}

/// A point in Jacobian coordinates `(X, Y, Z)`, standing for the affine point
/// `(X / Z^2, Y / Z^3)`, or for the point at infinity where `Z` is 0; each coordinate as
/// four little-endian limbs.
#[derive(Clone, Copy, Debug, PartialEq, Eq)]
pub struct Jacobian {
    pub x: [u64; 4],
    pub y: [u64; 4],
    pub z: [u64; 4],
}

/// The Jacobian form of an affine point: `(x, y, 1)`, or `(1, 1, 0)` at infinity.
pub open spec fn jacobian_of(p: Point) -> Jacobian {
    if p.infinity {
        Jacobian { x: [1u64, 0u64, 0u64, 0u64], y: [1u64, 0u64, 0u64, 0u64], z: [0u64, 0u64, 0u64, 0u64] }
    } else {
        Jacobian { x: p.x, y: p.y, z: [1u64, 0u64, 0u64, 0u64] }
    }
}

/// All three coordinates are canonical field elements.
pub open spec fn is_canonical_jacobian(p: Jacobian) -> bool {
    limbs_value(p.x) < fq_modulus() && limbs_value(p.y) < fq_modulus() && limbs_value(p.z) < fq_modulus()
}

/// The sum of two points under Grumpkin's group law, in Jacobian coordinates.
pub uninterp spec fn grumpkin_add(p: Jacobian, q: Jacobian) -> Jacobian;

/// `p` added to itself `k` times, in Jacobian coordinates.
pub uninterp spec fn grumpkin_mul(p: Jacobian, k: u64) -> Jacobian;

/// The negation of `p`, in Jacobian coordinates.
pub uninterp spec fn grumpkin_neg(p: Jacobian) -> Jacobian;

/// The affine form of `p`.
pub uninterp spec fn grumpkin_affine(p: Jacobian) -> Point;

/// Relies on ark_grumpkin's `G_GENERATOR_X` and `G_GENERATOR_Y`: the generator's coordinates.
#[verifier::external_body]
pub fn g() -> (r: Point)
    ensures
        r == generator(),
{
    Point { x: G_GENERATOR_X.into_bigint().0, y: G_GENERATOR_Y.into_bigint().0, infinity: false }
}

/// Relies on ark_ec's `Projective + Projective` (Jacobian addition): the result depends
/// on the two points alone.
#[verifier::external_body]
fn add_jacobian(p: &Jacobian, q: &Jacobian) -> (r: Jacobian)
    ensures
        r == grumpkin_add(*p, *q),
{
    let a = Projective::new_unchecked(Fq::new(BigInt::new(p.x)), Fq::new(BigInt::new(p.y)), Fq::new(BigInt::new(p.z)));
    let b = Projective::new_unchecked(Fq::new(BigInt::new(q.x)), Fq::new(BigInt::new(q.y)), Fq::new(BigInt::new(q.z)));
    let s = a + b;
    Jacobian { x: s.x.into_bigint().0, y: s.y.into_bigint().0, z: s.z.into_bigint().0 }
}

/// Relies on ark_ec's `Projective * Fr` with `Fr::from(k)`: the result depends on the
/// point and `k` alone.
#[verifier::external_body]
fn mul_jacobian(p: &Jacobian, k: u64) -> (r: Jacobian)
    ensures
        r == grumpkin_mul(*p, k),
{
    let a = Projective::new_unchecked(Fq::new(BigInt::new(p.x)), Fq::new(BigInt::new(p.y)), Fq::new(BigInt::new(p.z)));
    let s = a * Fr::from(k);
    Jacobian { x: s.x.into_bigint().0, y: s.y.into_bigint().0, z: s.z.into_bigint().0 }
}

/// Relies on ark_ec's `Neg for Projective`, which negates `Y` and keeps `X` and `Z`.
#[verifier::external_body]
fn neg_jacobian(p: &Jacobian) -> (r: Jacobian)
    ensures
        r == grumpkin_neg(*p),
        is_canonical_jacobian(*p) ==> {
            &&& r.x == p.x
            &&& r.z == p.z
            &&& limbs_value(r.y) == (fq_modulus() - limbs_value(p.y)) % fq_modulus()
        },
{
    let a = Projective::new_unchecked(Fq::new(BigInt::new(p.x)), Fq::new(BigInt::new(p.y)), Fq::new(BigInt::new(p.z)));
    let s = -a;
    Jacobian { x: s.x.into_bigint().0, y: s.y.into_bigint().0, z: s.z.into_bigint().0 }
}

/// Relies on ark_ec's `From<Projective> for Affine`: the affine form depends on the point
/// alone, and `into_bigint` gives canonical coordinates.
#[verifier::external_body]
fn affine_of(p: &Jacobian) -> (r: Point)
    ensures
        r == grumpkin_affine(*p),
        is_canonical(r),
{
    let a = Projective::new_unchecked(Fq::new(BigInt::new(p.x)), Fq::new(BigInt::new(p.y)), Fq::new(BigInt::new(p.z)));
    let s: Affine = a.into();
    Point { x: s.x.into_bigint().0, y: s.y.into_bigint().0, infinity: s.infinity }
}

/// Relies on ark_ec's `CurveGroup::normalize_batch`, which gives each point the affine form
/// that `From<Projective> for Affine` gives (`(X / Z^2, Y / Z^3)`, or the identity where
/// `Z` is 0) with one shared field inversion.
#[verifier::external_body]
fn affine_batch(v: &Vec<Jacobian>) -> (r: Vec<Point>)
    ensures
        r@.len() == v@.len(),
        forall|i: int| 0 <= i < v@.len() ==> r@[i] == grumpkin_affine(#[trigger] v@[i]),
{
    let ps: Vec<Projective> = v.iter().map(|p| Projective::new_unchecked(Fq::new(BigInt::new(p.x)), Fq::new(BigInt::new(p.y)), Fq::new(BigInt::new(p.z)))).collect();
    Projective::normalize_batch(&ps).iter().map(|s| Point { x: s.x.into_bigint().0, y: s.y.into_bigint().0, infinity: s.infinity }).collect()
}

impl Jacobian {
    /// The Jacobian form of an affine point.
    pub fn from_affine(p: &Point) -> (r: Jacobian)
        ensures
            r == jacobian_of(*p),
    {
        if p.infinity {
            Jacobian { x: [1, 0, 0, 0], y: [1, 0, 0, 0], z: [0, 0, 0, 0] }
        } else {
            Jacobian { x: p.x, y: p.y, z: [1, 0, 0, 0] }
        }
    }

    /// The affine form of the point.
    pub fn to_affine(&self) -> (r: Point)
        ensures
            r == grumpkin_affine(*self),
            is_canonical(r),
    {
        affine_of(self)
    }
}

/// The generator scaled by `x`, in affine coordinates.
pub fn grumpkin_point(x: u64) -> (r: Point)
    ensures
        r == grumpkin_affine(grumpkin_mul(jacobian_of(generator()), x)),
        is_canonical(r),
{
    let base = Jacobian::from_affine(&g());
    let scaled = mul_jacobian(&base, x);
    affine_of(&scaled)
}

/// Splits the limbs of `l` into its low and high 128-bit halves.
fn split_limbs(l: &[u64; 4]) -> (r: (u128, u128))
    ensures
        r.0 + r.1 * half_range() == limbs_value(*l),
{
    assert(l@[1] * (LIMB as int) + l@[0] <= u128::MAX && l@[3] * (LIMB as int) + l@[2] <= u128::MAX)
        by (nonlinear_arith)
        requires
            l@[0] <= u64::MAX,
            l@[1] <= u64::MAX,
            l@[2] <= u64::MAX,
            l@[3] <= u64::MAX,
            LIMB == 0x1_0000_0000_0000_0000u128,
    ;
    let lo = (l[0] as u128) + (l[1] as u128) * LIMB;
    let hi = (l[2] as u128) + (l[3] as u128) * LIMB;
    (lo, hi)
}

/// The table's view: the key `lo + hi * 2^128` holds what the inner map under `lo` holds
/// for `hi`.
pub open spec fn nested_view(t: Map<u128, HashMap<u128, u64>>) -> Map<int, u64> {
    Map::new(
        |k: int|
            0 <= k < half_range() * half_range() && t.contains_key((k % half_range()) as u128) && t[(k % half_range()) as u128]@.contains_key(
                (k / half_range()) as u128,
            ),
        |k: int| t[(k % half_range()) as u128]@[(k / half_range()) as u128],
    )
}

/// A key's two halves.
proof fn lemma_halves(lo: u128, hi: u128)
    ensures
        0 <= lo + hi * half_range() < half_range() * half_range(),
        (lo + hi * half_range()) % half_range() == lo,
        (lo + hi * half_range()) / half_range() == hi,
{
    let h = half_range();
    assert(0 <= lo + hi * h < h * h) by (nonlinear_arith)
        requires
            0 <= lo < h,
            0 <= hi < h,
    ;
    lemma_fundamental_div_mod_converse_mod(lo + hi * half_range(), half_range(), hi as int, lo as int);
    lemma_fundamental_div_mod_converse_div(lo + hi * half_range(), half_range(), hi as int, lo as int);
}

/// A key in range splits into halves in range, and equals `lo + hi * 2^128` exactly
/// when its halves are `lo` and `hi`.
proof fn lemma_key_parts(k: int, lo: u128, hi: u128)
    ensures
        0 <= k < half_range() * half_range() ==> {
            &&& 0 <= k % half_range() < half_range()
            &&& 0 <= k / half_range() < half_range()
            &&& (k == lo + hi * half_range() <==> (k % half_range() == lo && k / half_range() == hi))
        },
{
    let h = half_range();
    lemma_halves(lo, hi);
    assert(h > 0) by (nonlinear_arith)
        requires
            h == (LIMB as int) * (LIMB as int),
            LIMB > 0,
    ;
    if 0 <= k < h * h {
        lemma_fundamental_div_mod(k, h);
        let kl = k % h;
        let kh = k / h;
        assert(h * hi == hi * h) by (nonlinear_arith);
        assert(0 <= kh < h) by (nonlinear_arith)
            requires
                k == h * kh + kl,
                0 <= kl < h,
                0 <= k < h * h,
                h > 0,
        ;
    }
}

/// How many baby steps share one field inversion when brought to affine form.
pub const BATCH: usize = 4096;

/// The search on the Grumpkin curve, keyed by the affine x-coordinate alone (so a point
/// and its negation share a key).
pub struct GrumpkinBabyGiant {
    steps_count: u64,
    baby_steps: HashMap<u128, HashMap<u128, u64>>,
    baby_keys: Vec<[u64; 4]>,
}

/// The encodings in `keys` are exactly the keys of `table`.
pub open spec fn keys_match(keys: Seq<[u64; 4]>, table: Map<int, u64>) -> bool {
    forall|k: int|
        table.contains_key(k) <==> exists|i: int| 0 <= i < keys.len() && #[trigger] limbs_value(keys[i]) == k
}

impl GroupModel for GrumpkinBabyGiant {
    type El = Jacobian;

    closed spec fn spec_wf(&self) -> bool {
        &&& self.steps_count <= u32::MAX
        &&& keys_match(self.baby_keys@, nested_view(self.baby_steps@))
    }

    closed spec fn spec_steps_count(&self) -> u64 {
        self.steps_count
    }

    closed spec fn spec_key(&self, e: Jacobian) -> int {
        limbs_value(grumpkin_affine(e).x)
    }

    closed spec fn spec_op(&self, lhs: Jacobian, rhs: Jacobian) -> Jacobian {
        grumpkin_add(lhs, rhs)
    }

    closed spec fn spec_jump(&self, base: Jacobian) -> Jacobian {
        grumpkin_neg(grumpkin_mul(base, self.steps_count))
    }

    closed spec fn spec_table(&self) -> Map<int, u64> {
        nested_view(self.baby_steps@)
    }
}

impl GrumpkinBabyGiant {
    /// A solver with `steps_count` baby steps and an empty table.
    pub fn new(steps_count: u64) -> (r: Self)
        requires
            steps_count <= u32::MAX,
        ensures
            r.spec_wf(),
            r.spec_steps_count() == steps_count,
            r.spec_table() == Map::<int, u64>::empty(),
    {
        let r = GrumpkinBabyGiant { steps_count, baby_steps: HashMap::new(), baby_keys: Vec::new() };
        proof {
            assert(r.spec_table() =~= Map::<int, u64>::empty());
        }
        r
    }

    /// The encodings (affine x-coordinates) of the baby steps, one per step in step
    /// order; together they are the table's keys.
    pub fn get_baby_steps(&self) -> (r: &Vec<[u64; 4]>)
        requires
            self.spec_wf(),
        ensures
            keys_match(r@, self.spec_table()),
    {
        &self.baby_keys
    }
}

/// Records the step `j` whose encoding is `x`: the table maps `x` to `j`, and `x` joins
/// the key list.
fn record_step(
    table: &mut HashMap<u128, HashMap<u128, u64>>,
    keys: &mut Vec<[u64; 4]>,
    x: &[u64; 4],
    j: u64,
)
    requires
        keys_match(old(keys)@, nested_view(old(table)@)),
    ensures
        nested_view(final(table)@) == nested_view(old(table)@).insert(limbs_value(*x), j),
        keys_match(final(keys)@, nested_view(final(table)@)),
{
    broadcast use vstd::std_specs::hash::group_hash_axioms;

    let ghost before = table@;
    let ghost keys_before = keys@;
    keys.push(*x);
    let (lo, hi) = split_limbs(x);
    let mut inner = match table.remove(&lo) {
        Some(m) => m,
        None => HashMap::new(),
    };
    let ghost inner_before = inner@;
    inner.insert(hi, j);
    table.insert(lo, inner);
    proof {
        let key = limbs_value(*x);
        lemma_halves(lo, hi);
        assert(inner_before == if before.contains_key(lo) {
            before[lo]@
        } else {
            Map::<u128, u64>::empty()
        });
        assert(table@ == before.insert(lo, inner));
        let nv = nested_view(table@);
        let ov = nested_view(before).insert(key, j);
        assert forall|k: int| #[trigger] nv.contains_key(k) <==> ov.contains_key(k) by {
            lemma_key_parts(k, lo, hi);
        }
        assert forall|k: int| nv.contains_key(k) implies #[trigger] nv[k] == ov[k] by {
            lemma_key_parts(k, lo, hi);
        }
        assert(nv =~= ov);
        assert forall|k: int| nv.contains_key(k) <==> exists|i: int|
            0 <= i < keys@.len() && #[trigger] limbs_value(keys@[i]) == k by {
            if k == key {
                assert(limbs_value(keys@[keys_before.len() as int]) == k);
            } else if nv.contains_key(k) {
                let i = choose|i: int| 0 <= i < keys_before.len() && #[trigger] limbs_value(keys_before[i]) == k;
                assert(limbs_value(keys@[i]) == k);
            } else if exists|i: int| 0 <= i < keys@.len() && #[trigger] limbs_value(keys@[i]) == k {
                let i = choose|i: int| 0 <= i < keys@.len() && #[trigger] limbs_value(keys@[i]) == k;
                assert(i < keys_before.len());
                assert(limbs_value(keys_before[i]) == k);
            }
        }
    }
}

impl BabyGiantOps for GrumpkinBabyGiant {
    fn steps_count(&self) -> (r: u64) {
        self.steps_count
    }

    /// Walks the steps in Jacobian coordinates and brings them to affine form `BATCH` at a
    /// time, so that a batch shares one field inversion.
    fn baby_steps(&mut self, base: &Jacobian) {
        broadcast use vstd::std_specs::hash::group_hash_axioms;

        let ghost g = *self;
        let m = self.steps_count;
        let mut table: HashMap<u128, HashMap<u128, u64>> = HashMap::new();
        let mut keys: Vec<[u64; 4]> = Vec::new();
        let mut current: Jacobian = *base;
        let mut j: u64 = 0;
        proof {
            assert(nested_view(table@) =~= Map::<int, u64>::empty());
        }
        while j < m
            invariant
                *self == g,
                g.spec_wf(),
                m == g.spec_steps_count(),
                j <= m,
                current == power(g, *base, (j + 1) as nat),
                nested_view(table@) == baby_table(g, *base, j as nat),
                keys_match(keys@, nested_view(table@)),
            decreases m - j,
        {
            let start = j;
            let mut chunk: Vec<Jacobian> = Vec::new();
            while j < m && chunk.len() < BATCH
                invariant
                    *self == g,
                    g.spec_wf(),
                    m == g.spec_steps_count(),
                    start <= j <= m,
                    chunk@.len() == j - start,
                    chunk@.len() <= BATCH,
                    current == power(g, *base, (j + 1) as nat),
                    forall|i: int|
                        0 <= i < chunk@.len() ==> #[trigger] chunk@[i] == power(
                            g,
                            *base,
                            (start + i + 1) as nat,
                        ),
                decreases m - j,
            {
                chunk.push(current);
                current = self.el_operation(&current, base);
                j = j + 1;
            }
            assert(j > start);
            let points = affine_batch(&chunk);
            assert forall|k: int| 0 <= k < points@.len() implies #[trigger] points@[k] == grumpkin_affine(
                power(g, *base, (start + k + 1) as nat),
            ) by {
                assert(chunk@[k] == power(g, *base, (start + k + 1) as nat));
            }
            let mut i: usize = 0;
            while i < points.len()
                invariant
                    *self == g,
                    m == g.spec_steps_count(),
                    start < j <= m,
                    m <= u32::MAX,
                    points@.len() == j - start,
                    i <= points@.len(),
                    forall|k: int|
                        0 <= k < points@.len() ==> #[trigger] points@[k] == grumpkin_affine(
                            power(g, *base, (start + k + 1) as nat),
                        ),
                    nested_view(table@) == baby_table(g, *base, (start + i) as nat),
                    keys_match(keys@, nested_view(table@)),
                decreases points@.len() - i,
            {
                let step = start + (i as u64) + 1;
                assert(points@[i as int] == grumpkin_affine(power(g, *base, step as nat)));
                record_step(&mut table, &mut keys, &points[i].x, step);
                i = i + 1;
            }
        }
        self.baby_steps = table;
        self.baby_keys = keys;
    }

    fn in_baby_steps(&self, target: &Jacobian) -> (r: Option<u64>) {
        broadcast use vstd::std_specs::hash::group_hash_axioms;

        let p = affine_of(target);
        let (lo, hi) = split_limbs(&p.x);
        proof {
            lemma_halves(lo, hi);
            lemma_key_parts(limbs_value(p.x), lo, hi);
        }
        match self.baby_steps.get(&lo) {
            Some(inner) => match inner.get(&hi) {
                Some(v) => Some(*v),
                None => None,
            },
            None => None,
        }
    }

    fn el_operation(&self, lhs: &Jacobian, rhs: &Jacobian) -> (r: Jacobian) {
        add_jacobian(lhs, rhs)
    }

    fn giant_step_jump(&self, base: &Jacobian) -> (r: Jacobian) {
        let scaled = mul_jacobian(base, self.steps_count);
        neg_jacobian(&scaled)
    }

    fn process_result(&self, baby: u64, giant: u64) -> (r: u64) {
        let m = self.steps_count;
        assert(giant * m + baby <= m * m && m * m <= u64::MAX) by (nonlinear_arith)
            requires
                giant < m,
                baby <= m,
                m <= u32::MAX,
        ;
        giant * m + baby
    }
}

/// Solves `target == x * G` for the standard generator `G` with `size` baby steps, so
/// for `x` in `1..=size * size`.
pub fn grumpkin_bsgs(target: Point, size: u64) -> (r: Option<u64>)
    requires
        size <= u32::MAX,
    ensures
        forall|s: GrumpkinBabyGiant|
            s.spec_steps_count() == size ==> #[trigger] spec_run(
                s,
                jacobian_of(generator()),
                jacobian_of(target),
            ) == r,
{
    let mut solver = GrumpkinBabyGiant::new(size);
    let ghost s0 = solver;
    let base = Jacobian::from_affine(&g());
    let goal = Jacobian::from_affine(&target);
    let r = solver.run(base, goal);
    proof {
        assert forall|s: GrumpkinBabyGiant| s.spec_steps_count() == size implies #[trigger] spec_run(
            s,
            jacobian_of(generator()),
            jacobian_of(target),
        ) == r by {
            assert(same_group(s, s0));
            lemma_same_group_run(s, s0, jacobian_of(generator()), jacobian_of(target));
        }
    }
    r
}

/// The search over exponents below 2^32.
pub fn grumpkin_bsgs_32(target: Point) -> (r: Option<u64>)
    ensures
        forall|s: GrumpkinBabyGiant|
            s.spec_steps_count() == 65536 ==> #[trigger] spec_run(
                s,
                jacobian_of(generator()),
                jacobian_of(target),
            ) == r,
{
    grumpkin_bsgs(target, 65536)
}

/// The search over exponents below 2^40.
pub fn grumpkin_bsgs_40(target: Point) -> (r: Option<u64>)
    ensures
        forall|s: GrumpkinBabyGiant|
            s.spec_steps_count() == 1048576 ==> #[trigger] spec_run(
                s,
                jacobian_of(generator()),
                jacobian_of(target),
            ) == r,
{
    grumpkin_bsgs(target, 1048576)
}

/// A decimal digit.
pub open spec fn is_digit(c: char) -> bool {
    '0' <= c && c <= '9'
}

/// A literal without its one optional leading `+`.
pub open spec fn literal_body(s: Seq<char>) -> Seq<char> {
    if s.len() > 0 && s[0] == '+' {
        s.drop_first()
    } else {
        s
    }
}

/// A decimal integer literal: an optional `+`, then a digit, then digits and `_`.
pub open spec fn is_decimal_literal(s: Seq<char>) -> bool {
    let b = literal_body(s);
    &&& b.len() > 0
    &&& is_digit(b[0])
    &&& forall|i: int| 0 <= i < b.len() ==> is_digit(#[trigger] b[i]) || b[i] == '_'
}

/// The value of a run of digits, the `_` separators skipped.
pub open spec fn digits_value(s: Seq<char>) -> nat
    decreases s.len(),
{
    if s.len() == 0 {
        0
    } else if s.last() == '_' {
        digits_value(s.drop_last())
    } else {
        digits_value(s.drop_last()) * 10 + ((s.last() as u32) - ('0' as u32)) as nat
    }
}

/// The value of a decimal integer literal.
pub open spec fn literal_value(s: Seq<char>) -> nat {
    digits_value(literal_body(s))
}

/// A decimal integer literal whose value fits in 256 bits.
pub open spec fn parses_to_limbs(s: Seq<char>) -> bool {
    is_decimal_literal(s) && literal_value(s) < half_range() * half_range()
}

/// Relies on ark_ff's `BigInt::<4>::from_str`: num-bigint's decimal parser (one optional
/// leading `+`, then a digit, then digits and `_` separators) followed by a check that
/// the value fits in 256 bits; the limbs come out little-endian.
#[verifier::external_body]
fn parse_limbs(s: &str) -> (r: Option<[u64; 4]>)
    ensures
        r is Some <==> parses_to_limbs(s@),
        match r {
            Some(l) => limbs_value(l) == literal_value(s@),
            None => true,
        },
{
    BigInt::<4>::from_str(s).ok().map(|b| b.0)
}

/// The high half of the field order.
pub const FQ_HIGH: u128 = 0x30644e72e131a029b85045b68181585d;

/// The low half of the field order.
pub const FQ_LOW: u128 = 0x2833e84879b9709143e1f593f0000001;

/// Whether the limbs hold a canonical field element.
fn below_field_order(l: &[u64; 4]) -> (r: bool)
    ensures
        r == (limbs_value(*l) < fq_modulus()),
{
    let (lo, hi) = split_limbs(l);
    let ghost h = half_range();
    assert(limbs_value(*l) < fq_modulus() <==> (hi < FQ_HIGH || (hi == FQ_HIGH && lo < FQ_LOW))) by (nonlinear_arith)
        requires
            lo + hi * h == limbs_value(*l),
            fq_modulus() == FQ_HIGH * h + FQ_LOW,
            0 <= lo < h,
            0 <= FQ_LOW < h,
            0 <= hi,
    ;
    hi < FQ_HIGH || (hi == FQ_HIGH && lo < FQ_LOW)
}

/// Why two decimal strings are not a point's coordinates.
#[derive(Clone, Copy, Debug, PartialEq, Eq)]
pub enum PointParseError {
    /// A coordinate is not a decimal integer below 2^256.
    InvalidInteger,
    /// A coordinate is an integer at or above the field's order.
    OutOfField,
}

/// The affine point with the decimal coordinates `x` and `y`, each of which must be a
/// canonical field element (values at or above the field's order are rejected).
pub fn grumpkin_str_to_point(x: &str, y: &str) -> (r: Result<Point, PointParseError>)
    ensures
        match r {
            Ok(p) => {
                &&& parses_to_limbs(x@)
                &&& parses_to_limbs(y@)
                &&& literal_value(x@) < fq_modulus()
                &&& literal_value(y@) < fq_modulus()
                &&& limbs_value(p.x) == literal_value(x@)
                &&& limbs_value(p.y) == literal_value(y@)
                &&& !p.infinity
            },
            Err(PointParseError::InvalidInteger) => !parses_to_limbs(x@) || !parses_to_limbs(y@),
            Err(PointParseError::OutOfField) => {
                &&& parses_to_limbs(x@)
                &&& parses_to_limbs(y@)
                &&& (literal_value(x@) >= fq_modulus() || literal_value(y@) >= fq_modulus())
            },
        },
{
    let px = match parse_limbs(x) {
        Some(l) => l,
        None => return Err(PointParseError::InvalidInteger),
    };
    let py = match parse_limbs(y) {
        Some(l) => l,
        None => return Err(PointParseError::InvalidInteger),
    };
    if !below_field_order(&px) || !below_field_order(&py) {
        return Err(PointParseError::OutOfField);
    }
    Ok(Point { x: px, y: py, infinity: false })
}

} // verus!
