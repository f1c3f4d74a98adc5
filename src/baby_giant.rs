use vstd::prelude::*;

verus! {

/// The value that the baby-step table holds for key `k`, if any.
pub open spec fn table_lookup(table: Map<int, u64>, k: int) -> Option<u64> {
    if table.contains_key(k) {
        Some(table[k])
    } else {
        None
    }
}

/// `base` combined with itself `j` times (`j >= 1`), under the group law of `g`.
pub open spec fn power<G: GroupModel>(g: G, base: G::El, j: nat) -> G::El
    decreases j,
{
    if j <= 1 {
        base
    } else {
        g.spec_op(power(g, base, (j - 1) as nat), base)
    }
}

/// The baby-step table after the steps `1..=n`: step `j` maps the key of
/// `power(base, j)` to `j`, a later step overwriting an earlier one.
pub open spec fn baby_table<G: GroupModel>(g: G, base: G::El, n: nat) -> Map<int, u64>
    decreases n,
{
    if n == 0 {
        Map::empty()
    } else {
        baby_table(g, base, (n - 1) as nat).insert(g.spec_key(power(g, base, n)), n as u64)
    }
}

/// The giant-step scan from `current` at giant index `giant`: the first index whose
/// element is in `table` gives `giant * m + baby`; past `m` giant steps there is no result.
pub open spec fn scan<G: GroupModel>(
    g: G,
    table: Map<int, u64>,
    jump: G::El,
    current: G::El,
    giant: nat,
) -> Option<u64>
    decreases g.spec_steps_count() - giant,
{
    let m = g.spec_steps_count() as nat;
    if giant >= m {
        None
    } else if table.contains_key(g.spec_key(current)) {
        Some((giant * m + table[g.spec_key(current)]) as u64)
    } else {
        scan(g, table, jump, g.spec_op(current, jump), giant + 1)
    }
}

/// What a search for `target` from `base` returns.
pub open spec fn spec_run<G: GroupModel>(g: G, base: G::El, target: G::El) -> Option<u64> {
    scan(
        g,
        baby_table(g, base, g.spec_steps_count() as nat),
        g.spec_jump(base),
        target,
        0,
    )
}

/// Two solvers with the same step count, group law, encoding and jump.
pub open spec fn same_group<G: GroupModel>(a: G, b: G) -> bool {
    &&& a.spec_steps_count() == b.spec_steps_count()
    &&& forall|x: G::El, y: G::El| #[trigger] a.spec_op(x, y) == b.spec_op(x, y)
    &&& forall|e: G::El| #[trigger] a.spec_key(e) == b.spec_key(e)
    &&& forall|e: G::El| #[trigger] a.spec_jump(e) == b.spec_jump(e)
}

/// The mathematical model of a group that the search runs on, with its step count and
/// the baby-step table that a solver holds.
pub trait GroupModel: Sized {
    /// The group element.
    type El;

    /// The solver's configuration is usable: in particular `m * m` fits in a `u64`.
    spec fn spec_wf(&self) -> bool;

    /// The search window size `m`.
    spec fn spec_steps_count(&self) -> u64;

    /// The canonical encoding of an element that keys the baby-step table.
    spec fn spec_key(&self, e: Self::El) -> int;

    /// The group law.
    spec fn spec_op(&self, lhs: Self::El, rhs: Self::El) -> Self::El;

    /// The giant-step jump for `base`: `base` combined with itself `-m` times.
    spec fn spec_jump(&self, base: Self::El) -> Self::El;

    /// The baby-step table held by the solver.
    spec fn spec_table(&self) -> Map<int, u64>;
}

/// A group that the baby-step giant-step search can run on: it finds `x` with
/// `target == power(base, x)`, for `x` in `1..=m*m` where `m` is the step count.
pub trait BabyGiantOps: GroupModel {
    fn steps_count(&self) -> (r: u64)
        ensures
            r == self.spec_steps_count(),
    ;

    /// Replaces the table by the baby steps `1..=m` of `base`.
    fn baby_steps(&mut self, base: &Self::El)
        requires
            old(self).spec_wf(),
        ensures
            final(self).spec_wf(),
            same_group(*final(self), *old(self)),
            final(self).spec_table() == baby_table(
                *old(self),
                *base,
                old(self).spec_steps_count() as nat,
            ),
    ;

    /// The baby index stored for the encoding of `target`.
    fn in_baby_steps(&self, target: &Self::El) -> (r: Option<u64>)
        ensures
            r == table_lookup(self.spec_table(), self.spec_key(*target)),
    ;

    fn el_operation(&self, lhs: &Self::El, rhs: &Self::El) -> (r: Self::El)
        requires
            self.spec_wf(),
        ensures
            r == self.spec_op(*lhs, *rhs),
    ;

    fn giant_step_jump(&self, base: &Self::El) -> (r: Self::El)
        requires
            self.spec_wf(),
        ensures
            r == self.spec_jump(*base),
    ;

    /// Composes the answer `giant * m + baby`.
    fn process_result(&self, baby: u64, giant: u64) -> (r: u64)
        requires
            self.spec_wf(),
            1 <= baby <= self.spec_steps_count(),
            giant < self.spec_steps_count(),
        ensures
            r == giant * self.spec_steps_count() + baby,
    ;

    /// Builds the table for `base`, then walks `target`, `target + jump`, ... for at most
    /// `m` giant steps; the first element found in the table gives the answer.
    fn run(&mut self, base: Self::El, target: Self::El) -> (r: Option<u64>)
        requires
            old(self).spec_wf(),
        ensures
            final(self).spec_wf(),
            same_group(*final(self), *old(self)),
            final(self).spec_table() == baby_table(
                *old(self),
                base,
                old(self).spec_steps_count() as nat,
            ),
            r == spec_run(*old(self), base, target),
    {
        let ghost g0 = *self;
        self.baby_steps(&base);
        let jump = self.giant_step_jump(&base);
        let ghost g = *self;
        let m = self.steps_count();
        proof {
            lemma_same_group_run(g, *old(self), base, target);
            lemma_same_group_table(g, *old(self), base, m as nat);
            lemma_baby_table_values(g, base, m as nat);
        }
        let mut current = target;
        let mut giant: u64 = 0;
        while giant < m
            invariant
                *self == g,
                g.spec_wf(),
                same_group(g, g0),
                g0 == *old(self),
                g.spec_table() == baby_table(g0, base, m as nat),
                spec_run(g, base, target) == spec_run(g0, base, target),
                m == g.spec_steps_count(),
                giant <= m,
                jump == g.spec_jump(base),
                g.spec_table() == baby_table(g, base, m as nat),
                forall|k: int| #[trigger]
                    g.spec_table().contains_key(k) ==> 1 <= g.spec_table()[k] <= m,
                scan(g, g.spec_table(), jump, current, giant as nat) == spec_run(g, base, target),
            decreases m - giant,
        {
            match self.in_baby_steps(&current) {
                Some(baby) => {
                    let r = self.process_result(baby, giant);
                    return Some(r);
                },
                None => {},
            }
            current = self.el_operation(&current, &jump);
            giant = giant + 1;
        }
        None
    }
}

/// Every index in the table of the steps `1..=n` lies in `1..=n`.
pub proof fn lemma_baby_table_values<G: GroupModel>(g: G, base: G::El, n: nat)
    requires
        n <= u64::MAX,
    ensures
        forall|k: int| #[trigger]
            baby_table(g, base, n).contains_key(k) ==> 1 <= baby_table(g, base, n)[k] <= n,
    decreases n,
{
    if n > 0 {
        lemma_baby_table_values(g, base, (n - 1) as nat);
        let prev = baby_table(g, base, (n - 1) as nat);
        assert forall|k: int| #[trigger]
            baby_table(g, base, n).contains_key(k) implies 1 <= baby_table(g, base, n)[k] <= n by {
            if k != g.spec_key(power(g, base, n)) {
                assert(prev.contains_key(k));
            }
        }
    }
}

proof fn lemma_same_group_power<G: GroupModel>(a: G, b: G, base: G::El, j: nat)
    requires
        same_group(a, b),
    ensures
        power(a, base, j) == power(b, base, j),
    decreases j,
{
    if j > 1 {
        lemma_same_group_power(a, b, base, (j - 1) as nat);
        assert(a.spec_op(power(a, base, (j - 1) as nat), base) == b.spec_op(
            power(b, base, (j - 1) as nat),
            base,
        ));
    }
}

proof fn lemma_same_group_table<G: GroupModel>(a: G, b: G, base: G::El, n: nat)
    requires
        same_group(a, b),
    ensures
        baby_table(a, base, n) == baby_table(b, base, n),
    decreases n,
{
    if n > 0 {
        lemma_same_group_table(a, b, base, (n - 1) as nat);
        lemma_same_group_power(a, b, base, n);
        assert(a.spec_key(power(a, base, n)) == b.spec_key(power(b, base, n)));
    }
}

proof fn lemma_same_group_scan<G: GroupModel>(
    a: G,
    b: G,
    table: Map<int, u64>,
    jump: G::El,
    current: G::El,
    giant: nat,
)
    requires
        same_group(a, b),
    ensures
        scan(a, table, jump, current, giant) == scan(b, table, jump, current, giant),
    decreases a.spec_steps_count() - giant,
{
    assert(a.spec_key(current) == b.spec_key(current));
    if giant < a.spec_steps_count() {
        assert(a.spec_op(current, jump) == b.spec_op(current, jump));
        lemma_same_group_scan(a, b, table, jump, a.spec_op(current, jump), giant + 1);
    }
}

/// The result of a search depends on the group, the step count, `base` and `target`
/// alone: two solvers that agree on those give the same answer, whatever tables
/// earlier searches left behind.
pub proof fn lemma_same_group_run<G: GroupModel>(a: G, b: G, base: G::El, target: G::El)
    requires
        same_group(a, b),
    ensures
        spec_run(a, base, target) == spec_run(b, base, target),
{
    let m = a.spec_steps_count() as nat;
    lemma_same_group_table(a, b, base, m);
    assert(a.spec_jump(base) == b.spec_jump(base));
    lemma_same_group_scan(a, b, baby_table(a, base, m), a.spec_jump(base), target, 0);
}

/// The element reached from `start` after `t` giant steps of `jump`.
pub open spec fn walk<G: GroupModel>(g: G, start: G::El, jump: G::El, t: nat) -> G::El
    decreases t,
{
    if t == 0 {
        start
    } else {
        g.spec_op(walk(g, start, jump, (t - 1) as nat), jump)
    }
}

/// The table keeps, for each encoding, the largest baby index that produced it: every
/// step's encoding is present under an index at least its own, and the index held for
/// an encoding produced it, with no later step producing it again.
pub proof fn lemma_baby_table_latest<G: GroupModel>(g: G, base: G::El, n: nat)
    requires
        n <= u64::MAX,
    ensures
        forall|i: nat|
            1 <= i <= n ==> baby_table(g, base, n).contains_key(
                g.spec_key(#[trigger] power(g, base, i)),
            ) && i <= baby_table(g, base, n)[g.spec_key(power(g, base, i))],
        forall|k: int| #[trigger]
            baby_table(g, base, n).contains_key(k) ==> {
                let v = baby_table(g, base, n)[k];
                &&& 1 <= v <= n
                &&& g.spec_key(power(g, base, v as nat)) == k
                &&& forall|i: nat| v < i <= n ==> g.spec_key(#[trigger] power(g, base, i)) != k
            },
    decreases n,
{
    if n > 0 {
        lemma_baby_table_latest(g, base, (n - 1) as nat);
        let prev = baby_table(g, base, (n - 1) as nat);
        let cur = baby_table(g, base, n);
        let kn = g.spec_key(power(g, base, n));
        assert forall|i: nat| 1 <= i <= n implies cur.contains_key(
            g.spec_key(#[trigger] power(g, base, i)),
        ) && i <= cur[g.spec_key(power(g, base, i))] by {
            if i < n {
                assert(prev.contains_key(g.spec_key(power(g, base, i))));
            }
        }
        assert forall|k: int| #[trigger] cur.contains_key(k) implies {
            let v = cur[k];
            &&& 1 <= v <= n
            &&& g.spec_key(power(g, base, v as nat)) == k
            &&& forall|i: nat| v < i <= n ==> g.spec_key(#[trigger] power(g, base, i)) != k
        } by {
            if k != kn {
                assert(prev.contains_key(k));
            }
        }
    }
}

/// What the scan from giant step `t` returns: the first step `u` in `t..m` whose element
/// is in the table gives `u * m + baby`; with no such step there is no result.
pub proof fn lemma_scan_result<G: GroupModel>(
    g: G,
    table: Map<int, u64>,
    jump: G::El,
    start: G::El,
    t: nat,
)
    requires
        t <= g.spec_steps_count(),
    ensures
        match scan(g, table, jump, walk(g, start, jump, t), t) {
            Some(r) => exists|u: nat|
                {
                    &&& t <= u < g.spec_steps_count()
                    &&& table.contains_key(g.spec_key(#[trigger] walk(g, start, jump, u)))
                    &&& r == (u * g.spec_steps_count() + table[g.spec_key(walk(g, start, jump, u))]) as u64
                    &&& forall|w: nat|
                        t <= w < u ==> !table.contains_key(g.spec_key(#[trigger] walk(g, start, jump, w)))
                },
            None => forall|u: nat|
                t <= u < g.spec_steps_count() ==> !table.contains_key(
                    g.spec_key(#[trigger] walk(g, start, jump, u)),
                ),
        },
    decreases g.spec_steps_count() - t,
{
    let m = g.spec_steps_count();
    if t < m {
        let cur = walk(g, start, jump, t);
        if !table.contains_key(g.spec_key(cur)) {
            lemma_scan_result(g, table, jump, start, t + 1);
            assert(walk(g, start, jump, t + 1) == g.spec_op(cur, jump));
            match scan(g, table, jump, walk(g, start, jump, t), t) {
                Some(r) => {
                    let u = choose|u: nat|
                        {
                            &&& t + 1 <= u < m
                            &&& table.contains_key(g.spec_key(#[trigger] walk(g, start, jump, u)))
                            &&& r == (u * m + table[g.spec_key(walk(g, start, jump, u))]) as u64
                            &&& forall|w: nat|
                                t + 1 <= w < u ==> !table.contains_key(
                                    g.spec_key(#[trigger] walk(g, start, jump, w)),
                                )
                        };
                    assert forall|w: nat| t <= w < u implies !table.contains_key(
                        g.spec_key(#[trigger] walk(g, start, jump, w)),
                    ) by {
                        if w > t {
                            assert(t + 1 <= w < u);
                        }
                    }
                },
                None => {
                    assert forall|u: nat| t <= u < m implies !table.contains_key(
                        g.spec_key(#[trigger] walk(g, start, jump, u)),
                    ) by {
                        if u > t {
                            assert(t + 1 <= u < m);
                        }
                    }
                },
            }
        } else {
            assert(forall|w: nat| t <= w < t ==> !table.contains_key(g.spec_key(#[trigger] walk(g, start, jump, w))));
        }
    }
}

} // verus!
