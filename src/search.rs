//! The search for non-dominated solving plans: an exhaustive frontier search
//! and a randomized baseline.
use vstd::prelude::*;

use crate::algo::{scope, Algo, PlanError, MAX_FUSION_VARS};
use crate::field::DEFAULT_POLY;
use std::cmp::Ordering;
use crate::matrix::{distinct, names_view, Matrix, MatrixError};
use crate::names::{is_auxiliary, is_auxiliary_name};

verus! {

/// The kinds of search on offer.
#[derive(Debug, Clone, Copy, PartialEq, Eq, Structural)]
pub enum Search {
    Exhaustive,
    Random,
}

impl Search {
    /// The label of the search kind.
    pub fn label(&self) -> (r: &'static str)
        ensures
            *self == Search::Exhaustive ==> r@ == "Exhaustive search"@,
            *self == Search::Random ==> r@ == "Random search"@,
    {
        match self {
            Search::Exhaustive => "Exhaustive search",
            Search::Random => "Random search",
        }
    }
}

/// Relies on rand's `Rng::gen_range` on the thread-local generator: a value
/// in `0..bound` (it panics on an empty range, which `requires` excludes).
#[verifier::external_body]
fn random_below(bound: usize) -> (r: usize)
    requires
        bound > 0,
    ensures
        r < bound,
{
    rand::Rng::gen_range(&mut rand::thread_rng(), 0..bound)
}

/// The names of `names` that can be solved for (not auxiliary).
pub open spec fn solvable(names: Seq<Seq<char>>) -> Set<Seq<char>> {
    Set::new(|n: Seq<char>| names.contains(n) && !is_auxiliary(n))
}

/// No plan of `g` dominates another.
pub open spec fn antichain(g: Seq<Algo>) -> bool {
    forall|i: int, j: int|
        0 <= i < g.len() && 0 <= j < g.len() && i != j ==> !Algo::dominates_spec(&g[i], &g[j])
}

/// Every plan of `g` is well formed and solves only variables of `s`.
pub open spec fn plans_within(g: Seq<Algo>, s: Set<Seq<char>>) -> bool {
    forall|i: int| 0 <= i < g.len() ==> #[trigger] g[i].wf() && g[i].vars().subset_of(s)
}

/// Every pair of `p` holds well-formed plans over variables of `s`.
pub open spec fn pairs_within(p: Seq<(Algo, Algo)>, s: Set<Seq<char>>) -> bool {
    forall|i: int|
        0 <= i < p.len() ==> #[trigger] p[i].0.wf() && p[i].0.vars().subset_of(s) && p[i].1.wf()
            && p[i].1.vars().subset_of(s)
}

/// Some plan of `g` covers the variables of `c` and is no slower.
pub open spec fn same_scope_no_slower(g: Seq<Algo>, c: &Algo) -> bool {
    exists|i: int|
        0 <= i < g.len() && #[trigger] g[i].vars() == c.vars() && g[i].spec_time() <= c.spec_time()
}

/// The variable sets of `a` and `b` are incomparable.
pub open spec fn incomparable(a: &Algo, b: &Algo) -> bool {
    !a.vars().subset_of(b.vars()) && !b.vars().subset_of(a.vars())
}

/// `g1` is `g0` without the plans that `c` dominates, in their order,
/// followed by `c`.
pub open spec fn frontier_after(g0: Seq<Algo>, c: Algo, g1: Seq<Algo>) -> bool {
    &&& g1.len() >= 1
    &&& g1.last() == c
    &&& kept_undominated(g0, &c, g1.drop_last())
}

/// `g1` is `g0` without the plans that `c` dominates, in their order.
pub open spec fn kept_undominated(g0: Seq<Algo>, c: &Algo, g1: Seq<Algo>) -> bool {
    exists|idx: Seq<int>| #[trigger] kept_at(g0, c, g1, idx)
}

/// `kept_undominated`, with `g1[a]` standing at `idx[a]` in `g0`.
pub open spec fn kept_at(g0: Seq<Algo>, c: &Algo, g1: Seq<Algo>, idx: Seq<int>) -> bool {
    &&& idx.len() == g1.len()
    &&& forall|a: int, b: int| 0 <= a < b < idx.len() ==> idx[a] < idx[b]
    &&& forall|a: int|
        0 <= a < idx.len() ==> 0 <= #[trigger] idx[a] < g0.len() && g1[a] == g0[idx[a]]
            && !Algo::dominates_spec(c, &g0[idx[a]])
    &&& forall|j: int|
        0 <= j < g0.len() && !Algo::dominates_spec(c, #[trigger] &g0[j]) ==> exists|a: int|
            0 <= a < idx.len() && idx[a] == j
}

/// The pair `q` holds a plan that `c` dominates.
pub open spec fn hit(c: &Algo, q: (Algo, Algo)) -> bool {
    Algo::dominates_spec(c, &q.0) || Algo::dominates_spec(c, &q.1)
}

/// `p1` is `p0` without the pairs that hold a plan `c` dominates, in their
/// order.
pub open spec fn pairs_kept_at(p0: Seq<(Algo, Algo)>, c: &Algo, p1: Seq<(Algo, Algo)>, idx: Seq<int>) -> bool {
    &&& idx.len() == p1.len()
    &&& forall|a: int, b: int| 0 <= a < b < idx.len() ==> idx[a] < idx[b]
    &&& forall|a: int|
        0 <= a < idx.len() ==> 0 <= #[trigger] idx[a] < p0.len() && p1[a] == p0[idx[a]]
            && !hit(c, p0[idx[a]])
    &&& forall|j: int|
        0 <= j < p0.len() && !hit(c, #[trigger] p0[j]) ==> exists|a: int|
            0 <= a < idx.len() && idx[a] == j
}

/// Some plan of `g` has the variables and costs of `x` and variables
/// incomparable with those of `c`.
pub open spec fn partner_in(x: Algo, c: &Algo, g: Seq<Algo>) -> bool {
    exists|i: int| 0 <= i < g.len() && same_plan(&x, #[trigger] &g[i]) && incomparable(c, &g[i])
}

/// Some pair of `q` has a second plan with the variables and costs of `x`.
pub open spec fn paired_in(x: Algo, q: Seq<(Algo, Algo)>) -> bool {
    exists|a: int| 0 <= a < q.len() && same_plan(&(#[trigger] q[a]).1, &x)
}

/// `q` holds one pair `(c, a)` for each plan `a` of `g` whose variables are
/// incomparable with those of `c`, and nothing else.
pub open spec fn new_pairs(c: &Algo, g: Seq<Algo>, q: Seq<(Algo, Algo)>) -> bool {
    &&& forall|a: int| 0 <= a < q.len() ==> same_plan(&(#[trigger] q[a]).0, c) && partner_in(q[a].1, c, g)
    &&& forall|i: int| 0 <= i < g.len() && incomparable(c, #[trigger] &g[i]) ==> paired_in(g[i], q)
}

/// `p1` is `p0` without the pairs that hold a plan dominated by `c`,
/// followed by one pair `(c, a)` for each plan `a` of `g1` whose variables
/// are incomparable with those of `c`.
pub open spec fn pairs_after(p0: Seq<(Algo, Algo)>, c: &Algo, g1: Seq<Algo>, p1: Seq<(Algo, Algo)>) -> bool {
    exists|k: int| #[trigger] pairs_split_at(p0, c, g1, p1, k)
}

/// `pairs_after`, with the kept pairs standing before position `k`.
pub open spec fn pairs_split_at(p0: Seq<(Algo, Algo)>, c: &Algo, g1: Seq<Algo>, p1: Seq<(Algo, Algo)>, k: int) -> bool {
    &&& 0 <= k <= p1.len()
    &&& exists|idx: Seq<int>| #[trigger] pairs_kept_at(p0, c, p1.subrange(0, k), idx)
    &&& new_pairs(c, g1, p1.subrange(k, p1.len() as int))
}

/// `a` and `b` cover the same variables at the same costs.
pub open spec fn same_plan(a: &Algo, b: &Algo) -> bool {
    &&& a.vars() == b.vars()
    &&& a.spec_time() == b.spec_time()
    &&& a.spec_memory() == b.spec_memory()
    &&& a.spec_nb_solutions() == b.spec_nb_solutions()
    &&& a.wf() == b.wf()
}

/// Removes from `g` the plans that `c` dominates, keeping the order of the
/// others.
fn keep_better(g: &mut Vec<Algo>, c: &Algo)
    ensures
        kept_undominated(old(g)@, c, final(g)@),
{
    let n0 = g.len();
    let mut rest: Vec<Algo> = Vec::new();
    std::mem::swap(g, &mut rest);
    let ghost g0 = rest@;
    let ghost idx: Seq<int> = Seq::empty();
    let mut i: usize = 0;
    while rest.len() > 0
        invariant
            g0 == old(g)@,
            g0.len() == n0,
            i <= g0.len(),
            rest@ == g0.subrange(i as int, g0.len() as int),
            idx.len() == g@.len(),
            forall|a: int, b: int| 0 <= a < b < idx.len() ==> idx[a] < idx[b],
            forall|a: int|
                0 <= a < idx.len() ==> 0 <= #[trigger] idx[a] < i && g@[a] == g0[idx[a]]
                    && !Algo::dominates_spec(c, &g0[idx[a]]),
            forall|j: int|
                0 <= j < i && !Algo::dominates_spec(c, #[trigger] &g0[j]) ==> exists|a: int|
                    0 <= a < idx.len() && idx[a] == j,
        decreases rest@.len(),
    {
        assert(i < g0.len());
        let a = rest.remove(0);
        assert(a == g0[i as int]);
        let ghost idx0 = idx;
        if !c.dominates(&a) {
            g.push(a);
            proof {
                idx = idx.push(i as int);
                assert(idx[idx.len() - 1] == i);
            }
        }
        proof {
            assert forall|j: int| 0 <= j < i + 1 && !Algo::dominates_spec(c, #[trigger] &g0[j]) implies exists|a: int| 0 <= a < idx.len() && idx[a] == j by {
                if j < i {
                    let a = choose|a: int| 0 <= a < idx0.len() && idx0[a] == j;
                    assert(idx[a] == idx0[a]);
                } else {
                    assert(idx[idx.len() - 1] == i);
                }
            }
            assert(rest@ =~= g0.subrange(i + 1, g0.len() as int));
        }
        i = i + 1;
    }
    assert(kept_at(g0, c, g@, idx));
}

/// Removes from `p` the pairs that hold a plan `c` dominates.
fn keep_all_pair_that_are_better(p: &mut Vec<(Algo, Algo)>, c: &Algo)
    ensures
        exists|idx: Seq<int>| #[trigger] pairs_kept_at(old(p)@, c, final(p)@, idx),
{
    let n0 = p.len();
    let mut rest: Vec<(Algo, Algo)> = Vec::new();
    std::mem::swap(p, &mut rest);
    let ghost p0 = rest@;
    let ghost idx: Seq<int> = Seq::empty();
    let mut i: usize = 0;
    while rest.len() > 0
        invariant
            p0 == old(p)@,
            p0.len() == n0,
            i <= p0.len(),
            rest@ == p0.subrange(i as int, p0.len() as int),
            idx.len() == p@.len(),
            forall|a: int, b: int| 0 <= a < b < idx.len() ==> idx[a] < idx[b],
            forall|a: int|
                0 <= a < idx.len() ==> 0 <= #[trigger] idx[a] < i && p@[a] == p0[idx[a]] && !hit(c, p0[idx[a]]),
            forall|j: int|
                0 <= j < i && !hit(c, #[trigger] p0[j]) ==> exists|a: int| 0 <= a < idx.len() && idx[a] == j,
        decreases rest@.len(),
    {
        assert(i < p0.len());
        let q = rest.remove(0);
        assert(q == p0[i as int]);
        let ghost idx0 = idx;
        if !(c.dominates(&q.0) || c.dominates(&q.1)) {
            p.push(q);
            proof {
                idx = idx.push(i as int);
                assert(idx[idx.len() - 1] == i);
            }
        }
        proof {
            assert forall|j: int| 0 <= j < i + 1 && !hit(c, #[trigger] p0[j]) implies exists|a: int| 0 <= a < idx.len() && idx[a] == j by {
                if j < i {
                    let a = choose|a: int| 0 <= a < idx0.len() && idx0[a] == j;
                    assert(idx[a] == idx0[a]);
                } else {
                    assert(idx[idx.len() - 1] == i);
                }
            }
            assert(rest@ =~= p0.subrange(i + 1, p0.len() as int));
        }
        i = i + 1;
    }
    assert(pairs_kept_at(p0, c, p@, idx));
}

/// Adds a pair `(c, a)` for each plan `a` of `g` whose variables are
/// incomparable with those of `c`.
fn add_new_pairs_no_doublon(g: &Vec<Algo>, p: &mut Vec<(Algo, Algo)>, c: &Algo)
    ensures
        final(p)@.len() >= old(p)@.len(),
        final(p)@.subrange(0, old(p)@.len() as int) == old(p)@,
        new_pairs(c, g@, final(p)@.subrange(old(p)@.len() as int, final(p)@.len() as int)),
{
    let n0 = p.len();
    let mut i: usize = 0;
    while i < g.len()
        invariant
            n0 == old(p)@.len(),
            i <= g@.len(),
            p@.len() >= n0,
            p@.subrange(0, n0 as int) == old(p)@,
            forall|a: int| 0 <= a < p@.len() - n0 ==> same_plan(&(#[trigger] p@.subrange(n0 as int, p@.len() as int)[a]).0, c)
                && partner_in(p@.subrange(n0 as int, p@.len() as int)[a].1, c, g@),
            forall|k: int| 0 <= k < i && incomparable(c, #[trigger] &g@[k]) ==> paired_in(g@[k], p@.subrange(n0 as int, p@.len() as int)),
        decreases g@.len() - i,
    {
        let ghost q0 = p@.subrange(n0 as int, p@.len() as int);
        if !c.vars_subset_of(&g[i]) && !g[i].vars_subset_of(c) {
            let pair = (c.duplicate(), g[i].duplicate());
            p.push(pair);
            proof {
                let q = p@.subrange(n0 as int, p@.len() as int);
                assert(q =~= q0.push(pair));
                assert(p@.subrange(0, n0 as int) =~= old(p)@);
                assert(same_plan(&pair.1, &g@[i as int]));
                assert(partner_in(pair.1, c, g@));
                assert forall|k: int| 0 <= k < i + 1 && incomparable(c, #[trigger] &g@[k]) implies paired_in(g@[k], q) by {
                    if k < i {
                        let a = choose|a: int| 0 <= a < q0.len() && same_plan(&(#[trigger] q0[a]).1, &g@[k]);
                        assert(q[a] == q0[a]);
                    } else {
                        assert(q[q.len() - 1] == pair);
                    }
                }
                assert forall|a: int| 0 <= a < q.len() implies same_plan(&(#[trigger] q[a]).0, c) && partner_in(q[a].1, c, g@) by {
                    if a < q0.len() {
                        assert(q[a] == q0[a]);
                    }
                }
            }
        }
        i = i + 1;
    }
}

/// Candidates with the same variables and costs make the same new pairs.
proof fn lemma_new_pairs_same(c: &Algo, c2: &Algo, g: Seq<Algo>, q: Seq<(Algo, Algo)>)
    requires
        same_plan(c, c2),
        new_pairs(c2, g, q),
    ensures
        new_pairs(c, g, q),
{
    assert forall|a: int| 0 <= a < q.len() implies same_plan(&(#[trigger] q[a]).0, c) && partner_in(q[a].1, c, g) by {
        assert(partner_in(q[a].1, c2, g));
        let i = choose|i: int| 0 <= i < g.len() && same_plan(&q[a].1, #[trigger] &g[i]) && incomparable(c2, &g[i]);
        assert(incomparable(c, &g[i]));
    }
    assert forall|i: int| 0 <= i < g.len() && incomparable(c, #[trigger] &g[i]) implies paired_in(g[i], q) by {
        assert(incomparable(c2, &g[i]));
    }
}

/// Offers the candidate `c` to the frontier `g` and the worklist `p`. When
/// some plan of `g` covers the same variables and is no slower, nothing
/// changes. Otherwise the plans that `c` dominates leave `g`, `c` joins
/// it, the pairs holding a dominated plan leave `p`, and `c` is paired with
/// each plan of `g` whose variables are incomparable with its own.
pub fn update_queue(g: &mut Vec<Algo>, p: &mut Vec<(Algo, Algo)>, c: Algo)
    ensures
        same_scope_no_slower(old(g)@, &c) ==> final(g)@ == old(g)@ && final(p)@ == old(p)@,
        !same_scope_no_slower(old(g)@, &c) ==> frontier_after(old(g)@, c, final(g)@)
            && pairs_after(old(p)@, &c, final(g)@, final(p)@),
{
    let mut k: usize = 0;
    while k < g.len()
        invariant
            k <= g@.len(),
            g@ == old(g)@,
            p@ == old(p)@,
            forall|i: int| 0 <= i < k ==> !(#[trigger] g@[i].vars() == c.vars() && g@[i].spec_time() <= c.spec_time()),
        decreases g@.len() - k,
    {
        match g[k].compare1(&c) {
            Some(Ordering::Greater) => {
                return;
            },
            _ => {},
        }
        k = k + 1;
    }
    keep_better(g, &c);
    let ghost kept = g@;
    keep_all_pair_that_are_better(p, &c);
    let ghost p_kept = p@;
    let c2 = c.duplicate();
    g.push(c);
    assert(g@.drop_last() =~= kept);
    add_new_pairs_no_doublon(g, p, &c2);
    proof {
        let k = p_kept.len() as int;
        let idx = choose|idx: Seq<int>| #[trigger] pairs_kept_at(old(p)@, &c, p_kept, idx);
        assert(p@.subrange(0, k) == p_kept);
        lemma_new_pairs_same(&c, &c2, g@, p@.subrange(k, p@.len() as int));
        assert(pairs_kept_at(old(p)@, &c, p@.subrange(0, k), idx));
        assert(pairs_split_at(old(p)@, &c, g@, p@, k));
    }
}

/// Offering a candidate keeps the frontier an antichain under dominance:
/// after the offer no plan of the frontier dominates another. This holds
/// whenever no plan of the frontier whose variables differ from those of
/// the candidate dominates it (the offer only rejects a candidate for a
/// plan over the same variables).
pub proof fn lemma_update_keeps_antichain(g0: Seq<Algo>, c: Algo, g1: Seq<Algo>)
    requires
        antichain(g0),
        (same_scope_no_slower(g0, &c) && g1 == g0) || (!same_scope_no_slower(g0, &c)
            && frontier_after(g0, c, g1)),
        forall|i: int|
            0 <= i < g0.len() && #[trigger] g0[i].vars() != c.vars() ==> !Algo::dominates_spec(&g0[i], &c),
    ensures
        antichain(g1),
{
    if !same_scope_no_slower(g0, &c) {
        let kept = g1.drop_last();
        let idx = choose|idx: Seq<int>| #[trigger] kept_at(g0, &c, kept, idx);
        let n = kept.len() as int;
        assert forall|i: int, j: int| 0 <= i < g1.len() && 0 <= j < g1.len() && i != j implies !Algo::dominates_spec(&g1[i], &g1[j]) by {
            if i < n && j < n {
                assert(g1[i] == kept[i]);
                assert(g1[j] == kept[j]);
                assert(idx[i] != idx[j]) by {
                    if i < j {
                        assert(idx[i] < idx[j]);
                    } else {
                        assert(idx[j] < idx[i]);
                    }
                }
                assert(!Algo::dominates_spec(&g0[idx[i]], &g0[idx[j]]));
            } else if i < n {
                assert(g1[i] == g0[idx[i]]);
                assert(g1[j] == c);
                if g0[idx[i]].vars() == c.vars() {
                    assert(!(g0[idx[i]].spec_time() <= c.spec_time()));
                }
            } else {
                assert(g1[i] == c);
                assert(g1[j] == g0[idx[j]]);
            }
        }
    }
}

/// The number of names of `names[..j]` that can be solved for.
pub open spec fn count_solvable(names: Seq<Seq<char>>, j: int) -> nat
    decreases j,
{
    if j <= 0 {
        0
    } else {
        count_solvable(names, j - 1) + if is_auxiliary(names[j - 1]) {
            0nat
        } else {
            1nat
        }
    }
}

/// One leaf plan for each variable of `x` that can be solved for, in
/// column order. No two of them are comparable, let alone dominating.
pub fn generate_all_base_solver(x: &mut Matrix) -> (r: Result<Vec<Algo>, MatrixError>)
    requires
        old(x).wf(),
    ensures
        final(x).wf(),
        final(x).spec_rows() == old(x).spec_rows(),
        final(x).spec_cols() == old(x).spec_cols(),
        final(x).spec_poly() == old(x).spec_poly(),
        Matrix::same_names(old(x), final(x)),
        match r {
            Ok(g) => {
                &&& g@.len() == count_solvable(old(x).names(), old(x).names().len() as int)
                &&& plans_within(g@, solvable(old(x).names()))
                &&& forall|i: int| 0 <= i < g@.len() ==> (#[trigger] g@[i]).is_leaf() && g@[i].fusion_count() == 0
                &&& forall|n: Seq<char>| solvable(old(x).names()).contains(n) ==> exists|i: int|
                    0 <= i < g@.len() && (#[trigger] g@[i]).vars() == set![n]
                &&& antichain(g@)
            },
            Err(e) => e matches MatrixError::NotInvertible { .. } && old(x).spec_poly() != DEFAULT_POLY,
        },
{
    let names = x.get_all_variables();
    let ghost nv = names_view(names@);
    let ghost ids: Seq<int> = Seq::empty();
    let mut g: Vec<Algo> = Vec::new();
    let mut j: usize = 0;
    while j < names.len()
        invariant
            x.wf(),
            x.spec_rows() == old(x).spec_rows(),
            x.spec_cols() == old(x).spec_cols(),
            x.spec_poly() == old(x).spec_poly(),
            Matrix::same_names(old(x), x),
            nv == old(x).names(),
            nv == names_view(names@),
            distinct(nv),
            j <= names@.len(),
            g@.len() == count_solvable(nv, j as int),
            ids.len() == g@.len(),
            forall|a: int, b: int| 0 <= a < b < ids.len() ==> ids[a] < ids[b],
            forall|a: int| 0 <= a < ids.len() ==> 0 <= #[trigger] ids[a] < j && !is_auxiliary(nv[ids[a]]),
            forall|i: int|
                0 <= i < g@.len() ==> (#[trigger] g@[i]).wf() && g@[i].is_leaf() && g@[i].fusion_count() == 0
                    && g@[i].vars() == set![nv[ids[i]]],
            forall|c: int| 0 <= c < j && !is_auxiliary(nv[c]) ==> exists|a: int| 0 <= a < ids.len() && #[trigger] ids[a] == c,
        decreases names@.len() - j,
    {
        assert(names@[j as int]@ == nv[j as int]);
        let ghost ids0 = ids;
        if !is_auxiliary_name(&names[j]) {
            let a = match Algo::base_solver(x, names[j].clone()) {
                Ok(a) => a,
                Err(e) => {
                    return Err(e);
                },
            };
            g.push(a);
            proof {
                ids = ids.push(j as int);
                assert(ids[ids.len() - 1] == j);
            }
        }
        proof {
            assert forall|c: int| 0 <= c < j + 1 && !is_auxiliary(nv[c]) implies exists|a: int| 0 <= a < ids.len() && #[trigger] ids[a] == c by {
                if c < j {
                    let a = choose|a: int| 0 <= a < ids0.len() && #[trigger] ids0[a] == c;
                    assert(ids[a] == ids0[a]);
                } else {
                    assert(ids[ids.len() - 1] == j);
                }
            }
        }
        j = j + 1;
    }
    proof {
        assert forall|i: int| 0 <= i < g@.len() implies #[trigger] g@[i].wf() && g@[i].vars().subset_of(solvable(old(x).names())) by {
            assert(nv.contains(nv[ids[i]]));
        }
        assert forall|n: Seq<char>| solvable(old(x).names()).contains(n) implies exists|i: int|
            0 <= i < g@.len() && (#[trigger] g@[i]).vars() == set![n] by {
            let c = choose|c: int| 0 <= c < nv.len() && nv[c] == n;
            let a = choose|a: int| 0 <= a < ids.len() && #[trigger] ids[a] == c;
            assert(g@[a].vars() == set![n]);
        }
        assert forall|a: int, b: int| 0 <= a < g@.len() && 0 <= b < g@.len() && a != b implies !Algo::dominates_spec(&g@[a], &g@[b]) by {
            assert(ids[a] != ids[b]) by {
                if a < b {
                    assert(ids[a] < ids[b]);
                } else {
                    assert(ids[b] < ids[a]);
                }
            }
            assert(nv[ids[a]] != nv[ids[b]]);
            assert(g@[b].vars().contains(nv[ids[b]]));
            assert(!g@[a].vars().contains(nv[ids[b]]));
        }
    }
    Ok(g)
}

/// Every pair `(g[i], g[j])` with `i < j`, as copies.
fn set_of_pair_of_algo(g: &Vec<Algo>, Ghost(s): Ghost<Set<Seq<char>>>) -> (r: Vec<(Algo, Algo)>)
    requires
        plans_within(g@, s),
    ensures
        pairs_within(r@, s),
{
    let mut r: Vec<(Algo, Algo)> = Vec::new();
    let mut i: usize = 0;
    while i < g.len()
        invariant
            i <= g@.len(),
            plans_within(g@, s),
            pairs_within(r@, s),
        decreases g@.len() - i,
    {
        let mut j: usize = i + 1;
        while j < g.len()
            invariant
                i < g@.len(),
                i + 1 <= j <= g@.len(),
                plans_within(g@, s),
                pairs_within(r@, s),
            decreases g@.len() - j,
        {
            let pair = (g[i].duplicate(), g[j].duplicate());
            assert(g@[i as int].wf() && g@[j as int].wf());
            r.push(pair);
            j = j + 1;
        }
        i = i + 1;
    }
    r
}

/// The exhaustive search. It starts from one leaf plan per variable that can
/// be solved for and the worklist of all their pairs; it then fuses pairs
/// taken from the worklist (the last first) and offers each fused plan
/// within `time_complexity` to the frontier, until the worklist is empty.
/// A pair whose fusion would exceed `MAX_FUSION_VARS` variables is dropped.
/// Returns the frontier, which is not empty when the matrix has a variable
/// to solve for. (The loop also stops after `usize::MAX` fusions, a bound
/// that only serves to show that it ends.)
pub fn exhaustive_search(x: &mut Matrix, time_complexity: usize) -> (r: Result<Vec<Algo>, MatrixError>)
    requires
        old(x).wf(),
    ensures
        final(x).wf(),
        final(x).spec_poly() == old(x).spec_poly(),
        match r {
            Ok(g) => {
                &&& count_solvable(old(x).names(), old(x).names().len() as int) > 0 ==> g@.len() > 0
                &&& plans_within(g@, solvable(old(x).names()))
                &&& all_vars(g@) == solvable(old(x).names())
                &&& within_budget(g@, time_complexity as nat)
            },
            Err(e) => e matches MatrixError::NotInvertible { .. } && old(x).spec_poly() != DEFAULT_POLY,
        },
{
    let ghost s0 = solvable(x.names());
    let all = x.get_all_variables();
    let sv = solvable_names(&all);
    let mut g = match generate_all_base_solver(x) {
        Ok(g) => g,
        Err(e) => {
            return Err(e);
        },
    };
    proof {
        lemma_all_vars_within(g@, s0);
        assert forall|v: Seq<char>| s0.contains(v) implies all_vars(g@).contains(v) by {
            let i = choose|i: int| 0 <= i < g@.len() && (#[trigger] g@[i]).vars() == set![v];
            lemma_member_vars(g@, i);
        }
        assert(all_vars(g@) =~= s0);
    }
    let mut p = set_of_pair_of_algo(&g, Ghost(s0));
    let mut budget: usize = usize::MAX;
    while p.len() > 0 && budget > 0
        invariant
            x.wf(),
            x.spec_poly() == old(x).spec_poly(),
            scope(sv@) == s0,
            s0 == solvable(old(x).names()),
            count_solvable(old(x).names(), old(x).names().len() as int) > 0 ==> g@.len() > 0,
            plans_within(g@, s0),
            all_vars(g@) == s0,
            within_budget(g@, time_complexity as nat),
        decreases budget,
    {
        let (a1, a2) = p.pop().unwrap();
        match Algo::fusion_two_algo(Box::new(a1), Box::new(a2), x) {
            Ok(c) => {
                // Every pair comes from the frontier, so `c` lies within the
                // solvable variables; the test keeps that visible here.
                if c.get_time_complexity() <= time_complexity && c.vars_within(&sv) {
                    let ghost g0 = g@;
                    let ghost cc = c;
                    update_queue(&mut g, &mut p, c);
                    proof {
                        lemma_update_frontier(g0, cc, g@, s0, time_complexity as nat);
                    }
                }
            },
            Err(PlanError::ResourceLimitExceeded) => {},
            Err(PlanError::Matrix(e)) => {
                return Err(e);
            },
            Err(_) => {},
        }
        budget = budget - 1;
    }
    Ok(g)
}


/// The sum of the fusion counts of the plans of `s`.
pub open spec fn total_fusions(s: Seq<Algo>) -> nat
    decreases s.len(),
{
    if s.len() == 0 {
        0
    } else {
        total_fusions(s.drop_last()) + s.last().fusion_count()
    }
}

/// The union of the variables of the plans of `s`.
pub open spec fn all_vars(s: Seq<Algo>) -> Set<Seq<char>>
    decreases s.len(),
{
    if s.len() == 0 {
        Set::empty()
    } else {
        all_vars(s.drop_last()).union(s.last().vars())
    }
}

proof fn lemma_remove_plan(s: Seq<Algo>, i: int)
    requires
        0 <= i < s.len(),
    ensures
        total_fusions(s) == total_fusions(s.remove(i)) + s[i].fusion_count(),
        all_vars(s) == all_vars(s.remove(i)).union(s[i].vars()),
    decreases s.len(),
{
    let t = s.remove(i);
    if i == s.len() - 1 {
        assert(t =~= s.drop_last());
    } else {
        lemma_remove_plan(s.drop_last(), i);
        assert(t.drop_last() =~= s.drop_last().remove(i));
        assert(t.last() == s.last());
        assert(all_vars(s) =~= all_vars(t).union(s[i].vars()));
    }
}

/// The random baseline: from one leaf plan per variable that can be solved
/// for, it fuses two plans drawn at random until one is left, and returns
/// it. With `n` such variables it makes exactly `n - 1` fusions, and the
/// plan covers all of them. Fails with `NothingToSolve` when there is no
/// such variable, and with `ResourceLimitExceeded` when a fusion would
/// exceed `MAX_FUSION_VARS` variables.
pub fn random_search(matrix: &mut Matrix) -> (r: Result<Algo, PlanError>)
    requires
        old(matrix).wf(),
    ensures
        final(matrix).wf(),
        final(matrix).spec_poly() == old(matrix).spec_poly(),
        Matrix::same_names(old(matrix), final(matrix)),
        match r {
            Ok(a) => {
                &&& a.wf()
                &&& a.vars() == solvable(old(matrix).names())
                &&& a.fusion_count() + 1 == count_solvable(old(matrix).names(), old(matrix).names().len() as int)
            },
            Err(PlanError::NothingToSolve) => count_solvable(old(matrix).names(), old(matrix).names().len() as int) == 0,
            Err(PlanError::ResourceLimitExceeded) => count_solvable(old(matrix).names(), old(matrix).names().len() as int) > MAX_FUSION_VARS,
            Err(PlanError::Matrix(e)) => e matches MatrixError::NotInvertible { .. } && old(matrix).spec_poly() != DEFAULT_POLY,
        },
{
    let ghost s0 = solvable(matrix.names());
    let ghost n = count_solvable(matrix.names(), matrix.names().len() as int);
    proof {
        matrix.lemma_names_distinct();
        lemma_solvable_count(matrix.names());
    }
    let mut lst = match generate_all_base_solver(matrix) {
        Ok(g) => g,
        Err(e) => {
            return Err(PlanError::Matrix(e));
        },
    };
    if lst.len() == 0 {
        return Err(PlanError::NothingToSolve);
    }
    proof {
        assert(total_fusions(lst@) == 0) by {
            lemma_no_fusions(lst@);
        }
        assert(all_vars(lst@) == s0) by {
            lemma_all_vars_within(lst@, s0);
            assert forall|v: Seq<char>| s0.contains(v) implies all_vars(lst@).contains(v) by {
                let i = choose|i: int| 0 <= i < lst@.len() && (#[trigger] lst@[i]).vars() == set![v];
                lemma_member_vars(lst@, i);
            }
            assert(all_vars(lst@) =~= s0);
        }
    }
    while lst.len() > 1
        invariant
            matrix.wf(),
            matrix.spec_poly() == old(matrix).spec_poly(),
            Matrix::same_names(old(matrix), matrix),
            s0.finite(),
            s0.len() == n,
            n == count_solvable(old(matrix).names(), old(matrix).names().len() as int),
            lst@.len() >= 1,
            plans_within(lst@, s0),
            all_vars(lst@) == s0,
            total_fusions(lst@) + lst@.len() == n,
        decreases lst@.len(),
    {
        let len = lst.len();
        let i = random_below(len);
        let ghost l0 = lst@;
        let a = lst.remove(i);
        proof {
            lemma_remove_plan(l0, i as int);
        }
        let j = random_below(len - 1);
        let ghost l1 = lst@;
        let b = lst.remove(j);
        proof {
            lemma_remove_plan(l1, j as int);
            assert(l0[i as int].wf());
            assert(l1[j as int] == l0[skip(j as int, i as int)]);
        }
        let ghost av = a.vars();
        let ghost bv = b.vars();
        proof {
            assert(l0[i as int].vars().subset_of(s0));
            assert(l0[skip(j as int, i as int)].vars().subset_of(s0));
        }
        let c = match Algo::fusion_two_algo(Box::new(a), Box::new(b), matrix) {
            Ok(c) => c,
            Err(e) => {
                proof {
                    if e is ResourceLimitExceeded {
                        assert(av == l0[i as int].vars());
                        assert(bv == l0[skip(j as int, i as int)].vars());
                        assert(av.union(bv).subset_of(s0));
                        vstd::set_lib::lemma_len_subset(av.union(bv), s0);
                        assert(av.union(bv).len() <= n);
                        assert(av.union(bv).len() > MAX_FUSION_VARS);
                        assert(n > MAX_FUSION_VARS);
                    }
                    assert(Matrix::same_names(old(matrix), matrix));
                    assert(matrix.spec_poly() == old(matrix).spec_poly());
                    assert(matrix.wf());
                }
                return Err(e);
            },
        };
        let ghost l2 = lst@;
        lst.push(c);
        proof {
            assert(lst@.drop_last() =~= l2);
            assert forall|k: int| 0 <= k < lst@.len() implies #[trigger] lst@[k].wf() && lst@[k].vars().subset_of(s0) by {
                if k < l2.len() {
                    let k1 = skip(k, j as int);
                    let k0 = skip(k1, i as int);
                    assert(lst@[k] == l2[k]);
                    assert(l2[k] == l1[k1]);
                    assert(l1[k1] == l0[k0]);
                    assert(l0[k0].wf());
                    assert(l0[k0].vars().subset_of(s0));
                } else {
                    assert(l0[i as int].vars().subset_of(s0));
                    assert(l0[skip(j as int, i as int)].vars().subset_of(s0));
                }
            }
            assert(all_vars(lst@) =~= all_vars(l0));
        }
    }
    let ghost l = lst@;
    let last = lst.pop().unwrap();
    proof {
        assert(l.drop_last() =~= Seq::<Algo>::empty());
        assert(total_fusions(l) == total_fusions(l.drop_last()) + last.fusion_count());
        assert(all_vars(l) == all_vars(l.drop_last()).union(last.vars()));
        assert(all_vars(l) =~= last.vars());
        assert(l[0].wf());
    }
    Ok(last)
}

/// The index in a list that stands at `k` once index `gone` is removed.
pub open spec fn skip(k: int, gone: int) -> int {
    if k < gone {
        k
    } else {
        k + 1
    }
}

proof fn lemma_no_fusions(s: Seq<Algo>)
    requires
        forall|i: int| 0 <= i < s.len() ==> (#[trigger] s[i]).fusion_count() == 0,
    ensures
        total_fusions(s) == 0,
    decreases s.len(),
{
    if s.len() > 0 {
        lemma_no_fusions(s.drop_last());
    }
}

proof fn lemma_all_vars_within(s: Seq<Algo>, v: Set<Seq<char>>)
    requires
        plans_within(s, v),
    ensures
        all_vars(s).subset_of(v),
    decreases s.len(),
{
    if s.len() > 0 {
        assert(plans_within(s.drop_last(), v)) by {
            assert forall|i: int| 0 <= i < s.drop_last().len() implies #[trigger] s.drop_last()[i].wf() && s.drop_last()[i].vars().subset_of(v) by {
                assert(s.drop_last()[i] == s[i]);
            }
        }
        lemma_all_vars_within(s.drop_last(), v);
        assert(s[s.len() - 1].wf());
        assert(s[s.len() - 1].vars().subset_of(v));
    }
}

proof fn lemma_member_vars(s: Seq<Algo>, i: int)
    requires
        0 <= i < s.len(),
    ensures
        s[i].vars().subset_of(all_vars(s)),
    decreases s.len(),
{
    if i < s.len() - 1 {
        lemma_member_vars(s.drop_last(), i);
        assert(s.drop_last()[i] == s[i]);
    }
}

/// Runs the random search `nb_algo` times and returns the best plan found:
/// a later plan replaces the best so far only when it dominates it and is
/// not dominated by it.
pub fn search_best_multiple_random(matrix: &mut Matrix, nb_algo: usize) -> (r: Result<Algo, PlanError>)
    requires
        old(matrix).wf(),
        nb_algo >= 1,
    ensures
        final(matrix).wf(),
        final(matrix).spec_poly() == old(matrix).spec_poly(),
        match r {
            Ok(a) => {
                &&& a.wf()
                &&& a.vars() == solvable(old(matrix).names())
                &&& a.fusion_count() + 1 == count_solvable(old(matrix).names(), old(matrix).names().len() as int)
            },
            Err(PlanError::NothingToSolve) => count_solvable(old(matrix).names(), old(matrix).names().len() as int) == 0,
            Err(PlanError::ResourceLimitExceeded) => count_solvable(old(matrix).names(), old(matrix).names().len() as int) > MAX_FUSION_VARS,
            Err(PlanError::Matrix(e)) => e matches MatrixError::NotInvertible { .. } && old(matrix).spec_poly() != DEFAULT_POLY,
        },
{
    let ghost s0 = solvable(matrix.names());
    let ghost n = count_solvable(matrix.names(), matrix.names().len() as int);
    let mut runs: Vec<Algo> = Vec::new();
    let mut k: usize = 0;
    while k < nb_algo
        invariant
            matrix.wf(),
            old(matrix).wf(),
            matrix.spec_poly() == old(matrix).spec_poly(),
            Matrix::same_names(old(matrix), matrix),
            s0 == solvable(old(matrix).names()),
            n == count_solvable(old(matrix).names(), old(matrix).names().len() as int),
            runs@.len() == k,
            k <= nb_algo,
            forall|i: int| 0 <= i < runs@.len() ==> (#[trigger] runs@[i]).wf() && runs@[i].vars() == s0 && runs@[i].fusion_count() + 1 == n,
        decreases nb_algo - k,
    {
        proof {
            lemma_same_names_solvable(old(matrix), matrix);
        }
        let cand = match random_search(matrix) {
            Ok(a) => a,
            Err(e) => {
                return Err(e);
            },
        };
        let ghost r0 = runs@;
        runs.push(cand);
        proof {
            assert forall|i: int| 0 <= i < runs@.len() implies (#[trigger] runs@[i]).wf() && runs@[i].vars() == s0 && runs@[i].fusion_count() + 1 == n by {
                if i < r0.len() {
                    assert(runs@[i] == r0[i]);
                }
            }
        }
        k = k + 1;
    }
    assert(runs@[0].vars() == s0);
    let best = best_of_runs(runs);
    Ok(best)
}

/// Every fused plan of `g` takes at most time `t`.
pub open spec fn within_budget(g: Seq<Algo>, t: nat) -> bool {
    forall|i: int| 0 <= i < g.len() && !(#[trigger] g[i]).is_leaf() ==> g[i].spec_time() <= t
}

/// The names of `names` that can be solved for, in their order.
fn solvable_names(names: &Vec<String>) -> (r: Vec<String>)
    ensures
        scope(r@) == solvable(names_view(names@)),
{
    let mut r: Vec<String> = Vec::new();
    let mut j: usize = 0;
    while j < names.len()
        invariant
            j <= names@.len(),
            forall|n: Seq<char>| crate::names::has_name(r@, n) <==> exists|k: int| 0 <= k < j && #[trigger] names@[k]@ == n && !is_auxiliary(n),
        decreases names@.len() - j,
    {
        let ghost r0 = r@;
        if !is_auxiliary_name(&names[j]) {
            r.push(names[j].clone());
        }
        proof {
            assert forall|n: Seq<char>| crate::names::has_name(r@, n) <==> exists|k: int| 0 <= k < j + 1 && #[trigger] names@[k]@ == n && !is_auxiliary(n) by {
                if crate::names::has_name(r@, n) {
                    let a = choose|a: int| 0 <= a < r@.len() && #[trigger] r@[a]@ == n;
                    if a < r0.len() {
                        assert(r0[a] == r@[a]);
                        assert(crate::names::has_name(r0, n));
                    }
                }
                if exists|k: int| 0 <= k < j + 1 && #[trigger] names@[k]@ == n && !is_auxiliary(n) {
                    let k = choose|k: int| 0 <= k < j + 1 && #[trigger] names@[k]@ == n && !is_auxiliary(n);
                    if k < j {
                        assert(names@[k]@ == n && !is_auxiliary(n));
                        assert(crate::names::has_name(r0, n));
                        let a = choose|a: int| 0 <= a < r0.len() && #[trigger] r0[a]@ == n;
                        assert(r@[a] == r0[a]);
                    } else {
                        assert(r@[r@.len() - 1]@ == n);
                    }
                }
            }
        }
        j = j + 1;
    }
    proof {
        assert forall|n: Seq<char>| scope(r@).contains(n) <==> solvable(names_view(names@)).contains(n) by {
            if solvable(names_view(names@)).contains(n) {
                let k = choose|k: int| 0 <= k < names_view(names@).len() && names_view(names@)[k] == n;
                assert(names@[k]@ == n);
            }
            if scope(r@).contains(n) {
                let k = choose|k: int| 0 <= k < j && #[trigger] names@[k]@ == n && !is_auxiliary(n);
                assert(names_view(names@)[k] == n);
            }
        }
        assert(scope(r@) =~= solvable(names_view(names@)));
    }
    r
}

/// A variable is in `all_vars(s)` exactly when some plan of `s` solves it.
proof fn lemma_all_vars_member(s: Seq<Algo>, v: Seq<char>)
    ensures
        all_vars(s).contains(v) <==> exists|i: int| 0 <= i < s.len() && (#[trigger] s[i]).vars().contains(v),
    decreases s.len(),
{
    if s.len() > 0 {
        lemma_all_vars_member(s.drop_last(), v);
        if exists|i: int| 0 <= i < s.len() && (#[trigger] s[i]).vars().contains(v) {
            let i = choose|i: int| 0 <= i < s.len() && (#[trigger] s[i]).vars().contains(v);
            if i < s.len() - 1 {
                assert(s.drop_last()[i] == s[i]);
            }
        }
        if all_vars(s.drop_last()).contains(v) {
            let i = choose|i: int| 0 <= i < s.drop_last().len() && (#[trigger] s.drop_last()[i]).vars().contains(v);
            assert(s[i] == s.drop_last()[i]);
        }
    }
}

/// Offering a plan within the variables `s` and the budget `t` keeps the
/// frontier within them, and keeps it covering every variable of `s`.
proof fn lemma_update_frontier(g0: Seq<Algo>, c: Algo, g1: Seq<Algo>, s: Set<Seq<char>>, t: nat)
    requires
        plans_within(g0, s),
        all_vars(g0) == s,
        within_budget(g0, t),
        c.wf(),
        c.vars().subset_of(s),
        c.spec_time() <= t,
        same_scope_no_slower(g0, &c) ==> g1 == g0,
        !same_scope_no_slower(g0, &c) ==> frontier_after(g0, c, g1),
    ensures
        plans_within(g1, s),
        all_vars(g1) == s,
        within_budget(g1, t),
        g1.len() >= g0.len() || g1.len() >= 1,
{
    if !same_scope_no_slower(g0, &c) {
        let kept = g1.drop_last();
        let idx = choose|idx: Seq<int>| #[trigger] kept_at(g0, &c, kept, idx);
        assert forall|i: int| 0 <= i < g1.len() implies #[trigger] g1[i].wf() && g1[i].vars().subset_of(s) by {
            if i < kept.len() {
                assert(g1[i] == kept[i]);
                assert(g0[idx[i]].wf());
            }
        }
        assert forall|i: int| 0 <= i < g1.len() && !(#[trigger] g1[i]).is_leaf() implies g1[i].spec_time() <= t by {
            if i < kept.len() {
                assert(g1[i] == kept[i]);
                assert(g0[idx[i]] == g1[i]);
            }
        }
        lemma_all_vars_within(g1, s);
        assert forall|v: Seq<char>| s.contains(v) implies all_vars(g1).contains(v) by {
            lemma_all_vars_member(g0, v);
            let i = choose|i: int| 0 <= i < g0.len() && (#[trigger] g0[i]).vars().contains(v);
            lemma_all_vars_member(g1, v);
            if Algo::dominates_spec(&c, &g0[i]) {
                assert(g1[g1.len() - 1] == c);
            } else {
                let a = choose|a: int| 0 <= a < idx.len() && idx[a] == i;
                assert(g1[a] == kept[a]);
                assert(g1[a] == g0[i]);
            }
        }
        assert(all_vars(g1) =~= s);
    }
}

/// The solvable names among the first `j` of `names`.
pub open spec fn solvable_prefix(names: Seq<Seq<char>>, j: int) -> Set<Seq<char>> {
    Set::new(|n: Seq<char>| exists|k: int| 0 <= k < j && names[k] == n && !is_auxiliary(n))
}

proof fn lemma_solvable_prefix_count(names: Seq<Seq<char>>, j: int)
    requires
        distinct(names),
        0 <= j <= names.len(),
    ensures
        solvable_prefix(names, j).finite(),
        solvable_prefix(names, j).len() == count_solvable(names, j),
    decreases j,
{
    if j == 0 {
        assert(solvable_prefix(names, 0) =~= Set::<Seq<char>>::empty());
    } else {
        lemma_solvable_prefix_count(names, j - 1);
        let p = solvable_prefix(names, j - 1);
        let x = names[j - 1];
        if is_auxiliary(x) {
            assert(solvable_prefix(names, j) =~= p);
        } else {
            assert(solvable_prefix(names, j) =~= p.insert(x));
            assert(!p.contains(x)) by {
                if p.contains(x) {
                    let k = choose|k: int| 0 <= k < j - 1 && names[k] == x && !is_auxiliary(x);
                }
            }
        }
    }
}

/// With distinct names, the solvable ones number `count_solvable`.
proof fn lemma_solvable_count(names: Seq<Seq<char>>)
    requires
        distinct(names),
    ensures
        solvable(names).finite(),
        solvable(names).len() == count_solvable(names, names.len() as int),
{
    lemma_solvable_prefix_count(names, names.len() as int);
    assert forall|n: Seq<char>| solvable(names).contains(n) <==> solvable_prefix(names, names.len() as int).contains(n) by {
        if solvable(names).contains(n) {
            let k = choose|k: int| 0 <= k < names.len() && names[k] == n;
        }
    }
    assert(solvable(names) =~= solvable_prefix(names, names.len() as int));
}

/// Matrices with the same names have the same solvable variables, and as
/// many of them.
proof fn lemma_same_names_solvable(a: &Matrix, b: &Matrix)
    requires
        a.wf(),
        b.wf(),
        Matrix::same_names(a, b),
    ensures
        solvable(a.names()) == solvable(b.names()),
        count_solvable(a.names(), a.names().len() as int) == count_solvable(b.names(), b.names().len() as int),
{
    a.lemma_names_distinct();
    b.lemma_names_distinct();
    assert forall|v: Seq<char>| solvable(a.names()).contains(v) <==> solvable(b.names()).contains(v) by {
        assert(a.names().contains(v) <==> b.names().contains(v));
    }
    assert(solvable(a.names()) =~= solvable(b.names()));
    lemma_solvable_count(a.names());
    lemma_solvable_count(b.names());
}

/// The best of several plans over the same variables: the first one that
/// no later plan strictly dominates. It is one of `runs` and dominates each
/// of them.
pub fn best_of_runs(runs: Vec<Algo>) -> (r: Algo)
    requires
        runs@.len() >= 1,
        forall|i: int| 0 <= i < runs@.len() ==> (#[trigger] runs@[i]).vars() == runs@[0].vars(),
    ensures
        exists|i: int| 0 <= i < runs@.len() && r == #[trigger] runs@[i],
        forall|i: int| 0 <= i < runs@.len() ==> Algo::dominates_spec(&r, #[trigger] &runs@[i]),
{
    let ghost all = runs@;
    let n0 = runs.len();
    let mut rest = runs;
    let mut best = rest.remove(0);
    let ghost bi: int = 0;
    let mut k: usize = 1;
    while rest.len() > 0
        invariant
            1 <= k <= all.len(),
            all.len() == n0,
            rest@ == all.subrange(k as int, all.len() as int),
            0 <= bi < k,
            best == all[bi],
            forall|i: int| 0 <= i < all.len() ==> (#[trigger] all[i]).vars() == all[0].vars(),
            forall|i: int| 0 <= i < k ==> Algo::dominates_spec(&best, #[trigger] &all[i]),
        decreases rest@.len(),
    {
        let cand = rest.remove(0);
        assert(cand == all[k as int]);
        let ghost old_best = best;
        if cand.dominates(&best) && !best.dominates(&cand) {
            proof {
                assert forall|i: int| 0 <= i < k + 1 implies Algo::dominates_spec(&cand, #[trigger] &all[i]) by {
                    if i < k {
                        assert(Algo::dominates_spec(&old_best, &all[i]));
                    }
                }
                bi = k as int;
            }
            best = cand;
        } else {
            proof {
                assert(old_best.vars() == cand.vars());
                assert(Algo::dominates_spec(&best, &cand));
            }
        }
        assert(rest@ =~= all.subrange(k + 1, all.len() as int));
        k = k + 1;
    }
    best
}

} // verus!
