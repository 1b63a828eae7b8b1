use crate::frac::{fadd, fdiv, feq, fint, fle, flt, fmul, fneg, fnorm, rat_fits, Frac};
use crate::rat::Rat;
use crate::utils::{copy_rats, mismatch_message, rats_ok, rats_wf, rows_uniform, rows_wf};
use vstd::prelude::*;

verus! {

broadcast use vstd::string::group_string_axioms;

/// Outcome of the initialization phase.
#[derive(Debug, PartialEq)]
pub enum InitializationResult {
    /// The dictionary is basic feasible; the main loop may run.
    Done,
    /// The linear program has no feasible point.
    Unfeasible,
}

/// Outcome of the leaving-variable search for one entering column:
/// either no row bounds the increase, or the bounding row.
#[derive(Debug, PartialEq)]
pub enum Leaving {
    /// No candidate row: the objective is unbounded along this column.
    Unbounded,
    /// The ratio, the row index, and the basic variable of that row.
    Info(Rat, usize, usize),
}

/// Outcome of one round of entering/leaving selection.
#[derive(Debug, PartialEq)]
pub enum SimplexRound {
    /// No improving column remains: the dictionary is optimal.
    Finished,
    /// Some improving column has no bounding row.
    Unbounded,
    /// Pivot at this column and row.
    Switch(usize, usize),
}

/// Final outcome of a simplex run.
#[derive(Debug, PartialEq)]
pub enum SimplexResult {
    /// The objective is unbounded above.
    Unbounded,
    /// No feasible point exists.
    Unfeasible,
    /// An optimal primal solution.
    Optimal(Vec<Rat>),
}

/// A linear program in slack (dictionary) form. Row `i` of the dictionary
/// reads `x_basic[i] = b[i] - sum_j a[i][j] * x_non_basic[j]`, and the
/// objective reads `z = v + sum_j c[j] * x_non_basic[j]`. The stored matrix
/// is therefore the negation of the standard-form constraint matrix.
#[derive(Debug, PartialEq, Clone)]
pub struct SlackFormLP {
    /// Indices of the non-basic variables, one per column.
    pub non_basic: Vec<usize>,
    /// Indices of the basic variables, one per row.
    pub basic: Vec<usize>,
    /// The dictionary coefficient matrix, `m` rows of length `n`.
    pub a: Vec<Vec<Rat>>,
    /// The right-hand side, length `m`.
    pub b: Vec<Rat>,
    /// The reduced-cost row, length `n`.
    pub c: Vec<Rat>,
    /// The constant term of the objective.
    pub v: Rat,
    /// The number of non-basic variables (the problem dimension).
    pub n: usize,
}

/// How one pivot at (`col`, `row`) rewrites the dictionary. With
/// `d = -a[row][col]`: the entering and leaving indices swap; the pivot row
/// becomes `a[row][j] / d` with `-1 / d` at the pivot column and its
/// right-hand side `b[row] / d`; every other row `i` is eliminated with
/// factor `a[i][col]` against the new pivot row, and the objective row with
/// factor `c[col]`. Every stored entry is the canonical representative of
/// its exact rational value.
pub open spec fn pivot_rel(pre: SlackFormLP, post: SlackFormLP, col: int, row: int) -> bool {
    let d = fneg(pre.a@[row]@[col]@);
    &&& post.n == pre.n
    &&& post.b@.len() == pre.b@.len()
    &&& post.c@.len() == pre.c@.len()
    &&& post.a@.len() == pre.a@.len()
    &&& rows_uniform(post.a@, pre.n as int)
    &&& post.non_basic@ == pre.non_basic@.update(col, pre.basic@[row])
    &&& post.basic@ == pre.basic@.update(row, pre.non_basic@[col])
    &&& post.b@[row]@ == fnorm(fdiv(pre.b@[row]@, d))
    &&& post.a@[row]@[col]@ == fnorm(fdiv(fint(-1), d))
    &&& (forall|j: int|
        0 <= j < pre.n && j != col ==> (#[trigger] post.a@[row]@[j])@ == fnorm(
            fdiv(pre.a@[row]@[j]@, d),
        ))
    &&& (forall|i: int|
        0 <= i < pre.m() && i != row ==> (#[trigger] post.b@[i])@ == fnorm(
            fadd(pre.b@[i]@, fnorm(fmul(post.b@[row]@, pre.a@[i]@[col]@))),
        ))
    &&& (forall|i: int, j: int|
        0 <= i < pre.m() && i != row && 0 <= j < pre.n && j != col ==> (
        #[trigger] post.a@[i]@[j])@ == fnorm(
            fadd(pre.a@[i]@[j]@, fnorm(fmul(post.a@[row]@[j]@, pre.a@[i]@[col]@))),
        ))
    &&& (forall|i: int|
        0 <= i < pre.m() && i != row ==> (#[trigger] post.a@[i])@[col]@ == fnorm(
            fmul(post.a@[row]@[col]@, pre.a@[i]@[col]@),
        ))
    &&& post.v@ == fnorm(fadd(pre.v@, fnorm(fmul(post.b@[row]@, pre.c@[col]@))))
    &&& (forall|j: int|
        0 <= j < pre.n && j != col ==> (#[trigger] post.c@[j])@ == fnorm(
            fadd(pre.c@[j]@, fnorm(fmul(post.a@[row]@[j]@, pre.c@[col]@))),
        ))
    &&& post.c@[col]@ == fnorm(fmul(post.a@[row]@[col]@, pre.c@[col]@))
    &&& rats_wf(post.b@)
    &&& rats_wf(post.c@)
    &&& rows_wf(post.a@)
    &&& post.v.wf()
}

/// The objective constant after substituting the dictionary rows `0..upto`
/// into the saved objective `init_c`: each basic row whose variable is an
/// original one contributes `b[i] * init_c[basic[i]]`, accumulated exactly
/// as the executable rebuild does (canonical representative at each step).
pub open spec fn rebuilt_v(s: SlackFormLP, init_c: Seq<Rat>, upto: int) -> Frac
    decreases upto,
{
    if upto <= 0 {
        s.v@
    } else {
        let prev = rebuilt_v(s, init_c, upto - 1);
        if s.basic@[upto - 1] < s.n {
            fnorm(fadd(prev, fnorm(fmul(s.b@[upto - 1]@, init_c[s.basic@[upto - 1] as int]@))))
        } else {
            prev
        }
    }
}

/// The coefficient of column `j` after substituting the dictionary rows
/// `0..upto` into the saved objective `init_c`: each basic row whose
/// variable is an original one contributes `a[i][j] * init_c[basic[i]]`,
/// accumulated exactly as the executable rebuild does.
pub open spec fn rebuilt_c(s: SlackFormLP, init_c: Seq<Rat>, j: int, upto: int) -> Frac
    decreases upto,
{
    if upto <= 0 {
        fint(0)
    } else {
        let prev = rebuilt_c(s, init_c, j, upto - 1);
        if s.basic@[upto - 1] < s.n {
            fnorm(
                fadd(prev, fnorm(fmul(s.a@[upto - 1]@[j]@, init_c[s.basic@[upto - 1] as int]@))),
            )
        } else {
            prev
        }
    }
}

/// The negated pivot entry, the divisor of the pivot rewrite.
pub open spec fn piv_d(pre: SlackFormLP, col: int, row: int) -> Frac {
    fneg(pre.a@[row]@[col]@)
}

/// The rewritten pivot-row entry at column `j`: the old entry (or `-1` at
/// the pivot column) divided by the negated pivot entry.
pub open spec fn piv_row_entry(pre: SlackFormLP, col: int, row: int, j: int) -> Frac {
    if j == col {
        fnorm(fdiv(fint(-1), piv_d(pre, col, row)))
    } else {
        fnorm(fdiv(pre.a@[row]@[j]@, piv_d(pre, col, row)))
    }
}

/// The rewritten right-hand side of the pivot row.
pub open spec fn piv_b_row(pre: SlackFormLP, col: int, row: int) -> Frac {
    fnorm(fdiv(pre.b@[row]@, piv_d(pre, col, row)))
}

/// The elimination amount added to entry (`i`, `j`): the rewritten pivot
/// row entry scaled by the eliminated column entry of row `i`.
pub open spec fn piv_elim_term(pre: SlackFormLP, col: int, row: int, i: int, j: int) -> Frac {
    fnorm(fmul(piv_row_entry(pre, col, row, j), pre.a@[i]@[col]@))
}

/// The elimination amount added to the right-hand side of row `i`.
pub open spec fn piv_b_term(pre: SlackFormLP, col: int, row: int, i: int) -> Frac {
    fnorm(fmul(piv_b_row(pre, col, row), pre.a@[i]@[col]@))
}

/// The elimination amount added to objective coefficient `j`.
pub open spec fn piv_obj_term(pre: SlackFormLP, col: int, row: int, j: int) -> Frac {
    fnorm(fmul(piv_row_entry(pre, col, row, j), pre.c@[col]@))
}

/// Whether every value produced by a pivot at (`col`, `row`) fits the
/// 64-bit representation after reduction to lowest terms: the rewritten
/// pivot row and right-hand side, every eliminated entry with its
/// intermediate product, and the rewritten objective. This is exactly the
/// condition under which `pivot` succeeds.
pub open spec fn pivot_fits(pre: SlackFormLP, col: int, row: int) -> bool {
    &&& (forall|j: int| 0 <= j < pre.n ==> rat_fits(#[trigger] piv_row_entry(pre, col, row, j)))
    &&& rat_fits(piv_b_row(pre, col, row))
    &&& (forall|i: int|
        0 <= i < pre.m() && i != row ==> rat_fits(#[trigger] piv_b_term(pre, col, row, i)))
    &&& (forall|i: int|
        0 <= i < pre.m() && i != row ==> rat_fits(
            fnorm(fadd(pre.b@[i]@, #[trigger] piv_b_term(pre, col, row, i))),
        ))
    &&& (forall|i: int, j: int|
        0 <= i < pre.m() && i != row && 0 <= j < pre.n ==> rat_fits(
            #[trigger] piv_elim_term(pre, col, row, i, j),
        ))
    &&& (forall|i: int, j: int|
        0 <= i < pre.m() && i != row && 0 <= j < pre.n && j != col ==> rat_fits(
            fnorm(fadd(pre.a@[i]@[j]@, #[trigger] piv_elim_term(pre, col, row, i, j))),
        ))
    &&& (forall|j: int| 0 <= j < pre.n ==> rat_fits(#[trigger] piv_obj_term(pre, col, row, j)))
    &&& (forall|j: int|
        0 <= j < pre.n && j != col ==> rat_fits(
            fnorm(fadd(pre.c@[j]@, #[trigger] piv_obj_term(pre, col, row, j))),
        ))
    &&& rat_fits(fnorm(fmul(piv_b_row(pre, col, row), pre.c@[col]@)))
    &&& rat_fits(fnorm(fadd(pre.v@, fnorm(fmul(piv_b_row(pre, col, row), pre.c@[col]@)))))
}

/// Two dictionaries with the same mathematical content: equal dimensions,
/// index sequences, and entries.
pub open spec fn same_view(s1: SlackFormLP, s2: SlackFormLP) -> bool {
    &&& s1.n == s2.n
    &&& s1.non_basic@ == s2.non_basic@
    &&& s1.basic@ == s2.basic@
    &&& s1.b@ == s2.b@
    &&& s1.c@ == s2.c@
    &&& s1.v == s2.v
    &&& s1.a@.len() == s2.a@.len()
    &&& forall|i: int| 0 <= i < s1.a@.len() ==> (#[trigger] s1.a@[i]@) == s2.a@[i]@
}

/// The Bland's-rule main loop as a relation: from `s`, within `fuel`
/// pivots, the loop reaches a final dictionary with the content of `f`,
/// either optimal (`opt`) or unbounded (`!opt`). The relation is false
/// when the selection scan stops on an overflowing column or a pivot does
/// not fit the representation: exactly the runs the executable loop
/// completes.
pub open spec fn runs_to(s: SlackFormLP, f: SlackFormLP, opt: bool, fuel: nat) -> bool
    decreases fuel,
{
    ||| (s.sel_finished() && same_view(f, s) && opt)
    ||| (s.stops_unbounded() && same_view(f, s) && !opt)
    ||| (s.no_stops() && !s.sel_finished() && fuel > 0 && (exists|col: int, row: int, mid: SlackFormLP|
        s.is_selection(col, row) && pivot_fits(s, col, row) && #[trigger] pivot_rel(
            s,
            mid,
            col,
            row,
        ) && mid.wf() && runs_to(mid, f, opt, (fuel - 1) as nat)))
}

/// The dictionary obtained from `pre` by introducing the auxiliary
/// variable: dimension one higher, the auxiliary index appended to the
/// non-basic side, every basic index shifted up by one, a column of ones,
/// the right-hand side kept, and the auxiliary objective (all zeros with a
/// single minus one).
pub open spec fn aux_extension(pre: SlackFormLP, s: SlackFormLP) -> bool {
    &&& s.n == pre.n + 1
    &&& s.non_basic@ == pre.non_basic@.push(pre.n)
    &&& s.basic@.len() == pre.m()
    &&& (forall|i: int| 0 <= i < pre.m() ==> (#[trigger] s.basic@[i]) == pre.basic@[i] + 1)
    &&& s.b@ == pre.b@
    &&& s.v == pre.v
    &&& s.c@.len() == pre.n + 1
    &&& (forall|j: int| 0 <= j < pre.n ==> (#[trigger] s.c@[j])@ == fint(0))
    &&& s.c@[pre.n as int]@ == fint(-1)
    &&& s.a@.len() == pre.m()
    &&& (forall|i: int|
        0 <= i < pre.m() ==> (#[trigger] s.a@[i]@).len() == pre.n + 1 && (forall|j: int|
            0 <= j < pre.n ==> s.a@[i]@[j] == pre.a@[i]@[j]) && s.a@[i]@[pre.n as int]@ == fint(
            1,
        ))
}

/// The auxiliary variable (the one with the highest index) has value zero
/// in the basic solution of `f`.
pub open spec fn aux_value_zero(f: SlackFormLP) -> bool {
    forall|j: int| 0 <= j < f.m() && (#[trigger] f.basic@[j]) == f.n - 1 ==> f.b@[j]@.n == 0
}

/// The two-phase certificate behind a completed initialization on an
/// infeasible-looking start: the auxiliary dictionary, its first pivot at
/// the most negative row, and a completed run of the main loop on it. The
/// auxiliary optimum decides the outcome: `Done` iff the auxiliary
/// variable's value is zero there.
pub open spec fn aux_run(pre: SlackFormLP, f: SlackFormLP, o: bool, fuel: nat) -> bool {
    exists|s0: SlackFormLP, s1: SlackFormLP, k: int|
        aux_extension(pre, s0) && pre.is_first_min_b_row(k) && pivot_fits(s0, pre.n as int, k)
            && #[trigger] pivot_rel(s0, s1, pre.n as int, k) && s1.wf() && runs_to(s1, f, o, fuel)
}

/// Law: two completed runs from one dictionary agree. The main loop is
/// deterministic up to the content of the final dictionary.
pub proof fn lemma_runs_to_deterministic(
    s: SlackFormLP,
    f1: SlackFormLP,
    o1: bool,
    fl1: nat,
    f2: SlackFormLP,
    o2: bool,
    fl2: nat,
)
    requires
        s.wf(),
        runs_to(s, f1, o1, fl1),
        runs_to(s, f2, o2, fl2),
    ensures
        o1 == o2,
        same_view(f1, f2),
    decreases fl1,
{
    if s.sel_finished() {
        assert(!s.stops_unbounded()) by {
            if s.stops_unbounded() {
                let t = choose|t: int| #[trigger] s.first_stop_at(t) && s.col_unb(t);
                assert(!s.pos_col(t));
            }
        };
        assert(same_view(f1, s) && same_view(f2, s));
        assert(same_view(f1, f2)) by {
            assert forall|i: int| 0 <= i < f1.a@.len() implies (#[trigger] f1.a@[i]@)
                == f2.a@[i]@ by {
                assert(f1.a@[i]@ == s.a@[i]@ && f2.a@[i]@ == s.a@[i]@);
            };
        };
    } else if s.stops_unbounded() {
        assert(!s.no_stops()) by {
            let t = choose|t: int| #[trigger] s.first_stop_at(t) && s.col_unb(t);
            assert(s.col_unb(t));
        };
        assert(same_view(f1, s) && same_view(f2, s));
        assert(same_view(f1, f2)) by {
            assert forall|i: int| 0 <= i < f1.a@.len() implies (#[trigger] f1.a@[i]@)
                == f2.a@[i]@ by {
                assert(f1.a@[i]@ == s.a@[i]@ && f2.a@[i]@ == s.a@[i]@);
            };
        };
    } else {
        let (c1, r1, m1) = choose|c1: int, r1: int, m1: SlackFormLP|
            s.is_selection(c1, r1) && pivot_fits(s, c1, r1) && #[trigger] pivot_rel(s, m1, c1, r1)
                && m1.wf() && runs_to(m1, f1, o1, (fl1 - 1) as nat);
        let (c2, r2, m2) = choose|c2: int, r2: int, m2: SlackFormLP|
            s.is_selection(c2, r2) && pivot_fits(s, c2, r2) && #[trigger] pivot_rel(s, m2, c2, r2)
                && m2.wf() && runs_to(m2, f2, o2, (fl2 - 1) as nat);
        lemma_selection_unique(s, c1, r1, c2, r2);
        assert(0 <= c1 < s.n && 0 <= r1 < s.m()) by {
            assert(s.c@.len() == s.n);
        };
        lemma_pivot_rel_deterministic(s, m2, m1, c1, r1);
        lemma_runs_to_view(m2, m1, f2, o2, (fl2 - 1) as nat);
        lemma_runs_to_deterministic(m1, f1, o1, (fl1 - 1) as nat, f2, o2, (fl2 - 1) as nat);
    }
}

/// The most-negative-row choice is unique.
proof fn lemma_first_min_unique(s: SlackFormLP, k1: int, k2: int)
    requires
        s.is_first_min_b_row(k1),
        s.is_first_min_b_row(k2),
    ensures
        k1 == k2,
{
    if k1 < k2 {
        assert(flt(s.b@[k2]@, s.b@[k1]@));
        assert(fle(s.b@[k1]@, s.b@[k2]@));
    }
    if k2 < k1 {
        assert(flt(s.b@[k1]@, s.b@[k2]@));
        assert(fle(s.b@[k2]@, s.b@[k1]@));
    }
}

/// Introducing the auxiliary variable determines the dictionary's content.
proof fn lemma_aux_extension_same_view(pre: SlackFormLP, x: SlackFormLP, y: SlackFormLP)
    requires
        aux_extension(pre, x),
        aux_extension(pre, y),
    ensures
        same_view(x, y),
        x.a@.len() == x.b@.len(),
{
    assert forall|i: int| 0 <= i < pre.m() implies x.basic@[i] == y.basic@[i] by {};
    assert(x.basic@ =~= y.basic@);
    assert forall|j: int| 0 <= j < pre.n + 1 implies x.c@[j] == y.c@[j] by {
        if j < pre.n {
            assert(x.c@[j]@ == fint(0) && y.c@[j]@ == fint(0));
        } else {
            assert(x.c@[j]@ == fint(-1) && y.c@[j]@ == fint(-1));
        }
    };
    assert(x.c@ =~= y.c@);
    assert forall|i: int| 0 <= i < x.a@.len() implies (#[trigger] x.a@[i]@) == y.a@[i]@ by {
        assert forall|j: int| 0 <= j < pre.n + 1 implies x.a@[i]@[j] == y.a@[i]@[j] by {
            if j < pre.n {
                assert(x.a@[i]@[j] == pre.a@[i]@[j] && y.a@[i]@[j] == pre.a@[i]@[j]);
            } else {
                assert(x.a@[i]@[j]@ == fint(1) && y.a@[i]@[j]@ == fint(1));
            }
        };
        assert(x.a@[i]@ =~= y.a@[i]@);
    };
}

/// A hypothetical auxiliary run's first pivot fits the dictionary the
/// executable construction actually built.
proof fn lemma_aux_run_fits(
    pre: SlackFormLP,
    auxs: SlackFormLP,
    k: int,
    f: SlackFormLP,
    o: bool,
    fl: nat,
)
    requires
        aux_run(pre, f, o, fl),
        aux_extension(pre, auxs),
        pre.is_first_min_b_row(k),
    ensures
        pivot_fits(auxs, pre.n as int, k),
{
    let (s0h, s1h, kh) = choose|s0h: SlackFormLP, s1h: SlackFormLP, kh: int|
        aux_extension(pre, s0h) && pre.is_first_min_b_row(kh) && pivot_fits(s0h, pre.n as int, kh)
            && #[trigger] pivot_rel(s0h, s1h, pre.n as int, kh) && s1h.wf() && runs_to(
            s1h,
            f,
            o,
            fl,
        );
    lemma_first_min_unique(pre, k, kh);
    lemma_aux_extension_same_view(pre, s0h, auxs);
    lemma_pivot_specs_same_view(s0h, auxs, pre.n as int, k);
}

/// A hypothetical auxiliary run can be replayed from the dictionary the
/// executable two-phase construction actually built.
proof fn lemma_aux_run_replay(
    pre: SlackFormLP,
    auxs: SlackFormLP,
    s1: SlackFormLP,
    k: int,
    f: SlackFormLP,
    o: bool,
    fl: nat,
)
    requires
        aux_run(pre, f, o, fl),
        aux_extension(pre, auxs),
        auxs.wf(),
        pre.is_first_min_b_row(k),
        pivot_rel(auxs, s1, pre.n as int, k),
        s1.wf(),
    ensures
        runs_to(s1, f, o, fl),
{
    let (s0h, s1h, kh) = choose|s0h: SlackFormLP, s1h: SlackFormLP, kh: int|
        aux_extension(pre, s0h) && pre.is_first_min_b_row(kh) && pivot_fits(s0h, pre.n as int, kh)
            && #[trigger] pivot_rel(s0h, s1h, pre.n as int, kh) && s1h.wf() && runs_to(
            s1h,
            f,
            o,
            fl,
        );
    lemma_first_min_unique(pre, k, kh);
    lemma_aux_extension_same_view(pre, s0h, auxs);
    lemma_pivot_specs_same_view(s0h, auxs, pre.n as int, k);
    assert(pivot_rel(auxs, s1h, pre.n as int, k));
    assert(0 <= pre.n < auxs.n && 0 <= k < auxs.m()) by {
        assert(auxs.b@ == pre.b@);
    };
    lemma_pivot_rel_deterministic(auxs, s1h, s1, pre.n as int, k);
    lemma_runs_to_view(s1h, s1, f, o, fl);
}

/// Once the executable two-phase run ended in an auxiliary optimum with
/// the auxiliary variable at zero, no hypothetical auxiliary run can end
/// otherwise: the loop is deterministic.
proof fn lemma_done_run_refutes(
    pre: SlackFormLP,
    auxs: SlackFormLP,
    s1: SlackFormLP,
    k: int,
    s2: SlackFormLP,
    flx: nat,
)
    requires
        aux_extension(pre, auxs),
        auxs.wf(),
        pre.is_first_min_b_row(k),
        pivot_rel(auxs, s1, pre.n as int, k),
        s1.wf(),
        runs_to(s1, s2, true, flx),
        aux_value_zero(s2),
    ensures
        forall|f: SlackFormLP, o: bool, fl: nat|
            !(#[trigger] aux_run(pre, f, o, fl) && (!o || !aux_value_zero(f))),
{
    assert forall|f: SlackFormLP, o: bool, fl: nat| true implies !(#[trigger] aux_run(pre, f, o, fl)
        && (!o || !aux_value_zero(f))) by {
        if aux_run(pre, f, o, fl) {
            lemma_aux_run_replay(pre, auxs, s1, k, f, o, fl);
            lemma_runs_to_deterministic(s1, s2, true, flx, f, o, fl);
            assert(o == true);
            assert(aux_value_zero(f)) by {
                assert forall|j: int|
                    0 <= j < f.m() && (#[trigger] f.basic@[j]) == f.n - 1 implies f.b@[j]@.n
                    == 0 by {
                    assert(s2.basic@[j] == f.basic@[j] && s2.b@[j] == f.b@[j] && s2.n == f.n
                        && s2.b@.len() == f.b@.len());
                };
            };
        }
    };
}

impl SlackFormLP {
    /// Number of rows of the dictionary.
    pub open spec fn m(self) -> int {
        self.b@.len() as int
    }

    /// One more than the largest variable index: non-basic and basic
    /// variables together are `{0, ..., total() - 1}`.
    pub open spec fn total(self) -> int {
        self.n + self.m()
    }

    /// All dimensions agree: `m` rows of length `n`, `n` columns, one basic
    /// index per row and one non-basic index per column.
    pub open spec fn wf_dims(self) -> bool {
        &&& self.a@.len() == self.m()
        &&& self.basic@.len() == self.m()
        &&& self.non_basic@.len() == self.n
        &&& self.c@.len() == self.n
        &&& self.n > 0
        &&& self.m() > 0
        &&& rows_uniform(self.a@, self.n as int)
        &&& self.total() <= usize::MAX
    }

    /// Every stored rational is well formed.
    pub open spec fn wf_rats(self) -> bool {
        &&& rats_wf(self.b@)
        &&& rats_wf(self.c@)
        &&& rows_wf(self.a@)
        &&& self.v.wf()
    }

    /// The non-basic and basic indices together list every variable index
    /// below `total()` exactly once: a disjoint partition.
    pub open spec fn wf_basis(self) -> bool {
        let all = self.non_basic@ + self.basic@;
        &&& all.no_duplicates()
        &&& forall|i: int| 0 <= i < all.len() ==> all[i] < self.total()
    }

    /// A well-formed slack-form dictionary.
    pub open spec fn wf(self) -> bool {
        self.wf_dims() && self.wf_rats() && self.wf_basis()
    }

    /// Every right-hand side is nonnegative: the basic solution is feasible.
    pub open spec fn feasible(self) -> bool {
        forall|i: int| 0 <= i < self.b@.len() ==> (#[trigger] self.b@[i])@.n >= 0
    }

    /// Row `i` bounds the increase of the variable at column `col`.
    pub open spec fn cand(self, col: int, i: int) -> bool {
        self.b@[i]@.n >= 0 && self.a@[i]@[col]@.n < 0
    }

    /// The increase of the column variable allowed by row `i`.
    pub open spec fn delta(self, col: int, i: int) -> Frac {
        fdiv(self.b@[i]@, fneg(self.a@[i]@[col]@))
    }

    /// Some row bounds the increase of the column variable.
    pub open spec fn has_cand(self, col: int) -> bool {
        exists|i: int| 0 <= i < self.m() && self.cand(col, i)
    }

    /// The reduced cost of column `col` is positive: an improving column.
    pub open spec fn pos_col(self, col: int) -> bool {
        self.c@[col]@.n > 0
    }

    /// `row` is a candidate achieving the least ratio for `col`, and the
    /// first row to achieve it.
    pub open spec fn is_min_ratio_row(self, col: int, row: int) -> bool {
        &&& 0 <= row < self.m()
        &&& self.cand(col, row)
        &&& forall|i: int|
            0 <= i < self.m() && self.cand(col, i) ==> fle(
                self.delta(col, row),
                self.delta(col, i),
            )
        &&& forall|i: int|
            0 <= i < row && self.cand(col, i) ==> flt(self.delta(col, row), self.delta(col, i))
    }

    /// Every candidate ratio of column `col` fits the 64-bit representation.
    pub open spec fn col_ratios_fit(self, col: int) -> bool {
        forall|i: int|
            0 <= i < self.m() && self.cand(col, i) ==> rat_fits(fnorm(#[trigger] self.delta(
                col,
                i,
            )))
    }

    /// No column has a positive reduced cost: the dictionary is optimal
    /// and the selection scan finishes.
    pub open spec fn sel_finished(self) -> bool {
        forall|t: int| 0 <= t < self.c@.len() ==> !self.pos_col(t)
    }

    /// Column `t` proves the program unbounded: improving, with no
    /// bounding row.
    pub open spec fn col_unb(self, t: int) -> bool {
        &&& 0 <= t < self.c@.len()
        &&& self.pos_col(t)
        &&& !self.has_cand(t)
    }

    /// Column `t` stops the selection scan with an overflow: improving and
    /// bounded, but some candidate ratio leaves the representation.
    pub open spec fn col_ovf(self, t: int) -> bool {
        &&& 0 <= t < self.c@.len()
        &&& self.pos_col(t)
        &&& self.has_cand(t)
        &&& !self.col_ratios_fit(t)
    }

    /// Position `t` is the first column at which the selection scan stops.
    pub open spec fn first_stop_at(self, t: int) -> bool {
        &&& self.col_unb(t) || self.col_ovf(t)
        &&& forall|u: int| 0 <= u < t ==> !self.col_unb(u) && !self.col_ovf(u)
    }

    /// The selection scan stops at an unbounded column.
    pub open spec fn stops_unbounded(self) -> bool {
        exists|t: int| #[trigger] self.first_stop_at(t) && self.col_unb(t)
    }

    /// The selection scan stops at an overflowing column.
    pub open spec fn stops_overflow(self) -> bool {
        exists|t: int| #[trigger] self.first_stop_at(t) && self.col_ovf(t)
    }

    /// No column stops the selection scan: every improving column has a
    /// bounding row and all its candidate ratios fit.
    pub open spec fn no_stops(self) -> bool {
        forall|t: int|
            #![trigger self.col_unb(t)]
            #![trigger self.col_ovf(t)]
            !self.col_unb(t) && !self.col_ovf(t)
    }

    /// Row `k` holds the least right-hand side, earliest on ties.
    pub open spec fn is_first_min_b_row(self, k: int) -> bool {
        &&& 0 <= k < self.m()
        &&& forall|i: int| 0 <= i < self.m() ==> fle(self.b@[k]@, (#[trigger] self.b@[i])@)
        &&& forall|i: int| 0 <= i < k ==> flt(self.b@[k]@, (#[trigger] self.b@[i])@)
    }

    /// (`col`, `row`) is the pair Bland's rule selects: `col` is improving
    /// with the least non-basic variable index (earliest on ties) and
    /// `row` is its least-ratio candidate row.
    pub open spec fn is_selection(self, col: int, row: int) -> bool {
        &&& 0 <= col < self.c@.len()
        &&& self.pos_col(col)
        &&& self.is_min_ratio_row(col, row)
        &&& forall|t: int|
            0 <= t < self.c@.len() && #[trigger] self.pos_col(t) ==> self.non_basic@[col]
                <= self.non_basic@[t]
        &&& forall|t: int|
            0 <= t < col && #[trigger] self.pos_col(t) ==> self.non_basic@[col]
                < self.non_basic@[t]
    }

    /// Builds the dictionary directly from its parts, with no checks; the
    /// caller answers for well-formedness.
    pub fn from_parts(
        non_basic: Vec<usize>,
        basic: Vec<usize>,
        a: Vec<Vec<Rat>>,
        b: Vec<Rat>,
        c: Vec<Rat>,
        v: Rat,
        n: usize,
    ) -> (r: SlackFormLP)
        ensures
            r == (SlackFormLP { non_basic, basic, a, b, c, v, n }),
    {
        SlackFormLP { non_basic, basic, a, b, c, v, n }
    }

    /// Builds a slack-form dictionary from a matrix already in dictionary
    /// (negated) convention: fresh decision variables `0..n` non-basic,
    /// slack variables `n..n+m` basic, objective constant zero. Rejects
    /// empty or ragged input shapes.
    pub fn new(a: Vec<Vec<Rat>>, b: Vec<Rat>, c: Vec<Rat>) -> (r: Result<SlackFormLP, String>)
        requires
            c@.len() + b@.len() <= usize::MAX,
        ensures
            ({
                if a@.len() == 0 {
                    r matches Err(e) && e@ == "Matrix 'A' should not be empty"@
                } else if b@.len() == 0 {
                    r matches Err(e) && e@ == "Vector 'b' should not be empty"@
                } else if c@.len() == 0 {
                    r matches Err(e) && e@ == "Vector 'c' should not be empty"@
                } else if c@.len() != a@[0]@.len() {
                    r is Err
                } else if !rows_uniform(a@, c@.len() as int) {
                    r matches Err(e) && e@
                        == "Each and every row in the matrix 'A' should have the same size"@
                } else if a@.len() != b@.len() {
                    r is Err
                } else {
                    r matches Ok(lp) && lp.a@ == a@ && lp.b@ == b@ && lp.c@ == c@ && lp.n == c@.len()
                        && lp.v@ == fint(0) && lp.v.wf() && lp.non_basic@.len() == c@.len()
                        && lp.basic@.len() == b@.len() && (forall|j: int|
                        0 <= j < c@.len() ==> lp.non_basic@[j] == j) && (forall|i: int|
                        0 <= i < b@.len() ==> lp.basic@[i] == c@.len() + i) && lp.wf_dims()
                        && lp.wf_basis()
                }
            }),
    {
        if a.len() == 0 {
            return Err("Matrix 'A' should not be empty".to_string());
        }
        if b.len() == 0 {
            return Err("Vector 'b' should not be empty".to_string());
        }
        if c.len() == 0 {
            return Err("Vector 'c' should not be empty".to_string());
        }
        if c.len() != a[0].len() {
            return Err(
                mismatch_message(
                    "Matrix 'A' rows count does not match with vector 'c' size",
                    a[0].len(),
                    c.len(),
                ),
            );
        }
        let mut i: usize = 0;
        while i < a.len()
            invariant
                0 <= i <= a@.len(),
                a@.len() > 0,
                b@.len() > 0,
                c@.len() > 0,
                c@.len() == a@[0]@.len(),
                forall|k: int| 0 <= k < i ==> (#[trigger] a@[k]@).len() == c@.len(),
            decreases a@.len() - i,
        {
            if a[i].len() != c.len() {
                assert(a@[i as int]@.len() != c@.len());
                assert(!rows_uniform(a@, c@.len() as int));
                return Err(
                    "Each and every row in the matrix 'A' should have the same size".to_string(),
                );
            }
            i += 1;
        }
        if a.len() != b.len() {
            return Err(
                mismatch_message(
                    "Matrix 'A' columns count does not match with vector 'b' size",
                    a.len(),
                    b.len(),
                ),
            );
        }
        let n = c.len();
        let mut non_basic: Vec<usize> = Vec::new();
        let mut j: usize = 0;
        while j < n
            invariant
                0 <= j <= n,
                non_basic@.len() == j,
                forall|k: int| 0 <= k < j ==> non_basic@[k] == k,
            decreases n - j,
        {
            non_basic.push(j);
            j += 1;
        }
        let mut basic: Vec<usize> = Vec::new();
        let mut i2: usize = 0;
        while i2 < b.len()
            invariant
                0 <= i2 <= b@.len(),
                n + b@.len() <= usize::MAX,
                n == c@.len(),
                basic@.len() == i2,
                forall|k: int| 0 <= k < i2 ==> basic@[k] == n + k,
            decreases b@.len() - i2,
        {
            basic.push(n + i2);
            i2 += 1;
        }
        let lp = SlackFormLP { non_basic, basic, a, b, c, v: Rat::zero(), n };
        proof {
            let all = lp.non_basic@ + lp.basic@;
            assert(forall|k: int| 0 <= k < all.len() ==> all[k] == k);
            assert(all.no_duplicates()) by {
                assert(forall|p: int, q: int|
                    0 <= p < all.len() && 0 <= q < all.len() && p != q ==> all[p] != all[q]);
            };
        }
        Ok(lp)
    }

    /// Searches for the leaving row of column `col`: among the candidate
    /// rows (`b[i] >= 0` and `a[i][col] < 0`) the one with the least ratio
    /// `b[i] / -a[i][col]`, the earliest such row on ties. With no
    /// candidate the program is unbounded along this column.
    pub fn find_leaving(&self, col: usize) -> (r: Result<Leaving, String>)
        requires
            self.a@.len() == self.b@.len(),
            self.basic@.len() == self.b@.len(),
            self.a@.len() > 0,
            rows_uniform(self.a@, self.a@[0]@.len() as int),
            rats_wf(self.b@),
            rows_wf(self.a@),
        ensures
            col >= self.a@[0]@.len() ==> (r matches Err(e) && e@
                == "Out of bound error while finding leaving variable."@),
            col < self.a@[0]@.len() ==> {
                &&& (r is Err <==> !self.col_ratios_fit(col as int))
                &&& (r matches Err(e) ==> e@ == "Exact rational arithmetic overflow."@)
                &&& (r == Ok::<Leaving, String>(Leaving::Unbounded) <==> self.col_ratios_fit(
                    col as int,
                ) && !self.has_cand(col as int))
                &&& (r matches Ok(l) ==> (l is Unbounded <==> !self.has_cand(col as int)))
                &&& (r matches Ok(l) ==> (l matches Leaving::Info(d, row, bv) ==> {
                    &&& self.is_min_ratio_row(col as int, row as int)
                    &&& d@ == fnorm(self.delta(col as int, row as int))
                    &&& d.wf()
                    &&& row < self.m()
                    &&& bv == self.basic@[row as int]
                }))
            },
    {
        if col >= self.a[0].len() {
            return Err("Out of bound error while finding leaving variable.".to_string());
        }
        let ghost coli = col as int;
        let mut best: Option<(Rat, usize)> = None;
        let mut row: usize = 0;
        while row < self.b.len()
            invariant
                self.a@.len() == self.b@.len(),
                self.basic@.len() == self.b@.len(),
                self.a@.len() > 0,
                rows_uniform(self.a@, self.a@[0]@.len() as int),
                rats_wf(self.b@),
                rows_wf(self.a@),
                coli == col as int,
                col < self.a@[0]@.len(),
                0 <= row <= self.m(),
                forall|i: int|
                    0 <= i < row && #[trigger] self.cand(coli, i) ==> rat_fits(fnorm(self.delta(
                        coli,
                        i,
                    ))),
                match best {
                    None => forall|i: int| 0 <= i < row ==> !self.cand(coli, i),
                    Some(p) => {
                        &&& p.1 < row
                        &&& self.cand(coli, p.1 as int)
                        &&& p.0@ == fnorm(self.delta(coli, p.1 as int))
                        &&& p.0.wf()
                        &&& forall|i: int|
                            0 <= i < row && #[trigger] self.cand(coli, i) ==> fle(
                                self.delta(coli, p.1 as int),
                                self.delta(coli, i),
                            )
                        &&& forall|i: int|
                            0 <= i < p.1 && #[trigger] self.cand(coli, i) ==> flt(
                                self.delta(coli, p.1 as int),
                                self.delta(coli, i),
                            )
                    },
                },
            decreases self.m() - row,
        {
            if self.b[row].is_nonneg() && self.a[row][col].is_neg() {
                assert(self.cand(coli, row as int));
                proof {
                    lemma_delta_pos_den(*self, coli, row as int);
                }
                let neg_a = self.a[row][col].neg();
                let delta = match self.b[row].div(&neg_a) {
                    Ok(v) => v,
                    Err(e) => {
                        assert(!rat_fits(fnorm(self.delta(coli, row as int))));
                        return Err(e);
                    },
                };
                proof {
                    crate::frac::lemma_fnorm(self.delta(coli, row as int));
                }
                match best {
                    None => {
                        best = Some((delta, row));
                    },
                    Some(p) => {
                        let ghost braw = self.delta(coli, p.1 as int);
                        let ghost nraw = self.delta(coli, row as int);
                        proof {
                            lemma_delta_pos_den(*self, coli, p.1 as int);
                            crate::frac::lemma_fnorm(braw);
                            crate::frac::lemma_fnorm(nraw);
                            crate::frac::lemma_order_congr(fnorm(nraw), nraw, fnorm(braw), braw);
                        }
                        if delta.lt(&p.0) {
                            proof {
                                assert(flt(nraw, braw));
                                assert forall|i: int|
                                    0 <= i < row && #[trigger] self.cand(coli, i) implies flt(
                                    nraw,
                                    self.delta(coli, i),
                                ) by {
                                    lemma_delta_pos_den(*self, coli, i);
                                    crate::frac::lemma_flt_fle_trans(
                                        nraw,
                                        braw,
                                        self.delta(coli, i),
                                    );
                                };
                            }
                            best = Some((delta, row));
                        } else {
                            proof {
                                assert(fle(braw, nraw));
                            }
                        }
                    },
                }
            }
            row += 1;
        }
        match best {
            None => {
                assert(!self.has_cand(coli));
                Ok(Leaving::Unbounded)
            },
            Some(p) => {
                assert(self.has_cand(coli));
                Ok(Leaving::Info(p.0, p.1, self.basic[p.1]))
            },
        }
    }

    /// One round of Bland's-rule selection: every column with a positive
    /// reduced cost is an improving direction; if any of them has no
    /// bounding row the program is unbounded; with none the dictionary is
    /// optimal; otherwise the improving column with the smallest non-basic
    /// variable index enters, paired with its least-ratio row.
    pub fn find_entering_and_leaving(&self) -> (r: Result<SimplexRound, String>)
        requires
            self.a@.len() == self.b@.len(),
            self.basic@.len() == self.b@.len(),
            self.a@.len() > 0,
            rows_uniform(self.a@, self.a@[0]@.len() as int),
            self.c@.len() <= self.a@[0]@.len(),
            self.c@.len() <= self.non_basic@.len(),
            rats_wf(self.b@),
            rows_wf(self.a@),
            rats_wf(self.c@),
        ensures
            r == Ok::<SimplexRound, String>(SimplexRound::Finished) <==> (forall|t: int|
                0 <= t < self.c@.len() ==> !self.pos_col(t)),
            r matches Err(e) ==> e@ == "Exact rational arithmetic overflow."@ && (exists|t: int|
                0 <= t < self.c@.len() && #[trigger] self.pos_col(t) && !self.col_ratios_fit(t)),
            (forall|t: int|
                0 <= t < self.c@.len() && #[trigger] self.pos_col(t) ==> self.col_ratios_fit(t))
                ==> r is Ok,
            r == Ok::<SimplexRound, String>(SimplexRound::Unbounded) ==> (exists|t: int|
                0 <= t < self.c@.len() && #[trigger] self.pos_col(t) && !self.has_cand(t)),
            (forall|t: int|
                0 <= t < self.c@.len() && #[trigger] self.pos_col(t) ==> self.col_ratios_fit(t))
                ==> (r == Ok::<SimplexRound, String>(SimplexRound::Unbounded) <==> (exists|t: int|
                0 <= t < self.c@.len() && #[trigger] self.pos_col(t) && !self.has_cand(t))),
            r matches Ok(sr) ==> (sr matches SimplexRound::Switch(col, row) ==> {
                &&& col < self.c@.len()
                &&& self.pos_col(col as int)
                &&& self.is_min_ratio_row(col as int, row as int)
                &&& forall|t: int|
                    0 <= t < self.c@.len() && #[trigger] self.pos_col(t) ==> self.has_cand(t)
                &&& forall|t: int|
                    0 <= t < self.c@.len() && #[trigger] self.pos_col(t) ==> self.non_basic@[
                        col as int] <= self.non_basic@[t]
                &&& forall|t: int|
                    0 <= t < col && #[trigger] self.pos_col(t) ==> self.non_basic@[col as int]
                        < self.non_basic@[t]
            }),
            ((exists|t: int| 0 <= t < self.c@.len() && #[trigger] self.pos_col(t)) && (forall|
                t: int,
            |
                0 <= t < self.c@.len() && #[trigger] self.pos_col(t) ==> self.has_cand(t)
                    && self.col_ratios_fit(t))) ==> (r matches Ok(sr) && sr is Switch),
            r == Ok::<SimplexRound, String>(SimplexRound::Finished) <==> self.sel_finished(),
            r == Ok::<SimplexRound, String>(SimplexRound::Unbounded) <==> self.stops_unbounded(),
            r is Err <==> self.stops_overflow(),
            r matches Ok(sr) ==> (sr matches SimplexRound::Switch(col, row) ==> self.is_selection(
                col as int,
                row as int,
            ) && self.no_stops() && !self.sel_finished()),
            (!self.sel_finished() && self.no_stops()) ==> (r matches Ok(sr) && sr is Switch),
    {
        let mut best: Option<(usize, usize)> = None;
        let mut col: usize = 0;
        while col < self.c.len()
            invariant
                self.a@.len() == self.b@.len(),
                self.basic@.len() == self.b@.len(),
                self.a@.len() > 0,
                rows_uniform(self.a@, self.a@[0]@.len() as int),
                self.c@.len() <= self.a@[0]@.len(),
                self.c@.len() <= self.non_basic@.len(),
                rats_wf(self.b@),
                rows_wf(self.a@),
                rats_wf(self.c@),
                0 <= col <= self.c@.len(),
                forall|t: int|
                    0 <= t < col && #[trigger] self.pos_col(t) ==> self.has_cand(t)
                        && self.col_ratios_fit(t),
                match best {
                    None => forall|t: int| 0 <= t < col ==> !self.pos_col(t),
                    Some(p) => {
                        &&& p.0 < col
                        &&& p.1 < self.m()
                        &&& self.pos_col(p.0 as int)
                        &&& self.is_min_ratio_row(p.0 as int, p.1 as int)
                        &&& forall|t: int|
                            0 <= t < col && #[trigger] self.pos_col(t) ==> self.non_basic@[
                                p.0 as int] <= self.non_basic@[t]
                        &&& forall|t: int|
                            0 <= t < p.0 && #[trigger] self.pos_col(t) ==> self.non_basic@[
                                p.0 as int] < self.non_basic@[t]
                    },
                },
            decreases self.c@.len() - col,
        {
            if self.c[col].is_pos() {
                assert(self.pos_col(col as int));
                let found = match self.find_leaving(col) {
                    Ok(l) => l,
                    Err(e) => {
                        proof {
                            assert(!self.col_ratios_fit(col as int));
                            assert(self.has_cand(col as int)) by {
                                let i = choose|i: int|
                                    0 <= i < self.m() && self.cand(col as int, i) && !rat_fits(
                                        fnorm(self.delta(col as int, i)),
                                    );
                                assert(self.cand(col as int, i));
                            };
                            assert(self.col_ovf(col as int));
                            assert(self.first_stop_at(col as int)) by {
                                assert forall|u: int| 0 <= u < col implies !self.col_unb(u)
                                    && !self.col_ovf(u) by {
                                    if self.pos_col(u) {
                                    }
                                };
                            };
                            assert(self.stops_overflow());
                            assert(!self.stops_unbounded()) by {
                                assert forall|t: int| #[trigger] self.first_stop_at(t) implies
                                    !self.col_unb(t) by {
                                    if t < col {
                                        assert(!self.col_ovf(t));
                                    } else if col < t {
                                        assert(!self.col_ovf(col as int));
                                    }
                                };
                            };
                            assert(!self.sel_finished()) by {
                                assert(self.pos_col(col as int));
                            };
                        }
                        return Err(e);
                    },
                };
                match found {
                    Leaving::Unbounded => {
                        proof {
                            assert(!self.has_cand(col as int));
                            assert(self.col_unb(col as int));
                            assert(self.first_stop_at(col as int)) by {
                                assert forall|u: int| 0 <= u < col implies !self.col_unb(u)
                                    && !self.col_ovf(u) by {
                                    if self.pos_col(u) {
                                    }
                                };
                            };
                            assert(self.stops_unbounded());
                            assert(!self.stops_overflow()) by {
                                assert forall|t: int| #[trigger] self.first_stop_at(t) implies
                                    !self.col_ovf(t) by {
                                    if t < col {
                                    } else if col < t {
                                        assert(!self.col_unb(col as int));
                                    }
                                };
                            };
                            assert(!self.sel_finished()) by {
                                assert(self.pos_col(col as int));
                            };
                        }
                        return Ok(SimplexRound::Unbounded);
                    },
                    Leaving::Info(_, lrow, _) => {
                        match best {
                            None => {
                                best = Some((col, lrow));
                            },
                            Some(p) => {
                                if self.non_basic[col] < self.non_basic[p.0] {
                                    best = Some((col, lrow));
                                }
                            },
                        }
                    },
                }
            }
            col += 1;
        }
        proof {
            assert forall|t: int|
                #![trigger self.col_unb(t)]
                #![trigger self.col_ovf(t)]
                !self.col_unb(t) && !self.col_ovf(t) by {
                if 0 <= t < self.c@.len() && self.pos_col(t) {
                }
            };
            assert(self.no_stops());
            assert forall|t: int| true implies !(#[trigger] self.first_stop_at(t)) by {
                assert(!self.col_unb(t) && !self.col_ovf(t));
            };
            assert(!self.stops_unbounded() && !self.stops_overflow());
        }
        match best {
            None => Ok(SimplexRound::Finished),
            Some(p) => {
                proof {
                    assert(!self.sel_finished()) by {
                        assert(self.pos_col(p.0 as int));
                    };
                    assert(self.is_selection(p.0 as int, p.1 as int));
                }
                Ok(SimplexRound::Switch(p.0, p.1))
            },
        }
    }

    /// Pivots the dictionary at column `col` and row `row`: the non-basic
    /// variable of the column enters the basis and the basic variable of
    /// the row leaves. The caller guarantees a nonzero pivot entry; no
    /// feasibility check is made. On arithmetic overflow the dictionary is
    /// left unchanged.
    pub fn pivot(&mut self, col: usize, row: usize) -> (r: Result<(), String>)
        requires
            old(self).wf(),
            col < old(self).n,
            row < old(self).m(),
            old(self).a@[row as int]@[col as int]@.n != 0,
        ensures
            r is Ok <==> pivot_fits(*old(self), col as int, row as int),
            r is Ok ==> pivot_rel(*old(self), *final(self), col as int, row as int)
                && final(self).wf(),
            r matches Err(e) ==> *final(self) == *old(self) && e@
                == "Exact rational arithmetic overflow."@,
    {
        let ghost pre = *old(self);
        let ghost df = fneg(pre.a@[row as int]@[col as int]@);
        let d = self.a[row][col].neg();
        let n = self.n;
        let m = self.b.len();

        // The new pivot row, divided through by the negated pivot entry.
        let mut r_row: Vec<Rat> = Vec::new();
        let mut j: usize = 0;
        while j < n
            invariant
                *self == pre,
                pre.wf(),
                col < n,
                row < m,
                n == pre.n,
                m == pre.m(),
                pre.a@[row as int]@[col as int]@.n != 0,
                df == fneg(pre.a@[row as int]@[col as int]@),
                d@ == df,
                d.wf(),
                df.n != 0,
                0 <= j <= n,
                r_row@.len() == j,
                forall|t: int|
                    0 <= t < j && t != col ==> (#[trigger] r_row@[t])@ == fnorm(
                        fdiv(pre.a@[row as int]@[t]@, df),
                    ) && r_row@[t].wf(),
                col < j ==> r_row@[col as int]@ == fnorm(fdiv(fint(-1), df))
                    && r_row@[col as int].wf(),
            decreases n - j,
        {
            if j != col {
                let entry = match self.a[row][j].div(&d) {
                    Ok(v) => v,
                    Err(e) => {
                        assert(!rat_fits(piv_row_entry(pre, col as int, row as int, j as int)));
                        return Err(e);
                    },
                };
                r_row.push(entry);
            } else {
                let entry = match Rat::from_int(-1).div(&d) {
                    Ok(v) => v,
                    Err(e) => {
                        assert(!rat_fits(piv_row_entry(pre, col as int, row as int, j as int)));
                        return Err(e);
                    },
                };
                r_row.push(entry);
            }
            j += 1;
        }

        // The new right-hand side of the pivot row.
        let new_b_row = self.b[row].div(&d)?;

        // Eliminate the entering column from every other row.
        let mut new_a: Vec<Vec<Rat>> = Vec::new();
        let mut new_b: Vec<Rat> = Vec::new();
        let mut i: usize = 0;
        while i < m
            invariant
                *self == pre,
                pre.wf(),
                col < n,
                row < m,
                n == pre.n,
                m == pre.m(),
                df == fneg(pre.a@[row as int]@[col as int]@),
                d@ == df,
                d.wf(),
                df.n != 0,
                r_row@.len() == n,
                forall|t: int|
                    0 <= t < n && t != col ==> (#[trigger] r_row@[t])@ == fnorm(
                        fdiv(pre.a@[row as int]@[t]@, df),
                    ) && r_row@[t].wf(),
                r_row@[col as int]@ == fnorm(fdiv(fint(-1), df)) && r_row@[col as int].wf(),
                new_b_row@ == fnorm(fdiv(pre.b@[row as int]@, df)),
                new_b_row.wf(),
                0 <= i <= m,
                new_a@.len() == i,
                new_b@.len() == i,
                forall|t: int|
                    0 <= t < i && t != row ==> rat_fits(
                        #[trigger] piv_b_term(pre, col as int, row as int, t),
                    ),
                forall|t: int, u: int|
                    0 <= t < i && t != row && 0 <= u < n ==> rat_fits(
                        #[trigger] piv_elim_term(pre, col as int, row as int, t, u),
                    ),
                row < i ==> new_a@[row as int]@ == r_row@ && new_b@[row as int] == new_b_row,
                forall|t: int|
                    0 <= t < i && t != row ==> (#[trigger] new_b@[t])@ == fnorm(
                        fadd(pre.b@[t]@, fnorm(fmul(new_b_row@, pre.a@[t]@[col as int]@))),
                    ) && new_b@[t].wf(),
                forall|t: int|
                    0 <= t < i ==> (#[trigger] new_a@[t]@).len() == n,
                forall|t: int, u: int|
                    0 <= t < i && t != row && 0 <= u < n && u != col ==> (
                    #[trigger] new_a@[t]@[u])@ == fnorm(
                        fadd(pre.a@[t]@[u]@, fnorm(fmul(r_row@[u]@, pre.a@[t]@[col as int]@))),
                    ) && new_a@[t]@[u].wf(),
                forall|t: int|
                    0 <= t < i && t != row ==> (#[trigger] new_a@[t]@)[col as int]@ == fnorm(
                        fmul(r_row@[col as int]@, pre.a@[t]@[col as int]@),
                    ) && new_a@[t]@[col as int].wf(),
            decreases m - i,
        {
            if i == row {
                new_a.push(copy_rats(&r_row));
                new_b.push(new_b_row);
            } else {
                let a_ic = self.a[i][col];
                let bw = match new_b_row.mul(&a_ic) {
                    Ok(v) => v,
                    Err(e) => {
                        assert(!rat_fits(piv_b_term(pre, col as int, row as int, i as int)));
                        return Err(e);
                    },
                };
                let nb = match self.b[i].add(&bw) {
                    Ok(v) => v,
                    Err(e) => {
                        assert(bw@ == piv_b_term(pre, col as int, row as int, i as int));
                        assert(!rat_fits(
                            fnorm(
                                fadd(
                                    pre.b@[i as int]@,
                                    piv_b_term(pre, col as int, row as int, i as int),
                                ),
                            ),
                        ));
                        return Err(e);
                    },
                };
                new_b.push(nb);
                let mut new_row: Vec<Rat> = Vec::new();
                let mut u: usize = 0;
                while u < n
                    invariant
                        *self == pre,
                        pre.wf(),
                        col < n,
                        row < m,
                        i < m,
                        i != row,
                        n == pre.n,
                        m == pre.m(),
                        a_ic == pre.a@[i as int]@[col as int],
                        df == fneg(pre.a@[row as int]@[col as int]@),
                        r_row@.len() == n,
                        forall|t: int|
                            0 <= t < n && t != col ==> (#[trigger] r_row@[t])@ == fnorm(
                                fdiv(pre.a@[row as int]@[t]@, df),
                            ) && r_row@[t].wf(),
                        r_row@[col as int]@ == fnorm(fdiv(fint(-1), df)) && r_row@[col as int].wf(),
                        0 <= u <= n,
                        new_row@.len() == u,
                        forall|t: int|
                            0 <= t < u ==> rat_fits(
                                #[trigger] piv_elim_term(pre, col as int, row as int, i as int, t),
                            ),
                        forall|t: int|
                            0 <= t < u && t != col ==> (#[trigger] new_row@[t])@ == fnorm(
                                fadd(
                                    pre.a@[i as int]@[t]@,
                                    fnorm(fmul(r_row@[t]@, pre.a@[i as int]@[col as int]@)),
                                ),
                            ) && new_row@[t].wf(),
                        col < u ==> new_row@[col as int]@ == fnorm(
                            fmul(r_row@[col as int]@, pre.a@[i as int]@[col as int]@),
                        ) && new_row@[col as int].wf(),
                    decreases n - u,
                {
                    if u != col {
                        let ew = match r_row[u].mul(&a_ic) {
                            Ok(v) => v,
                            Err(e) => {
                                assert(!rat_fits(
                                    piv_elim_term(pre, col as int, row as int, i as int, u as int),
                                ));
                                return Err(e);
                            },
                        };
                        let entry = match self.a[i][u].add(&ew) {
                            Ok(v) => v,
                            Err(e) => {
                                assert(ew@ == piv_elim_term(
                                    pre,
                                    col as int,
                                    row as int,
                                    i as int,
                                    u as int,
                                ));
                                assert(!rat_fits(
                                    fnorm(
                                        fadd(
                                            pre.a@[i as int]@[u as int]@,
                                            piv_elim_term(
                                                pre,
                                                col as int,
                                                row as int,
                                                i as int,
                                                u as int,
                                            ),
                                        ),
                                    ),
                                ));
                                return Err(e);
                            },
                        };
                        new_row.push(entry);
                    } else {
                        let entry = match r_row[col].mul(&a_ic) {
                            Ok(v) => v,
                            Err(e) => {
                                assert(!rat_fits(
                                    piv_elim_term(
                                        pre,
                                        col as int,
                                        row as int,
                                        i as int,
                                        col as int,
                                    ),
                                ));
                                return Err(e);
                            },
                        };
                        new_row.push(entry);
                    }
                    u += 1;
                }
                new_a.push(new_row);
            }
            i += 1;
        }

        // Update the objective row.
        let c_c = self.c[col];
        let new_v = self.v.add(&new_b_row.mul(&c_c)?)?;
        let mut new_c: Vec<Rat> = Vec::new();
        let mut j2: usize = 0;
        while j2 < n
            invariant
                *self == pre,
                pre.wf(),
                col < n,
                row < m,
                n == pre.n,
                m == pre.m(),
                c_c == pre.c@[col as int],
                df == fneg(pre.a@[row as int]@[col as int]@),
                r_row@.len() == n,
                forall|t: int|
                    0 <= t < n && t != col ==> (#[trigger] r_row@[t])@ == fnorm(
                        fdiv(pre.a@[row as int]@[t]@, df),
                    ) && r_row@[t].wf(),
                r_row@[col as int]@ == fnorm(fdiv(fint(-1), df)) && r_row@[col as int].wf(),
                0 <= j2 <= n,
                new_c@.len() == j2,
                forall|t: int|
                    0 <= t < j2 ==> rat_fits(
                        #[trigger] piv_obj_term(pre, col as int, row as int, t),
                    ),
                forall|t: int|
                    0 <= t < j2 && t != col ==> (#[trigger] new_c@[t])@ == fnorm(
                        fadd(pre.c@[t]@, fnorm(fmul(r_row@[t]@, pre.c@[col as int]@))),
                    ) && new_c@[t].wf(),
                col < j2 ==> new_c@[col as int]@ == fnorm(
                    fmul(r_row@[col as int]@, pre.c@[col as int]@),
                ) && new_c@[col as int].wf(),
            decreases n - j2,
        {
            if j2 != col {
                let ow = match r_row[j2].mul(&c_c) {
                    Ok(v) => v,
                    Err(e) => {
                        assert(!rat_fits(piv_obj_term(pre, col as int, row as int, j2 as int)));
                        return Err(e);
                    },
                };
                let entry = match self.c[j2].add(&ow) {
                    Ok(v) => v,
                    Err(e) => {
                        assert(ow@ == piv_obj_term(pre, col as int, row as int, j2 as int));
                        assert(!rat_fits(
                            fnorm(
                                fadd(
                                    pre.c@[j2 as int]@,
                                    piv_obj_term(pre, col as int, row as int, j2 as int),
                                ),
                            ),
                        ));
                        return Err(e);
                    },
                };
                new_c.push(entry);
            } else {
                let entry = match r_row[col].mul(&c_c) {
                    Ok(v) => v,
                    Err(e) => {
                        assert(!rat_fits(piv_obj_term(pre, col as int, row as int, col as int)));
                        return Err(e);
                    },
                };
                new_c.push(entry);
            }
            j2 += 1;
        }

        proof {
            // Every produced value sits in a well-formed `Rat`, so the whole
            // pivot fits the representation.
            let ci = col as int;
            let ri = row as int;
            assert forall|j: int| 0 <= j < pre.n implies rat_fits(
                #[trigger] piv_row_entry(pre, ci, ri, j),
            ) by {
                assert(r_row@[j]@ == piv_row_entry(pre, ci, ri, j) && r_row@[j].wf());
            };
            assert(new_b_row@ == piv_b_row(pre, ci, ri) && new_b_row.wf());
            assert(rat_fits(piv_b_row(pre, ci, ri)));
            assert forall|t: int| 0 <= t < pre.m() && t != row implies rat_fits(
                fnorm(fadd(pre.b@[t]@, #[trigger] piv_b_term(pre, ci, ri, t))),
            ) by {
                assert(new_b@[t]@ == fnorm(fadd(pre.b@[t]@, piv_b_term(pre, ci, ri, t)))
                    && new_b@[t].wf());
            };
            assert forall|t: int, u: int|
                0 <= t < pre.m() && t != row && 0 <= u < pre.n && u != col implies rat_fits(
                fnorm(fadd(pre.a@[t]@[u]@, #[trigger] piv_elim_term(pre, ci, ri, t, u))),
            ) by {
                assert(new_a@[t]@[u]@ == fnorm(
                    fadd(pre.a@[t]@[u]@, piv_elim_term(pre, ci, ri, t, u)),
                ) && new_a@[t]@[u].wf());
            };
            assert(rat_fits(fnorm(fadd(pre.v@, fnorm(fmul(piv_b_row(pre, ci, ri), pre.c@[ci]@))))))
                by {
                assert(new_v@ == fnorm(
                    fadd(pre.v@, fnorm(fmul(piv_b_row(pre, ci, ri), pre.c@[ci]@))),
                ) && new_v.wf());
            };
            assert forall|t: int| 0 <= t < pre.n && t != col implies rat_fits(
                fnorm(fadd(pre.c@[t]@, #[trigger] piv_obj_term(pre, ci, ri, t))),
            ) by {
                assert(new_c@[t]@ == fnorm(fadd(pre.c@[t]@, piv_obj_term(pre, ci, ri, t)))
                    && new_c@[t].wf());
            };
            assert(pivot_fits(pre, ci, ri));
        }

        // Commit: swap the entering and leaving indices and install the new
        // rows and objective.
        let entering = self.non_basic[col];
        let leaving = self.basic[row];
        self.non_basic[col] = leaving;
        self.basic[row] = entering;
        self.a = new_a;
        self.b = new_b;
        self.c = new_c;
        self.v = new_v;
        proof {
            lemma_swap_basis(pre, *self, col as int, row as int);
            assert(pivot_rel(pre, *self, col as int, row as int));
        }
        Ok(())
    }

    /// Runs the simplex main loop: selection, pivot, repeat, until the
    /// dictionary is optimal or an improving column proves the program
    /// unbounded. Feasibility of the starting dictionary is preserved into
    /// the final one. A round counter bounds the loop so that it provably
    /// terminates; the bound is far beyond any practical run.
    pub fn find_optimal(&mut self) -> (r: Result<SimplexResult, String>)
        requires
            old(self).wf(),
        ensures
            final(self).wf(),
            final(self).n == old(self).n,
            final(self).b@.len() == old(self).b@.len(),
            old(self).feasible() ==> final(self).feasible(),
            r matches Ok(res) ==> !(res is Unfeasible),
            r matches Ok(res) ==> (res matches SimplexResult::Optimal(x) ==> {
                &&& forall|t: int| 0 <= t < final(self).c@.len() ==> !final(self).pos_col(t)
                &&& x@.len() == final(self).n
                &&& rats_wf(x@)
                &&& forall|j: int|
                    0 <= j < final(self).m() && final(self).basic@[j] < final(self).n
                        ==> x@[final(self).basic@[j] as int] == final(self).b@[j]
                &&& forall|k: int|
                    0 <= k < final(self).n && (forall|j: int|
                        0 <= j < final(self).m() ==> final(self).basic@[j] != k) ==> (
                    #[trigger] x@[k])@ == fint(0)
            }),
            r matches Ok(res) ==> (res is Unbounded ==> exists|t: int|
                0 <= t < final(self).c@.len() && #[trigger] final(self).pos_col(t)
                    && !(final(self).has_cand(t))),
            r matches Err(e) ==> e@ == "Exact rational arithmetic overflow."@ || e@
                == "Simplex round limit exceeded."@,
            r is Ok <==> (exists|f: SlackFormLP, o: bool, fl: nat|
                fl < u64::MAX && #[trigger] runs_to(*old(self), f, o, fl)),
            r matches Ok(res) ==> (exists|o: bool, fl: nat|
                fl < u64::MAX && #[trigger] runs_to(*old(self), *final(self), o, fl) && (o
                    <==> res is Optimal)),
    {
        let ghost pre0 = *old(self);
        let mut rounds: u64 = 0;
        loop
            invariant
                pre0 == *old(self),
                self.wf(),
                self.n == pre0.n,
                self.b@.len() == pre0.b@.len(),
                pre0.feasible() ==> self.feasible(),
                forall|f: SlackFormLP, o: bool, fl: nat|
                    #[trigger] runs_to(*self, f, o, fl) ==> runs_to(
                        pre0,
                        f,
                        o,
                        (fl + rounds) as nat,
                    ),
                forall|f: SlackFormLP, o: bool, fl: nat|
                    #[trigger] runs_to(pre0, f, o, fl) ==> fl >= rounds && runs_to(
                        *self,
                        f,
                        o,
                        (fl - rounds) as nat,
                    ),
            decreases u64::MAX - rounds,
        {
            let ghost rtop = rounds;
            if rounds == u64::MAX {
                proof {
                    assert forall|f: SlackFormLP, o: bool, fl: nat| fl < u64::MAX implies !(
                    #[trigger] runs_to(pre0, f, o, fl)) by {
                        if runs_to(pre0, f, o, fl) {
                            assert(fl >= rounds);
                        }
                    };
                }
                return Err("Simplex round limit exceeded.".to_string());
            }
            rounds = rounds + 1;
            proof {
                assert(self.a@[0]@.len() == self.n);
            }
            let round = match self.find_entering_and_leaving() {
                Ok(sr) => sr,
                Err(e) => {
                    proof {
                        assert(self.stops_overflow());
                        assert forall|f: SlackFormLP, o: bool, fl: nat| true implies !(
                        #[trigger] runs_to(pre0, f, o, fl)) by {
                            if runs_to(pre0, f, o, fl) {
                                lemma_overflow_stuck(*self, f, o, (fl - rtop) as nat);
                            }
                        };
                    }
                    return Err(e);
                },
            };
            match round {
                SimplexRound::Unbounded => {
                    proof {
                        assert(same_view(*self, *self)) by {
                            assert forall|i: int| 0 <= i < self.a@.len() implies (
                            #[trigger] self.a@[i]@) == self.a@[i]@ by {};
                        };
                        assert(runs_to(*self, *self, false, 0));
                        assert(runs_to(pre0, *self, false, (0 + rtop) as nat));
                        assert((rtop as nat) < u64::MAX && runs_to(pre0, *self, false, rtop as nat));
                    }
                    return Ok(SimplexResult::Unbounded);
                },
                SimplexRound::Finished => {
                    proof {
                        assert(same_view(*self, *self)) by {
                            assert forall|i: int| 0 <= i < self.a@.len() implies (
                            #[trigger] self.a@[i]@) == self.a@[i]@ by {};
                        };
                        assert(runs_to(*self, *self, true, 0));
                        assert(runs_to(pre0, *self, true, (0 + rtop) as nat));
                        assert((rtop as nat) < u64::MAX && runs_to(pre0, *self, true, rtop as nat));
                    }
                    return Ok(self.compute_solution_vector());
                },
                SimplexRound::Switch(col, row) => {
                    let ghost prev = *self;
                    proof {
                        assert(prev.cand(col as int, row as int));
                        assert(prev.a@[row as int]@[col as int]@.n < 0);
                    }
                    match self.pivot(col, row) {
                        Ok(_) => {},
                        Err(e) => {
                            proof {
                                assert forall|f: SlackFormLP, o: bool, fl: nat| true implies !(
                                #[trigger] runs_to(pre0, f, o, fl)) by {
                                    if runs_to(pre0, f, o, fl) {
                                        lemma_unfit_stuck(
                                            *self,
                                            col as int,
                                            row as int,
                                            f,
                                            o,
                                            (fl - rtop) as nat,
                                        );
                                    }
                                };
                            }
                            return Err(e);
                        },
                    }
                    proof {
                        if pre0.feasible() {
                            lemma_pivot_preserves_feasible(prev, *self, col as int, row as int);
                        }
                        assert forall|f: SlackFormLP, o: bool, fl: nat|
                            #[trigger] runs_to(*self, f, o, fl) implies runs_to(
                            pre0,
                            f,
                            o,
                            (fl + rounds) as nat,
                        ) by {
                            lemma_runs_to_step(prev, *self, col as int, row as int, f, o, fl);
                            assert(runs_to(pre0, f, o, ((fl + 1) + rtop) as nat));
                        };
                        assert forall|f: SlackFormLP, o: bool, fl: nat|
                            #[trigger] runs_to(pre0, f, o, fl) implies fl >= rounds && runs_to(
                            *self,
                            f,
                            o,
                            (fl - rounds) as nat,
                        ) by {
                            assert(fl >= rtop && runs_to(prev, f, o, (fl - rtop) as nat));
                            lemma_runs_to_unstep(
                                prev,
                                *self,
                                col as int,
                                row as int,
                                f,
                                o,
                                (fl - rtop) as nat,
                            );
                        };
                    }
                },
            }
        }
    }

    /// The two-phase initialization. When every right-hand side is already
    /// nonnegative the dictionary is basic feasible and nothing happens.
    /// Otherwise an auxiliary variable is introduced, one pivot at the most
    /// negative row makes the auxiliary program feasible, the main loop
    /// minimizes the auxiliary variable, and the outcome decides: a nonzero
    /// optimum means the program is infeasible; a zero optimum lets the
    /// auxiliary variable be pivoted out (if needed) and removed, and the
    /// original objective is rebuilt over the new dictionary.
    ///
    /// Expects the fresh dictionary layout (decision variables non-basic in
    /// order, slack variables basic in order) that `new` produces. After
    /// `Done` the dictionary is well formed and feasible with its original
    /// dimension; after `Unfeasible` it still carries the auxiliary
    /// variable, as the caller then abandons it.
    #[verifier::rlimit(100)]
    pub fn initialize_simplex(&mut self) -> (r: Result<InitializationResult, String>)
        requires
            old(self).wf(),
            old(self).total() < usize::MAX,
            forall|j: int| 0 <= j < old(self).n ==> old(self).non_basic@[j] == j,
            forall|i: int| 0 <= i < old(self).m() ==> old(self).basic@[i] == old(self).n + i,
        ensures
            final(self).wf(),
            final(self).b@.len() == old(self).b@.len(),
            final(self).n == old(self).n || final(self).n == old(self).n + 1,
            old(self).feasible() ==> r == Ok::<InitializationResult, String>(
                InitializationResult::Done,
            ) && *final(self) == *old(self),
            r == Ok::<InitializationResult, String>(InitializationResult::Done)
                ==> final(self).feasible() && final(self).n == old(self).n,
            r == Ok::<InitializationResult, String>(InitializationResult::Unfeasible)
                ==> final(self).n == old(self).n + 1,
            r matches Err(e) ==> e@ == "Exact rational arithmetic overflow."@ || e@
                == "Simplex round limit exceeded."@ || e@
                == "All values at degenerated row equal zero, this should not happen."@ || e@
                == "Sup x variable has not been found in non basic variable, this should not happen"@,
            !old(self).feasible() ==> (r == Ok::<InitializationResult, String>(
                InitializationResult::Done,
            ) ==> (exists|f: SlackFormLP, fl: nat|
                fl < u64::MAX && #[trigger] aux_run(*old(self), f, true, fl) && aux_value_zero(
                    f,
                ))),
            !old(self).feasible() ==> (r == Ok::<InitializationResult, String>(
                InitializationResult::Unfeasible,
            ) ==> (exists|f: SlackFormLP, o: bool, fl: nat|
                fl < u64::MAX && #[trigger] aux_run(*old(self), f, o, fl) && (!o
                    || !aux_value_zero(f)))),
            (!old(self).feasible() && (exists|f: SlackFormLP, o: bool, fl: nat|
                fl < u64::MAX && #[trigger] aux_run(*old(self), f, o, fl) && (!o
                    || !aux_value_zero(f)))) ==> r == Ok::<InitializationResult, String>(
                InitializationResult::Unfeasible,
            ),
    {
        let ghost pre0 = *old(self);
        // Find the most negative right-hand side.
        let mut smallest_b: Rat = self.b[0];
        let mut smallest_row: usize = 0;
        let mut j: usize = 1;
        while j < self.b.len()
            invariant
                *self == pre0,
                pre0.wf(),
                1 <= j <= self.m(),
                smallest_row < j,
                smallest_b == self.b@[smallest_row as int],
                forall|t: int|
                    0 <= t < j ==> fle(self.b@[smallest_row as int]@, (#[trigger] self.b@[t])@),
                forall|t: int|
                    0 <= t < smallest_row ==> flt(
                        self.b@[smallest_row as int]@,
                        (#[trigger] self.b@[t])@,
                    ),
            decreases self.m() - j,
        {
            if self.b[j].lt(&smallest_b) {
                proof {
                    assert forall|t: int| 0 <= t < j + 1 implies fle(
                        self.b@[j as int]@,
                        (#[trigger] self.b@[t])@,
                    ) by {
                        if t < j {
                            crate::frac::lemma_flt_fle_trans(
                                self.b@[j as int]@,
                                self.b@[smallest_row as int]@,
                                self.b@[t]@,
                            );
                        }
                    };
                    assert forall|t: int| 0 <= t < j implies flt(
                        self.b@[j as int]@,
                        (#[trigger] self.b@[t])@,
                    ) by {
                        if t != smallest_row {
                            crate::frac::lemma_flt_fle_trans(
                                self.b@[j as int]@,
                                self.b@[smallest_row as int]@,
                                self.b@[t]@,
                            );
                        }
                    };
                }
                smallest_b = self.b[j];
                smallest_row = j;
            }
            j += 1;
        }

        // Already feasible: nothing to do.
        if smallest_b.is_nonneg() {
            proof {
                assert forall|i: int| 0 <= i < self.b@.len() implies (#[trigger] self.b@[i])@.n
                    >= 0 by {
                    let bs = self.b@[smallest_row as int]@;
                    let bi = self.b@[i]@;
                    assert(bi.n >= 0) by (nonlinear_arith)
                        requires
                            bs.n >= 0,
                            bs.d > 0,
                            bi.d > 0,
                            bs.n * bi.d <= bi.n * bs.d,
                    ;
                };
            }
            return Ok(InitializationResult::Done);
        }
        proof {
            assert(!pre0.feasible()) by {
                assert(pre0.b@[smallest_row as int]@.n < 0);
            };
            assert(pre0.is_first_min_b_row(smallest_row as int));
        }

        // Introduce the auxiliary variable: a fresh index, a zero objective
        // with a single -1, and a column of ones.
        let saved_c = copy_rats(&self.c);
        let old_n = self.n;
        let mut zero_c: Vec<Rat> = Vec::new();
        let mut k: usize = 0;
        while k < old_n
            invariant
                0 <= k <= old_n,
                zero_c@.len() == k,
                forall|t: int|
                    0 <= t < k ==> (#[trigger] zero_c@[t])@ == fint(0) && zero_c@[t].wf(),
            decreases old_n - k,
        {
            zero_c.push(Rat::zero());
            k += 1;
        }
        zero_c.push(Rat::from_int(-1));
        self.c = zero_c;
        self.non_basic.push(old_n);
        let mut i: usize = 0;
        while i < self.basic.len()
            invariant
                pre0.wf(),
                pre0.total() < usize::MAX,
                old_n == pre0.n,
                self.a@ == pre0.a@,
                self.b@ == pre0.b@,
                self.v == pre0.v,
                self.n == pre0.n,
                self.c@.len() == pre0.n + 1,
                forall|t: int|
                    0 <= t < pre0.n ==> (#[trigger] self.c@[t])@ == fint(0) && self.c@[t].wf(),
                self.c@[pre0.n as int]@ == fint(-1) && self.c@[pre0.n as int].wf(),
                self.non_basic@ == pre0.non_basic@.push(pre0.n as usize),
                self.basic@.len() == pre0.m(),
                forall|t: int| 0 <= t < pre0.m() ==> pre0.basic@[t] == pre0.n + t,
                0 <= i <= self.basic@.len(),
                forall|t: int| 0 <= t < i ==> self.basic@[t] == pre0.n + t + 1,
                forall|t: int| i <= t < self.basic@.len() ==> self.basic@[t] == pre0.basic@[t],
            decreases self.basic@.len() - i,
        {
            let e = self.basic[i];
            proof {
                assert(self.basic@[i as int] == pre0.basic@[i as int]);
                assert(pre0.basic@[i as int] == pre0.n + i);
                assert(pre0.n + i + 1 <= pre0.total());
            }
            self.basic[i] = e + 1;
            i += 1;
        }
        self.n = old_n + 1;
        let mut ones_a: Vec<Vec<Rat>> = Vec::new();
        let mut i2: usize = 0;
        while i2 < self.a.len()
            invariant
                pre0.wf(),
                self.a@ == pre0.a@,
                old_n == pre0.n,
                0 <= i2 <= self.a@.len(),
                ones_a@.len() == i2,
                forall|t: int|
                    0 <= t < i2 ==> (#[trigger] ones_a@[t]@).len() == old_n + 1,
                forall|t: int, u: int|
                    0 <= t < i2 && 0 <= u < old_n ==> (#[trigger] ones_a@[t]@[u]) == pre0.a@[t]@[u],
                forall|t: int|
                    0 <= t < i2 ==> (#[trigger] ones_a@[t]@)[old_n as int]@ == fint(1)
                        && ones_a@[t]@[old_n as int].wf(),
            decreases self.a@.len() - i2,
        {
            let mut row2 = copy_rats(&self.a[i2]);
            row2.push(Rat::from_int(1));
            ones_a.push(row2);
            i2 += 1;
        }
        self.a = ones_a;

        let ghost aux = *self;
        proof {
            assert(aux.n == pre0.n + 1);
            assert(aux.wf_dims());
            assert forall|p: int| 0 <= p < aux.n implies aux.non_basic@[p] == p by {
                if p < pre0.n {
                    assert(aux.non_basic@[p] == pre0.non_basic@[p]);
                }
            };
            let all = aux.non_basic@ + aux.basic@;
            assert forall|p: int| 0 <= p < all.len() implies all[p] == p by {
                if p < aux.n {
                    assert(all[p] == aux.non_basic@[p]);
                } else {
                    assert(all[p] == aux.basic@[p - aux.n]);
                }
            };
            assert(all.no_duplicates()) by {
                assert(forall|p: int, q: int|
                    0 <= p < all.len() && 0 <= q < all.len() && p != q ==> all[p] != all[q]);
            };
            assert(aux.wf_basis());
            assert(aux.wf());
            assert(aux_extension(pre0, aux)) by {
                assert forall|i: int| 0 <= i < pre0.m() implies (#[trigger] aux.basic@[i])
                    == pre0.basic@[i] + 1 by {};
                assert forall|i: int| 0 <= i < pre0.m() implies (#[trigger] aux.a@[i]@).len()
                    == pre0.n + 1 && (forall|j: int|
                    0 <= j < pre0.n ==> aux.a@[i]@[j] == pre0.a@[i]@[j]) && aux.a@[i]@[pre0.n as int]@
                    == fint(1) by {};
            };
        }

        // One pivot at the auxiliary column and the most negative row makes
        // the auxiliary dictionary feasible.
        let ghost col0 = (self.n - 1) as int;
        proof {
            assert(aux.a@[smallest_row as int]@[col0]@ == fint(1));
        }
        let piv = self.pivot(self.n - 1, smallest_row);
        match piv {
            Ok(_) => {},
            Err(e) => {
                proof {
                    assert forall|f: SlackFormLP, o: bool, fl: nat| true implies !(
                    #[trigger] aux_run(pre0, f, o, fl)) by {
                        if aux_run(pre0, f, o, fl) {
                            lemma_aux_run_fits(pre0, aux, smallest_row as int, f, o, fl);
                        }
                    };
                }
                return Err(e);
            },
        }
        let ghost s1g = *self;
        proof {
            lemma_first_pivot_feasible(aux, *self, col0, smallest_row as int);
            assert(pivot_rel(aux, s1g, col0, smallest_row as int) && s1g.wf());
        }

        // Minimize the auxiliary variable.
        let opt = match self.find_optimal() {
            Ok(o) => o,
            Err(e) => {
                proof {
                    assert forall|f: SlackFormLP, o: bool, fl: nat| fl < u64::MAX implies !(
                    #[trigger] aux_run(pre0, f, o, fl)) by {
                        if aux_run(pre0, f, o, fl) {
                            lemma_aux_run_replay(
                                pre0,
                                aux,
                                s1g,
                                smallest_row as int,
                                f,
                                o,
                                fl,
                            );
                        }
                    };
                }
                return Err(e);
            },
        };
        let ghost s2pre = *self;
        let ghost run_pair = choose|o9: bool, fl9: nat|
            fl9 < u64::MAX && #[trigger] runs_to(s1g, s2pre, o9, fl9) && (o9 == (opt is Optimal));
        let solution = match opt {
            SimplexResult::Optimal(sol) => sol,
            _ => {
                proof {
                    assert(aux_run(pre0, s2pre, run_pair.0, run_pair.1));
                    assert(!run_pair.0);
                }
                return Ok(InitializationResult::Unfeasible);
            },
        };
        if !solution[self.n - 1].is_zero() {
            proof {
                assert(run_pair.0);
                assert(!aux_value_zero(s2pre)) by {
                    if aux_value_zero(s2pre) {
                        if exists|j: int|
                            0 <= j < s2pre.m() && (#[trigger] s2pre.basic@[j]) == s2pre.n - 1 {
                            let j = choose|j: int|
                                0 <= j < s2pre.m() && (#[trigger] s2pre.basic@[j]) == s2pre.n - 1;
                            assert(solution@[s2pre.basic@[j] as int] == s2pre.b@[j]);
                            assert(s2pre.b@[j]@.n == 0);
                        } else {
                            assert(forall|j: int|
                                0 <= j < s2pre.m() ==> (#[trigger] s2pre.basic@[j]) != s2pre.n
                                    - 1);
                            assert((solution@[s2pre.n - 1])@ == fint(0));
                        }
                        assert(false);
                    }
                };
                assert(aux_run(pre0, s2pre, run_pair.0, run_pair.1));
            }
            return Ok(InitializationResult::Unfeasible);
        }
        let ghost s2 = *self;
        let ghost aux_idx = (s2.n - 1) as int;
        proof {
            assert(run_pair.0);
            assert(aux_value_zero(s2pre)) by {
                assert forall|j: int|
                    0 <= j < s2pre.m() && (#[trigger] s2pre.basic@[j]) == s2pre.n
                        - 1 implies s2pre.b@[j]@.n == 0 by {
                    assert(solution@[s2pre.basic@[j] as int] == s2pre.b@[j]);
                };
            };
            assert(solution@[aux_idx]@.n == 0);
        }

        // If the auxiliary variable is still basic, one degeneracy pivot
        // moves it out along any nonzero entry of its row.
        let mut aux_row: Option<usize> = None;
        let mut t1: usize = 0;
        while t1 < self.basic.len()
            invariant
                *self == s2,
                s2.wf(),
                0 <= t1 <= s2.m(),
                match aux_row {
                    None => forall|t: int| 0 <= t < t1 ==> s2.basic@[t] != s2.n - 1,
                    Some(ri) => ri < s2.m() && s2.basic@[ri as int] == s2.n - 1,
                },
            decreases s2.m() - t1,
        {
            if aux_row.is_none() && self.basic[t1] == self.n - 1 {
                aux_row = Some(t1);
            }
            t1 += 1;
        }
        if let Some(row_index) = aux_row {
            let mut deg_col: Option<usize> = None;
            let mut t2: usize = 0;
            while t2 < self.n
                invariant
                    *self == s2,
                    s2.wf(),
                    row_index < s2.m(),
                    0 <= t2 <= s2.n,
                    match deg_col {
                        None => true,
                        Some(dc) => dc < s2.n && s2.a@[row_index as int]@[dc as int]@.n != 0,
                    },
                decreases s2.n - t2,
            {
                if deg_col.is_none() && !self.a[row_index][t2].is_zero() {
                    deg_col = Some(t2);
                }
                t2 += 1;
            }
            if let Some(dc) = deg_col {
                proof {
                    // The basic solution value of the auxiliary variable is
                    // this row's right-hand side, which the optimum showed
                    // to be zero.
                    assert(solution@[s2.basic@[row_index as int] as int] == s2.b@[row_index as int]);
                    assert(s2.b@[row_index as int]@.n == 0);
                }
                let ghost before_deg = *self;
                match self.pivot(dc, row_index) {
                    Ok(_) => {},
                    Err(e) => {
                        proof {
                            lemma_done_run_refutes(pre0, aux, s1g, smallest_row as int, s2pre, run_pair.1);
                        }
                        return Err(e);
                    },
                }
                proof {
                    lemma_pivot_zero_feasible(before_deg, *self, dc as int, row_index as int);
                    // The entering index cannot be the auxiliary one, so the
                    // auxiliary variable is now non-basic everywhere.
                    let all = before_deg.non_basic@ + before_deg.basic@;
                    assert forall|t: int| 0 <= t < self.basic@.len() implies self.basic@[t] != self.n
                        - 1 by {
                        if t == row_index {
                            assert(all[dc as int] == before_deg.non_basic@[dc as int]);
                            assert(all[before_deg.n + t] == before_deg.basic@[t]);
                        } else {
                            assert(all[before_deg.n + t] == before_deg.basic@[t]);
                            assert(all[before_deg.n + row_index] == before_deg.basic@[row_index as int]);
                        }
                    };
                }
            } else {
                proof {
                    lemma_done_run_refutes(pre0, aux, s1g, smallest_row as int, s2pre, run_pair.1);
                }
                return Err(
                    "All values at degenerated row equal zero, this should not happen.".to_string(),
                );
            }
        }
        let ghost s3 = *self;
        proof {
            assert(s3.wf() && s3.feasible() && s3.n == pre0.n + 1);
            assert(forall|t: int| 0 <= t < s3.m() ==> s3.basic@[t] != s3.n - 1);
        }

        // Find and remove the auxiliary variable from the non-basic side.
        let mut aux_col: Option<usize> = None;
        let mut t3: usize = 0;
        while t3 < self.non_basic.len()
            invariant
                *self == s3,
                s3.wf(),
                0 <= t3 <= s3.n,
                self.non_basic@.len() == s3.n,
                match aux_col {
                    None => true,
                    Some(xc) => xc < s3.n && s3.non_basic@[xc as int] == s3.n - 1,
                },
            decreases s3.n - t3,
        {
            if aux_col.is_none() && self.non_basic[t3] == self.n - 1 {
                aux_col = Some(t3);
            }
            t3 += 1;
        }
        let x_col = match aux_col {
            Some(c) => c,
            None => {
                proof {
                    lemma_done_run_refutes(pre0, aux, s1g, smallest_row as int, s2pre, run_pair.1);
                }
                return Err(
                    "Sup x variable has not been found in non basic variable, this should not happen"
                        .to_string(),
                );
            },
        };
        self.non_basic.swap_remove(x_col);
        let mut cut_a: Vec<Vec<Rat>> = Vec::new();
        let mut i3: usize = 0;
        while i3 < self.a.len()
            invariant
                self.a@ == s3.a@,
                self.b@ == s3.b@,
                self.c@ == s3.c@,
                self.v == s3.v,
                self.n == s3.n,
                self.basic@ == s3.basic@,
                self.non_basic@ == s3.non_basic@.update(
                    x_col as int,
                    s3.non_basic@.last(),
                ).drop_last(),
                s3.wf(),
                x_col < s3.n,
                0 <= i3 <= s3.m(),
                self.a@.len() == s3.m(),
                cut_a@.len() == i3,
                forall|t: int|
                    0 <= t < i3 ==> (#[trigger] cut_a@[t])@ == s3.a@[t]@.update(
                        x_col as int,
                        s3.a@[t]@.last(),
                    ).drop_last(),
            decreases s3.m() - i3,
        {
            let mut row2 = copy_rats(&self.a[i3]);
            row2.swap_remove(x_col);
            cut_a.push(row2);
            i3 += 1;
        }
        self.a = cut_a;
        self.c.swap_remove(x_col);
        self.n = self.n - 1;

        // Close the index hole left by the auxiliary variable: the
        // auxiliary index itself no longer occurs, so decrementing every
        // index above it renumbers the variables contiguously.
        let new_n = self.n;
        let ghost s4 = *self;
        proof {
            let all3 = s3.non_basic@ + s3.basic@;
            assert forall|t: int| 0 <= t < s4.non_basic@.len() implies s4.non_basic@[t]
                != new_n by {
                let src = if t == x_col {
                    s3.n - 1
                } else {
                    t
                };
                assert(s4.non_basic@[t] == s3.non_basic@[src]);
                assert(all3[src] == s3.non_basic@[src]);
                assert(all3[x_col as int] == s3.non_basic@[x_col as int]);
            };
            assert forall|t: int| 0 <= t < s4.basic@.len() implies s4.basic@[t] != new_n by {};
        }
        let mut t4: usize = 0;
        while t4 < self.non_basic.len()
            invariant
                0 <= t4 <= s4.non_basic@.len(),
                new_n >= 1,
                new_n == s4.n,
                self.n == s4.n,
                self.basic@ == s4.basic@,
                self.a@ == s4.a@,
                self.b@ == s4.b@,
                self.c@ == s4.c@,
                self.v == s4.v,
                self.non_basic@.len() == s4.non_basic@.len(),
                forall|t: int|
                    0 <= t < t4 ==> (#[trigger] self.non_basic@[t]) as int == (if s4.non_basic@[t]
                        >= new_n {
                        s4.non_basic@[t] - 1
                    } else {
                        s4.non_basic@[t] as int
                    }),
                forall|t: int|
                    t4 <= t < s4.non_basic@.len() ==> self.non_basic@[t] == s4.non_basic@[t],
                forall|t: int| 0 <= t < s4.non_basic@.len() ==> s4.non_basic@[t] != new_n,
            decreases s4.non_basic@.len() - t4,
        {
            let e = self.non_basic[t4];
            if e >= new_n {
                self.non_basic[t4] = e - 1;
            }
            t4 += 1;
        }
        let mut t5: usize = 0;
        while t5 < self.basic.len()
            invariant
                0 <= t5 <= s4.basic@.len(),
                new_n >= 1,
                new_n == s4.n,
                self.n == s4.n,
                self.a@ == s4.a@,
                self.b@ == s4.b@,
                self.c@ == s4.c@,
                self.v == s4.v,
                self.basic@.len() == s4.basic@.len(),
                self.non_basic@.len() == s4.non_basic@.len(),
                forall|t: int|
                    0 <= t < s4.non_basic@.len() ==> (#[trigger] self.non_basic@[t]) as int == (if
                    s4.non_basic@[t] >= new_n {
                        s4.non_basic@[t] - 1
                    } else {
                        s4.non_basic@[t] as int
                    }),
                forall|t: int|
                    0 <= t < t5 ==> (#[trigger] self.basic@[t]) as int == (if s4.basic@[t] >= new_n {
                        s4.basic@[t] - 1
                    } else {
                        s4.basic@[t] as int
                    }),
                forall|t: int| t5 <= t < s4.basic@.len() ==> self.basic@[t] == s4.basic@[t],
                forall|t: int| 0 <= t < s4.basic@.len() ==> s4.basic@[t] != new_n,
            decreases s4.basic@.len() - t5,
        {
            let e = self.basic[t5];
            if e >= new_n {
                self.basic[t5] = e - 1;
            }
            t5 += 1;
        }

        let ghost s5 = *self;
        proof {
            lemma_remove_aux_wf(s3, s4, s5, x_col as int);
        }

        // Rebuild the original objective over the reduced dictionary.
        match self.recompute_objective_for_initialization(saved_c) {
            Ok(_) => {},
            Err(e) => {
                proof {
                    lemma_done_run_refutes(pre0, aux, s1g, smallest_row as int, s2pre, run_pair.1);
                }
                return Err(e);
            },
        }
        proof {
            lemma_done_run_refutes(pre0, aux, s1g, smallest_row as int, s2pre, run_pair.1);
            assert(aux_run(pre0, s2pre, true, run_pair.1) && aux_value_zero(s2pre));
        }
        Ok(InitializationResult::Done)
    }

    /// Rebuilds the objective for the saved coefficients `init_c` after the
    /// auxiliary variable has been removed: every basic row carrying an
    /// original variable is substituted into `init_c`, and each non-basic
    /// original variable keeps its own coefficient. On overflow the
    /// dictionary is left unchanged.
    fn recompute_objective_for_initialization(&mut self, init_c: Vec<Rat>) -> (r: Result<
        (),
        String,
    >)
        requires
            old(self).wf(),
            rats_wf(init_c@),
            init_c@.len() == old(self).n,
        ensures
            r is Ok ==> {
                &&& final(self).non_basic@ == old(self).non_basic@
                &&& final(self).basic@ == old(self).basic@
                &&& final(self).a@ == old(self).a@
                &&& final(self).b@ == old(self).b@
                &&& final(self).n == old(self).n
                &&& final(self).wf()
                &&& final(self).v@ == rebuilt_v(*old(self), init_c@, old(self).m())
                &&& final(self).c@.len() == old(self).n
                &&& forall|j: int|
                    0 <= j < old(self).n ==> (#[trigger] final(self).c@[j])@ == (if old(
                        self,
                    ).non_basic@[j] < old(self).n {
                        fnorm(
                            fadd(
                                rebuilt_c(*old(self), init_c@, j, old(self).m()),
                                init_c@[old(self).non_basic@[j] as int]@,
                            ),
                        )
                    } else {
                        rebuilt_c(*old(self), init_c@, j, old(self).m())
                    })
            },
            r matches Err(e) ==> *final(self) == *old(self) && e@
                == "Exact rational arithmetic overflow."@,
    {
        let ghost pre = *old(self);
        let n = self.n;
        let m = self.b.len();
        let mut objective: Vec<Rat> = Vec::new();
        let mut k: usize = 0;
        while k < n
            invariant
                0 <= k <= n,
                objective@.len() == k,
                forall|t: int|
                    0 <= t < k ==> (#[trigger] objective@[t])@ == fint(0) && objective@[t].wf(),
            decreases n - k,
        {
            objective.push(Rat::zero());
            k += 1;
        }
        proof {
            assert forall|t: int| 0 <= t < n implies objective@[t]@ == rebuilt_c(
                pre,
                init_c@,
                t,
                0,
            ) by {};
        }
        let mut v = self.v;
        let mut row: usize = 0;
        while row < m
            invariant
                *self == pre,
                pre.wf(),
                rats_wf(init_c@),
                init_c@.len() == n,
                n == pre.n,
                m == pre.m(),
                0 <= row <= m,
                objective@.len() == n,
                v.wf(),
                v@ == rebuilt_v(pre, init_c@, row as int),
                forall|t: int|
                    0 <= t < n ==> (#[trigger] objective@[t])@ == rebuilt_c(
                        pre,
                        init_c@,
                        t,
                        row as int,
                    ) && objective@[t].wf(),
            decreases m - row,
        {
            let basic = self.basic[row];
            if basic < n {
                let coef = init_c[basic];
                v = v.add(&self.b[row].mul(&coef)?)?;
                let mut j: usize = 0;
                while j < n
                    invariant
                        *self == pre,
                        pre.wf(),
                        rats_wf(init_c@),
                        init_c@.len() == n,
                        n == pre.n,
                        m == pre.m(),
                        row < m,
                        basic == pre.basic@[row as int],
                        basic < n,
                        coef == init_c@[basic as int],
                        0 <= j <= n,
                        objective@.len() == n,
                        forall|t: int|
                            0 <= t < j ==> (#[trigger] objective@[t])@ == rebuilt_c(
                                pre,
                                init_c@,
                                t,
                                row + 1,
                            ) && objective@[t].wf(),
                        forall|t: int|
                            j <= t < n ==> (#[trigger] objective@[t])@ == rebuilt_c(
                                pre,
                                init_c@,
                                t,
                                row as int,
                            ) && objective@[t].wf(),
                    decreases n - j,
                {
                    objective[j] = objective[j].add(&self.a[row][j].mul(&coef)?)?;
                    j += 1;
                }
            } else {
                proof {
                    assert forall|t: int| 0 <= t < n implies rebuilt_c(
                        pre,
                        init_c@,
                        t,
                        row + 1,
                    ) == rebuilt_c(pre, init_c@, t, row as int) by {};
                }
            }
            row += 1;
        }
        let mut j2: usize = 0;
        while j2 < n
            invariant
                *self == pre,
                pre.wf(),
                rats_wf(init_c@),
                init_c@.len() == n,
                n == pre.n,
                m == pre.m(),
                0 <= j2 <= n,
                objective@.len() == n,
                forall|t: int|
                    0 <= t < j2 ==> (#[trigger] objective@[t])@ == (if pre.non_basic@[t] < n {
                        fnorm(fadd(rebuilt_c(pre, init_c@, t, m as int), init_c@[pre.non_basic@[t] as int]@))
                    } else {
                        rebuilt_c(pre, init_c@, t, m as int)
                    }) && objective@[t].wf(),
                forall|t: int|
                    j2 <= t < n ==> (#[trigger] objective@[t])@ == rebuilt_c(
                        pre,
                        init_c@,
                        t,
                        m as int,
                    ) && objective@[t].wf(),
            decreases n - j2,
        {
            let nb = self.non_basic[j2];
            if nb < n {
                objective[j2] = objective[j2].add(&init_c[nb])?;
            }
            j2 += 1;
        }
        self.c = objective;
        self.v = v;
        Ok(())
    }

    /// Decides well-formedness at run time, so that unverified callers can
    /// establish the preconditions of the other methods before calling
    /// them: agreeing dimensions, well-formed rationals, and non-basic and
    /// basic indices that partition the variable index range.
    pub fn is_well_formed(&self) -> (r: bool)
        ensures
            r == self.wf(),
    {
        if self.a.len() != self.b.len() || self.basic.len() != self.b.len() || self.non_basic.len()
            != self.n || self.c.len() != self.n || self.n == 0 || self.b.len() == 0 {
            return false;
        }
        if self.n > usize::MAX - self.b.len() {
            return false;
        }
        let mut i: usize = 0;
        while i < self.a.len()
            invariant
                0 <= i <= self.a@.len(),
                forall|t: int|
                    0 <= t < i ==> (#[trigger] self.a@[t]@).len() == self.n && rats_wf(
                        self.a@[t]@,
                    ),
            decreases self.a@.len() - i,
        {
            if self.a[i].len() != self.n {
                assert(!rows_uniform(self.a@, self.n as int));
                return false;
            }
            if !rats_ok(&self.a[i]) {
                assert(!rows_wf(self.a@));
                return false;
            }
            i += 1;
        }
        if !rats_ok(&self.b) || !rats_ok(&self.c) {
            return false;
        }
        if !(self.v.den > 0 && self.v.num > i64::MIN) {
            return false;
        }
        let mut all_idx = crate::utils::copy_indices(&self.non_basic);
        let mut k: usize = 0;
        while k < self.basic.len()
            invariant
                0 <= k <= self.basic@.len(),
                all_idx@ == self.non_basic@ + self.basic@.take(k as int),
            decreases self.basic@.len() - k,
        {
            all_idx.push(self.basic[k]);
            proof {
                assert(all_idx@ =~= self.non_basic@ + self.basic@.take(k + 1));
            }
            k += 1;
        }
        proof {
            assert(all_idx@ =~= self.non_basic@ + self.basic@);
        }
        let ghost all = self.non_basic@ + self.basic@;
        let total = self.n + self.b.len();
        let mut p: usize = 0;
        while p < all_idx.len()
            invariant
                all_idx@ == all,
                all == self.non_basic@ + self.basic@,
                total == self.total(),
                0 <= p <= all.len(),
                forall|t: int| 0 <= t < p ==> all[t] < total,
                forall|t: int, u: int| 0 <= u < t < p ==> all[t] != all[u],
            decreases all.len() - p,
        {
            if all_idx[p] >= total {
                return false;
            }
            let mut q: usize = 0;
            while q < p
                invariant
                    all_idx@ == all,
                    all == self.non_basic@ + self.basic@,
                    0 <= q <= p < all.len(),
                    forall|u: int| 0 <= u < q ==> all[p as int] != all[u],
                decreases p - q,
            {
                if all_idx[q] == all_idx[p] {
                    assert(!all.no_duplicates());
                    return false;
                }
                q += 1;
            }
            p += 1;
        }
        proof {
            assert(all.no_duplicates()) by {
                assert(forall|t: int, u: int|
                    0 <= t < all.len() && 0 <= u < all.len() && t != u ==> all[t] != all[u]);
            };
        }
        true
    }

    /// The problem dimension: the number of non-basic variables.
    pub fn get_dim(&self) -> (r: usize)
        ensures
            r == self.n,
    {
        self.n
    }

    /// The primal solution of the current dictionary: non-basic variables
    /// are zero, each basic variable with an original index takes its
    /// right-hand side.
    pub fn compute_solution_vector(&self) -> (r: SimplexResult)
        requires
            self.wf_dims(),
            self.wf_basis(),
            rats_wf(self.b@),
        ensures
            r matches SimplexResult::Optimal(x) && x@.len() == self.n && rats_wf(x@) && (
            forall|j: int|
                0 <= j < self.m() && self.basic@[j] < self.n ==> x@[self.basic@[j] as int]
                    == self.b@[j]) && (forall|k: int|
                0 <= k < self.n && (forall|j: int|
                    0 <= j < self.m() ==> self.basic@[j] != k) ==> (#[trigger] x@[k])@ == fint(0)),
    {
        let mut x: Vec<Rat> = Vec::new();
        let mut k: usize = 0;
        while k < self.n
            invariant
                0 <= k <= self.n,
                x@.len() == k,
                forall|t: int| 0 <= t < k ==> (#[trigger] x@[t])@ == fint(0) && x@[t].wf(),
            decreases self.n - k,
        {
            x.push(Rat::zero());
            k += 1;
        }
        let mut j: usize = 0;
        while j < self.b.len()
            invariant
                0 <= j <= self.m(),
                self.wf_dims(),
                rats_wf(self.b@),
                x@.len() == self.n,
                rats_wf(x@),
                forall|t: int|
                    0 <= t < j && self.basic@[t] < self.n ==> x@[self.basic@[t] as int]
                        == self.b@[t],
                forall|k2: int|
                    0 <= k2 < self.n && (forall|t: int|
                        0 <= t < j ==> self.basic@[t] != k2) ==> (#[trigger] x@[k2])@ == fint(0),
                self.wf_basis(),
            decreases self.m() - j,
        {
            let bi = self.basic[j];
            if bi < self.n {
                proof {
                    let all = self.non_basic@ + self.basic@;
                    assert forall|t: int| 0 <= t < j implies self.basic@[t] != bi by {
                        assert(all[self.n + t] == self.basic@[t]);
                        assert(all[self.n + j] == self.basic@[j as int]);
                    };
                }
                x[bi] = self.b[j];
            }
            j += 1;
        }
        SimplexResult::Optimal(x)
    }
}

/// Law: the pivot operation is self-inverse. Pivoting a well-formed
/// dictionary at a nonzero entry and then pivoting the result at the same
/// column and row restores the original dictionary: the index sequences
/// come back exactly, and every matrix entry, right-hand side, objective
/// coefficient and the objective constant come back equal in value.
pub proof fn lemma_pivot_involution(
    s0: SlackFormLP,
    s1: SlackFormLP,
    s2: SlackFormLP,
    col: int,
    row: int,
)
    requires
        s0.wf(),
        0 <= col < s0.n,
        0 <= row < s0.m(),
        s0.a@[row]@[col]@.n != 0,
        pivot_rel(s0, s1, col, row),
        pivot_rel(s1, s2, col, row),
    ensures
        s2.n == s0.n,
        s2.b@.len() == s0.b@.len(),
        s2.c@.len() == s0.c@.len(),
        s2.non_basic@ == s0.non_basic@,
        s2.basic@ == s0.basic@,
        forall|i: int| 0 <= i < s0.m() ==> feq((#[trigger] s2.b@[i])@, s0.b@[i]@),
        forall|i: int, j: int|
            0 <= i < s0.m() && 0 <= j < s0.n ==> feq((#[trigger] s2.a@[i]@[j])@, s0.a@[i]@[j]@),
        forall|j: int| 0 <= j < s0.n ==> feq((#[trigger] s2.c@[j])@, s0.c@[j]@),
        feq(s2.v@, s0.v@),
{
    let a = s0.a@[row]@[col]@;
    assert(rats_wf(s0.a@[row]@));
    assert(s0.a@[row]@[col].wf());
    let d0 = fneg(a);
    let cp = Frac { n: -a.d, d: -a.n };
    assert(fdiv(fint(-1), d0) == cp) by (nonlinear_arith)
        requires
            fdiv(fint(-1), d0).n == (-1) * a.d,
            fdiv(fint(-1), d0).d == 1 * (-a.n),
            cp == (Frac { n: -a.d, d: -a.n }),
    ;
    let p1 = s1.a@[row]@[col]@;
    assert(p1 == fnorm(cp));
    crate::frac::lemma_fnorm(cp);
    assert(feq(p1, cp) && p1.d >= 1 && p1.n != 0);

    // The pivot cell comes back: the reciprocal of the reciprocal.
    let q = s2.a@[row]@[col]@;
    let rq = fdiv(fint(-1), fneg(p1));
    assert(rq == Frac { n: -p1.d, d: -p1.n }) by (nonlinear_arith)
        requires
            rq.n == (-1) * p1.d,
            rq.d == 1 * (-p1.n),
    ;
    assert(q == fnorm(Frac { n: -p1.d, d: -p1.n }));
    crate::frac::lemma_fnorm(Frac { n: -p1.d, d: -p1.n });
    assert(feq(Frac { n: -p1.d, d: -p1.n }, a)) by (nonlinear_arith)
        requires
            p1.n * (-a.n) == (-a.d) * p1.d,
            p1.d >= 1,
            a.d > 0,
    ;
    crate::frac::lemma_feq_trans(q, Frac { n: -p1.d, d: -p1.n }, a);
    assert(feq(q, a) && q.d >= 1);

    // The pivot row and its right-hand side come back.
    assert forall|j: int| 0 <= j < s0.n && j != col implies feq(
        (#[trigger] s2.a@[row]@[j])@,
        s0.a@[row]@[j]@,
    ) by {
        assert(s0.a@[row]@[j].wf());
        crate::frac::lemma_unscale(s0.a@[row]@[j]@, a, p1, s1.a@[row]@[j]@, s2.a@[row]@[j]@);
    };
    assert(rats_wf(s0.b@) && s0.b@[row].wf());
    crate::frac::lemma_unscale(s0.b@[row]@, a, p1, s1.b@[row]@, s2.b@[row]@);
    assert(feq(s2.b@[row]@, s0.b@[row]@));

    // The other right-hand sides come back.
    assert forall|i: int| 0 <= i < s0.m() && i != row implies feq(
        (#[trigger] s2.b@[i])@,
        s0.b@[i]@,
    ) by {
        assert(s0.b@[i].wf());
        assert(rats_wf(s0.a@[i]@));
        assert(s0.a@[i]@[col].wf());
        crate::frac::lemma_eliminate_restore(
            s0.b@[i]@,
            s0.b@[row]@,
            s0.a@[i]@[col]@,
            a,
            p1,
            s1.b@[row]@,
            s2.b@[row]@,
            s1.a@[i]@[col]@,
            s1.b@[i]@,
            s2.b@[i]@,
        );
    };

    // The other matrix entries come back: the pivot column by the
    // reciprocal pair, the rest by the elimination pair.
    assert forall|i: int, j: int|
        0 <= i < s0.m() && 0 <= j < s0.n && i != row implies feq(
        (#[trigger] s2.a@[i]@[j])@,
        s0.a@[i]@[j]@,
    ) by {
        assert(rats_wf(s0.a@[i]@));
        assert(s0.a@[i]@[j].wf() && s0.a@[i]@[col].wf());
        if j == col {
            crate::frac::lemma_mul_unscale(
                s0.a@[i]@[col]@,
                a,
                p1,
                q,
                s1.a@[i]@[col]@,
                s2.a@[i]@[col]@,
            );
        } else {
            assert(rats_wf(s0.a@[row]@) && s0.a@[row]@[j].wf());
            crate::frac::lemma_unscale(s0.a@[row]@[j]@, a, p1, s1.a@[row]@[j]@, s2.a@[row]@[j]@);
            crate::frac::lemma_eliminate_restore(
                s0.a@[i]@[j]@,
                s0.a@[row]@[j]@,
                s0.a@[i]@[col]@,
                a,
                p1,
                s1.a@[row]@[j]@,
                s2.a@[row]@[j]@,
                s1.a@[i]@[col]@,
                s1.a@[i]@[j]@,
                s2.a@[i]@[j]@,
            );
        }
    };

    // The objective row comes back.
    assert(rats_wf(s0.c@) && s0.c@[col].wf());
    crate::frac::lemma_mul_unscale(s0.c@[col]@, a, p1, q, s1.c@[col]@, s2.c@[col]@);
    assert forall|j: int| 0 <= j < s0.n && j != col implies feq(
        (#[trigger] s2.c@[j])@,
        s0.c@[j]@,
    ) by {
        assert(s0.c@[j].wf());
        assert(rats_wf(s0.a@[row]@) && s0.a@[row]@[j].wf());
        crate::frac::lemma_unscale(s0.a@[row]@[j]@, a, p1, s1.a@[row]@[j]@, s2.a@[row]@[j]@);
        crate::frac::lemma_eliminate_restore(
            s0.c@[j]@,
            s0.a@[row]@[j]@,
            s0.c@[col]@,
            a,
            p1,
            s1.a@[row]@[j]@,
            s2.a@[row]@[j]@,
            s1.c@[col]@,
            s1.c@[j]@,
            s2.c@[j]@,
        );
    };

    // The objective constant comes back.
    assert(s0.v.wf());
    crate::frac::lemma_eliminate_restore(
        s0.v@,
        s0.b@[row]@,
        s0.c@[col]@,
        a,
        p1,
        s1.b@[row]@,
        s2.b@[row]@,
        s1.c@[col]@,
        s1.v@,
        s2.v@,
    );

    // The index sequences come back exactly.
    assert(s1.basic@[row] == s0.non_basic@[col]);
    assert(s2.non_basic@ =~= s0.non_basic@);
    assert(s2.basic@ =~= s0.basic@);
}

/// Bland's rule selects at most one pair: the entering column minimizes
/// the non-basic index with ties to the earliest column, and the leaving
/// row minimizes the ratio with ties to the earliest row.
proof fn lemma_selection_unique(s: SlackFormLP, c1: int, r1: int, c2: int, r2: int)
    requires
        s.is_selection(c1, r1),
        s.is_selection(c2, r2),
    ensures
        c1 == c2,
        r1 == r2,
{
    if c1 < c2 {
        assert(s.non_basic@[c2 as int] < s.non_basic@[c1 as int]);
        assert(s.non_basic@[c1 as int] <= s.non_basic@[c2 as int]);
    }
    if c2 < c1 {
        assert(s.non_basic@[c1 as int] < s.non_basic@[c2 as int]);
        assert(s.non_basic@[c2 as int] <= s.non_basic@[c1 as int]);
    }
    if r1 < r2 {
        assert(flt(s.delta(c2, r2), s.delta(c2, r1)));
        assert(fle(s.delta(c1, r1), s.delta(c1, r2)));
        assert(false);
    }
    if r2 < r1 {
        assert(flt(s.delta(c1, r1), s.delta(c1, r2)));
        assert(fle(s.delta(c2, r2), s.delta(c2, r1)));
        assert(false);
    }
}

/// The pivot rewrite determines the successor dictionary's content.
proof fn lemma_pivot_rel_deterministic(
    pre: SlackFormLP,
    p1: SlackFormLP,
    p2: SlackFormLP,
    col: int,
    row: int,
)
    requires
        pre.wf(),
        0 <= col < pre.n,
        0 <= row < pre.m(),
        pivot_rel(pre, p1, col, row),
        pivot_rel(pre, p2, col, row),
    ensures
        same_view(p1, p2),
{
    assert forall|i: int| 0 <= i < pre.m() implies p1.b@[i] == p2.b@[i] by {
        assert(p1.b@[i]@ == p2.b@[i]@);
    };
    assert(p1.b@ =~= p2.b@);
    assert forall|j: int| 0 <= j < pre.n implies p1.c@[j] == p2.c@[j] by {
        assert(p1.c@[j]@ == p2.c@[j]@);
    };
    assert(p1.c@ =~= p2.c@);
    assert(p1.v@ == p2.v@ && p1.v == p2.v);
    assert forall|i: int| 0 <= i < p1.a@.len() implies (#[trigger] p1.a@[i]@) == p2.a@[i]@ by {
        assert forall|j: int| 0 <= j < pre.n implies p1.a@[i]@[j] == p2.a@[i]@[j] by {
            if i == row {
                if j == col {
                    assert(p1.a@[i]@[j]@ == p2.a@[i]@[j]@);
                } else {
                    assert(p1.a@[i]@[j]@ == p2.a@[i]@[j]@);
                }
            } else {
                if j == col {
                    assert((p1.a@[i])@[col]@ == (p2.a@[i])@[col]@);
                } else {
                    assert(p1.a@[i]@[j]@ == p2.a@[i]@[j]@);
                }
            }
        };
        assert(p1.a@[i]@ =~= p2.a@[i]@);
    };
}

/// Whether the selection scan stops, and where, depends only on the
/// dictionary's content; so do the selection pair and the pivot rewrite.
proof fn lemma_scan_same_view(s1: SlackFormLP, s2: SlackFormLP)
    requires
        same_view(s1, s2),
        s1.a@.len() == s1.b@.len(),
    ensures
        s1.sel_finished() == s2.sel_finished(),
        forall|t: int| #[trigger] s1.col_unb(t) == s2.col_unb(t),
        forall|t: int| #[trigger] s1.col_ovf(t) == s2.col_ovf(t),
        s1.stops_unbounded() == s2.stops_unbounded(),
        s1.no_stops() == s2.no_stops(),
        forall|col: int, row: int| #[trigger] s1.is_selection(col, row) == s2.is_selection(
            col,
            row,
        ),
{
    assert forall|t: int, i: int| 0 <= i < s1.m() implies (#[trigger] s1.cand(t, i)) == s2.cand(
        t,
        i,
    ) by {
        assert(s1.b@[i] == s2.b@[i]);
        assert(s1.a@[i]@ == s2.a@[i]@);
    };
    assert forall|t: int, i: int| 0 <= i < s1.m() implies (#[trigger] s1.delta(t, i)) == s2.delta(
        t,
        i,
    ) by {
        assert(s1.b@[i] == s2.b@[i]);
        assert(s1.a@[i]@ == s2.a@[i]@);
    };
    assert forall|t: int| true implies (#[trigger] s1.has_cand(t)) == s2.has_cand(t) by {
        if s1.has_cand(t) {
            let i = choose|i: int| 0 <= i < s1.m() && s1.cand(t, i);
            assert(s2.cand(t, i));
        }
        if s2.has_cand(t) {
            let i = choose|i: int| 0 <= i < s2.m() && s2.cand(t, i);
            assert(s1.cand(t, i));
        }
    };
    assert forall|t: int| true implies (#[trigger] s1.col_ratios_fit(t)) == s2.col_ratios_fit(
        t,
    ) by {
        if s1.has_cand(t) {
            let i = choose|i: int| 0 <= i < s1.m() && s1.cand(t, i);
            assert(s2.cand(t, i));
        }
        if s2.has_cand(t) {
            let i = choose|i: int| 0 <= i < s2.m() && s2.cand(t, i);
            assert(s1.cand(t, i));
        }
        if s1.col_ratios_fit(t) {
            assert forall|i: int| 0 <= i < s2.m() && s2.cand(t, i) implies rat_fits(
                fnorm(s2.delta(t, i)),
            ) by {
                assert(s1.cand(t, i) && rat_fits(fnorm(s1.delta(t, i))));
            };
        }
        if s2.col_ratios_fit(t) {
            assert forall|i: int| 0 <= i < s1.m() && s1.cand(t, i) implies rat_fits(
                fnorm(s1.delta(t, i)),
            ) by {
                assert(s2.cand(t, i) && rat_fits(fnorm(s2.delta(t, i))));
            };
        }
    };
    assert forall|t: int| true implies (#[trigger] s1.col_unb(t)) == s2.col_unb(t) by {
        assert(s1.has_cand(t) == s2.has_cand(t));
    };
    assert forall|t: int| true implies (#[trigger] s1.col_ovf(t)) == s2.col_ovf(t) by {
        assert(s1.has_cand(t) == s2.has_cand(t));
        assert(s1.col_ratios_fit(t) == s2.col_ratios_fit(t));
    };
    if s1.stops_unbounded() {
        let t = choose|t: int| #[trigger] s1.first_stop_at(t) && s1.col_unb(t);
        assert(s2.first_stop_at(t)) by {
            assert forall|u: int| 0 <= u < t implies !s2.col_unb(u) && !s2.col_ovf(u) by {
                assert(!s1.col_unb(u) && !s1.col_ovf(u));
            };
        };
        assert(s2.first_stop_at(t) && s2.col_unb(t));
    }
    if s2.stops_unbounded() {
        let t = choose|t: int| #[trigger] s2.first_stop_at(t) && s2.col_unb(t);
        assert(s1.first_stop_at(t)) by {
            assert forall|u: int| 0 <= u < t implies !s1.col_unb(u) && !s1.col_ovf(u) by {
                assert(!s2.col_unb(u) && !s2.col_ovf(u));
            };
        };
        assert(s1.first_stop_at(t) && s1.col_unb(t));
    }
    assert(s1.no_stops() == s2.no_stops()) by {
        if s1.no_stops() {
            assert forall|t: int|
                #![trigger s2.col_unb(t)]
                #![trigger s2.col_ovf(t)]
                !s2.col_unb(t) && !s2.col_ovf(t) by {
                assert(!s1.col_unb(t) && !s1.col_ovf(t));
            };
        }
        if s2.no_stops() {
            assert forall|t: int|
                #![trigger s1.col_unb(t)]
                #![trigger s1.col_ovf(t)]
                !s1.col_unb(t) && !s1.col_ovf(t) by {
                assert(!s2.col_unb(t) && !s2.col_ovf(t));
            };
        }
    };
    assert(s1.sel_finished() == s2.sel_finished()) by {
        if s1.sel_finished() {
            assert forall|t: int| 0 <= t < s2.c@.len() implies !s2.pos_col(t) by {
                assert(!s1.pos_col(t));
            };
        }
        if s2.sel_finished() {
            assert forall|t: int| 0 <= t < s1.c@.len() implies !s1.pos_col(t) by {
                assert(!s2.pos_col(t));
            };
        }
    };
    assert forall|col: int, row: int| true implies (#[trigger] s1.is_selection(col, row))
        == s2.is_selection(col, row) by {
        if s1.is_selection(col, row) {
            assert forall|t: int|
                0 <= t < s2.c@.len() && #[trigger] s2.pos_col(t) implies s2.non_basic@[col]
                <= s2.non_basic@[t] by {
                assert(s1.pos_col(t));
            };
            assert forall|t: int|
                0 <= t < col && #[trigger] s2.pos_col(t) implies s2.non_basic@[col]
                < s2.non_basic@[t] by {
                assert(s1.pos_col(t));
            };
        }
        if s2.is_selection(col, row) {
            assert forall|t: int|
                0 <= t < s1.c@.len() && #[trigger] s1.pos_col(t) implies s1.non_basic@[col]
                <= s1.non_basic@[t] by {
                assert(s2.pos_col(t));
            };
            assert forall|t: int|
                0 <= t < col && #[trigger] s1.pos_col(t) implies s1.non_basic@[col]
                < s1.non_basic@[t] by {
                assert(s2.pos_col(t));
            };
        }
        assert(s1.is_min_ratio_row(col, row) == s2.is_min_ratio_row(col, row)) by {
            if s1.is_min_ratio_row(col, row) {
                assert(s2.cand(col, row));
                assert(s1.delta(col, row) == s2.delta(col, row));
                assert forall|i: int| 0 <= i < s2.m() && s2.cand(col, i) implies fle(
                    s2.delta(col, row),
                    s2.delta(col, i),
                ) by {
                    assert(s1.cand(col, i));
                    assert(s1.delta(col, i) == s2.delta(col, i));
                };
                assert forall|i: int| 0 <= i < row && s2.cand(col, i) implies flt(
                    s2.delta(col, row),
                    s2.delta(col, i),
                ) by {
                    assert(s1.cand(col, i));
                    assert(s1.delta(col, i) == s2.delta(col, i));
                };
            }
            if s2.is_min_ratio_row(col, row) {
                assert(s1.cand(col, row));
                assert(s1.delta(col, row) == s2.delta(col, row));
                assert forall|i: int| 0 <= i < s1.m() && s1.cand(col, i) implies fle(
                    s1.delta(col, row),
                    s1.delta(col, i),
                ) by {
                    assert(s2.cand(col, i));
                    assert(s1.delta(col, i) == s2.delta(col, i));
                };
                assert forall|i: int| 0 <= i < row && s1.cand(col, i) implies flt(
                    s1.delta(col, row),
                    s1.delta(col, i),
                ) by {
                    assert(s2.cand(col, i));
                    assert(s1.delta(col, i) == s2.delta(col, i));
                };
            }
        };
    };
}

/// `runs_to` depends only on the dictionary's content.
proof fn lemma_runs_to_view(s1: SlackFormLP, s2: SlackFormLP, f: SlackFormLP, opt: bool, fuel: nat)
    requires
        same_view(s1, s2),
        s1.a@.len() == s1.b@.len(),
        runs_to(s1, f, opt, fuel),
    ensures
        runs_to(s2, f, opt, fuel),
{
    lemma_scan_same_view(s1, s2);
    if s1.sel_finished() && same_view(f, s1) && opt {
        assert(same_view(f, s2));
    } else if s1.stops_unbounded() && same_view(f, s1) && !opt {
        assert(same_view(f, s2));
    } else {
        let (col, row, mid) = choose|col: int, row: int, mid: SlackFormLP|
            s1.is_selection(col, row) && pivot_fits(s1, col, row) && #[trigger] pivot_rel(
                s1,
                mid,
                col,
                row,
            ) && mid.wf() && runs_to(mid, f, opt, (fuel - 1) as nat);
        lemma_pivot_specs_same_view(s1, s2, col, row);
        assert(pivot_fits(s2, col, row));
        assert(pivot_rel(s2, mid, col, row));
        assert(runs_to(s2, f, opt, fuel));
    }
}

/// The pivot-fit condition and the pivot rewrite depend only on the
/// dictionary's content.
proof fn lemma_pivot_specs_same_view(s1: SlackFormLP, s2: SlackFormLP, col: int, row: int)
    requires
        same_view(s1, s2),
        s1.a@.len() == s1.b@.len(),
        0 <= row < s1.a@.len(),
    ensures
        pivot_fits(s1, col, row) == pivot_fits(s2, col, row),
        forall|mid: SlackFormLP| #[trigger] pivot_rel(s1, mid, col, row) == pivot_rel(
            s2,
            mid,
            col,
            row,
        ),
{
    assert(s1.a@[row]@ == s2.a@[row]@);
    assert(piv_d(s1, col, row) == piv_d(s2, col, row));
    assert forall|j: int| true implies #[trigger] piv_row_entry(s1, col, row, j) == piv_row_entry(
        s2,
        col,
        row,
        j,
    ) by {};
    assert(piv_b_row(s1, col, row) == piv_b_row(s2, col, row));
    assert forall|i: int| 0 <= i < s1.m() implies #[trigger] piv_b_term(s1, col, row, i)
        == piv_b_term(s2, col, row, i) by {
        if i < s1.a@.len() {
            assert(s1.a@[i]@ == s2.a@[i]@);
        }
    };
    assert forall|i: int, j: int| 0 <= i < s1.m() implies #[trigger] piv_elim_term(
        s1,
        col,
        row,
        i,
        j,
    ) == piv_elim_term(s2, col, row, i, j) by {
        if i < s1.a@.len() {
            assert(s1.a@[i]@ == s2.a@[i]@);
        }
    };
    assert forall|j: int| true implies #[trigger] piv_obj_term(s1, col, row, j) == piv_obj_term(
        s2,
        col,
        row,
        j,
    ) by {};
    assert forall|i: int| 0 <= i < s1.a@.len() implies s1.a@[i]@ == s2.a@[i]@ by {};
    if pivot_fits(s1, col, row) {
        assert(pivot_fits(s2, col, row)) by {
            lemma_pivot_fits_bridge(s1, s2, col, row);
        };
    }
    if pivot_fits(s2, col, row) {
        assert(same_view(s2, s1)) by {
            assert forall|i: int| 0 <= i < s2.a@.len() implies (#[trigger] s2.a@[i]@)
                == s1.a@[i]@ by {};
        };
        assert(pivot_fits(s1, col, row)) by {
            lemma_pivot_fits_bridge(s2, s1, col, row);
        };
    }
}

/// One direction of the content-independence of the pivot-fit condition.
proof fn lemma_pivot_fits_bridge(s1: SlackFormLP, s2: SlackFormLP, col: int, row: int)
    requires
        same_view(s1, s2),
        s1.a@.len() == s1.b@.len(),
        0 <= row < s1.a@.len(),
        pivot_fits(s1, col, row),
    ensures
        pivot_fits(s2, col, row),
{
    assert(s1.a@[row]@ == s2.a@[row]@);
    assert forall|j: int| 0 <= j < s2.n implies rat_fits(#[trigger] piv_row_entry(s2, col, row, j))
        by {
        assert(piv_row_entry(s2, col, row, j) == piv_row_entry(s1, col, row, j));
    };
    assert(piv_b_row(s2, col, row) == piv_b_row(s1, col, row));
    assert forall|i: int| 0 <= i < s2.m() && i != row implies rat_fits(
        #[trigger] piv_b_term(s2, col, row, i),
    ) && rat_fits(fnorm(fadd(s2.b@[i]@, piv_b_term(s2, col, row, i)))) by {
        assert(s1.a@[i]@ == s2.a@[i]@);
        assert(piv_b_term(s2, col, row, i) == piv_b_term(s1, col, row, i));
        assert(s2.b@[i] == s1.b@[i]);
        assert(rat_fits(piv_b_term(s1, col, row, i)));
        assert(rat_fits(fnorm(fadd(s1.b@[i]@, piv_b_term(s1, col, row, i)))));
    };
    assert forall|i: int, j: int|
        0 <= i < s2.m() && i != row && 0 <= j < s2.n implies rat_fits(
        #[trigger] piv_elim_term(s2, col, row, i, j),
    ) by {
        assert(s1.a@[i]@ == s2.a@[i]@);
        assert(piv_elim_term(s2, col, row, i, j) == piv_elim_term(s1, col, row, i, j));
        assert(rat_fits(piv_elim_term(s1, col, row, i, j)));
    };
    assert forall|i: int, j: int|
        0 <= i < s2.m() && i != row && 0 <= j < s2.n && j != col implies rat_fits(
        fnorm(fadd(s2.a@[i]@[j]@, #[trigger] piv_elim_term(s2, col, row, i, j))),
    ) by {
        assert(s1.a@[i]@ == s2.a@[i]@);
        assert(piv_elim_term(s2, col, row, i, j) == piv_elim_term(s1, col, row, i, j));
        assert(rat_fits(fnorm(fadd(s1.a@[i]@[j]@, piv_elim_term(s1, col, row, i, j)))));
    };
    assert forall|j: int| 0 <= j < s2.n implies rat_fits(#[trigger] piv_obj_term(s2, col, row, j))
        by {
        assert(piv_obj_term(s2, col, row, j) == piv_obj_term(s1, col, row, j));
        assert(rat_fits(piv_obj_term(s1, col, row, j)));
    };
    assert forall|j: int| 0 <= j < s2.n && j != col implies rat_fits(
        fnorm(fadd(s2.c@[j]@, #[trigger] piv_obj_term(s2, col, row, j))),
    ) by {
        assert(piv_obj_term(s2, col, row, j) == piv_obj_term(s1, col, row, j));
        assert(s2.c@[j] == s1.c@[j]);
        assert(rat_fits(fnorm(fadd(s1.c@[j]@, piv_obj_term(s1, col, row, j)))));
    };
    assert(rat_fits(fnorm(fmul(piv_b_row(s2, col, row), s2.c@[col]@)))) by {
        assert(s2.c@[col] == s1.c@[col]);
    };
    assert(rat_fits(fnorm(fadd(s2.v@, fnorm(fmul(piv_b_row(s2, col, row), s2.c@[col]@)))))) by {
        assert(s2.c@[col] == s1.c@[col]);
    };
}

/// From a dictionary whose selection scan stops on an overflowing column,
/// no run completes.
proof fn lemma_overflow_stuck(s: SlackFormLP, f: SlackFormLP, opt: bool, fuel: nat)
    requires
        s.stops_overflow(),
    ensures
        !runs_to(s, f, opt, fuel),
{
    let t = choose|t: int| #[trigger] s.first_stop_at(t) && s.col_ovf(t);
    assert(s.pos_col(t) && 0 <= t < s.c@.len());
    if runs_to(s, f, opt, fuel) {
        if s.sel_finished() {
            assert(!s.pos_col(t));
        } else if s.stops_unbounded() {
            let t2 = choose|t2: int| #[trigger] s.first_stop_at(t2) && s.col_unb(t2);
            if t < t2 {
                assert(!s.col_ovf(t));
            } else if t2 < t {
                assert(!s.col_unb(t2));
            } else {
                assert(s.has_cand(t) && !s.has_cand(t));
            }
        } else {
            assert(s.no_stops());
            assert(!s.col_ovf(t));
        }
    }
}

/// From a dictionary whose selected pivot does not fit the
/// representation, no run completes.
proof fn lemma_unfit_stuck(
    s: SlackFormLP,
    col: int,
    row: int,
    f: SlackFormLP,
    opt: bool,
    fuel: nat,
)
    requires
        s.is_selection(col, row),
        !pivot_fits(s, col, row),
        s.no_stops(),
    ensures
        !runs_to(s, f, opt, fuel),
{
    if runs_to(s, f, opt, fuel) {
        if s.sel_finished() {
            assert(!s.pos_col(col));
        } else if s.stops_unbounded() {
            let t2 = choose|t2: int| #[trigger] s.first_stop_at(t2) && s.col_unb(t2);
            assert(!s.col_unb(t2));
        } else {
            let (c2, r2, mid) = choose|c2: int, r2: int, mid: SlackFormLP|
                s.is_selection(c2, r2) && pivot_fits(s, c2, r2) && #[trigger] pivot_rel(
                    s,
                    mid,
                    c2,
                    r2,
                ) && mid.wf() && runs_to(mid, f, opt, (fuel - 1) as nat);
            lemma_selection_unique(s, col, row, c2, r2);
        }
    }
}

/// Law: prepending one fitting pivot step to a completing run gives a
/// completing run one step longer.
pub proof fn lemma_runs_to_step(
    s: SlackFormLP,
    mid: SlackFormLP,
    col: int,
    row: int,
    f: SlackFormLP,
    opt: bool,
    fuel: nat,
)
    requires
        s.no_stops(),
        s.is_selection(col, row),
        pivot_fits(s, col, row),
        pivot_rel(s, mid, col, row),
        mid.wf(),
        runs_to(mid, f, opt, fuel),
    ensures
        runs_to(s, f, opt, (fuel + 1) as nat),
{
    assert(!s.sel_finished()) by {
        assert(s.pos_col(col));
    };
}

/// A completing run from a dictionary with a selected fitting pivot must
/// take that pivot first: the remaining run is one step shorter.
proof fn lemma_runs_to_unstep(
    s: SlackFormLP,
    mid: SlackFormLP,
    col: int,
    row: int,
    f: SlackFormLP,
    opt: bool,
    fuel: nat,
)
    requires
        s.wf(),
        s.no_stops(),
        s.is_selection(col, row),
        pivot_rel(s, mid, col, row),
        runs_to(s, f, opt, fuel),
    ensures
        fuel > 0,
        runs_to(mid, f, opt, (fuel - 1) as nat),
{
    assert(s.pos_col(col));
    if s.sel_finished() {
        assert(!s.pos_col(col));
    }
    if s.stops_unbounded() {
        let t2 = choose|t2: int| #[trigger] s.first_stop_at(t2) && s.col_unb(t2);
        assert(!s.col_unb(t2));
    }
    let (c2, r2, mid2) = choose|c2: int, r2: int, mid2: SlackFormLP|
        s.is_selection(c2, r2) && pivot_fits(s, c2, r2) && #[trigger] pivot_rel(s, mid2, c2, r2)
            && mid2.wf() && runs_to(mid2, f, opt, (fuel - 1) as nat);
    lemma_selection_unique(s, col, row, c2, r2);
    assert(0 <= col < s.n && 0 <= row < s.m()) by {
        assert(s.c@.len() == s.n);
    };
    lemma_pivot_rel_deterministic(s, mid2, mid, col, row);
    lemma_runs_to_view(mid2, mid, f, opt, (fuel - 1) as nat);
}

/// Law: the basic solution of a feasible dictionary is componentwise
/// nonnegative. Every entry of the extracted solution vector is either
/// zero (a non-basic variable) or a right-hand side of the feasible
/// dictionary, so an optimum reported by the main loop assigns no
/// variable a negative value.
pub proof fn lemma_solution_nonneg(s: SlackFormLP, x: Seq<Rat>)
    requires
        s.feasible(),
        x.len() == s.n,
        forall|j: int|
            0 <= j < s.m() && s.basic@[j] < s.n ==> x[s.basic@[j] as int] == s.b@[j],
        forall|k: int|
            0 <= k < s.n && (forall|j: int| 0 <= j < s.m() ==> s.basic@[j] != k) ==> (
            #[trigger] x[k])@ == fint(0),
    ensures
        forall|k: int| 0 <= k < x.len() ==> (#[trigger] x[k])@.n >= 0,
{
    assert forall|k: int| 0 <= k < x.len() implies (#[trigger] x[k])@.n >= 0 by {
        if exists|j: int| 0 <= j < s.m() && s.basic@[j] == k {
            let j = choose|j: int| 0 <= j < s.m() && s.basic@[j] == k;
            assert(x[s.basic@[j] as int] == s.b@[j]);
            assert(s.b@[j]@.n >= 0);
        } else {
            assert(forall|j: int| 0 <= j < s.m() ==> s.basic@[j] != k);
        }
    };
}

/// Swapping one non-basic and one basic index leaves the two sequences a
/// disjoint partition of the variable indices.
proof fn lemma_swap_basis(pre: SlackFormLP, post: SlackFormLP, col: int, row: int)
    requires
        pre.wf_dims(),
        pre.wf_basis(),
        0 <= col < pre.n,
        0 <= row < pre.m(),
        post.n == pre.n,
        post.b@.len() == pre.b@.len(),
        post.non_basic@ == pre.non_basic@.update(col, pre.basic@[row]),
        post.basic@ == pre.basic@.update(row, pre.non_basic@[col]),
    ensures
        post.wf_basis(),
{
    let np = pre.n as int;
    let all_pre = pre.non_basic@ + pre.basic@;
    let all_post = post.non_basic@ + post.basic@;
    assert(all_post.len() == all_pre.len());
    assert forall|p: int| 0 <= p < all_post.len() implies all_post[p] == all_pre[
        if p == col {
            np + row
        } else if p == np + row {
            col
        } else {
            p
        }
    ] by {
        if p < np {
            assert(all_post[p] == post.non_basic@[p]);
        } else {
            assert(all_post[p] == post.basic@[p - np]);
        }
    };
    assert forall|p: int, q: int|
        0 <= p < all_post.len() && 0 <= q < all_post.len() && p != q implies all_post[p]
        != all_post[q] by {
        let sp = if p == col {
            np + row
        } else if p == np + row {
            col
        } else {
            p
        };
        let sq = if q == col {
            np + row
        } else if q == np + row {
            col
        } else {
            q
        };
        assert(all_post[p] == all_pre[sp]);
        assert(all_post[q] == all_pre[sq]);
        assert(sp != sq);
        assert(all_pre[sp] != all_pre[sq]);
    };
    assert(all_post.no_duplicates());
    assert forall|p: int| 0 <= p < all_post.len() implies all_post[p] < post.total() by {
        let sp = if p == col {
            np + row
        } else if p == np + row {
            col
        } else {
            p
        };
        assert(all_post[p] == all_pre[sp]);
    };
}

/// A pivot at a least-ratio candidate row keeps every right-hand side
/// nonnegative: the pivot row is divided by a positive quantity, rows with
/// a nonnegative column entry gain a nonnegative amount, and rows with a
/// negative column entry lose at most their own ratio allows.
proof fn lemma_pivot_preserves_feasible(pre: SlackFormLP, post: SlackFormLP, col: int, row: int)
    requires
        pre.wf(),
        0 <= col < pre.n,
        0 <= row < pre.m(),
        pre.feasible(),
        pre.cand(col, row),
        forall|i: int|
            0 <= i < pre.m() && #[trigger] pre.cand(col, i) ==> fle(
                pre.delta(col, row),
                pre.delta(col, i),
            ),
        pivot_rel(pre, post, col, row),
    ensures
        post.feasible(),
{
    let a_rc = pre.a@[row]@[col]@;
    let d = fneg(a_rc);
    let b_r = pre.b@[row]@;
    assert(d.n > 0 && d.d > 0);
    let draw = fdiv(b_r, d);
    assert(draw.n == b_r.n * d.d && draw.d == b_r.d * d.n);
    assert(draw.d > 0 && draw.n >= 0) by (nonlinear_arith)
        requires
            b_r.d > 0,
            d.n > 0,
            b_r.n >= 0,
            d.d > 0,
            draw.n == b_r.n * d.d,
            draw.d == b_r.d * d.n,
    ;
    crate::frac::lemma_fnorm(draw);
    let t = post.b@[row]@;
    assert(t == fnorm(fdiv(b_r, d)));
    assert(t.n >= 0 && t.d >= 1 && feq(t, draw));
    assert forall|i: int| 0 <= i < post.b@.len() implies (#[trigger] post.b@[i])@.n >= 0 by {
        if i != row {
            let b_i = pre.b@[i]@;
            let a_ic = pre.a@[i]@[col]@;
            let w_raw = fmul(t, a_ic);
            assert(w_raw.n == t.n * a_ic.n && w_raw.d == t.d * a_ic.d);
            assert(w_raw.d > 0) by (nonlinear_arith)
                requires
                    t.d >= 1,
                    a_ic.d > 0,
                    w_raw.d == t.d * a_ic.d,
            ;
            crate::frac::lemma_fnorm(w_raw);
            let w = fnorm(w_raw);
            let sum_raw = fadd(b_i, w);
            assert(sum_raw.d > 0) by (nonlinear_arith)
                requires
                    b_i.d > 0,
                    w.d >= 1,
                    sum_raw.d == b_i.d * w.d,
            ;
            crate::frac::lemma_fnorm(sum_raw);
            if a_ic.n >= 0 {
                assert(w_raw.n >= 0) by (nonlinear_arith)
                    requires
                        t.n >= 0,
                        a_ic.n >= 0,
                        w_raw.n == t.n * a_ic.n,
                ;
                assert(w.n >= 0);
                assert(sum_raw.n >= 0) by (nonlinear_arith)
                    requires
                        b_i.n >= 0,
                        b_i.d > 0,
                        w.n >= 0,
                        w.d >= 1,
                        sum_raw.n == b_i.n * w.d + w.n * b_i.d,
                ;
            } else {
                assert(pre.cand(col, i));
                let di_raw = pre.delta(col, i);
                lemma_delta_pos_den(pre, col, i);
                assert(fle(draw, di_raw));
                crate::frac::lemma_order_congr(t, draw, di_raw, di_raw);
                assert(fle(t, di_raw));
                assert(di_raw.n == b_i.n * a_ic.d && di_raw.d == b_i.d * (-a_ic.n));
                let alt_raw = fadd(b_i, w_raw);
                assert(alt_raw.n == b_i.n * w_raw.d + w_raw.n * b_i.d);
                assert(alt_raw.n >= 0 && alt_raw.d > 0) by (nonlinear_arith)
                    requires
                        b_i.n >= 0,
                        b_i.d > 0,
                        a_ic.n < 0,
                        a_ic.d > 0,
                        t.d >= 1,
                        t.n * (b_i.d * (-a_ic.n)) <= (b_i.n * a_ic.d) * t.d,
                        alt_raw.n == b_i.n * (t.d * a_ic.d) + (t.n * a_ic.n) * b_i.d,
                        alt_raw.d == b_i.d * (t.d * a_ic.d),
                ;
                crate::frac::lemma_fadd_congr_r(b_i, w, w_raw);
                assert(feq(sum_raw, alt_raw));
                crate::frac::lemma_feq_sign(sum_raw, alt_raw);
                assert(sum_raw.n >= 0);
            }
            assert(post.b@[i]@ == fnorm(sum_raw));
        }
    };
}

/// A pivot in a row whose right-hand side is zero leaves every right-hand
/// side unchanged in value, so feasibility is kept.
proof fn lemma_pivot_zero_feasible(pre: SlackFormLP, post: SlackFormLP, col: int, row: int)
    requires
        pre.wf(),
        0 <= col < pre.n,
        0 <= row < pre.m(),
        pre.feasible(),
        pre.b@[row]@.n == 0,
        pre.a@[row]@[col]@.n != 0,
        pivot_rel(pre, post, col, row),
    ensures
        post.feasible(),
{
    let a_rc = pre.a@[row]@[col]@;
    let d = fneg(a_rc);
    let b_r = pre.b@[row]@;
    let draw = fdiv(b_r, d);
    assert(draw.n == b_r.n * d.d && draw.d == b_r.d * d.n);
    assert(draw.n == 0 && draw.d != 0) by (nonlinear_arith)
        requires
            b_r.n == 0,
            b_r.d > 0,
            d.n != 0,
            draw.n == b_r.n * d.d,
            draw.d == b_r.d * d.n,
    ;
    crate::frac::lemma_fnorm(draw);
    let t = post.b@[row]@;
    assert(t.n == 0 && t.d >= 1);
    assert forall|i: int| 0 <= i < post.b@.len() implies (#[trigger] post.b@[i])@.n >= 0 by {
        if i != row {
            let b_i = pre.b@[i]@;
            let a_ic = pre.a@[i]@[col]@;
            let w_raw = fmul(t, a_ic);
            assert(w_raw.n == t.n * a_ic.n && w_raw.d == t.d * a_ic.d);
            assert(w_raw.n == 0 && w_raw.d > 0) by (nonlinear_arith)
                requires
                    t.n == 0,
                    t.d >= 1,
                    a_ic.d > 0,
                    w_raw.n == t.n * a_ic.n,
                    w_raw.d == t.d * a_ic.d,
            ;
            crate::frac::lemma_fnorm(w_raw);
            let w = fnorm(w_raw);
            assert(w.n == 0 && w.d >= 1);
            let sum_raw = fadd(b_i, w);
            assert(sum_raw.n >= 0 && sum_raw.d > 0) by (nonlinear_arith)
                requires
                    b_i.n >= 0,
                    b_i.d > 0,
                    w.n == 0,
                    w.d >= 1,
                    sum_raw.n == b_i.n * w.d + w.n * b_i.d,
                    sum_raw.d == b_i.d * w.d,
            ;
            crate::frac::lemma_fnorm(sum_raw);
            assert(post.b@[i]@ == fnorm(sum_raw));
        }
    };
}

/// The first pivot of the auxiliary program makes the dictionary feasible:
/// pivoting the auxiliary column (all ones) at the row of the most negative
/// right-hand side turns that entry positive and raises every other one by
/// at least its distance from the minimum.
proof fn lemma_first_pivot_feasible(pre: SlackFormLP, post: SlackFormLP, col: int, k: int)
    requires
        pre.wf(),
        0 <= col < pre.n,
        0 <= k < pre.m(),
        forall|i: int| 0 <= i < pre.m() ==> (#[trigger] pre.a@[i]@)[col]@ == fint(1),
        pre.b@[k]@.n < 0,
        forall|i: int| 0 <= i < pre.m() ==> fle(pre.b@[k]@, (#[trigger] pre.b@[i])@),
        pivot_rel(pre, post, col, k),
    ensures
        post.feasible(),
{
    let b_k = pre.b@[k]@;
    let a_rc = pre.a@[k]@[col]@;
    assert(a_rc == fint(1));
    let d = fneg(a_rc);
    let draw = fdiv(b_k, d);
    assert(draw.n == b_k.n * 1 && draw.d == b_k.d * (-1));
    assert(draw.n == b_k.n && draw.d == -b_k.d) by (nonlinear_arith)
        requires
            draw.n == b_k.n * 1,
            draw.d == b_k.d * (-1),
    ;
    crate::frac::lemma_fnorm(draw);
    let t = post.b@[k]@;
    assert(t == fnorm(draw));
    assert(t.n > 0 && t.d >= 1 && feq(t, draw));
    assert forall|i: int| 0 <= i < post.b@.len() implies (#[trigger] post.b@[i])@.n >= 0 by {
        if i != k {
            let b_i = pre.b@[i]@;
            let a_ic = pre.a@[i]@[col]@;
            assert(a_ic == fint(1));
            let w_raw = fmul(t, a_ic);
            assert(w_raw.n == t.n * 1 && w_raw.d == t.d * 1);
            assert(w_raw == t) by (nonlinear_arith)
                requires
                    w_raw.n == t.n * 1,
                    w_raw.d == t.d * 1,
                    w_raw == (Frac { n: w_raw.n, d: w_raw.d }),
                    t == (Frac { n: t.n, d: t.d }),
            ;
            crate::frac::lemma_fnorm(w_raw);
            let w = fnorm(w_raw);
            crate::frac::lemma_feq_trans(w, t, draw);
            let sum_raw = fadd(b_i, w);
            assert(sum_raw.n >= 0 && sum_raw.d > 0) by (nonlinear_arith)
                requires
                    b_i.d > 0,
                    b_k.d > 0,
                    w.d >= 1,
                    w.n * (-b_k.d) == b_k.n * w.d,
                    b_k.n * b_i.d <= b_i.n * b_k.d,
                    sum_raw.n == b_i.n * w.d + w.n * b_i.d,
                    sum_raw.d == b_i.d * w.d,
            ;
            crate::frac::lemma_fnorm(sum_raw);
            assert(post.b@[i]@ == fnorm(sum_raw));
        }
    };
}

/// Removing the auxiliary variable (non-basic, with the highest original
/// index) by a swap-remove of its column, then decrementing every index
/// above it, yields a well-formed dictionary one dimension smaller with
/// the same right-hand side. `s3` is the dictionary before removal, `s4`
/// after the swap-removes and the dimension decrement, `s5` after the
/// renumbering.
proof fn lemma_remove_aux_wf(s3: SlackFormLP, s4: SlackFormLP, s5: SlackFormLP, x_col: int)
    requires
        s3.wf(),
        s3.feasible(),
        s3.n >= 2,
        0 <= x_col < s3.n,
        s3.non_basic@[x_col] == s3.n - 1,
        forall|t: int| 0 <= t < s3.m() ==> s3.basic@[t] != s3.n - 1,
        s4.non_basic@ == s3.non_basic@.update(x_col, s3.non_basic@.last()).drop_last(),
        s4.basic@ == s3.basic@,
        s4.b@ == s3.b@,
        s4.v == s3.v,
        s4.n == s3.n - 1,
        s4.c@ == s3.c@.update(x_col, s3.c@.last()).drop_last(),
        s4.a@.len() == s3.m(),
        forall|t: int|
            0 <= t < s3.m() ==> (#[trigger] s4.a@[t])@ == s3.a@[t]@.update(
                x_col,
                s3.a@[t]@.last(),
            ).drop_last(),
        s5.n == s4.n,
        s5.b@ == s4.b@,
        s5.v == s4.v,
        s5.a@ == s4.a@,
        s5.c@ == s4.c@,
        s5.non_basic@.len() == s4.non_basic@.len(),
        s5.basic@.len() == s4.basic@.len(),
        forall|t: int|
            0 <= t < s4.non_basic@.len() ==> (#[trigger] s5.non_basic@[t]) as int == (if
            s4.non_basic@[t] >= s4.n {
                s4.non_basic@[t] - 1
            } else {
                s4.non_basic@[t] as int
            }),
        forall|t: int|
            0 <= t < s4.basic@.len() ==> (#[trigger] s5.basic@[t]) as int == (if s4.basic@[t]
                >= s4.n {
                s4.basic@[t] - 1
            } else {
                s4.basic@[t] as int
            }),
        forall|t: int| 0 <= t < s4.non_basic@.len() ==> s4.non_basic@[t] != s4.n,
    ensures
        s5.wf(),
        s5.feasible(),
{
    let n3 = s3.n as int;
    let nn = s4.n as int;
    let m = s3.m();
    assert(s4.non_basic@.len() == nn);
    assert forall|t: int| 0 <= t < m implies (#[trigger] s5.a@[t]@).len() == nn by {
        assert(s3.a@[t]@.len() == n3);
    };
    assert(s5.c@.len() == nn);
    assert(s5.wf_dims());
    assert forall|t: int| 0 <= t < m implies rats_wf(#[trigger] s5.a@[t]@) by {
        assert(rats_wf(s3.a@[t]@));
        assert forall|u: int| 0 <= u < nn implies (#[trigger] s5.a@[t]@[u]).wf() by {
            if u == x_col {
                assert(s5.a@[t]@[u] == s3.a@[t]@[n3 - 1]);
            } else {
                assert(s5.a@[t]@[u] == s3.a@[t]@[u]);
            }
        };
    };
    assert forall|u: int| 0 <= u < nn implies (#[trigger] s5.c@[u]).wf() by {
        if u == x_col {
            assert(s5.c@[u] == s3.c@[n3 - 1]);
        } else {
            assert(s5.c@[u] == s3.c@[u]);
        }
    };
    assert(s5.wf_rats());
    let all3 = s3.non_basic@ + s3.basic@;
    let all4 = s4.non_basic@ + s4.basic@;
    let all5 = s5.non_basic@ + s5.basic@;
    assert(all5.len() == nn + m);
    assert forall|p: int| 0 <= p < all4.len() implies all4[p] == all3[
        if p < nn {
            if p == x_col {
                n3 - 1
            } else {
                p
            }
        } else {
            p + 1
        }
    ] && all4[p] != nn by {
        if p < nn {
            assert(all4[p] == s4.non_basic@[p]);
            if p == x_col {
                assert(all3[n3 - 1] == s3.non_basic@[n3 - 1]);
            } else {
                assert(all3[p] == s3.non_basic@[p]);
            }
        } else {
            assert(all4[p] == s4.basic@[p - nn]);
            assert(all3[p + 1] == s3.basic@[p + 1 - n3]);
        }
    };
    assert forall|p: int| 0 <= p < all5.len() implies all5[p] as int == (if all4[p] >= nn {
        all4[p] - 1
    } else {
        all4[p] as int
    }) by {
        if p < nn {
            assert(all5[p] == s5.non_basic@[p] && all4[p] == s4.non_basic@[p]);
        } else {
            assert(all5[p] == s5.basic@[p - nn] && all4[p] == s4.basic@[p - nn]);
        }
    };
    assert forall|p: int, q: int|
        0 <= p < all5.len() && 0 <= q < all5.len() && p != q implies all5[p] != all5[q] by {
        let sp = if p < nn {
            if p == x_col {
                n3 - 1
            } else {
                p
            }
        } else {
            p + 1
        };
        let sq = if q < nn {
            if q == x_col {
                n3 - 1
            } else {
                q
            }
        } else {
            q + 1
        };
        assert(sp != sq);
        assert(all3[sp] != all3[sq]);
        assert(all4[p] != all4[q]);
    };
    assert(all5.no_duplicates());
    assert forall|p: int| 0 <= p < all5.len() implies all5[p] < s5.total() by {
        let sp = if p < nn {
            if p == x_col {
                n3 - 1
            } else {
                p
            }
        } else {
            p + 1
        };
        assert(all3[sp] < s3.total());
    };
    assert(s5.wf_basis());
    assert forall|i: int| 0 <= i < s5.b@.len() implies (#[trigger] s5.b@[i])@.n >= 0 by {
        assert(s3.b@[i]@.n >= 0);
    };
}

/// The raw ratio of a candidate row has a positive denominator.
proof fn lemma_delta_pos_den(s: SlackFormLP, col: int, i: int)
    requires
        0 <= i < s.m(),
        s.a@.len() == s.b@.len(),
        s.a@.len() > 0,
        rows_uniform(s.a@, s.a@[0]@.len() as int),
        0 <= col < s.a@[0]@.len(),
        rats_wf(s.b@),
        s.cand(col, i),
    ensures
        s.delta(col, i).d > 0,
{
    let b = s.b@[i]@;
    let a = s.a@[i]@[col]@;
    assert(b.d * (-a.n) > 0) by (nonlinear_arith)
        requires
            b.d > 0,
            a.n < 0,
    ;
}

} // verus!
