use crate::frac::fint;
use crate::slack::{aux_run, aux_value_zero, runs_to, InitializationResult, SimplexResult,
    SlackFormLP};
use crate::utils::rats_wf;
use vstd::prelude::*;

verus! {

/// Solves a slack-form linear program by the two-phase simplex method of
/// Chvatal: initialization first, then the Bland's-rule main loop. An
/// infeasible initialization is an `Unfeasible` result, not an error; a
/// returned optimum is the basic solution of a feasible final dictionary
/// in which no improving column remains.
pub fn simplex_lp_chvatal(slack_lp: &mut SlackFormLP) -> (r: Result<SimplexResult, String>)
    requires
        old(slack_lp).wf(),
        old(slack_lp).total() < usize::MAX,
        forall|j: int| 0 <= j < old(slack_lp).n ==> old(slack_lp).non_basic@[j] == j,
        forall|i: int| 0 <= i < old(slack_lp).m() ==> old(slack_lp).basic@[i] == old(slack_lp).n
            + i,
    ensures
        final(slack_lp).wf(),
        final(slack_lp).b@.len() == old(slack_lp).b@.len(),
        old(slack_lp).feasible() ==> !(r matches Ok(res) && res is Unfeasible),
        r matches Ok(res) ==> (res matches SimplexResult::Optimal(x) ==> {
            &&& final(slack_lp).feasible()
            &&& final(slack_lp).n == old(slack_lp).n
            &&& x@.len() == final(slack_lp).n
            &&& rats_wf(x@)
            &&& forall|t: int|
                0 <= t < final(slack_lp).c@.len() ==> !final(slack_lp).pos_col(t)
            &&& forall|j: int|
                0 <= j < final(slack_lp).m() && final(slack_lp).basic@[j] < final(slack_lp).n
                    ==> x@[final(slack_lp).basic@[j] as int] == final(slack_lp).b@[j]
            &&& forall|k: int|
                0 <= k < final(slack_lp).n && (forall|j: int|
                    0 <= j < final(slack_lp).m() ==> final(slack_lp).basic@[j] != k) ==> (
                #[trigger] x@[k])@ == fint(0)
        }),
        r matches Ok(res) ==> (res is Unbounded ==> exists|t: int|
            0 <= t < final(slack_lp).c@.len() && #[trigger] final(slack_lp).pos_col(t)
                && !(final(slack_lp).has_cand(t))),
        r matches Err(e) ==> e@ == "Exact rational arithmetic overflow."@ || e@
            == "Simplex round limit exceeded."@ || e@
            == "All values at degenerated row equal zero, this should not happen."@ || e@
            == "Sup x variable has not been found in non basic variable, this should not happen"@,
        old(slack_lp).feasible() ==> (r is Ok <==> (exists|f: SlackFormLP, o: bool, fl: nat|
            fl < u64::MAX && #[trigger] runs_to(*old(slack_lp), f, o, fl))),
        old(slack_lp).feasible() ==> (r matches Ok(res) ==> (exists|o: bool, fl: nat|
            fl < u64::MAX && #[trigger] runs_to(*old(slack_lp), *final(slack_lp), o, fl) && (o
                <==> res is Optimal))),
        (!old(slack_lp).feasible() && (exists|f: SlackFormLP, o: bool, fl: nat|
            fl < u64::MAX && #[trigger] aux_run(*old(slack_lp), f, o, fl) && (!o
                || !aux_value_zero(f)))) ==> r == Ok::<SimplexResult, String>(
            SimplexResult::Unfeasible,
        ),
        !old(slack_lp).feasible() ==> (r == Ok::<SimplexResult, String>(SimplexResult::Unfeasible)
            ==> (exists|f: SlackFormLP, o: bool, fl: nat|
            fl < u64::MAX && #[trigger] aux_run(*old(slack_lp), f, o, fl) && (!o
                || !aux_value_zero(f)))),
        !old(slack_lp).feasible() ==> (r matches Ok(res) ==> (!(res is Unfeasible) ==> (exists|
            f: SlackFormLP,
            fl: nat,
        |
            fl < u64::MAX && #[trigger] aux_run(*old(slack_lp), f, true, fl) && aux_value_zero(
                f,
            )))),
{
    let init_result = match slack_lp.initialize_simplex() {
        Ok(res) => res,
        Err(e) => {
            return Err(e);
        },
    };

    match init_result {
        InitializationResult::Unfeasible => Ok(SimplexResult::Unfeasible),
        InitializationResult::Done => slack_lp.find_optimal(),
    }
}

} // verus!
