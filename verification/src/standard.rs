use crate::frac::{feq, fint, fneg};
use crate::rat::Rat;
use crate::slack::SlackFormLP;
use crate::utils::{is_uniq_sorted, mismatch_message, rats_wf, rows_uniform, rows_wf, uniq_sorted};
use vstd::prelude::*;

verus! {

broadcast use vstd::string::group_string_axioms;

/// A linear program in standard form: maximize `c . x` subject to
/// `a . x <= b` with every variable constrained to be nonnegative. When
/// free variables were split by the builder, `non_negative_indices` lists
/// their original positions so the caller can recombine the solution.
#[derive(Debug, PartialEq, Clone)]
pub struct StandardFormLP {
    /// Objective coefficients, length `n`.
    pub c: Vec<Rat>,
    /// Reserved solution storage; empty until a solution is attached.
    pub x: Vec<Rat>,
    /// Constraint matrix, `m` rows of length `n`.
    pub a: Vec<Vec<Rat>>,
    /// Right-hand side, length `m`.
    pub b: Vec<Rat>,
    /// Positions of the split free variables, sorted and unique.
    pub non_negative_indices: Option<Vec<usize>>,
}

/// The shape every constructed linear program satisfies: nonempty data with
/// agreeing dimensions.
pub open spec fn lp_shape_ok(c: Seq<Rat>, a: Seq<Vec<Rat>>, b: Seq<Rat>) -> bool {
    &&& a.len() > 0
    &&& b.len() > 0
    &&& c.len() > 0
    &&& rows_uniform(a, c.len() as int)
    &&& a.len() == b.len()
}

/// Validates an optional list of free-variable positions: when present it
/// must be nonempty, strictly increasing, and (when a dimension is given)
/// bounded by that dimension.
pub fn check_non_negative_indices(
    non_negative_indices: &Option<Vec<usize>>,
    max_dim: Option<usize>,
) -> (r: Result<(), String>)
    ensures
        non_negative_indices is None ==> r is Ok,
        non_negative_indices matches Some(nni) ==> ({
            if nni@.len() == 0 {
                r matches Err(e) && e@
                    == "It is not allowed to add an empty array of non negative indices."@
            } else if !uniq_sorted(nni@) {
                r matches Err(e) && e@
                    == "Non negative indices vector must be unique and sorted in ascending order."@
            } else if max_dim matches Some(dim) && nni@[nni@.len() - 1] >= dim {
                r matches Err(e) && e@
                    == "Non negative indices are out of bound of the dimension size."@
            } else {
                r is Ok
            }
        }),
{
    if let Some(nni) = non_negative_indices {
        if nni.len() == 0 {
            return Err(
                "It is not allowed to add an empty array of non negative indices.".to_string(),
            );
        }
        if !is_uniq_sorted(nni) {
            return Err(
                "Non negative indices vector must be unique and sorted in ascending order."
                    .to_string(),
            );
        }
        if let Some(dim) = max_dim {
            if nni[nni.len() - 1] >= dim {
                return Err(
                    "Non negative indices are out of bound of the dimension size.".to_string(),
                );
            }
        }
    }
    Ok(())
}

impl StandardFormLP {
    /// Builds a standard-form program after checking every shape guard:
    /// nonempty data, agreeing dimensions, and a valid free-variable list
    /// whose doubled length fits the (already split) objective.
    pub fn new(
        c: Vec<Rat>,
        a: Vec<Vec<Rat>>,
        b: Vec<Rat>,
        non_negative_indices: Option<Vec<usize>>,
    ) -> (r: Result<StandardFormLP, String>)
        ensures
            ({
                if a@.len() == 0 {
                    r matches Err(e) && e@ == "Matrix 'a' should not be empty"@
                } else if b@.len() == 0 {
                    r matches Err(e) && e@ == "Vector 'b' should not be empty"@
                } else if c@.len() == 0 {
                    r matches Err(e) && e@ == "Vector 'c' should not be empty"@
                } else if c@.len() != a@[0]@.len() {
                    r is Err
                } else if !rows_uniform(a@, c@.len() as int) {
                    r matches Err(e) && e@
                        == "Each and every row in the matrix 'a' should have the same size"@
                } else if a@.len() != b@.len() {
                    r is Err
                } else {
                    match non_negative_indices {
                        Some(nni) => {
                            if 2 * nni@.len() > c@.len() {
                                r matches Err(e) && e@
                                    == "Cannot be more non negative indices than the dimension size."@
                            } else if nni@.len() == 0 {
                                r matches Err(e) && e@
                                    == "It is not allowed to add an empty array of non negative indices."@
                            } else if !uniq_sorted(nni@) {
                                r matches Err(e) && e@
                                    == "Non negative indices vector must be unique and sorted in ascending order."@
                            } else if nni@[nni@.len() - 1] + nni@.len() >= c@.len() {
                                r matches Err(e) && e@
                                    == "Non negative indices are out of bound of the dimension size."@
                            } else {
                                r matches Ok(lp) && lp.c@ == c@ && lp.a@ == a@ && lp.b@ == b@
                                    && lp.x@.len() == 0 && (lp.non_negative_indices matches Some(m)
                                    && m@ == nni@)
                            }
                        },
                        None => {
                            r matches Ok(lp) && lp.c@ == c@ && lp.a@ == a@ && lp.b@ == b@
                                && lp.x@.len() == 0 && lp.non_negative_indices is None
                        },
                    }
                }
            }),
    {
        if a.len() == 0 {
            return Err("Matrix 'a' should not be empty".to_string());
        }
        if b.len() == 0 {
            return Err("Vector 'b' should not be empty".to_string());
        }
        if c.len() == 0 {
            return Err("Vector 'c' should not be empty".to_string());
        }
        if c.len() != a[0].len() {
            return Err(
                mismatch_message(
                    "Matrix 'a' rows count does not match with vector 'c' size",
                    a[0].len(),
                    c.len(),
                ),
            );
        }
        let mut i: usize = 0;
        while i < a.len()
            invariant
                0 <= i <= a@.len(),
                a@.len() > 0,
                b@.len() > 0,
                c@.len() > 0,
                c@.len() == a@[0]@.len(),
                forall|k: int| 0 <= k < i ==> (#[trigger] a@[k]@).len() == c@.len(),
            decreases a@.len() - i,
        {
            if a[i].len() != c.len() {
                assert(a@[i as int]@.len() != c@.len());
                assert(!rows_uniform(a@, c@.len() as int));
                return Err(
                    "Each and every row in the matrix 'a' should have the same size".to_string(),
                );
            }
            i += 1;
        }
        if a.len() != b.len() {
            return Err(
                mismatch_message(
                    "Matrix 'a' columns count does not match with vector 'b' size",
                    a.len(),
                    b.len(),
                ),
            );
        }
        let non_negative_indices = if let Some(nni) = non_negative_indices {
            let nni_len = nni.len();
            if nni_len > c.len() / 2 {
                assert(2 * nni@.len() > c@.len());
                return Err(
                    "Cannot be more non negative indices than the dimension size.".to_string(),
                );
            }
            assert(2 * nni@.len() <= c@.len());
            let nni_opt = Some(nni);
            match check_non_negative_indices(&nni_opt, Some(c.len() - nni_len)) {
                Ok(_) => {},
                Err(e) => {
                    return Err(e);
                },
            }
            nni_opt
        } else {
            None
        };
        let x: Vec<Rat> = Vec::new();
        Ok(StandardFormLP { c, x, a, b, non_negative_indices })
    }

    /// Hands out the stored solution vector, consuming the program.
    pub fn get_x(self) -> (r: Vec<Rat>)
        ensures
            r@ == self.x@,
    {
        self.x
    }

    /// A copy of the stored solution vector.
    pub fn get_x_clone(&self) -> (r: Vec<Rat>)
        ensures
            r@ == self.x@,
    {
        let mut r: Vec<Rat> = Vec::new();
        let mut i: usize = 0;
        while i < self.x.len()
            invariant
                0 <= i <= self.x@.len(),
                r@ == self.x@.take(i as int),
            decreases self.x@.len() - i,
        {
            r.push(self.x[i]);
            proof {
                assert(r@ =~= self.x@.take(i + 1));
            }
            i += 1;
        }
        proof {
            assert(r@ =~= self.x@);
        }
        r
    }

    /// Moves the program into slack form: the constraint matrix is negated
    /// into the dictionary convention and slack variables take the basis.
    pub fn into_slack_form(self) -> (r: Result<SlackFormLP, String>)
        requires
            rows_wf(self.a@),
            self.c@.len() + self.b@.len() <= usize::MAX,
        ensures
            r is Ok <==> lp_shape_ok(self.c@, self.a@, self.b@),
            r matches Ok(s) ==> {
                &&& s.n == self.c@.len()
                &&& s.b@ == self.b@
                &&& s.c@ == self.c@
                &&& s.a@.len() == self.a@.len()
                &&& forall|i: int|
                    0 <= i < self.a@.len() ==> (#[trigger] s.a@[i]@).len() == self.a@[i]@.len()
                &&& forall|i: int, j: int|
                    0 <= i < self.a@.len() && 0 <= j < self.a@[i]@.len() ==> (
                    #[trigger] s.a@[i]@[j])@ == fneg(self.a@[i]@[j]@) && s.a@[i]@[j].wf()
                &&& s.v@ == fint(0)
                &&& s.v.wf()
                &&& forall|j: int| 0 <= j < s.n ==> s.non_basic@[j] == j
                &&& forall|i: int| 0 <= i < s.b@.len() ==> s.basic@[i] == s.n + i
                &&& s.wf_dims()
                &&& s.wf_basis()
            },
    {
        let mut neg_a: Vec<Vec<Rat>> = Vec::new();
        let mut i: usize = 0;
        while i < self.a.len()
            invariant
                0 <= i <= self.a@.len(),
                rows_wf(self.a@),
                neg_a@.len() == i,
                forall|k: int|
                    0 <= k < i ==> (#[trigger] neg_a@[k]@).len() == self.a@[k]@.len(),
                forall|k: int, j: int|
                    0 <= k < i && 0 <= j < self.a@[k]@.len() ==> (#[trigger] neg_a@[k]@[j])@
                        == fneg(self.a@[k]@[j]@) && neg_a@[k]@[j].wf(),
            decreases self.a@.len() - i,
        {
            let row = &self.a[i];
            let mut neg_row: Vec<Rat> = Vec::new();
            let mut j: usize = 0;
            while j < row.len()
                invariant
                    0 <= j <= row@.len(),
                    rats_wf(row@),
                    neg_row@.len() == j,
                    forall|t: int|
                        0 <= t < j ==> (#[trigger] neg_row@[t])@ == fneg(row@[t]@)
                            && neg_row@[t].wf(),
                decreases row@.len() - j,
            {
                neg_row.push(row[j].neg());
                j += 1;
            }
            neg_a.push(neg_row);
            i += 1;
        }
        proof {
            let n = self.c@.len() as int;
            if rows_uniform(self.a@, n) {
                assert forall|k: int| 0 <= k < neg_a@.len() implies (#[trigger] neg_a@[k]@).len()
                    == n by {
                    assert(self.a@[k]@.len() == n);
                };
            }
            if rows_uniform(neg_a@, n) {
                assert forall|k: int| 0 <= k < self.a@.len() implies (#[trigger] self.a@[k]@).len()
                    == n by {
                    assert(neg_a@[k]@.len() == n);
                };
            }
            if self.a@.len() > 0 {
                assert(neg_a@[0]@.len() == self.a@[0]@.len());
            }
        }
        SlackFormLP::new(neg_a, self.b, self.c)
    }
}

} // verus!
