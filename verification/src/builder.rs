use crate::frac::fneg;
use crate::rat::Rat;
use crate::standard::{check_non_negative_indices, StandardFormLP};
use crate::utils::{all_zero, all_zeroes, rats_wf, rows_uniform, uniq_sorted};
use vstd::prelude::*;

verus! {

broadcast use vstd::string::group_string_axioms;

/// Builds a standard-form linear program from user-supplied pieces: one
/// objective (min or max), any number of constraints, and optionally the
/// positions of free variables. A min objective is stored negated; an
/// equality constraint becomes a pair of opposite inequalities; a
/// greater-or-equal constraint is stored negated. At `build()` each free
/// variable is split into a difference of two nonnegative ones by
/// duplicating its column.
#[derive(Debug, PartialEq, Clone)]
pub struct StandardFormBuilder {
    /// The objective coefficients, once one was added.
    pub c: Option<Vec<Rat>>,
    /// The constraint rows added so far.
    pub a: Option<Vec<Vec<Rat>>>,
    /// The right-hand sides added so far.
    pub b: Vec<Rat>,
    /// Positions of the free variables, once declared.
    pub non_negative_indices: Option<Vec<usize>>,
    /// The dimension every added vector must match, fixed by the first one.
    pub dimension_size: Option<usize>,
}

impl StandardFormBuilder {
    /// Whether an added vector of length `current` passes the dimension
    /// guards in the state `pre`.
    pub open spec fn dim_ok(pre: StandardFormBuilder, current: int) -> bool {
        &&& current != 0
        &&& (pre.non_negative_indices matches Some(nni) ==> nni@[nni@.len() - 1] < current)
        &&& (pre.dimension_size matches Some(size) ==> size == current)
    }

    /// The dimension-guard error for an added vector of length `current` in
    /// the state `pre`, as a predicate on the returned message.
    pub open spec fn dim_err(pre: StandardFormBuilder, current: int, e: Seq<char>) -> bool {
        if current == 0 {
            e == "It is not possible to add an empty vector."@
        } else if pre.non_negative_indices matches Some(nni) && nni@[nni@.len() - 1] >= current {
            e == "Non negative indices are out of bound of the added vector."@
        } else {
            e == "The added vector does not match the current dimension size."@
        }
    }

    /// An empty builder: no objective, no constraints, no free variables,
    /// no fixed dimension.
    pub fn new() -> (r: StandardFormBuilder)
        ensures
            r.c is None,
            r.a is None,
            r.b@.len() == 0,
            r.non_negative_indices is None,
            r.dimension_size is None,
    {
        StandardFormBuilder {
            c: None,
            a: None,
            b: Vec::new(),
            non_negative_indices: None,
            dimension_size: None,
        }
    }

    /// The stored objective.
    pub fn get_c(&self) -> (r: &Option<Vec<Rat>>)
        ensures
            *r == self.c,
    {
        &self.c
    }

    /// The stored constraint rows.
    pub fn get_a(&self) -> (r: &Option<Vec<Vec<Rat>>>)
        ensures
            *r == self.a,
    {
        &self.a
    }

    /// The stored right-hand sides.
    pub fn get_b(&self) -> (r: &Vec<Rat>)
        ensures
            *r == self.b,
    {
        &self.b
    }

    /// The stored free-variable positions.
    pub fn get_non_negative_indices(&self) -> (r: &Option<Vec<usize>>)
        ensures
            *r == self.non_negative_indices,
    {
        &self.non_negative_indices
    }

    /// The fixed dimension, once any vector was added.
    pub fn get_dimension_size(&self) -> (r: &Option<usize>)
        ensures
            *r == self.dimension_size,
    {
        &self.dimension_size
    }

    /// Guards an added vector of length `current`: it must be nonempty,
    /// large enough for the declared free-variable positions, and equal to
    /// the fixed dimension; the first added vector fixes the dimension.
    fn check_dimension_size(&mut self, current: usize) -> (r: Result<(), String>)
        requires
            old(self).non_negative_indices matches Some(v) ==> v@.len() > 0,
        ensures
            r is Ok <==> Self::dim_ok(*old(self), current as int),
            r is Ok ==> *final(self) == (StandardFormBuilder {
                dimension_size: Some(current),
                ..*old(self)
            }),
            r matches Err(e) ==> *final(self) == *old(self) && Self::dim_err(
                *old(self),
                current as int,
                e@,
            ),
    {
        if current == 0 {
            return Err("It is not possible to add an empty vector.".to_string());
        }
        if let Some(nni) = &self.non_negative_indices {
            if nni[nni.len() - 1] >= current {
                return Err(
                    "Non negative indices are out of bound of the added vector.".to_string(),
                );
            }
        }
        if let Some(size) = self.dimension_size {
            if size == current {
                Ok(())
            } else {
                Err("The added vector does not match the current dimension size.".to_string())
            }
        } else {
            self.dimension_size = Some(current);
            Ok(())
        }
    }

    /// Rejects a second objective.
    fn check_objective_added(&self) -> (r: Result<(), String>)
        ensures
            r is Ok <==> self.c is None,
            r matches Err(e) ==> e@ == "Objective function is already added."@,
    {
        if self.c.is_some() {
            return Err("Objective function is already added.".to_string());
        }
        Ok(())
    }

    /// Rejects an all-zero objective.
    fn check_objective_not_zeroes(&self, objective: &Vec<Rat>) -> (r: Result<(), String>)
        ensures
            r is Ok <==> !all_zero(objective@),
            r matches Err(e) ==> e@
                == "It is not possible to add objective with only zero values."@,
    {
        if all_zeroes(objective) {
            return Err("It is not possible to add objective with only zero values.".to_string());
        }
        Ok(())
    }

    /// Rejects an all-zero constraint row.
    fn check_constraint_not_zeroes(&self, a: &Vec<Rat>) -> (r: Result<(), String>)
        ensures
            r is Ok <==> !all_zero(a@),
            r matches Err(e) ==> e@
                == "It is not possible to add constraint with only zero values."@,
    {
        if all_zeroes(a) {
            return Err("It is not possible to add constraint with only zero values.".to_string());
        }
        Ok(())
    }

    /// Adds a minimization objective, stored negated so that maximizing
    /// the stored coefficients minimizes the given ones.
    pub fn add_min_objective(self, c: Vec<Rat>) -> (r: Result<StandardFormBuilder, String>)
        requires
            rats_wf(c@),
            self.non_negative_indices matches Some(v) ==> v@.len() > 0,
        ensures
            ({
                if self.c is Some {
                    r matches Err(e) && e@ == "Objective function is already added."@
                } else if !Self::dim_ok(self, c@.len() as int) {
                    r matches Err(e) && Self::dim_err(self, c@.len() as int, e@)
                } else if all_zero(c@) {
                    r matches Err(e) && e@
                        == "It is not possible to add objective with only zero values."@
                } else {
                    r matches Ok(b2) && (b2.c matches Some(sc) && sc@.len() == c@.len() && (forall|
                        j: int,
                    |
                        0 <= j < c@.len() ==> (#[trigger] sc@[j])@ == fneg(c@[j]@) && sc@[j].wf()))
                        && b2.a == self.a && b2.b == self.b && b2.non_negative_indices
                        == self.non_negative_indices && b2.dimension_size == Some(c@.len() as usize)
                }
            }),
    {
        let mut this = self;
        match this.check_objective_added() {
            Ok(_) => {},
            Err(e) => {
                return Err(e);
            },
        }
        match this.check_dimension_size(c.len()) {
            Ok(_) => {},
            Err(e) => {
                return Err(e);
            },
        }
        match this.check_objective_not_zeroes(&c) {
            Ok(_) => {},
            Err(e) => {
                return Err(e);
            },
        }
        let mut minus_c: Vec<Rat> = Vec::new();
        let mut j: usize = 0;
        while j < c.len()
            invariant
                rats_wf(c@),
                0 <= j <= c@.len(),
                minus_c@.len() == j,
                forall|t: int|
                    0 <= t < j ==> (#[trigger] minus_c@[t])@ == fneg(c@[t]@) && minus_c@[t].wf(),
            decreases c@.len() - j,
        {
            minus_c.push(c[j].neg());
            j += 1;
        }
        this.c = Some(minus_c);
        Ok(this)
    }

    /// Adds a maximization objective, stored as given.
    pub fn add_max_objective(self, c: Vec<Rat>) -> (r: Result<StandardFormBuilder, String>)
        requires
            self.non_negative_indices matches Some(v) ==> v@.len() > 0,
        ensures
            ({
                if self.c is Some {
                    r matches Err(e) && e@ == "Objective function is already added."@
                } else if !Self::dim_ok(self, c@.len() as int) {
                    r matches Err(e) && Self::dim_err(self, c@.len() as int, e@)
                } else if all_zero(c@) {
                    r matches Err(e) && e@
                        == "It is not possible to add objective with only zero values."@
                } else {
                    r matches Ok(b2) && (b2.c matches Some(sc) && sc@ == c@) && b2.a == self.a
                        && b2.b == self.b && b2.non_negative_indices == self.non_negative_indices
                        && b2.dimension_size == Some(c@.len() as usize)
                }
            }),
    {
        let mut this = self;
        match this.check_objective_added() {
            Ok(_) => {},
            Err(e) => {
                return Err(e);
            },
        }
        match this.check_dimension_size(c.len()) {
            Ok(_) => {},
            Err(e) => {
                return Err(e);
            },
        }
        match this.check_objective_not_zeroes(&c) {
            Ok(_) => {},
            Err(e) => {
                return Err(e);
            },
        }
        this.c = Some(c);
        Ok(this)
    }

    /// Declares the positions of the free variables: nonempty, strictly
    /// increasing, within the fixed dimension, and only once.
    pub fn add_non_negative_indices(self, nni: Vec<usize>) -> (r: Result<
        StandardFormBuilder,
        String,
    >)
        ensures
            ({
                if nni@.len() == 0 {
                    r matches Err(e) && e@
                        == "It is not allowed to add an empty array of non negative indices."@
                } else if !uniq_sorted(nni@) {
                    r matches Err(e) && e@
                        == "Non negative indices vector must be unique and sorted in ascending order."@
                } else if self.dimension_size matches Some(dim) && nni@[nni@.len() - 1] >= dim {
                    r matches Err(e) && e@
                        == "Non negative indices are out of bound of the dimension size."@
                } else if self.non_negative_indices is Some {
                    r matches Err(e) && e@ == "Non negative indices have already been set."@
                } else {
                    r matches Ok(b2) && (b2.non_negative_indices matches Some(v) && v@ == nni@)
                        && b2.c == self.c && b2.a == self.a && b2.b == self.b && b2.dimension_size
                        == self.dimension_size
                }
            }),
    {
        let mut this = self;
        let nni_opt = Some(nni);
        match check_non_negative_indices(&nni_opt, this.dimension_size) {
            Ok(_) => {},
            Err(e) => {
                return Err(e);
            },
        }
        if this.non_negative_indices.is_none() {
            this.non_negative_indices = nni_opt;
            Ok(this)
        } else {
            Err("Non negative indices have already been set.".to_string())
        }
    }

    /// Adds the equality constraint `a . x = b` as the pair of inequalities
    /// `a . x <= b` and `-a . x <= -b`.
    pub fn add_equality_constraint(self, a: Vec<Rat>, b: Rat) -> (r: Result<
        StandardFormBuilder,
        String,
    >)
        requires
            rats_wf(a@),
            b.wf(),
            self.non_negative_indices matches Some(v) ==> v@.len() > 0,
        ensures
            ({
                if !Self::dim_ok(self, a@.len() as int) {
                    r matches Err(e) && Self::dim_err(self, a@.len() as int, e@)
                } else if all_zero(a@) {
                    r matches Err(e) && e@
                        == "It is not possible to add constraint with only zero values."@
                } else {
                    r matches Ok(b2) && {
                        let old_rows: Seq<Vec<Rat>> = match self.a {
                            Some(rows) => rows@,
                            None => Seq::empty(),
                        };
                        &&& b2.a matches Some(rows2) && rows2@.len() == old_rows.len() + 2 && (
                        forall|t: int|
                            0 <= t < old_rows.len() ==> rows2@[t] == old_rows[t]) && rows2@[
                            old_rows.len() as int]@ == a@ && (rows2@[old_rows.len() as int + 1]@.len()
                            == a@.len() && (forall|t: int|
                            0 <= t < a@.len() ==> (#[trigger] rows2@[old_rows.len() as int + 1]@[t])@
                                == fneg(a@[t]@)))
                        &&& b2.b@.len() == self.b@.len() + 2
                        &&& forall|t: int| 0 <= t < self.b@.len() ==> b2.b@[t] == self.b@[t]
                        &&& b2.b@[self.b@.len() as int] == b
                        &&& b2.b@[self.b@.len() as int + 1]@ == fneg(b@)
                        &&& b2.c == self.c
                        &&& b2.non_negative_indices == self.non_negative_indices
                        &&& b2.dimension_size == Some(a@.len() as usize)
                    }
                }
            }),
    {
        let mut this = self;
        match this.check_dimension_size(a.len()) {
            Ok(_) => {},
            Err(e) => {
                return Err(e);
            },
        }
        match this.check_constraint_not_zeroes(&a) {
            Ok(_) => {},
            Err(e) => {
                return Err(e);
            },
        }
        let mut minus_a: Vec<Rat> = Vec::new();
        let mut j: usize = 0;
        while j < a.len()
            invariant
                rats_wf(a@),
                0 <= j <= a@.len(),
                minus_a@.len() == j,
                forall|t: int| 0 <= t < j ==> (#[trigger] minus_a@[t])@ == fneg(a@[t]@),
            decreases a@.len() - j,
        {
            minus_a.push(a[j].neg());
            j += 1;
        }
        let mut rows = match this.a {
            Some(mat) => mat,
            None => Vec::new(),
        };
        this.a = None;
        rows.push(a);
        rows.push(minus_a);
        this.a = Some(rows);
        this.b.push(b);
        this.b.push(b.neg());
        Ok(this)
    }

    /// Adds the constraint `a . x <= b` as given.
    pub fn add_less_than_or_equal_constraint(self, a: Vec<Rat>, b: Rat) -> (r: Result<
        StandardFormBuilder,
        String,
    >)
        requires
            self.non_negative_indices matches Some(v) ==> v@.len() > 0,
        ensures
            ({
                if !Self::dim_ok(self, a@.len() as int) {
                    r matches Err(e) && Self::dim_err(self, a@.len() as int, e@)
                } else if all_zero(a@) {
                    r matches Err(e) && e@
                        == "It is not possible to add constraint with only zero values."@
                } else {
                    r matches Ok(b2) && {
                        let old_rows: Seq<Vec<Rat>> = match self.a {
                            Some(rows) => rows@,
                            None => Seq::empty(),
                        };
                        &&& b2.a matches Some(rows2) && rows2@ == old_rows.push(a)
                        &&& b2.b@ == self.b@.push(b)
                        &&& b2.c == self.c
                        &&& b2.non_negative_indices == self.non_negative_indices
                        &&& b2.dimension_size == Some(a@.len() as usize)
                    }
                }
            }),
    {
        let mut this = self;
        match this.check_dimension_size(a.len()) {
            Ok(_) => {},
            Err(e) => {
                return Err(e);
            },
        }
        match this.check_constraint_not_zeroes(&a) {
            Ok(_) => {},
            Err(e) => {
                return Err(e);
            },
        }
        let mut rows = match this.a {
            Some(mat) => mat,
            None => Vec::new(),
        };
        this.a = None;
        rows.push(a);
        this.a = Some(rows);
        this.b.push(b);
        Ok(this)
    }

    /// Adds the constraint `a . x >= b`, stored as `-a . x <= -b`.
    pub fn add_greater_than_or_equal_constraint(self, a: Vec<Rat>, b: Rat) -> (r: Result<
        StandardFormBuilder,
        String,
    >)
        requires
            rats_wf(a@),
            b.wf(),
            self.non_negative_indices matches Some(v) ==> v@.len() > 0,
        ensures
            ({
                if !Self::dim_ok(self, a@.len() as int) {
                    r matches Err(e) && Self::dim_err(self, a@.len() as int, e@)
                } else if all_zero(a@) {
                    r matches Err(e) && e@
                        == "It is not possible to add constraint with only zero values."@
                } else {
                    r matches Ok(b2) && {
                        let old_rows: Seq<Vec<Rat>> = match self.a {
                            Some(rows) => rows@,
                            None => Seq::empty(),
                        };
                        &&& b2.a matches Some(rows2) && rows2@.len() == old_rows.len() + 1 && (
                        forall|t: int|
                            0 <= t < old_rows.len() ==> rows2@[t] == old_rows[t]) && (rows2@[
                            old_rows.len() as int]@.len() == a@.len() && (forall|t: int|
                            0 <= t < a@.len() ==> (#[trigger] rows2@[old_rows.len() as int]@[t])@
                                == fneg(a@[t]@)))
                        &&& b2.b@.len() == self.b@.len() + 1
                        &&& forall|t: int| 0 <= t < self.b@.len() ==> b2.b@[t] == self.b@[t]
                        &&& b2.b@[self.b@.len() as int]@ == fneg(b@)
                        &&& b2.c == self.c
                        &&& b2.non_negative_indices == self.non_negative_indices
                        &&& b2.dimension_size == Some(a@.len() as usize)
                    }
                }
            }),
    {
        let mut this = self;
        match this.check_dimension_size(a.len()) {
            Ok(_) => {},
            Err(e) => {
                return Err(e);
            },
        }
        match this.check_constraint_not_zeroes(&a) {
            Ok(_) => {},
            Err(e) => {
                return Err(e);
            },
        }
        let mut minus_a: Vec<Rat> = Vec::new();
        let mut j: usize = 0;
        while j < a.len()
            invariant
                rats_wf(a@),
                0 <= j <= a@.len(),
                minus_a@.len() == j,
                forall|t: int| 0 <= t < j ==> (#[trigger] minus_a@[t])@ == fneg(a@[t]@),
            decreases a@.len() - j,
        {
            minus_a.push(a[j].neg());
            j += 1;
        }
        let mut rows = match this.a {
            Some(mat) => mat,
            None => Vec::new(),
        };
        this.a = None;
        rows.push(minus_a);
        this.a = Some(rows);
        this.b.push(b.neg());
        Ok(this)
    }

    /// Compiles the collected pieces into a standard-form program,
    /// duplicating the column and objective entry of every free variable to
    /// realize its split into a difference of nonnegative variables.
    pub fn build(self) -> (r: Result<StandardFormLP, String>)
        requires
            self.non_negative_indices matches Some(nni) ==> (self.c matches Some(c) ==> forall|
                t: int,
            |
                0 <= t < nni@.len() ==> nni@[t] < c@.len()),
        ensures
            self.c is None ==> (r matches Err(e) && e@
                == "Cannot build standard form for LP problem, missing objective function."@),
            self.c is Some && self.a is None ==> (r matches Err(e) && e@
                == "Cannot build standard form for LP problem, missing constraints."@),
            ({
                &&& self.c matches Some(c0) && c0@.len() > 0
                &&& self.a matches Some(rows) && rows@.len() > 0 && rows@.len() == self.b@.len()
                    && rows_uniform(rows@, self.c.unwrap()@.len() as int)
                &&& match self.non_negative_indices {
                    Some(nni) => nni@.len() > 0 && uniq_sorted(nni@),
                    None => true,
                }
            }) ==> r is Ok,
            r matches Ok(lp) ==> ({
                let c0 = self.c.unwrap()@;
                let a0 = self.a.unwrap()@;
                let k = match self.non_negative_indices {
                    Some(nni) => nni@.len(),
                    None => 0,
                };
                &&& lp.c@.len() == c0.len() + k
                &&& forall|t: int| 0 <= t < c0.len() ==> lp.c@[t] == c0[t]
                &&& (self.non_negative_indices matches Some(nni) ==> forall|t: int|
                    0 <= t < nni@.len() ==> lp.c@[c0.len() + t] == c0[nni@[t] as int])
                &&& lp.a@.len() == a0.len()
                &&& forall|i: int|
                    0 <= i < a0.len() ==> (#[trigger] lp.a@[i]@).len() == a0[i]@.len() + k
                        && (forall|t: int| 0 <= t < a0[i]@.len() ==> lp.a@[i]@[t] == a0[i]@[t])
                &&& (self.non_negative_indices matches Some(nni) ==> forall|i: int, t: int|
                    0 <= i < a0.len() && 0 <= t < nni@.len() ==> (#[trigger] lp.a@[i]@[a0[i]@.len()
                        + t]) == a0[i]@[nni@[t] as int])
                &&& lp.b@ == self.b@
                &&& (self.non_negative_indices matches Some(nni2) ==> lp.non_negative_indices
                    matches Some(v2) && v2@ == nni2@)
                &&& (self.non_negative_indices is None ==> lp.non_negative_indices is None)
            }),
    {
        let mut c = match self.c {
            Some(c) => c,
            None => {
                return Err(
                    "Cannot build standard form for LP problem, missing objective function."
                        .to_string(),
                );
            },
        };
        let mut a = match self.a {
            Some(a) => a,
            None => {
                return Err(
                    "Cannot build standard form for LP problem, missing constraints.".to_string(),
                );
            },
        };
        if a.len() == 0 {
            return Err("The impossible happened, matrix 'a' is empty.".to_string());
        }
        if a[0].len() == 0 {
            return Err("The impossible happened, row is matrix 'a' is empty.".to_string());
        }
        let mut i: usize = 0;
        while i < a.len()
            invariant
                self.c matches Some(sc) && c@ == sc@,
                self.a matches Some(sa) && a@ == sa@,
                0 <= i <= a@.len(),
                forall|t: int| 0 <= t < i ==> (#[trigger] a@[t]@).len() == c@.len(),
            decreases a@.len() - i,
        {
            if a[i].len() != c.len() {
                return Err(
                    "The impossible happened, there is a mismatch between row in matrix 'a' and vector 'c'."
                        .to_string(),
                );
            }
            i += 1;
        }
        let b = self.b;
        if b.len() == 0 {
            return Err("The impossible happened, vector 'b' is empty.".to_string());
        }
        if a.len() != b.len() {
            return Err(
                "The impossible happened, there is a mismatch between the matrix 'a' and the vector 'b'."
                    .to_string(),
            );
        }
        let ghost c0 = c@;
        let ghost a0 = a@;
        if let Some(nni) = &self.non_negative_indices {
            let mut t: usize = 0;
            while t < nni.len()
                invariant
                    0 <= t <= nni@.len(),
                    forall|u: int| 0 <= u < nni@.len() ==> nni@[u] < c0.len(),
                    c@.len() == c0.len() + t,
                    forall|u: int| 0 <= u < c0.len() ==> c@[u] == c0[u],
                    forall|u: int| 0 <= u < t ==> c@[c0.len() + u] == c0[nni@[u] as int],
                    a@.len() == a0.len(),
                    forall|i2: int|
                        0 <= i2 < a0.len() ==> (#[trigger] a@[i2]@).len() == a0[i2]@.len() + t && (
                        forall|u: int| 0 <= u < a0[i2]@.len() ==> a@[i2]@[u] == a0[i2]@[u]) && (
                        forall|u: int|
                            0 <= u < t ==> a@[i2]@[a0[i2]@.len() + u] == a0[i2]@[nni@[u] as int]),
                    forall|i2: int| 0 <= i2 < a0.len() ==> a0[i2]@.len() == c0.len(),
                decreases nni@.len() - t,
            {
                let idx = nni[t];
                let centry = c[idx];
                c.push(centry);
                let mut i2: usize = 0;
                while i2 < a.len()
                    invariant
                        0 <= i2 <= a@.len(),
                        idx == nni@[t as int],
                        0 <= t < nni@.len(),
                        forall|u: int| 0 <= u < nni@.len() ==> nni@[u] < c0.len(),
                        a@.len() == a0.len(),
                        forall|i3: int| 0 <= i3 < a0.len() ==> a0[i3]@.len() == c0.len(),
                        forall|i3: int|
                            i2 <= i3 < a0.len() ==> (#[trigger] a@[i3]@).len() == a0[i3]@.len() + t
                                && (forall|u: int|
                                0 <= u < a0[i3]@.len() ==> a@[i3]@[u] == a0[i3]@[u]) && (forall|
                                u: int,
                            |
                                0 <= u < t ==> a@[i3]@[a0[i3]@.len() + u] == a0[i3]@[nni@[u] as int]),
                        forall|i3: int|
                            0 <= i3 < i2 ==> (#[trigger] a@[i3]@).len() == a0[i3]@.len() + t + 1
                                && (forall|u: int|
                                0 <= u < a0[i3]@.len() ==> a@[i3]@[u] == a0[i3]@[u]) && (forall|
                                u: int,
                            |
                                0 <= u < t + 1 ==> a@[i3]@[a0[i3]@.len() + u] == a0[i3]@[nni@[u] as int]),
                    decreases a@.len() - i2,
                {
                    let entry = a[i2][idx];
                    let mut row2 = crate::utils::copy_rats(&a[i2]);
                    row2.push(entry);
                    a[i2] = row2;
                    i2 += 1;
                }
                t += 1;
            }
            proof {
                if nni@.len() > 0 && uniq_sorted(nni@) {
                    crate::utils::lemma_uniq_sorted_lower(nni@, nni@.len() - 1);
                }
            }
            StandardFormLP::new(c, a, b, self.non_negative_indices)
        } else {
            StandardFormLP::new(c, a, b, self.non_negative_indices)
        }
    }
}

} // verus!
