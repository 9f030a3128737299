//! The bookkeeping of the finite-difference engine: which columns share a
//! model evaluation, and how many evaluations a Jacobian costs. The
//! differences themselves are floating point and are formed outside.
use vstd::prelude::*;

use crate::coloring::{
    conflict_degrees, distance1_coloring, greedy_coloring, lemma_greedy_color_bound, neighbour_set, Coloring, ColoringView,
};
use crate::options::FdType;
use crate::problem::Capabilities;
use crate::sparsity::{Sparsity, SparsityView};
use vstd::set_lib::{lemma_int_range, lemma_len_subset, set_int_range};

verus! {

/// The mathematical content of a [`FiniteDifferences`] engine.
pub struct FiniteDifferencesView {
    /// The finite-difference flavour asked for.
    pub fd_type: FdType,
    /// Number of variables.
    pub n: nat,
    /// Number of constraints.
    pub m: nat,
    /// The column groups, when the Jacobian structure is known and coloring is on.
    pub coloring: Option<ColoringView>,
    /// Whether the caller has asked for central differences.
    pub escalate: bool,
}

impl FiniteDifferencesView {
    /// Whether central differences are in use.
    pub open spec fn central(self) -> bool {
        match self.fd_type {
            FdType::Forward => false,
            FdType::Central => true,
            FdType::Adaptive => self.escalate,
        }
    }

    /// Evaluations that one forward pass over the columns costs: one per
    /// group, or one per variable without a coloring.
    pub open spec fn base_cost(self) -> nat {
        match self.coloring {
            Some(c) => c.groups.len(),
            None => self.n,
        }
    }

    /// Evaluations that one Jacobian costs.
    pub open spec fn jacobian_cost(self) -> nat {
        if self.central() { 2 * self.base_cost() } else { self.base_cost() }
    }
}

/// Finite-difference engine state, holding the coloring so that a solve
/// computes it once.
#[derive(Debug)]
pub struct FiniteDifferences {
    fd_type: FdType,
    n: usize,
    m: usize,
    coloring: Option<Coloring>,
    escalate: bool,
}

impl View for FiniteDifferences {
    type V = FiniteDifferencesView;

    closed spec fn view(&self) -> FiniteDifferencesView {
        FiniteDifferencesView {
            fd_type: self.fd_type,
            n: self.n as nat,
            m: self.m as nat,
            coloring: match self.coloring {
                Some(c) => Some(c@),
                None => None,
            },
            escalate: self.escalate,
        }
    }
}

impl FiniteDifferences {
    /// Build an engine for a problem of `n` variables and `m` constraints.
    /// With coloring on and the Jacobian structure known, the columns are
    /// grouped once by [`distance1_coloring`].
    pub fn new(fd_type: FdType, use_coloring: bool, n: usize, m: usize, jac_pattern: Option<&Sparsity>) -> (r: Self)
        requires
            jac_pattern matches Some(p) ==> p@.nrows < usize::MAX && p@.ncols + 1 < usize::MAX,
        ensures
            r@.fd_type == fd_type,
            r@.n == n,
            r@.m == m,
            !r@.escalate,
            (use_coloring && jac_pattern is Some) <==> r@.coloring is Some,
            r@.coloring matches Some(c) ==> c.wf() && greedy_coloring(
                jac_pattern->0@,
                conflict_degrees(jac_pattern->0@),
                c.colors,
            ),
    {
        let coloring = match jac_pattern {
            Some(p) => {
                if use_coloring {
                    Some(distance1_coloring(p))
                } else {
                    None
                }
            },
            None => None,
        };
        FiniteDifferences { fd_type, n, m, coloring, escalate: false }
    }

    /// How many model evaluations one Jacobian will cost.
    pub fn jacobian_cost(&self) -> (r: usize)
        requires
            self@.jacobian_cost() <= usize::MAX,
        ensures
            r == self@.jacobian_cost(),
            r == (if self@.fd_type == FdType::Central || (self@.fd_type == FdType::Adaptive && self@.escalate) {
                2nat
            } else {
                1nat
            }) * (match self@.coloring {
                Some(c) => c.groups.len(),
                None => self@.n,
            }),
    {
        let base = match &self.coloring {
            Some(c) => c.num_groups(),
            None => self.n,
        };
        if self.use_central() {
            2 * base
        } else {
            base
        }
    }

    /// Ask for central differences from now on. Called when the line search
    /// starts failing, which is the signature of derivative noise.
    pub fn escalate(&mut self)
        ensures
            final(self)@ == (FiniteDifferencesView { escalate: true, ..old(self)@ }),
    {
        self.escalate = true;
    }

    /// Whether central differences are currently in use.
    pub fn use_central(&self) -> (r: bool)
        ensures
            r == self@.central(),
            r == (self@.fd_type == FdType::Central || (self@.fd_type == FdType::Adaptive && self@.escalate)),
    {
        match self.fd_type {
            FdType::Forward => false,
            FdType::Central => true,
            FdType::Adaptive => self.escalate,
        }
    }
}

/// Whether the model allows its finite-difference probes to run in parallel.
pub fn parallel_is_safe(caps: Capabilities) -> (r: bool)
    ensures
        r == caps.parallel_safe,
{
    caps.parallel_safe
}

/// Grouping the columns never makes a Jacobian dearer: a greedy coloring of
/// an `m x n` pattern has at most `n` groups, so with the columns grouped a
/// Jacobian costs at most the evaluations it costs without.
pub proof fn lemma_coloring_never_costs_more(p: SparsityView, fd: FiniteDifferencesView)
    requires
        p.wf(),
        p.ncols == fd.n,
        fd.coloring matches Some(c) ==> c.wf() && greedy_coloring(p, conflict_degrees(p), c.colors),
    ensures
        fd.base_cost() <= fd.n,
        fd.jacobian_cost() <= (if fd.central() { 2 * fd.n } else { fd.n }),
{
    if let Some(c) = fd.coloring {
        let g = c.groups.len();
        if c.colors.len() > 0 {
            let j = choose|j: int| 0 <= j < c.colors.len() && c.colors[j] == g - 1;
            lemma_greedy_color_bound(p, conflict_degrees(p), c.colors, j);
            let range = set_int_range(0, p.ncols as int);
            lemma_int_range(0, p.ncols as int);
            assert(neighbour_set(p, j).subset_of(range.remove(j)));
            lemma_len_subset(neighbour_set(p, j), range.remove(j));
        }
    }
}

/// Central differences are in use exactly for the central flavour, and for
/// the adaptive one once escalated; the forward flavour never uses them.
/// Escalating turns them on for every flavour but forward and never turns
/// them off.
pub proof fn lemma_central_rule(fd: FiniteDifferencesView)
    ensures
        fd.central() <==> (fd.fd_type == FdType::Central || (fd.fd_type == FdType::Adaptive && fd.escalate)),
        fd.fd_type == FdType::Central ==> fd.central(),
        fd.fd_type == FdType::Forward ==> !fd.central(),
        (FiniteDifferencesView { escalate: true, ..fd }).central() <==> fd.fd_type != FdType::Forward,
        fd.central() ==> (FiniteDifferencesView { escalate: true, ..fd }).central(),
{
}

/// A Jacobian costs one evaluation per group of columns, or per variable
/// without a coloring, and central differences cost exactly twice what
/// forward differences cost on the same columns, with or without a
/// coloring.
pub proof fn lemma_jacobian_cost_rule(fd: FiniteDifferencesView)
    ensures
        fd.coloring is None ==> fd.jacobian_cost() == (if fd.central() { 2 * fd.n } else { fd.n }),
        fd.coloring matches Some(c) ==> fd.jacobian_cost() == (if fd.central() {
            2 * c.groups.len()
        } else {
            c.groups.len()
        }),
        (FiniteDifferencesView { fd_type: FdType::Forward, ..fd }).jacobian_cost() == (match fd.coloring {
            Some(c) => c.groups.len(),
            None => fd.n,
        }),
        (FiniteDifferencesView { fd_type: FdType::Central, ..fd }).jacobian_cost() == 2 * (FiniteDifferencesView {
            fd_type: FdType::Forward,
            ..fd
        }).jacobian_cost(),
        fd.central() ==> fd.jacobian_cost() == 2 * (FiniteDifferencesView {
            fd_type: FdType::Forward,
            ..fd
        }).jacobian_cost(),
{
}

} // verus!
