//! The results of a stepped simulation, and the per-step, per-variable views
//! sliced from them.
use vstd::prelude::*;
use crate::error::{ErrorView, SimulationError};
use crate::samples::{
    decode_payload, find_payload, first_marker_at, imags_of, payload_error, payload_marker,
    payload_start, reals_of,
};
use crate::text::{contains, fields, occurs_at, starts_with, tokens};
use crate::steps::{
    assignment_of, lemma_log_word_without_equals, parse_log, same_step, step_marker, step_view, steps_of,
    steps_view, Step, SteppingView,
};
use crate::variables::{
    header_of, parse_header, variable_views, SimulationVariable, VariableView,
};

verus! {

/// The samples of one variable in one step: `len()` complex values, each kept
/// as the bit patterns of its real and imaginary doubles.
#[derive(Debug, Clone)]
pub struct VariableResult {
    variable: SimulationVariable,
    reals: Vec<u64>,
    imags: Vec<u64>,
}

/// What a `VariableResult` holds, as plain values.
pub struct ResultView {
    pub variable: VariableView,
    pub reals: Seq<u64>,
    pub imags: Seq<u64>,
}

impl View for VariableResult {
    type V = ResultView;

    closed spec fn view(&self) -> ResultView {
        ResultView { variable: self.variable@, reals: self.reals@, imags: self.imags@ }
    }
}

/// A copy of `s[a..b]`.
fn copy_samples(s: &Vec<u64>, a: usize, b: usize) -> (r: Vec<u64>)
    requires
        a <= b <= s@.len(),
    ensures
        r@ == s@.subrange(a as int, b as int),
{
    let mut out: Vec<u64> = Vec::new();
    let mut i: usize = a;
    while i < b
        invariant
            a <= i <= b <= s@.len(),
            out@ == s@.subrange(a as int, i as int),
        decreases b - i,
    {
        out.push(s[i]);
        proof {
            assert(out@ =~= s@.subrange(a as int, i + 1));
        }
        i += 1;
    }
    out
}

impl VariableResult {
    /// A view of the samples `reals[i] + j * imags[i]` of `variable`.
    pub fn new(variable: SimulationVariable, reals: Vec<u64>, imags: Vec<u64>) -> (r: Self)
        requires
            reals@.len() == imags@.len(),
        ensures
            r@ == (ResultView { variable: variable@, reals: reals@, imags: imags@ }),
    {
        VariableResult { variable, reals, imags }
    }

    /// The variable these samples belong to.
    pub fn variable(&self) -> (r: &SimulationVariable)
        ensures
            r@ == self@.variable,
    {
        &self.variable
    }

    /// The bit patterns of the real parts.
    pub fn reals(&self) -> (r: &Vec<u64>)
        ensures
            r@ == self@.reals,
    {
        &self.reals
    }

    /// The bit patterns of the imaginary parts.
    pub fn imags(&self) -> (r: &Vec<u64>)
        ensures
            r@ == self@.imags,
    {
        &self.imags
    }

    /// The number of samples.
    pub fn len(&self) -> (r: usize)
        ensures
            r == self@.reals.len(),
    {
        self.reals.len()
    }
}

/// The results of a stepped simulation, read from a results file and its log.
#[derive(Debug)]
pub struct SteppedSimulation {
    steps: Vec<Step>,
    variables: Vec<SimulationVariable>,
    reals: Vec<Vec<u64>>,
    imags: Vec<Vec<u64>>,
    simulation_points: usize,
    points_per_block: usize,
}

/// What a `SteppedSimulation` holds, as plain values.
pub struct SimulationView {
    pub steps: Seq<Seq<SteppingView>>,
    pub variables: Seq<VariableView>,
    /// For each variable, the real parts of its samples over all steps, step after step.
    pub reals: Seq<Seq<u64>>,
    /// For each variable, the imaginary parts of its samples over all steps.
    pub imags: Seq<Seq<u64>>,
    pub points: nat,
    pub points_per_block: nat,
}

impl View for SteppedSimulation {
    type V = SimulationView;

    closed spec fn view(&self) -> SimulationView {
        SimulationView {
            steps: steps_view(self.steps@),
            variables: variable_views(self.variables@),
            reals: self.reals@.map_values(|x: Vec<u64>| x@),
            imags: self.imags@.map_values(|x: Vec<u64>| x@),
            points: self.simulation_points as nat,
            points_per_block: self.points_per_block as nat,
        }
    }
}

/// At least one step; the points split evenly over the steps; each variable
/// has one real and one imaginary sequence, each holding all points.
pub open spec fn well_formed_view(m: SimulationView) -> bool {
    &&& m.steps.len() > 0
    &&& m.points == m.points_per_block * m.steps.len()
    &&& m.reals.len() == m.variables.len()
    &&& m.imags.len() == m.variables.len()
    &&& forall|v: int| 0 <= v < m.variables.len() ==> #[trigger] m.reals[v].len() == m.points
    &&& forall|v: int| 0 <= v < m.variables.len() ==> #[trigger] m.imags[v].len() == m.points
}

/// The simulation described by a results file and its log file: the log's
/// steps, the header's variables, and the payload's samples, with the points
/// shared out evenly over the steps.
pub open spec fn simulation_of(raw: Seq<u8>, log: Seq<u8>) -> Result<SimulationView, ErrorView> {
    match steps_of(log) {
        Err(e) => Err(e),
        Ok(steps) => match payload_start(raw) {
            None => Err(ErrorView::UnexpectedEof),
            Some(start) => match header_of(raw.subrange(0, start)) {
                Err(e) => Err(e),
                Ok((vars, points)) => if steps.len() == 0 || points % steps.len() != 0 {
                    Err(ErrorView::MalformedHeader(None))
                } else {
                    let payload = raw.subrange(start, raw.len() as int);
                    match payload_error(payload.len(), vars.len(), points) {
                        Some(e) => Err(e),
                        None => Ok(
                            SimulationView {
                                steps,
                                variables: vars,
                                reals: reals_of(payload, vars.len(), points),
                                imags: imags_of(payload, vars.len(), points),
                                points,
                                points_per_block: points / steps.len(),
                            },
                        ),
                    }
                },
            },
        },
    }
}

/// The samples of variable `v` in step `p`.
pub open spec fn result_at(m: SimulationView, p: int, v: int) -> ResultView {
    let start = p * m.points_per_block;
    ResultView {
        variable: m.variables[v],
        reals: m.reals[v].subrange(start, start + m.points_per_block),
        imags: m.imags[v].subrange(start, start + m.points_per_block),
    }
}

/// The samples of every variable in step `p`, in declared order.
pub open spec fn block_at(m: SimulationView, p: int) -> Seq<ResultView> {
    Seq::new(m.variables.len(), |v: int| result_at(m, p, v))
}

/// `p` is the first step equal to `step`.
pub open spec fn first_step_at(m: SimulationView, step: Seq<SteppingView>, p: int) -> bool {
    0 <= p < m.steps.len() && m.steps[p] == step && forall|q: int|
        0 <= q < p ==> m.steps[q] != step
}

/// `v` is the first variable equal to `var`.
pub open spec fn first_variable_at(m: SimulationView, var: VariableView, v: int) -> bool {
    0 <= v < m.variables.len() && m.variables[v] == var && forall|q: int|
        0 <= q < v ==> m.variables[q] != var
}

pub open spec fn result_views(rs: Seq<VariableResult>) -> Seq<ResultView> {
    rs.map_values(|r: VariableResult| r@)
}

proof fn lemma_block_bounds(p: int, ppb: int, steps: int)
    requires
        0 <= p < steps,
        0 <= ppb,
    ensures
        0 <= p * ppb,
        p * ppb + ppb <= ppb * steps,
{
    assert(0 <= p * ppb) by (nonlinear_arith)
        requires
            0 <= p,
            0 <= ppb,
    ;
    assert(p * ppb + ppb <= ppb * steps) by (nonlinear_arith)
        requires
            0 <= p < steps,
            0 <= ppb,
    ;
}

impl SteppedSimulation {
    pub open spec fn well_formed(&self) -> bool {
        well_formed_view(self@)
    }

    /// Builds the simulation from the bytes of a results file and of its log
    /// file. The swept values are kept as the log writes them: whether each is
    /// a valid number is left to the caller, which reads them as floats.
    pub fn from_contents(raw: &[u8], log: &[u8]) -> (r: Result<SteppedSimulation, SimulationError>)
        ensures
            match simulation_of(raw@, log@) {
                Ok(m) => r is Ok && r->Ok_0@ == m && r->Ok_0.well_formed(),
                Err(e) => r is Err && r->Err_0@ == e,
            },
    {
        let steps = match parse_log(log) {
            Ok(s) => s,
            Err(e) => {
                return Err(e);
            },
        };
        let start = match find_payload(raw) {
            Some(s) => s,
            None => {
                return Err(SimulationError::UnexpectedEof);
            },
        };
        let head = crate::text::copy_range(raw, 0, start);
        let header = match parse_header(head.as_slice()) {
            Ok(h) => h,
            Err(e) => {
                return Err(e);
            },
        };
        let points = header.points;
        let variables = header.variables;
        proof {
            assert(steps@.len() == steps_view(steps@).len());
            assert(variables@.len() == variable_views(variables@).len());
        }
        if steps.len() == 0 || points % steps.len() != 0 {
            return Err(SimulationError::MalformedHeader(None));
        }
        let payload = crate::text::copy_range(raw, start, raw.len());
        let (reals, imags) = match decode_payload(payload.as_slice(), variables.len(), points) {
            Ok(x) => x,
            Err(e) => {
                return Err(e);
            },
        };
        let count = steps.len();
        let ppb = points / count;
        proof {
            assert(points == ppb * count) by (nonlinear_arith)
                requires
                    points % count == 0,
                    ppb == points / count,
                    count > 0,
            ;
        }
        let sim = SteppedSimulation {
            steps,
            variables,
            reals,
            imags,
            simulation_points: points,
            points_per_block: ppb,
        };
        Ok(sim)
    }

    /// The names of the swept parameters, taken from the first step.
    pub fn available_parameters(&self) -> (r: Vec<String>)
        ensures
            self@.steps.len() == 0 ==> r@.len() == 0,
            self@.steps.len() > 0 ==> r@.len() == self@.steps[0].len() && forall|i: int|
                0 <= i < r@.len() ==> #[trigger] r@[i]@ == self@.steps[0][i].name,
    {
        let mut out: Vec<String> = Vec::new();
        if self.steps.len() == 0 {
            return out;
        }
        let first = &self.steps[0];
        let mut i: usize = 0;
        while i < first.len()
            invariant
                self.steps@.len() > 0,
                *first == self.steps@[0],
                i <= first@.len(),
                out@.len() == i,
                forall|k: int| 0 <= k < i ==> #[trigger] out@[k]@ == first@[k]@.name,
            decreases first@.len() - i,
        {
            out.push(first[i].name.clone());
            i += 1;
        }
        proof {
            assert(self@.steps[0] == step_view(first@));
        }
        out
    }

    /// The variables, in declared order.
    pub fn available_variables(&self) -> (r: &Vec<SimulationVariable>)
        ensures
            variable_views(r@) == self@.variables,
    {
        &self.variables
    }

    /// The steps, in log order.
    pub fn available_steps(&self) -> (r: &Vec<Step>)
        ensures
            steps_view(r@) == self@.steps,
    {
        &self.steps
    }

    /// The total number of points over all steps.
    pub fn simulation_points(&self) -> (r: usize)
        ensures
            r == self@.points,
    {
        self.simulation_points
    }

    /// The number of samples of each variable in one step.
    pub fn points_per_block(&self) -> (r: usize)
        ensures
            r == self@.points_per_block,
    {
        self.points_per_block
    }

    /// The first variable named `name`.
    pub fn get_variable_for_name(&self, name: &str) -> (r: Option<&SimulationVariable>)
        ensures
            match r {
                Some(v) => exists|i: int|
                    0 <= i < self@.variables.len() && self@.variables[i] == v@ && v@.name == name@
                        && forall|j: int| 0 <= j < i ==> self@.variables[j].name != name@,
                None => forall|i: int|
                    0 <= i < self@.variables.len() ==> self@.variables[i].name != name@,
            },
    {
        let key: String = name.to_owned();
        let mut i: usize = 0;
        while i < self.variables.len()
            invariant
                key@ == name@,
                i <= self.variables@.len(),
                forall|j: int| 0 <= j < i ==> self@.variables[j].name != name@,
            decreases self.variables@.len() - i,
        {
            if self.variables[i].name == key {
                proof {
                    assert(self@.variables[i as int] == self.variables@[i as int]@);
                }
                return Some(&self.variables[i]);
            }
            i += 1;
        }
        None
    }

    /// The position of the first step equal to `step`.
    pub fn position_of_step(&self, step: &Step) -> (r: Option<usize>)
        ensures
            match r {
                Some(p) => first_step_at(self@, step_view(step@), p as int),
                None => forall|q: int|
                    0 <= q < self@.steps.len() ==> self@.steps[q] != step_view(step@),
            },
    {
        let mut i: usize = 0;
        while i < self.steps.len()
            invariant
                i <= self.steps@.len(),
                forall|q: int| 0 <= q < i ==> self@.steps[q] != step_view(step@),
            decreases self.steps@.len() - i,
        {
            if same_step(&self.steps[i], step) {
                return Some(i);
            }
            i += 1;
        }
        None
    }

    /// The position of the first variable equal to `var`.
    pub fn position_of_variable(&self, var: &SimulationVariable) -> (r: Option<usize>)
        ensures
            match r {
                Some(v) => first_variable_at(self@, var@, v as int),
                None => forall|q: int|
                    0 <= q < self@.variables.len() ==> self@.variables[q] != var@,
            },
    {
        let mut i: usize = 0;
        while i < self.variables.len()
            invariant
                i <= self.variables@.len(),
                forall|q: int| 0 <= q < i ==> self@.variables[q] != var@,
            decreases self.variables@.len() - i,
        {
            let w = &self.variables[i];
            if w.id == var.id && w.var_type == var.var_type && w.name == var.name {
                return Some(i);
            }
            i += 1;
        }
        None
    }

    /// The samples of variable `v` in step `p`.
    fn result_at(&self, p: usize, v: usize) -> (r: VariableResult)
        requires
            self.well_formed(),
            p < self@.steps.len(),
            v < self@.variables.len(),
        ensures
            r@ == result_at(self@, p as int, v as int),
    {
        proof {
            lemma_block_bounds(p as int, self.points_per_block as int, self.steps@.len() as int);
            assert(self@.reals[v as int] == self.reals@[v as int]@);
            assert(self@.imags[v as int] == self.imags@[v as int]@);
        }
        let start = p * self.points_per_block;
        let end = start + self.points_per_block;
        VariableResult {
            variable: self.variables[v].duplicate(),
            reals: copy_samples(&self.reals[v], start, end),
            imags: copy_samples(&self.imags[v], start, end),
        }
    }

    /// The samples of every variable in step `p`, in declared order.
    pub fn get_value_block_at(&self, p: usize) -> (r: Vec<VariableResult>)
        requires
            self.well_formed(),
            p < self@.steps.len(),
        ensures
            result_views(r@) == block_at(self@, p as int),
    {
        let mut out: Vec<VariableResult> = Vec::new();
        let mut v: usize = 0;
        while v < self.variables.len()
            invariant
                self.well_formed(),
                p < self@.steps.len(),
                v <= self.variables@.len(),
                out@.len() == v,
                forall|k: int| 0 <= k < v ==> #[trigger] out@[k]@ == result_at(self@, p as int, k),
            decreases self.variables@.len() - v,
        {
            out.push(self.result_at(p, v));
            v += 1;
        }
        proof {
            assert(result_views(out@) =~= block_at(self@, p as int));
        }
        out
    }

    /// The samples of every variable in the first step equal to `step`.
    pub fn get_values_at(&self, step: &Step) -> (r: Result<Vec<VariableResult>, SimulationError>)
        requires
            self.well_formed(),
        ensures
            (exists|p: int| first_step_at(self@, step_view(step@), p)) ==> r is Ok && forall|p: int|
                first_step_at(self@, step_view(step@), p) ==> result_views(r->Ok_0@) == block_at(
                    self@,
                    p,
                ),
            !(exists|p: int| first_step_at(self@, step_view(step@), p)) ==> r is Err && r->Err_0@ == ErrorView::StepNotFound,
    {
        match self.position_of_step(step) {
            Some(p) => {
                proof {
                    assert forall|q: int| first_step_at(self@, step_view(step@), q) implies q
                        == p by {
                        if q < p {
                            assert(self@.steps[q] != step_view(step@));
                        }
                        if p < q {
                            assert(self@.steps[p as int] != step_view(step@));
                        }
                    }
                }
                Ok(self.get_value_block_at(p))
            },
            None => Err(SimulationError::StepNotFound),
        }
    }

    /// The samples of `var` in the first step equal to `step`.
    pub fn get_values_for_variable_at(&self, step: &Step, var: &SimulationVariable) -> (r: Result<
        VariableResult,
        SimulationError,
    >)
        requires
            self.well_formed(),
        ensures
            !(exists|p: int| first_step_at(self@, step_view(step@), p)) ==> r is Err && r->Err_0@
                == ErrorView::StepNotFound,
            (exists|p: int| first_step_at(self@, step_view(step@), p)) && !(exists|v: int|
                first_variable_at(self@, var@, v)) ==> r is Err && r->Err_0@
                == ErrorView::VariableNotFound,
            forall|p: int, v: int|
                first_step_at(self@, step_view(step@), p) && first_variable_at(self@, var@, v)
                    ==> r is Ok && r->Ok_0@ == result_at(self@, p, v),
    {
        match self.position_of_step(step) {
            Some(p) => {
                match self.position_of_variable(var) {
                    Some(v) => {
                        proof {
                            assert forall|q: int, w: int|
                                first_step_at(self@, step_view(step@), q) && first_variable_at(
                                    self@,
                                    var@,
                                    w,
                                ) implies q == p && w == v by {
                                if q < p {
                                    assert(self@.steps[q] != step_view(step@));
                                }
                                if p < q {
                                    assert(self@.steps[p as int] != step_view(step@));
                                }
                                if w < v {
                                    assert(self@.variables[w] != var@);
                                }
                                if v < w {
                                    assert(self@.variables[v as int] != var@);
                                }
                            }
                        }
                        Ok(self.result_at(p, v))
                    },
                    None => Err(SimulationError::VariableNotFound),
                }
            },
            None => Err(SimulationError::StepNotFound),
        }
    }
}

/// The real parts of variable `v` over the first `n` steps, step after step.
pub open spec fn joined_reals(m: SimulationView, v: int, n: nat) -> Seq<u64>
    decreases n,
{
    if n == 0 {
        seq![]
    } else {
        joined_reals(m, v, (n - 1) as nat) + result_at(m, n - 1, v).reals
    }
}

/// The imaginary parts of variable `v` over the first `n` steps, step after step.
pub open spec fn joined_imags(m: SimulationView, v: int, n: nat) -> Seq<u64>
    decreases n,
{
    if n == 0 {
        seq![]
    } else {
        joined_imags(m, v, (n - 1) as nat) + result_at(m, n - 1, v).imags
    }
}

proof fn lemma_joined_prefix(m: SimulationView, v: int, n: nat)
    requires
        well_formed_view(m),
        0 <= v < m.variables.len(),
        n <= m.steps.len(),
    ensures
        0 <= n * m.points_per_block <= m.points,
        joined_reals(m, v, n) == m.reals[v].subrange(0, (n * m.points_per_block) as int),
        joined_imags(m, v, n) == m.imags[v].subrange(0, (n * m.points_per_block) as int),
    decreases n,
{
    let ppb = m.points_per_block;
    assert(0 <= n * ppb <= m.points) by (nonlinear_arith)
        requires
            n <= m.steps.len(),
            m.points == ppb * m.steps.len(),
    ;
    if n > 0 {
        lemma_joined_prefix(m, v, (n - 1) as nat);
        assert((n - 1) * ppb + ppb == n * ppb) by (nonlinear_arith);
        assert(m.reals[v].len() == m.points && m.imags[v].len() == m.points);
        let k = (n - 1) as nat;
        assert(k * ppb == (n - 1) * ppb);
        assert(result_at(m, n - 1, v).reals == m.reals[v].subrange(
            (n - 1) * ppb,
            (n * ppb) as int,
        ));
        assert(result_at(m, n - 1, v).imags == m.imags[v].subrange(
            (n - 1) * ppb,
            (n * ppb) as int,
        ));
        assert(joined_reals(m, v, n) == joined_reals(m, v, (n - 1) as nat) + result_at(
            m,
            n - 1,
            v,
        ).reals);
        assert(joined_imags(m, v, n) == joined_imags(m, v, (n - 1) as nat) + result_at(
            m,
            n - 1,
            v,
        ).imags);
        assert(m.reals[v].subrange(0, (n - 1) * ppb) + m.reals[v].subrange(
            (n - 1) * ppb,
            (n * ppb) as int,
        ) =~= m.reals[v].subrange(0, (n * ppb) as int));
        assert(m.imags[v].subrange(0, (n - 1) * ppb) + m.imags[v].subrange(
            (n - 1) * ppb,
            (n * ppb) as int,
        ) =~= m.imags[v].subrange(0, (n * ppb) as int));
    } else {
        assert(n * ppb == 0) by (nonlinear_arith)
            requires
                n == 0,
        ;
        assert(m.reals[v].subrange(0, 0) =~= seq![]);
        assert(m.imags[v].subrange(0, 0) =~= seq![]);
    }
}

/// The slices of one variable over all steps, joined in step order, give back
/// that variable's whole real and imaginary sequences: no gaps, no overlaps.
pub proof fn lemma_slices_partition(m: SimulationView, v: int)
    requires
        well_formed_view(m),
        0 <= v < m.variables.len(),
    ensures
        joined_reals(m, v, m.steps.len()) == m.reals[v],
        joined_imags(m, v, m.steps.len()) == m.imags[v],
{
    lemma_joined_prefix(m, v, m.steps.len());
    assert(m.steps.len() * m.points_per_block == m.points) by (nonlinear_arith)
        requires
            m.points == m.points_per_block * m.steps.len(),
    ;
    assert(m.reals[v].subrange(0, m.points as int) =~= m.reals[v]);
    assert(m.imags[v].subrange(0, m.points as int) =~= m.imags[v]);
}

/// A simulation read from a results file and a log file is well formed.
pub proof fn lemma_read_well_formed(raw: Seq<u8>, log: Seq<u8>)
    requires
        simulation_of(raw, log) is Ok,
    ensures
        well_formed_view(simulation_of(raw, log)->Ok_0),
{
    let m = simulation_of(raw, log)->Ok_0;
    let s = m.steps.len();
    assert(m.points == m.points_per_block * s) by (nonlinear_arith)
        requires
            s > 0,
            m.points % s == 0,
            m.points_per_block == m.points / s,
    ;
}

/// A simulation read from a log with S steps and a header with V variables
/// and S * P points lists S steps and V variables, and the block of every step
/// holds V results of P samples each.
pub proof fn lemma_round_trip(raw: Seq<u8>, log: Seq<u8>)
    requires
        simulation_of(raw, log) is Ok,
    ensures
        ({
            let m = simulation_of(raw, log)->Ok_0;
            let header = header_of(raw.subrange(0, payload_start(raw)->Some_0))->Ok_0;
            &&& m.steps == steps_of(log)->Ok_0
            &&& m.variables == header.0
            &&& m.points_per_block * m.steps.len() == header.1
            &&& forall|p: int|
                0 <= p < m.steps.len() ==> (#[trigger] block_at(m, p)).len() == m.variables.len()
                    && forall|v: int|
                    0 <= v < m.variables.len() ==> block_at(m, p)[v].variable == m.variables[v]
                        && block_at(m, p)[v].reals.len() == m.points_per_block && block_at(
                        m,
                        p,
                    )[v].imags.len() == m.points_per_block
        }),
{
    let m = simulation_of(raw, log)->Ok_0;
    lemma_read_well_formed(raw, log);
    assert forall|p: int| 0 <= p < m.steps.len() implies (#[trigger] block_at(m, p)).len()
        == m.variables.len() && forall|v: int|
        0 <= v < m.variables.len() ==> block_at(m, p)[v].variable == m.variables[v]
            && block_at(m, p)[v].reals.len() == m.points_per_block && block_at(
            m,
            p,
        )[v].imags.len() == m.points_per_block by {
        lemma_block_bounds(p, m.points_per_block as int, m.steps.len() as int);
    }
}

/// A results file without the "Binary:\n" marker is refused as ending too
/// early, whenever its log reads.
pub proof fn lemma_missing_marker(raw: Seq<u8>, log: Seq<u8>)
    requires
        !contains(raw, payload_marker()),
        steps_of(log) is Ok,
    ensures
        simulation_of(raw, log) == Err::<SimulationView, ErrorView>(ErrorView::UnexpectedEof),
{
    assert forall|i: int| !first_marker_at(raw, i) by {
        if first_marker_at(raw, i) {
            assert(occurs_at(raw, payload_marker(), i));
        }
    }
}

/// A log whose `.step` line `k` holds, after its first word, a word `i`
/// without `=` is refused as malformed, whatever the results file.
pub proof fn lemma_malformed_log(raw: Seq<u8>, log: Seq<u8>, k: int, i: int)
    requires
        0 <= k < fields(log, 10).len(),
        starts_with(fields(log, 10)[k], step_marker()),
        1 <= i < tokens(fields(log, 10)[k]).len(),
        forall|j: int|
            0 <= j < tokens(fields(log, 10)[k])[i].len() ==> tokens(fields(log, 10)[k])[i][j]
                != 61,
    ensures
        simulation_of(raw, log) matches Err(ErrorView::MalformedHeader(Some(w))) && assignment_of(
            w,
        ) is None,
{
    lemma_log_word_without_equals(log, k, i);
}

} // verus!
