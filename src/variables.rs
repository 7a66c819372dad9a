//! The simulated signals and the parser of the results-file header that
//! declares them.
use vstd::prelude::*;
use vstd::utf8::{decode_utf8, valid_utf8};
use crate::error::{ErrorView, SimulationError};
use crate::text::{
    contains, contains_bytes, copy_range, fields, line_body, parse_unsigned, split_bytes,
    string_from_utf8, strip_cr, trim, trim_bytes, unsigned_of, views, equal_bytes,
};

verus! {

/// The physical kind of a simulated signal.
#[derive(Debug, Clone, Copy, PartialEq, Eq, Hash, Structural)]
pub enum VariableType {
    Frequency,
    Voltage,
    Current,
    Unknown,
}

/// One signal of the simulation, as declared in the results-file header.
#[derive(Debug, Clone, Eq, Hash)]
pub struct SimulationVariable {
    /// The id given in the header.
    pub id: u16,
    /// The name in the netlist, unique within a simulation.
    pub name: String,
    /// The physical kind of the signal.
    pub var_type: VariableType,
}

/// What a `SimulationVariable` holds, as plain values.
pub struct VariableView {
    pub id: u16,
    pub name: Seq<char>,
    pub var_type: VariableType,
}

impl View for SimulationVariable {
    type V = VariableView;

    open spec fn view(&self) -> VariableView {
        VariableView { id: self.id, name: self.name@, var_type: self.var_type }
    }
}

impl PartialEq for SimulationVariable {
    fn eq(&self, o: &SimulationVariable) -> (r: bool) {
        self.id == o.id && self.var_type == o.var_type && self.name == o.name
    }
}

impl vstd::std_specs::cmp::PartialEqSpecImpl for SimulationVariable {
    open spec fn obeys_eq_spec() -> bool {
        true
    }

    open spec fn eq_spec(&self, o: &SimulationVariable) -> bool {
        self@ == o@
    }
}

impl SimulationVariable {
    /// A copy of this variable.
    pub fn duplicate(&self) -> (r: SimulationVariable)
        ensures
            r@ == self@,
    {
        SimulationVariable { id: self.id, name: self.name.clone(), var_type: self.var_type }
    }
}

/// What a results-file header declares.
pub struct Header {
    /// The variables, in declared order.
    pub variables: Vec<SimulationVariable>,
    /// The total number of points over all steps.
    pub points: usize,
}

pub open spec fn variable_views(v: Seq<SimulationVariable>) -> Seq<VariableView> {
    v.map_values(|x: SimulationVariable| x@)
}

/// "No. Variables"
pub open spec fn no_variables_marker() -> Seq<u8> {
    seq![78u8, 111u8, 46u8, 32u8, 86u8, 97u8, 114u8, 105u8, 97u8, 98u8, 108u8, 101u8, 115u8]
}

/// "Variables"
pub open spec fn variables_marker() -> Seq<u8> {
    seq![86u8, 97u8, 114u8, 105u8, 97u8, 98u8, 108u8, 101u8, 115u8]
}

/// "No. Points"
pub open spec fn no_points_marker() -> Seq<u8> {
    seq![78u8, 111u8, 46u8, 32u8, 80u8, 111u8, 105u8, 110u8, 116u8, 115u8]
}

/// "Binary"
pub open spec fn binary_word() -> Seq<u8> {
    seq![66u8, 105u8, 110u8, 97u8, 114u8, 121u8]
}

/// "frequency"
pub open spec fn frequency_tag() -> Seq<u8> {
    seq![102u8, 114u8, 101u8, 113u8, 117u8, 101u8, 110u8, 99u8, 121u8]
}

/// "voltage"
pub open spec fn voltage_tag() -> Seq<u8> {
    seq![118u8, 111u8, 108u8, 116u8, 97u8, 103u8, 101u8]
}

/// "device_current"
pub open spec fn current_tag() -> Seq<u8> {
    seq![100u8, 101u8, 118u8, 105u8, 99u8, 101u8, 95u8, 99u8, 117u8, 114u8, 114u8, 101u8, 110u8, 116u8]
}

/// The kind named by a type tag of the header.
pub open spec fn type_of_tag(tag: Seq<u8>) -> VariableType {
    if tag == frequency_tag() {
        VariableType::Frequency
    } else if tag == voltage_tag() {
        VariableType::Voltage
    } else if tag == current_tag() {
        VariableType::Current
    } else {
        VariableType::Unknown
    }
}

/// The variable declared by the four tab-separated fields `index, id, name, tag`.
pub open spec fn declaration_of(f: Seq<Seq<u8>>) -> Option<VariableView> {
    match unsigned_of(f[1], 65535) {
        Some(id) => if valid_utf8(f[2]) {
            Some(VariableView { id: id as u16, name: decode_utf8(f[2]), var_type: type_of_tag(f[3]) })
        } else {
            None
        },
        None => None,
    }
}

/// The declarations after reading `line` while the variable list is open or not.
pub open spec fn list_line(in_list: bool, line: Seq<u8>, vars: Seq<VariableView>) -> Option<
    Seq<VariableView>,
> {
    if in_list && fields(line, 9).len() == 4 {
        match declaration_of(fields(line, 9)) {
            Some(v) => Some(vars.push(v)),
            None => None,
        }
    } else {
        Some(vars)
    }
}

/// The number after the first colon of a "No. Variables" or "No. Points" line.
pub open spec fn count_of(line: Seq<u8>) -> Option<nat> {
    if fields(line, 58).len() >= 2 {
        unsigned_of(trim(fields(line, 58)[1]), usize::MAX as nat)
    } else {
        None
    }
}

/// The header read from line `k` on, with the variable list open or not, the
/// variable count declared so far, the variables declared so far and the
/// point count read so far. At the "Binary" line, a declared variable count
/// must match the variables listed.
pub open spec fn header_scan(
    lines: Seq<Seq<u8>>,
    k: int,
    in_list: bool,
    declared: Option<nat>,
    vars: Seq<VariableView>,
    points: nat,
) -> Result<(Seq<VariableView>, nat), ErrorView>
    decreases lines.len() - k,
{
    if k < 0 || k >= lines.len() {
        Err(ErrorView::MalformedHeader(None))
    } else {
        let line = line_body(lines[k]);
        if contains(line, no_variables_marker()) {
            match count_of(line) {
                Some(n) => header_scan(lines, k + 1, false, Some(n), vars, points),
                None => Err(ErrorView::MalformedHeader(None)),
            }
        } else if contains(line, variables_marker()) {
            match list_line(true, line, vars) {
                Some(v) => header_scan(lines, k + 1, true, declared, v, points),
                None => Err(ErrorView::MalformedHeader(None)),
            }
        } else if contains(line, no_points_marker()) {
            match count_of(line) {
                Some(p) => header_scan(lines, k + 1, false, declared, vars, p),
                None => Err(ErrorView::MalformedHeader(None)),
            }
        } else if contains(line, binary_word()) {
            match declared {
                Some(n) => if n == vars.len() {
                    Ok((vars, points))
                } else {
                    Err(ErrorView::MalformedHeader(None))
                },
                None => Ok((vars, points)),
            }
        } else {
            match list_line(in_list, line, vars) {
                Some(v) => header_scan(lines, k + 1, in_list, declared, v, points),
                None => Err(ErrorView::MalformedHeader(None)),
            }
        }
    }
}

/// The variables and the total point count declared by a results-file header.
pub open spec fn header_of(text: Seq<u8>) -> Result<(Seq<VariableView>, nat), ErrorView> {
    header_scan(fields(text, 10), 0, false, None, seq![], 0)
}

fn type_from_tag(tag: &[u8]) -> (r: VariableType)
    ensures
        r == type_of_tag(tag@),
{
    let frequency: [u8; 9] = [102, 114, 101, 113, 117, 101, 110, 99, 121];
    let voltage: [u8; 7] = [118, 111, 108, 116, 97, 103, 101];
    let current: [u8; 14] = [100, 101, 118, 105, 99, 101, 95, 99, 117, 114, 114, 101, 110, 116];
    proof {
        assert(frequency@ =~= frequency_tag());
        assert(voltage@ =~= voltage_tag());
        assert(current@ =~= current_tag());
    }
    if equal_bytes(tag, &frequency) {
        VariableType::Frequency
    } else if equal_bytes(tag, &voltage) {
        VariableType::Voltage
    } else if equal_bytes(tag, &current) {
        VariableType::Current
    } else {
        VariableType::Unknown
    }
}

fn read_list_line(in_list: bool, line: &[u8], vars: &mut Vec<SimulationVariable>) -> (ok: bool)
    ensures
        match list_line(in_list, line@, variable_views(old(vars)@)) {
            Some(v) => ok && variable_views(final(vars)@) == v,
            None => !ok,
        },
{
    if !in_list {
        return true;
    }
    let f = split_bytes(line, 9);
    proof {
        assert(f@.len() == fields(line@, 9).len());
    }
    if f.len() != 4 {
        return true;
    }
    proof {
        assert(views(f@)[1] == f@[1]@);
        assert(views(f@)[2] == f@[2]@);
        assert(views(f@)[3] == f@[3]@);
    }
    match parse_unsigned(f[1].as_slice(), 65535) {
        Some(id) => {
            let name_bytes = copy_range(f[2].as_slice(), 0, f[2].len());
            proof {
                assert(f@[2]@.subrange(0, f@[2]@.len() as int) =~= f@[2]@);
            }
            match string_from_utf8(name_bytes) {
                Some(name) => {
                    let var_type = type_from_tag(f[3].as_slice());
                    let v = SimulationVariable { id: id as u16, name, var_type };
                    proof {
                        assert(variable_views(old(vars)@.push(v)) =~= variable_views(
                            old(vars)@,
                        ).push(v@));
                    }
                    vars.push(v);
                    true
                },
                None => false,
            }
        },
        None => false,
    }
}

fn read_count(line: &[u8]) -> (r: Option<usize>)
    ensures
        match count_of(line@) {
            Some(p) => r == Some(p as usize),
            None => r is None,
        },
{
    let f = split_bytes(line, 58);
    proof {
        assert(f@.len() == fields(line@, 58).len());
    }
    if f.len() < 2 {
        return None;
    }
    proof {
        assert(views(f@)[1] == f@[1]@);
    }
    let t = trim_bytes(f[1].as_slice());
    parse_unsigned(t.as_slice(), usize::MAX)
}

/// Reads the header of a results file: the declared variables, in order, and
/// the total number of points.
pub fn parse_header(text: &[u8]) -> (r: Result<Header, SimulationError>)
    ensures
        match header_of(text@) {
            Ok((vs, p)) => r is Ok && variable_views(r->Ok_0.variables@) == vs && r->Ok_0.points
                == p,
            Err(e) => r is Err && r->Err_0@ == e,
        },
{
    let no_variables: [u8; 13] = [78, 111, 46, 32, 86, 97, 114, 105, 97, 98, 108, 101, 115];
    let variables: [u8; 9] = [86, 97, 114, 105, 97, 98, 108, 101, 115];
    let no_points: [u8; 10] = [78, 111, 46, 32, 80, 111, 105, 110, 116, 115];
    let binary: [u8; 6] = [66, 105, 110, 97, 114, 121];
    proof {
        assert(no_variables@ =~= no_variables_marker());
        assert(variables@ =~= variables_marker());
        assert(no_points@ =~= no_points_marker());
        assert(binary@ =~= binary_word());
    }
    let lines = split_bytes(text, 10);
    let ghost ls = fields(text@, 10);
    let mut vars: Vec<SimulationVariable> = Vec::new();
    let mut points: usize = 0;
    let mut in_list = false;
    let mut declared: Option<usize> = None;
    let mut k: usize = 0;
    proof {
        assert(variable_views(vars@) =~= seq![]);
    }
    while k < lines.len()
        invariant
            views(lines@) == ls,
            ls == fields(text@, 10),
            k <= lines@.len(),
            no_variables@ == no_variables_marker(),
            variables@ == variables_marker(),
            no_points@ == no_points_marker(),
            binary@ == binary_word(),
            header_of(text@) == header_scan(
                ls,
                k as int,
                in_list,
                match declared {
                    Some(n) => Some(n as nat),
                    None => None,
                },
                variable_views(vars@),
                points as nat,
            ),
        decreases lines@.len() - k,
    {
        proof {
            assert(views(lines@)[k as int] == lines@[k as int]@);
        }
        let line = strip_cr(lines[k].as_slice());
        let has_no_variables = contains_bytes(line.as_slice(), &no_variables);
        let has_variables = contains_bytes(line.as_slice(), &variables);
        let has_no_points = contains_bytes(line.as_slice(), &no_points);
        let has_binary = contains_bytes(line.as_slice(), &binary);
        proof {
            assert(ls.len() == lines@.len());
            assert(line@ == line_body(ls[k as int]));
            assert(has_no_variables == contains(line@, no_variables_marker()));
            assert(has_variables == contains(line@, variables_marker()));
            assert(has_no_points == contains(line@, no_points_marker()));
            assert(has_binary == contains(line@, binary_word()));
        }
        if has_no_variables {
            in_list = false;
            match read_count(line.as_slice()) {
                Some(n) => {
                    declared = Some(n);
                },
                None => {
                    return Err(SimulationError::MalformedHeader(None));
                },
            }
        } else if has_variables {
            in_list = true;
            if !read_list_line(true, line.as_slice(), &mut vars) {
                return Err(SimulationError::MalformedHeader(None));
            }
        } else if has_no_points {
            in_list = false;
            match read_count(line.as_slice()) {
                Some(p) => {
                    points = p;
                },
                None => {
                    return Err(SimulationError::MalformedHeader(None));
                },
            }
        } else if has_binary {
            proof {
                assert(vars@.len() == variable_views(vars@).len());
            }
            match declared {
                Some(n) => {
                    if n != vars.len() {
                        return Err(SimulationError::MalformedHeader(None));
                    }
                },
                None => {},
            }
            return Ok(Header { variables: vars, points });
        } else {
            if !read_list_line(in_list, line.as_slice(), &mut vars) {
                return Err(SimulationError::MalformedHeader(None));
            }
        }
        k += 1;
    }
    Err(SimulationError::MalformedHeader(None))
}

} // verus!
