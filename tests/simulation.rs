use ltspice::{SimulationError, SteppedSimulation, SteppingVariable, VariableType};

fn header(points: usize) -> Vec<u8> {
    let text = format!(
        "Title: * test circuit\nPlotname: AC Analysis\nFlags: complex forward stepped\nNo. Variables: 2\nNo. Points: {}\nVariables:\n\t0\tfrequency\tfrequency\n\t1\tV(vout)\tvoltage\nBinary:\n",
        points
    );
    text.into_bytes()
}

/// A results file whose sample `j` of variable `v` is `(100 * v + j) + i * (-(100 * v + j))`.
fn results_file(vars: usize, points: usize) -> Vec<u8> {
    let mut raw = header(points);
    for j in 0..points {
        for v in 0..vars {
            let value = (100 * v + j) as f64;
            raw.extend_from_slice(&value.to_le_bytes());
            raw.extend_from_slice(&(-value).to_le_bytes());
        }
    }
    raw
}

fn log_file() -> Vec<u8> {
    b"Circuit: * test circuit\n.step r1=1000 c1=1e-06\n.step r1=2000 c1=1e-06\nDate: today\n".to_vec()
}

fn stepping(name: &str, value: &str) -> SteppingVariable {
    SteppingVariable { name: name.to_string(), value: value.to_string() }
}

#[test]
fn reads_steps_variables_and_blocks() {
    let sim = SteppedSimulation::from_contents(&results_file(2, 6), &log_file()).unwrap();
    let steps = sim.available_steps();
    assert_eq!(steps.len(), 2);
    assert_eq!(steps[0], vec![stepping("r1", "1000"), stepping("c1", "1e-06")]);
    assert_eq!(steps[1], vec![stepping("r1", "2000"), stepping("c1", "1e-06")]);
    let vars = sim.available_variables();
    assert_eq!(vars.len(), 2);
    assert_eq!(vars[0].id, 0);
    assert_eq!(vars[0].name, "frequency");
    assert_eq!(vars[0].var_type, VariableType::Frequency);
    assert_eq!(vars[1].id, 1);
    assert_eq!(vars[1].name, "V(vout)");
    assert_eq!(vars[1].var_type, VariableType::Voltage);
    assert_eq!(sim.simulation_points(), 6);
    assert_eq!(sim.points_per_block(), 3);
    for step in steps {
        let block = sim.get_values_at(step).unwrap();
        assert_eq!(block.len(), 2);
        for r in &block {
            assert_eq!(r.len(), 3);
        }
    }
}

#[test]
fn decodes_little_endian_doubles() {
    let sim = SteppedSimulation::from_contents(&results_file(2, 6), &log_file()).unwrap();
    let steps = sim.available_steps();
    let vars = sim.available_variables();
    let r = sim.get_values_for_variable_at(&steps[1], &vars[1]).unwrap();
    let reals: Vec<f64> = r.reals().iter().map(|b| f64::from_bits(*b)).collect();
    let imags: Vec<f64> = r.imags().iter().map(|b| f64::from_bits(*b)).collect();
    assert_eq!(reals, vec![103.0, 104.0, 105.0]);
    assert_eq!(imags, vec![-103.0, -104.0, -105.0]);
    assert_eq!(r.variable().name, "V(vout)");
}

#[test]
fn slices_join_to_whole_sequence() {
    let sim = SteppedSimulation::from_contents(&results_file(2, 6), &log_file()).unwrap();
    let steps = sim.available_steps();
    let vars = sim.available_variables();
    for var in vars {
        let mut joined: Vec<u64> = Vec::new();
        for step in steps {
            let r = sim.get_values_for_variable_at(step, var).unwrap();
            joined.extend_from_slice(r.reals());
        }
        let expected: Vec<u64> =
            (0..6).map(|j| ((100 * var.id as usize + j) as f64).to_bits()).collect();
        assert_eq!(joined, expected);
    }
}

#[test]
fn parameters_come_from_first_step() {
    let sim = SteppedSimulation::from_contents(&results_file(2, 6), &log_file()).unwrap();
    assert_eq!(sim.available_parameters(), vec!["r1".to_string(), "c1".to_string()]);
}

#[test]
fn no_parameters_without_assignments() {
    let log = b".step\n".to_vec();
    let sim = SteppedSimulation::from_contents(&results_file(2, 4), &log).unwrap();
    assert_eq!(sim.available_parameters(), Vec::<String>::new());
    assert_eq!(sim.points_per_block(), 4);
}

#[test]
fn looks_up_variables_by_name() {
    let sim = SteppedSimulation::from_contents(&results_file(2, 6), &log_file()).unwrap();
    assert_eq!(sim.get_variable_for_name("V(vout)").unwrap().id, 1);
    assert!(sim.get_variable_for_name("V(vin)").is_none());
}

#[test]
fn unknown_step_and_variable_are_reported() {
    let sim = SteppedSimulation::from_contents(&results_file(2, 6), &log_file()).unwrap();
    let steps = sim.available_steps();
    let vars = sim.available_variables();
    let other = vec![stepping("r1", "3000")];
    assert_eq!(sim.get_values_at(&other).err(), Some(SimulationError::StepNotFound));
    assert_eq!(
        sim.get_values_for_variable_at(&other, &vars[0]).err(),
        Some(SimulationError::StepNotFound)
    );
    let mut var = vars[1].clone();
    var.id = 7;
    assert_eq!(
        sim.get_values_for_variable_at(&steps[0], &var).err(),
        Some(SimulationError::VariableNotFound)
    );
    assert_eq!(sim.position_of_step(&steps[1]), Some(1));
    assert_eq!(sim.position_of_variable(&vars[1]), Some(1));
}

#[test]
fn missing_binary_marker_is_unexpected_eof() {
    let raw = b"No. Variables: 1\nNo. Points: 2\nVariables:\n\t0\tfrequency\tfrequency\n".to_vec();
    assert_eq!(
        SteppedSimulation::from_contents(&raw, &log_file()).err(),
        Some(SimulationError::UnexpectedEof)
    );
}

#[test]
fn log_word_without_equals_is_malformed() {
    let log = b".step r1=1000 c1\n".to_vec();
    assert_eq!(
        SteppedSimulation::from_contents(&results_file(2, 6), &log).err(),
        Some(SimulationError::MalformedHeader(Some(b"c1".to_vec())))
    );
}

#[test]
fn uneven_points_are_malformed() {
    assert_eq!(
        SteppedSimulation::from_contents(&results_file(2, 5), &log_file()).err(),
        Some(SimulationError::MalformedHeader(None))
    );
}

#[test]
fn log_without_steps_is_malformed() {
    let log = b"Circuit: * test circuit\n".to_vec();
    assert_eq!(
        SteppedSimulation::from_contents(&results_file(2, 6), &log).err(),
        Some(SimulationError::MalformedHeader(None))
    );
}

#[test]
fn short_payload_is_unexpected_eof() {
    let mut raw = results_file(2, 6);
    raw.truncate(raw.len() - 16);
    assert_eq!(
        SteppedSimulation::from_contents(&raw, &log_file()).err(),
        Some(SimulationError::UnexpectedEof)
    );
}

#[test]
fn partial_record_is_unexpected_eof() {
    let mut raw = results_file(2, 6);
    raw.extend_from_slice(&[0u8; 5]);
    assert_eq!(
        SteppedSimulation::from_contents(&raw, &log_file()).err(),
        Some(SimulationError::UnexpectedEof)
    );
}

#[test]
fn extra_records_are_malformed() {
    let mut raw = results_file(2, 6);
    raw.extend_from_slice(&[0u8; 32]);
    assert_eq!(
        SteppedSimulation::from_contents(&raw, &log_file()).err(),
        Some(SimulationError::MalformedHeader(None))
    );
}
