use ltspice::{parse_header, parse_log, SimulationError, SteppingVariable, VariableType};

#[test]
fn header_declares_variables_and_points() {
    let text = b"Title: x\nNo. Variables: 4\nNo. Points:   42 \nVariables:\n\t0\tfrequency\tfrequency\n\t5\tV(out)\tvoltage\n\t9\tI(R1)\tdevice_current\n\t10\tX\tcharge\nBinary:\n";
    let h = parse_header(text).unwrap();
    assert_eq!(h.points, 42);
    assert_eq!(h.variables.len(), 4);
    assert_eq!(h.variables[1].id, 5);
    assert_eq!(h.variables[1].name, "V(out)");
    assert_eq!(h.variables[0].var_type, VariableType::Frequency);
    assert_eq!(h.variables[1].var_type, VariableType::Voltage);
    assert_eq!(h.variables[2].var_type, VariableType::Current);
    assert_eq!(h.variables[3].var_type, VariableType::Unknown);
}

#[test]
fn header_accepts_crlf_lines() {
    let text = b"No. Points: 8\r\nVariables:\r\n\t0\tfrequency\tfrequency\r\nBinary:\r\n";
    let h = parse_header(text).unwrap();
    assert_eq!(h.points, 8);
    assert_eq!(h.variables[0].var_type, VariableType::Frequency);
}

#[test]
fn header_ignores_lines_with_other_field_counts() {
    let text = b"Variables:\n\t0\tfrequency\n\n\t1\tV(a)\tvoltage\nBinary:\n";
    let h = parse_header(text).unwrap();
    assert_eq!(h.variables.len(), 1);
    assert_eq!(h.variables[0].name, "V(a)");
}

#[test]
fn header_without_binary_line_is_malformed() {
    let text = b"No. Points: 8\nVariables:\n";
    assert_eq!(parse_header(text).err(), Some(SimulationError::MalformedHeader(None)));
}

#[test]
fn header_with_bad_id_is_malformed() {
    let text = b"Variables:\n\t70000\tV(a)\tvoltage\nBinary:\n";
    assert_eq!(parse_header(text).err(), Some(SimulationError::MalformedHeader(None)));
    let text = b"Variables:\n\tz1\tV(a)\tvoltage\nBinary:\n";
    assert_eq!(parse_header(text).err(), Some(SimulationError::MalformedHeader(None)));
}

#[test]
fn header_with_bad_point_count_is_malformed() {
    let text = b"No. Points: many\nBinary:\n";
    assert_eq!(parse_header(text).err(), Some(SimulationError::MalformedHeader(None)));
    let text = b"No. Points 12\nBinary:\n";
    assert_eq!(parse_header(text).err(), Some(SimulationError::MalformedHeader(None)));
}

#[test]
fn header_with_invalid_utf8_name_is_malformed() {
    let text = b"Variables:\n\t0\t\xff\xfe\tvoltage\nBinary:\n";
    assert_eq!(parse_header(text).err(), Some(SimulationError::MalformedHeader(None)));
}

#[test]
fn log_lists_steps_in_order() {
    let log = b"x\n.step a=1\tb=2.5\nnot a .step a=9\n.step a=3 b=4\n";
    let steps = parse_log(log).unwrap();
    assert_eq!(steps.len(), 2);
    assert_eq!(steps[0].len(), 2);
    assert_eq!(steps[0][1].name, "b");
    assert_eq!(steps[0][1].value, "2.5");
    assert_eq!(steps[1][0].value, "3");
}

#[test]
fn log_word_with_two_equals_is_malformed() {
    assert_eq!(parse_log(b".step a=1=2\n").err(),
        Some(SimulationError::MalformedHeader(Some(b"a=1=2".to_vec()))));
    assert_eq!(parse_log(b".step b=2 =1\n").err(),
        Some(SimulationError::MalformedHeader(Some(b"=1".to_vec()))));
}

#[test]
fn empty_log_has_no_steps() {
    assert_eq!(parse_log(b"").unwrap().len(), 0);
}

#[test]
fn header_with_wrong_variable_count_is_malformed() {
    let text = b"No. Variables: 2\nVariables:\n\t0\tfrequency\tfrequency\nBinary:\n";
    assert_eq!(parse_header(text).err(), Some(SimulationError::MalformedHeader(None)));
    let text = b"No. Variables: some\nBinary:\n";
    assert_eq!(parse_header(text).err(), Some(SimulationError::MalformedHeader(None)));
}

#[test]
fn stepping_variable_from_word() {
    let v = SteppingVariable::new("Rload=4.7k").unwrap();
    assert_eq!(v.name, "Rload");
    assert_eq!(v.value, "4.7k");
    assert_eq!(SteppingVariable::new("Rload").err(),
        Some(SimulationError::MalformedHeader(Some(b"Rload".to_vec()))));
    assert_eq!(SteppingVariable::new("Rload=").err(),
        Some(SimulationError::MalformedHeader(Some(b"Rload=".to_vec()))));
}
