use sgpe::output::{
    csv_document, debug_output_requested, labelled_lines, parameter_document, run_dir_name, step_file_name,
    zero_padded_decimal,
};

#[test]
fn zero_padding_matches_format() {
    assert_eq!(zero_padded_decimal(0, 6), "000000");
    assert_eq!(zero_padded_decimal(42, 6), format!("{:06}", 42));
    assert_eq!(zero_padded_decimal(1234567, 6), "1234567");
    assert_eq!(zero_padded_decimal(u64::MAX, 4), u64::MAX.to_string());
    assert_eq!(zero_padded_decimal(7, 0), "7");
}

#[test]
fn trajectory_file_names() {
    assert_eq!(step_file_name(0), "step_000000.txt");
    assert_eq!(step_file_name(6000), "step_006000.txt");
    assert_eq!(step_file_name(1_000_000), "step_1000000.txt");
}

#[test]
fn run_directory_names() {
    assert_eq!(run_dir_name(7), "run_0007");
    assert_eq!(run_dir_name(12345), "run_12345");
}

#[test]
fn csv_layout_of_a_grid() {
    let rows = vec![
        vec!["1".to_string(), "2".to_string(), "3".to_string()],
        vec!["4".to_string(), "5".to_string(), "6".to_string()],
    ];
    assert_eq!(csv_document(&rows), "1,2,3\n4,5,6\n");
}

#[test]
fn csv_layout_edge_cases() {
    assert_eq!(csv_document(&vec![]), "");
    assert_eq!(csv_document(&vec![vec![]]), "\n");
    assert_eq!(csv_document(&vec![vec!["x".to_string()]]), "x\n");
}

#[test]
fn labelled_lines_layout() {
    let entries = vec![
        ("completed_steps".to_string(), "12".to_string()),
        ("save_full_trajectory".to_string(), "false".to_string()),
    ];
    assert_eq!(
        labelled_lines(&entries, " = "),
        "completed_steps = 12\nsave_full_trajectory = false\n"
    );
    assert_eq!(labelled_lines(&vec![], ": "), "");
}

#[test]
fn debug_switch_values() {
    assert!(!debug_output_requested(None));
    assert!(!debug_output_requested(Some("")));
    assert!(!debug_output_requested(Some("0")));
    assert!(debug_output_requested(Some("1")));
    assert!(debug_output_requested(Some("00")));
    assert!(debug_output_requested(Some("yes")));
}

#[test]
fn parameter_file_ends_with_eof() {
    let entries = vec![("trap depth".to_string(), "0.0000e0".to_string())];
    assert_eq!(parameter_document(&entries), "trap depth: 0.0000e0\nEOF\n");
    assert_eq!(parameter_document(&vec![]), "EOF\n");
}
