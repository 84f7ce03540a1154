use assignment_solver::io::csv::{CsvReader, CsvWriter, ReadError};
use assignment_solver::io::text::{parse_count, split_fields, trim_text, NumberError};
use assignment_solver::io::{reader_factory, writer_factory, FileType};
use assignment_solver::network::model::InputError;
use assignment_solver::network::Network;

const TASK_NAMES: &str = ",Task 1, Task 2 ,Task 3,Task 4,Task 5";
const TASK_MINIMA: &str = "Minimum,1,2,0, 2,1";
const TASK_MAXIMA: &str = "Maximum,2,2,2,3 ,2";

fn costs(fields: &[Option<String>]) -> Vec<Option<i64>> {
    fields
        .iter()
        .map(|field| field.as_ref().map(|text| (text.parse::<f64>().unwrap() * 1000.0).round() as i64))
        .collect()
}

fn read_table(lines: &[&str]) -> (CsvReader, Network) {
    let mut reader = CsvReader::new();
    let mut network = Network::new();
    reader.process_tasks(&mut network, lines[0], lines[1], lines[2]).unwrap();
    for line in &lines[3..] {
        let (name, fields) = reader.worker_fields(line);
        reader.process_worker(&mut network, name, &costs(&fields)).unwrap();
    }
    (reader, network)
}

const TEST_INPUT: [&str; 13] = [
    TASK_NAMES,
    TASK_MINIMA,
    TASK_MAXIMA,
    "Worker 1,3.0,4.0,1.5,1.5,5.0",
    "Worker 2,4.0,3.0,6.0,2.0,1.0",
    "Worker 3,2.0,5.0,4.0,1.0,3.0",
    "Worker 4,3.0,5.0,1.0,4.0,0.0",
    "Worker 5,1.0,4.0,2.0,3.0,5.0",
    "Worker 6,5.0,3.0,1.0,4.0,2.0",
    "Worker 7,1.0,3.0,5.0,4.0,2.0",
    "Worker 8,4.0,3.0,5.0,1.0,2.0",
    "Worker 9,5.0,2.0,3.0,4.0,1.0",
    "Worker 10,2.0,5.0,1.0,3.0,4.0",
];

#[test]
fn test_read() {
    let (reader, mut network) = read_table(&TEST_INPUT);
    network.find_min_cost_max_flow().unwrap();
    let total_cost = -network.get_cost_of_arcs_from_nodes(&reader.clone_task_names()) as f32 / 1000.0;
    assert!((total_cost - 12.5_f32).abs() / 12.5_f32 < 5e-10_f32);
}

#[test]
fn test_read_bad_task_min() {
    let mut reader = CsvReader::new();
    let mut network = Network::new();
    let result = reader.process_tasks(&mut network, ",T1,T2", ",1,a", ",1,1");
    assert!(result.is_err());
    assert!(matches!(result, Err(ReadError::BadMinimum { error: NumberError::InvalidDigit, .. })));
    assert_eq!(
        result.err().unwrap().describe(),
        r#"Expected integer minimum, found "a"; error: invalid digit found in string"#
    );
    assert_eq!(network.num_nodes(), 2);
    assert_eq!(reader.clone_task_names().len(), 0);
}

#[test]
fn test_read_bad_task_max() {
    let mut reader = CsvReader::new();
    let mut network = Network::new();
    let result = reader.process_tasks(&mut network, ",T1,T2", ",1,1", ",b,1");
    assert!(result.is_err());
    assert!(matches!(result, Err(ReadError::BadMaximum { error: NumberError::InvalidDigit, .. })));
    assert_eq!(
        result.err().unwrap().describe(),
        r#"Expected integer maximum, found "b"; error: invalid digit found in string"#
    );
}

#[test]
fn test_read_max_lt_min() {
    let mut reader = CsvReader::new();
    let mut network = Network::new();
    let result = reader.process_tasks(&mut network, ",T1,T2", ",1,3", ",1,2");
    assert!(result.is_err());
    assert!(matches!(result, Err(ReadError::MaxBelowMin)));
    assert_eq!(result.err().unwrap().describe(), "Maximum cannot be less than minimum!");
    assert_eq!(network.num_nodes(), 2);
}

#[test]
fn test_read_wrong_number_of_task_data() {
    let mut reader = CsvReader::new();
    let mut network = Network::new();
    let result = reader.process_tasks(&mut network, ",T1,T2", ",1,1,1", ",1,1");
    assert!(result.is_err());
    assert!(matches!(result, Err(ReadError::MismatchedTaskData)));
    assert_eq!(
        result.err().unwrap().describe(),
        "Mismatched input data for tasks: each task must have both a minimum and a maximum \
                number of workers specified."
    );
}

#[test]
fn test_read_wrong_number_of_affinities() {
    let mut reader = CsvReader::new();
    let mut network = Network::new();
    reader.process_tasks(&mut network, TASK_NAMES, TASK_MINIMA, TASK_MAXIMA).unwrap();
    let (name, fields) = reader.worker_fields(" Gina ,1.0,2.0,3.0,4.0");
    assert_eq!(fields.len(), 4);
    let result = reader.process_worker(&mut network, name, &costs(&fields));
    assert!(result.is_err());
    assert_eq!(result.err().unwrap().describe(), "Too few task affinities for worker Gina!");
    let result = reader.process_worker(&mut network, "Gina".to_string(), &vec![Some(1), None]);
    assert!(matches!(result, Err(ReadError::TooFewAffinities { .. })));
    assert_eq!(network.num_nodes(), 7);
}

#[test]
fn test_write() {
    let (reader, mut network) = read_table(&TEST_INPUT);
    network.find_min_cost_max_flow().unwrap();
    let writer = CsvWriter::new(reader.clone_task_names());
    assert_eq!(writer.header(), "Task 1,Task 2,Task 3,Task 4,Task 5");
    let lines = writer.get_assignments(&network);
    assert_eq!(lines.len(), 3);
    let mut workers = 0;
    for line in &lines {
        let cells: Vec<&str> = line.split(',').collect();
        assert_eq!(cells.len(), 5);
        workers += cells.iter().filter(|cell| !cell.is_empty()).count();
    }
    assert_eq!(workers, 10);
    let assignments = network.get_worker_assignments();
    for (column, (_, names)) in assignments.iter().enumerate() {
        for (row, name) in names.iter().enumerate() {
            assert_eq!(lines[row].split(',').nth(column).unwrap(), name);
        }
    }
}

#[test]
fn tasks_are_read_from_the_second_column_on() {
    let mut reader = reader_factory(FileType::Csv);
    let mut network = Network::new();
    reader.process_tasks(&mut network, TASK_NAMES, TASK_MINIMA, TASK_MAXIMA).unwrap();
    assert_eq!(reader.clone_task_names(), vec!["Task 1", "Task 2", "Task 3", "Task 4", "Task 5"]);
    assert_eq!(network.num_nodes(), 7);
    assert_eq!(network.num_arcs(), 5);
    assert_eq!(network.arc(3).get_min_flow(), 2);
    assert_eq!(network.arc(3).get_max_flow(), 3);
    assert_eq!(network.task_id_of("Task 2"), Some(3));
}

#[test]
fn a_blank_cost_means_the_task_is_not_accepted() {
    let mut reader = CsvReader::new();
    let mut network = Network::new();
    reader.process_tasks(&mut network, ",A,B,C", ",0,0,0", ",1,1,1").unwrap();
    let (name, fields) = reader.worker_fields("Ann,1.5,,2,ignored");
    assert_eq!(name, "Ann");
    assert_eq!(fields, vec![Some("1.5".to_string()), None, Some("2".to_string())]);
    reader.process_worker(&mut network, name, &costs(&fields)).unwrap();
    assert_eq!(network.node(5).get_num_connections(), 2);
    assert_eq!(network.arc(4).get_end_node_id(), 2);
    assert_eq!(network.arc(4).get_cost(), 1500);
    assert_eq!(network.arc(5).get_end_node_id(), 4);
    assert_eq!(network.arc(5).get_cost(), 2000);
}

#[test]
fn what_the_network_refuses_is_passed_on() {
    let mut reader = CsvReader::new();
    let mut network = Network::new();
    reader.process_tasks(&mut network, ",A,A", ",0,0", ",1,1").unwrap();
    let result = reader.process_worker(&mut network, "Ann".to_string(), &vec![Some(1), Some(2)]);
    assert!(matches!(result, Err(ReadError::Rejected(InputError::RepeatedTask))));
    assert_eq!(result.err().unwrap().describe(), "Affinity provided twice for one task!");
    let result = reader.process_worker(&mut network, "Ann".to_string(), &vec![Some(i64::MAX), None]);
    assert_eq!(result.err().unwrap().describe(), "Affinity out of range!");

    let mut network = Network::new();
    let mut reader = CsvReader::new();
    let huge = format!(",{},1", usize::MAX);
    let result = reader.process_tasks(&mut network, ",A,B", ",0,0", &huge);
    assert_eq!(result.err().unwrap().describe(), "Too many workers asked for in total!");
    assert_eq!(network.num_nodes(), 2);
}

#[test]
fn test_read_empty_input() {
    let mut reader = CsvReader::new();
    let mut network = Network::new();
    let result = reader.process_header(&mut network, &Vec::new());
    assert!(result.is_err());
    assert!(matches!(result, Err(ReadError::EmptyInput)));
    assert_eq!(result.err().unwrap().describe(), "Empty input file!");
}

#[test]
fn a_table_needs_three_lines_of_tasks() {
    let mut reader = CsvReader::new();
    let mut network = Network::new();
    let lines: Vec<String> = vec![TASK_NAMES.into(), TASK_MINIMA.into(), TASK_MAXIMA.into()];
    let result = reader.process_header(&mut network, &lines[..1].to_vec());
    assert!(matches!(result, Err(ReadError::NoMinima)));
    let result = reader.process_header(&mut network, &lines[..2].to_vec());
    assert!(matches!(result, Err(ReadError::NoMaxima)));
    assert_eq!(network.num_nodes(), 2);
    reader.process_header(&mut network, &lines).unwrap();
    assert_eq!(network.num_nodes(), 7);
    assert_eq!(reader.clone_task_names().len(), 5);
}

#[test]
fn messages_of_the_missing_lines() {
    assert_eq!(ReadError::EmptyInput.describe(), "Empty input file!");
    assert_eq!(ReadError::NoMinima.describe(), "No minimum requirements for tasks!");
    assert_eq!(ReadError::NoMaxima.describe(), "No maximum capacities for tasks!");
    assert_eq!(ReadError::Rejected(InputError::UnknownTask).describe(), "Affinity provided for unknown task!");
    assert_eq!(ReadError::Rejected(InputError::MaxBelowMin).describe(), "Maximum cannot be less than minimum!");
}

#[test]
fn the_writer_lays_out_one_column_per_task() {
    let mut network = Network::new();
    network.add_task("A".into(), 0, 2).unwrap();
    network.add_task("B".into(), 0, 2).unwrap();
    network.add_task("C".into(), 0, 2).unwrap();
    network.add_worker("w1".into(), &vec![("A".to_string(), 1)]).unwrap();
    network.add_worker("w2".into(), &vec![("C".to_string(), 1)]).unwrap();
    network.add_worker("w3".into(), &vec![("A".to_string(), 1)]).unwrap();
    network.find_min_cost_max_flow().unwrap();
    let writer = writer_factory(FileType::Csv, vec!["A".into(), "B".into(), "C".into()]);
    assert_eq!(writer.header(), "A,B,C");
    // The arc from A to the sink filled up and left the list of A before the
    // second worker arrived, so the workers stand in the order they came.
    assert_eq!(writer.get_assignments(&network), vec!["w1,,w2", "w3,,"]);
    let empty = CsvWriter::new(Vec::new());
    assert_eq!(empty.header(), "");
    assert_eq!(empty.get_assignments(&network), Vec::<String>::new());
}

#[test]
fn lines_split_at_every_comma() {
    assert_eq!(split_fields("a,b,,c"), vec!["a", "b", "", "c"]);
    assert_eq!(split_fields(""), vec![""]);
    assert_eq!(split_fields(","), vec!["", ""]);
    assert_eq!(split_fields("no comma"), vec!["no comma"]);
    assert_eq!(split_fields("é,ü ,"), vec!["é", "ü ", ""]);
}

#[test]
fn blank_space_goes_from_both_ends_only() {
    assert_eq!(trim_text("  a b \t"), "a b");
    assert_eq!(trim_text(""), "");
    assert_eq!(trim_text(" \u{a0}\u{3000}\n"), "");
    assert_eq!(trim_text("x"), "x");
    assert_eq!(trim_text("\u{2003}é\u{85}"), "é");
    for text in ["  a b \t", " \u{a0}\u{3000}\n", "\u{2003}é\u{85}", "\u{200b}x", "\u{1680}y\u{180e}"] {
        assert_eq!(trim_text(text), text.trim());
    }
}

#[test]
fn whole_numbers_are_read_as_the_machine_reads_them() {
    assert_eq!(parse_count("0"), Ok(0));
    assert_eq!(parse_count("+17"), Ok(17));
    assert_eq!(parse_count("007"), Ok(7));
    assert_eq!(parse_count(&usize::MAX.to_string()), Ok(usize::MAX));
    assert_eq!(parse_count(""), Err(NumberError::Empty));
    assert_eq!(parse_count("+"), Err(NumberError::InvalidDigit));
    assert_eq!(parse_count("-1"), Err(NumberError::InvalidDigit));
    assert_eq!(parse_count("1 "), Err(NumberError::InvalidDigit));
    assert_eq!(parse_count("1.5"), Err(NumberError::InvalidDigit));
    assert_eq!(parse_count("18446744073709551616"), Err(NumberError::TooLarge));
    assert_eq!(parse_count("99999999999999999999999x"), Err(NumberError::TooLarge));
    assert_eq!(parse_count("9x9999999999999999999999"), Err(NumberError::InvalidDigit));
    for text in ["0", "+17", "", "+", "-1", "1.5", "18446744073709551616", "18446744073709551615", "٣"] {
        assert_eq!(parse_count(text).is_ok(), text.parse::<usize>().is_ok());
        if let Ok(value) = text.parse::<usize>() {
            assert_eq!(parse_count(text), Ok(value));
        }
    }
}

#[test]
fn the_first_faulty_column_decides_the_error() {
    let mut reader = CsvReader::new();
    let mut network = Network::new();
    // Column 2 has a bad maximum, column 3 a bad minimum: the earlier column counts.
    let result = reader.process_tasks(&mut network, ",A,B,C", ",1,1,x", ",1,y,1");
    assert_eq!(
        result.err().unwrap().describe(),
        r#"Expected integer maximum, found "y"; error: invalid digit found in string"#
    );
    // Within one column the minimum is read first.
    let result = reader.process_tasks(&mut network, ",A", ", ", ",z");
    assert_eq!(
        result.err().unwrap().describe(),
        r#"Expected integer minimum, found " "; error: cannot parse integer from empty string"#
    );
    assert_eq!(network.num_nodes(), 2);
    assert!(reader.clone_task_names().is_empty());
}

#[test]
fn a_short_line_gives_the_fields_it_has() {
    let mut reader = CsvReader::new();
    let mut network = Network::new();
    reader.process_tasks(&mut network, ",A,B,C", ",0,0,0", ",1,1,1").unwrap();
    let (name, fields) = reader.worker_fields("Bob,,7");
    assert_eq!(name, "Bob");
    assert_eq!(fields, vec![None, Some("7".to_string())]);
    let (name, fields) = reader.worker_fields("Eve");
    assert_eq!(name, "Eve");
    assert!(fields.is_empty());
    let result = reader.process_worker(&mut network, name, &costs(&fields));
    assert!(matches!(result, Err(ReadError::TooFewAffinities { .. })));
    assert_eq!(network.num_nodes(), 5);
}
