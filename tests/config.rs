use pathfinder::algorithms::algorithm::Algorithms;
use pathfinder::cmd_line::app_config::{AppConfig, InputOrigin, SetupProcessError};

fn args(list: &[&str]) -> Vec<String> {
    list.iter().map(|s| s.to_string()).collect()
}

#[test]
fn full_configuration() {
    let c = AppConfig::setup_config(args(&[
        "pathfinder", "--graph-file", "g.txt", "--start", "A", "--end", "D", "--algo", "Dijkstra",
        "--origin", "cmd-line",
    ]))
    .unwrap();
    assert_eq!(c.file_path, "g.txt");
    assert_eq!(c.start_node.id, "A");
    assert_eq!(c.end_node.id, "D");
    assert_eq!(c.algorithm, Algorithms::Dijkstra);
    assert_eq!(c.data_input, InputOrigin::CommandLine);
}

#[test]
fn defaults_apply() {
    let c = AppConfig::setup_config(args(&["pathfinder", "--start", "A", "--end", "B"])).unwrap();
    assert_eq!(c.file_path, "graph.txt");
    assert_eq!(c.algorithm, Algorithms::Dijkstra);
    assert_eq!(c.data_input, InputOrigin::File);
    let c = AppConfig::setup_config(args(&["p", "--start", "A", "--end", "B", "--origin", "file"]))
        .unwrap();
    assert_eq!(c.data_input, InputOrigin::File);
    let c = AppConfig::setup_config(args(&["p", "--start", "A", "--end", "B", "--origin", "disk"]))
        .unwrap();
    assert_eq!(c.data_input, InputOrigin::File);
}

#[test]
fn too_few_arguments() {
    let err = AppConfig::setup_config(args(&["pathfinder", "--start", "A"])).unwrap_err();
    assert!(err.message.starts_with("Not enough arguments passed!"));
}

#[test]
fn missing_start_or_end() {
    let err = AppConfig::setup_config(args(&["p", "--end", "B", "--algo", "Dijkstra"])).unwrap_err();
    assert_eq!(err.message, "A start node haven't been specified! ('--start A')");
    let err = AppConfig::setup_config(args(&["p", "--start", "A", "--algo", "x"])).unwrap_err();
    assert_eq!(err.message, "A end node haven't been specified! ('--end B')");
    // a flag in last position has no value
    let err = AppConfig::setup_config(args(&["p", "--start", "A", "--end"])).unwrap_err();
    assert_eq!(err.message, "A end node haven't been specified! ('--end B')");
    // an empty value does not count
    let err = AppConfig::setup_config(args(&["p", "--start", "", "--end", "B"])).unwrap_err();
    assert_eq!(err.message, "A start node haven't been specified! ('--start A')");
    let e = SetupProcessError::new("x".to_string());
    assert_eq!(e.message, "x");
}
