use vstd::prelude::*;
use vstd::string::*;

use crate::algorithms::algorithm::Algorithms;
use crate::graphs::graph::Node;

verus! {

/// Where the data that makes up the graph comes from.
#[derive(Debug, PartialEq, Eq, Structural)]
pub enum InputOrigin {
    File,
    CommandLine,
}

/// The origin that a name selects: "cmd-line" selects the command line, anything else a file.
pub open spec fn origin_named(src: Seq<char>) -> InputOrigin {
    if src == "cmd-line"@ {
        InputOrigin::CommandLine
    } else {
        InputOrigin::File
    }
}

/// Whether two strings hold the same characters.
fn same_text(a: &str, b: &str) -> (r: bool)
    ensures
        r == (a@ == b@),
{
    a.to_owned() == b.to_owned()
}

impl InputOrigin {
    /// The origin that a name selects; a file unless the name is "cmd-line".
    fn get_from_string(src: &str) -> (r: Self)
        ensures
            r == origin_named(src@),
    {
        proof {
            reveal_strlit("file");
            reveal_strlit("cmd-line");
            assert("file"@[0] != "cmd-line"@[0]);
        }
        if same_text(src, "file") {
            Self::File
        } else if same_text(src, "cmd-line") {
            Self::CommandLine
        } else {
            Self::File
        }
    }
}

/// The characters of each argument.
pub open spec fn args_view(args: Seq<String>) -> Seq<Seq<char>> {
    args.map_values(|a: String| a@)
}

/// The argument after the first occurrence of `flag` at position `i` or later that is followed by
/// a non-empty argument.
pub open spec fn flag_value_from(args: Seq<Seq<char>>, flag: Seq<char>, i: int) -> Option<Seq<char>>
    decreases args.len() - i,
{
    if i < 0 || i + 1 >= args.len() {
        None
    } else if args[i] == flag && args[i + 1].len() > 0 {
        Some(args[i + 1])
    } else {
        flag_value_from(args, flag, i + 1)
    }
}

/// The argument after the first occurrence of `flag` that is followed by a non-empty argument.
pub open spec fn flag_value(args: Seq<Seq<char>>, flag: Seq<char>) -> Option<Seq<char>> {
    flag_value_from(args, flag, 0)
}

/// Message of the error for fewer than four arguments.
pub open spec fn too_few_arguments_message() -> Seq<char> {
    "Not enough arguments passed! ('pathfinder [ --origin <file / cmd-line> --graph-file <path_to_file> --algo <algorithm_name>] --start <node> --end <node>')"@
}

/// Message of the error for a missing start node.
pub open spec fn missing_start_message() -> Seq<char> {
    "A start node haven't been specified! ('--start A')"@
}

/// Message of the error for a missing end node.
pub open spec fn missing_end_message() -> Seq<char> {
    "A end node haven't been specified! ('--end B')"@
}

/// The argument that follows the first `flag` that a non-empty argument follows.
fn argument_after(args: &Vec<String>, flag: &str) -> (r: Option<String>)
    ensures
        r is Some == flag_value(args_view(args@), flag@) is Some,
        r matches Some(v) ==> v@ == flag_value(args_view(args@), flag@)->Some_0,
{
    let ghost a = args_view(args@);
    let mut i: usize = 0;
    while i < args.len() && i + 1 < args.len()
        invariant
            a == args_view(args@),
            i <= args@.len(),
            flag_value(a, flag@) == flag_value_from(a, flag@, i as int),
        decreases args@.len() - i,
    {
        assert(a[i as int] == args@[i as int]@ && a[i + 1] == args@[i + 1]@);
        if same_text(args[i].as_str(), flag) && args[i + 1].as_str().unicode_len() > 0 {
            return Some(args[i + 1].clone());
        }
        i += 1;
    }
    None
}

/// What the program runs on: the graph's file, the two end nodes, the algorithm and where the
/// graph data comes from.
#[derive(Debug)]
pub struct AppConfig {
    pub file_path: String,
    pub start_node: Node,
    pub end_node: Node,
    pub algorithm: Algorithms,
    pub data_input: InputOrigin,
}

impl AppConfig {
    /// Reads the configuration from the program's arguments: `--graph-file <path>` (default
    /// "graph.txt"), `--start <node>` and `--end <node>` (both required), `--algo <name>` and
    /// `--origin <file / cmd-line>` (default file). Fewer than four arguments are refused.
    pub fn setup_config(args: Vec<String>) -> (r: Result<Self, SetupProcessError>)
        ensures
            ({
                let a = args_view(args@);
                let start = flag_value(a, "--start"@);
                let end = flag_value(a, "--end"@);
                if a.len() < 4 {
                    r is Err && r->Err_0.message@ == too_few_arguments_message()
                } else if start is None {
                    r is Err && r->Err_0.message@ == missing_start_message()
                } else if end is None {
                    r is Err && r->Err_0.message@ == missing_end_message()
                } else {
                    &&& r is Ok
                    &&& r->Ok_0.file_path@ == match flag_value(a, "--graph-file"@) {
                        Some(v) => v,
                        None => "graph.txt"@,
                    }
                    &&& r->Ok_0.start_node@ == start->Some_0
                    &&& r->Ok_0.end_node@ == end->Some_0
                    &&& r->Ok_0.algorithm == Algorithms::Dijkstra
                    &&& r->Ok_0.data_input == match flag_value(a, "--origin"@) {
                        Some(v) => origin_named(v),
                        None => InputOrigin::File,
                    }
                }
            }),
    {
        if args.len() < 4 {
            return Err(SetupProcessError::new(String::from_str(
                "Not enough arguments passed! ('pathfinder [ --origin <file / cmd-line> --graph-file <path_to_file> --algo <algorithm_name>] --start <node> --end <node>')",
            )));
        }
        let file_path = AppConfig::retrieve_file_path(&args);
        let algorithm = AppConfig::retrieve_algorithm(&args);
        let data_input = AppConfig::retrieve_data_input(&args);
        let start_node = match AppConfig::retrieve_node(&args, true) {
            Some(node) => node,
            None => {
                return Err(SetupProcessError::new(String::from_str(
                    "A start node haven't been specified! ('--start A')",
                )));
            },
        };
        let end_node = match AppConfig::retrieve_node(&args, false) {
            Some(node) => node,
            None => {
                return Err(SetupProcessError::new(String::from_str(
                    "A end node haven't been specified! ('--end B')",
                )));
            },
        };
        Ok(AppConfig { file_path, algorithm, data_input, start_node, end_node })
    }

    /// The path after `--graph-file`, or "graph.txt".
    fn retrieve_file_path(args: &Vec<String>) -> (r: String)
        ensures
            r@ == match flag_value(args_view(args@), "--graph-file"@) {
                Some(v) => v,
                None => "graph.txt"@,
            },
    {
        match argument_after(args, "--graph-file") {
            Some(path) => path,
            None => String::from_str("graph.txt"),
        }
    }

    /// The node after `--start`, or after `--end`.
    fn retrieve_node(args: &Vec<String>, is_start_node_requested: bool) -> (r: Option<Node>)
        ensures
            ({
                let v = flag_value(
                    args_view(args@),
                    if is_start_node_requested {
                        "--start"@
                    } else {
                        "--end"@
                    },
                );
                &&& r is Some == v is Some
                &&& r matches Some(n) ==> n@ == v->Some_0
            }),
    {
        let flag = if is_start_node_requested {
            "--start"
        } else {
            "--end"
        };
        match argument_after(args, flag) {
            Some(id) => Some(Node::new(id)),
            None => None,
        }
    }

    /// The algorithm after `--algo`; every name selects Dijkstra.
    fn retrieve_algorithm(args: &Vec<String>) -> (r: Algorithms)
        ensures
            r == Algorithms::Dijkstra,
    {
        match argument_after(args, "--algo") {
            Some(name) => Algorithms::get_from_string(name.as_str()),
            None => Algorithms::Dijkstra,
        }
    }

    /// The origin after `--origin`, or a file.
    fn retrieve_data_input(args: &Vec<String>) -> (r: InputOrigin)
        ensures
            r == match flag_value(args_view(args@), "--origin"@) {
                Some(v) => origin_named(v),
                None => InputOrigin::File,
            },
    {
        match argument_after(args, "--origin") {
            Some(name) => InputOrigin::get_from_string(name.as_str()),
            None => InputOrigin::File,
        }
    }
}

/// The error returned when the configuration cannot be read from the arguments.
#[derive(Debug)]
pub struct SetupProcessError {
    /// What went wrong.
    pub message: String,
}

impl SetupProcessError {
    /// Creates the error with its message.
    pub fn new(message: String) -> (r: Self)
        ensures
            r.message == message,
    {
        Self { message }
    }
}

} // verus!
