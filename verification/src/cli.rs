//! The command line.
use vstd::prelude::*;

use crate::error::{invalid_data, DataError};
use crate::text::{chars_of, has_prefix, same_text, stands_at, text_of};

verus! {

/// How entries are matched.
#[derive(Clone, Copy, Debug, PartialEq, Eq, Structural)]
pub enum Algorithm {
    Heuristic,
    MaxFlow,
}

/// The algorithm of this name.
pub open spec fn algorithm_named(name: Seq<char>) -> Option<Algorithm> {
    if name == "heuristic"@ {
        Some(Algorithm::Heuristic)
    } else if name == "maxflow"@ {
        Some(Algorithm::MaxFlow)
    } else {
        None
    }
}

impl Algorithm {
    /// The name of the algorithm.
    pub open spec fn name(self) -> Seq<char> {
        match self {
            Algorithm::Heuristic => "heuristic"@,
            Algorithm::MaxFlow => "maxflow"@,
        }
    }

    /// The algorithm of this name.
    pub fn parse(raw: &str) -> (read: Result<Algorithm, DataError>)
        ensures
            match read {
                Ok(algorithm) => algorithm_named(raw@) == Some(algorithm),
                Err(error) => algorithm_named(raw@) is None && error.message@
                    == "unknown algorithm: "@ + raw@,
            },
    {
        if same_text(raw, "heuristic") {
            Ok(Algorithm::Heuristic)
        } else if same_text(raw, "maxflow") {
            Ok(Algorithm::MaxFlow)
        } else {
            Err(invalid_data("unknown algorithm: ".to_owned().concat(raw)))
        }
    }

    /// The name of the algorithm.
    pub fn label(self) -> (text: &'static str)
        ensures
            text@ == self.name(),
    {
        match self {
            Algorithm::Heuristic => "heuristic",
            Algorithm::MaxFlow => "maxflow",
        }
    }

    /// What the algorithm does, in a few words.
    pub fn selection_strategy(self) -> (text: &'static str)
        ensures
            text@ == (match self {
                Algorithm::Heuristic =>
                    "sparse indexed candidates + deterministic augmenting greedy matcher"@,
                Algorithm::MaxFlow =>
                    "max-cardinality flow network + min-cost flow refinement on candidate graph"@,
            }),
    {
        match self {
            Algorithm::Heuristic => {
                "sparse indexed candidates + deterministic augmenting greedy matcher"
            },
            Algorithm::MaxFlow => {
                "max-cardinality flow network + min-cost flow refinement on candidate graph"
            },
        }
    }
}

/// The label of an algorithm is the name by which it is chosen.
pub proof fn lemma_labels_are_names(algorithm: Algorithm)
    ensures
        algorithm_named(algorithm.name()) == Some(algorithm),
{
    reveal_strlit("heuristic");
    reveal_strlit("maxflow");
    assert("heuristic"@.len() != "maxflow"@.len());
}

/// What to do and with which files.
pub struct CliOptions {
    pub algorithm: Algorithm,
    pub bank_path: String,
    pub gl_path: String,
    pub output_path: String,
}

/// What the command line asks for.
pub enum Command {
    Help,
    Run(CliOptions),
}

/// What the arguments say: to show the usage, to run, or nothing that can be understood.
pub enum Reading {
    Help,
    Run { algorithm: Algorithm, paths: Seq<Seq<char>> },
    Fault(Seq<char>),
}

/// The arguments from the `i`-th on, read one by one, where `algorithm` and `paths` is what the
/// ones before have said.
pub open spec fn reading(
    args: Seq<Seq<char>>,
    i: int,
    algorithm: Algorithm,
    paths: Seq<Seq<char>>,
) -> Reading
    decreases args.len() - i,
{
    if i >= args.len() {
        Reading::Run { algorithm, paths }
    } else if args[i] == "--algorithm"@ {
        if i + 1 >= args.len() {
            Reading::Fault("missing value after --algorithm"@)
        } else {
            match algorithm_named(args[i + 1]) {
                Some(chosen) => reading(args, i + 2, chosen, paths),
                None => Reading::Fault("unknown algorithm: "@ + args[i + 1]),
            }
        }
    } else if args[i] == "--help"@ || args[i] == "-h"@ {
        Reading::Help
    } else if stands_at(args[i], "--algorithm="@, 0) {
        let value = args[i].skip("--algorithm="@.len() as int);
        match algorithm_named(value) {
            Some(chosen) => reading(args, i + 1, chosen, paths),
            None => Reading::Fault("unknown algorithm: "@ + value),
        }
    } else if stands_at(args[i], "-"@, 0) {
        Reading::Fault("unknown flag: "@ + args[i])
    } else {
        reading(args, i + 1, algorithm, paths.push(args[i]))
    }
}

/// The `i`-th path, or the default where there is none.
pub open spec fn path_or(paths: Seq<Seq<char>>, i: int, default_path: Seq<char>) -> Seq<char> {
    if i < paths.len() {
        paths[i]
    } else {
        default_path
    }
}

/// The texts that the strings hold.
pub open spec fn texts(strings: Seq<String>) -> Seq<Seq<char>> {
    Seq::new(strings.len(), |i: int| strings[i]@)
}

fn path_at(paths: &Vec<String>, i: usize, default_path: &str) -> (path: String)
    ensures
        path@ == path_or(texts(paths@), i as int, default_path@),
{
    if i < paths.len() {
        paths[i].clone()
    } else {
        default_path.to_owned()
    }
}

/// Reads the command line. Without arguments the greedy matcher runs on the default files.
pub fn parse_args(args: &[String]) -> (command: Result<Command, DataError>)
    ensures
        match reading(texts(args@), 0, Algorithm::Heuristic, Seq::empty()) {
            Reading::Help => command == Ok::<Command, DataError>(Command::Help),
            Reading::Run { algorithm, paths } => command is Ok && command->Ok_0 is Run && ({
                let options = command->Ok_0->Run_0;
                &&& options.algorithm == algorithm
                &&& options.bank_path@ == path_or(paths, 0, "bank_transactions.csv"@)
                &&& options.gl_path@ == path_or(paths, 1, "general_ledger.csv"@)
                &&& options.output_path@ == path_or(paths, 2, "matches.json"@)
            }),
            Reading::Fault(message) => command is Err && command->Err_0.message@ == message,
        },
{
    let ghost told = reading(texts(args@), 0, Algorithm::Heuristic, Seq::empty());
    let mut algorithm = Algorithm::Heuristic;
    let mut positionals: Vec<String> = Vec::new();
    let mut i: usize = 0;
    assert(texts(positionals@) =~= Seq::empty());
    while i < args.len()
        invariant
            i <= args@.len(),
            told == reading(texts(args@), 0, Algorithm::Heuristic, Seq::empty()),
            told == reading(texts(args@), i as int, algorithm, texts(positionals@)),
        decreases args@.len() - i,
    {
        let arg = args[i].as_str();
        assert(texts(args@)[i as int] == arg@);
        if same_text(arg, "--algorithm") {
            if i + 1 >= args.len() {
                return Err(invalid_data("missing value after --algorithm".to_owned()));
            }
            assert(texts(args@)[i + 1] == args@[i + 1]@);
            algorithm = match Algorithm::parse(args[i + 1].as_str()) {
                Ok(chosen) => chosen,
                Err(error) => return Err(error),
            };
            i += 2;
        } else if same_text(arg, "--help") || same_text(arg, "-h") {
            return Ok(Command::Help);
        } else {
            let chars = chars_of(arg);
            if has_prefix(&chars, "--algorithm=") {
                proof {
                    reveal_strlit("--algorithm=");
                    assert(chars@.subrange(12, chars@.len() as int) =~= arg@.skip(12));
                }
                let value = text_of(&chars, 12, chars.len());
                algorithm = match Algorithm::parse(value.as_str()) {
                    Ok(chosen) => chosen,
                    Err(error) => return Err(error),
                };
            } else if has_prefix(&chars, "-") {
                return Err(invalid_data("unknown flag: ".to_owned().concat(arg)));
            } else {
                let ghost before = positionals@;
                positionals.push(args[i].clone());
                assert(texts(positionals@) =~= texts(before).push(arg@));
            }
            i += 1;
        }
    }
    Ok(
        Command::Run(
            CliOptions {
                algorithm,
                bank_path: path_at(&positionals, 0, "bank_transactions.csv"),
                gl_path: path_at(&positionals, 1, "general_ledger.csv"),
                output_path: path_at(&positionals, 2, "matches.json"),
            },
        ),
    )
}

/// The two algorithms and their names; nothing else names one.
pub proof fn lemma_two_algorithms(name: Seq<char>)
    ensures
        algorithm_named("heuristic"@) == Some(Algorithm::Heuristic),
        algorithm_named("maxflow"@) == Some(Algorithm::MaxFlow),
        name != "heuristic"@ && name != "maxflow"@ ==> algorithm_named(name) is None,
{
    reveal_strlit("heuristic");
    reveal_strlit("maxflow");
    assert("heuristic"@.len() == 9 && "maxflow"@.len() == 7);
}

/// An argument that does not start with a dash.
pub open spec fn is_path(arg: Seq<char>) -> bool {
    arg.len() == 0 || arg[0] != '-'
}

/// Arguments that do not start with a dash are paths, as many as there are and in their order, and
/// leave the algorithm as it is; whatever comes behind them is read as if it came first.
pub proof fn lemma_paths_are_collected(
    args: Seq<Seq<char>>,
    i: int,
    n: int,
    algorithm: Algorithm,
    paths: Seq<Seq<char>>,
)
    requires
        0 <= i <= n <= args.len(),
        forall|k: int| i <= k < n ==> is_path(#[trigger] args[k]),
    ensures
        reading(args, i, algorithm, paths) == reading(
            args,
            n,
            algorithm,
            paths + args.subrange(i, n),
        ),
        n == args.len() ==> reading(args, i, algorithm, paths) == (Reading::Run {
            algorithm,
            paths: paths + args.subrange(i, n),
        }),
    decreases n - i,
{
    if i < n {
        let arg = args[i];
        assert(is_path(arg));
        lemma_no_dash(arg);
        lemma_paths_are_collected(args, i + 1, n, algorithm, paths.push(arg));
        assert(paths.push(arg) + args.subrange(i + 1, n) =~= paths + args.subrange(i, n));
    } else {
        assert(paths + args.subrange(i, n) =~= paths);
    }
}

proof fn lemma_no_dash(arg: Seq<char>)
    ensures
        is_path(arg) <==> !stands_at(arg, "-"@, 0),
        is_path(arg) ==> arg != "--algorithm"@ && arg != "--help"@ && arg != "-h"@ && !stands_at(
            arg,
            "--algorithm="@,
            0,
        ),
{
    reveal_strlit("-");
    reveal_strlit("--algorithm");
    reveal_strlit("--help");
    reveal_strlit("-h");
    reveal_strlit("--algorithm=");
    assert("-"@.len() == 1 && "-"@[0] == '-');
    assert("--algorithm"@[0] == '-' && "--help"@[0] == '-' && "-h"@[0] == '-');
    assert("--algorithm="@.len() == 12 && "--algorithm="@[0] == '-');
    if arg.len() > 0 {
        assert(arg.subrange(0, 1)[0] == arg[0]);
        if arg[0] == '-' {
            assert(arg.subrange(0, 1) =~= "-"@);
        }
        if arg.len() >= 12 {
            assert(arg.subrange(0, 12)[0] == arg[0]);
        }
    }
}

/// An algorithm is chosen by its name behind `--algorithm`, as the next argument or, with an equals
/// sign between, in the same one; the last choice counts. A name that is none, or that is missing,
/// and any other argument that starts with a dash, but for the two that ask for help, is a fault;
/// help is given whatever follows.
pub proof fn lemma_flags(
    args: Seq<Seq<char>>,
    i: int,
    algorithm: Algorithm,
    paths: Seq<Seq<char>>,
)
    requires
        0 <= i < args.len(),
    ensures
        ({
            let arg = args[i];
            let read = reading(args, i, algorithm, paths);
            &&& arg == "--help"@ || arg == "-h"@ ==> read is Help
            &&& arg == "--algorithm"@ && i + 1 == args.len() ==> read is Fault
            &&& arg == "--algorithm"@ && i + 1 < args.len() ==> {
                &&& args[i + 1] == "heuristic"@ ==> read == reading(
                    args,
                    i + 2,
                    Algorithm::Heuristic,
                    paths,
                )
                &&& args[i + 1] == "maxflow"@ ==> read == reading(
                    args,
                    i + 2,
                    Algorithm::MaxFlow,
                    paths,
                )
                &&& args[i + 1] != "heuristic"@ && args[i + 1] != "maxflow"@ ==> read is Fault
            }
            &&& arg == "--algorithm=heuristic"@ ==> read == reading(
                args,
                i + 1,
                Algorithm::Heuristic,
                paths,
            )
            &&& arg == "--algorithm=maxflow"@ ==> read == reading(
                args,
                i + 1,
                Algorithm::MaxFlow,
                paths,
            )
            &&& !is_path(arg) && arg != "--help"@ && arg != "-h"@ && arg != "--algorithm"@ && arg
                != "--algorithm=heuristic"@ && arg != "--algorithm=maxflow"@ ==> read is Fault
        }),
        reading(args, args.len() as int, algorithm, paths) == (Reading::Run { algorithm, paths }),
{
    let arg = args[i];
    lemma_no_dash(arg);
    lemma_two_algorithms(arg.skip(12));
    if i + 1 < args.len() {
        lemma_two_algorithms(args[i + 1]);
    }
    reveal_strlit("--algorithm");
    reveal_strlit("--help");
    reveal_strlit("-h");
    reveal_strlit("--algorithm=");
    reveal_strlit("--algorithm=heuristic");
    reveal_strlit("--algorithm=maxflow");
    reveal_strlit("heuristic");
    reveal_strlit("maxflow");
    assert("--algorithm"@.len() == 11 && "--help"@.len() == 6 && "-h"@.len() == 2);
    assert("--algorithm="@.len() == 12);
    assert("--algorithm=heuristic"@.len() == 21 && "--algorithm=maxflow"@.len() == 19);
    assert("--algorithm=heuristic"@.subrange(0, 12) =~= "--algorithm="@);
    assert("--algorithm=maxflow"@.subrange(0, 12) =~= "--algorithm="@);
    assert("--algorithm=heuristic"@.skip(12) =~= "heuristic"@);
    assert("--algorithm=maxflow"@.skip(12) =~= "maxflow"@);
    if stands_at(arg, "--algorithm="@, 0) {
        assert(arg =~= arg.subrange(0, 12) + arg.skip(12));
        if arg.skip(12) == "heuristic"@ {
            assert(arg =~= "--algorithm=heuristic"@);
        }
        if arg.skip(12) == "maxflow"@ {
            assert(arg =~= "--algorithm=maxflow"@);
        }
    }
}

/// Texts are taken as they are.
pub proof fn lemma_texts(strings: Seq<String>)
    ensures
        texts(strings).len() == strings.len(),
        forall|i: int| 0 <= i < strings.len() ==> #[trigger] texts(strings)[i] == strings[i]@,
{
}

/// The first path, the second and the third are taken where they are given.
pub proof fn lemma_path_or(paths: Seq<Seq<char>>, i: int, default_path: Seq<char>)
    requires
        0 <= i,
    ensures
        paths.len() > i ==> path_or(paths, i, default_path) == paths[i],
        paths.len() <= i ==> path_or(paths, i, default_path) == default_path,
{
}

/// What is said of arguments that cannot be understood.
pub proof fn lemma_flag_faults(
    args: Seq<Seq<char>>,
    i: int,
    algorithm: Algorithm,
    paths: Seq<Seq<char>>,
)
    requires
        0 <= i < args.len(),
    ensures
        ({
            let arg = args[i];
            let read = reading(args, i, algorithm, paths);
            &&& arg == "--algorithm"@ && i + 1 == args.len() ==> read == Reading::Fault(
                "missing value after --algorithm"@,
            )
            &&& arg == "--algorithm"@ && i + 1 < args.len() && args[i + 1] != "heuristic"@ && args[i
                + 1] != "maxflow"@ ==> read == Reading::Fault("unknown algorithm: "@ + args[i + 1])
            &&& arg.len() > 0 && arg[0] == '-' && arg != "--algorithm"@ && arg != "--help"@ && arg
                != "-h"@ && !(arg.len() >= 12 && arg.take(12) == "--algorithm="@) ==> read
                == Reading::Fault("unknown flag: "@ + arg)
            &&& arg.len() >= 12 && arg.take(12) == "--algorithm="@ && arg.skip(12) != "heuristic"@
                && arg.skip(12) != "maxflow"@ ==> read == Reading::Fault(
                "unknown algorithm: "@ + arg.skip(12),
            )
        }),
{
    let arg = args[i];
    lemma_no_dash(arg);
    lemma_two_algorithms(arg.skip(12));
    if i + 1 < args.len() {
        lemma_two_algorithms(args[i + 1]);
    }
    reveal_strlit("--algorithm");
    reveal_strlit("--help");
    reveal_strlit("-h");
    reveal_strlit("--algorithm=");
    assert("--algorithm"@.len() == 11 && "--help"@.len() == 6 && "-h"@.len() == 2);
    assert("--algorithm="@.len() == 12);
    if arg.len() >= 12 {
        assert(arg.take(12) =~= arg.subrange(0, 12));
    }
}

} // verus!
