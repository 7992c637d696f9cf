use reconcile::cli::{parse_args, Algorithm, CliOptions, Command};
use reconcile::error::invalid_data;

fn args(texts: &[&str]) -> Vec<String> {
    texts.iter().map(|text| text.to_string()).collect()
}

fn options(texts: &[&str]) -> CliOptions {
    match parse_args(&args(texts)).unwrap() {
        Command::Run(options) => options,
        Command::Help => panic!("help"),
    }
}

fn fault(texts: &[&str]) -> String {
    match parse_args(&args(texts)) {
        Ok(_) => panic!("understood"),
        Err(error) => error.message,
    }
}

#[test]
fn runs_the_greedy_matcher_on_the_default_files() {
    let options = options(&[]);
    assert_eq!(options.algorithm, Algorithm::Heuristic);
    assert_eq!(options.bank_path, "bank_transactions.csv");
    assert_eq!(options.gl_path, "general_ledger.csv");
    assert_eq!(options.output_path, "matches.json");
}

#[test]
fn takes_paths_and_the_last_algorithm() {
    let chosen = options(&["a.csv", "--algorithm", "maxflow", "b.csv", "c.json", "d"]);
    assert_eq!(chosen.algorithm, Algorithm::MaxFlow);
    assert_eq!(chosen.bank_path, "a.csv");
    assert_eq!(chosen.gl_path, "b.csv");
    assert_eq!(chosen.output_path, "c.json");
    let chosen = options(&["--algorithm=maxflow", "--algorithm=heuristic", "x"]);
    assert_eq!(chosen.algorithm, Algorithm::Heuristic);
    assert_eq!(chosen.bank_path, "x");
    assert_eq!(chosen.gl_path, "general_ledger.csv");
}

#[test]
fn shows_help_before_later_faults() {
    assert!(matches!(parse_args(&args(&["--help"])), Ok(Command::Help)));
    assert!(matches!(parse_args(&args(&["x", "-h", "--bad"])), Ok(Command::Help)));
    assert_eq!(fault(&["--bad", "-h"]), "unknown flag: --bad");
}

#[test]
fn says_what_is_wrong_with_arguments() {
    assert_eq!(fault(&["--algorithm"]), "missing value after --algorithm");
    assert_eq!(fault(&["--algorithm", "fast"]), "unknown algorithm: fast");
    assert_eq!(fault(&["--algorithm="]), "unknown algorithm: ");
    assert_eq!(fault(&["--algorithm=a=b"]), "unknown algorithm: a=b");
    assert_eq!(fault(&["-x"]), "unknown flag: -x");
    assert_eq!(fault(&["--algorithms"]), "unknown flag: --algorithms");
    assert_eq!(invalid_data("why".to_owned()).message, "why");
}

#[test]
fn labels_choose_their_algorithms() {
    for algorithm in [Algorithm::Heuristic, Algorithm::MaxFlow] {
        assert_eq!(Algorithm::parse(algorithm.label()).unwrap(), algorithm);
    }
    assert_eq!(Algorithm::Heuristic.label(), "heuristic");
    assert_eq!(Algorithm::MaxFlow.label(), "maxflow");
    assert_eq!(
        Algorithm::Heuristic.selection_strategy(),
        "sparse indexed candidates + deterministic augmenting greedy matcher"
    );
    assert_eq!(
        Algorithm::MaxFlow.selection_strategy(),
        "max-cardinality flow network + min-cost flow refinement on candidate graph"
    );
}
