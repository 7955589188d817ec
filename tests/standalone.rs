use sbs::standalone::Solver;
use sbs::Config;

#[test]
fn test_solver_basic() {
    let config = Config::new().with_letters("abcdefg").with_present("a");

    let mut solver = Solver::new(config);

    solver.load_words_slice(&[
        "bad",   // too short
        "fade",  // valid
        "faced", // valid
        "zzzz",  // invalid letters
        "bed",   // valid length, but 'e' might not be in letters if we change config
    ]);

    let results = solver.solve().expect("Solver failed");

    assert!(results.contains("fade"));
    assert!(results.contains("faced"));
    assert!(!results.contains("bad")); // length < 4
    assert!(!results.contains("zzzz")); // z not allowed
}

#[test]
fn test_missing_required_letter() {
    let config = Config::new().with_letters("abcdefg").with_present("z"); // z is required but not in list (impossible, but logic should handle)

    let mut solver = Solver::new(config);
    solver.load_words_slice(&["faced"]);

    let results = solver.solve().expect("Solver failed");
    assert!(results.is_empty());
}
