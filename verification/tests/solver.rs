use wordle_crush::Oracle;
use wordle_crush::SolveError;
use wordle_crush::Solver;
use wordle_crush::calculate_guess;
use wordle_crush::is_feasible;
use wordle_crush::reduce_set;

fn words(list: &[&str]) -> Vec<String> {
    let mut out: Vec<String> = Vec::new();
    for w in list {
        out.push(w.to_string());
    }
    out
}

#[test]
fn secret_always_survives_its_own_feedback() {
    let pairs = [
        ("SPEED", "ERASE"),
        ("CRANE", "SLATE"),
        ("EEEEE", "ERASE"),
        ("AABBA", "BBAAB"),
        ("CRANE", "CRANE"),
    ];
    for (guess, secret) in pairs {
        let reply = Oracle::compare(guess, secret);
        assert!(is_feasible(guess, &reply, secret));
    }
}

#[test]
fn wrong_guess_is_discarded_by_its_own_feedback() {
    let reply = Oracle::compare("SPEED", "ERASE");
    assert!(!is_feasible("SPEED", &reply, "SPEED"));
    let reply = Oracle::compare("CRANE", "SLATE");
    assert!(!is_feasible("CRANE", &reply, "CRANE"));
}

#[test]
fn all_green_feedback_admits_only_the_guess_itself() {
    let reply = Oracle::compare("CRANE", "CRANE");
    assert!(reply.all_green());
    assert!(is_feasible("CRANE", &reply, "CRANE"));
    assert!(!is_feasible("CRANE", &reply, "SLATE"));
    assert!(!is_feasible("CRANE", &reply, "TRACE"));
}

#[test]
fn feasible_letter_counts() {
    // SPEED against ERASE: S yellow, P gray, both E's yellow, D gray.
    let reply = Oracle::compare("SPEED", "ERASE");
    // Exactly the proven letters: one S, two E's, no P or D.
    assert!(is_feasible("SPEED", &reply, "REUSE"));
    // Three E's are allowed: the two yellows only prove a lower bound.
    assert!(is_feasible("SPEED", &reply, "EESXE"));
    // A word with a single E falls short of the two proven E's.
    assert!(!is_feasible("SPEED", &reply, "MOUSE"));
    // A word without an S lacks the letter the yellow mark proved.
    assert!(!is_feasible("SPEED", &reply, "EERIE"));
    // Gray letters P and D must not occur at all.
    assert!(!is_feasible("SPEED", &reply, "EPEES"));
}

#[test]
fn feasible_gray_fixes_exact_count() {
    // EEEEE against ERASE: E green at both ends, gray in the middle, so a
    // candidate must hold exactly two E's, one at each end.
    let reply = Oracle::compare("EEEEE", "ERASE");
    assert!(is_feasible("EEEEE", &reply, "ERASE"));
    assert!(is_feasible("EEEEE", &reply, "ELUDE"));
    // Three E's contradict the gray marks.
    assert!(!is_feasible("EEEEE", &reply, "EERIE"));
}

#[test]
fn reduce_set_keeps_secret_and_never_grows() {
    let pool = words(&["CRANE", "SLATE", "TRACE", "ERASE", "SPEED", "MOUSE"]);
    let secret = "ERASE";
    for guess in ["SPEED", "CRANE", "SLATE"] {
        let reply = Oracle::compare(guess, secret);
        let reduced = reduce_set(guess, &reply, &pool);
        assert!(reduced.len() <= pool.len());
        assert!(reduced.iter().any(|w| w == secret));
    }
}

#[test]
fn reduce_set_order_insensitive() {
    let pool = words(&["CRANE", "SLATE", "TRACE", "ERASE", "SPEED", "MOUSE", "ELUDE"]);
    let secret = "SLATE";
    let r1 = Oracle::compare("CRANE", secret);
    let r2 = Oracle::compare("MOUSE", secret);
    let first_then_second = reduce_set("MOUSE", &r2, &reduce_set("CRANE", &r1, &pool));
    let second_then_first = reduce_set("CRANE", &r1, &reduce_set("MOUSE", &r2, &pool));
    assert_eq!(first_then_second, second_then_first);
    assert!(first_then_second.iter().any(|w| w == secret));
}

#[test]
fn shortcut_returns_first_candidate() {
    // Fewer than three candidates: the first one comes back untouched, even
    // though the allowed list would score otherwise.
    let allowed = words(&["ZZZZZ", "CRANE", "SLATE"]);
    let possible = words(&["SLATE", "TRACE"]);
    assert_eq!(calculate_guess(&allowed, &possible, 30), "SLATE");
    let single = words(&["TRACE"]);
    assert_eq!(calculate_guess(&allowed, &single, 30), "TRACE");
}

#[test]
fn oversized_candidate_set_takes_shortcut() {
    let allowed = words(&["ZZZZZ", "CRANE"]);
    let possible = words(&["CRANE", "SLATE", "TRACE", "ERASE"]);
    // Four candidates but a threshold of three: exhaustive search is skipped.
    assert_eq!(calculate_guess(&allowed, &possible, 3), "CRANE");
}

#[test]
fn minimax_picks_discriminating_word() {
    // ZZZZZ shares no letter with any candidate, so its feedback never
    // shrinks the set (worst case 3); CRANE pins the secret down (worst case
    // 1). The selector must skip past index 0.
    let allowed = words(&["ZZZZZ", "CRANE"]);
    let possible = words(&["CRANE", "SLATE", "TRACE"]);
    assert_eq!(calculate_guess(&allowed, &possible, 30), "CRANE");
}

#[test]
fn minimax_breaks_ties_by_first_index() {
    // Every allowed word is equally useless: the first one must win.
    let allowed = words(&["YYYYY", "ZZZZZ"]);
    let possible = words(&["CRANE", "SLATE", "TRACE"]);
    assert_eq!(calculate_guess(&allowed, &possible, 30), "YYYYY");
}

#[test]
fn parallel_pool_sizes_agree() {
    let allowed = words(&["ZZZZZ", "CRANE", "SLATE", "TRACE", "ERASE", "MOUSE"]);
    let possible = words(&["CRANE", "SLATE", "TRACE", "ERASE", "MOUSE"]);
    let default_pool = calculate_guess(&allowed, &possible, 30);
    let one = rayon::ThreadPoolBuilder::new()
        .num_threads(1)
        .build()
        .unwrap()
        .install(|| calculate_guess(&allowed, &possible, 30));
    let four = rayon::ThreadPoolBuilder::new()
        .num_threads(4)
        .build()
        .unwrap()
        .install(|| calculate_guess(&allowed, &possible, 30));
    assert_eq!(default_pool, one);
    assert_eq!(default_pool, four);
}

#[test]
fn solve_three_words_in_one_guess() {
    let list = words(&["CRANE", "SLATE", "TRACE"]);
    let solver = Solver::create(list.clone(), list, 30, false);
    let trace = solver.solve(Oracle::create("CRANE")).unwrap();
    assert_eq!(trace, words(&["CRANE"]));
}

#[test]
fn solve_reaches_every_secret_within_budget() {
    let list = words(&["CRANE", "SLATE", "TRACE", "ERASE", "SPEED", "MOUSE", "ELUDE"]);
    for secret in ["CRANE", "SLATE", "TRACE", "ERASE", "SPEED", "MOUSE", "ELUDE"] {
        let solver = Solver::create(list.clone(), list.clone(), 30, false);
        let trace = solver.solve(Oracle::create(secret)).unwrap();
        assert!(trace.len() <= 13);
        assert_eq!(trace.last().unwrap(), secret);
    }
}

#[test]
fn solve_empty_word_lists_is_an_error() {
    let solver = Solver::create(Vec::new(), Vec::new(), 30, false);
    let out = solver.solve(Oracle::create("CRANE"));
    assert_eq!(out, Err(SolveError::EmptyWordList));
}

#[test]
fn solve_inconsistent_lists_run_dry() {
    // The secret is not among the possible solutions: the only candidate is
    // refuted and the set runs empty.
    let solver = Solver::create(words(&["SLATE"]), words(&["SLATE"]), 30, false);
    let out = solver.solve(Oracle::create("CRANE"));
    assert_eq!(out, Err(SolveError::EmptyWordList));
}

#[test]
fn solve_uninformative_dictionary_runs_out_of_guesses() {
    // The only allowed guess shares no letter with any candidate, so the
    // candidate set never shrinks and the attempt ceiling is hit.
    let solver = Solver::create(
        words(&["ZZZZZ"]),
        words(&["CRANE", "SLATE", "TRACE"]),
        30,
        false,
    );
    let out = solver.solve(Oracle::create("CRANE"));
    assert_eq!(out, Err(SolveError::OutOfGuesses));
}
