//! The guess selector and the solve loop.
//!
//! `calculate_guess` either takes the cheap shortcut (first candidate) when
//! the candidate set is very small or too large to search, or scores every
//! allowed word by its worst remaining candidate-set size over all
//! still-possible secrets and picks the first word minimizing that worst
//! case. The scoring fans out across a worker pool; each worker computes the
//! score of a slice of the allowed words and a sequential merge picks the
//! minimum with a fixed first-index tie-break, so the result is identical to
//! a strictly sequential evaluation.
//!
//! `solve` runs guess → feedback → filter cycles against an oracle until the
//! feedback is all green, and aborts once a fixed attempt ceiling is passed.

use vstd::prelude::*;

use rayon::iter::IndexedParallelIterator;
use rayon::iter::IntoParallelRefIterator;
use rayon::iter::ParallelIterator;

use crate::feasible::all_len5;
use crate::feasible::feasible_spec;
use crate::feasible::lemma_filter_no_duplicates;
use crate::feasible::lemma_reduce_all_green;
use crate::feasible::lemma_candidate_guess_shrinks;
use crate::feasible::lemma_reduce_set_keeps_secret;
use crate::feasible::reduce_set;
use crate::feasible::reduce_spec;
use crate::feasible::word_views;
use crate::oracle::Oracle;
use crate::oracle::Square;
use crate::oracle::compare_spec;
use crate::oracle::lemma_compare_green;

verus! {

/// The worst remaining candidate-set size when guessing `g`, taken over the
/// first `n` candidate secrets.
pub open spec fn score_upto(g: Seq<char>, ws: Seq<Seq<char>>, n: int) -> nat
    decreases n,
{
    if n <= 0 {
        0
    } else {
        let cur = reduce_spec(g, compare_spec(g, ws[n - 1]), ws).len();
        let prev = score_upto(g, ws, n - 1);
        if cur > prev {
            cur
        } else {
            prev
        }
    }
}

/// The minimax score of a guess `g`: the largest candidate set that could
/// remain after guessing `g`, assuming an adversarial choice of the secret
/// among the candidates `ws`.
pub open spec fn worst_case_score(g: Seq<char>, ws: Seq<Seq<char>>) -> nat {
    score_upto(g, ws, ws.len() as int)
}

/// The index of the best guess among the first `n` allowed words: the first
/// index minimizing the worst-case score.
pub open spec fn best_upto(allowed: Seq<Seq<char>>, ws: Seq<Seq<char>>, n: int) -> int
    decreases n,
{
    if n <= 1 {
        0
    } else {
        let b = best_upto(allowed, ws, n - 1);
        if worst_case_score(allowed[n - 1], ws) < worst_case_score(allowed[b], ws) {
            n - 1
        } else {
            b
        }
    }
}

/// The index into `allowed` of the guess the selector picks, ties broken by
/// first-encountered order.
pub open spec fn best_guess_index(allowed: Seq<Seq<char>>, ws: Seq<Seq<char>>) -> int {
    best_upto(allowed, ws, allowed.len() as int)
}

/// The word the selector picks: the first candidate when the candidate set is
/// too small or too large to be worth an exhaustive search, else the allowed
/// word with the smallest worst-case score.
pub open spec fn calc_guess_spec(allowed: Seq<Seq<char>>, ws: Seq<Seq<char>>, ms: int) -> Seq<
    char,
> {
    if ws.len() < 3 || ws.len() > ms {
        ws[0]
    } else {
        allowed[best_guess_index(allowed, ws)]
    }
}

/// The worst-case score of one allowed word `g` against the candidates
/// `possible`, computed by replaying every candidate as the hypothetical
/// secret.
fn score_word(g: &String, possible: &Vec<String>) -> (r: usize)
    requires
        g@.len() == 5,
        all_len5(word_views(possible@)),
    ensures
        r == worst_case_score(g@, word_views(possible@)),
{
    let mut hi: usize = 0;
    for i in 0..possible.len()
        invariant
            g@.len() == 5,
            all_len5(word_views(possible@)),
            hi == score_upto(g@, word_views(possible@), i as int),
            hi <= possible@.len(),
    {
        assert(possible@[i as int]@ == word_views(possible@)[i as int]);
        let rep = Oracle::compare(g.as_str(), possible[i].as_str());
        let reduced = reduce_set(g.as_str(), &rep, possible);
        if reduced.len() > hi {
            hi = reduced.len();
        }
        proof {
            assert(word_views(reduced@).len() == reduced@.len());
        }
    }
    hi
}

/// Relies on rayon's `par_iter`, `map` and `collect_into_vec`: the indexed
/// parallel iterator applies the closure to every element of the list, and
/// `collect_into_vec` writes each result at its element's index, so slot `i`
/// holds the closure's result for word `i` whatever the pool size. The
/// closure only calls the verified `score_word`.
#[verifier::external_body]
fn par_scores(allowed: &Vec<String>, possible: &Vec<String>) -> (r: Vec<usize>)
    requires
        all_len5(word_views(allowed@)),
        all_len5(word_views(possible@)),
    ensures
        r@.len() == allowed@.len(),
        forall|i: int|
            0 <= i < allowed@.len() ==> r@[i] == worst_case_score(
                allowed@[i]@,
                word_views(possible@),
            ),
{
    let mut scores: Vec<usize> = Vec::new();
    allowed.par_iter().map(|word| score_word(word, possible)).collect_into_vec(&mut scores);
    scores
}

/// The next guess: the first candidate when fewer than three or more than
/// `ms` candidates remain, else the allowed word whose worst remaining
/// candidate set is smallest, ties broken by first-encountered order.
pub fn calculate_guess(allowed: &Vec<String>, possible: &Vec<String>, ms: usize) -> (r: String)
    requires
        allowed@.len() > 0,
        possible@.len() > 0,
        all_len5(word_views(allowed@)),
        all_len5(word_views(possible@)),
    ensures
        r@ == calc_guess_spec(word_views(allowed@), word_views(possible@), ms as int),
        r@.len() == 5,
{
    if possible.len() < 3 || possible.len() > ms {
        let r = possible[0].clone();
        proof {
            assert(word_views(possible@)[0] == possible@[0]@);
        }
        return r;
    }
    let scores = par_scores(allowed, possible);
    let mut best: usize = 0;
    for i in 1..allowed.len()
        invariant
            allowed@.len() > 0,
            scores@.len() == allowed@.len(),
            forall|k: int|
                0 <= k < allowed@.len() ==> scores@[k] == worst_case_score(
                    allowed@[k]@,
                    word_views(possible@),
                ),
            best < i,
            best == best_upto(word_views(allowed@), word_views(possible@), i as int),
    {
        proof {
            assert(word_views(allowed@)[i as int] == allowed@[i as int]@);
            assert(word_views(allowed@)[best as int] == allowed@[best as int]@);
        }
        if scores[i] < scores[best] {
            best = i;
        }
    }
    let r = allowed[best].clone();
    proof {
        assert(word_views(allowed@)[best as int] == allowed@[best as int]@);
    }
    r
}

/// Determinism under parallelism: the selector's choice is a function of the
/// allowed words, the candidates and the threshold alone, so two runs on the
/// same inputs return the same word however the scoring work was scheduled
/// across workers.
pub proof fn lemma_calculate_guess_deterministic(
    allowed: Seq<Seq<char>>,
    ws: Seq<Seq<char>>,
    ms: int,
    r1: Seq<char>,
    r2: Seq<char>,
)
    requires
        r1 == calc_guess_spec(allowed, ws, ms),
        r2 == calc_guess_spec(allowed, ws, ms),
    ensures
        r1 == r2,
{
}

/// The size-threshold shortcut: with fewer than three candidates the selector
/// returns the first candidate and never scores the allowed words.
pub proof fn lemma_small_set_shortcut(allowed: Seq<Seq<char>>, ws: Seq<Seq<char>>, ms: int)
    requires
        ws.len() < 3,
    ensures
        calc_guess_spec(allowed, ws, ms) == ws[0],
{
}

/// Why a solve session ended without the secret: the word lists were empty or
/// ran dry (a configuration error), or the attempt ceiling was passed (a
/// non-convergence abort).
#[derive(Clone, Copy, PartialEq, Eq, Structural, Debug)]
pub enum SolveError {
    EmptyWordList,
    OutOfGuesses,
}

/// The trace `solve` produces, step by step: guess, stop when the guess is
/// the secret, otherwise shrink the candidates by the feedback and spend one
/// unit of the remaining attempt budget.
pub open spec fn solve_spec(
    allowed: Seq<Seq<char>>,
    possible: Seq<Seq<char>>,
    secret: Seq<char>,
    ms: int,
    fuel: nat,
) -> Result<Seq<Seq<char>>, SolveError>
    decreases fuel,
{
    if allowed.len() == 0 || possible.len() == 0 {
        Result::Err(SolveError::EmptyWordList)
    } else {
        let g = calc_guess_spec(allowed, possible, ms);
        if g == secret {
            Result::Ok(seq![g])
        } else if fuel == 0 {
            Result::Err(SolveError::OutOfGuesses)
        } else {
            match solve_spec(
                allowed,
                reduce_spec(g, compare_spec(g, secret), possible),
                secret,
                ms,
                (fuel - 1) as nat,
            ) {
                Result::Ok(rest) => Result::Ok(seq![g] + rest),
                Result::Err(e) => Result::Err(e),
            }
        }
    }
}

/// The worst-case score never decreases as more candidate secrets are taken
/// into account.
proof fn lemma_score_upto_monotone(g: Seq<char>, ws: Seq<Seq<char>>, m: int, n: int)
    requires
        m <= n,
    ensures
        score_upto(g, ws, m) <= score_upto(g, ws, n),
    decreases n - m,
{
    if m < n {
        lemma_score_upto_monotone(g, ws, m, n - 1);
    }
}

/// What actually remains after one candidate secret's feedback is at most the
/// guess's worst-case score.
proof fn lemma_score_term_le_worst(g: Seq<char>, ws: Seq<Seq<char>>, i: int)
    requires
        0 <= i < ws.len(),
    ensures
        reduce_spec(g, compare_spec(g, ws[i]), ws).len() <= worst_case_score(g, ws),
{
    lemma_score_upto_monotone(g, ws, i + 1, ws.len() as int);
}

/// A bound that holds for every candidate secret's remainder bounds the
/// worst-case score.
proof fn lemma_score_upto_bounded(g: Seq<char>, ws: Seq<Seq<char>>, bound: nat, n: int)
    requires
        forall|i: int|
            0 <= i < n ==> #[trigger] reduce_spec(g, compare_spec(g, ws[i]), ws).len() <= bound,
    ensures
        score_upto(g, ws, n) <= bound,
    decreases n,
{
    if n > 0 {
        lemma_score_upto_bounded(g, ws, bound, n - 1);
    }
}

/// The selected index is in range and its worst-case score is minimal among
/// the first `n` allowed words.
proof fn lemma_best_upto_min(allowed: Seq<Seq<char>>, ws: Seq<Seq<char>>, n: int)
    requires
        1 <= n,
    ensures
        0 <= best_upto(allowed, ws, n) < n,
        forall|k: int|
            0 <= k < n ==> worst_case_score(allowed[best_upto(allowed, ws, n)], ws)
                <= worst_case_score(#[trigger] allowed[k], ws),
    decreases n,
{
    if n > 1 {
        lemma_best_upto_min(allowed, ws, n - 1);
    }
}

/// One selector step on unique candidates drawn from the allowed list
/// strictly shrinks the candidate set whenever the chosen guess is not the
/// secret. In the shortcut regime the guess is itself a candidate and is
/// discarded by its own feedback; in the minimax regime the chosen guess
/// scores no worse than guessing the secret itself would, and that score is
/// below the current set size.
proof fn lemma_step_shrinks(
    allowed: Seq<Seq<char>>,
    possible: Seq<Seq<char>>,
    secret: Seq<char>,
    ms: int,
)
    requires
        allowed.len() > 0,
        possible.len() >= 1,
        all_len5(allowed),
        all_len5(possible),
        secret.len() == 5,
        possible.contains(secret),
        possible.no_duplicates(),
        forall|w: Seq<char>| possible.contains(w) ==> allowed.contains(w),
        calc_guess_spec(allowed, possible, ms) != secret,
    ensures
        reduce_spec(
            calc_guess_spec(allowed, possible, ms),
            compare_spec(calc_guess_spec(allowed, possible, ms), secret),
            possible,
        ).len() < possible.len(),
{
    let g = calc_guess_spec(allowed, possible, ms);
    let n = possible.len() as int;
    if n < 3 || n > ms {
        assert(g == possible[0]);
        assert(possible.contains(g));
        lemma_candidate_guess_shrinks(g, secret, possible);
    } else {
        let b = best_guess_index(allowed, possible);
        lemma_best_upto_min(allowed, possible, allowed.len() as int);
        assert(g == allowed[b]);
        assert(g.len() == 5);
        assert(allowed.contains(secret));
        let k0 = choose|k: int| 0 <= k < allowed.len() && allowed[k] == secret;
        assert forall|i: int|
            0 <= i < n implies #[trigger] reduce_spec(
            secret,
            compare_spec(secret, possible[i]),
            possible,
        ).len() <= (n - 1) as nat by {
            if possible[i] == secret {
                lemma_reduce_all_green(secret, possible);
            } else {
                lemma_candidate_guess_shrinks(secret, possible[i], possible);
            }
        }
        lemma_score_upto_bounded(secret, possible, (n - 1) as nat, n);
        assert(worst_case_score(secret, possible) <= (n - 1) as nat);
        assert(worst_case_score(g, possible) <= worst_case_score(allowed[k0], possible));
        let si = choose|i: int| 0 <= i < possible.len() && possible[i] == secret;
        lemma_score_term_le_worst(g, possible, si);
    }
}

/// Termination: when the candidates are unique five-letter words, every
/// candidate is also an allowed guess, the secret is among the candidates,
/// and at most one more candidate exists than the attempt budget allows, the
/// solve loop reaches the secret within that budget. Every step either ends
/// the session or strictly shrinks the candidate set while keeping the
/// secret, so at most one guess per candidate is spent.
pub proof fn lemma_solve_terminates(
    allowed: Seq<Seq<char>>,
    possible: Seq<Seq<char>>,
    secret: Seq<char>,
    ms: int,
    fuel: nat,
)
    requires
        allowed.len() > 0,
        possible.len() >= 1,
        all_len5(allowed),
        all_len5(possible),
        secret.len() == 5,
        possible.contains(secret),
        possible.no_duplicates(),
        forall|w: Seq<char>| possible.contains(w) ==> allowed.contains(w),
        possible.len() <= fuel + 1,
    ensures
        solve_spec(allowed, possible, secret, ms, fuel) is Ok,
    decreases fuel,
{
    let g = calc_guess_spec(allowed, possible, ms);
    if g != secret {
        assert(possible.len() >= 2) by {
            if possible.len() == 1 {
                let si = choose|i: int| 0 <= i < possible.len() && possible[i] == secret;
                assert(g == possible[0]);
            }
        }
        assert(g.len() == 5) by {
            if possible.len() < 3 || possible.len() > ms {
                assert(g == possible[0]);
            } else {
                lemma_best_upto_min(allowed, possible, allowed.len() as int);
            }
        }
        lemma_step_shrinks(allowed, possible, secret, ms);
        let pred = |w: Seq<char>| feasible_spec(g, compare_spec(g, secret), w);
        let reduced = reduce_spec(g, compare_spec(g, secret), possible);
        lemma_reduce_set_keeps_secret(g, secret, possible);
        lemma_filter_no_duplicates(possible, pred);
        assert forall|k: int| 0 <= k < reduced.len() implies (#[trigger] reduced[k]).len()
            == 5 by {
            assert(reduced.contains(reduced[k]));
            possible.lemma_filter_contains_rev(pred, reduced[k]);
            let j = choose|j: int| 0 <= j < possible.len() && possible[j] == reduced[k];
        }
        assert forall|w: Seq<char>| reduced.contains(w) implies allowed.contains(w) by {
            possible.lemma_filter_contains_rev(pred, w);
        }
        lemma_solve_terminates(allowed, reduced, secret, ms, (fuel - 1) as nat);
    }
}

/// A successful solve ends on the secret: the trace holds at least one guess
/// and at most one more than the attempt budget, and its last guess is the
/// secret.
pub proof fn lemma_solve_trace_ends_with_secret(
    allowed: Seq<Seq<char>>,
    possible: Seq<Seq<char>>,
    secret: Seq<char>,
    ms: int,
    fuel: nat,
    t: Seq<Seq<char>>,
)
    requires
        solve_spec(allowed, possible, secret, ms, fuel) == Result::<Seq<Seq<char>>, SolveError>::Ok(
            t,
        ),
    ensures
        1 <= t.len() <= fuel + 1,
        t.last() == secret,
    decreases fuel,
{
    if allowed.len() == 0 || possible.len() == 0 {
    } else {
        let g = calc_guess_spec(allowed, possible, ms);
        if g == secret {
            assert(t == seq![g]);
        } else if fuel == 0 {
        } else {
            let reduced = reduce_spec(g, compare_spec(g, secret), possible);
            match solve_spec(allowed, reduced, secret, ms, (fuel - 1) as nat) {
                Result::Ok(rest) => {
                    lemma_solve_trace_ends_with_secret(
                        allowed,
                        reduced,
                        secret,
                        ms,
                        (fuel - 1) as nat,
                        rest,
                    );
                    assert(t == seq![g] + rest);
                    assert(t.last() == rest.last());
                },
                Result::Err(_) => {},
            }
        }
    }
}

/// The view of a solve result: the guessed words as character sequences.
pub open spec fn trace_view(r: Result<Vec<String>, SolveError>) -> Result<
    Seq<Seq<char>>,
    SolveError,
> {
    match r {
        Result::Ok(v) => Result::Ok(word_views(v@)),
        Result::Err(e) => Result::Err(e),
    }
}

/// Plays the game: owns the allowed-guess dictionary, the initial
/// possible-solutions list, and the search-size threshold for one or more
/// solve sessions.
pub struct Solver {
    allowed: Vec<String>,
    possible: Vec<String>,
    loud_mode: bool,
    max_search: usize,
}

impl Solver {
    #[verifier::type_invariant]
    pub(crate) closed spec fn wf(&self) -> bool {
        all_len5(word_views(self.allowed@)) && all_len5(word_views(self.possible@))
    }

    /// The allowed-guess dictionary, as character sequences.
    pub closed spec fn allowed_words(&self) -> Seq<Seq<char>> {
        word_views(self.allowed@)
    }

    /// The initial possible-solutions list, as character sequences.
    pub closed spec fn possible_words(&self) -> Seq<Seq<char>> {
        word_views(self.possible@)
    }

    /// The size threshold above which the exhaustive search is skipped.
    pub closed spec fn search_cap(&self) -> int {
        self.max_search as int
    }

    /// A solver over the allowed words `a` and possible solutions `p`, with
    /// worst-case-search threshold `ms` and verbosity flag `l`.
    pub fn create(a: Vec<String>, p: Vec<String>, ms: u32, l: bool) -> (r: Solver)
        requires
            all_len5(word_views(a@)),
            all_len5(word_views(p@)),
        ensures
            r.allowed_words() == word_views(a@),
            r.possible_words() == word_views(p@),
            r.search_cap() == ms as int,
    {
        Solver { allowed: a, possible: p, loud_mode: l, max_search: ms as usize }
    }

    /// Repeats guess → feedback → filter against `oracle` until the feedback
    /// is all green; the guesses made, in order, are the result. Ends with an
    /// error when a word list is or runs empty, or when twelve shrink steps
    /// have not sufficed.
    pub fn solve(&self, oracle: Oracle) -> (r: Result<Vec<String>, SolveError>)
        ensures
            trace_view(r) == solve_spec(
                self.allowed_words(),
                self.possible_words(),
                oracle@,
                self.search_cap(),
                12,
            ),
    {
        proof {
            use_type_invariant(self);
            use_type_invariant(&oracle);
            oracle.lemma_wf_len();
        }
        let ghost full = solve_spec(
            self.allowed_words(),
            self.possible_words(),
            oracle@,
            self.search_cap(),
            12,
        );
        if self.allowed.len() == 0 {
            return Result::Err(SolveError::EmptyWordList);
        }
        let mut known_possible: Vec<String> = Vec::new();
        for i in 0..self.possible.len()
            invariant
                known_possible@.len() == i,
                forall|k: int| 0 <= k < i ==> known_possible@[k] == self.possible@[k],
        {
            known_possible.push(self.possible[i].clone());
        }
        proof {
            assert(known_possible@ =~= self.possible@);
        }
        let mut trace: Vec<String> = Vec::new();
        let mut fuel: usize = 12;
        loop
            invariant
                self.allowed@.len() > 0,
                all_len5(self.allowed_words()),
                all_len5(word_views(known_possible@)),
                oracle@.len() == 5,
                full == solve_spec(
                    self.allowed_words(),
                    self.possible_words(),
                    oracle@,
                    self.search_cap(),
                    12,
                ),
                (match solve_spec(
                    self.allowed_words(),
                    word_views(known_possible@),
                    oracle@,
                    self.search_cap(),
                    fuel as nat,
                ) {
                    Result::Ok(rest) => full == Result::<Seq<Seq<char>>, SolveError>::Ok(word_views(trace@) + rest),
                    Result::Err(e) => full == Result::<Seq<Seq<char>>, SolveError>::Err(e),
                }),
            decreases fuel,
        {
            if known_possible.len() == 0 {
                return Result::Err(SolveError::EmptyWordList);
            }
            let g = calculate_guess(&self.allowed, &known_possible, self.max_search);
            let ghost pre_trace = trace@;
            trace.push(g.clone());
            proof {
                assert(word_views(trace@) =~= word_views(pre_trace) + seq![g@]);
            }
            let reply = oracle.guess(g.as_str());
            proof {
                lemma_compare_green(g@, oracle@);
            }
            if reply.all_green() {
                proof {
                    assert forall|k: int| 0 <= k < 5 implies g@[k] == oracle@[k] by {
                        assert(reply@[k] == Square::GREEN);
                        assert(compare_spec(g@, oracle@)[k] == Square::GREEN);
                    }
                    assert(g@ =~= oracle@);
                    let a = self.allowed_words();
                    let cap = self.search_cap();
                    assert(solve_spec(a, word_views(known_possible@), oracle@, cap, fuel as nat)
                        == Result::<Seq<Seq<char>>, SolveError>::Ok(seq![g@]));
                    assert(full == Result::<Seq<Seq<char>>, SolveError>::Ok(
                        word_views(pre_trace) + seq![g@],
                    ));
                }
                return Result::Ok(trace);
            }
            proof {
                let k = choose|k: int| 0 <= k < 5 && reply@[k] != Square::GREEN;
                assert(g@[k] != oracle@[k]);
                assert(g@ != oracle@);
            }
            if fuel == 0 {
                return Result::Err(SolveError::OutOfGuesses);
            }
            fuel = fuel - 1;
            let ghost wkp = word_views(known_possible@);
            let next = reduce_set(g.as_str(), &reply, &known_possible);
            known_possible = next;
            proof {
                let a = self.allowed_words();
                let cap = self.search_cap();
                let sp_old = solve_spec(a, wkp, oracle@, cap, (fuel + 1) as nat);
                let sp_new = solve_spec(a, word_views(known_possible@), oracle@, cap, fuel as nat);
                assert(word_views(known_possible@) == reduce_spec(
                    g@,
                    compare_spec(g@, oracle@),
                    wkp,
                ));
                assert(g@ == calc_guess_spec(a, wkp, cap));
                assert(sp_old == (match sp_new {
                    Result::Ok(rest) => Result::<Seq<Seq<char>>, SolveError>::Ok(seq![g@] + rest),
                    Result::Err(e) => Result::<Seq<Seq<char>>, SolveError>::Err(e),
                }));
                match sp_new {
                    Result::Ok(rest) => {
                        assert(full == Result::<Seq<Seq<char>>, SolveError>::Ok(
                            word_views(pre_trace) + (seq![g@] + rest),
                        ));
                        assert(word_views(pre_trace) + (seq![g@] + rest) =~= word_views(trace@)
                            + rest);
                    },
                    Result::Err(_) => {},
                }
            }
        }
    }
}

} // verus!
