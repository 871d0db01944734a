//! The feasibility filter: decides whether a candidate word could still be
//! the secret given that a guess produced a feedback vector, and shrinks a
//! candidate list to the surviving subset.
//!
//! A candidate is feasible when
//! - every green position of the guess matches the candidate letter there,
//! - every yellow position of the guess differs from the candidate letter
//!   there, and
//! - for every letter, the candidate holds at least as many copies as the
//!   guess has non-gray marks for it — exactly as many when the guess also
//!   has a gray mark for that letter, since then the feedback revealed the
//!   true count.

use vstd::prelude::*;
use vstd::seq_lib::group_seq_properties;

use crate::oracle::Reply;
use crate::oracle::Square;
use crate::oracle::compare_spec;
use crate::oracle::find_unused;
use crate::oracle::green_marks;
use crate::oracle::green_used;
use crate::oracle::lemma_compare_green;
use crate::oracle::lemma_find_unused_in_range;
use crate::oracle::lemma_find_unused_none;
use crate::oracle::lemma_yellow_pass_frame;
use crate::oracle::used_after_compare;
use crate::oracle::yellow_pass;

verus! {

/// How many of the first `n` positions of `w` hold the letter `c`.
pub open spec fn count_char(w: Seq<char>, c: char, n: int) -> nat
    decreases n,
{
    if n <= 0 {
        0
    } else {
        count_char(w, c, n - 1) + (if w[n - 1] == c {
            1nat
        } else {
            0nat
        })
    }
}

/// How many of the first `n` guess positions hold the letter `c` and carry a
/// non-gray mark.
pub open spec fn count_colored(g: Seq<char>, fb: Seq<Square>, c: char, n: int) -> nat
    decreases n,
{
    if n <= 0 {
        0
    } else {
        count_colored(g, fb, c, n - 1) + (if g[n - 1] == c && fb[n - 1] != Square::GRAY {
            1nat
        } else {
            0nat
        })
    }
}

/// Whether some guess position holds the letter `c` and is marked gray.
pub open spec fn has_gray(g: Seq<char>, fb: Seq<Square>, c: char) -> bool {
    exists|i: int| 0 <= i < 5 && g[i] == c && fb[i] == Square::GRAY
}

/// The per-letter count rule: the candidate `w` holds at least as many copies
/// of `c` as the guess has non-gray marks for `c`, and exactly as many when
/// the guess also has a gray mark for `c`.
pub open spec fn count_rule(g: Seq<char>, fb: Seq<Square>, w: Seq<char>, c: char) -> bool {
    if has_gray(g, fb, c) {
        count_char(w, c, 5) == count_colored(g, fb, c, 5)
    } else {
        count_char(w, c, 5) >= count_colored(g, fb, c, 5)
    }
}

/// The per-position rules: greens must match, yellows must not.
pub open spec fn position_rules(g: Seq<char>, fb: Seq<Square>, w: Seq<char>) -> bool {
    forall|i: int|
        0 <= i < 5 ==> ((#[trigger] fb[i] == Square::GREEN ==> w[i] == g[i]) && (fb[i]
            == Square::YELLOW ==> w[i] != g[i]))
}

/// Whether the candidate `w` could be the secret given that the guess `g`
/// produced the feedback `fb`.
pub open spec fn feasible_spec(g: Seq<char>, fb: Seq<Square>, w: Seq<char>) -> bool {
    position_rules(g, fb, w) && (forall|c: char| #[trigger] count_rule(g, fb, w, c))
}

/// A letter that occurs nowhere in the first `n` positions of the guess has
/// no colored occurrences there.
proof fn lemma_count_colored_absent(g: Seq<char>, fb: Seq<Square>, c: char, n: int)
    requires
        forall|k: int| 0 <= k < n ==> g[k] != c,
    ensures
        count_colored(g, fb, c, n) == 0,
    decreases n,
{
    if n > 0 {
        lemma_count_colored_absent(g, fb, c, n - 1);
    }
}

/// How many of the first five positions of `w` hold the letter `c`.
fn occurrences(w: &str, c: char) -> (n: usize)
    requires
        w@.len() == 5,
    ensures
        n == count_char(w@, c, 5),
{
    let mut n: usize = 0;
    for i in 0..5
        invariant
            w@.len() == 5,
            n == count_char(w@, c, i as int),
            n <= i,
    {
        if w.get_char(i) == c {
            n = n + 1;
        }
    }
    n
}

/// How many of the five guess positions hold the letter `c` with a non-gray
/// mark.
fn colored_count(g: &str, reply: &Reply, c: char) -> (n: usize)
    requires
        g@.len() == 5,
    ensures
        n == count_colored(g@, reply@, c, 5),
{
    proof {
        use_type_invariant(reply);
        reply.lemma_wf_len();
    }
    let mut n: usize = 0;
    for i in 0..5
        invariant
            g@.len() == 5,
            reply@.len() == 5,
            n == count_colored(g@, reply@, c, i as int),
            n <= i,
    {
        if g.get_char(i) == c && !reply.is_gray(i) {
            n = n + 1;
        }
    }
    n
}

/// Whether some guess position holds the letter `c` and is marked gray.
fn gray_somewhere(g: &str, reply: &Reply, c: char) -> (r: bool)
    requires
        g@.len() == 5,
    ensures
        r == has_gray(g@, reply@, c),
{
    proof {
        use_type_invariant(reply);
        reply.lemma_wf_len();
    }
    for i in 0..5
        invariant
            g@.len() == 5,
            reply@.len() == 5,
            forall|k: int| 0 <= k < i ==> !(g@[k] == c && reply@[k] == Square::GRAY),
    {
        if g.get_char(i) == c && reply.is_gray(i) {
            return true;
        }
    }
    false
}

/// Whether the candidate `word` could be the secret given that `guess`
/// produced `reply`. Pure; used both to shrink the live candidate set and to
/// score hypothetical guesses.
pub fn is_feasible(guess: &str, reply: &Reply, word: &str) -> (r: bool)
    requires
        guess@.len() == 5,
        word@.len() == 5,
    ensures
        r == feasible_spec(guess@, reply@, word@),
{
    proof {
        use_type_invariant(reply);
        reply.lemma_wf_len();
    }
    for i in 0..5
        invariant
            guess@.len() == 5,
            word@.len() == 5,
            reply@.len() == 5,
            forall|k: int|
                0 <= k < i ==> ((#[trigger] reply@[k] == Square::GREEN ==> word@[k] == guess@[k])
                    && (reply@[k] == Square::YELLOW ==> word@[k] != guess@[k])),
    {
        let gc = guess.get_char(i);
        let wc = word.get_char(i);
        if reply.is_green(i) {
            if gc != wc {
                proof {
                    assert(!position_rules(guess@, reply@, word@));
                }
                return false;
            }
        } else if reply.is_yellow(i) {
            if gc == wc {
                proof {
                    assert(!position_rules(guess@, reply@, word@));
                }
                return false;
            }
        }
    }
    for i in 0..5
        invariant
            guess@.len() == 5,
            word@.len() == 5,
            reply@.len() == 5,
            position_rules(guess@, reply@, word@),
            forall|k: int| 0 <= k < i ==> #[trigger] count_rule(guess@, reply@, word@, guess@[k]),
    {
        let c = guess.get_char(i);
        let n = colored_count(guess, reply, c);
        let m = occurrences(word, c);
        let gr = gray_somewhere(guess, reply, c);
        if gr {
            if m != n {
                proof {
                    assert(!count_rule(guess@, reply@, word@, c));
                }
                return false;
            }
        } else {
            if m < n {
                proof {
                    assert(!count_rule(guess@, reply@, word@, c));
                }
                return false;
            }
        }
        proof {
            assert(count_rule(guess@, reply@, word@, c));
        }
    }
    proof {
        assert forall|c: char| #[trigger] count_rule(guess@, reply@, word@, c) by {
            if exists|k: int| 0 <= k < 5 && guess@[k] == c {
                let k = choose|k: int| 0 <= k < 5 && guess@[k] == c;
                assert(count_rule(guess@, reply@, word@, guess@[k]));
            } else {
                assert(forall|k: int| 0 <= k < 5 ==> guess@[k] != c);
                lemma_count_colored_absent(guess@, reply@, c, 5);
                assert(!has_gray(guess@, reply@, c));
            }
        }
    }
    true
}

/// The candidates of `ws` that stay feasible after `g` produced `fb`, in
/// their original order.
pub open spec fn reduce_spec(g: Seq<char>, fb: Seq<Square>, ws: Seq<Seq<char>>) -> Seq<Seq<char>> {
    ws.filter(|w: Seq<char>| feasible_spec(g, fb, w))
}

/// The views of a list of words, as sequences of characters.
pub open spec fn word_views(ws: Seq<String>) -> Seq<Seq<char>> {
    ws.map_values(|w: String| w@)
}

/// Whether every word of the list has exactly five characters.
pub open spec fn all_len5(ws: Seq<Seq<char>>) -> bool {
    forall|k: int| 0 <= k < ws.len() ==> (#[trigger] ws[k]).len() == 5
}

/// Filtering a sequence extended by one element keeps the filtered prefix and
/// appends the new element exactly when it satisfies the predicate.
proof fn lemma_filter_push<A>(s: Seq<A>, pred: spec_fn(A) -> bool, x: A)
    ensures
        s.push(x).filter(pred) == (if pred(x) {
            s.filter(pred).push(x)
        } else {
            s.filter(pred)
        }),
{
    reveal(Seq::filter);
    assert(s.push(x).drop_last() =~= s);
    assert(s.push(x).last() == x);
}

/// The members of `possible` that stay feasible after `guess` produced
/// `reply`, in their original order. This is the only way a candidate set
/// shrinks.
pub fn reduce_set(guess: &str, reply: &Reply, possible: &Vec<String>) -> (r: Vec<String>)
    requires
        guess@.len() == 5,
        all_len5(word_views(possible@)),
    ensures
        word_views(r@) == reduce_spec(guess@, reply@, word_views(possible@)),
        all_len5(word_views(r@)),
        r@.len() <= possible@.len(),
{
    broadcast use group_seq_properties;

    let ghost pred = |w: Seq<char>| feasible_spec(guess@, reply@, w);
    let mut out: Vec<String> = Vec::new();
    for i in 0..possible.len()
        invariant
            guess@.len() == 5,
            all_len5(word_views(possible@)),
            word_views(out@) == word_views(possible@).take(i as int).filter(pred),
            all_len5(word_views(out@)),
            out@.len() <= i,
            pred == (|w: Seq<char>| feasible_spec(guess@, reply@, w)),
    {
        let ghost prefix = word_views(possible@).take(i as int);
        assert(possible@[i as int]@ == word_views(possible@)[i as int]);
        if is_feasible(guess, reply, possible[i].as_str()) {
            out.push(possible[i].clone());
        }
        proof {
            lemma_filter_push(prefix, pred, word_views(possible@)[i as int]);
            assert(word_views(possible@).take(i + 1) =~= prefix.push(
                word_views(possible@)[i as int],
            ));
            if pred(word_views(possible@)[i as int]) {
                assert(word_views(out@) =~= word_views(possible@).take(i + 1).filter(pred));
            }
        }
    }
    proof {
        assert(word_views(possible@).take(possible@.len() as int) =~= word_views(possible@));
    }
    out
}

/// How many of the first `n` secret positions hold the letter `c` and are
/// marked used.
pub open spec fn count_used(s: Seq<char>, used: Seq<bool>, c: char, n: int) -> nat
    decreases n,
{
    if n <= 0 {
        0
    } else {
        count_used(s, used, c, n - 1) + (if s[n - 1] == c && used[n - 1] {
            1nat
        } else {
            0nat
        })
    }
}

/// Marking one gray guess position yellow raises that letter's colored count
/// by one and no other letter's.
proof fn lemma_count_colored_update(
    g: Seq<char>,
    fb: Seq<Square>,
    c: char,
    p: int,
    n: int,
)
    requires
        0 <= p < 5,
        fb.len() == 5,
        n <= 5,
        fb[p] == Square::GRAY,
    ensures
        count_colored(g, fb.update(p, Square::YELLOW), c, n) == count_colored(g, fb, c, n) + (
        if p < n && g[p] == c {
            1nat
        } else {
            0nat
        }),
    decreases n,
{
    if n > 0 {
        lemma_count_colored_update(g, fb, c, p, n - 1);
    }
}

/// Marking one unused secret position used raises that letter's used count by
/// one and no other letter's.
proof fn lemma_count_used_update(s: Seq<char>, used: Seq<bool>, c: char, p: int, n: int)
    requires
        0 <= p < 5,
        used.len() == 5,
        n <= 5,
        !used[p],
    ensures
        count_used(s, used.update(p, true), c, n) == count_used(s, used, c, n) + (if p < n && s[p]
            == c {
            1nat
        } else {
            0nat
        }),
    decreases n,
{
    if n > 0 {
        lemma_count_used_update(s, used, c, p, n - 1);
    }
}

/// A letter's used count never exceeds its occurrence count.
proof fn lemma_count_used_le(s: Seq<char>, used: Seq<bool>, c: char, n: int)
    ensures
        count_used(s, used, c, n) <= count_char(s, c, n),
    decreases n,
{
    if n > 0 {
        lemma_count_used_le(s, used, c, n - 1);
    }
}

/// When every position holding `c` is used, the used count equals the
/// occurrence count.
proof fn lemma_count_used_full(s: Seq<char>, used: Seq<bool>, c: char, n: int)
    requires
        forall|j: int| 0 <= j < n && s[j] == c ==> used[j],
    ensures
        count_used(s, used, c, n) == count_char(s, c, n),
    decreases n,
{
    if n > 0 {
        lemma_count_used_full(s, used, c, n - 1);
    }
}

/// After the green pass, each letter's colored count in the guess equals its
/// used count in the secret: both count the positions where guess and secret
/// agree on that letter.
proof fn lemma_initial_counts(g: Seq<char>, s: Seq<char>, c: char, n: int)
    requires
        n <= 5,
    ensures
        count_colored(g, green_marks(g, s), c, n) == count_used(
            s,
            green_used(g, s),
            c,
            n,
        ),
    decreases n,
{
    if n > 0 {
        lemma_initial_counts(g, s, c, n - 1);
    }
}

/// The bookkeeping invariant of the yellow pass: colored guess positions and
/// used secret positions stay in one-to-one, letter-preserving
/// correspondence, and a position left gray means every matching secret
/// position ends up used.
proof fn lemma_yellow_pass_counts(
    g: Seq<char>,
    s: Seq<char>,
    marks: Seq<Square>,
    used: Seq<bool>,
    i: int,
)
    requires
        g.len() == 5,
        s.len() == 5,
        marks.len() == 5,
        used.len() == 5,
        0 <= i <= 5,
        forall|k: int| i <= k < 5 ==> marks[k] != Square::YELLOW,
        forall|c: char|
            #[trigger] count_colored(g, marks, c, 5) == count_used(s, used, c, 5),
    ensures
        forall|c: char|
            #[trigger] count_colored(g, yellow_pass(g, s, marks, used, i).0, c, 5)
                == count_used(s, yellow_pass(g, s, marks, used, i).1, c, 5),
        forall|k: int|
            i <= k < 5 && yellow_pass(g, s, marks, used, i).0[k] == Square::GRAY
                ==> (forall|j: int|
                0 <= j < 5 && s[j] == g[k] ==> yellow_pass(g, s, marks, used, i).1[j]),
    decreases 5 - i,
{
    let r = yellow_pass(g, s, marks, used, i);
    lemma_yellow_pass_frame(g, s, marks, used, i);
    if i >= 5 {
    } else if marks[i] == Square::GREEN {
        lemma_yellow_pass_counts(g, s, marks, used, i + 1);
        assert(r == yellow_pass(g, s, marks, used, i + 1));
        assert forall|k: int|
            i <= k < 5 && r.0[k] == Square::GRAY implies (forall|j: int|
            0 <= j < 5 && s[j] == g[k] ==> r.1[j]) by {
            if k == i {
                assert(r.0[i] == marks[i]);
            }
        }
    } else {
        let j = find_unused(s, used, g[i], 0);
        if j >= 0 {
            lemma_find_unused_in_range(s, used, g[i], 0);
            let m2 = marks.update(i, Square::YELLOW);
            let u2 = used.update(j, true);
            assert(marks[i] == Square::GRAY);
            assert forall|c: char|
                #[trigger] count_colored(g, m2, c, 5) == count_used(s, u2, c, 5) by {
                lemma_count_colored_update(g, marks, c, i, 5);
                lemma_count_used_update(s, used, c, j, 5);
                assert(count_colored(g, marks, c, 5) == count_used(s, used, c, 5));
            }
            lemma_yellow_pass_counts(g, s, m2, u2, i + 1);
            assert(r == yellow_pass(g, s, m2, u2, i + 1));
            lemma_yellow_pass_frame(g, s, m2, u2, i + 1);
            assert forall|k: int|
                i <= k < 5 && r.0[k] == Square::GRAY implies (forall|p: int|
                0 <= p < 5 && s[p] == g[k] ==> r.1[p]) by {
                if k == i {
                    assert(r.0[i] == m2[i]);
                    assert(m2[i] == Square::YELLOW);
                }
            }
        } else {
            lemma_find_unused_none(s, used, g[i], 0);
            lemma_yellow_pass_counts(g, s, marks, used, i + 1);
            assert(r == yellow_pass(g, s, marks, used, i + 1));
            lemma_yellow_pass_frame(g, s, marks, used, i + 1);
            assert forall|k: int|
                i <= k < 5 && r.0[k] == Square::GRAY implies (forall|p: int|
                0 <= p < 5 && s[p] == g[k] ==> r.1[p]) by {
                if k == i {
                    assert forall|p: int| 0 <= p < 5 && s[p] == g[i] implies r.1[p] by {
                        assert(used[p]);
                    }
                }
            }
        }
    }
}

/// Secret preservation: the true secret is always feasible for the feedback
/// it produced, so `reduce_set` never discards it.
pub proof fn lemma_secret_feasible(g: Seq<char>, s: Seq<char>)
    requires
        g.len() == 5,
        s.len() == 5,
    ensures
        feasible_spec(g, compare_spec(g, s), s),
{
    let m0 = green_marks(g, s);
    let u0 = green_used(g, s);
    let fb = compare_spec(g, s);
    let uf = used_after_compare(g, s);
    lemma_compare_green(g, s);
    assert forall|c: char| #[trigger] count_colored(g, m0, c, 5) == count_used(s, u0, c, 5) by {
        lemma_initial_counts(g, s, c, 5);
    }
    assert(forall|k: int| 0 <= k < 5 ==> m0[k] != Square::YELLOW);
    lemma_yellow_pass_counts(g, s, m0, u0, 0);
    assert(position_rules(g, fb, s)) by {
        assert forall|i: int|
            0 <= i < 5 implies ((#[trigger] fb[i] == Square::GREEN ==> s[i] == g[i]) && (fb[i]
            == Square::YELLOW ==> s[i] != g[i])) by {
            assert((fb[i] == Square::GREEN) <==> g[i] == s[i]);
        }
    }
    assert forall|c: char| #[trigger] count_rule(g, fb, s, c) by {
        assert(count_colored(g, fb, c, 5) == count_used(s, uf, c, 5));
        lemma_count_used_le(s, uf, c, 5);
        if has_gray(g, fb, c) {
            let k = choose|k: int| 0 <= k < 5 && g[k] == c && fb[k] == Square::GRAY;
            assert(forall|j: int| 0 <= j < 5 && s[j] == g[k] ==> uf[j]);
            lemma_count_used_full(s, uf, c, 5);
        }
    }
}

/// A letter's colored count never exceeds its occurrence count in the guess,
/// and is strictly smaller when some occurrence is marked gray.
proof fn lemma_count_colored_lt(g: Seq<char>, fb: Seq<Square>, c: char, n: int)
    ensures
        count_colored(g, fb, c, n) <= count_char(g, c, n),
        (exists|k: int| 0 <= k < n && g[k] == c && fb[k] == Square::GRAY) ==> count_colored(
            g,
            fb,
            c,
            n,
        ) < count_char(g, c, n),
    decreases n,
{
    if n > 0 {
        lemma_count_colored_lt(g, fb, c, n - 1);
        if exists|k: int| 0 <= k < n && g[k] == c && fb[k] == Square::GRAY {
            let k = choose|k: int| 0 <= k < n && g[k] == c && fb[k] == Square::GRAY;
            if k < n - 1 {
                assert(exists|k: int| 0 <= k < n - 1 && g[k] == c && fb[k] == Square::GRAY);
            }
        }
    }
}

/// A wrong guess never survives its own feedback: if the guess differs from
/// the secret, it is infeasible for the feedback it received, so a guess
/// drawn from the candidate set always shrinks that set.
pub proof fn lemma_wrong_guess_infeasible(g: Seq<char>, s: Seq<char>)
    requires
        g.len() == 5,
        s.len() == 5,
        g != s,
    ensures
        !feasible_spec(g, compare_spec(g, s), g),
{
    let fb = compare_spec(g, s);
    lemma_compare_green(g, s);
    assert(exists|k: int| 0 <= k < 5 && g[k] != s[k]) by {
        if forall|k: int| 0 <= k < 5 ==> g[k] == s[k] {
            assert(g =~= s);
        }
    }
    let k = choose|k: int| 0 <= k < 5 && g[k] != s[k];
    assert(fb[k] != Square::GREEN);
    if fb[k] == Square::YELLOW {
        assert(position_rules(g, fb, g) ==> g[k] != g[k]);
    } else {
        assert(fb[k] == Square::GRAY);
        let c = g[k];
        assert(has_gray(g, fb, c));
        lemma_count_colored_lt(g, fb, c, 5);
        assert(!count_rule(g, fb, g, c));
    }
}

/// Filtering twice is one filter by the conjunction of the predicates.
proof fn lemma_filter_filter<A>(s: Seq<A>, p: spec_fn(A) -> bool, q: spec_fn(A) -> bool)
    ensures
        s.filter(p).filter(q) == s.filter(|x: A| p(x) && q(x)),
    decreases s.len(),
{
    reveal(Seq::filter);
    if s.len() == 0 {
        assert(s.filter(p) =~= Seq::<A>::empty());
    } else {
        let t = s.drop_last();
        let x = s.last();
        lemma_filter_filter(t, p, q);
        lemma_filter_push(t.filter(p), q, x);
        assert(t.push(x) =~= s);
        if p(x) {
            assert(s.filter(p) == t.filter(p).push(x));
        }
    }
}

/// Filters by pointwise-equal predicates agree.
proof fn lemma_filter_ext<A>(s: Seq<A>, p: spec_fn(A) -> bool, q: spec_fn(A) -> bool)
    requires
        forall|x: A| #[trigger] p(x) == q(x),
    ensures
        s.filter(p) == s.filter(q),
    decreases s.len(),
{
    reveal(Seq::filter);
    if s.len() > 0 {
        lemma_filter_ext(s.drop_last(), p, q);
    }
}

/// Dropping an element that fails the predicate makes the filtered sequence
/// strictly shorter than the original.
proof fn lemma_filter_out<A>(s: Seq<A>, pred: spec_fn(A) -> bool, i: int)
    requires
        0 <= i < s.len(),
        !pred(s[i]),
    ensures
        s.filter(pred).len() < s.len(),
    decreases s.len(),
{
    reveal(Seq::filter);
    let t = s.drop_last();
    t.lemma_filter_len(pred);
    if i == s.len() - 1 {
        assert(s.filter(pred) == t.filter(pred));
    } else {
        lemma_filter_out(t, pred, i);
    }
}

/// Shrinking is monotone: `reduce_set` never grows the candidate set.
pub proof fn lemma_reduce_set_monotone(g: Seq<char>, fb: Seq<Square>, ws: Seq<Seq<char>>)
    ensures
        reduce_spec(g, fb, ws).len() <= ws.len(),
{
    ws.lemma_filter_len(|w: Seq<char>| feasible_spec(g, fb, w));
}

/// Order insensitivity: applying the constraints of two guess/feedback pairs
/// in either order leaves the same surviving candidate set. Each pair is an
/// independent necessary condition, so a whole sequence of real guesses can
/// be applied in any order.
pub proof fn lemma_reduce_set_commutes(
    g1: Seq<char>,
    fb1: Seq<Square>,
    g2: Seq<char>,
    fb2: Seq<Square>,
    ws: Seq<Seq<char>>,
)
    ensures
        reduce_spec(g2, fb2, reduce_spec(g1, fb1, ws)) == reduce_spec(
            g1,
            fb1,
            reduce_spec(g2, fb2, ws),
        ),
{
    let p = |w: Seq<char>| feasible_spec(g1, fb1, w);
    let q = |w: Seq<char>| feasible_spec(g2, fb2, w);
    lemma_filter_filter(ws, p, q);
    lemma_filter_filter(ws, q, p);
    lemma_filter_ext(ws, |x: Seq<char>| p(x) && q(x), |x: Seq<char>| q(x) && p(x));
}

/// The true secret survives every reduction by feedback it produced.
pub proof fn lemma_reduce_set_keeps_secret(g: Seq<char>, s: Seq<char>, ws: Seq<Seq<char>>)
    requires
        g.len() == 5,
        s.len() == 5,
        ws.contains(s),
    ensures
        reduce_spec(g, compare_spec(g, s), ws).contains(s),
{
    lemma_secret_feasible(g, s);
    let pred = |w: Seq<char>| feasible_spec(g, compare_spec(g, s), w);
    let i = choose|i: int| 0 <= i < ws.len() && ws[i] == s;
    ws.lemma_filter_contains(pred, i);
}

/// All-green feedback admits exactly the guess itself: the green rule pins
/// every candidate letter, so only the guess survives a correct guess.
pub proof fn lemma_all_green_feasible_iff(g: Seq<char>, w: Seq<char>)
    requires
        g.len() == 5,
        w.len() == 5,
    ensures
        feasible_spec(g, compare_spec(g, g), w) <==> w == g,
{
    crate::oracle::lemma_compare_self(g);
    if feasible_spec(g, compare_spec(g, g), w) {
        assert forall|k: int| 0 <= k < 5 implies w[k] == g[k] by {
            assert(compare_spec(g, g)[k] == Square::GREEN);
        }
        assert(w =~= g);
    }
    if w == g {
        lemma_secret_feasible(g, g);
    }
}

/// Filtering preserves uniqueness.
pub(crate) proof fn lemma_filter_no_duplicates<A>(s: Seq<A>, pred: spec_fn(A) -> bool)
    requires
        s.no_duplicates(),
    ensures
        s.filter(pred).no_duplicates(),
    decreases s.len(),
{
    reveal(Seq::filter);
    if s.len() > 0 {
        let t = s.drop_last();
        let x = s.last();
        assert(t.no_duplicates());
        lemma_filter_no_duplicates(t, pred);
        if pred(x) {
            assert(!t.contains(x));
            if t.filter(pred).contains(x) {
                t.lemma_filter_contains_rev(pred, x);
            }
            let out = t.filter(pred).push(x);
            assert(s.filter(pred) == out);
            assert forall|i: int, j: int|
                0 <= i < out.len() && 0 <= j < out.len() && i != j implies out[i] != out[j] by {
                if i == out.len() - 1 {
                    assert(t.filter(pred).contains(out[j]));
                } else if j == out.len() - 1 {
                    assert(t.filter(pred).contains(out[i]));
                }
            }
        }
    }
}

/// With unique candidates, all-green feedback leaves at most one survivor:
/// the guess itself, if it was a candidate.
pub proof fn lemma_reduce_all_green(g: Seq<char>, ws: Seq<Seq<char>>)
    requires
        g.len() == 5,
        all_len5(ws),
        ws.no_duplicates(),
    ensures
        reduce_spec(g, compare_spec(g, g), ws).len() <= 1,
{
    let pred = |w: Seq<char>| feasible_spec(g, compare_spec(g, g), w);
    let r = ws.filter(pred);
    lemma_filter_no_duplicates(ws, pred);
    if r.len() >= 2 {
        assert forall|i: int| 0 <= i < r.len() implies r[i] == g by {
            ws.lemma_filter_pred(pred, i);
            assert(r.contains(r[i]));
            ws.lemma_filter_contains_rev(pred, r[i]);
            let k = choose|k: int| 0 <= k < ws.len() && ws[k] == r[i];
            lemma_all_green_feasible_iff(g, r[i]);
        }
        assert(r[0] == r[1]);
    }
}

/// A guess drawn from the candidate set strictly shrinks it unless it is the
/// secret itself: the wrong guess is discarded while the secret survives.
pub proof fn lemma_candidate_guess_shrinks(g: Seq<char>, s: Seq<char>, ws: Seq<Seq<char>>)
    requires
        g.len() == 5,
        s.len() == 5,
        g != s,
        ws.contains(g),
    ensures
        reduce_spec(g, compare_spec(g, s), ws).len() < ws.len(),
{
    lemma_wrong_guess_infeasible(g, s);
    let pred = |w: Seq<char>| feasible_spec(g, compare_spec(g, s), w);
    let i = choose|i: int| 0 <= i < ws.len() && ws[i] == g;
    lemma_filter_out(ws, pred, i);
}

} // verus!
