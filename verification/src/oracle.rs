//! The feedback oracle: grades a guess against a secret word.
//!
//! `compare` runs two passes. The green pass marks every position where the
//! guess letter equals the secret letter and records that secret position as
//! used. The yellow pass walks the remaining guess positions left to right and
//! marks one yellow for the first unused secret position holding the same
//! letter, so a letter earns at most as many non-gray marks as it occurs in
//! the secret.

use vstd::prelude::*;

verus! {

/// One per-letter mark: absent (gray), present elsewhere (yellow), or
/// correct position (green).
#[derive(Clone, Copy, PartialEq, Eq, Structural, Debug)]
#[allow(non_camel_case_types)]
pub enum Square {
    GRAY,
    YELLOW,
    GREEN,
}

/// The feedback for one guess: exactly five marks, index-aligned with the
/// guess letters.
pub struct Reply {
    lights: Vec<Square>,
}

impl View for Reply {
    type V = Seq<Square>;

    closed spec fn view(&self) -> Seq<Square> {
        self.lights@
    }
}

/// The canonical one-character rendering of a mark.
pub open spec fn square_char(sq: Square) -> char {
    match sq {
        Square::GREEN => 'G',
        Square::YELLOW => 'Y',
        Square::GRAY => ' ',
    }
}

impl Reply {
    #[verifier::type_invariant]
    pub(crate) closed spec fn wf(&self) -> bool {
        self.lights@.len() == 5
    }

    /// A well-formed reply holds exactly five marks.
    pub(crate) proof fn lemma_wf_len(&self)
        requires
            self.wf(),
        ensures
            self@.len() == 5,
    {
    }

    /// A reply with every position marked absent.
    pub fn all_gray() -> (r: Reply)
        ensures
            r@.len() == 5,
            forall|i: int| 0 <= i < 5 ==> r@[i] == Square::GRAY,
    {
        let mut r: Vec<Square> = Vec::new();
        for i in 0..5
            invariant
                r@.len() == i,
                forall|k: int| 0 <= k < i ==> r@[k] == Square::GRAY,
        {
            r.push(Square::GRAY);
        }
        Reply { lights: r }
    }

    /// A copy of this reply with the mark at `pos` replaced by `color`.
    pub fn with_set_light(&self, pos: usize, color: Square) -> (r: Reply)
        requires
            pos < 5,
        ensures
            r@ == self@.update(pos as int, color),
    {
        proof {
            use_type_invariant(self);
        }
        let mut r: Vec<Square> = Vec::new();
        for i in 0..5
            invariant
                pos < 5,
                self@.len() == 5,
                r@.len() == i,
                forall|k: int| 0 <= k < i ==> r@[k] == (if k == pos { color } else { self@[k] }),
        {
            if pos == i {
                r.push(color);
            } else {
                r.push(self.lights[i]);
            }
        }
        let out = Reply { lights: r };
        proof {
            assert(out@ =~= self@.update(pos as int, color));
        }
        out
    }

    /// The mark at `pos`.
    pub fn light(&self, pos: usize) -> (r: &Square)
        requires
            pos < 5,
        ensures
            *r == self@[pos as int],
    {
        proof {
            use_type_invariant(self);
        }
        &self.lights[pos]
    }

    /// Whether every position is marked correct.
    pub fn all_green(&self) -> (r: bool)
        ensures
            r == (forall|i: int| 0 <= i < 5 ==> self@[i] == Square::GREEN),
    {
        proof {
            use_type_invariant(self);
        }
        let mut i: usize = 0;
        while i < 5
            invariant
                i <= 5,
                self@.len() == 5,
                forall|k: int| 0 <= k < i ==> self@[k] == Square::GREEN,
            decreases 5 - i,
        {
            if !(self.lights[i] == Square::GREEN) {
                return false;
            }
            i = i + 1;
        }
        true
    }

    /// Whether the mark at `pos` is green.
    pub fn is_green(&self, pos: usize) -> (r: bool)
        requires
            pos < 5,
        ensures
            r == (self@[pos as int] == Square::GREEN),
    {
        proof {
            use_type_invariant(self);
        }
        self.lights[pos] == Square::GREEN
    }

    /// Whether the mark at `pos` is yellow.
    pub fn is_yellow(&self, pos: usize) -> (r: bool)
        requires
            pos < 5,
        ensures
            r == (self@[pos as int] == Square::YELLOW),
    {
        proof {
            use_type_invariant(self);
        }
        self.lights[pos] == Square::YELLOW
    }

    /// Whether the mark at `pos` is gray.
    pub fn is_gray(&self, pos: usize) -> (r: bool)
        requires
            pos < 5,
        ensures
            r == (self@[pos as int] == Square::GRAY),
    {
        proof {
            use_type_invariant(self);
        }
        self.lights[pos] == Square::GRAY
    }

    /// The canonical rendering: one character per position, 'G' for green,
    /// 'Y' for yellow, a space for gray.
    pub fn to_string(&self) -> (r: String)
        ensures
            r@.len() == 5,
            forall|i: int| 0 <= i < 5 ==> r@[i] == square_char(self@[i]),
    {
        proof {
            use_type_invariant(self);
        }
        let mut s = String::new();
        for i in 0..5
            invariant
                self@.len() == 5,
                s@.len() == i,
                forall|k: int| 0 <= k < i ==> s@[k] == square_char(self@[k]),
        {
            let piece: &str = match self.lights[i] {
                Square::GREEN => "G",
                Square::YELLOW => "Y",
                Square::GRAY => " ",
            };
            proof {
                reveal_strlit("G");
                reveal_strlit("Y");
                reveal_strlit(" ");
            }
            s.append(piece);
        }
        s
    }
}

/// The marks after the green pass: green exactly where guess and secret agree.
pub open spec fn green_marks(g: Seq<char>, s: Seq<char>) -> Seq<Square> {
    Seq::new(5, |i: int| if g[i] == s[i] { Square::GREEN } else { Square::GRAY })
}

/// The used secret positions after the green pass: exactly the green ones.
pub open spec fn green_used(g: Seq<char>, s: Seq<char>) -> Seq<bool> {
    Seq::new(5, |i: int| g[i] == s[i])
}

/// The first secret position `j` at or after `from` that is not yet used and
/// holds the letter `c`, or -1 when there is none.
pub open spec fn find_unused(s: Seq<char>, used: Seq<bool>, c: char, from: int) -> int
    decreases 5 - from,
{
    if from < 0 || from >= 5 {
        -1
    } else if !used[from] && s[from] == c {
        from
    } else {
        find_unused(s, used, c, from + 1)
    }
}

/// The yellow pass from position `i` on: each non-green guess position claims
/// the first unused secret position with the same letter, if any. Returns the
/// final marks and the final used positions.
pub open spec fn yellow_pass(
    g: Seq<char>,
    s: Seq<char>,
    marks: Seq<Square>,
    used: Seq<bool>,
    i: int,
) -> (Seq<Square>, Seq<bool>)
    decreases 5 - i,
{
    if i < 0 || i >= 5 {
        (marks, used)
    } else if marks[i] == Square::GREEN {
        yellow_pass(g, s, marks, used, i + 1)
    } else {
        let j = find_unused(s, used, g[i], 0);
        if j >= 0 {
            yellow_pass(g, s, marks.update(i, Square::YELLOW), used.update(j, true), i + 1)
        } else {
            yellow_pass(g, s, marks, used, i + 1)
        }
    }
}

/// The feedback for `g` against secret `s`: the green pass followed by the
/// yellow pass.
pub open spec fn compare_spec(g: Seq<char>, s: Seq<char>) -> Seq<Square> {
    yellow_pass(g, s, green_marks(g, s), green_used(g, s), 0).0
}

/// The used secret positions once `compare_spec(g, s)` is fully produced.
pub open spec fn used_after_compare(g: Seq<char>, s: Seq<char>) -> Seq<bool> {
    yellow_pass(g, s, green_marks(g, s), green_used(g, s), 0).1
}

/// Structural facts about the yellow pass: lengths are preserved, green marks
/// are exactly the initial ones, positions before `i` keep their mark, and
/// used positions only grow.
pub proof fn lemma_yellow_pass_frame(
    g: Seq<char>,
    s: Seq<char>,
    marks: Seq<Square>,
    used: Seq<bool>,
    i: int,
)
    requires
        marks.len() == 5,
        used.len() == 5,
    ensures
        yellow_pass(g, s, marks, used, i).0.len() == 5,
        yellow_pass(g, s, marks, used, i).1.len() == 5,
        forall|k: int|
            0 <= k < 5 ==> ((yellow_pass(g, s, marks, used, i).0[k] == Square::GREEN) <==> marks[k]
                == Square::GREEN),
        forall|k: int| 0 <= k < i ==> yellow_pass(g, s, marks, used, i).0[k] == marks[k],
        forall|j: int| 0 <= j < 5 && used[j] ==> yellow_pass(g, s, marks, used, i).1[j],
    decreases 5 - i,
{
    let r = yellow_pass(g, s, marks, used, i);
    if i < 0 || i >= 5 {
    } else if marks[i] == Square::GREEN {
        lemma_yellow_pass_frame(g, s, marks, used, i + 1);
        assert(r == yellow_pass(g, s, marks, used, i + 1));
    } else {
        let j = find_unused(s, used, g[i], 0);
        if j >= 0 {
            lemma_find_unused_in_range(s, used, g[i], 0);
            let m2 = marks.update(i, Square::YELLOW);
            let u2 = used.update(j, true);
            lemma_yellow_pass_frame(g, s, m2, u2, i + 1);
            assert(r == yellow_pass(g, s, m2, u2, i + 1));
            assert forall|k: int| 0 <= k < 5 implies ((r.0[k] == Square::GREEN) <==> marks[k]
                == Square::GREEN) by {
                assert((r.0[k] == Square::GREEN) <==> m2[k] == Square::GREEN);
            }
            assert forall|k: int| 0 <= k < i implies r.0[k] == marks[k] by {
                assert(r.0[k] == m2[k]);
            }
            assert forall|p: int| 0 <= p < 5 && used[p] implies r.1[p] by {
                assert(u2[p]);
            }
        } else {
            lemma_yellow_pass_frame(g, s, marks, used, i + 1);
            assert(r == yellow_pass(g, s, marks, used, i + 1));
        }
    }
}

/// A found index from `find_unused` is in range, unused, and matches `c`.
pub proof fn lemma_find_unused_in_range(s: Seq<char>, used: Seq<bool>, c: char, from: int)
    requires
        find_unused(s, used, c, from) >= 0,
    ensures
        from <= find_unused(s, used, c, from) < 5,
        !used[find_unused(s, used, c, from)],
        s[find_unused(s, used, c, from)] == c,
    decreases 5 - from,
{
    if from < 0 || from >= 5 {
    } else if !used[from] && s[from] == c {
    } else {
        lemma_find_unused_in_range(s, used, c, from + 1);
    }
}

/// When `find_unused` finds nothing, every position from `from` on that holds
/// `c` is already used.
pub proof fn lemma_find_unused_none(s: Seq<char>, used: Seq<bool>, c: char, from: int)
    requires
        0 <= from,
        find_unused(s, used, c, from) < 0,
    ensures
        forall|j: int| from <= j < 5 && s[j] == c ==> used[j],
    decreases 5 - from,
{
    if from < 0 || from >= 5 {
    } else if !used[from] && s[from] == c {
    } else {
        lemma_find_unused_none(s, used, c, from + 1);
    }
}

/// A position of the feedback is green exactly when guess and secret agree
/// there, and the feedback always has five marks.
pub proof fn lemma_compare_green(g: Seq<char>, s: Seq<char>)
    requires
        g.len() == 5,
        s.len() == 5,
    ensures
        compare_spec(g, s).len() == 5,
        used_after_compare(g, s).len() == 5,
        forall|k: int|
            0 <= k < 5 ==> ((#[trigger] compare_spec(g, s)[k] == Square::GREEN) <==> g[k] == s[k]),
{
    lemma_yellow_pass_frame(g, s, green_marks(g, s), green_used(g, s), 0);
    assert forall|k: int|
        0 <= k < 5 implies ((compare_spec(g, s)[k] == Square::GREEN) <==> g[k] == s[k]) by {
        assert((compare_spec(g, s)[k] == Square::GREEN) <==> green_marks(g, s)[k]
            == Square::GREEN);
        assert(green_marks(g, s)[k] == (if g[k] == s[k] {
            Square::GREEN
        } else {
            Square::GRAY
        }));
    }
}

/// Comparing a word with itself yields all green marks.
pub proof fn lemma_compare_self(w: Seq<char>)
    requires
        w.len() == 5,
    ensures
        compare_spec(w, w).len() == 5,
        forall|k: int| 0 <= k < 5 ==> compare_spec(w, w)[k] == Square::GREEN,
{
    lemma_compare_green(w, w);
    assert forall|k: int| 0 <= k < 5 implies compare_spec(w, w)[k] == Square::GREEN by {
        assert((compare_spec(w, w)[k] == Square::GREEN) <==> w[k] == w[k]);
    }
}

/// Holds the secret word for one solve session and grades guesses against it.
pub struct Oracle {
    secret: String,
}

impl View for Oracle {
    type V = Seq<char>;

    closed spec fn view(&self) -> Seq<char> {
        self.secret@
    }
}

impl Oracle {
    #[verifier::type_invariant]
    pub(crate) closed spec fn wf(&self) -> bool {
        self.secret@.len() == 5
    }

    /// A well-formed oracle holds a five-character secret.
    pub(crate) proof fn lemma_wf_len(&self)
        requires
            self.wf(),
        ensures
            self@.len() == 5,
    {
    }

    /// An oracle holding `s` as its secret.
    pub fn create(s: &str) -> (r: Oracle)
        requires
            s@.len() == 5,
        ensures
            r@ == s@,
    {
        Oracle { secret: String::from_str(s) }
    }

    /// The feedback for `guess` against `secret`: pure and deterministic.
    pub fn compare(guess: &str, secret: &str) -> (r: Reply)
        requires
            guess@.len() == 5,
            secret@.len() == 5,
        ensures
            r@ == compare_spec(guess@, secret@),
    {
        let mut marks: Vec<Square> = Vec::new();
        let mut used: Vec<bool> = Vec::new();
        for i in 0..5
            invariant
                guess@.len() == 5,
                secret@.len() == 5,
                marks@.len() == i,
                used@.len() == i,
                forall|k: int| 0 <= k < i ==> marks@[k] == green_marks(guess@, secret@)[k],
                forall|k: int| 0 <= k < i ==> used@[k] == green_used(guess@, secret@)[k],
        {
            let gc = guess.get_char(i);
            let sc = secret.get_char(i);
            if gc == sc {
                marks.push(Square::GREEN);
                used.push(true);
            } else {
                marks.push(Square::GRAY);
                used.push(false);
            }
        }
        proof {
            assert(marks@ =~= green_marks(guess@, secret@));
            assert(used@ =~= green_used(guess@, secret@));
        }
        for i in 0..5
            invariant
                guess@.len() == 5,
                secret@.len() == 5,
                marks@.len() == 5,
                used@.len() == 5,
                yellow_pass(guess@, secret@, marks@, used@, i as int) == yellow_pass(
                    guess@,
                    secret@,
                    green_marks(guess@, secret@),
                    green_used(guess@, secret@),
                    0,
                ),
        {
            let gc = guess.get_char(i);
            if !(marks[i] == Square::GREEN) {
                let mut j: usize = 0;
                while j < 5
                    invariant_except_break
                        j <= 5,
                        secret@.len() == 5,
                        used@.len() == 5,
                        find_unused(secret@, used@, gc, 0) == find_unused(
                            secret@,
                            used@,
                            gc,
                            j as int,
                        ),
                    ensures
                        j <= 5,
                        (if j < 5 {
                            find_unused(secret@, used@, gc, 0) == j && !used@[j as int]
                                && secret@[j as int] == gc
                        } else {
                            find_unused(secret@, used@, gc, 0) == -1
                        }),
                    decreases 5 - j,
                {
                    if !used[j] {
                        if secret.get_char(j) == gc {
                            break ;
                        }
                    }
                    j = j + 1;
                }
                if j < 5 {
                    marks.set(i, Square::YELLOW);
                    used.set(j, true);
                }
            }
        }
        proof {
            assert(yellow_pass(guess@, secret@, marks@, used@, 5) == (marks@, used@));
        }
        Reply { lights: marks }
    }

    /// The feedback for `g` against this oracle's secret; wraps `compare`.
    pub fn guess(&self, g: &str) -> (r: Reply)
        requires
            g@.len() == 5,
        ensures
            r@ == compare_spec(g@, self@),
    {
        proof {
            use_type_invariant(self);
        }
        Self::compare(g, self.secret.as_str())
    }
}

} // verus!
