//! Per-position color feedback for one guess against one secret, and the
//! consistency check that decides whether a candidate word could be the
//! secret that produced a given feedback.
//!
//! The coloring follows the usual duplicate-letter-correct rule: every
//! occurrence of a letter in the secret satisfies at most one Green or
//! Yellow cell of the guess, and among the non-exact occurrences of a
//! letter in the guess the leftmost ones win.

use vstd::prelude::*;

use crate::words::all_words;
use crate::words::copy_word;
use crate::words::is_word;

verus! {

/// The three feedback colors, ordered for display grouping only.
#[derive(Clone, Copy, Debug, PartialEq, Eq, Structural, PartialOrd, Ord)]
pub enum Color {
    Gray,
    Yellow,
    Green,
}

/// How many of the first `n` characters of `s` equal `c`.
pub open spec fn count_upto(s: Seq<char>, c: char, n: int) -> nat
    decreases n,
{
    if n <= 0 {
        0
    } else {
        count_upto(s, c, n - 1) + if s[n - 1] == c {
            1nat
        } else {
            0nat
        }
    }
}

/// How many characters of `s` equal `c`.
pub open spec fn count_in(s: Seq<char>, c: char) -> nat {
    count_upto(s, c, s.len() as int)
}

/// Positions `j < n` where the guess has `c` but the secret letter at `j`
/// differs: occurrences of `c` in the guess that are not exact matches.
pub open spec fn miss_guess_upto(secret: Seq<char>, guess: Seq<char>, c: char, n: int) -> nat
    decreases n,
{
    if n <= 0 {
        0
    } else {
        miss_guess_upto(secret, guess, c, n - 1) + if guess[n - 1] == c && secret[n - 1] != c {
            1nat
        } else {
            0nat
        }
    }
}

/// Positions `j < n` where the secret has `c` but the guess letter at `j`
/// differs: occurrences of `c` in the secret that are not exact matches.
pub open spec fn miss_secret_upto(secret: Seq<char>, guess: Seq<char>, c: char, n: int) -> nat
    decreases n,
{
    if n <= 0 {
        0
    } else {
        miss_secret_upto(secret, guess, c, n - 1) + if guess[n - 1] != c && secret[n - 1] == c {
            1nat
        } else {
            0nat
        }
    }
}

/// Positions `j < n` where both words carry `c`: exact matches of `c`.
pub open spec fn match_upto(secret: Seq<char>, guess: Seq<char>, c: char, n: int) -> nat
    decreases n,
{
    if n <= 0 {
        0
    } else {
        match_upto(secret, guess, c, n - 1) + if guess[n - 1] == c && secret[n - 1] == c {
            1nat
        } else {
            0nat
        }
    }
}

/// The color the feedback gives to position `i` of the guess. An exact
/// match is Green. Otherwise the position is Yellow exactly when the
/// number of earlier non-exact occurrences of its letter in the guess is
/// still below the number of non-exact occurrences of that letter in the
/// secret, so that one unconsumed secret occurrence is left for it.
pub open spec fn color_at(secret: Seq<char>, guess: Seq<char>, i: int) -> Color {
    if guess[i] == secret[i] {
        Color::Green
    } else if miss_guess_upto(secret, guess, guess[i], i) < miss_secret_upto(
        secret,
        guess,
        guess[i],
        5,
    ) {
        Color::Yellow
    } else {
        Color::Gray
    }
}

/// The full five-cell color pattern for one guess against one secret.
pub open spec fn feedback_colors(secret: Seq<char>, guess: Seq<char>) -> Seq<Color> {
    Seq::new(5nat, |i: int| color_at(secret, guess, i))
}

/// Positions `j < n` of the guess that hold `c` and were colored Gray.
pub open spec fn gray_upto(gw: Seq<char>, data: Seq<Color>, c: char, n: int) -> nat
    decreases n,
{
    if n <= 0 {
        0
    } else {
        gray_upto(gw, data, c, n - 1) + if data[n - 1] == Color::Gray && gw[n - 1] == c {
            1nat
        } else {
            0nat
        }
    }
}

/// Positions `j < n` of the guess that hold `c` and were colored Green or
/// Yellow.
pub open spec fn hit_upto(gw: Seq<char>, data: Seq<Color>, c: char, n: int) -> nat
    decreases n,
{
    if n <= 0 {
        0
    } else {
        hit_upto(gw, data, c, n - 1) + if data[n - 1] != Color::Gray && gw[n - 1] == c {
            1nat
        } else {
            0nat
        }
    }
}

/// The constraint that cell `i` of a feedback puts on a candidate secret.
pub open spec fn pos_ok(gw: Seq<char>, data: Seq<Color>, cand: Seq<char>, i: int) -> bool {
    match data[i] {
        Color::Green => cand[i] == gw[i],
        Color::Yellow => {
            &&& cand[i] != gw[i]
            &&& count_in(cand, gw[i]) >= 1
            &&& count_in(gw, gw[i]) - gray_upto(gw, data, gw[i], 5) <= count_in(cand, gw[i])
        },
        Color::Gray => count_in(gw, gw[i]) - count_in(cand, gw[i]) == gray_upto(
            gw,
            data,
            gw[i],
            5,
        ),
    }
}

/// Whether `cand` could be the secret that produced the feedback made of
/// guess word `gw` and colors `data`.
pub open spec fn plausible_spec(gw: Seq<char>, data: Seq<Color>, cand: Seq<char>) -> bool {
    forall|i: int| 0 <= i < 5 ==> pos_ok(gw, data, cand, i)
}

/// The words of `ws` that are consistent with the feedback `(gw, data)`,
/// in their original order.
pub open spec fn filter_one(gw: Seq<char>, data: Seq<Color>, ws: Seq<Seq<char>>) -> Seq<Seq<char>>
    decreases ws.len(),
{
    if ws.len() == 0 {
        Seq::empty()
    } else {
        let rest = filter_one(gw, data, ws.drop_last());
        if plausible_spec(gw, data, ws.last()) {
            rest.push(ws.last())
        } else {
            rest
        }
    }
}

/// A guessed word together with the five colors it received.
#[derive(Clone, Debug)]
pub struct Guess {
    guess: Vec<char>,
    data: Vec<Color>,
}

impl Guess {
    /// The guessed word.
    pub closed spec fn word(self) -> Seq<char> {
        self.guess@
    }

    /// The color of each position.
    pub closed spec fn colors(self) -> Seq<Color> {
        self.data@
    }

    /// Both parts have the fixed word length.
    pub open spec fn wf(self) -> bool {
        is_word(self.word()) && self.colors().len() == 5
    }

    /// The guessed word, as stored.
    pub fn word_vec(&self) -> (r: &Vec<char>)
        ensures
            r@ == self.word(),
    {
        &self.guess
    }

    /// The received colors, as stored.
    pub fn colors_vec(&self) -> (r: &Vec<Color>)
        ensures
            r@ == self.colors(),
    {
        &self.data
    }

    /// A copy of this feedback.
    pub fn duplicate(&self) -> (r: Self)
        ensures
            r.word() == self.word(),
            r.colors() == self.colors(),
    {
        let mut data: Vec<Color> = Vec::new();
        let mut i: usize = 0;
        while i < self.data.len()
            invariant
                i <= self.data@.len(),
                data@.len() == i,
                forall|k: int| 0 <= k < i ==> data@[k] == self.data@[k],
            decreases self.data@.len() - i,
        {
            data.push(self.data[i]);
            i += 1;
        }
        proof {
            assert(data@ =~= self.data@);
        }
        Guess { guess: copy_word(&self.guess), data }
    }

    /// Colors `guess` against the secret `answer`, position by position.
    pub fn new(answer: &Vec<char>, guess: &Vec<char>) -> (r: Self)
        requires
            answer@.len() == 5,
            guess@.len() == 5,
        ensures
            r.wf(),
            r.word() == guess@,
            r.colors() == feedback_colors(answer@, guess@),
    {
        let mut data: Vec<Color> = Vec::new();
        let mut i: usize = 0;
        while i < 5
            invariant
                answer@.len() == 5,
                guess@.len() == 5,
                i <= 5,
                data@.len() == i,
                forall|k: int| 0 <= k < i ==> data@[k] == color_at(answer@, guess@, k),
            decreases 5 - i,
        {
            let c = guess[i];
            if c == answer[i] {
                data.push(Color::Green);
            } else {
                let gm = count_miss_guess(answer, guess, c, i);
                let sm = count_miss_secret(answer, guess, c, 5);
                if gm < sm {
                    data.push(Color::Yellow);
                } else {
                    data.push(Color::Gray);
                }
            }
            i += 1;
        }
        proof {
            assert(data@ =~= feedback_colors(answer@, guess@));
        }
        Guess { guess: copy_word(guess), data }
    }

    /// Whether `answer` could be the secret that produced this feedback.
    pub fn plausible(&self, answer: &Vec<char>) -> (r: bool)
        requires
            self.wf(),
            answer@.len() == 5,
        ensures
            r == plausible_spec(self.word(), self.colors(), answer@),
    {
        let mut i: usize = 0;
        while i < 5
            invariant
                self.wf(),
                answer@.len() == 5,
                i <= 5,
                forall|k: int| 0 <= k < i ==> pos_ok(self.word(), self.colors(), answer@, k),
            decreases 5 - i,
        {
            let c = self.guess[i];
            let d = self.data[i];
            match d {
                Color::Green => {
                    if answer[i] != c {
                        assert(!pos_ok(self.word(), self.colors(), answer@, i as int));
                        return false;
                    }
                },
                Color::Yellow => {
                    if answer[i] == c {
                        assert(!pos_ok(self.word(), self.colors(), answer@, i as int));
                        return false;
                    }
                    let ca = count_char(answer, c);
                    if ca == 0 {
                        assert(!pos_ok(self.word(), self.colors(), answer@, i as int));
                        return false;
                    }
                    let cg = count_char(&self.guess, c);
                    let gr = count_gray(&self.guess, &self.data, c);
                    proof {
                        lemma_gray_le_count(self.word(), self.colors(), c, 5);
                    }
                    if cg - gr > ca {
                        assert(!pos_ok(self.word(), self.colors(), answer@, i as int));
                        return false;
                    }
                },
                Color::Gray => {
                    let cg = count_char(&self.guess, c);
                    let ca = count_char(answer, c);
                    let gr = count_gray(&self.guess, &self.data, c);
                    if cg < ca {
                        assert(!pos_ok(self.word(), self.colors(), answer@, i as int));
                        return false;
                    }
                    if cg - ca != gr {
                        assert(!pos_ok(self.word(), self.colors(), answer@, i as int));
                        return false;
                    }
                },
            }
            assert(pos_ok(self.word(), self.colors(), answer@, i as int));
            i += 1;
        }
        true
    }

    /// Keeps the words of `words` that are consistent with this feedback.
    pub fn filter(&self, words: Vec<Vec<char>>) -> (r: Vec<Vec<char>>)
        requires
            self.wf(),
            all_words(words.deep_view()),
        ensures
            r.deep_view() == filter_one(self.word(), self.colors(), words.deep_view()),
            all_words(r.deep_view()),
    {
        let ghost all = words.deep_view();
        let mut r: Vec<Vec<char>> = Vec::new();
        let mut i: usize = 0;
        while i < words.len()
            invariant
                self.wf(),
                all_words(all),
                all == words.deep_view(),
                all.len() == words@.len(),
                i <= words@.len(),
                r.deep_view() == filter_one(self.word(), self.colors(), all.take(i as int)),
            decreases words@.len() - i,
        {
            let ghost prev = r.deep_view();
            assert(all[i as int] == words@[i as int]@);
            if self.plausible(&words[i]) {
                r.push(copy_word(&words[i]));
                proof {
                    assert(r.deep_view() =~= prev.push(all[i as int]));
                }
            }
            proof {
                assert(all.take(i + 1).drop_last() =~= all.take(i as int));
                assert(all.take(i + 1).last() == all[i as int]);
            }
            i += 1;
        }
        proof {
            assert(all.take(words@.len() as int) =~= all);
            lemma_filter_one_subset(self.word(), self.colors(), all);
            assert forall|k: int| 0 <= k < r.deep_view().len() implies is_word(
                #[trigger] r.deep_view()[k],
            ) by {
                let w = r.deep_view()[k];
                let j = choose|j: int| 0 <= j < all.len() && all[j] == w;
            };
        }
        r
    }
}

/// How many characters of `w` equal `c`.
pub fn count_char(w: &Vec<char>, c: char) -> (r: usize)
    ensures
        r == count_in(w@, c),
{
    let mut r: usize = 0;
    let mut i: usize = 0;
    while i < w.len()
        invariant
            i <= w@.len(),
            r <= i,
            r == count_upto(w@, c, i as int),
        decreases w@.len() - i,
    {
        if w[i] == c {
            r += 1;
        }
        i += 1;
    }
    r
}

/// Counts the non-exact occurrences of `c` among the first `n` guess
/// positions.
fn count_miss_guess(secret: &Vec<char>, guess: &Vec<char>, c: char, n: usize) -> (r: usize)
    requires
        secret@.len() == 5,
        guess@.len() == 5,
        n <= 5,
    ensures
        r == miss_guess_upto(secret@, guess@, c, n as int),
{
    let mut r: usize = 0;
    let mut i: usize = 0;
    while i < n
        invariant
            secret@.len() == 5,
            guess@.len() == 5,
            n <= 5,
            i <= n,
            r <= i,
            r == miss_guess_upto(secret@, guess@, c, i as int),
        decreases n - i,
    {
        if guess[i] == c && secret[i] != c {
            r += 1;
        }
        i += 1;
    }
    r
}

/// Counts the non-exact occurrences of `c` among the first `n` secret
/// positions.
fn count_miss_secret(secret: &Vec<char>, guess: &Vec<char>, c: char, n: usize) -> (r: usize)
    requires
        secret@.len() == 5,
        guess@.len() == 5,
        n <= 5,
    ensures
        r == miss_secret_upto(secret@, guess@, c, n as int),
{
    let mut r: usize = 0;
    let mut i: usize = 0;
    while i < n
        invariant
            secret@.len() == 5,
            guess@.len() == 5,
            n <= 5,
            i <= n,
            r <= i,
            r == miss_secret_upto(secret@, guess@, c, i as int),
        decreases n - i,
    {
        if guess[i] != c && secret[i] == c {
            r += 1;
        }
        i += 1;
    }
    r
}

/// Counts the Gray positions of a feedback whose guess letter is `c`.
fn count_gray(gw: &Vec<char>, data: &Vec<Color>, c: char) -> (r: usize)
    requires
        gw@.len() == 5,
        data@.len() == 5,
    ensures
        r == gray_upto(gw@, data@, c, 5),
{
    let mut r: usize = 0;
    let mut i: usize = 0;
    while i < 5
        invariant
            gw@.len() == 5,
            data@.len() == 5,
            i <= 5,
            r <= i,
            r == gray_upto(gw@, data@, c, i as int),
        decreases 5 - i,
    {
        let d = data[i];
        if d == Color::Gray && gw[i] == c {
            r += 1;
        }
        i += 1;
    }
    r
}

/// Gray cells of a letter are at most the letter's occurrences.
proof fn lemma_gray_le_count(gw: Seq<char>, data: Seq<Color>, c: char, n: int)
    ensures
        gray_upto(gw, data, c, n) <= count_upto(gw, c, n),
    decreases n,
{
    if n > 0 {
        lemma_gray_le_count(gw, data, c, n - 1);
    }
}

/// Gray and non-Gray cells of a letter add up to its occurrences.
proof fn lemma_gray_hit_split(gw: Seq<char>, data: Seq<Color>, c: char, n: int)
    ensures
        gray_upto(gw, data, c, n) + hit_upto(gw, data, c, n) == count_upto(gw, c, n),
    decreases n,
{
    if n > 0 {
        lemma_gray_hit_split(gw, data, c, n - 1);
    }
}

/// Occurrences of a letter split into exact matches and misses, on either
/// side of the comparison.
proof fn lemma_count_split(secret: Seq<char>, guess: Seq<char>, c: char, n: int)
    ensures
        count_upto(guess, c, n) == match_upto(secret, guess, c, n) + miss_guess_upto(
            secret,
            guess,
            c,
            n,
        ),
        count_upto(secret, c, n) == match_upto(secret, guess, c, n) + miss_secret_upto(
            secret,
            guess,
            c,
            n,
        ),
    decreases n,
{
    if n > 0 {
        lemma_count_split(secret, guess, c, n - 1);
    }
}

/// Earlier prefixes never count more misses.
proof fn lemma_miss_guess_mono(secret: Seq<char>, guess: Seq<char>, c: char, n: int, m: int)
    requires
        n <= m,
    ensures
        miss_guess_upto(secret, guess, c, n) <= miss_guess_upto(secret, guess, c, m),
    decreases m,
{
    if n < m && m > 0 {
        lemma_miss_guess_mono(secret, guess, c, n, m - 1);
    }
}

/// The Green and Yellow cells a letter receives are its exact matches plus
/// as many misplaced occurrences as the secret's unmatched occurrences can
/// satisfy, and never more.
proof fn lemma_hit_count(secret: Seq<char>, guess: Seq<char>, c: char, n: int)
    requires
        is_word(secret),
        is_word(guess),
        0 <= n <= 5,
    ensures
        hit_upto(guess, feedback_colors(secret, guess), c, n) == match_upto(secret, guess, c, n)
            + vstd::math::min(
            miss_guess_upto(secret, guess, c, n) as int,
            miss_secret_upto(secret, guess, c, 5) as int,
        ),
    decreases n,
{
    if n > 0 {
        lemma_hit_count(secret, guess, c, n - 1);
        let fb = feedback_colors(secret, guess);
        assert(fb[n - 1] == color_at(secret, guess, n - 1));
        if guess[n - 1] == c && secret[n - 1] != c {
            assert(color_at(secret, guess, n - 1) != Color::Green);
        }
    }
}

/// Soundness of the feedback and consistency coupling: the secret that
/// produced a feedback is always consistent with it, for every guess.
pub proof fn lemma_feedback_sound(secret: Seq<char>, guess: Seq<char>)
    requires
        is_word(secret),
        is_word(guess),
    ensures
        plausible_spec(guess, feedback_colors(secret, guess), secret),
{
    let fb = feedback_colors(secret, guess);
    assert forall|i: int| 0 <= i < 5 implies pos_ok(guess, fb, secret, i) by {
        let c = guess[i];
        lemma_hit_count(secret, guess, c, 5);
        lemma_gray_hit_split(guess, fb, c, 5);
        lemma_count_split(secret, guess, c, 5);
        assert(fb[i] == color_at(secret, guess, i));
        let mg5 = miss_guess_upto(secret, guess, c, 5);
        let ms5 = miss_secret_upto(secret, guess, c, 5);
        if guess[i] == secret[i] {
            assert(pos_ok(guess, fb, secret, i));
        } else if miss_guess_upto(secret, guess, c, i) < ms5 {
            assert(fb[i] == Color::Yellow);
            assert(count_in(secret, c) >= 1);
            assert(pos_ok(guess, fb, secret, i));
        } else {
            assert(fb[i] == Color::Gray);
            assert(miss_guess_upto(secret, guess, c, i + 1) == miss_guess_upto(
                secret,
                guess,
                c,
                i,
            ) + 1);
            lemma_miss_guess_mono(secret, guess, c, i + 1, 5);
            assert(mg5 > ms5);
            assert(gray_upto(guess, fb, c, 5) == count_in(guess, c) - count_in(secret, c));
            assert(pos_ok(guess, fb, secret, i));
        }
    };
}

/// Guessing the secret itself yields an all-Green feedback.
pub proof fn lemma_identity_feedback(s: Seq<char>)
    requires
        is_word(s),
    ensures
        forall|i: int| 0 <= i < 5 ==> feedback_colors(s, s)[i] == Color::Green,
{
}

/// Letter-count invariant of a feedback: for any letter, the Green and
/// Yellow cells never exceed the secret's occurrences, the Gray cells are
/// exactly the guess's remaining occurrences, and the Green and Yellow
/// cells are exactly what the secret's occurrences can satisfy.
pub proof fn lemma_letter_counts(secret: Seq<char>, guess: Seq<char>, c: char)
    requires
        is_word(secret),
        is_word(guess),
    ensures
        hit_upto(guess, feedback_colors(secret, guess), c, 5) <= count_in(secret, c),
        gray_upto(guess, feedback_colors(secret, guess), c, 5) == count_in(guess, c) - hit_upto(
            guess,
            feedback_colors(secret, guess),
            c,
            5,
        ),
        hit_upto(guess, feedback_colors(secret, guess), c, 5) == match_upto(secret, guess, c, 5)
            + vstd::math::min(
            miss_guess_upto(secret, guess, c, 5) as int,
            miss_secret_upto(secret, guess, c, 5) as int,
        ),
{
    lemma_hit_count(secret, guess, c, 5);
    lemma_gray_hit_split(guess, feedback_colors(secret, guess), c, 5);
    lemma_count_split(secret, guess, c, 5);
}

/// A word list that holds a board's secret still holds it after
/// narrowing by feedback that the secret itself produced: candidate
/// lists never lose the true secret.
pub proof fn lemma_filter_keeps_secret(secret: Seq<char>, guess: Seq<char>, ws: Seq<Seq<char>>)
    requires
        is_word(secret),
        is_word(guess),
        ws.contains(secret),
    ensures
        filter_one(guess, feedback_colors(secret, guess), ws).contains(secret),
    decreases ws.len(),
{
    lemma_feedback_sound(secret, guess);
    let fb = feedback_colors(secret, guess);
    let r = filter_one(guess, fb, ws);
    if ws.last() == secret {
        assert(r[r.len() - 1] == secret);
    } else {
        let j = choose|j: int| 0 <= j < ws.len() && ws[j] == secret;
        assert(ws.drop_last()[j] == secret);
        lemma_filter_keeps_secret(secret, guess, ws.drop_last());
        let rest = filter_one(guess, fb, ws.drop_last());
        let k = choose|k: int| 0 <= k < rest.len() && rest[k] == secret;
        assert(r[k] == secret);
    }
}

/// Filtering never grows a word list.
pub proof fn lemma_filter_one_narrows(gw: Seq<char>, data: Seq<Color>, ws: Seq<Seq<char>>)
    ensures
        filter_one(gw, data, ws).len() <= ws.len(),
    decreases ws.len(),
{
    if ws.len() > 0 {
        lemma_filter_one_narrows(gw, data, ws.drop_last());
    }
}

/// Every word a filter keeps comes from the input list.
pub proof fn lemma_filter_one_subset(gw: Seq<char>, data: Seq<Color>, ws: Seq<Seq<char>>)
    ensures
        forall|k: int| 0 <= k < filter_one(gw, data, ws).len() ==> ws.contains(
            #[trigger] filter_one(gw, data, ws)[k],
        ),
    decreases ws.len(),
{
    if ws.len() > 0 {
        lemma_filter_one_subset(gw, data, ws.drop_last());
        assert forall|k: int| 0 <= k < filter_one(gw, data, ws).len() implies ws.contains(
            #[trigger] filter_one(gw, data, ws)[k],
        ) by {
            let r = filter_one(gw, data, ws);
            let rest = filter_one(gw, data, ws.drop_last());
            if k < rest.len() {
                let j = choose|j: int| 0 <= j < ws.drop_last().len() && ws.drop_last()[j] == rest[k];
                assert(ws[j] == rest[k]);
            } else {
                assert(ws[ws.len() - 1] == r[k]);
            }
        };
    }
}

} // verus!
