//! One board: a secret word together with the ordered history of feedback
//! it has produced for the guesses made so far.

use vstd::prelude::*;

use crate::feedback::feedback_colors;
use crate::feedback::filter_one;
use crate::feedback::lemma_filter_one_narrows;
use crate::feedback::Guess;
use crate::words::all_words;
use crate::words::is_word;
use crate::words::words_equal;

verus! {

/// The words of `ws` consistent with every feedback of `history`, each
/// feedback applied in the order it was recorded.
pub open spec fn filter_all(history: Seq<Guess>, ws: Seq<Seq<char>>) -> Seq<Seq<char>>
    decreases history.len(),
{
    if history.len() == 0 {
        ws
    } else {
        filter_one(
            history.last().word(),
            history.last().colors(),
            filter_all(history.drop_last(), ws),
        )
    }
}

/// Applying a history never grows a word list.
pub proof fn lemma_filter_all_narrows(history: Seq<Guess>, ws: Seq<Seq<char>>)
    ensures
        filter_all(history, ws).len() <= ws.len(),
    decreases history.len(),
{
    if history.len() > 0 {
        lemma_filter_all_narrows(history.drop_last(), ws);
        lemma_filter_one_narrows(
            history.last().word(),
            history.last().colors(),
            filter_all(history.drop_last(), ws),
        );
    }
}

/// A single game: one secret and its recorded feedback history.
#[derive(Debug)]
pub struct Wordle {
    answer: Vec<char>,
    guess: Vec<Guess>,
}

impl Wordle {
    /// The secret word.
    pub closed spec fn secret(self) -> Seq<char> {
        self.answer@
    }

    /// The recorded feedback entries, oldest first.
    pub closed spec fn history(self) -> Seq<Guess> {
        self.guess@
    }

    /// The words guessed so far, oldest first.
    pub open spec fn history_words(self) -> Seq<Seq<char>> {
        Seq::new(self.history().len(), |k: int| self.history()[k].word())
    }

    /// The secret has the fixed word length and every recorded feedback
    /// was derived from this board's secret.
    pub open spec fn wf(self) -> bool {
        &&& is_word(self.secret())
        &&& forall|k: int|
            0 <= k < self.history().len() ==> (#[trigger] self.history()[k]).wf()
                && self.history()[k].colors() == feedback_colors(
                self.secret(),
                self.history()[k].word(),
            )
    }

    /// A fresh board with an empty history.
    pub fn new(answer: Vec<char>) -> (r: Self)
        requires
            answer@.len() == 5,
        ensures
            r.wf(),
            r.secret() == answer@,
            r.history().len() == 0,
    {
        Wordle { answer, guess: Vec::new() }
    }

    /// The secret word, as stored.
    pub(crate) fn answer_vec(&self) -> (r: &Vec<char>)
        ensures
            r@ == self.secret(),
    {
        &self.answer
    }

    /// The recorded feedback entries, as stored.
    pub(crate) fn history_vec(&self) -> (r: &Vec<Guess>)
        ensures
            r@ == self.history(),
    {
        &self.guess
    }

    /// Records `guess` on this board: computes its feedback against the
    /// secret, appends it to the history, and returns it.
    pub fn guess(&mut self, guess: &Vec<char>) -> (r: Guess)
        requires
            old(self).wf(),
            guess@.len() == 5,
        ensures
            final(self).wf(),
            final(self).secret() == old(self).secret(),
            final(self).history().len() == old(self).history().len() + 1,
            forall|k: int|
                0 <= k < old(self).history().len() ==> final(self).history()[k] == old(
                    self,
                ).history()[k],
            final(self).history().last().word() == guess@,
            final(self).history().last().colors() == feedback_colors(old(self).secret(), guess@),
            r.wf(),
            r.word() == guess@,
            r.colors() == feedback_colors(old(self).secret(), guess@),
    {
        let fb = Guess::new(&self.answer, guess);
        let out = fb.duplicate();
        self.guess.push(fb);
        out
    }

    /// Empties the history, keeping the secret.
    pub fn clear(&mut self)
        requires
            old(self).wf(),
        ensures
            final(self).wf(),
            final(self).secret() == old(self).secret(),
            final(self).history().len() == 0,
    {
        self.guess.clear();
    }

    /// Whether some recorded guess was exactly the secret.
    pub fn solved(&self) -> (r: bool)
        requires
            self.wf(),
        ensures
            r == exists|k: int|
                0 <= k < self.history().len() && (#[trigger] self.history()[k]).word()
                    == self.secret(),
    {
        let mut i: usize = 0;
        while i < self.guess.len()
            invariant
                self.wf(),
                i <= self.history().len(),
                forall|k: int| 0 <= k < i ==> (#[trigger] self.history()[k]).word() != self.secret(),
            decreases self.history().len() - i,
        {
            let g = &self.guess[i];
            if words_equal(g.word_vec(), &self.answer) {
                return true;
            }
            i += 1;
        }
        false
    }

    /// Narrows `words` by every recorded feedback, in guess order.
    pub fn filter(&self, words: Vec<Vec<char>>) -> (r: Vec<Vec<char>>)
        requires
            self.wf(),
            all_words(words.deep_view()),
        ensures
            r.deep_view() == filter_all(self.history(), words.deep_view()),
            all_words(r.deep_view()),
    {
        let ghost all = words.deep_view();
        let mut cur = words;
        let mut i: usize = 0;
        while i < self.guess.len()
            invariant
                self.wf(),
                all_words(all),
                i <= self.history().len(),
                all_words(cur.deep_view()),
                cur.deep_view() == filter_all(self.history().take(i as int), all),
            decreases self.history().len() - i,
        {
            let g = &self.guess[i];
            cur = g.filter(cur);
            proof {
                let h = self.history();
                assert(h.take(i + 1).drop_last() =~= h.take(i as int));
                assert(h.take(i + 1).last() == h[i as int]);
            }
            i += 1;
        }
        proof {
            assert(self.history().take(self.history().len() as int) =~= self.history());
        }
        cur
    }

    /// Narrows `words` by the most recent feedback only, if any.
    pub fn filter_last(&self, words: Vec<Vec<char>>) -> (r: Vec<Vec<char>>)
        requires
            self.wf(),
            all_words(words.deep_view()),
        ensures
            r.deep_view() == (if self.history().len() == 0 {
                words.deep_view()
            } else {
                filter_one(
                    self.history().last().word(),
                    self.history().last().colors(),
                    words.deep_view(),
                )
            }),
            all_words(r.deep_view()),
    {
        if self.guess.len() == 0 {
            words
        } else {
            let g = &self.guess[self.guess.len() - 1];
            proof {
                assert(self.history()[self.history().len() - 1].wf());
            }
            g.filter(words)
        }
    }
}

} // verus!
