//! A session of thirty-two boards sharing one guess sequence, each with
//! its own shrinking candidate list and solved flag, together with the
//! greedy solvability heuristic that only proceeds while some unsolved
//! board has been narrowed to a single candidate.

use vstd::prelude::*;
use vstd::pervasive::VecAdditionalExecFns;

use rand::seq::SliceRandom;

use crate::board::Wordle;
use crate::feedback::feedback_colors;
use crate::feedback::filter_one;
use crate::feedback::Guess;
use crate::words::all_words;
use crate::words::copy_word;
use crate::words::copy_words;
use crate::words::distinct_words;
use crate::words::is_word;
use crate::words::words_equal;

verus! {

/// Relies on rand's `SliceRandom::choose_multiple`: it draws
/// `min(amount, len)` elements of the slice at pairwise distinct
/// positions, in an order that depends on the random source. Only what
/// holds of every outcome is stated: the length of the draw and that it
/// takes no element more often than the slice holds it.
#[verifier::external_body]
fn sample_words(words: &Vec<Vec<char>>, amount: usize) -> (r: Vec<Vec<char>>)
    ensures
        r@.len() == (if amount <= words@.len() {
            amount as int
        } else {
            words@.len() as int
        }),
        r.deep_view().to_multiset().subset_of(words.deep_view().to_multiset()),
{
    let mut rng = rand::thread_rng();
    words.choose_multiple(&mut rng, amount).cloned().collect()
}

/// A draw without repetition from a duplicate-free dictionary has
/// pairwise distinct words, all of them dictionary entries.
proof fn lemma_sampled(sampled: Seq<Seq<char>>, dict: Seq<Seq<char>>)
    requires
        sampled.to_multiset().subset_of(dict.to_multiset()),
        distinct_words(dict),
    ensures
        distinct_words(sampled),
        forall|i: int| 0 <= i < sampled.len() ==> dict.contains(#[trigger] sampled[i]),
{
    broadcast use vstd::seq_lib::group_to_multiset_ensures;

    assert(dict.no_duplicates());
    dict.lemma_multiset_has_no_duplicates();
    assert forall|x: Seq<char>|
        sampled.to_multiset().contains(x) implies sampled.to_multiset().count(x) == 1 by {
        assert(sampled.to_multiset().count(x) <= dict.to_multiset().count(x));
        assert(dict.to_multiset().contains(x));
    };
    sampled.lemma_multiset_has_no_duplicates_conv();
    assert forall|i: int| 0 <= i < sampled.len() implies dict.contains(#[trigger] sampled[i]) by {
        assert(sampled.contains(sampled[i]));
        assert(sampled.to_multiset().count(sampled[i]) > 0);
        assert(dict.to_multiset().count(sampled[i]) > 0);
    };
}

/// The entries of `ws` other than `x`, in their original order.
pub open spec fn exclude(ws: Seq<Seq<char>>, x: Seq<char>) -> Seq<Seq<char>>
    decreases ws.len(),
{
    if ws.len() == 0 {
        Seq::empty()
    } else {
        let rest = exclude(ws.drop_last(), x);
        if ws.last() == x {
            rest
        } else {
            rest.push(ws.last())
        }
    }
}

/// What exclusion keeps: dictionary entries other than `x`, still
/// pairwise distinct when the dictionary is.
proof fn lemma_exclude(ws: Seq<Seq<char>>, x: Seq<char>)
    requires
        distinct_words(ws),
    ensures
        forall|k: int| 0 <= k < exclude(ws, x).len() ==> ws.contains(#[trigger] exclude(ws, x)[k]),
        forall|k: int| 0 <= k < exclude(ws, x).len() ==> (#[trigger] exclude(ws, x)[k]) != x,
        distinct_words(exclude(ws, x)),
    decreases ws.len(),
{
    if ws.len() > 0 {
        let prev = ws.drop_last();
        assert(distinct_words(prev));
        lemma_exclude(prev, x);
        let rest = exclude(prev, x);
        let r = exclude(ws, x);
        assert forall|k: int| 0 <= k < r.len() implies ws.contains(#[trigger] r[k]) && r[k]
            != x by {
            if k < rest.len() {
                let j = choose|j: int| 0 <= j < prev.len() && prev[j] == rest[k];
                assert(ws[j] == rest[k]);
            } else {
                assert(r[k] == ws[ws.len() - 1]);
            }
        };
        assert forall|a: int, b: int| 0 <= a < b < r.len() implies r[a] != r[b] by {
            if b < rest.len() {
            } else if ws.last() != x {
                let j = choose|j: int| 0 <= j < prev.len() && prev[j] == rest[a];
                assert(ws[j] == rest[a]);
                assert(ws[j] != ws[ws.len() - 1]);
            }
        };
    }
}

/// Removes every occurrence of `x` from the word list.
fn remove_word(words: &Vec<Vec<char>>, x: &Vec<char>) -> (r: Vec<Vec<char>>)
    ensures
        r.deep_view() == exclude(words.deep_view(), x@),
{
    let ghost all = words.deep_view();
    let mut r: Vec<Vec<char>> = Vec::new();
    let mut i: usize = 0;
    while i < words.len()
        invariant
            i <= words@.len(),
            all == words.deep_view(),
            all.len() == words@.len(),
            r.deep_view() == exclude(all.take(i as int), x@),
        decreases words@.len() - i,
    {
        let ghost prev = r.deep_view();
        assert(all[i as int] == words@[i as int]@);
        if !words_equal(&words[i], x) {
            r.push(copy_word(&words[i]));
            proof {
                assert(r.deep_view() =~= prev.push(all[i as int]));
            }
        }
        proof {
            assert(all.take(i + 1).drop_last() =~= all.take(i as int));
            assert(all.take(i + 1).last() == all[i as int]);
        }
        i += 1;
    }
    proof {
        assert(all.take(words@.len() as int) =~= all);
    }
    r
}

/// The solved flags after guessing `g`: a board whose secret is `g`
/// becomes solved, every other board keeps its flag.
pub open spec fn step_solved(secrets: Seq<Seq<char>>, flags: Seq<bool>, g: Seq<char>) -> Seq<bool> {
    Seq::new(flags.len(), |i: int| flags[i] || secrets[i] == g)
}

/// The candidate lists after guessing `g`: a board whose secret is `g`,
/// or that was still unsolved, narrows its list by its own feedback for
/// `g`; a board already solved keeps its list frozen.
pub open spec fn step_lists(
    secrets: Seq<Seq<char>>,
    lists: Seq<Seq<Seq<char>>>,
    flags: Seq<bool>,
    g: Seq<char>,
) -> Seq<Seq<Seq<char>>> {
    Seq::new(
        lists.len(),
        |i: int|
            if secrets[i] == g || !flags[i] {
                filter_one(g, feedback_colors(secrets[i], g), lists[i])
            } else {
                lists[i]
            },
    )
}

/// How many of the first `n` flags are still unset.
pub open spec fn count_unsolved(flags: Seq<bool>, n: int) -> nat
    decreases n,
{
    if n <= 0 {
        0
    } else {
        count_unsolved(flags, n - 1) + if !flags[n - 1] {
            1nat
        } else {
            0nat
        }
    }
}

/// Candidate lists only shrink: after a session records one more guess,
/// no board's candidate list is longer than it was before. Together with
/// `reset`, which restores every list to the full dictionary, this is
/// the narrowing behaviour of the candidate sets.
pub proof fn lemma_step_narrows(
    secrets: Seq<Seq<char>>,
    lists: Seq<Seq<Seq<char>>>,
    flags: Seq<bool>,
    g: Seq<char>,
    i: int,
)
    requires
        0 <= i < lists.len(),
    ensures
        step_lists(secrets, lists, flags, g)[i].len() <= lists[i].len(),
{
    if secrets[i] == g || !flags[i] {
        crate::feedback::lemma_filter_one_narrows(g, feedback_colors(secrets[i], g), lists[i]);
    }
}

/// A board's candidate list never loses the board's own secret: if the
/// list holds the secret before a session step, it still holds it after,
/// whatever word was guessed.
pub proof fn lemma_step_keeps_secret(
    secrets: Seq<Seq<char>>,
    lists: Seq<Seq<Seq<char>>>,
    flags: Seq<bool>,
    g: Seq<char>,
    i: int,
)
    requires
        0 <= i < lists.len(),
        is_word(secrets[i]),
        is_word(g),
        lists[i].contains(secrets[i]),
    ensures
        step_lists(secrets, lists, flags, g)[i].contains(secrets[i]),
{
    if secrets[i] == g || !flags[i] {
        crate::feedback::lemma_filter_keeps_secret(secrets[i], g, lists[i]);
    }
}

/// A set flag never becomes unset again, so the unsolved count never
/// grows.
proof fn lemma_count_unsolved_mono(a: Seq<bool>, b: Seq<bool>, n: int)
    requires
        forall|i: int| 0 <= i < n ==> (#[trigger] a[i] ==> b[i]),
    ensures
        count_unsolved(b, n) <= count_unsolved(a, n),
    decreases n,
{
    if n > 0 {
        lemma_count_unsolved_mono(a, b, n - 1);
    }
}

/// Newly setting one flag strictly lowers the unsolved count.
proof fn lemma_count_unsolved_strict(a: Seq<bool>, b: Seq<bool>, k: int, n: int)
    requires
        forall|i: int| 0 <= i < n ==> (#[trigger] a[i] ==> b[i]),
        0 <= k < n,
        !a[k],
        b[k],
    ensures
        count_unsolved(b, n) < count_unsolved(a, n),
    decreases n,
{
    if k == n - 1 {
        lemma_count_unsolved_mono(a, b, n - 1);
    } else {
        lemma_count_unsolved_strict(a, b, k, n - 1);
    }
}

/// The greedy policy may continue exactly when the smallest candidate
/// list over the unsolved boards has size one: some unsolved board has a
/// single candidate left, and none has run empty.
pub open spec fn can_continue(lists: Seq<Seq<Seq<char>>>, flags: Seq<bool>) -> bool {
    &&& exists|i: int| 0 <= i < 32 && !flags[i] && (#[trigger] lists[i]).len() == 1
    &&& forall|i: int| 0 <= i < 32 && !flags[i] ==> (#[trigger] lists[i]).len() >= 1
}

/// The first board at or after `i` that is unsolved and narrowed to a
/// single candidate, or 32 if there is none.
pub open spec fn first_unit(lists: Seq<Seq<Seq<char>>>, flags: Seq<bool>, i: int) -> int
    decreases 32 - i,
{
    if i >= 32 {
        32
    } else if !flags[i] && lists[i].len() == 1 {
        i
    } else {
        first_unit(lists, flags, i + 1)
    }
}

/// `first_unit` picks the least index with the unit property.
proof fn lemma_first_unit_char(lists: Seq<Seq<Seq<char>>>, flags: Seq<bool>, i: int, j: int)
    requires
        0 <= i <= j < 32,
        !flags[j],
        lists[j].len() == 1,
        forall|k: int| i <= k < j ==> !(!flags[k] && (#[trigger] lists[k]).len() == 1),
    ensures
        first_unit(lists, flags, i) == j,
    decreases j - i,
{
    if i < j {
        lemma_first_unit_char(lists, flags, i + 1, j);
    }
}

/// Whether the greedy run succeeds from the given session state when the
/// next guess is `g`. The run stops successfully once at most one board
/// is unsolved; otherwise it applies the guess as one session step, fails
/// unless the smallest unsolved candidate list now has size exactly one,
/// and continues by guessing the secret of the first such board. The
/// guessed word is always the secret of some still unsolved board.
pub open spec fn greedy_from(
    secrets: Seq<Seq<char>>,
    lists: Seq<Seq<Seq<char>>>,
    flags: Seq<bool>,
    g: Seq<char>,
) -> bool
    decreases count_unsolved(flags, 32),
        when flags.len() == 32
    via greedy_from_decreases
{
    if count_unsolved(flags, 32) <= 1 {
        true
    } else if !(exists|k: int| 0 <= k < 32 && !flags[k] && (#[trigger] secrets[k]) == g) {
        false
    } else {
        let flags2 = step_solved(secrets, flags, g);
        let lists2 = step_lists(secrets, lists, flags, g);
        if !can_continue(lists2, flags2) {
            false
        } else {
            greedy_from(secrets, lists2, flags2, secrets[first_unit(lists2, flags2, 0)])
        }
    }
}

#[via_fn]
proof fn greedy_from_decreases(
    secrets: Seq<Seq<char>>,
    lists: Seq<Seq<Seq<char>>>,
    flags: Seq<bool>,
    g: Seq<char>,
) {
    if flags.len() == 32 && count_unsolved(flags, 32) > 1 && (exists|k: int|
        0 <= k < 32 && !flags[k] && (#[trigger] secrets[k]) == g) {
        let k = choose|k: int| 0 <= k < 32 && !flags[k] && (#[trigger] secrets[k]) == g;
        lemma_count_unsolved_strict(flags, step_solved(secrets, flags, g), k, 32);
    }
}

/// Thirty-two copies of the dictionary: the candidate lists of a freshly
/// constructed or freshly reset session.
pub open spec fn init_lists(dict: Seq<Seq<char>>) -> Seq<Seq<Seq<char>>> {
    Seq::new(32nat, |i: int| dict)
}

/// Thirty-two cleared flags.
pub open spec fn all_unsolved() -> Seq<bool> {
    Seq::new(32nat, |i: int| false)
}

/// Whether the greedy run succeeds on a freshly reset session when the
/// opening guess is board `index`'s secret.
pub open spec fn greedy_spec(secrets: Seq<Seq<char>>, dict: Seq<Seq<char>>, index: int) -> bool {
    greedy_from(secrets, init_lists(dict), all_unsolved(), secrets[index])
}

/// The secrets of the boards from which the greedy run succeeds, in
/// board order over the first `n` boards.
pub open spec fn solveable_list(secrets: Seq<Seq<char>>, dict: Seq<Seq<char>>, n: int) -> Seq<
    Seq<char>,
>
    decreases n,
{
    if n <= 0 {
        Seq::empty()
    } else {
        let rest = solveable_list(secrets, dict, n - 1);
        if greedy_spec(secrets, dict, n - 1) {
            rest.push(secrets[n - 1])
        } else {
            rest
        }
    }
}

/// How many entries of the flag vector are unset.
fn count_false(v: &Vec<bool>) -> (r: usize)
    requires
        v@.len() == 32,
    ensures
        r == count_unsolved(v@, 32),
{
    let mut r: usize = 0;
    let mut i: usize = 0;
    while i < 32
        invariant
            v@.len() == 32,
            i <= 32,
            r <= i,
            r == count_unsolved(v@, i as int),
        decreases 32 - i,
    {
        if !v[i] {
            r += 1;
        }
        i += 1;
    }
    r
}

/// A session over thirty-two simultaneous boards.
#[derive(Debug)]
pub struct Duotrigordle {
    wordles: Vec<Wordle>,
    words: Vec<Vec<char>>,
    lists: Vec<Vec<Vec<char>>>,
    solved: Vec<bool>,
}

impl Duotrigordle {
    /// The thirty-two boards.
    pub closed spec fn boards(self) -> Seq<Wordle> {
        self.wordles@
    }

    /// The dictionary snapshot taken at construction.
    pub closed spec fn dict(self) -> Seq<Seq<char>> {
        self.words.deep_view()
    }

    /// The per-board candidate lists.
    pub closed spec fn cand_lists(self) -> Seq<Seq<Seq<char>>> {
        self.lists.deep_view()
    }

    /// The per-board solved flags.
    pub closed spec fn flags(self) -> Seq<bool> {
        self.solved@
    }

    /// The per-board secrets.
    pub open spec fn secrets(self) -> Seq<Seq<char>> {
        Seq::new(self.boards().len() as nat, |i: int| self.boards()[i].secret())
    }

    /// Thirty-two well-formed boards with pairwise distinct secrets, a
    /// duplicate-free dictionary of words, and one candidate list and one
    /// flag per board.
    pub open spec fn wf(self) -> bool {
        &&& self.boards().len() == 32
        &&& self.cand_lists().len() == 32
        &&& self.flags().len() == 32
        &&& forall|i: int| 0 <= i < 32 ==> (#[trigger] self.boards()[i]).wf()
        &&& all_words(self.dict())
        &&& distinct_words(self.dict())
        &&& distinct_words(self.secrets())
        &&& forall|i: int| 0 <= i < 32 ==> all_words(#[trigger] self.cand_lists()[i])
    }

    /// A session whose thirty-two secrets are drawn from `words` without
    /// repetition. The dictionary must hold at least thirty-two pairwise
    /// distinct words.
    pub fn new(words: Vec<Vec<char>>) -> (r: Self)
        requires
            words@.len() >= 32,
            all_words(words.deep_view()),
            distinct_words(words.deep_view()),
        ensures
            r.wf(),
            r.dict() == words.deep_view(),
            forall|i: int| 0 <= i < 32 ==> #[trigger] r.cand_lists()[i] == r.dict(),
            forall|i: int| 0 <= i < 32 ==> #[trigger] r.flags()[i] == false,
            forall|i: int| 0 <= i < 32 ==> (#[trigger] r.boards()[i]).history().len() == 0,
            forall|i: int| 0 <= i < 32 ==> r.dict().contains(#[trigger] r.secrets()[i]),
    {
        let sampled = sample_words(&words, 32);
        proof {
            lemma_sampled(sampled.deep_view(), words.deep_view());
            assert forall|k: int| 0 <= k < 32 implies is_word(#[trigger] sampled.deep_view()[k]) by {
                let j = choose|j: int|
                    0 <= j < words.deep_view().len() && words.deep_view()[j]
                        == sampled.deep_view()[k];
            };
        }
        let wordles = boards_of(&sampled);
        let lists = lists_of(&words);
        let solved = fresh_flags();
        let r = Duotrigordle { wordles, words, lists, solved };
        proof {
            assert(r.secrets() =~= sampled.deep_view());
        }
        r
    }

    /// A session whose first board's secret is `fixed` and whose other
    /// thirty-one secrets are drawn, without repetition, from the
    /// dictionary entries other than `fixed`.
    pub fn new_single_fixed(fixed: Vec<char>, words: Vec<Vec<char>>) -> (r: Self)
        requires
            fixed@.len() == 5,
            all_words(words.deep_view()),
            distinct_words(words.deep_view()),
            exclude(words.deep_view(), fixed@).len() >= 31,
        ensures
            r.wf(),
            r.dict() == words.deep_view(),
            r.secrets()[0] == fixed@,
            forall|i: int| 0 <= i < 32 ==> #[trigger] r.cand_lists()[i] == r.dict(),
            forall|i: int| 0 <= i < 32 ==> #[trigger] r.flags()[i] == false,
            forall|i: int| 0 <= i < 32 ==> (#[trigger] r.boards()[i]).history().len() == 0,
            forall|i: int| 1 <= i < 32 ==> r.dict().contains(#[trigger] r.secrets()[i]),
    {
        let others = remove_word(&words, &fixed);
        let sampled = sample_words(&others, 31);
        proof {
            lemma_exclude(words.deep_view(), fixed@);
            assert forall|k: int| 0 <= k < others.deep_view().len() implies is_word(
                #[trigger] others.deep_view()[k],
            ) by {
                let j = choose|j: int|
                    0 <= j < words.deep_view().len() && words.deep_view()[j]
                        == others.deep_view()[k];
            };
            lemma_sampled(sampled.deep_view(), others.deep_view());
            assert forall|k: int| 0 <= k < 31 implies is_word(#[trigger] sampled.deep_view()[k])
                && words.deep_view().contains(sampled.deep_view()[k]) && sampled.deep_view()[k]
                != fixed@ by {
                let j = choose|j: int|
                    0 <= j < others.deep_view().len() && others.deep_view()[j]
                        == sampled.deep_view()[k];
                let j2 = choose|j2: int|
                    0 <= j2 < words.deep_view().len() && words.deep_view()[j2]
                        == others.deep_view()[j];
            };
        }
        let mut wordles: Vec<Wordle> = Vec::new();
        wordles.push(Wordle::new(copy_word(&fixed)));
        let mut i: usize = 0;
        while i < 31
            invariant
                i <= 31,
                sampled@.len() == 31,
                forall|k: int| 0 <= k < 31 ==> is_word(#[trigger] sampled.deep_view()[k]),
                wordles@.len() == i + 1,
                wordles@[0].wf(),
                wordles@[0].secret() == fixed@,
                wordles@[0].history().len() == 0,
                forall|k: int|
                    1 <= k < i + 1 ==> (#[trigger] wordles@[k]).wf() && wordles@[k].secret()
                        == sampled.deep_view()[k - 1] && wordles@[k].history().len() == 0,
            decreases 31 - i,
        {
            assert(sampled.deep_view()[i as int] == sampled@[i as int]@);
            wordles.push(Wordle::new(copy_word(&sampled[i])));
            i += 1;
        }
        let lists = lists_of(&words);
        let solved = fresh_flags();
        let r = Duotrigordle { wordles, words, lists, solved };
        proof {
            assert(r.secrets() =~= Seq::new(32nat, |k: int| r.boards()[k].secret()));
            assert forall|a: int, b: int| 0 <= a < b < 32 implies r.secrets()[a]
                != r.secrets()[b] by {
                if a == 0 {
                    assert(r.secrets()[b] == sampled.deep_view()[b - 1]);
                } else {
                    assert(r.secrets()[a] == sampled.deep_view()[a - 1]);
                    assert(r.secrets()[b] == sampled.deep_view()[b - 1]);
                    assert(distinct_words(sampled.deep_view()));
                }
            };
        }
        r
    }

    /// Restores the session to its freshly constructed state: histories
    /// cleared, flags cleared, candidate lists back to the dictionary.
    pub fn reset(&mut self)
        requires
            old(self).wf(),
        ensures
            final(self).wf(),
            final(self).dict() == old(self).dict(),
            final(self).secrets() == old(self).secrets(),
            forall|i: int| 0 <= i < 32 ==> (#[trigger] final(self).boards()[i]).history().len() == 0,
            forall|i: int| 0 <= i < 32 ==> #[trigger] final(self).flags()[i] == false,
            forall|i: int|
                0 <= i < 32 ==> #[trigger] final(self).cand_lists()[i] == final(self).dict(),
    {
        let ghost boards0 = self.boards();
        let ghost secrets0 = self.secrets();
        let ghost dict0 = self.dict();
        let mut i: usize = 0;
        while i < 32
            invariant
                old(self).wf(),
                i <= 32,
                self.boards().len() == 32,
                self.dict() == dict0,
                boards0 == old(self).boards(),
                forall|k: int| i <= k < 32 ==> self.boards()[k] == boards0[k],
                forall|k: int|
                    0 <= k < i ==> (#[trigger] self.boards()[k]).wf() && self.boards()[k].secret()
                        == boards0[k].secret() && self.boards()[k].history().len() == 0,
            decreases 32 - i,
        {
            let ghost prev = self.wordles@;
            proof {
                assert(boards0[i as int].wf());
            }
            let mut w = self.wordles.remove(i);
            w.clear();
            self.wordles.insert(i, w);
            proof {
                assert(self.wordles@ =~= prev.update(i as int, w));
            }
            i += 1;
        }
        self.solved = fresh_flags();
        let lists = lists_of(&self.words);
        self.lists = lists;
        proof {
            assert(self.secrets() =~= secrets0);
        }
    }

    /// The thirty-two secrets, in board order.
    pub fn answers(&self) -> (r: Vec<Vec<char>>)
        requires
            self.wf(),
        ensures
            r.deep_view() == self.secrets(),
    {
        let mut r: Vec<Vec<char>> = Vec::new();
        let mut i: usize = 0;
        while i < 32
            invariant
                self.wf(),
                i <= 32,
                r@.len() == i,
                forall|k: int| 0 <= k < i ==> r@[k]@ == #[trigger] self.secrets()[k],
            decreases 32 - i,
        {
            r.push(copy_word(self.wordles[i].answer_vec()));
            i += 1;
        }
        proof {
            assert(r.deep_view() =~~= self.secrets());
        }
        r
    }

    /// Marks every board whose secret is `word` as solved, records the
    /// guess there, and narrows that board's candidate list by the
    /// resulting feedback.
    fn mark_solved(&mut self, word: &Vec<char>)
        requires
            old(self).wf(),
            word@.len() == 5,
        ensures
            final(self).wf(),
            final(self).dict() == old(self).dict(),
            final(self).secrets() == old(self).secrets(),
            final(self).flags() == step_solved(old(self).secrets(), old(self).flags(), word@),
            forall|k: int|
                #![trigger final(self).cand_lists()[k]]
                0 <= k < 32 ==> final(self).cand_lists()[k] == (if old(self).secrets()[k]
                    == word@ {
                    filter_one(
                        word@,
                        feedback_colors(old(self).secrets()[k], word@),
                        old(self).cand_lists()[k],
                    )
                } else {
                    old(self).cand_lists()[k]
                }),
            forall|k: int|
                #![trigger final(self).boards()[k]]
                0 <= k < 32 ==> final(self).boards()[k].history_words() == (if old(self).secrets()[k]
                    == word@ {
                    old(self).boards()[k].history_words().push(word@)
                } else {
                    old(self).boards()[k].history_words()
                }),
    {
        let ghost secrets0 = self.secrets();
        let ghost flags0 = self.flags();
        let ghost lists0 = self.cand_lists();
        let ghost dict0 = self.dict();
        let ghost boards0 = self.boards();
        let mut i: usize = 0;
        while i < 32
            invariant
                word@.len() == 5,
                i <= 32,
                old(self).wf(),
                secrets0 == old(self).secrets(),
                flags0 == old(self).flags(),
                lists0 == old(self).cand_lists(),
                boards0 == old(self).boards(),
                self.boards().len() == 32,
                self.cand_lists().len() == 32,
                self.flags().len() == 32,
                self.dict() == dict0,
                self.secrets() == secrets0,
                forall|k: int| 0 <= k < 32 ==> (#[trigger] self.boards()[k]).wf(),
                forall|k: int| 0 <= k < 32 ==> all_words(#[trigger] self.cand_lists()[k]),
                forall|k: int|
                    #![trigger self.flags()[k]]
                    0 <= k < 32 ==> self.flags()[k] == (if k < i && secrets0[k] == word@ {
                        true
                    } else {
                        flags0[k]
                    }),
                forall|k: int|
                    #![trigger self.cand_lists()[k]]
                    0 <= k < 32 ==> self.cand_lists()[k] == (if k < i && secrets0[k] == word@ {
                        filter_one(word@, feedback_colors(secrets0[k], word@), lists0[k])
                    } else {
                        lists0[k]
                    }),
                forall|k: int|
                    #![trigger self.boards()[k]]
                    0 <= k < 32 ==> self.boards()[k].history_words() == (if k < i && secrets0[k]
                        == word@ {
                        boards0[k].history_words().push(word@)
                    } else {
                        boards0[k].history_words()
                    }),
            decreases 32 - i,
        {
            let ghost cl0 = self.cand_lists();
            let ghost b0 = self.boards();
            let ghost f0 = self.flags();
            let is_match = words_equal(self.wordles[i].answer_vec(), word);
            proof {
                assert(self.secrets()[i as int] == self.boards()[i as int].secret());
                assert(is_match == (secrets0[i as int] == word@));
            }
            if is_match {
                self.solved.set(i, true);
                proof {
                    assert(b0[i as int].wf());
                    assert(all_words(cl0[i as int]));
                }
                let ghost prevw = self.wordles@;
                let mut w = self.wordles.remove(i);
                let fb = w.guess(word);
                self.wordles.insert(i, w);
                proof {
                    assert(self.wordles@ =~= prevw.update(i as int, w));
                    assert(w.history_words() =~= b0[i as int].history_words().push(word@));
                    assert forall|k: int| 0 <= k < 32 && k != i implies #[trigger] self.boards()[k]
                        == b0[k] by {
                        assert(self.wordles@[k] == prevw[k]);
                    };
                    assert(self.secrets() =~= secrets0);
                    assert forall|k: int| 0 <= k < 32 implies (#[trigger] self.boards()[k]).wf() by {
                        if k != i {
                            assert(self.boards()[k] == b0[k]);
                        }
                    };
                }
                let ghost prevl = self.lists@;
                let l = self.lists.remove(i);
                let l2 = fb.filter(l);
                self.lists.insert(i, l2);
                proof {
                    assert(self.lists@ =~= prevl.update(i as int, l2));
                    assert forall|k: int| 0 <= k < 32 && k != i implies #[trigger] self.cand_lists(
                    )[k] == cl0[k] by {
                        assert(self.lists@[k] == prevl[k]);
                        assert(self.cand_lists()[k] == prevl[k].deep_view());
                        assert(cl0[k] == prevl[k].deep_view());
                    };
                    assert(self.cand_lists()[i as int] == l2.deep_view());
                    assert(self.cand_lists()[i as int] == filter_one(
                        word@,
                        feedback_colors(secrets0[i as int], word@),
                        lists0[i as int],
                    ));
                    assert forall|k: int| 0 <= k < 32 implies all_words(
                        #[trigger] self.cand_lists()[k],
                    ) by {
                        if k != i {
                            assert(self.cand_lists()[k] == cl0[k]);
                        }
                    };
                }
            }
            i += 1;
        }
        proof {
            assert(self.flags() =~= step_solved(secrets0, flags0, word@));
        }
    }

    /// Records `word` on every board, and narrows the candidate list of
    /// every board not yet marked solved by the feedback just produced.
    fn record_all(&mut self, word: &Vec<char>)
        requires
            old(self).wf(),
            word@.len() == 5,
        ensures
            final(self).wf(),
            final(self).dict() == old(self).dict(),
            final(self).secrets() == old(self).secrets(),
            final(self).flags() == old(self).flags(),
            forall|k: int|
                #![trigger final(self).cand_lists()[k]]
                0 <= k < 32 ==> final(self).cand_lists()[k] == (if !old(self).flags()[k] {
                    filter_one(
                        word@,
                        feedback_colors(old(self).secrets()[k], word@),
                        old(self).cand_lists()[k],
                    )
                } else {
                    old(self).cand_lists()[k]
                }),
            forall|k: int|
                #![trigger final(self).boards()[k]]
                0 <= k < 32 ==> final(self).boards()[k].history_words() == old(
                    self,
                ).boards()[k].history_words().push(word@),
    {
        let ghost secrets0 = self.secrets();
        let ghost flags0 = self.flags();
        let ghost lists0 = self.cand_lists();
        let ghost dict0 = self.dict();
        let ghost boards0 = self.boards();
        let mut j: usize = 0;
        while j < 32
            invariant
                word@.len() == 5,
                j <= 32,
                old(self).wf(),
                secrets0 == old(self).secrets(),
                flags0 == old(self).flags(),
                lists0 == old(self).cand_lists(),
                boards0 == old(self).boards(),
                self.boards().len() == 32,
                self.cand_lists().len() == 32,
                self.flags().len() == 32,
                self.dict() == dict0,
                self.secrets() == secrets0,
                self.flags() == flags0,
                forall|k: int| 0 <= k < 32 ==> (#[trigger] self.boards()[k]).wf(),
                forall|k: int| 0 <= k < 32 ==> all_words(#[trigger] self.cand_lists()[k]),
                forall|k: int|
                    #![trigger self.cand_lists()[k]]
                    0 <= k < 32 ==> self.cand_lists()[k] == (if k < j && !flags0[k] {
                        filter_one(word@, feedback_colors(secrets0[k], word@), lists0[k])
                    } else {
                        lists0[k]
                    }),
                forall|k: int|
                    #![trigger self.boards()[k]]
                    0 <= k < 32 ==> self.boards()[k].history_words() == (if k < j {
                        boards0[k].history_words().push(word@)
                    } else {
                        boards0[k].history_words()
                    }),
            decreases 32 - j,
        {
            let ghost cl0 = self.cand_lists();
            let ghost b0 = self.boards();
            proof {
                assert(b0[j as int].wf());
            }
            let ghost prevw = self.wordles@;
            let mut w = self.wordles.remove(j);
            let fb = w.guess(word);
            self.wordles.insert(j, w);
            proof {
                assert(self.wordles@ =~= prevw.update(j as int, w));
                assert(w.history_words() =~= b0[j as int].history_words().push(word@));
                assert forall|k: int| 0 <= k < 32 && k != j implies #[trigger] self.boards()[k]
                    == b0[k] by {
                    assert(self.wordles@[k] == prevw[k]);
                };
                assert(self.secrets() =~= secrets0);
                assert forall|k: int| 0 <= k < 32 implies (#[trigger] self.boards()[k]).wf() by {
                    if k != j {
                        assert(self.boards()[k] == b0[k]);
                    }
                };
            }
            let solved_j = self.solved[j];
            if !solved_j {
                proof {
                    assert(all_words(cl0[j as int]));
                }
                let ghost prevl = self.lists@;
                let l = self.lists.remove(j);
                let l2 = fb.filter(l);
                self.lists.insert(j, l2);
                proof {
                    assert(self.lists@ =~= prevl.update(j as int, l2));
                    assert forall|k: int| 0 <= k < 32 && k != j implies #[trigger] self.cand_lists(
                    )[k] == cl0[k] by {
                        assert(self.lists@[k] == prevl[k]);
                        assert(self.cand_lists()[k] == prevl[k].deep_view());
                        assert(cl0[k] == prevl[k].deep_view());
                    };
                    assert(self.cand_lists()[j as int] == l2.deep_view());
                    assert(self.cand_lists()[j as int] == filter_one(
                        word@,
                        feedback_colors(secrets0[j as int], word@),
                        lists0[j as int],
                    ));
                    assert forall|k: int| 0 <= k < 32 implies all_words(
                        #[trigger] self.cand_lists()[k],
                    ) by {
                        if k != j {
                            assert(self.cand_lists()[k] == cl0[k]);
                        }
                    };
                }
            }
            j += 1;
        }
    }

    /// Applies one shared guess to every board. A board whose secret is
    /// the guessed word is marked solved and its candidate list is
    /// narrowed by the resulting all-exact feedback; then every board
    /// records the guess in its history; finally every board still
    /// unsolved narrows its candidate list by its own feedback, so that a
    /// solved board's list stays frozen from the moment it was solved.
    pub fn guess(&mut self, word: &Vec<char>)
        requires
            old(self).wf(),
            word@.len() == 5,
        ensures
            final(self).wf(),
            final(self).dict() == old(self).dict(),
            final(self).secrets() == old(self).secrets(),
            final(self).flags() == step_solved(old(self).secrets(), old(self).flags(), word@),
            final(self).cand_lists() == step_lists(
                old(self).secrets(),
                old(self).cand_lists(),
                old(self).flags(),
                word@,
            ),
            forall|i: int|
                #![trigger final(self).boards()[i]]
                0 <= i < 32 ==> final(self).boards()[i].history_words() == (if old(
                    self,
                ).secrets()[i] == word@ {
                    old(self).boards()[i].history_words().push(word@).push(word@)
                } else {
                    old(self).boards()[i].history_words().push(word@)
                }),
    {
        let ghost secrets0 = self.secrets();
        let ghost flags0 = self.flags();
        let ghost lists0 = self.cand_lists();
        let ghost boards0 = self.boards();
        self.mark_solved(word);
        let ghost flags1 = self.flags();
        let ghost lists1 = self.cand_lists();
        let ghost boards1 = self.boards();
        self.record_all(word);
        proof {
            assert(self.flags() == flags1);
            assert(self.cand_lists() =~= step_lists(secrets0, lists0, flags0, word@)) by {
                assert forall|k: int| 0 <= k < 32 implies #[trigger] self.cand_lists()[k]
                    == step_lists(secrets0, lists0, flags0, word@)[k] by {
                    if secrets0[k] == word@ {
                        assert(flags1[k] == true);
                        assert(lists1[k] == filter_one(
                            word@,
                            feedback_colors(secrets0[k], word@),
                            lists0[k],
                        ));
                    } else {
                        assert(flags1[k] == flags0[k]);
                        assert(lists1[k] == lists0[k]);
                    }
                };
            };
            assert forall|i2: int|
                0 <= i2 < 32 implies (#[trigger] self.boards()[i2]).history_words() == (if secrets0[i2]
                == word@ {
                boards0[i2].history_words().push(word@).push(word@)
            } else {
                boards0[i2].history_words().push(word@)
            }) by {
                assert(boards1[i2].history_words() == (if secrets0[i2] == word@ {
                    boards0[i2].history_words().push(word@)
                } else {
                    boards0[i2].history_words()
                }));
            };
        }
    }

    /// Runs the greedy solvability check with board `index`'s secret as
    /// the opening guess: resets the session, then repeatedly guesses,
    /// refusing to continue unless some unsolved board has been narrowed
    /// to a single candidate. Returns the starting board's secret on
    /// success and nothing on failure; `greedy_spec` says exactly which
    /// outcome occurs. The session is left in the state the run reached.
    #[verifier::loop_isolation(false)]
    pub fn solveable_from(&mut self, index: usize) -> (r: Option<Vec<char>>)
        requires
            old(self).wf(),
            index < 32,
        ensures
            final(self).wf(),
            final(self).dict() == old(self).dict(),
            final(self).secrets() == old(self).secrets(),
            (r is Some) == greedy_spec(old(self).secrets(), old(self).dict(), index as int),
            (match r {
                Option::Some(w) => w@ == old(self).secrets()[index as int],
                Option::None => true,
            }),
    {
        self.reset();
        let ghost secrets0 = self.secrets();
        let ghost dict0 = self.dict();
        proof {
            assert(self.cand_lists() =~= init_lists(dict0));
            assert(self.flags() =~= all_unsolved());
        }
        let g0 = self.wordles[index].answer_vec();
        let mut g: Vec<char> = copy_word(g0);
        proof {
            assert(self.boards()[index as int].wf());
            assert(g@ == secrets0[index as int]);
        }
        let ghost target = greedy_spec(old(self).secrets(), old(self).dict(), index as int);
        proof {
            assert(target == greedy_from(secrets0, self.cand_lists(), self.flags(), g@));
            assert(!self.flags()[index as int] && secrets0[index as int] == g@);
        }
        loop
            invariant
                self.wf(),
                self.dict() == dict0,
                self.secrets() == secrets0,
                index < 32,
                g@.len() == 5,
                target == greedy_from(secrets0, self.cand_lists(), self.flags(), g@),
                exists|k: int| 0 <= k < 32 && !(#[trigger] self.flags()[k]) && secrets0[k] == g@,
            decreases count_unsolved(self.flags(), 32),
        {
            let n = count_false(&self.solved);
            if n <= 1 {
                proof {
                    assert(target == true);
                }
                let w = copy_word(self.wordles[index].answer_vec());
                proof {
                    assert(w@ == secrets0[index as int]);
                }
                return Some(w);
            }
            let ghost flags_a = self.flags();
            let ghost lists_a = self.cand_lists();
            self.guess(&g);
            proof {
                assert(self.flags() == step_solved(secrets0, flags_a, g@));
                assert(self.cand_lists() == step_lists(secrets0, lists_a, flags_a, g@));
                let k = choose|k: int| 0 <= k < 32 && !flags_a[k] && secrets0[k] == g@;
                lemma_count_unsolved_strict(flags_a, self.flags(), k, 32);
                assert(target == (if !can_continue(self.cand_lists(), self.flags()) {
                    false
                } else {
                    greedy_from(
                        secrets0,
                        self.cand_lists(),
                        self.flags(),
                        secrets0[first_unit(self.cand_lists(), self.flags(), 0)],
                    )
                }));
            }
            let mut any_zero = false;
            let mut first_one: usize = 32;
            let mut t: usize = 0;
            while t < 32
                invariant
                    self.wf(),
                    t <= 32,
                    any_zero == (exists|k: int|
                        0 <= k < t && !(#[trigger] self.flags()[k]) && self.cand_lists()[k].len()
                            == 0),
                    first_one <= 32,
                    first_one == 32 ==> forall|k: int|
                        0 <= k < t ==> !(!(#[trigger] self.flags()[k]) && self.cand_lists()[k].len()
                            == 1),
                    first_one < 32 ==> (first_one as int) < t && !self.flags()[first_one as int]
                        && self.cand_lists()[first_one as int].len() == 1 && (forall|k: int|
                        0 <= k < first_one ==> !(!(#[trigger] self.flags()[k])
                            && self.cand_lists()[k].len() == 1)),
                decreases 32 - t,
            {
                if !self.solved[t] {
                    proof {
                        assert(self.cand_lists()[t as int].len() == self.lists@[t as int]@.len());
                    }
                    let len_t = self.lists[t].len();
                    if len_t == 0 {
                        any_zero = true;
                    }
                    if len_t == 1 && first_one == 32 {
                        first_one = t;
                    }
                }
                t += 1;
            }
            if any_zero || first_one == 32 {
                proof {
                    assert(!can_continue(self.cand_lists(), self.flags()));
                    assert(target == false);
                }
                return None;
            }
            proof {
                assert(first_one < 32);
                assert(!any_zero);
                assert(!self.flags()[first_one as int]);
                assert(self.cand_lists()[first_one as int].len() == 1);
                assert(can_continue(self.cand_lists(), self.flags())) by {
                    let fo = first_one as int;
                    assert(!self.flags()[fo] && (#[trigger] self.cand_lists()[fo]).len() == 1);
                    assert forall|i2: int|
                        0 <= i2 < 32 && !self.flags()[i2] implies (#[trigger] self.cand_lists()[i2]).len()
                        >= 1 by {
                        assert(!(self.cand_lists()[i2].len() == 0));
                    };
                };
                lemma_first_unit_char(self.cand_lists(), self.flags(), 0, first_one as int);
                assert(target == greedy_from(
                    secrets0,
                    self.cand_lists(),
                    self.flags(),
                    secrets0[first_one as int],
                ));
                assert(self.boards()[first_one as int].wf());
            }
            g = copy_word(self.wordles[first_one].answer_vec());
            proof {
                assert(g@ == secrets0[first_one as int]);
                assert(!self.flags()[first_one as int] && secrets0[first_one as int] == g@);
            }
        }
    }

    /// Runs the greedy check once from every board index, reporting
    /// whether any run succeeded and the secrets of the boards whose run
    /// did, in board order.
    pub fn solveable(&mut self) -> (r: (bool, Vec<Vec<char>>))
        requires
            old(self).wf(),
        ensures
            final(self).wf(),
            final(self).dict() == old(self).dict(),
            final(self).secrets() == old(self).secrets(),
            r.1.deep_view() == solveable_list(old(self).secrets(), old(self).dict(), 32),
            r.0 == (r.1@.len() > 0),
    {
        let mut found: Vec<Vec<char>> = Vec::new();
        let mut i: usize = 0;
        while i < 32
            invariant
                self.wf(),
                self.dict() == old(self).dict(),
                self.secrets() == old(self).secrets(),
                i <= 32,
                found.deep_view() == solveable_list(old(self).secrets(), old(self).dict(), i as int),
            decreases 32 - i,
        {
            let ghost prev = found.deep_view();
            let res = self.solveable_from(i);
            match res {
                Option::Some(w) => {
                    found.push(w);
                    proof {
                        assert(found.deep_view() =~~= prev.push(
                            old(self).secrets()[i as int],
                        ));
                    }
                },
                Option::None => {},
            }
            i += 1;
        }
        let any = found.len() > 0;
        (any, found)
    }

    /// The current candidate list of one board.
    pub fn candidates(&self, index: usize) -> (r: &Vec<Vec<char>>)
        requires
            self.wf(),
            index < 32,
        ensures
            r.deep_view() == self.cand_lists()[index as int],
    {
        &self.lists[index]
    }

    /// The recorded feedback history of one board.
    pub fn guesses(&self, index: usize) -> (r: &Vec<Guess>)
        requires
            self.wf(),
            index < 32,
        ensures
            r@ == self.boards()[index as int].history(),
    {
        self.wordles[index].history_vec()
    }

    /// The per-board solved flags.
    pub fn solved(&self) -> (r: &Vec<bool>)
        ensures
            r@ == self.flags(),
    {
        &self.solved
    }
}

/// One fresh board per drawn secret, in draw order.
fn boards_of(sampled: &Vec<Vec<char>>) -> (r: Vec<Wordle>)
    requires
        forall|k: int| 0 <= k < sampled@.len() ==> is_word(#[trigger] sampled.deep_view()[k]),
    ensures
        r@.len() == sampled@.len(),
        forall|k: int|
            0 <= k < r@.len() ==> (#[trigger] r@[k]).wf() && r@[k].secret()
                == sampled.deep_view()[k] && r@[k].history().len() == 0,
{
    let mut r: Vec<Wordle> = Vec::new();
    let mut i: usize = 0;
    while i < sampled.len()
        invariant
            i <= sampled@.len(),
            forall|k: int| 0 <= k < sampled@.len() ==> is_word(#[trigger] sampled.deep_view()[k]),
            r@.len() == i,
            forall|k: int|
                0 <= k < i ==> (#[trigger] r@[k]).wf() && r@[k].secret() == sampled.deep_view()[k]
                    && r@[k].history().len() == 0,
        decreases sampled@.len() - i,
    {
        assert(sampled.deep_view()[i as int] == sampled@[i as int]@);
        r.push(Wordle::new(copy_word(&sampled[i])));
        i += 1;
    }
    r
}

/// Thirty-two private copies of the dictionary, one per board.
fn lists_of(words: &Vec<Vec<char>>) -> (r: Vec<Vec<Vec<char>>>)
    ensures
        r@.len() == 32,
        forall|k: int| 0 <= k < 32 ==> #[trigger] r.deep_view()[k] == words.deep_view(),
{
    let mut r: Vec<Vec<Vec<char>>> = Vec::new();
    let mut i: usize = 0;
    while i < 32
        invariant
            i <= 32,
            r@.len() == i,
            forall|k: int| 0 <= k < i ==> #[trigger] r@[k].deep_view() == words.deep_view(),
        decreases 32 - i,
    {
        r.push(copy_words(words));
        i += 1;
    }
    r
}

/// Thirty-two cleared flags.
fn fresh_flags() -> (r: Vec<bool>)
    ensures
        r@.len() == 32,
        forall|k: int| 0 <= k < 32 ==> #[trigger] r@[k] == false,
{
    let mut r: Vec<bool> = Vec::new();
    let mut i: usize = 0;
    while i < 32
        invariant
            i <= 32,
            r@.len() == i,
            forall|k: int| 0 <= k < i ==> #[trigger] r@[k] == false,
        decreases 32 - i,
    {
        r.push(false);
        i += 1;
    }
    r
}

} // verus!
