//! Wordle: guess a five-letter word; each guess shows which letters sit
//! in the right place, which occur elsewhere in the word and which do not
//! occur at all.
use vstd::prelude::*;
use vstd::utf8::{encode_utf8, encode_scalar};
use crate::random::choose_word;
use crate::text::push_char;

verus! {

broadcast use vstd::string::group_string_axioms;

/// A letter of a guess that occurs in the word, but not at `index`.
#[derive(Debug, Clone, Copy, PartialEq, Eq, Hash, Structural)]
pub struct YellowGuess(pub usize, pub char);

/// What became of a guess.
#[derive(Debug, Clone, Copy, PartialEq, Eq, Structural)]
pub enum GuessOutcome {
    /// The guess is not five bytes long; nothing changed.
    WrongLength,
    /// The guess is not in the dictionary; nothing changed.
    UnknownWord,
    /// The guess was counted.
    Accepted,
}

/// The length in bytes of the UTF-8 encoding of `s`.
pub open spec fn byte_len(s: Seq<char>) -> nat {
    encode_utf8(s).len()
}

/// The pattern after guess `g` against word `w`: where they agree the
/// letter of the guess, elsewhere the old pattern `p`.
pub open spec fn new_pattern(p: Seq<char>, g: Seq<char>, w: Seq<char>) -> Seq<char> {
    Seq::new(g.len(), |i: int| if w[i] == g[i] { g[i] } else { p[i] })
}

/// The letters among the first `k` of guess `g` that are misplaced: not at
/// their place in `w`, but somewhere in it.
pub open spec fn misplaced(g: Seq<char>, w: Seq<char>, k: int) -> Seq<YellowGuess>
    decreases k,
{
    if k <= 0 {
        Seq::empty()
    } else {
        let prev = misplaced(g, w, k - 1);
        let i = k - 1;
        if is_misplaced(g, w, i) {
            prev.push(entry(g, i))
        } else {
            prev
        }
    }
}

/// The record of letter `i` of guess `g`.
pub open spec fn entry(g: Seq<char>, i: int) -> YellowGuess {
    YellowGuess(i as usize, g[i])
}

/// Letter `i` of guess `g` is misplaced against word `w`: it differs from
/// the word's letter there, and occurs somewhere in the word.
pub open spec fn is_misplaced(g: Seq<char>, w: Seq<char>, i: int) -> bool {
    w[i] != g[i] && w.contains(g[i])
}

proof fn lemma_misplaced_unfold(g: Seq<char>, w: Seq<char>, k: int)
    requires
        k > 0,
    ensures
        is_misplaced(g, w, k - 1) ==> misplaced(g, w, k) == misplaced(g, w, k - 1).push(entry(g, k - 1)),
        !is_misplaced(g, w, k - 1) ==> misplaced(g, w, k) == misplaced(g, w, k - 1),
{
}

/// The misplaced letters among the first `k` of a guess are recorded
/// exactly: each entry is a misplaced letter at its place, the entries come
/// in increasing order of place (so none twice), every misplaced letter
/// has an entry, and the places of the entries are the misplaced places in
/// order, so there are as many entries as misplaced letters.
pub proof fn lemma_misplaced_exact(g: Seq<char>, w: Seq<char>, k: int)
    requires
        0 <= k <= g.len(),
        g.len() <= usize::MAX,
    ensures
        forall|j: int|
            0 <= j < misplaced(g, w, k).len() ==> 0 <= (#[trigger] misplaced(g, w, k)[j]).0 < k
                && is_misplaced(g, w, misplaced(g, w, k)[j].0 as int) && misplaced(g, w, k)[j].1
                == g[misplaced(g, w, k)[j].0 as int],
        forall|a: int, b: int|
            0 <= a < b < misplaced(g, w, k).len() ==> (#[trigger] misplaced(g, w, k)[a]).0
                < (#[trigger] misplaced(g, w, k)[b]).0,
        forall|i: int|
            0 <= i < k && #[trigger] is_misplaced(g, w, i) ==> misplaced(g, w, k).contains(
                YellowGuess(i as usize, g[i]),
            ),
        misplaced(g, w, k).map_values(|y: YellowGuess| y.0 as int) == Seq::new(k as nat, |i: int| i).filter(
            |i: int| is_misplaced(g, w, i),
        ),
    decreases k,
{
    reveal(Seq::filter);
    if k == 0 {
        assert(misplaced(g, w, k).map_values(|y: YellowGuess| y.0 as int) =~= Seq::new(k as nat, |i: int| i).filter(
            |i: int| is_misplaced(g, w, i)));
    }
    if k > 0 {
        lemma_misplaced_exact(g, w, k - 1);
        lemma_misplaced_unfold(g, w, k);
        let prev = misplaced(g, w, k - 1);
        let places = Seq::new(k as nat, |i: int| i);
        assert(places.drop_last() =~= Seq::new((k - 1) as nat, |i: int| i));
        assert(places.last() == k - 1);
        if is_misplaced(g, w, k - 1) {
            assert(prev.push(entry(g, k - 1)).map_values(|y: YellowGuess| y.0 as int) =~= prev.map_values(
                |y: YellowGuess| y.0 as int).push(k - 1));
        }
        if is_misplaced(g, w, k - 1) {
            let e = entry(g, k - 1);
            let m = prev.push(e);
            assert(m.len() == prev.len() + 1);
            assert(m[prev.len() as int] == e);
            assert(e.0 == k - 1);
            assert forall|j: int| 0 <= j < m.len() implies 0 <= (#[trigger] m[j]).0 < k
                && is_misplaced(g, w, m[j].0 as int) && m[j].1 == g[m[j].0 as int] by {
                if j < prev.len() {
                    assert(m[j] == prev[j]);
                }
            }
            assert forall|a: int, b: int| 0 <= a < b < m.len() implies (#[trigger] m[a]).0
                < (#[trigger] m[b]).0 by {
                assert(m[a] == prev[a]);
                assert(0 <= prev[a].0 < k - 1);
                if b < prev.len() {
                    assert(m[b] == prev[b]);
                }
            }
            assert forall|i: int| 0 <= i < k && #[trigger] is_misplaced(g, w, i) implies m.contains(
                YellowGuess(i as usize, g[i]),
            ) by {
                if i < k - 1 {
                    let j = choose|j: int| 0 <= j < prev.len() && #[trigger] prev[j] == YellowGuess(i as usize, g[i]);
                    assert(m[j] == prev[j]);
                } else {
                    assert(m[prev.len() as int] == YellowGuess(i as usize, g[i]));
                }
            }
        } else {
            assert forall|i: int| 0 <= i < k && #[trigger] is_misplaced(g, w, i) implies prev.contains(
                YellowGuess(i as usize, g[i]),
            ) by {
                assert(i < k - 1);
            }
        }
    }
}

/// The missing letters `m` after the first `k` letters of guess `g`: each
/// letter that does not occur in `w` is added unless already there.
pub open spec fn missing_after(m: Seq<char>, g: Seq<char>, w: Seq<char>, k: int) -> Seq<char>
    decreases k,
{
    if k <= 0 {
        m
    } else {
        let prev = missing_after(m, g, w, k - 1);
        let i = k - 1;
        if w[i] != g[i] && !w.contains(g[i]) && !prev.contains(g[i]) {
            prev.push(g[i])
        } else {
            prev
        }
    }
}

/// Whether some word of `dictionary` is `g`.
pub open spec fn in_dictionary(dictionary: Seq<String>, g: Seq<char>) -> bool {
    exists|i: int| 0 <= i < dictionary.len() && #[trigger] dictionary[i]@ == g
}

proof fn lemma_byte_len_at_least_chars(s: Seq<char>)
    ensures
        byte_len(s) >= s.len(),
    decreases s.len(),
{
    if s.len() > 0 {
        lemma_byte_len_at_least_chars(s.drop_first());
        assert(encode_scalar(s[0] as u32).len() >= 1);
    }
}

/// A game of wordle.
pub struct Game {
    pub word: String,
    pub dictionary: Vec<String>,
    /// Letters known not to occur in the word, each once.
    pub missing: Vec<char>,
    /// Letters known to occur elsewhere in the word.
    pub yellow: Vec<YellowGuess>,
    /// The letters found in place, `_` elsewhere.
    pub correct: String,
    pub previous_guesses: Vec<String>,
    pub over: bool,
}

impl Game {
    /// What the game knows is true of its word: no missing letter occurs
    /// in it, each missing letter is listed once, and each misplaced letter
    /// occurs in it, at one of the first five places of a guess.
    pub open spec fn wf(&self) -> bool {
        &&& self.missing@.no_duplicates()
        &&& forall|i: int| 0 <= i < self.missing@.len() ==> !self.word@.contains(#[trigger] self.missing@[i])
        &&& forall|i: int|
            0 <= i < self.yellow@.len() ==> #[trigger] self.yellow@[i].0 < 5 && self.word@.contains(
                self.yellow@[i].1,
            )
    }

    /// A fresh game for `word`: no guesses, pattern `_____`.
    pub open spec fn fresh(&self, word: Seq<char>, dictionary: Seq<String>) -> bool {
        &&& self.word@ == word
        &&& self.dictionary@ == dictionary
        &&& self.missing@.len() == 0
        &&& self.yellow@.len() == 0
        &&& self.correct@ == seq!['_', '_', '_', '_', '_']
        &&& self.previous_guesses@.len() == 0
        &&& !self.over
    }

    /// A game whose word is picked at random from `dictionary`.
    pub fn random(dictionary: Vec<String>) -> (g: Box<Game>)
        requires
            dictionary@.len() > 0,
        ensures
            g.wf(),
            g.fresh(g.word@, dictionary@),
            exists|i: int| 0 <= i < dictionary@.len() && dictionary@[i]@ == g.word@,
    {
        let word = match choose_word(&dictionary) {
            Some(w) => w,
            None => {
                assert(false);
                String::new()
            },
        };
        Game::test(word, dictionary)
    }

    /// Whether `guess` is a word of the dictionary.
    fn knows(&self, guess: &String) -> (r: bool)
        ensures
            r == in_dictionary(self.dictionary@, guess@),
    {
        let mut i: usize = 0;
        while i < self.dictionary.len()
            invariant
                i <= self.dictionary@.len(),
                forall|j: int| 0 <= j < i ==> #[trigger] self.dictionary@[j]@ != guess@,
            decreases self.dictionary.len() - i,
        {
            if self.dictionary[i] == *guess {
                return true;
            }
            i = i + 1;
        }
        false
    }

    /// Plays `guess`. A guess that is not five bytes long, or not in the
    /// dictionary, is refused and changes nothing. Otherwise it is recorded;
    /// the word itself ends the game; any other guess updates the pattern,
    /// records each misplaced letter and each letter missing from the word,
    /// and ends the game when the pattern spells the word.
    pub fn guess(&mut self, guess: String) -> (r: GuessOutcome)
        requires
            byte_len(guess@) <= usize::MAX,
            byte_len(guess@) == 5 && in_dictionary(old(self).dictionary@, guess@) && guess@
                != old(self).word@ ==> guess@.len() <= old(self).word@.len() && guess@.len()
                <= old(self).correct@.len(),
        ensures
            byte_len(guess@) != 5 ==> r == GuessOutcome::WrongLength && *final(self) == *old(self),
            byte_len(guess@) == 5 && !in_dictionary(old(self).dictionary@, guess@) ==> r
                == GuessOutcome::UnknownWord && *final(self) == *old(self),
            byte_len(guess@) == 5 && in_dictionary(old(self).dictionary@, guess@) ==> {
                let g = guess@;
                let w = old(self).word@;
                &&& r == GuessOutcome::Accepted
                &&& final(self).word == old(self).word
                &&& final(self).dictionary == old(self).dictionary
                &&& final(self).previous_guesses@ == old(self).previous_guesses@.push(guess)
                &&& g == w ==> {
                    &&& final(self).over
                    &&& final(self).correct@ == g
                    &&& final(self).missing == old(self).missing
                    &&& final(self).yellow == old(self).yellow
                }
                &&& g != w ==> {
                    &&& final(self).correct@ == new_pattern(old(self).correct@, g, w)
                    &&& final(self).yellow@ == old(self).yellow@ + misplaced(g, w, g.len() as int)
                    &&& forall|i: int|
                        0 <= i < g.len() && w[i] != g[i] && w.contains(g[i]) ==> final(self).yellow@.skip(
                            old(self).yellow@.len() as int,
                        ).contains(YellowGuess(i as usize, g[i]))
                    &&& final(self).yellow@.skip(old(self).yellow@.len() as int).map_values(
                        |y: YellowGuess| y.0 as int,
                    ) == Seq::new(g.len(), |i: int| i).filter(|i: int| is_misplaced(g, w, i))
                    &&& final(self).missing@ == missing_after(old(self).missing@, g, w, g.len() as int)
                    &&& final(self).over == (old(self).over || final(self).correct@ == w)
                }
            },
            old(self).wf() ==> final(self).wf(),
    {
        if guess.as_str().len() != 5 {
            return GuessOutcome::WrongLength;
        }
        if !self.knows(&guess) {
            return GuessOutcome::UnknownWord;
        }
        self.previous_guesses.push(guess.clone());
        if guess == self.word {
            self.over = true;
            self.correct = guess;
            return GuessOutcome::Accepted;
        }
        let ghost g = guess@;
        let ghost w = self.word@;
        let ghost p = self.correct@;
        let ghost old_yellow = self.yellow@;
        let ghost old_missing = self.missing@;
        proof {
            lemma_byte_len_at_least_chars(g);
        }
        let n = guess.as_str().unicode_len();
        let wn = self.word.as_str().unicode_len();
        let mut new_correct = String::new();
        let mut reserved: [bool; 5] = [false;5];
        let mut index: usize = 0;
        while index < n
            invariant
                index <= n,
                n == g.len(),
                n <= 5,
                n <= w.len(),
                n <= p.len(),
                wn == w.len(),
                g == guess@,
                w == self.word@,
                p == self.correct@,
                self.word == old(self).word,
                self.dictionary == old(self).dictionary,
                self.over == old(self).over,
                self.previous_guesses@ == old(self).previous_guesses@.push(guess),
                new_correct@ == new_pattern(p, g, w).take(index as int),
                self.yellow@ == old_yellow + misplaced(g, w, index as int),
                self.missing@ == missing_after(old_missing, g, w, index as int),
                forall|j: int| index <= j < 5 ==> !#[trigger] reserved@[j],
                old_yellow == old(self).yellow@,
                old_missing == old(self).missing@,
                old(self).wf() ==> self.wf(),
            decreases n - index,
        {
            let letter = guess.as_str().get_char(index);
            let answer_char = self.word.as_str().get_char(index);
            let pattern_char = self.correct.as_str().get_char(index);
            if answer_char == letter {
                push_char(&mut new_correct, letter);
                reserved[index] = true;
            } else {
                push_char(&mut new_correct, pattern_char);
                let mut found = false;
                let mut j: usize = 0;
                while j < wn
                    invariant
                        j <= wn,
                        wn == w.len(),
                        w == self.word@,
                        index < 5,
                        !reserved@[index as int],
                        found == exists|k: int| 0 <= k < j && w[k] == letter,
                    decreases wn - j,
                {
                    let c = self.word.as_str().get_char(j);
                    if c == letter && !reserved[index] {
                        found = true;
                    }
                    j = j + 1;
                }
                assert(found == w.contains(letter));
                if found {
                    self.yellow.push(YellowGuess(index, letter));
                } else {
                    let mut seen = false;
                    let mut k: usize = 0;
                    while k < self.missing.len()
                        invariant
                            k <= self.missing@.len(),
                            seen == exists|m: int| 0 <= m < k && self.missing@[m] == letter,
                        decreases self.missing.len() - k,
                    {
                        if self.missing[k] == letter {
                            seen = true;
                        }
                        k = k + 1;
                    }
                    assert(seen == self.missing@.contains(letter));
                    if !seen {
                        self.missing.push(letter);
                    }
                }
            }
            assert(new_correct@ =~= new_pattern(p, g, w).take(index + 1));
            index = index + 1;
        }
        assert(new_pattern(p, g, w).take(n as int) =~= new_pattern(p, g, w));
        proof {
            lemma_misplaced_exact(g, w, n as int);
            assert(self.yellow@.skip(old_yellow.len() as int) =~= misplaced(g, w, n as int));
            assert forall|i: int| 0 <= i < g.len() && w[i] != g[i] && w.contains(g[i]) implies self.yellow@.skip(
                old_yellow.len() as int,
            ).contains(YellowGuess(i as usize, g[i])) by {
                assert(is_misplaced(g, w, i));
            }
        }
        self.correct = new_correct;
        if self.correct == self.word {
            self.over = true
        }
        GuessOutcome::Accepted
    }

    /// A game for the given word.
    pub fn test(word: String, dictionary: Vec<String>) -> (g: Box<Game>)
        ensures
            g.wf(),
            g.fresh(word@, dictionary@),
    {
        let correct = "_____".to_string();
        proof {
            reveal_strlit("_____");
        }
        assert(correct@ == "_____"@);
        assert("_____"@ =~= seq!['_', '_', '_', '_', '_']);
        Box::new(
            Game {
                word,
                dictionary,
                missing: Vec::new(),
                yellow: Vec::new(),
                correct,
                previous_guesses: Vec::new(),
                over: false,
            },
        )
    }
}

} // verus!
