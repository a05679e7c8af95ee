//! Splitting text into words.
//!
//! A word is a longest run of characters that a given test accepts. `Words`
//! takes the text line by line and hands the words out one by one.

use std::collections::VecDeque;
use vstd::prelude::*;
use vstd::std_specs::iter::IteratorSpec;

verus! {

/// Whether `c` is a letter or a digit in the sense of `char::is_alphanumeric`.
pub uninterp spec fn alphanumeric(c: char) -> bool;

/// `char::is_alphanumeric` of std: its result depends on the character
/// alone, so it gets the name `alphanumeric`. Nothing is claimed of which
/// characters it answers `true` for.
pub assume_specification[ char::is_alphanumeric ](c: char) -> (b: bool)
    ensures
        b == alphanumeric(c),
;

/// Whether a character belongs to a word, given whether it is a letter or a
/// digit: letters, digits, the apostrophe and the right single quotation mark do.
pub open spec fn joins(c: char, alphanumeric: bool) -> bool {
    alphanumeric || c == '\'' || c == '\u{2019}'
}

/// Whether `c` belongs to a word.
pub open spec fn word_char(c: char) -> bool {
    joins(c, alphanumeric(c))
}

/// Decides whether `c` belongs to a word, once it is known whether `c` is a
/// letter or a digit.
pub fn joins_word(c: char, alphanumeric: bool) -> (b: bool)
    ensures
        b == joins(c, alphanumeric),
{
    alphanumeric || c == '\'' || c == '\u{2019}'
}

/// Decides whether `c` belongs to a word.
pub fn is_word_char(c: char) -> (b: bool)
    ensures
        b == word_char(c),
{
    joins_word(c, c.is_alphanumeric())
}

/// The test that `pred` computes: the characters on which it may answer `true`.
pub open spec fn test_of<P: Fn(char) -> bool>(pred: P) -> spec_fn(char) -> bool {
    |c: char| call_ensures(pred, (c,), true)
}

/// `pred` can be asked about every character and gives one answer for each.
pub open spec fn decides<P: Fn(char) -> bool>(pred: P) -> bool {
    &&& forall|c: char| call_requires(pred, (c,))
    &&& forall|c: char| #[trigger] call_ensures(pred, (c,), false) ==> !call_ensures(pred, (c,), true)
}

/// The length of the longest prefix of `line` whose characters `in_word` accepts.
pub open spec fn run_len(line: Seq<char>, in_word: spec_fn(char) -> bool) -> nat
    decreases line.len(),
{
    if line.len() > 0 && in_word(line[0]) {
        1 + run_len(line.drop_first(), in_word)
    } else {
        0
    }
}

/// The words of `line`: its longest runs of characters that `in_word`
/// accepts, in the order in which they stand.
pub open spec fn words_of(line: Seq<char>, in_word: spec_fn(char) -> bool) -> Seq<Seq<char>>
    decreases line.len(),
    via words_of_decreases
{
    if line.len() == 0 {
        Seq::empty()
    } else if !in_word(line[0]) {
        words_of(line.drop_first(), in_word)
    } else {
        let n = run_len(line, in_word) as int;
        seq![line.take(n)] + words_of(line.skip(n), in_word)
    }
}

#[via_fn]
proof fn words_of_decreases(line: Seq<char>, in_word: spec_fn(char) -> bool) {
    if line.len() > 0 && in_word(line[0]) {
        lemma_run_bounded(line, in_word);
    }
}

/// A run is no longer than the line.
pub proof fn lemma_run_bounded(line: Seq<char>, in_word: spec_fn(char) -> bool)
    ensures
        run_len(line, in_word) <= line.len(),
    decreases line.len(),
{
    if line.len() > 0 && in_word(line[0]) {
        lemma_run_bounded(line.drop_first(), in_word);
    }
}

/// A run ends where the line ends or where a character is not accepted.
pub proof fn lemma_run(line: Seq<char>, in_word: spec_fn(char) -> bool, n: nat)
    requires
        n <= line.len(),
        forall|j: int| 0 <= j < n ==> in_word(#[trigger] line[j]),
        n == line.len() || !in_word(line[n as int]),
    ensures
        run_len(line, in_word) == n,
    decreases n,
{
    if n > 0 {
        let tail = line.drop_first();
        assert(in_word(line[0]));
        assert forall|j: int| 0 <= j < n - 1 implies in_word(#[trigger] tail[j]) by {
            assert(tail[j] == line[j + 1]);
        }
        lemma_run(tail, in_word, (n - 1) as nat);
    }
}

/// Where a run of accepted characters goes from `start` to `end`, the first
/// of the words from `start` on is that run, and the others are the words
/// from `end` on.
proof fn lemma_word(line: Seq<char>, in_word: spec_fn(char) -> bool, start: int, end: int)
    requires
        0 <= start < end <= line.len(),
        forall|j: int| start <= j < end ==> in_word(#[trigger] line[j]),
        end == line.len() || !in_word(line[end]),
    ensures
        words_of(line.skip(start), in_word) == seq![line.subrange(start, end)] + words_of(
            line.skip(end),
            in_word,
        ),
{
    let from = line.skip(start);
    assert forall|j: int| 0 <= j < end - start implies in_word(#[trigger] from[j]) by {
        assert(from[j] == line[start + j]);
    }
    lemma_run(from, in_word, (end - start) as nat);
    assert(from.take(end - start) =~= line.subrange(start, end));
    assert(from.skip(end - start) =~= line.skip(end));
}

/// The texts of `words`.
pub open spec fn texts(words: Seq<String>) -> Seq<Seq<char>> {
    words.map_values(|word: String| word@)
}

/// `String::push` of std: the character is appended to the text.
#[verifier::external_body]
fn push_char(text: &mut String, c: char)
    ensures
        final(text)@ == old(text)@.push(c),
{
    text.push(c)
}

/// Splits `line` into its words and puts them at the end of `words`.
pub fn split_words<P: Fn(char) -> bool>(line: &str, pred: &P, words: &mut VecDeque<String>)
    requires
        decides(*pred),
    ensures
        texts(final(words)@) == texts(old(words)@) + words_of(line@, test_of(*pred)),
{
    broadcast use vstd::string::group_string_axioms;

    let ghost in_word = test_of(*pred);
    let ghost waiting = texts(words@);
    let ghost mut i: int = 0;
    let mut word = String::new();
    let mut inside = false;
    let mut chars = line.chars();
    proof {
        assert(line@.skip(0) =~= line@);
        assert(line@.subrange(0, 0) =~= word@);
    }
    loop
        invariant
            in_word == test_of(*pred),
            decides(*pred),
            0 <= i <= line@.len(),
            chars.remaining() == line@.skip(i),
            word@.len() <= i,
            inside == (word@.len() > 0),
            word@ == line@.subrange(i - word@.len(), i),
            forall|j: int| i - word@.len() <= j < i ==> in_word(#[trigger] line@[j]),
            texts(words@) + words_of(line@.skip(i - word@.len()), in_word) == waiting + words_of(
                line@,
                in_word,
            ),
        ensures
            i == line@.len(),
        decreases line@.len() - i,
    {
        match chars.next() {
            None => {
                break ;
            },
            Some(c) => {
                let accepted = pred(c);
                proof {
                    assert(c == line@[i]);
                    assert(accepted == in_word(c));
                    assert(line@.skip(i).drop_first() =~= line@.skip(i + 1));
                }
                if accepted {
                    push_char(&mut word, c);
                    inside = true;
                    proof {
                        assert(word@ =~= line@.subrange(i + 1 - word@.len(), i + 1));
                    }
                } else {
                    if inside {
                        let mut found = String::new();
                        std::mem::swap(&mut found, &mut word);
                        inside = false;
                        proof {
                            lemma_word(line@, in_word, i - found@.len(), i);
                            assert(texts(words@.push(found)) =~= texts(words@) + seq![found@]);
                        }
                        words.push_back(found);
                    }
                    proof {
                        assert(line@.subrange(i + 1, i + 1) =~= word@);
                        assert(line@.skip(i).drop_first() =~= line@.skip(i + 1));
                    }
                }
                proof {
                    i = i + 1;
                }
            },
        }
    }
    if inside {
        proof {
            lemma_word(line@, in_word, i - word@.len(), i);
            assert(texts(words@.push(word)) =~= texts(words@) + seq![word@]);
        }
        words.push_back(word);
    }
    proof {
        assert(line@.skip(line@.len() as int) =~= Seq::<char>::empty());
    }
}

/// The words of a text that comes line by line. Its view is the sequence of
/// the words that were found and not yet handed out, the next one first.
pub struct Words<IsWordChar: Fn(char) -> bool> {
    words: VecDeque<String>,
    pred: IsWordChar,
}

impl<IsWordChar: Fn(char) -> bool> View for Words<IsWordChar> {
    type V = Seq<Seq<char>>;

    closed spec fn view(&self) -> Seq<Seq<char>> {
        texts(self.words@)
    }
}

impl<IsWordChar: Fn(char) -> bool> Words<IsWordChar> {
    #[verifier::type_invariant]
    spec fn inv(self) -> bool {
        decides(self.pred)
    }

    /// The test by which this value tells the characters of words.
    pub closed spec fn in_word(&self) -> spec_fn(char) -> bool {
        test_of(self.pred)
    }

    /// No words yet; `pred` tells which characters belong to a word.
    pub fn new(pred: IsWordChar) -> (words: Self)
        requires
            decides(pred),
        ensures
            words@ == Seq::<Seq<char>>::empty(),
            words.in_word() == test_of(pred),
    {
        let words = Words { words: VecDeque::new(), pred };
        proof {
            assert(words@ =~= Seq::<Seq<char>>::empty());
        }
        words
    }

    /// Takes the next line of the text: its words are handed out after those
    /// that are still waiting.
    pub fn feed(&mut self, line: &str)
        ensures
            final(self)@ == old(self)@ + words_of(line@, old(self).in_word()),
            final(self).in_word() == old(self).in_word(),
    {
        proof {
            use_type_invariant(&*self);
        }
        let mut words: VecDeque<String> = VecDeque::new();
        std::mem::swap(&mut words, &mut self.words);
        split_words(line, &self.pred, &mut words);
        self.words = words;
    }

    /// Hands out the next word, or `None` when no word is waiting: then the
    /// next line is wanted.
    pub fn next(&mut self) -> (word: Option<String>)
        ensures
            old(self)@.len() == 0 ==> word is None && final(self)@ == old(self)@,
            old(self)@.len() > 0 ==> word is Some && word->0@ == old(self)@[0] && final(self)@
                == old(self)@.drop_first(),
            final(self).in_word() == old(self).in_word(),
    {
        proof {
            use_type_invariant(&*self);
        }
        let mut words: VecDeque<String> = VecDeque::new();
        std::mem::swap(&mut words, &mut self.words);
        let word = words.pop_front();
        proof {
            if word is Some {
                assert(texts(words@) =~= texts(old(self).words@).drop_first());
            }
        }
        self.words = words;
        word
    }
}

} // verus!
