use vstd::prelude::*;

use crate::text::pop_char;
use crate::text::push_char;

verus! {

/// The character sequences of a list of words.
pub open spec fn words_view(ws: Seq<String>) -> Seq<Seq<char>> {
    ws.map_values(|w: String| w@)
}

/// A key is two words of the list joined with a `.` separator.
pub open spec fn is_key_of(words: Seq<Seq<char>>, key: Seq<char>) -> bool {
    exists|i: int, j: int|
        0 <= i < words.len() && 0 <= j < words.len() && key == words[i] + seq!['.'] + words[j]
}

/// A key of the fallback form: two words of the list joined with `.`,
/// followed by one more `.` and a decimal counter.
pub open spec fn is_numbered_key_of(words: Seq<Seq<char>>, key: Seq<char>) -> bool {
    exists|i: int, j: int, n: int|
        0 <= i < words.len() && 0 <= j < words.len() && n >= 0 && key == words[i] + seq!['.']
            + words[j] + seq!['.'] + crate::decimal::dec_str(n)
}

/// Any key the generator can mint: two words joined with `.`, possibly
/// widened by a decimal counter when the two-word space is exhausted.
pub open spec fn is_generated_key(words: Seq<Seq<char>>, key: Seq<char>) -> bool {
    is_key_of(words, key) || is_numbered_key_of(words, key)
}

/// The word list was loaded with zero words; key generation needs at least one.
#[derive(Debug)]
pub struct EmptyListError;

/// An immutable, loaded-once list of words: the entropy source for key
/// generation.
pub struct WordList {
    words: Vec<String>,
}

impl View for WordList {
    type V = Seq<Seq<char>>;

    closed spec fn view(&self) -> Seq<Seq<char>> {
        words_view(self.words@)
    }
}

impl WordList {
    /// Wraps a list of words, rejecting an empty one: a store built on an
    /// empty list could never mint a key.
    pub fn new(words: Vec<String>) -> (r: Result<WordList, EmptyListError>)
        ensures
            (r is Ok) == (words@.len() > 0),
            (r matches Ok(wl) ==> wl@ == words_view(words@)),
    {
        if words.len() == 0 {
            Err(EmptyListError)
        } else {
            Ok(WordList { words })
        }
    }

    /// The number of words.
    pub fn len(&self) -> (n: usize)
        ensures
            n == self@.len(),
    {
        self.words.len()
    }

    /// One word chosen at random, with replacement, from the list.
    pub fn sample(&self) -> (w: &String)
        requires
            self@.len() > 0,
        ensures
            exists|i: int| 0 <= i < self@.len() && w@ == self@[i],
    {
        let idx = random_index(self.words.len());
        let w = &self.words[idx];
        proof {
            assert(w@ == self@[idx as int]);
        }
        w
    }
}

/// Relies on rand::random_range: a value drawn from the half-open range, so
/// strictly below the bound; it panics only on an empty range, which the
/// precondition rules out.
#[verifier::external_body]
fn random_index(n: usize) -> (r: usize)
    requires
        n > 0,
    ensures
        r < n,
{
    rand::random_range(0..n)
}

/// A line with one carriage return dropped from its end, as when the text
/// uses `\r\n` line breaks.
pub open spec fn strip_cr(line: Seq<char>) -> Seq<char> {
    if line.len() > 0 && line.last() == '\r' {
        line.drop_last()
    } else {
        line
    }
}

/// The words of a line, which is one word exactly when the line is non-empty.
pub open spec fn line_words(cur: Seq<char>) -> Seq<Seq<char>> {
    if cur.len() == 0 {
        Seq::empty()
    } else {
        seq![cur]
    }
}

/// The non-empty lines of the text after `s`, given the characters `cur` of
/// the line read so far.
pub open spec fn word_lines_from(s: Seq<char>, cur: Seq<char>) -> Seq<Seq<char>>
    decreases s.len(),
{
    if s.len() == 0 {
        line_words(cur)
    } else if s[0] == '\n' {
        line_words(strip_cr(cur)) + word_lines_from(s.drop_first(), Seq::empty())
    } else {
        word_lines_from(s.drop_first(), cur.push(s[0]))
    }
}

/// The non-empty lines of `s`, split at newline characters with a carriage
/// return immediately before a newline dropped, each line taken verbatim as
/// one word.
pub open spec fn word_lines(s: Seq<char>) -> Seq<Seq<char>> {
    word_lines_from(s, Seq::empty())
}

/// Splits a text into its non-empty lines, one word each; `\r\n` counts as
/// a line break, and everything else in a line is kept verbatim.
#[verifier::loop_isolation(false)]
pub fn parse_word_lines(text: &str) -> (words: Vec<String>)
    ensures
        words_view(words@) == word_lines(text@),
{
    let n = text.unicode_len();
    let mut words: Vec<String> = Vec::new();
    let mut cur = String::new();
    let mut i: usize = 0;
    proof {
        assert(text@.skip(0) =~= text@);
        assert(words_view(words@) + word_lines_from(text@, cur@) =~= word_lines(text@));
    }
    while i < n
        invariant
            i <= n,
            words_view(words@) + word_lines_from(text@.skip(i as int), cur@) == word_lines(text@),
        decreases n - i,
    {
        let c = text.get_char(i);
        proof {
            assert(text@.skip(i as int)[0] == c);
            assert(text@.skip(i as int).drop_first() =~= text@.skip(i as int + 1));
        }
        let ghost prev_words = words@;
        let ghost prev_cur = cur@;
        let ghost rest = word_lines_from(text@.skip(i as int + 1), Seq::<char>::empty());
        if c == '\n' {
            proof {
                assert(word_lines_from(text@.skip(i as int), prev_cur) == line_words(
                    strip_cr(prev_cur),
                ) + rest);
            }
            match pop_char(&mut cur) {
                Some(last) => {
                    if last != '\r' {
                        push_char(&mut cur, last);
                        proof {
                            assert(cur@ =~= prev_cur);
                        }
                    }
                },
                None => {},
            }
            proof {
                assert(cur@ == strip_cr(prev_cur));
            }
            let ghost line = cur@;
            if !cur.as_str().is_empty() {
                words.push(cur);
                cur = String::new();
                proof {
                    assert(words_view(words@) =~= words_view(prev_words) + seq![line]);
                    assert((words_view(prev_words) + seq![line]) + rest =~= words_view(prev_words)
                        + (seq![line] + rest));
                }
            } else {
                proof {
                    assert(cur@ =~= Seq::<char>::empty());
                    assert(line_words(line) + rest =~= rest);
                }
            }
        } else {
            push_char(&mut cur, c);
            proof {
                assert(word_lines_from(text@.skip(i as int), prev_cur) == word_lines_from(
                    text@.skip(i as int + 1),
                    prev_cur.push(c),
                ));
            }
        }
        i += 1;
    }
    proof {
        assert(text@.skip(n as int) =~= Seq::<char>::empty());
    }
    if !cur.as_str().is_empty() {
        let ghost prev_words = words@;
        let ghost prev_cur = cur@;
        words.push(cur);
        proof {
            assert(words_view(words@) =~= words_view(prev_words).push(prev_cur));
        }
    }
    words
}

} // verus!
