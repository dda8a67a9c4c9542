//! Where the words of an imported wallet come from.
use crate::text::{char_is_white, chars_of, is_white};
use vstd::prelude::*;

verus! {

/// The number of words of a wallet's mnemonic.
pub const MNEMONIC_WORDS: usize = 22;

/// Where the words of a mnemonic are taken from.
#[derive(Debug, Clone, Copy, PartialEq, Eq, Structural)]
pub enum WordSource {
    /// From the command's arguments.
    Arguments,
    /// From a terminal.
    Terminal,
    /// From nowhere: words are not read from a pipe or a file.
    Refused,
}

/// Where the words are taken from: from the arguments if all of them are there, else from a
/// terminal.
pub fn word_source(arguments: usize, terminal: bool) -> (source: WordSource)
    ensures
        source == if arguments == MNEMONIC_WORDS {
            WordSource::Arguments
        } else if terminal {
            WordSource::Terminal
        } else {
            WordSource::Refused
        },
{
    if arguments == MNEMONIC_WORDS {
        WordSource::Arguments
    } else if terminal {
        WordSource::Terminal
    } else {
        WordSource::Refused
    }
}

/// The length of the run of characters other than white space that `s` begins with.
pub open spec fn word_len(s: Seq<char>) -> nat
    decreases s.len(),
{
    if s.len() == 0 || is_white(s[0]) {
        0
    } else {
        1 + word_len(s.skip(1))
    }
}

/// The words of a line: its runs of characters other than white space.
pub open spec fn words_of(s: Seq<char>) -> Seq<Seq<char>>
    decreases s.len(),
{
    if s.len() == 0 {
        Seq::empty()
    } else if is_white(s[0]) {
        words_of(s.skip(1))
    } else if 1 <= word_len(s) <= s.len() {
        seq![s.take(word_len(s) as int)] + words_of(s.skip(word_len(s) as int))
    } else {
        Seq::empty()
    }
}

proof fn lemma_word_len(s: Seq<char>)
    ensures
        word_len(s) <= s.len(),
        s.len() > 0 && !is_white(s[0]) ==> word_len(s) >= 1,
    decreases s.len(),
{
    if s.len() > 0 && !is_white(s[0]) {
        lemma_word_len(s.skip(1));
    }
}

/// What strings hold.
pub open spec fn string_views(v: Seq<String>) -> Seq<Seq<char>> {
    Seq::new(v.len(), |i: int| v[i]@)
}

/// Splits a line into its words.
pub fn split_words(line: &str) -> (words: Vec<String>)
    ensures
        string_views(words@) == words_of(line@),
{
    let chars = chars_of(line);
    let n: usize = chars.len();
    let mut words: Vec<String> = Vec::new();
    let mut i: usize = 0;
    assert(line@.skip(0) =~= line@);
    assert(string_views(words@) + words_of(line@) =~= words_of(line@));
    while i < n
        invariant
            chars@ == line@,
            n == chars@.len(),
            i <= n,
            string_views(words@) + words_of(line@.skip(i as int)) == words_of(line@),
        decreases n - i,
    {
        let ghost here = line@.skip(i as int);
        if char_is_white(chars[i]) {
            assert(here.skip(1) =~= line@.skip(i as int + 1));
            i += 1;
        } else {
            let start: usize = i;
            let ghost had = string_views(words@);
            assert(line@.subrange(start as int, i as int).len() == 0);
            proof {
                lemma_word_len(here);
            }
            while i < n && !char_is_white(chars[i])
                invariant
                    chars@ == line@,
                    n == chars@.len(),
                    start <= i <= n,
                    word_len(line@.skip(start as int)) == (i - start) + word_len(
                        line@.skip(i as int),
                    ),
                decreases n - i,
            {
                assert(line@.skip(i as int).skip(1) =~= line@.skip(i as int + 1));
                i += 1;
            }
            assert(word_len(line@.skip(i as int)) == 0);
            words.push(line.substring_char(start, i).to_owned());
            proof {
                let w = line@.subrange(start as int, i as int);
                assert(w =~= here.take(i - start));
                assert(here.skip(i - start) =~= line@.skip(i as int));
                assert(string_views(words@) =~= had.push(w));
                assert(had + words_of(here) =~= had.push(w) + words_of(line@.skip(i as int)));
            }
        }
    }
    assert(line@.skip(i as int) =~= Seq::empty());
    assert(string_views(words@) =~= words_of(line@));
    words
}

/// Whether a mnemonic has the right number of words.
pub fn word_count_ok(words: &Vec<String>) -> (ok: bool)
    ensures
        ok == (words@.len() == MNEMONIC_WORDS),
{
    words.len() == MNEMONIC_WORDS
}

/// A word has characters, and none of them is white space.
pub open spec fn solid(word: Seq<char>) -> bool {
    word.len() > 0 && forall|j: int| 0 <= j < word.len() ==> !is_white(#[trigger] word[j])
}

/// No word of a line is empty or has white space in it.
pub proof fn law_words_are_solid(s: Seq<char>)
    ensures
        forall|i: int| 0 <= i < words_of(s).len() ==> solid(#[trigger] words_of(s)[i]),
    decreases s.len(),
{
    if s.len() == 0 {
        assert(words_of(s).len() == 0);
    } else if is_white(s[0]) {
        law_words_are_solid(s.skip(1));
        assert(words_of(s) == words_of(s.skip(1)));
    } else {
        lemma_word_len(s);
        let n = word_len(s) as int;
        lemma_word_is_solid(s);
        law_words_are_solid(s.skip(n));
        let rest = words_of(s.skip(n));
        assert forall|i: int| 0 <= i < words_of(s).len() implies solid(
            #[trigger] words_of(s)[i],
        ) by {
            if i == 0 {
                assert(words_of(s)[0] == s.take(n));
            } else {
                assert(words_of(s)[i] == rest[i - 1]);
            }
        }
    }
}

proof fn lemma_word_is_solid(s: Seq<char>)
    ensures
        forall|j: int| 0 <= j < word_len(s) ==> j < s.len() && !is_white(#[trigger] s[j]),
    decreases s.len(),
{
    if s.len() > 0 && !is_white(s[0]) {
        lemma_word_is_solid(s.skip(1));
        lemma_word_len(s.skip(1));
        assert forall|j: int| 0 <= j < word_len(s) implies j < s.len() && !is_white(
            #[trigger] s[j],
        ) by {
            if j > 0 {
                assert(s.skip(1)[j - 1] == s[j]);
            }
        }
    }
}

/// White space before a line, and nothing at all, adds no word; a run without white space is one
/// word; a run, white space and a line are that word and the words of the line.
pub proof fn law_words_of_a_line(word: Seq<char>, gap: char, line: Seq<char>)
    requires
        is_white(gap),
        word.len() > 0,
        forall|j: int| 0 <= j < word.len() ==> !is_white(#[trigger] word[j]),
    ensures
        words_of(Seq::empty()).len() == 0,
        words_of(seq![gap] + line) == words_of(line),
        words_of(word) == seq![word],
        words_of(word + seq![gap] + line) == seq![word] + words_of(line),
{
    assert((seq![gap] + line).skip(1) =~= line);
    let e = Seq::<char>::empty();
    let n = word.len() as int;
    lemma_word_before(word, e);
    assert(word + e =~= word);
    assert(word.take(n) =~= word);
    assert(word.skip(n) =~= e);
    assert(words_of(e) =~= Seq::<Seq<char>>::empty());
    assert(words_of(word) =~= seq![word] + words_of(e));
    let tail = seq![gap] + line;
    let s = word + tail;
    assert(word + seq![gap] + line =~= s);
    lemma_word_before(word, tail);
    assert(s.take(n) =~= word);
    assert(s.skip(n) =~= tail);
    assert(s[0] == word[0]);
    assert(words_of(s) =~= seq![word] + words_of(tail));
}

proof fn lemma_word_before(word: Seq<char>, tail: Seq<char>)
    requires
        forall|j: int| 0 <= j < word.len() ==> !is_white(#[trigger] word[j]),
        tail.len() == 0 || is_white(tail[0]),
    ensures
        word_len(word + tail) == word.len(),
    decreases word.len(),
{
    let s = word + tail;
    if word.len() == 0 {
        assert(s =~= tail);
    } else {
        let w = word.skip(1);
        assert forall|j: int| 0 <= j < w.len() implies !is_white(#[trigger] w[j]) by {
            assert(!is_white(word[j + 1]));
        }
        lemma_word_before(w, tail);
        assert(s.skip(1) =~= w + tail);
        assert(s[0] == word[0]);
    }
}

/// What strings hold, and the words that a wallet's mnemonic has.
pub proof fn law_strings_hold(v: Seq<String>, i: int)
    ensures
        string_views(v).len() == v.len(),
        0 <= i < v.len() ==> string_views(v)[i] == v[i]@,
        MNEMONIC_WORDS == 22,
{
}

} // verus!
