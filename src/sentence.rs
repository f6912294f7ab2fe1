use vstd::prelude::*;
use rayon::iter::{IntoParallelRefIterator, ParallelIterator};
use crate::dictionary::Dictionary;
use crate::stress::{chars_of, string_of};

verus! {

/// Whether `char::is_alphanumeric` holds of a character.
pub uninterp spec fn is_alphanumeric_char(c: char) -> bool;

/// A character with Unicode's White_Space property, which is what
/// `char::is_whitespace` tests.
pub open spec fn is_whitespace_char(c: char) -> bool {
    ('\u{9}' <= c && c <= '\u{d}') || c == ' ' || c == '\u{85}' || c == '\u{a0}' || c
        == '\u{1680}' || ('\u{2000}' <= c && c <= '\u{200a}') || c == '\u{2028}' || c
        == '\u{2029}' || c == '\u{202f}' || c == '\u{205f}' || c == '\u{3000}'
}

/// Relies on `char::is_alphanumeric`, which depends on the character alone.
#[verifier::external_body]
fn alphanumeric(c: char) -> (r: bool)
    ensures
        r == is_alphanumeric_char(c),
{
    c.is_alphanumeric()
}

fn whitespace(c: char) -> (r: bool)
    ensures
        r == is_whitespace_char(c),
{
    ('\u{9}' <= c && c <= '\u{d}') || c == ' ' || c == '\u{85}' || c == '\u{a0}' || c
        == '\u{1680}' || ('\u{2000}' <= c && c <= '\u{200a}') || c == '\u{2028}' || c
        == '\u{2029}' || c == '\u{202f}' || c == '\u{205f}' || c == '\u{3000}'
}

/// An ASCII lower-case letter in upper case; every other character as it is.
pub open spec fn ascii_upper(c: char) -> char {
    if 'a' <= c && c <= 'z' {
        ((c as u8) - 32) as char
    } else {
        c
    }
}

fn to_ascii_upper(c: char) -> (r: char)
    ensures
        r == ascii_upper(c),
{
    if 'a' <= c && c <= 'z' {
        ((c as u8) - 32) as char
    } else {
        c
    }
}

/// What one character contributes to a word: itself in upper case when it
/// is alphanumeric, nothing otherwise.
pub open spec fn kept(c: char) -> Seq<char> {
    if is_alphanumeric_char(c) {
        seq![ascii_upper(c)]
    } else {
        Seq::empty()
    }
}

/// The words finished so far, and the one being read.
pub open spec fn scan_words(s: Seq<char>) -> (Seq<Seq<char>>, Seq<char>)
    decreases s.len(),
{
    if s.len() == 0 {
        (Seq::empty(), Seq::empty())
    } else {
        let (done, cur) = scan_words(s.drop_last());
        let c = s.last();
        if is_whitespace_char(c) {
            if cur.len() > 0 {
                (done.push(cur), Seq::empty())
            } else {
                (done, cur)
            }
        } else {
            (done, cur + kept(c))
        }
    }
}

/// The words of a text: split at whitespace, each stripped of what is not
/// alphanumeric and put in upper case; words left empty are dropped.
pub open spec fn words_of(s: Seq<char>) -> Seq<Seq<char>> {
    let (done, cur) = scan_words(s);
    if cur.len() > 0 {
        done.push(cur)
    } else {
        done
    }
}

pub open spec fn strings_view(v: Seq<String>) -> Seq<Seq<char>> {
    v.map_values(|w: String| w@)
}

/// A phrase as the words that the dictionary is searched for.
#[derive(Debug)]
pub struct Sentence {
    sentence: String,
    words: Vec<String>,
}

impl View for Sentence {
    type V = Seq<Seq<char>>;

    closed spec fn view(&self) -> Seq<Seq<char>> {
        strings_view(self.words@)
    }
}

/// Relies on rayon's `par_iter` and `ParallelIterator::all`: true exactly
/// when every word is in the dictionary.
#[verifier::external_body]
fn all_known(words: &Vec<String>, dict: &Dictionary) -> (r: bool)
    ensures
        r == forall|k: int| 0 <= k < words@.len() ==> dict@.contains_key(#[trigger] words@[k]@),
{
    words.par_iter().all(|w| dict.contains(w))
}

impl Sentence {
    /// Splits a text into its normalised words.
    pub fn new(sentence: &str) -> (r: Sentence)
        ensures
            r@ == words_of(sentence@),
            r.text()@ == sentence@,
    {
        let cs = chars_of(sentence);
        let mut words: Vec<String> = Vec::new();
        let mut cur: Vec<char> = Vec::new();
        let mut i: usize = 0;
        assert(cs@.take(0) =~= Seq::<char>::empty());
        assert(strings_view(words@) =~= Seq::<Seq<char>>::empty());
        while i < cs.len()
            invariant
                i <= cs@.len(),
                scan_words(cs@.take(i as int)) == (strings_view(words@), cur@),
            decreases cs@.len() - i,
        {
            let c = cs[i];
            assert(cs@.take(i + 1).drop_last() =~= cs@.take(i as int));
            if whitespace(c) {
                if cur.len() > 0 {
                    let w = string_of(cur.as_slice());
                    let ghost before = words@;
                    words.push(w);
                    assert(strings_view(words@) =~= strings_view(before).push(cur@));
                    cur = Vec::new();
                }
            } else if alphanumeric(c) {
                let ghost before = cur@;
                cur.push(to_ascii_upper(c));
                assert(cur@ =~= before + kept(c));
            } else {
                assert(cur@ =~= cur@ + kept(c));
            }
            i += 1;
        }
        assert(cs@.take(i as int) =~= cs@);
        if cur.len() > 0 {
            let w = string_of(cur.as_slice());
            let ghost before = words@;
            words.push(w);
            assert(strings_view(words@) =~= strings_view(before).push(cur@));
        }
        Sentence { sentence: string_of(cs.as_slice()), words }
    }

    pub closed spec fn text(&self) -> String {
        self.sentence
    }

    /// The text the sentence was made from.
    pub fn as_str(&self) -> (r: &str)
        ensures
            r@ == self.text()@,
    {
        self.sentence.as_str()
    }

    /// The normalised words.
    pub fn words(&self) -> (r: &Vec<String>)
        ensures
            strings_view(r@) == self@,
    {
        &self.words
    }

    /// The number of words.
    pub fn len(&self) -> (r: usize)
        ensures
            r == self@.len(),
    {
        self.words.len()
    }

    /// Whether every word is in the dictionary.
    pub fn all_words_in_dict(&self, dict: &Dictionary) -> (r: bool)
        ensures
            r == forall|k: int| 0 <= k < self@.len() ==> dict@.contains_key(#[trigger] self@[k]),
    {
        let r = all_known(&self.words, dict);
        proof {
            if r {
                assert forall|k: int| 0 <= k < self@.len() implies dict@.contains_key(
                    #[trigger] self@[k],
                ) by {
                    assert(self@[k] == self.words@[k]@);
                }
            } else {
                let k = choose|k: int|
                    0 <= k < self.words@.len() && !dict@.contains_key(#[trigger] self.words@[k]@);
                assert(self@[k] == self.words@[k]@);
            }
        }
        r
    }
}

} // verus!
