use vstd::prelude::*;

verus! {

/// The stress level of one syllable.
#[derive(Copy, Clone, Debug, PartialEq, Eq, Structural)]
pub enum Syllable {
    PrimaryStress,
    SecondaryStress,
    Unstressed,
}

/// The syllable that a stress digit stands for: `0`, `1` or `2`.
pub open spec fn syllable_of_digit(c: char) -> Option<Syllable> {
    if c == '0' {
        Some(Syllable::Unstressed)
    } else if c == '1' {
        Some(Syllable::PrimaryStress)
    } else if c == '2' {
        Some(Syllable::SecondaryStress)
    } else {
        None
    }
}

/// The digit that writes a syllable's stress.
pub open spec fn digit_of_syllable(s: Syllable) -> char {
    match s {
        Syllable::Unstressed => '0',
        Syllable::PrimaryStress => '1',
        Syllable::SecondaryStress => '2',
    }
}

pub open spec fn is_digit(c: char) -> bool {
    '0' <= c && c <= '9'
}

/// The stresses that a phoneme string carries, one for each digit in it, in
/// order; `None` when a digit is not a stress digit.
pub open spec fn stresses_of(s: Seq<char>) -> Option<Seq<Syllable>>
    decreases s.len(),
{
    if s.len() == 0 {
        Some(Seq::empty())
    } else {
        match stresses_of(s.drop_last()) {
            None => None,
            Some(p) => {
                let c = s.last();
                if !is_digit(c) {
                    Some(p)
                } else {
                    match syllable_of_digit(c) {
                        Some(x) => Some(p.push(x)),
                        None => None,
                    }
                }
            },
        }
    }
}

impl Syllable {
    /// Reads a stress digit.
    pub fn from_char(c: char) -> (r: Option<Syllable>)
        ensures
            r == syllable_of_digit(c),
    {
        if c == '0' {
            Some(Syllable::Unstressed)
        } else if c == '1' {
            Some(Syllable::PrimaryStress)
        } else if c == '2' {
            Some(Syllable::SecondaryStress)
        } else {
            None
        }
    }

    pub fn to_digit(self) -> (r: char)
        ensures
            r == digit_of_syllable(self),
    {
        match self {
            Syllable::Unstressed => '0',
            Syllable::PrimaryStress => '1',
            Syllable::SecondaryStress => '2',
        }
    }
}

/// One way to say a word: its syllables' stresses, in order.
#[derive(Clone, Debug)]
pub struct Pronunciation {
    pub syllables: Vec<Syllable>,
}

impl View for Pronunciation {
    type V = Seq<Syllable>;

    open spec fn view(&self) -> Seq<Syllable> {
        self.syllables@
    }
}

/// Relies on `str::chars` collected into a `Vec`: the characters of the
/// string, in order.
#[verifier::external_body]
pub(crate) fn chars_of(s: &str) -> (r: Vec<char>)
    ensures
        r@ == s@,
{
    s.chars().collect()
}

/// Relies on collecting characters into a `String` (`FromIterator<char>`):
/// the string holds those characters, in order.
#[verifier::external_body]
pub(crate) fn string_of(v: &[char]) -> (r: String)
    ensures
        r@ == v@,
{
    v.iter().collect()
}

/// The stresses of a run of phoneme characters: a digit `0`, `1` or `2`
/// gives a syllable, another digit makes the run malformed, and every other
/// character carries no stress.
pub fn stresses_in(cs: &[char]) -> (r: Option<Vec<Syllable>>)
    ensures
        match r {
            Some(v) => stresses_of(cs@) == Some(v@),
            None => stresses_of(cs@) is None,
        },
{
    let mut out: Vec<Syllable> = Vec::new();
    let mut i: usize = 0;
    while i < cs.len()
        invariant
            i <= cs@.len(),
            stresses_of(cs@.take(i as int)) == Some(out@),
        decreases cs@.len() - i,
    {
        let c = cs[i];
        assert(cs@.take(i + 1).drop_last() =~= cs@.take(i as int));
        if '0' <= c && c <= '9' {
            match Syllable::from_char(c) {
                Some(x) => out.push(x),
                None => {
                    proof {
                        lemma_malformed_extends(cs@, i as int + 1);
                    }
                    return None;
                },
            }
        }
        i += 1;
    }
    assert(cs@.take(cs@.len() as int) =~= cs@);
    Some(out)
}

/// Once a prefix holds a bad stress digit, so does every longer one.
proof fn lemma_malformed_extends(s: Seq<char>, k: int)
    requires
        0 <= k <= s.len(),
        stresses_of(s.take(k)) is None,
    ensures
        stresses_of(s) is None,
    decreases s.len() - k,
{
    if k < s.len() {
        assert(s.take(k + 1).drop_last() =~= s.take(k));
        lemma_malformed_extends(s, k + 1);
    } else {
        assert(s.take(k) =~= s);
    }
}

impl Pronunciation {
    /// Reads the stresses out of a phoneme string such as `"AH0 B AW1 T"`, or
    /// out of a bare stress string such as `"1010"`.
    pub fn from_str(pronunciation_str: &str) -> (r: Option<Pronunciation>)
        ensures
            match r {
                Some(p) => stresses_of(pronunciation_str@) == Some(p@),
                None => stresses_of(pronunciation_str@) is None,
            },
    {
        let cs = chars_of(pronunciation_str);
        match stresses_in(cs.as_slice()) {
            Some(syllables) => Some(Pronunciation { syllables }),
            None => None,
        }
    }

    /// The number of syllables.
    pub fn len(&self) -> (r: usize)
        ensures
            r == self@.len(),
    {
        self.syllables.len()
    }

    /// The stresses written as digits, e.g. `"1010"`.
    pub fn to_digits(&self) -> (r: String)
        ensures
            r@ == self@.map_values(|s: Syllable| digit_of_syllable(s)),
    {
        let mut cs: Vec<char> = Vec::new();
        let mut i: usize = 0;
        while i < self.syllables.len()
            invariant
                i <= self@.len(),
                cs@ == self@.take(i as int).map_values(|s: Syllable| digit_of_syllable(s)),
            decreases self@.len() - i,
        {
            cs.push(self.syllables[i].to_digit());
            i += 1;
            assert(cs@ =~= self@.take(i as int).map_values(|s: Syllable| digit_of_syllable(s)));
        }
        assert(self@.take(i as int) =~= self@);
        string_of(cs.as_slice())
    }
}

} // verus!
