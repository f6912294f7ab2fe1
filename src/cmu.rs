use vstd::prelude::*;
use vstd::slice::slice_subrange;
use crate::dictionary::{add_entry, well_formed_entries, Dictionary};
use crate::stress::{
    chars_of, is_digit, string_of, stresses_in, stresses_of, Pronunciation, Syllable,
};

verus! {

/// The index of the first two-space separator at or after `from`, or -1.
pub open spec fn separator_from(l: Seq<char>, from: int) -> int
    decreases l.len() - from,
{
    if from < 0 || from + 1 >= l.len() {
        -1
    } else if l[from] == ' ' && l[from + 1] == ' ' {
        from
    } else {
        separator_from(l, from + 1)
    }
}

/// The start of the run of digits that ends at `k`.
pub open spec fn digit_run_start(w: Seq<char>, k: int) -> int
    decreases k,
{
    if 0 < k <= w.len() && is_digit(w[k - 1]) {
        digit_run_start(w, k - 1)
    } else {
        k
    }
}

/// The dictionary key of an entry's word: `WORD(2)` names another
/// pronunciation of `WORD`, so a trailing variant number in brackets (one
/// or more digits) is dropped; any other word is kept as it is.
pub open spec fn base_word(w: Seq<char>) -> Seq<char> {
    let e = w.len() - 1;
    let s = digit_run_start(w, e);
    if w.len() > 0 && w.last() == ')' && s < e && s >= 1 && w[s - 1] == '(' {
        w.take(s - 1)
    } else {
        w
    }
}

/// A dictionary line read as its key and its pronunciation; `None` for a
/// malformed line.
pub open spec fn entry_of(l: Seq<char>) -> Option<(Seq<char>, Seq<Syllable>)> {
    let s = separator_from(l, 0);
    if s < 0 {
        None
    } else {
        match stresses_of(l.subrange(s + 2, l.len() as int)) {
            Some(p) => Some((base_word(l.take(s)), p)),
            None => None,
        }
    }
}

pub open spec fn is_comment(l: Seq<char>) -> bool {
    l.len() > 0 && l[0] == ';'
}

/// The dictionary after one more line: a comment changes nothing, an entry
/// without a stressed phoneme has no syllable and is passed over, and a
/// malformed line is an error that names it.
pub open spec fn load_step(
    m: Map<Seq<char>, Seq<Seq<Syllable>>>,
    l: Seq<char>,
) -> Result<Map<Seq<char>, Seq<Seq<Syllable>>>, Seq<char>> {
    if is_comment(l) {
        Ok(m)
    } else {
        match entry_of(l) {
            None => Err(l),
            Some(e) => if e.1.len() == 0 {
                Ok(m)
            } else {
                Ok(add_entry(m, e.0, e.1))
            },
        }
    }
}

/// The dictionary that a sequence of lines describes, or the first
/// malformed line.
pub open spec fn load_lines(ls: Seq<Seq<char>>) -> Result<
    Map<Seq<char>, Seq<Seq<Syllable>>>,
    Seq<char>,
>
    decreases ls.len(),
{
    if ls.len() == 0 {
        Ok(Map::empty())
    } else {
        match load_lines(ls.drop_last()) {
            Err(e) => Err(e),
            Ok(m) => load_step(m, ls.last()),
        }
    }
}

/// The pieces of `s` between line feeds; there is always at least one.
pub open spec fn segments(s: Seq<char>) -> Seq<Seq<char>>
    decreases s.len(),
{
    if s.len() == 0 {
        seq![Seq::empty()]
    } else {
        let r = segments(s.drop_last());
        if s.last() == '\n' {
            r.push(Seq::empty())
        } else {
            r.update(r.len() - 1, r.last().push(s.last()))
        }
    }
}

pub open spec fn strip_cr(l: Seq<char>) -> Seq<char> {
    if l.len() > 0 && l.last() == '\r' {
        l.drop_last()
    } else {
        l
    }
}

/// The lines of a text: a final line feed ends the last line rather than
/// starting an empty one, and a carriage return before a line feed is not
/// part of the line.
pub open spec fn lines_of(s: Seq<char>) -> Seq<Seq<char>> {
    let r = segments(s);
    let r2 = if r.last().len() == 0 {
        r.drop_last()
    } else {
        r
    };
    r2.map_values(|l: Seq<char>| strip_cr(l))
}

/// A dictionary line that could not be read.
#[derive(Clone, Debug)]
pub struct MalformedEntry {
    pub line: String,
}

/// A word and one of its pronunciations, as one dictionary line gives them.
#[derive(Debug)]
pub struct Word {
    pub word: String,
    pub pronunciation: Pronunciation,
}

fn find_separator(l: &[char]) -> (r: Option<usize>)
    ensures
        match r {
            Some(i) => separator_from(l@, 0) == i as int && i + 1 < l@.len(),
            None => separator_from(l@, 0) == -1,
        },
{
    let n = l.len();
    if n < 2 {
        return None;
    }
    let mut i: usize = 0;
    while i <= n - 2
        invariant
            n == l@.len(),
            n >= 2,
            i <= n - 1,
            separator_from(l@, 0) == separator_from(l@, i as int),
        decreases l@.len() - i,
    {
        if l[i] == ' ' && l[i + 1] == ' ' {
            return Some(i);
        }
        i += 1;
    }
    None
}

fn strip_variant(w: &[char]) -> (r: &[char])
    ensures
        r@ == base_word(w@),
{
    let n = w.len();
    if n == 0 || w[n - 1] != ')' {
        return w;
    }
    let e: usize = n - 1;
    let mut k: usize = e;
    while k > 0 && '0' <= w[k - 1] && w[k - 1] <= '9'
        invariant
            k <= e,
            e == n - 1,
            n == w@.len(),
            digit_run_start(w@, e as int) == digit_run_start(w@, k as int),
        decreases k,
    {
        k -= 1;
    }
    if k < e && k >= 1 && w[k - 1] == '(' {
        let r = slice_subrange(w, 0, k - 1);
        assert(r@ =~= w@.take(k - 1));
        r
    } else {
        w
    }
}

/// Reads one dictionary line, `WORD  PHONEME PHONEME ...`.
fn entry_in(l: &[char]) -> (r: Option<(String, Vec<Syllable>)>)
    ensures
        match r {
            Some(e) => entry_of(l@) == Some((e.0@, e.1@)),
            None => entry_of(l@) is None,
        },
{
    let n = l.len();
    match find_separator(l) {
        None => None,
        Some(s) => {
            let phonemes = slice_subrange(l, s + 2, n);
            match stresses_in(phonemes) {
                None => None,
                Some(p) => {
                    let w = strip_variant(slice_subrange(l, 0, s));
                    Some((string_of(w), p))
                },
            }
        },
    }
}

/// Reads one dictionary line into its key and its pronunciation.
pub fn process_cmu_entry(line: &str) -> (r: Result<(String, Pronunciation), MalformedEntry>)
    ensures
        match r {
            Ok(e) => entry_of(line@) == Some((e.0@, e.1@)),
            Err(err) => entry_of(line@) is None && err.line@ == line@,
        },
{
    let cs = chars_of(line);
    match entry_in(cs.as_slice()) {
        Some((word, syllables)) => Ok((word, Pronunciation { syllables })),
        None => Err(MalformedEntry { line: string_of(cs.as_slice()) }),
    }
}

impl Word {
    /// Reads one dictionary line into a word and its pronunciation.
    pub fn from_cmu_entry(line: &str) -> (r: Result<Word, MalformedEntry>)
        ensures
            match r {
                Ok(w) => entry_of(line@) == Some((w.word@, w.pronunciation@)),
                Err(err) => entry_of(line@) is None && err.line@ == line@,
            },
    {
        match process_cmu_entry(line) {
            Ok((word, pronunciation)) => Ok(Word { word, pronunciation }),
            Err(e) => Err(e),
        }
    }
}

/// Applies one line to the dictionary; on a malformed line the dictionary
/// is left as it was.
fn apply_line(dict: &mut Dictionary, line: &[char]) -> (ok: bool)
    requires
        old(dict).wf(),
    ensures
        final(dict).wf(),
        match load_step(old(dict)@, line@) {
            Ok(m) => ok && final(dict)@ == m,
            Err(_) => !ok && final(dict)@ == old(dict)@,
        },
{
    if line.len() > 0 && line[0] == ';' {
        return true;
    }
    match entry_in(line) {
        None => false,
        Some((word, syllables)) => {
            if syllables.len() > 0 {
                dict.add(word, Pronunciation { syllables });
            }
            true
        },
    }
}

fn without_cr(l: &[char]) -> (r: &[char])
    ensures
        r@ == strip_cr(l@),
{
    let n = l.len();
    if n > 0 && l[n - 1] == '\r' {
        let r = slice_subrange(l, 0, n - 1);
        assert(r@ =~= l@.drop_last());
        r
    } else {
        l
    }
}

proof fn lemma_load_push(done: Seq<Seq<char>>, cur: Seq<char>)
    ensures
        load_lines(done.push(cur).map_values(|l: Seq<char>| strip_cr(l))) == match load_lines(
            done.map_values(|l: Seq<char>| strip_cr(l)),
        ) {
            Err(e) => Err(e),
            Ok(m) => load_step(m, strip_cr(cur)),
        },
{
    let ls = done.push(cur).map_values(|l: Seq<char>| strip_cr(l));
    assert(ls.drop_last() =~= done.map_values(|l: Seq<char>| strip_cr(l)));
}

/// Builds a dictionary from the text of a pronouncing dictionary: one entry
/// per line, `WORD  PHONEME PHONEME ...`, where a phoneme's trailing digit
/// `0`, `1` or `2` gives an unstressed, primary or secondary syllable.
/// Lines that start with `;` are comments; `WORD(2)` adds a pronunciation to
/// `WORD`. Fails on the first line without the two-space separator or with
/// another stress digit.
pub fn cmu_dict_from_text(text: &str) -> (r: Result<Dictionary, MalformedEntry>)
    ensures
        match load_lines(lines_of(text@)) {
            Ok(m) => r is Ok && r->Ok_0@ == m && r->Ok_0.wf(),
            Err(l) => r is Err && r->Err_0.line@ == l,
        },
{
    let cs = chars_of(text);
    let mut dict = Dictionary::new();
    let mut failed: Option<MalformedEntry> = None;
    let mut cur: Vec<char> = Vec::new();
    let ghost mut done: Seq<Seq<char>> = Seq::empty();
    let mut i: usize = 0;
    assert(cs@.take(0) =~= Seq::<char>::empty());
    assert(seq![Seq::<char>::empty()] =~= done.push(cur@));
    while i < cs.len()
        invariant
            i <= cs@.len(),
            segments(cs@.take(i as int)) == done.push(cur@),
            dict.wf(),
            match load_lines(done.map_values(|l: Seq<char>| strip_cr(l))) {
                Ok(m) => failed is None && dict@ == m,
                Err(l) => failed is Some && failed->0.line@ == l,
            },
        decreases cs@.len() - i,
    {
        let c = cs[i];
        assert(cs@.take(i + 1).drop_last() =~= cs@.take(i as int));
        if c == '\n' {
            proof {
                lemma_load_push(done, cur@);
            }
            if failed.is_none() {
                let line = without_cr(cur.as_slice());
                if !apply_line(&mut dict, line) {
                    failed = Some(MalformedEntry { line: string_of(line) });
                }
            }
            proof {
                done = done.push(cur@);
            }
            cur = Vec::new();
            assert(segments(cs@.take(i + 1)) =~= done.push(cur@));
        } else {
            cur.push(c);
            assert(segments(cs@.take(i + 1)) =~= done.push(cur@));
        }
        i += 1;
    }
    assert(cs@.take(i as int) =~= cs@);
    if cur.len() > 0 {
        proof {
            lemma_load_push(done, cur@);
            assert(lines_of(cs@) =~= done.push(cur@).map_values(|l: Seq<char>| strip_cr(l)));
        }
        if failed.is_none() {
            let line = without_cr(cur.as_slice());
            if !apply_line(&mut dict, line) {
                failed = Some(MalformedEntry { line: string_of(line) });
            }
        }
    } else {
        assert(done.push(cur@).drop_last() =~= done);
        assert(lines_of(cs@) =~= done.map_values(|l: Seq<char>| strip_cr(l)));
    }
    match failed {
        Some(e) => Err(e),
        None => Ok(dict),
    }
}

/// Every dictionary that a text loads into lists at least one pronunciation
/// for each word, and every pronunciation has at least one syllable.
pub proof fn lemma_loaded_pronunciations_nonempty(ls: Seq<Seq<char>>)
    requires
        load_lines(ls) is Ok,
    ensures
        well_formed_entries(load_lines(ls)->Ok_0),
    decreases ls.len(),
{
    if ls.len() > 0 {
        lemma_loaded_pronunciations_nonempty(ls.drop_last());
        let m = load_lines(ls.drop_last())->Ok_0;
        let l = ls.last();
        if !is_comment(l) {
            let e = entry_of(l)->0;
            if e.1.len() > 0 {
                let m2 = add_entry(m, e.0, e.1);
                assert forall|k: Seq<char>| #[trigger] m2.contains_key(k) implies m2[k].len() > 0
                    && forall|j: int| 0 <= j < m2[k].len() ==> (#[trigger] m2[k][j]).len() >= 1 by {
                    if k != e.0 {
                        assert(m.contains_key(k));
                    } else if m.contains_key(k) {
                        assert forall|j: int| 0 <= j < m2[k].len() implies (#[trigger] m2[k][j]).len()
                            >= 1 by {
                            if j < m[k].len() {
                                assert(m2[k][j] == m[k][j]);
                            }
                        }
                    }
                }
            }
        }
    }
}

} // verus!
