use vstd::prelude::*;
use crate::dictionary::{prons_view, Dictionary};
use crate::enumerate::{
    assignments, copy_choices, enumerate, hits, leaves, lens_of, rows, syllable_total,
    valid_choice, within_budget, Enumeration,
};
use crate::meter::{fits, trochaic_tetrameter, PositionClass};
use crate::sentence::Sentence;
use crate::stress::{Pronunciation, Syllable};

verus! {

/// Why a search did not run.
#[derive(Clone, Debug)]
pub enum SearchError {
    /// The meter template does not have the requested number of syllables.
    TemplateLengthMismatch { template_len: usize, target: usize },
    /// A word of the sentence is not in the dictionary.
    UnknownWord(String),
}

/// The assignments that fit the meter, in the order the search found them.
#[derive(Debug)]
pub struct SearchOutcome {
    /// For each match, the pronunciation picked for each word.
    pub matches: Vec<Vec<usize>>,
    /// The budget ran out before every assignment was visited.
    pub truncated: bool,
}

/// Each word's pronunciations, as the dictionary lists them.
pub open spec fn options_view(o: Seq<Vec<Pronunciation>>) -> Seq<Seq<Seq<Syllable>>> {
    o.map_values(|v: Vec<Pronunciation>| prons_view(v@))
}

/// The syllable counts of each word's pronunciations.
pub open spec fn lens_table(opts: Seq<Seq<Seq<Syllable>>>) -> Seq<Seq<int>> {
    opts.map_values(|v: Seq<Seq<Syllable>>| v.map_values(|p: Seq<Syllable>| p.len() as int))
}

/// The stresses of an assignment: the chosen pronunciations, one after the
/// other.
pub open spec fn stress_seq(opts: Seq<Seq<Seq<Syllable>>>, a: Seq<usize>) -> Seq<Syllable>
    decreases a.len(),
{
    if a.len() == 0 {
        Seq::empty()
    } else {
        stress_seq(opts, a.drop_last()) + opts[a.len() - 1][a.last() as int]
    }
}

/// The assignments of `found` whose stresses fit the template, in order.
pub open spec fn fitting(
    opts: Seq<Seq<Seq<Syllable>>>,
    found: Seq<Seq<usize>>,
    template: Seq<PositionClass>,
) -> Seq<Seq<usize>>
    decreases found.len(),
{
    if found.len() == 0 {
        Seq::empty()
    } else {
        let sub = fitting(opts, found.drop_last(), template);
        if fits(stress_seq(opts, found.last()), template) {
            sub.push(found.last())
        } else {
            sub
        }
    }
}

/// Each word's pronunciations, looked up in the dictionary.
pub open spec fn word_options(
    dict: Map<Seq<char>, Seq<Seq<Syllable>>>,
    words: Seq<Seq<char>>,
) -> Seq<Seq<Seq<Syllable>>> {
    words.map_values(|w: Seq<char>| dict[w])
}

/// `k` is the first word of the sentence that the dictionary lacks.
pub open spec fn first_unknown(
    dict: Map<Seq<char>, Seq<Seq<Syllable>>>,
    words: Seq<Seq<char>>,
    k: int,
) -> bool {
    &&& 0 <= k < words.len()
    &&& !dict.contains_key(words[k])
    &&& forall|q: int| 0 <= q < k ==> dict.contains_key(#[trigger] words[q])
}

/// What a search of the sentence's words owes: the matches among the
/// assignments reached within the budget of leaves, and whether the budget
/// cut the search short. Every match picks one pronunciation per word, and
/// their syllables add up to exactly `n`.
pub open spec fn search_result(
    dict: Map<Seq<char>, Seq<Seq<Syllable>>>,
    words: Seq<Seq<char>>,
    n: int,
    template: Seq<PositionClass>,
    budget: int,
    r: SearchOutcome,
) -> bool {
    let opts = word_options(dict, words);
    let lv = leaves(lens_table(opts), n);
    let found = rows(r.matches@);
    &&& r.truncated == (lv.len() > budget)
    &&& found == fitting(opts, hits(within_budget(lv, budget)), template)
    &&& !r.truncated ==> found == fitting(opts, assignments(lens_table(opts), n), template)
    &&& forall|k: int|
        0 <= k < found.len() ==> valid_choice(lens_table(opts), 0, #[trigger] found[k])
            && syllable_total(lens_table(opts), 0, found[k]) == n
}

fn copy_pronunciation(p: &Pronunciation) -> (r: Pronunciation)
    ensures
        r@ == p@,
{
    let mut syllables: Vec<Syllable> = Vec::new();
    let mut i: usize = 0;
    while i < p.syllables.len()
        invariant
            i <= p@.len(),
            syllables@ == p@.take(i as int),
        decreases p@.len() - i,
    {
        syllables.push(p.syllables[i]);
        i += 1;
        assert(syllables@ =~= p@.take(i as int));
    }
    assert(p@.take(i as int) =~= p@);
    Pronunciation { syllables }
}

fn copy_pronunciations(v: &Vec<Pronunciation>) -> (r: Vec<Pronunciation>)
    ensures
        prons_view(r@) == prons_view(v@),
{
    let mut r: Vec<Pronunciation> = Vec::new();
    let mut i: usize = 0;
    while i < v.len()
        invariant
            i <= v@.len(),
            prons_view(r@) == prons_view(v@.take(i as int)),
        decreases v@.len() - i,
    {
        let ghost before = r@;
        r.push(copy_pronunciation(&v[i]));
        i += 1;
        assert(prons_view(r@) =~= prons_view(before).push(v@[i - 1]@));
        assert(prons_view(r@) =~= prons_view(v@.take(i as int)));
    }
    assert(v@.take(i as int) =~= v@);
    r
}

proof fn lemma_lens_agree(o: Seq<Vec<Pronunciation>>)
    ensures
        lens_of(o) == lens_table(options_view(o)),
{
    assert forall|i: int| 0 <= i < o.len() implies #[trigger] lens_of(o)[i] == lens_table(
        options_view(o),
    )[i] by {
        assert(lens_of(o)[i] =~= lens_table(options_view(o))[i]);
    }
    assert(lens_of(o) =~= lens_table(options_view(o)));
}

/// Looks up every word, failing on the first one the dictionary lacks.
fn options_for(words: &Vec<String>, dict: &Dictionary) -> (r: Result<Vec<Vec<Pronunciation>>, String>)
    ensures
        match r {
            Ok(o) => (forall|k: int| 0 <= k < words@.len() ==> dict@.contains_key(#[trigger] words@[k]@))
                && options_view(o@) == word_options(dict@, words@.map_values(|w: String| w@)),
            Err(w) => exists|k: int|
                first_unknown(dict@, words@.map_values(|w: String| w@), k) && w@ == words@[k]@,
        },
{
    let ghost ws = words@.map_values(|w: String| w@);
    let mut o: Vec<Vec<Pronunciation>> = Vec::new();
    let mut i: usize = 0;
    while i < words.len()
        invariant
            ws == words@.map_values(|w: String| w@),
            i <= words@.len(),
            forall|k: int| 0 <= k < i ==> dict@.contains_key(#[trigger] ws[k]),
            options_view(o@) == word_options(dict@, ws.take(i as int)),
        decreases words@.len() - i,
    {
        match dict.lookup(words[i].as_str()) {
            None => {
                assert(first_unknown(dict@, ws, i as int));
                return Err(words[i].clone());
            },
            Some(v) => {
                let ghost before = o@;
                o.push(copy_pronunciations(v));
                assert(options_view(o@) =~= options_view(before).push(dict@[ws[i as int]]));
                i += 1;
                assert(options_view(o@) =~= word_options(dict@, ws.take(i as int)));
            },
        }
    }
    assert(ws.take(i as int) =~= ws);
    assert forall|k: int| 0 <= k < words@.len() implies dict@.contains_key(#[trigger] words@[k]@) by {
        assert(ws[k] == words@[k]@);
    }
    Ok(o)
}

/// The stresses of one assignment.
fn stresses_of_choice(options: &Vec<Vec<Pronunciation>>, a: &Vec<usize>) -> (r: Vec<Syllable>)
    requires
        valid_choice(lens_of(options@), 0, a@),
    ensures
        r@ == stress_seq(options_view(options@), a@),
{
    let ghost opts = options_view(options@);
    let mut r: Vec<Syllable> = Vec::new();
    let mut k: usize = 0;
    while k < a.len()
        invariant
            opts == options_view(options@),
            valid_choice(lens_of(options@), 0, a@),
            k <= a@.len(),
            r@ == stress_seq(opts, a@.take(k as int)),
        decreases a@.len() - k,
    {
        assert(a@.take(k + 1).drop_last() =~= a@.take(k as int));
        assert(a@[k as int] < lens_of(options@)[k as int].len());
        let p = &options[k][a[k]];
        let ghost before = r@;
        let mut j: usize = 0;
        while j < p.syllables.len()
            invariant
                j <= p@.len(),
                r@ == before + p@.take(j as int),
            decreases p@.len() - j,
        {
            r.push(p.syllables[j]);
            j += 1;
            assert(r@ =~= before + p@.take(j as int));
        }
        assert(p@.take(j as int) =~= p@);
        assert(opts[k as int][a@[k as int] as int] == p@);
        k += 1;
    }
    assert(a@.take(k as int) =~= a@);
    r
}

/// Searches the assignments of one pronunciation per word whose syllables
/// add up to `n`, in depth-first order and within a budget of `budget`
/// leaves reached, and keeps those whose stresses fit the template.
pub fn search(
    sentence: &Sentence,
    dict: &Dictionary,
    n: usize,
    template: &[PositionClass],
    budget: usize,
) -> (r: Result<SearchOutcome, SearchError>)
    ensures
        template@.len() != n ==> (match r {
            Err(SearchError::TemplateLengthMismatch { template_len, target }) => template_len
                == template@.len() && target == n,
            _ => false,
        }),
        template@.len() == n ==> match r {
            Ok(out) => (forall|k: int|
                0 <= k < sentence@.len() ==> dict@.contains_key(#[trigger] sentence@[k]))
                && search_result(dict@, sentence@, n as int, template@, budget as int, out),
            Err(SearchError::UnknownWord(w)) => exists|k: int|
                first_unknown(dict@, sentence@, k) && w@ == sentence@[k],
            Err(SearchError::TemplateLengthMismatch { .. }) => false,
        },
{
    if template.len() != n {
        return Err(SearchError::TemplateLengthMismatch { template_len: template.len(), target: n });
    }
    let words = sentence.words();
    assert(words@.map_values(|w: String| w@) =~= sentence@);
    let options = match options_for(words, dict) {
        Ok(o) => o,
        Err(w) => {
            return Err(SearchError::UnknownWord(w));
        },
    };
    let ghost opts = options_view(options@);
    proof {
        lemma_lens_agree(options@);
        assert forall|w: int| 0 <= w < options@.len() implies #[trigger] options@[w]@.len()
            <= usize::MAX by {
            assert(options@[w]@.len() == options@[w].len());
        }
    }
    let found = enumerate(&options, n, budget);
    let ghost l = lens_of(options@);
    let ghost visited = rows(found.assignments@);
    let mut kept: Vec<Vec<usize>> = Vec::new();
    let mut i: usize = 0;
    while i < found.assignments.len()
        invariant
            opts == options_view(options@),
            l == lens_of(options@),
            visited == rows(found.assignments@),
            forall|k: int|
                0 <= k < visited.len() ==> valid_choice(l, 0, #[trigger] visited[k])
                    && syllable_total(l, 0, visited[k]) == n,
            i <= found.assignments@.len(),
            rows(kept@) == fitting(opts, visited.take(i as int), template@),
            forall|k: int|
                0 <= k < kept@.len() ==> valid_choice(l, 0, #[trigger] rows(kept@)[k])
                    && syllable_total(l, 0, rows(kept@)[k]) == n,
        decreases found.assignments@.len() - i,
    {
        let a = &found.assignments[i];
        assert(visited[i as int] == a@);
        let s = stresses_of_choice(&options, a);
        let ok = match crate::meter::matches(s.as_slice(), template) {
            Ok(b) => b,
            Err(_) => false,
        };
        assert(visited.take(i + 1).drop_last() =~= visited.take(i as int));
        assert(visited.take(i + 1).last() == a@);
        if ok {
            let ghost before = kept@;
            kept.push(copy_choices(a));
            assert(rows(kept@) =~= rows(before).push(a@));
        }
        i += 1;
    }
    assert(visited.take(i as int) =~= visited);
    assert forall|k: int| 0 <= k < rows(kept@).len() implies valid_choice(l, 0, #[trigger] rows(kept@)[k])
        && syllable_total(l, 0, rows(kept@)[k]) == n by {
        assert(rows(kept@)[k] == rows(kept@)[k]);
    }
    Ok(SearchOutcome { matches: kept, truncated: found.truncated })
}

impl Sentence {
    /// Enumerates the ways to say the sentence in exactly `n` syllables, in
    /// depth-first order, reaching at most `budget` leaves of the search.
    pub fn n_syllable_pronunciations(&self, dict: &Dictionary, n: usize, budget: usize) -> (r: Result<
        Enumeration,
        SearchError,
    >)
        ensures
            match r {
                Ok(e) => (forall|k: int|
                    0 <= k < self@.len() ==> dict@.contains_key(#[trigger] self@[k])) && ({
                    let l = lens_table(word_options(dict@, self@));
                    let lv = leaves(l, n as int);
                    let found = rows(e.assignments@);
                    &&& e.truncated == (lv.len() > budget)
                    &&& found == hits(within_budget(lv, budget as int))
                    &&& !e.truncated ==> found == assignments(l, n as int)
                    &&& forall|k: int|
                        0 <= k < found.len() ==> valid_choice(l, 0, #[trigger] found[k])
                            && syllable_total(l, 0, found[k]) == n
                }),
                Err(SearchError::UnknownWord(w)) => exists|k: int|
                    first_unknown(dict@, self@, k) && w@ == self@[k],
                Err(SearchError::TemplateLengthMismatch { .. }) => false,
            },
    {
        let words = self.words();
        assert(words@.map_values(|w: String| w@) =~= self@);
        match options_for(words, dict) {
            Ok(options) => {
                proof {
                    lemma_lens_agree(options@);
                }
                Ok(enumerate(&options, n, budget))
            },
            Err(w) => Err(SearchError::UnknownWord(w)),
        }
    }

    /// Whether the sentence can be said in trochaic tetrameter: the
    /// assignments of exactly eight syllables, stressed on the odd syllables
    /// and unstressed on the even ones.
    pub fn turtle_trochaic_tetrameter(&self, dict: &Dictionary, budget: usize) -> (r: Result<
        SearchOutcome,
        SearchError,
    >)
        ensures
            match r {
                Ok(out) => (forall|k: int|
                    0 <= k < self@.len() ==> dict@.contains_key(#[trigger] self@[k]))
                    && search_result(
                    dict@,
                    self@,
                    8,
                    Seq::new(8, |p: int| crate::meter::trochaic_class(p)),
                    budget as int,
                    out,
                ),
                Err(SearchError::UnknownWord(w)) => exists|k: int|
                    first_unknown(dict@, self@, k) && w@ == self@[k],
                Err(SearchError::TemplateLengthMismatch { .. }) => false,
            },
    {
        let t = trochaic_tetrameter();
        assert(t@ =~= Seq::new(8, |p: int| crate::meter::trochaic_class(p)));
        search(self, dict, 8, t.as_slice(), budget)
    }
}

} // verus!
