use vstd::prelude::*;
use crate::stress::Pronunciation;

verus! {

/// The syllable counts of each word's pronunciations, word by word.
pub open spec fn lens_of(options: Seq<Vec<Pronunciation>>) -> Seq<Seq<int>> {
    options.map_values(|v: Vec<Pronunciation>| v@.map_values(|p: Pronunciation| p@.len() as int))
}

/// Puts `p` in front of every sequence of `s`.
pub open spec fn prefix_all(p: Seq<usize>, s: Seq<Seq<usize>>) -> Seq<Seq<usize>> {
    s.map_values(|a: Seq<usize>| p + a)
}

/// The choices for words `i..` whose syllable counts add up to `m`, in
/// depth-first order: the first word's options in their stored order, and
/// under each, the choices for the remaining words.
pub open spec fn choices_from(lens: Seq<Seq<int>>, i: int, m: int) -> Seq<Seq<usize>>
    decreases lens.len() - i, 1int, 0int,
{
    if 0 <= i < lens.len() {
        choices_with(lens, i, 0, m)
    } else if m == 0 {
        seq![Seq::empty()]
    } else {
        Seq::empty()
    }
}

/// The part of `choices_from(lens, i, m)` that picks option `j` or a later
/// one for word `i`.
pub open spec fn choices_with(lens: Seq<Seq<int>>, i: int, j: int, m: int) -> Seq<Seq<usize>>
    decreases lens.len() - i, 0int, lens[i].len() - j,
{
    if 0 <= i < lens.len() && 0 <= j < lens[i].len() {
        prefix_all(seq![j as usize], choices_from(lens, i + 1, m - lens[i][j])) + choices_with(
            lens,
            i,
            j + 1,
            m,
        )
    } else {
        Seq::empty()
    }
}

/// Every complete choice of one option per word whose syllable counts add up
/// to `n`, in depth-first order.
pub open spec fn assignments(lens: Seq<Seq<int>>, n: int) -> Seq<Seq<usize>> {
    choices_from(lens, 0, n)
}

/// `a` picks an existing option for each word from `i` on.
pub open spec fn valid_choice(lens: Seq<Seq<int>>, i: int, a: Seq<usize>) -> bool {
    &&& 0 <= i <= lens.len()
    &&& a.len() == lens.len() - i
    &&& forall|k: int| 0 <= k < a.len() ==> (#[trigger] a[k]) < lens[i + k].len()
}

/// The syllables that the choices `a` for words `i..` add up to.
pub open spec fn syllable_total(lens: Seq<Seq<int>>, i: int, a: Seq<usize>) -> int
    decreases a.len(),
{
    if a.len() == 0 {
        0
    } else {
        lens[i][a[0] as int] + syllable_total(lens, i + 1, a.drop_first())
    }
}

pub open spec fn min_of(s: Seq<int>) -> int
    decreases s.len(),
{
    if s.len() == 0 {
        0
    } else if s.len() == 1 {
        s[0]
    } else {
        let a = min_of(s.drop_last());
        if s.last() < a {
            s.last()
        } else {
            a
        }
    }
}

pub open spec fn max_of(s: Seq<int>) -> int
    decreases s.len(),
{
    if s.len() == 0 {
        0
    } else if s.len() == 1 {
        s[0]
    } else {
        let a = max_of(s.drop_last());
        if s.last() > a {
            s.last()
        } else {
            a
        }
    }
}

/// The fewest syllables that words `i..` can take.
pub open spec fn min_suffix(lens: Seq<Seq<int>>, i: int) -> int
    decreases lens.len() - i,
{
    if 0 <= i < lens.len() {
        min_of(lens[i]) + min_suffix(lens, i + 1)
    } else {
        0
    }
}

/// The most syllables that words `i..` can take.
pub open spec fn max_suffix(lens: Seq<Seq<int>>, i: int) -> int
    decreases lens.len() - i,
{
    if 0 <= i < lens.len() {
        max_of(lens[i]) + max_suffix(lens, i + 1)
    } else {
        0
    }
}

pub open spec fn capped(x: int) -> int {
    if x > usize::MAX {
        usize::MAX as int
    } else {
        x
    }
}

pub open spec fn rows(v: Seq<Vec<usize>>) -> Seq<Seq<usize>> {
    v.map_values(|a: Vec<usize>| a@)
}

/// Every word has no more options than a `usize` can count.
pub open spec fn countable(lens: Seq<Seq<int>>) -> bool {
    forall|i: int| 0 <= i < lens.len() ==> #[trigger] lens[i].len() <= usize::MAX
}

pub open spec fn nonneg(lens: Seq<Seq<int>>) -> bool {
    forall|i: int, j: int| 0 <= i < lens.len() && 0 <= j < lens[i].len() ==> 0 <= #[trigger] lens[i][j]
}

proof fn lemma_min_max(s: Seq<int>, j: int)
    requires
        0 <= j < s.len(),
    ensures
        min_of(s) <= s[j] <= max_of(s),
    decreases s.len(),
{
    if s.len() > 1 && j < s.len() - 1 {
        lemma_min_max(s.drop_last(), j);
    }
}

proof fn lemma_min_nonneg(s: Seq<int>)
    requires
        forall|j: int| 0 <= j < s.len() ==> 0 <= #[trigger] s[j],
    ensures
        0 <= min_of(s),
    decreases s.len(),
{
    if s.len() > 1 {
        lemma_min_nonneg(s.drop_last());
    }
}

proof fn lemma_prefix_all_add(p: Seq<usize>, a: Seq<Seq<usize>>, b: Seq<Seq<usize>>)
    ensures
        prefix_all(p, a + b) == prefix_all(p, a) + prefix_all(p, b),
{
    assert(prefix_all(p, a + b) =~= prefix_all(p, a) + prefix_all(p, b));
}

proof fn lemma_prefix_all_take(p: Seq<usize>, a: Seq<Seq<usize>>, k: int)
    requires
        0 <= k <= a.len(),
    ensures
        prefix_all(p, a.take(k)) == prefix_all(p, a).take(k),
{
    assert(prefix_all(p, a.take(k)) =~= prefix_all(p, a).take(k));
}

proof fn lemma_prefix_all_compose(p: Seq<usize>, j: usize, a: Seq<Seq<usize>>)
    ensures
        prefix_all(p, prefix_all(seq![j], a)) == prefix_all(p.push(j), a),
{
    assert forall|k: int| 0 <= k < a.len() implies #[trigger] prefix_all(
        p,
        prefix_all(seq![j], a),
    )[k] == prefix_all(p.push(j), a)[k] by {
        assert(p + (seq![j] + a[k]) =~= p.push(j) + a[k]);
    }
    assert(prefix_all(p, prefix_all(seq![j], a)) =~= prefix_all(p.push(j), a));
}

/// A target below the fewest or above the most syllables that words `i..`
/// can take has no choices.
proof fn lemma_choices_bounds(lens: Seq<Seq<int>>, i: int, m: int)
    requires
        nonneg(lens),
    ensures
        choices_from(lens, i, m).len() > 0 ==> min_suffix(lens, i) <= m <= max_suffix(lens, i),
        choices_from(lens, i, m).len() > 0 ==> 0 <= m,
    decreases lens.len() - i, 1int, 0int,
{
    if 0 <= i < lens.len() {
        lemma_choices_with_bounds(lens, i, 0, m);
    }
}

proof fn lemma_choices_with_bounds(lens: Seq<Seq<int>>, i: int, j: int, m: int)
    requires
        nonneg(lens),
        0 <= i < lens.len(),
        0 <= j,
    ensures
        choices_with(lens, i, j, m).len() > 0 ==> min_suffix(lens, i) <= m <= max_suffix(lens, i),
        choices_with(lens, i, j, m).len() > 0 ==> 0 <= m,
    decreases lens.len() - i, 0int, lens[i].len() - j,
{
    if j < lens[i].len() {
        let l = lens[i][j];
        lemma_choices_bounds(lens, i + 1, m - l);
        lemma_choices_with_bounds(lens, i, j + 1, m);
        lemma_min_max(lens[i], j);
        assert(0 <= lens[i][j]);
    }
}

/// Each choice for words `i..` that adds up to `m` picks an existing option
/// for each of those words, and its syllables add up to `m`.
proof fn lemma_choices_valid(lens: Seq<Seq<int>>, i: int, m: int, k: int)
    requires
        countable(lens),
        0 <= i <= lens.len(),
        0 <= k < choices_from(lens, i, m).len(),
    ensures
        valid_choice(lens, i, choices_from(lens, i, m)[k]),
        syllable_total(lens, i, choices_from(lens, i, m)[k]) == m,
    decreases lens.len() - i, 1int, 0int,
{
    if i < lens.len() {
        lemma_choices_with_valid(lens, i, 0, m, k);
    }
}

proof fn lemma_choices_with_valid(lens: Seq<Seq<int>>, i: int, j: int, m: int, k: int)
    requires
        countable(lens),
        0 <= i < lens.len(),
        0 <= j,
        0 <= k < choices_with(lens, i, j, m).len(),
    ensures
        valid_choice(lens, i, choices_with(lens, i, j, m)[k]),
        syllable_total(lens, i, choices_with(lens, i, j, m)[k]) == m,
    decreases lens.len() - i, 0int, lens[i].len() - j,
{
    if j < lens[i].len() {
        let rest = choices_from(lens, i + 1, m - lens[i][j]);
        let head = prefix_all(seq![j as usize], rest);
        let all = choices_with(lens, i, j, m);
        assert(all == head + choices_with(lens, i, j + 1, m));
        if k < head.len() {
            lemma_choices_valid(lens, i + 1, m - lens[i][j], k);
            let a = all[k];
            assert(a == seq![j as usize] + rest[k]);
            assert(a.drop_first() =~= rest[k]);
            assert forall|q: int| 0 <= q < a.len() implies (#[trigger] a[q]) < lens[i + q].len() by {
                if q > 0 {
                    assert(a[q] == rest[k][q - 1]);
                }
            }
        } else {
            lemma_choices_with_valid(lens, i, j + 1, m, k - head.len());
        }
    }
}

/// Every choice that the enumeration yields picks one existing option per
/// word, and the syllables of the chosen pronunciations add up to exactly
/// the target.
pub proof fn lemma_assignment_total(options: Seq<Vec<Pronunciation>>, n: int, k: int)
    requires
        forall|w: int| 0 <= w < options.len() ==> #[trigger] options[w]@.len() <= usize::MAX,
        0 <= k < assignments(lens_of(options), n).len(),
    ensures
        valid_choice(lens_of(options), 0, assignments(lens_of(options), n)[k]),
        syllable_total(lens_of(options), 0, assignments(lens_of(options), n)[k]) == n,
{
    assert(countable(lens_of(options)));
    lemma_choices_valid(lens_of(options), 0, n, k);
}

/// Every choice in `choices_with(lens, i, j, m)` picks option `j` or a later
/// one for word `i`.
proof fn lemma_choices_with_first(lens: Seq<Seq<int>>, i: int, j: int, m: int, k: int)
    requires
        countable(lens),
        0 <= i < lens.len(),
        0 <= j,
        0 <= k < choices_with(lens, i, j, m).len(),
    ensures
        choices_with(lens, i, j, m)[k].len() > 0,
        j <= choices_with(lens, i, j, m)[k][0],
    decreases lens[i].len() - j,
{
    if j < lens[i].len() {
        let head = prefix_all(seq![j as usize], choices_from(lens, i + 1, m - lens[i][j]));
        if k >= head.len() {
            lemma_choices_with_first(lens, i, j + 1, m, k - head.len());
        }
    }
}

proof fn lemma_choices_distinct(lens: Seq<Seq<int>>, i: int, m: int, k1: int, k2: int)
    requires
        countable(lens),
        0 <= i <= lens.len(),
        0 <= k1 < k2 < choices_from(lens, i, m).len(),
    ensures
        choices_from(lens, i, m)[k1] != choices_from(lens, i, m)[k2],
    decreases lens.len() - i, 1int, 0int,
{
    if i < lens.len() {
        lemma_choices_with_distinct(lens, i, 0, m, k1, k2);
    }
}

proof fn lemma_choices_with_distinct(lens: Seq<Seq<int>>, i: int, j: int, m: int, k1: int, k2: int)
    requires
        countable(lens),
        0 <= i < lens.len(),
        0 <= j,
        0 <= k1 < k2 < choices_with(lens, i, j, m).len(),
    ensures
        choices_with(lens, i, j, m)[k1] != choices_with(lens, i, j, m)[k2],
    decreases lens.len() - i, 0int, lens[i].len() - j,
{
    if j < lens[i].len() {
        let rest = choices_from(lens, i + 1, m - lens[i][j]);
        let head = prefix_all(seq![j as usize], rest);
        let all = choices_with(lens, i, j, m);
        assert(all == head + choices_with(lens, i, j + 1, m));
        if k2 < head.len() {
            lemma_choices_distinct(lens, i + 1, m - lens[i][j], k1, k2);
            assert(all[k1].drop_first() =~= rest[k1]);
            assert(all[k2].drop_first() =~= rest[k2]);
        } else if k1 < head.len() {
            lemma_choices_with_first(lens, i, j + 1, m, k2 - head.len());
            assert(all[k1][0] == j as usize);
        } else {
            lemma_choices_with_distinct(lens, i, j + 1, m, k1 - head.len(), k2 - head.len());
        }
    }
}

proof fn lemma_choices_complete(lens: Seq<Seq<int>>, i: int, m: int, a: Seq<usize>)
    requires
        valid_choice(lens, i, a),
        syllable_total(lens, i, a) == m,
    ensures
        choices_from(lens, i, m).contains(a),
    decreases lens.len() - i, 1int, 0int,
{
    if i < lens.len() {
        lemma_choices_with_complete(lens, i, 0, m, a);
    } else {
        assert(a =~= Seq::<usize>::empty());
        assert(choices_from(lens, i, m)[0] == a);
    }
}

proof fn lemma_choices_with_complete(lens: Seq<Seq<int>>, i: int, j: int, m: int, a: Seq<usize>)
    requires
        valid_choice(lens, i, a),
        i < lens.len(),
        syllable_total(lens, i, a) == m,
        0 <= j <= a[0],
    ensures
        choices_with(lens, i, j, m).contains(a),
    decreases lens.len() - i, 0int, lens[i].len() - j,
{
    assert(a[0] < lens[i].len());
    let rest = choices_from(lens, i + 1, m - lens[i][j]);
    let head = prefix_all(seq![j as usize], rest);
    let all = choices_with(lens, i, j, m);
    assert(all == head + choices_with(lens, i, j + 1, m));
    if j == a[0] {
        let t = a.drop_first();
        assert(valid_choice(lens, i + 1, t)) by {
            assert forall|k: int| 0 <= k < t.len() implies (#[trigger] t[k]) < lens[i + 1 + k].len() by {
                assert(t[k] == a[k + 1]);
            }
        }
        lemma_choices_complete(lens, i + 1, m - lens[i][j], t);
        let q = choose|q: int| 0 <= q < rest.len() && #[trigger] rest[q] == t;
        assert(seq![j as usize] + t =~= a);
        assert(all[q] == a);
    } else {
        lemma_choices_with_complete(lens, i, j + 1, m, a);
        let tail = choices_with(lens, i, j + 1, m);
        let q = choose|q: int| 0 <= q < tail.len() && #[trigger] tail[q] == a;
        assert(all[head.len() + q] == a);
    }
}

/// The enumeration yields each assignment at most once.
pub proof fn lemma_assignments_distinct(options: Seq<Vec<Pronunciation>>, n: int, k1: int, k2: int)
    requires
        forall|w: int| 0 <= w < options.len() ==> #[trigger] options[w]@.len() <= usize::MAX,
        0 <= k1 < assignments(lens_of(options), n).len(),
        0 <= k2 < assignments(lens_of(options), n).len(),
        k1 != k2,
    ensures
        assignments(lens_of(options), n)[k1] != assignments(lens_of(options), n)[k2],
{
    assert(countable(lens_of(options)));
    if k1 < k2 {
        lemma_choices_distinct(lens_of(options), 0, n, k1, k2);
    } else {
        lemma_choices_distinct(lens_of(options), 0, n, k2, k1);
    }
}

/// The enumeration misses no assignment: every choice of one pronunciation
/// per word whose syllables add up to `n` is among those it yields.
pub proof fn lemma_assignments_complete(options: Seq<Vec<Pronunciation>>, n: int, a: Seq<usize>)
    requires
        valid_choice(lens_of(options), 0, a),
        syllable_total(lens_of(options), 0, a) == n,
    ensures
        assignments(lens_of(options), n).contains(a),
{
    lemma_choices_complete(lens_of(options), 0, n, a);
}

/// The outcome of an enumeration under a budget of leaves.
#[derive(Debug)]
pub struct Enumeration {
    /// For each assignment found, the option picked for each word.
    pub assignments: Vec<Vec<usize>>,
    /// The budget of leaves ran out before the search was exhausted.
    pub truncated: bool,
}

pub(crate) fn copy_choices(v: &Vec<usize>) -> (r: Vec<usize>)
    ensures
        r@ == v@,
{
    let mut r: Vec<usize> = Vec::new();
    let mut i: usize = 0;
    while i < v.len()
        invariant
            i <= v@.len(),
            r@ == v@.take(i as int),
        decreases v@.len() - i,
    {
        r.push(v[i]);
        i += 1;
        assert(r@ =~= v@.take(i as int));
    }
    assert(v@.take(i as int) =~= v@);
    r
}

pub open spec fn lens_view(lens: Seq<Vec<usize>>) -> Seq<Seq<int>> {
    lens.map_values(|v: Vec<usize>| v@.map_values(|x: usize| x as int))
}

/// What the search holds fixed: the syllable counts and their suffix bounds.
pub open spec fn search_tables(
    lens: &Vec<Vec<usize>>,
    min_suf: &Vec<usize>,
    max_suf: &Vec<usize>,
) -> bool {
    &&& min_suf@.len() == lens@.len() + 1
    &&& max_suf@.len() == lens@.len() + 1
    &&& forall|k: int|
        0 <= k <= lens@.len() ==> #[trigger] min_suf@[k] == capped(min_suffix(lens_view(lens@), k))
    &&& forall|k: int|
        0 <= k <= lens@.len() ==> #[trigger] max_suf@[k] == capped(max_suffix(lens_view(lens@), k))
}

proof fn lemma_lens_nonneg(lens: Seq<Vec<usize>>)
    ensures
        nonneg(lens_view(lens)),
{
    assert forall|i: int, j: int|
        0 <= i < lens_view(lens).len() && 0 <= j < lens_view(lens)[i].len() implies 0
        <= #[trigger] lens_view(lens)[i][j] by {
        assert(lens_view(lens)[i][j] == lens[i]@[j] as int);
    }
}

/// The search stops at word `i` with `m` syllables left: the fewest
/// syllables the remaining words can take exceed `m`, or the most fall short
/// of it (both bounds capped at `usize::MAX`).
pub open spec fn pruned(lens: Seq<Seq<int>>, i: int, m: int) -> bool {
    capped(min_suffix(lens, i)) > m || capped(max_suffix(lens, i)) < m
}

/// Puts `p` in front of the choice of every leaf of `s`.
pub open spec fn prefix_leaves(p: Seq<usize>, s: Seq<(Seq<usize>, bool)>) -> Seq<(Seq<usize>, bool)> {
    s.map_values(|x: (Seq<usize>, bool)| (p + x.0, x.1))
}

/// The leaves that the pruned depth-first search reaches below word `i`
/// with `m` syllables left, in the order it reaches them: each is a
/// complete choice for words `i..`, marked with whether its syllables add up
/// to exactly `m`.
pub open spec fn leaves_from(lens: Seq<Seq<int>>, i: int, m: int) -> Seq<(Seq<usize>, bool)>
    decreases lens.len() - i, 1int, 0int,
{
    if 0 <= i < lens.len() {
        if pruned(lens, i, m) {
            Seq::empty()
        } else {
            leaves_with(lens, i, 0, m)
        }
    } else {
        seq![(Seq::empty(), m == 0)]
    }
}

/// The part of `leaves_from(lens, i, m)` below option `j` and the later
/// options of word `i`; an option longer than `m` is not entered.
pub open spec fn leaves_with(lens: Seq<Seq<int>>, i: int, j: int, m: int) -> Seq<(Seq<usize>, bool)>
    decreases lens.len() - i, 0int, lens[i].len() - j,
{
    if 0 <= i < lens.len() && 0 <= j < lens[i].len() {
        let here = if lens[i][j] <= m {
            prefix_leaves(seq![j as usize], leaves_from(lens, i + 1, m - lens[i][j]))
        } else {
            Seq::empty()
        };
        here + leaves_with(lens, i, j + 1, m)
    } else {
        Seq::empty()
    }
}

/// The leaves that the search for `n` syllables over all the words reaches.
pub open spec fn leaves(lens: Seq<Seq<int>>, n: int) -> Seq<(Seq<usize>, bool)> {
    leaves_from(lens, 0, n)
}

/// The choices of the leaves whose syllables add up exactly, in order.
pub open spec fn hits(s: Seq<(Seq<usize>, bool)>) -> Seq<Seq<usize>>
    decreases s.len(),
{
    if s.len() == 0 {
        Seq::empty()
    } else {
        let h = hits(s.drop_last());
        if s.last().1 {
            h.push(s.last().0)
        } else {
            h
        }
    }
}

/// The first `budget` elements of `s`, or all of them.
pub open spec fn within_budget<A>(s: Seq<A>, budget: int) -> Seq<A> {
    if s.len() <= budget {
        s
    } else {
        s.take(budget)
    }
}

proof fn lemma_hits_add(a: Seq<(Seq<usize>, bool)>, b: Seq<(Seq<usize>, bool)>)
    ensures
        hits(a + b) == hits(a) + hits(b),
    decreases b.len(),
{
    if b.len() == 0 {
        assert(a + b =~= a);
        assert(hits(a) + hits(b) =~= hits(a));
    } else {
        assert((a + b).drop_last() =~= a + b.drop_last());
        lemma_hits_add(a, b.drop_last());
        assert((a + b).last() == b.last());
        if b.last().1 {
            assert(hits(a + b) =~= hits(a) + hits(b));
        } else {
            assert(hits(a + b) =~= hits(a) + hits(b));
        }
    }
}

proof fn lemma_hits_prefix(p: Seq<usize>, s: Seq<(Seq<usize>, bool)>)
    ensures
        hits(prefix_leaves(p, s)) == prefix_all(p, hits(s)),
    decreases s.len(),
{
    if s.len() == 0 {
        assert(prefix_all(p, hits(s)) =~= Seq::<Seq<usize>>::empty());
    } else {
        assert(prefix_leaves(p, s).drop_last() =~= prefix_leaves(p, s.drop_last()));
        lemma_hits_prefix(p, s.drop_last());
        assert(prefix_all(p, hits(s.drop_last()).push(s.last().0)) =~= prefix_all(
            p,
            hits(s.drop_last()),
        ).push(p + s.last().0));
    }
}

proof fn lemma_prefix_leaves_add(p: Seq<usize>, a: Seq<(Seq<usize>, bool)>, b: Seq<(Seq<usize>, bool)>)
    ensures
        prefix_leaves(p, a + b) == prefix_leaves(p, a) + prefix_leaves(p, b),
{
    assert(prefix_leaves(p, a + b) =~= prefix_leaves(p, a) + prefix_leaves(p, b));
}

proof fn lemma_prefix_leaves_compose(p: Seq<usize>, j: usize, a: Seq<(Seq<usize>, bool)>)
    ensures
        prefix_leaves(p, prefix_leaves(seq![j], a)) == prefix_leaves(p.push(j), a),
{
    assert forall|k: int| 0 <= k < a.len() implies #[trigger] prefix_leaves(
        p,
        prefix_leaves(seq![j], a),
    )[k] == prefix_leaves(p.push(j), a)[k] by {
        assert(p + (seq![j] + a[k].0) =~= p.push(j) + a[k].0);
    }
    assert(prefix_leaves(p, prefix_leaves(seq![j], a)) =~= prefix_leaves(p.push(j), a));
}

/// The leaves that add up exactly are the assignments: pruning loses none
/// of them, and their order is the same.
proof fn lemma_leaves_hits(lens: Seq<Seq<int>>, i: int, m: int)
    requires
        nonneg(lens),
        0 <= m <= usize::MAX,
    ensures
        hits(leaves_from(lens, i, m)) == choices_from(lens, i, m),
    decreases lens.len() - i, 1int, 0int,
{
    if 0 <= i < lens.len() {
        if pruned(lens, i, m) {
            lemma_choices_bounds(lens, i, m);
            assert(choices_from(lens, i, m) =~= Seq::<Seq<usize>>::empty());
        } else {
            lemma_leaves_with_hits(lens, i, 0, m);
        }
    } else {
        let s = leaves_from(lens, i, m);
        assert(s.drop_last() =~= Seq::<(Seq<usize>, bool)>::empty());
        assert(hits(s.drop_last()) =~= Seq::<Seq<usize>>::empty());
        assert(s.last() == (Seq::<usize>::empty(), m == 0));
        assert(hits(s) =~= choices_from(lens, i, m));
    }
}

proof fn lemma_leaves_with_hits(lens: Seq<Seq<int>>, i: int, j: int, m: int)
    requires
        nonneg(lens),
        0 <= m <= usize::MAX,
        0 <= i < lens.len(),
        0 <= j,
    ensures
        hits(leaves_with(lens, i, j, m)) == choices_with(lens, i, j, m),
    decreases lens.len() - i, 0int, lens[i].len() - j,
{
    if j < lens[i].len() {
        let l = lens[i][j];
        let here = if l <= m {
            prefix_leaves(seq![j as usize], leaves_from(lens, i + 1, m - l))
        } else {
            Seq::empty()
        };
        lemma_hits_add(here, leaves_with(lens, i, j + 1, m));
        lemma_leaves_with_hits(lens, i, j + 1, m);
        assert(0 <= l);
        if l <= m {
            lemma_hits_prefix(seq![j as usize], leaves_from(lens, i + 1, m - l));
            lemma_leaves_hits(lens, i + 1, m - l);
        } else {
            lemma_choices_bounds(lens, i + 1, m - l);
            assert(hits(here) =~= Seq::<Seq<usize>>::empty());
            assert(prefix_all(seq![j as usize], choices_from(lens, i + 1, m - l)) =~= Seq::<
                Seq<usize>,
            >::empty());
        }
    } else {
        assert(hits(leaves_with(lens, i, j, m)) =~= Seq::<Seq<usize>>::empty());
    }
}

/// Depth-first search over the words `i..`, with `rem` syllables left to
/// place; `chosen` holds the options picked for the words before `i`, and
/// `visits` counts the leaves reached so far.
fn search_from(
    lens: &Vec<Vec<usize>>,
    min_suf: &Vec<usize>,
    max_suf: &Vec<usize>,
    i: usize,
    rem: usize,
    chosen: &mut Vec<usize>,
    out: &mut Vec<Vec<usize>>,
    visits: &mut usize,
    budget: usize,
) -> (complete: bool)
    requires
        search_tables(lens, min_suf, max_suf),
        i <= lens@.len(),
        old(chosen)@.len() == i,
        *old(visits) <= budget,
    ensures
        final(chosen)@ == old(chosen)@,
        ({
            let lv = prefix_leaves(old(chosen)@, leaves_from(lens_view(lens@), i as int, rem as int));
            let room = budget - *old(visits);
            if lv.len() <= room {
                complete && *final(visits) == *old(visits) + lv.len() && rows(final(out)@) == rows(
                    old(out)@,
                ) + hits(lv)
            } else {
                !complete && rows(final(out)@) == rows(old(out)@) + hits(lv.take(room))
            }
        }),
    decreases lens@.len() - i, 1int, 0int,
{
    let ghost l = lens_view(lens@);
    let ghost lv = prefix_leaves(chosen@, leaves_from(l, i as int, rem as int));
    let n_words = lens.len();
    if i == n_words {
        assert(lv =~= seq![(chosen@, rem == 0)]);
        if *visits < budget {
            *visits = *visits + 1;
            assert(lv.drop_last() =~= Seq::<(Seq<usize>, bool)>::empty());
            assert(hits(lv.drop_last()) =~= Seq::<Seq<usize>>::empty());
            assert(lv.last() == (chosen@, rem == 0));
            if rem == 0 {
                let row = copy_choices(chosen);
                out.push(row);
                assert(rows(out@) =~= rows(old(out)@) + hits(lv));
            } else {
                assert(rows(out@) =~= rows(old(out)@) + hits(lv));
            }
            true
        } else {
            assert(lv.take(0) =~= Seq::<(Seq<usize>, bool)>::empty());
            assert(rows(out@) =~= rows(old(out)@) + hits(lv.take(0)));
            false
        }
    } else if min_suf[i] > rem || max_suf[i] < rem {
        assert(lv =~= Seq::<(Seq<usize>, bool)>::empty());
        assert(rows(out@) =~= rows(old(out)@) + hits(lv));
        true
    } else {
        search_with(lens, min_suf, max_suf, i, 0, rem, chosen, out, visits, budget)
    }
}

/// The part of `search_from` that tries option `j` and the later ones for
/// word `i`.
fn search_with(
    lens: &Vec<Vec<usize>>,
    min_suf: &Vec<usize>,
    max_suf: &Vec<usize>,
    i: usize,
    j: usize,
    rem: usize,
    chosen: &mut Vec<usize>,
    out: &mut Vec<Vec<usize>>,
    visits: &mut usize,
    budget: usize,
) -> (complete: bool)
    requires
        search_tables(lens, min_suf, max_suf),
        i < lens@.len(),
        j <= lens@[i as int]@.len(),
        old(chosen)@.len() == i,
        *old(visits) <= budget,
    ensures
        final(chosen)@ == old(chosen)@,
        ({
            let lv = prefix_leaves(
                old(chosen)@,
                leaves_with(lens_view(lens@), i as int, j as int, rem as int),
            );
            let room = budget - *old(visits);
            if lv.len() <= room {
                complete && *final(visits) == *old(visits) + lv.len() && rows(final(out)@) == rows(
                    old(out)@,
                ) + hits(lv)
            } else {
                !complete && rows(final(out)@) == rows(old(out)@) + hits(lv.take(room))
            }
        }),
    decreases lens@.len() - i, 0int, lens@[i as int]@.len() - j,
{
    let ghost l = lens_view(lens@);
    let ghost c0 = chosen@;
    let ghost out0 = rows(out@);
    let ghost v0 = *visits;
    let ghost room = budget - v0;
    let n_words = lens.len();
    assert(i + 1 <= n_words);
    if j == lens[i].len() {
        assert(leaves_with(l, i as int, j as int, rem as int) =~= Seq::empty());
        assert(prefix_leaves(c0, leaves_with(l, i as int, j as int, rem as int)) =~= Seq::empty());
        assert(rows(out@) =~= out0 + hits(Seq::empty()));
        return true;
    }
    let len = lens[i][j];
    assert(l[i as int][j as int] == len as int);
    let ghost sub = leaves_from(l, i + 1, rem - len);
    let ghost inner = if len <= rem {
        prefix_leaves(seq![j], sub)
    } else {
        Seq::empty()
    };
    let ghost a = prefix_leaves(c0, inner);
    let ghost b = prefix_leaves(c0, leaves_with(l, i as int, j + 1, rem as int));
    proof {
        lemma_prefix_leaves_compose(c0, j, sub);
        lemma_prefix_leaves_add(c0, inner, leaves_with(l, i as int, j + 1, rem as int));
        assert(prefix_leaves(c0, leaves_with(l, i as int, j as int, rem as int)) == a + b);
    }
    if len <= rem {
        assert(a == prefix_leaves(c0.push(j), sub));
        chosen.push(j);
        let c = search_from(lens, min_suf, max_suf, i + 1, rem - len, chosen, out, visits, budget);
        chosen.pop();
        assert(chosen@ =~= c0);
        if !c {
            assert((a + b).take(room) =~= a.take(room));
            return false;
        }
    } else {
        assert(a =~= Seq::empty());
        assert(rows(out@) =~= out0 + hits(a));
    }
    let ghost out1 = rows(out@);
    assert(out1 == out0 + hits(a));
    let r = search_with(lens, min_suf, max_suf, i, j + 1, rem, chosen, out, visits, budget);
    proof {
        let room1 = budget - (v0 + a.len());
        if b.len() <= room1 {
            lemma_hits_add(a, b);
            assert(rows(out@) =~= out0 + hits(a + b));
        } else {
            assert((a + b).take(room) =~= a + b.take(room1));
            lemma_hits_add(a, b.take(room1));
            assert(rows(out@) =~= out0 + hits((a + b).take(room)));
        }
    }
    r
}

proof fn lemma_max_nonneg(s: Seq<int>)
    requires
        forall|j: int| 0 <= j < s.len() ==> 0 <= #[trigger] s[j],
    ensures
        0 <= max_of(s),
{
    if s.len() > 0 {
        lemma_min_max(s, 0);
    }
}

/// The fewest and the most syllables among one word's options.
fn min_max(v: &Vec<usize>) -> (r: (usize, usize))
    ensures
        r.0 == min_of(v@.map_values(|x: usize| x as int)),
        r.1 == max_of(v@.map_values(|x: usize| x as int)),
{
    let ghost s = v@.map_values(|x: usize| x as int);
    if v.len() == 0 {
        return (0, 0);
    }
    let mut lo = v[0];
    let mut hi = v[0];
    let mut j: usize = 1;
    assert(s.take(1).len() == 1);
    while j < v.len()
        invariant
            s == v@.map_values(|x: usize| x as int),
            1 <= j <= v@.len(),
            lo == min_of(s.take(j as int)),
            hi == max_of(s.take(j as int)),
        decreases v@.len() - j,
    {
        assert(s.take(j + 1).drop_last() =~= s.take(j as int));
        let x = v[j];
        if x < lo {
            lo = x;
        }
        if x > hi {
            hi = x;
        }
        j += 1;
    }
    assert(s.take(j as int) =~= s);
    (lo, hi)
}

fn saturating_sum(a: usize, b: usize) -> (r: usize)
    ensures
        r == capped(a + b),
{
    if a > usize::MAX - b {
        usize::MAX
    } else {
        a + b
    }
}

/// The syllable counts of each word's options.
fn syllable_counts(options: &Vec<Vec<Pronunciation>>) -> (lens: Vec<Vec<usize>>)
    ensures
        lens_view(lens@) == lens_of(options@),
{
    let mut lens: Vec<Vec<usize>> = Vec::new();
    let mut w: usize = 0;
    while w < options.len()
        invariant
            w <= options@.len(),
            lens@.len() == w,
            lens_view(lens@) =~= lens_of(options@.take(w as int)),
        decreases options@.len() - w,
    {
        let word = &options[w];
        let mut row: Vec<usize> = Vec::new();
        let mut j: usize = 0;
        while j < word.len()
            invariant
                w < options@.len(),
                *word == options@[w as int],
                lens@.len() == w,
                lens_view(lens@) =~= lens_of(options@.take(w as int)),
                j <= word@.len(),
                row@.len() == j,
                row@.map_values(|x: usize| x as int) =~= word@.take(j as int).map_values(
                    |p: Pronunciation| p@.len() as int,
                ),
            decreases word@.len() - j,
        {
            let ghost before = row@;
            let x = word[j].len();
            row.push(x);
            proof {
                let lhs = row@.map_values(|x: usize| x as int);
                let rhs = word@.take(j + 1).map_values(|p: Pronunciation| p@.len() as int);
                assert forall|q: int| 0 <= q < j + 1 implies lhs[q] == rhs[q] by {
                    if q < j {
                        assert(lhs[q] == before.map_values(|x: usize| x as int)[q]);
                        assert(rhs[q] == word@.take(j as int).map_values(
                            |p: Pronunciation| p@.len() as int,
                        )[q]);
                    }
                }
                assert(lhs =~= rhs);
            }
            j += 1;
        }
        assert(word@.take(j as int) =~= word@);
        let ghost before = lens@;
        lens.push(row);
        proof {
            let lhs = lens_view(lens@);
            let rhs = lens_of(options@.take(w + 1));
            assert(lens@ == before.push(row));
            assert(lhs.len() == w + 1);
            assert(rhs.len() == w + 1);
            assert forall|q: int| 0 <= q < w + 1 implies lhs[q] == rhs[q] by {
                if q < w {
                    assert(lhs[q] == lens_view(before)[q]);
                    assert(rhs[q] == lens_of(options@.take(w as int))[q]);
                } else {
                    assert(lhs[q] =~= rhs[q]);
                }
            }
            assert(lhs =~= rhs);
        }
        w += 1;
    }
    assert(options@.take(w as int) =~= options@);
    lens
}

/// The suffix bounds `min_suffix` and `max_suffix` of every word, capped at
/// `usize::MAX`.
fn suffix_tables(lens: &Vec<Vec<usize>>) -> (r: (Vec<usize>, Vec<usize>))
    ensures
        search_tables(lens, &r.0, &r.1),
{
    let ghost l = lens_view(lens@);
    proof {
        lemma_lens_nonneg(lens@);
    }
    let n_words = lens.len();
    let mut min_suf: Vec<usize> = vec![0];
    let mut max_suf: Vec<usize> = vec![0];
    let mut k: usize = 0;
    while k < n_words
        invariant
            n_words == lens@.len(),
            k <= n_words,
            min_suf@.len() == k + 1,
            max_suf@.len() == k + 1,
            forall|q: int| 0 <= q <= k ==> #[trigger] min_suf@[q] == 0,
            forall|q: int| 0 <= q <= k ==> #[trigger] max_suf@[q] == 0,
        decreases n_words - k,
    {
        min_suf.push(0);
        max_suf.push(0);
        k += 1;
    }
    assert(min_suffix(l, n_words as int) == 0 && max_suffix(l, n_words as int) == 0);
    let mut i: usize = n_words;
    while i > 0
        invariant
            n_words == lens@.len(),
            l == lens_view(lens@),
            nonneg(l),
            i <= n_words,
            min_suf@.len() == n_words + 1,
            max_suf@.len() == n_words + 1,
            forall|q: int| i <= q <= n_words ==> #[trigger] min_suf@[q] == capped(min_suffix(l, q)),
            forall|q: int| i <= q <= n_words ==> #[trigger] max_suf@[q] == capped(max_suffix(l, q)),
        decreases i,
    {
        let w = i - 1;
        let (lo, hi) = min_max(&lens[w]);
        assert(l[w as int] == lens@[w as int]@.map_values(|x: usize| x as int));
        proof {
            lemma_min_nonneg(l[w as int]);
            lemma_max_nonneg(l[w as int]);
        }
        let a = saturating_sum(lo, min_suf[i]);
        let b = saturating_sum(hi, max_suf[i]);
        min_suf.set(w, a);
        max_suf.set(w, b);
        i = w;
    }
    (min_suf, max_suf)
}

/// Enumerates, in depth-first order, the choices of one pronunciation per
/// word whose syllables add up to exactly `n`. Prefixes that cannot reach
/// `n` are cut off before they are explored, and the search stops before
/// reaching leaf number `budget + 1`, whether or not that leaf adds up.
pub fn enumerate(options: &Vec<Vec<Pronunciation>>, n: usize, budget: usize) -> (r: Enumeration)
    ensures
        ({
            let l = lens_of(options@);
            let lv = leaves(l, n as int);
            let all = assignments(l, n as int);
            let found = rows(r.assignments@);
            &&& r.truncated == (lv.len() > budget)
            &&& found == hits(within_budget(lv, budget as int))
            &&& found.len() <= all.len()
            &&& found == all.take(found.len() as int)
            &&& !r.truncated ==> found == all
            &&& forall|k: int|
                0 <= k < found.len() ==> valid_choice(l, 0, #[trigger] found[k])
                    && syllable_total(l, 0, found[k]) == n
        }),
{
    let lens = syllable_counts(options);
    let (min_suf, max_suf) = suffix_tables(&lens);
    let mut chosen: Vec<usize> = Vec::new();
    let mut out: Vec<Vec<usize>> = Vec::new();
    let mut visits: usize = 0;
    let complete = search_from(
        &lens,
        &min_suf,
        &max_suf,
        0,
        n,
        &mut chosen,
        &mut out,
        &mut visits,
        budget,
    );
    proof {
        let l = lens_view(lens@);
        let lv = leaves_from(l, 0, n as int);
        let all = choices_from(l, 0, n as int);
        assert forall|k: int| 0 <= k < lv.len() implies #[trigger] prefix_leaves(Seq::empty(), lv)[k]
            == lv[k] by {
            assert(Seq::<usize>::empty() + lv[k].0 =~= lv[k].0);
        }
        assert(prefix_leaves(Seq::empty(), lv) =~= lv);
        assert(rows(Seq::empty()) =~= Seq::<Seq<usize>>::empty());
        let found = rows(out@);
        assert(found =~= hits(within_budget(lv, budget as int)));
        lemma_lens_nonneg(lens@);
        lemma_leaves_hits(l, 0, n as int);
        if lv.len() > budget {
            assert(lv =~= lv.take(budget as int) + lv.skip(budget as int));
            lemma_hits_add(lv.take(budget as int), lv.skip(budget as int));
        }
        assert(all.take(found.len() as int) =~= found);
        assert forall|w: int| 0 <= w < options@.len() implies #[trigger] options@[w]@.len()
            <= usize::MAX by {
            assert(options@[w]@.len() == options@[w].len());
        }
        assert(countable(lens_of(options@)));
        assert forall|k: int| 0 <= k < found.len() implies valid_choice(
            lens_of(options@),
            0,
            #[trigger] found[k],
        ) && syllable_total(lens_of(options@), 0, found[k]) == n by {
            assert(found[k] == all[k]);
            lemma_choices_valid(l, 0, n as int, k);
        }
    }
    Enumeration { assignments: out, truncated: !complete }
}

} // verus!
