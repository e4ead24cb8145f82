use vstd::prelude::*;
use vstd::slice::slice_subrange;

use crate::dictionary::{slices_contain, slices_view, Dictionary};

verus! {

pub open spec fn min_nat(a: nat, b: nat) -> nat {
    if a <= b {
        a
    } else {
        b
    }
}

/// The Levenshtein distance of two words: the least number of single
/// character insertions, deletions and substitutions that turn one into the
/// other, each at cost one.
pub open spec fn edit_distance(a: Seq<char>, b: Seq<char>) -> nat
    decreases a.len() + b.len(),
{
    if a.len() == 0 {
        b.len()
    } else if b.len() == 0 {
        a.len()
    } else {
        let last_differs: nat = if a.last() == b.last() {
            0
        } else {
            1
        };
        let substitute = edit_distance(a.drop_last(), b.drop_last()) + last_differs;
        let delete = edit_distance(a.drop_last(), b) + 1;
        let insert = edit_distance(a, b.drop_last()) + 1;
        min_nat(substitute, min_nat(delete, insert))
    }
}

/// The distance is at most the length of the longer word.
pub proof fn lemma_distance_upper_bound(a: Seq<char>, b: Seq<char>)
    ensures
        edit_distance(a, b) <= a.len() || edit_distance(a, b) <= b.len(),
        edit_distance(a, b) <= a.len() + b.len(),
    decreases a.len() + b.len(),
{
    if a.len() > 0 && b.len() > 0 {
        lemma_distance_upper_bound(a.drop_last(), b.drop_last());
    }
}

/// The distance is at least the difference of the lengths.
pub proof fn lemma_distance_lower_bound(a: Seq<char>, b: Seq<char>)
    ensures
        a.len() - b.len() <= edit_distance(a, b),
        b.len() - a.len() <= edit_distance(a, b),
    decreases a.len() + b.len(),
{
    if a.len() > 0 && b.len() > 0 {
        lemma_distance_lower_bound(a.drop_last(), b.drop_last());
        lemma_distance_lower_bound(a.drop_last(), b);
        lemma_distance_lower_bound(a, b.drop_last());
    }
}

/// Two words are at distance zero exactly when they are the same word.
pub proof fn lemma_distance_zero(a: Seq<char>, b: Seq<char>)
    ensures
        edit_distance(a, b) == 0 <==> a == b,
    decreases a.len() + b.len(),
{
    if a.len() == 0 || b.len() == 0 {
        if a.len() == 0 && b.len() == 0 {
            assert(a =~= b);
        }
    } else {
        lemma_distance_zero(a.drop_last(), b.drop_last());
        if a == b {
            assert(a.drop_last() == b.drop_last());
        }
        if edit_distance(a, b) == 0 {
            assert(a.last() == b.last());
            assert(a.drop_last() == b.drop_last());
            assert(a =~= a.drop_last().push(a.last()));
            assert(b =~= b.drop_last().push(b.last()));
        }
    }
}

/// The distance does not depend on which word comes first.
pub proof fn lemma_distance_symmetric(a: Seq<char>, b: Seq<char>)
    ensures
        edit_distance(a, b) == edit_distance(b, a),
    decreases a.len() + b.len(),
{
    if a.len() > 0 && b.len() > 0 {
        lemma_distance_symmetric(a.drop_last(), b.drop_last());
        lemma_distance_symmetric(a.drop_last(), b);
        lemma_distance_symmetric(a, b.drop_last());
    }
}

/// Computes the Levenshtein distance of two words.
pub fn edit_distance_of(a: &[char], b: &[char]) -> (distance: usize)
    ensures
        distance == edit_distance(a@, b@),
{
    let n = a.len();
    let m = b.len();
    let mut prev: Vec<usize> = Vec::new();
    let mut j: usize = 0;
    while j < m
        invariant
            j <= m,
            m == b@.len(),
            prev@.len() == j,
            forall|k: int| 0 <= k < j ==> prev@[k] == edit_distance(a@.take(0), b@.take(k)),
        decreases m - j,
    {
        prev.push(j);
        j += 1;
    }
    prev.push(m);
    let mut cur: Vec<usize> = Vec::new();
    let mut i: usize = 0;
    while i < n
        invariant
            i <= n,
            n == a@.len(),
            m == b@.len(),
            prev@.len() == m + 1,
            forall|k: int|
                0 <= k <= m ==> prev@[k] == edit_distance(a@.take(i as int), b@.take(k)),
        decreases n - i,
    {
        let ghost row = a@.take(i + 1);
        cur.clear();
        cur.push(i + 1);
        let mut j: usize = 0;
        while j < m
            invariant
                i < n,
                j <= m,
                n == a@.len(),
                m == b@.len(),
                row == a@.take(i + 1),
                prev@.len() == m + 1,
                cur@.len() == j + 1,
                forall|k: int|
                    0 <= k <= m ==> prev@[k] == edit_distance(a@.take(i as int), b@.take(k)),
                forall|k: int| 0 <= k <= j ==> cur@[k] == edit_distance(row, b@.take(k)),
            decreases m - j,
        {
            let ghost col = b@.take(j + 1);
            proof {
                assert(row.drop_last() == a@.take(i as int));
                assert(col.drop_last() == b@.take(j as int));
                assert(row.last() == a@[i as int]);
                assert(col.last() == b@[j as int]);
                lemma_distance_upper_bound(a@.take(i as int), b@.take(j as int));
            }
            let diagonal = prev[j];
            let above = prev[j + 1];
            let left = cur[j];
            let substitute = if a[i] == b[j] {
                diagonal
            } else {
                diagonal + 1
            };
            let nearer = if above < left {
                above
            } else {
                left
            };
            let best = if nearer < substitute {
                nearer + 1
            } else {
                substitute
            };
            assert(best == edit_distance(row, col));
            cur.push(best);
            j += 1;
        }
        std::mem::swap(&mut prev, &mut cur);
        i += 1;
    }
    assert(a@.take(n as int) == a@);
    assert(b@.take(m as int) == b@);
    prev[m]
}

/// The words at distance exactly `distance` from `query`, each once (at the
/// place where the dictionary first has it), in dictionary order.
pub open spec fn at_distance(words: Seq<Seq<char>>, query: Seq<char>, distance: nat) -> Seq<
    Seq<char>,
>
    decreases words.len(),
{
    if words.len() == 0 {
        Seq::empty()
    } else {
        let earlier = at_distance(words.drop_last(), query, distance);
        let word = words.last();
        if edit_distance(query, word) == distance && !words.drop_last().contains(word) {
            earlier.push(word)
        } else {
            earlier
        }
    }
}

/// The words at a distance below `bound` from `query`: nearest first, and
/// among words at one distance in dictionary order.
pub open spec fn nearer_than(words: Seq<Seq<char>>, query: Seq<char>, bound: nat) -> Seq<
    Seq<char>,
>
    decreases bound,
{
    if bound == 0 {
        Seq::empty()
    } else {
        nearer_than(words, query, (bound - 1) as nat) + at_distance(
            words,
            query,
            (bound - 1) as nat,
        )
    }
}

/// What the suggestion engine answers: nothing for an empty query, else the
/// first `max_results` of the words within `max_distance`, nearest first.
pub open spec fn suggestions(
    words: Seq<Seq<char>>,
    query: Seq<char>,
    max_results: nat,
    max_distance: nat,
) -> Seq<Seq<char>> {
    if query.len() == 0 {
        Seq::empty()
    } else {
        let ranked = nearer_than(words, query, max_distance + 1);
        if ranked.len() <= max_results {
            ranked
        } else {
            ranked.take(max_results as int)
        }
    }
}

/// A word is listed at a distance exactly when the dictionary holds it and
/// that is its distance.
pub proof fn lemma_at_distance_contains(
    words: Seq<Seq<char>>,
    query: Seq<char>,
    distance: nat,
    word: Seq<char>,
)
    ensures
        at_distance(words, query, distance).contains(word) <==> words.contains(word)
            && edit_distance(query, word) == distance,
    decreases words.len(),
{
    if words.len() > 0 {
        let front = words.drop_last();
        let last = words.last();
        let earlier = at_distance(front, query, distance);
        lemma_at_distance_contains(front, query, distance, word);
        assert(words =~= front.push(last));
        if words.contains(word) {
            let k = choose|k: int| 0 <= k < words.len() && words[k] == word;
            if k < front.len() {
                assert(front[k] == word);
            }
        }
        if front.contains(word) {
            let k = choose|k: int| 0 <= k < front.len() && front[k] == word;
            assert(words[k] == word);
        }
        assert(words[words.len() - 1] == last);
        if edit_distance(query, last) == distance && !front.contains(last) {
            let listed = earlier.push(last);
            assert(listed[listed.len() - 1] == last);
            if listed.contains(word) {
                let k = choose|k: int| 0 <= k < listed.len() && listed[k] == word;
                if k < earlier.len() {
                    assert(earlier[k] == word);
                }
            }
            if earlier.contains(word) {
                let k = choose|k: int| 0 <= k < earlier.len() && earlier[k] == word;
                assert(listed[k] == word);
            }
        }
    }
}

/// What is listed from the first words of a dictionary starts what is listed
/// from all of them.
pub proof fn lemma_at_distance_prefix(
    words: Seq<Seq<char>>,
    query: Seq<char>,
    distance: nat,
    count: int,
)
    requires
        0 <= count <= words.len(),
    ensures
        at_distance(words.take(count), query, distance).is_prefix_of(
            at_distance(words, query, distance),
        ),
    decreases words.len(),
{
    if count == words.len() {
        assert(words.take(count) == words);
    } else {
        let front = words.drop_last();
        lemma_at_distance_prefix(front, query, distance, count);
        assert(front.take(count) == words.take(count));
    }
}

/// The words below a bound start the words below any larger bound.
pub proof fn lemma_nearer_than_prefix(
    words: Seq<Seq<char>>,
    query: Seq<char>,
    small: nat,
    large: nat,
)
    requires
        small <= large,
    ensures
        nearer_than(words, query, small).is_prefix_of(nearer_than(words, query, large)),
    decreases large,
{
    if small < large {
        lemma_nearer_than_prefix(words, query, small, (large - 1) as nat);
    }
}

/// A word is listed below a bound exactly when the dictionary holds it and
/// its distance is below the bound.
pub proof fn lemma_nearer_than_contains(
    words: Seq<Seq<char>>,
    query: Seq<char>,
    bound: nat,
    word: Seq<char>,
)
    ensures
        nearer_than(words, query, bound).contains(word) <==> words.contains(word)
            && edit_distance(query, word) < bound,
    decreases bound,
{
    if bound > 0 {
        let below = nearer_than(words, query, (bound - 1) as nat);
        let here = at_distance(words, query, (bound - 1) as nat);
        lemma_nearer_than_contains(words, query, (bound - 1) as nat, word);
        lemma_at_distance_contains(words, query, (bound - 1) as nat, word);
        let all = below + here;
        if all.contains(word) {
            let k = choose|k: int| 0 <= k < all.len() && all[k] == word;
            if k < below.len() {
                assert(below[k] == word);
            } else {
                assert(here[k - below.len()] == word);
            }
        }
        if below.contains(word) {
            let k = choose|k: int| 0 <= k < below.len() && below[k] == word;
            assert(all[k] == word);
        }
        if here.contains(word) {
            let k = choose|k: int| 0 <= k < here.len() && here[k] == word;
            assert(all[below.len() + k] == word);
        }
    }
}

/// No word is listed twice at one distance.
pub proof fn lemma_at_distance_distinct(
    words: Seq<Seq<char>>,
    query: Seq<char>,
    distance: nat,
    i: int,
    j: int,
)
    requires
        0 <= i < j < at_distance(words, query, distance).len(),
    ensures
        at_distance(words, query, distance)[i] != at_distance(words, query, distance)[j],
    decreases words.len(),
{
    let front = words.drop_last();
    let last = words.last();
    let earlier = at_distance(front, query, distance);
    if j < earlier.len() {
        lemma_at_distance_distinct(front, query, distance, i, j);
    } else {
        assert(earlier.contains(earlier[i]));
        lemma_at_distance_contains(front, query, distance, earlier[i]);
    }
}

/// The words below a bound stand nearest first, and each is a word of the
/// dictionary at a distance below the bound.
pub proof fn lemma_nearer_than_ordered(
    words: Seq<Seq<char>>,
    query: Seq<char>,
    bound: nat,
    i: int,
    j: int,
)
    requires
        0 <= i <= j < nearer_than(words, query, bound).len(),
    ensures
        edit_distance(query, nearer_than(words, query, bound)[i]) <= edit_distance(
            query,
            nearer_than(words, query, bound)[j],
        ),
        edit_distance(query, nearer_than(words, query, bound)[j]) < bound,
        words.contains(nearer_than(words, query, bound)[j]),
    decreases bound,
{
    let below = nearer_than(words, query, (bound - 1) as nat);
    let here = at_distance(words, query, (bound - 1) as nat);
    if j < below.len() {
        lemma_nearer_than_ordered(words, query, (bound - 1) as nat, i, j);
    } else {
        assert(here.contains(here[j - below.len()]));
        lemma_at_distance_contains(words, query, (bound - 1) as nat, here[j - below.len()]);
        if i < below.len() {
            lemma_nearer_than_ordered(words, query, (bound - 1) as nat, i, i);
        } else {
            assert(here.contains(here[i - below.len()]));
            lemma_at_distance_contains(words, query, (bound - 1) as nat, here[i - below.len()]);
        }
    }
}

/// No word is listed twice below a bound.
pub proof fn lemma_nearer_than_distinct(
    words: Seq<Seq<char>>,
    query: Seq<char>,
    bound: nat,
    i: int,
    j: int,
)
    requires
        0 <= i < j < nearer_than(words, query, bound).len(),
    ensures
        nearer_than(words, query, bound)[i] != nearer_than(words, query, bound)[j],
    decreases bound,
{
    let below = nearer_than(words, query, (bound - 1) as nat);
    let here = at_distance(words, query, (bound - 1) as nat);
    if j < below.len() {
        lemma_nearer_than_distinct(words, query, (bound - 1) as nat, i, j);
    } else if i < below.len() {
        lemma_nearer_than_ordered(words, query, (bound - 1) as nat, i, i);
        assert(here.contains(here[j - below.len()]));
        lemma_at_distance_contains(words, query, (bound - 1) as nat, here[j - below.len()]);
    } else {
        lemma_at_distance_distinct(
            words,
            query,
            (bound - 1) as nat,
            i - below.len(),
            j - below.len(),
        );
    }
}

/// At distance zero stands the query itself where the dictionary holds it,
/// and nothing else.
pub proof fn lemma_at_distance_zero(words: Seq<Seq<char>>, query: Seq<char>)
    ensures
        at_distance(words, query, 0) == if words.contains(query) {
            seq![query]
        } else {
            Seq::empty()
        },
    decreases words.len(),
{
    if words.len() > 0 {
        let front = words.drop_last();
        let last = words.last();
        lemma_at_distance_zero(front, query);
        lemma_distance_zero(query, last);
        assert(words =~= front.push(last));
        if front.contains(query) {
            let k = choose|k: int| 0 <= k < front.len() && front[k] == query;
            assert(words[k] == query);
        }
        if words.contains(query) && last != query {
            let k = choose|k: int| 0 <= k < words.len() && words[k] == query;
            assert(front[k] == query);
        }
        if last == query {
            assert(words[words.len() - 1] == query);
            if !front.contains(last) {
                assert(Seq::<Seq<char>>::empty().push(last) =~= seq![query]);
            }
        }
    } else {
        assert(!words.contains(query));
    }
}

/// Every suggestion is a word of the dictionary within the distance asked
/// for, and there are no more suggestions than asked for.
pub proof fn lemma_suggestions_sound(
    words: Seq<Seq<char>>,
    query: Seq<char>,
    max_results: nat,
    max_distance: nat,
    k: int,
)
    requires
        0 <= k < suggestions(words, query, max_results, max_distance).len(),
    ensures
        words.contains(suggestions(words, query, max_results, max_distance)[k]),
        edit_distance(query, suggestions(words, query, max_results, max_distance)[k])
            <= max_distance,
        suggestions(words, query, max_results, max_distance).len() <= max_results,
        query.len() > 0,
{
    lemma_nearer_than_ordered(words, query, max_distance + 1, k, k);
}

/// The suggestions stand nearest first, and none is given twice.
pub proof fn lemma_suggestions_ranked(
    words: Seq<Seq<char>>,
    query: Seq<char>,
    max_results: nat,
    max_distance: nat,
    i: int,
    j: int,
)
    requires
        0 <= i < j < suggestions(words, query, max_results, max_distance).len(),
    ensures
        edit_distance(query, suggestions(words, query, max_results, max_distance)[i])
            <= edit_distance(query, suggestions(words, query, max_results, max_distance)[j]),
        suggestions(words, query, max_results, max_distance)[i] != suggestions(
            words,
            query,
            max_results,
            max_distance,
        )[j],
{
    lemma_nearer_than_ordered(words, query, max_distance + 1, i, j);
    lemma_nearer_than_distinct(words, query, max_distance + 1, i, j);
}

/// Where fewer suggestions come back than were asked for, none was left
/// out: every word of the dictionary within the distance is among them.
pub proof fn lemma_suggestions_complete(
    words: Seq<Seq<char>>,
    query: Seq<char>,
    max_results: nat,
    max_distance: nat,
    word: Seq<char>,
)
    requires
        query.len() > 0,
        words.contains(word),
        edit_distance(query, word) <= max_distance,
        suggestions(words, query, max_results, max_distance).len() < max_results,
    ensures
        suggestions(words, query, max_results, max_distance).contains(word),
{
    lemma_nearer_than_contains(words, query, max_distance + 1, word);
}

/// A search at distance zero answers with the query itself where the
/// dictionary holds it, and with nothing where it does not.
pub proof fn lemma_exact_search(words: Seq<Seq<char>>, query: Seq<char>, max_results: nat)
    requires
        query.len() > 0,
        max_results > 0,
    ensures
        suggestions(words, query, max_results, 0) == if words.contains(query) {
            seq![query]
        } else {
            Seq::empty()
        },
{
    lemma_at_distance_zero(words, query);
    assert(nearer_than(words, query, 1) =~= at_distance(words, query, 0)) by {
        assert(nearer_than(words, query, 0) =~= Seq::<Seq<char>>::empty());
    }
}

/// For each word its distance from `query`, where that is at most `limit`;
/// for a word farther away, some number above `limit`.
pub open spec fn distances_known(
    distances: Seq<usize>,
    words: Seq<Seq<char>>,
    query: Seq<char>,
    limit: nat,
) -> bool {
    &&& distances.len() == words.len()
    &&& forall|i: int|
        0 <= i < words.len() ==> if (#[trigger] distances[i]) <= limit {
            distances[i] == edit_distance(query, words[i])
        } else {
            edit_distance(query, words[i]) > limit
        }
}

/// The distance of each word from `query`. A word whose length alone puts
/// it out of reach is not measured.
fn measure(query: &[char], words: &[&[char]], limit: u8) -> (distances: Vec<usize>)
    ensures
        distances_known(distances@, slices_view(words@), query@, limit as nat),
{
    let reach = limit as usize;
    let mut distances: Vec<usize> = Vec::new();
    let mut i: usize = 0;
    while i < words.len()
        invariant
            i <= words.len(),
            reach == limit,
            distances_known(distances@, slices_view(words@).take(i as int), query@, limit as nat),
        decreases words.len() - i,
    {
        let word = words[i];
        proof {
            lemma_distance_lower_bound(query@, word@);
        }
        let too_long = word.len() > query.len() && word.len() - query.len() > reach;
        let too_short = query.len() > word.len() && query.len() - word.len() > reach;
        let distance = if too_long || too_short {
            if word.len() > query.len() {
                word.len() - query.len()
            } else {
                query.len() - word.len()
            }
        } else {
            edit_distance_of(query, word)
        };
        distances.push(distance);
        i += 1;
        assert(slices_view(words@).take(i as int)[i - 1] == word@);
    }
    assert(slices_view(words@).take(i as int) == slices_view(words@));
    distances
}

/// Finds the dictionary words nearest to a misspelled word.
///
/// The answer holds at most `result_limit` words, each of the dictionary,
/// each once, at a distance of at most `max_edit_dist`, nearest first; words
/// at one distance keep the dictionary's order. For an empty word it is
/// empty.
pub fn suggest_correct_spelling<'a, D: Dictionary>(
    misspelled_word: &[char],
    result_limit: usize,
    max_edit_dist: u8,
    dictionary: &'a D,
) -> (found: Vec<&'a [char]>)
    ensures
        slices_view(found@) == suggestions(
            dictionary.words(),
            misspelled_word@,
            result_limit as nat,
            max_edit_dist as nat,
        ),
{
    let mut found: Vec<&'a [char]> = Vec::new();
    if misspelled_word.len() == 0 {
        assert(slices_view(found@) =~= Seq::<Seq<char>>::empty());
        return found;
    }
    let words = dictionary.words_iter();
    let distances = measure(misspelled_word, words.as_slice(), max_edit_dist);
    let ghost all = dictionary.words();
    let ghost query = misspelled_word@;
    let ghost ranked = nearer_than(all, query, (max_edit_dist + 1) as nat);
    let reach = max_edit_dist as usize;
    let mut distance: usize = 0;
    assert(slices_view(found@) =~= nearer_than(all, query, 0));
    proof {
        lemma_nearer_than_prefix(all, query, 0, (max_edit_dist + 1) as nat);
    }
    while distance <= reach && found.len() < result_limit
        invariant
            reach == max_edit_dist,
            distance <= reach + 1,
            all == dictionary.words(),
            all == slices_view(words@),
            query == misspelled_word@,
            ranked == nearer_than(all, query, (max_edit_dist + 1) as nat),
            distances_known(distances@, all, query, max_edit_dist as nat),
            found.len() <= result_limit,
            slices_view(found@).is_prefix_of(ranked),
            found.len() < result_limit ==> slices_view(found@) == nearer_than(
                all,
                query,
                distance as nat,
            ),
        decreases reach + 1 - distance,
    {
        let start = found.len();
        let ghost below = nearer_than(all, query, distance as nat);
        let mut i: usize = 0;
        assert(all.take(0) =~= Seq::<Seq<char>>::empty());
        assert(slices_view(found@) =~= below + at_distance(all.take(0), query, distance as nat));
        while i < words.len() && found.len() < result_limit
            invariant
                i <= words.len(),
                distance <= reach,
                reach == max_edit_dist,
                all == slices_view(words@),
                query == misspelled_word@,
                distances_known(distances@, all, query, max_edit_dist as nat),
                below == nearer_than(all, query, distance as nat),
                start == below.len(),
                found.len() <= result_limit,
                slices_view(found@) == below + at_distance(
                    all.take(i as int),
                    query,
                    distance as nat,
                ),
            decreases words.len() - i,
        {
            let word = words[i];
            let ghost seen = all.take(i as int);
            let ghost listed = at_distance(seen, query, distance as nat);
            proof {
                assert(all.take(i + 1).drop_last() == seen);
                assert(all.take(i + 1).last() == word@);
                lemma_at_distance_contains(seen, query, distance as nat, word@);
            }
            if distances[i] == distance {
                assert(slices_view(found@).len() == found@.len());
                assert(found@.len() == start + listed.len());
                let bucket = slice_subrange(found.as_slice(), start, found.len());
                assert(slices_view(bucket@) =~= listed) by {
                    assert forall|k: int| 0 <= k < listed.len() implies slices_view(bucket@)[k]
                        == listed[k] by {
                        assert(bucket@[k] == found@[start + k]);
                        assert(slices_view(found@)[start + k] == found@[start + k]@);
                        assert((below + listed)[start + k] == listed[k]);
                    }
                }
                if !slices_contain(bucket, word) {
                    let ghost before = found@;
                    found.push(word);
                    proof {
                        assert(found@ == before.push(word));
                        assert(slices_view(found@) =~= slices_view(before).push(word@));
                        assert(slices_view(found@) =~= below + listed.push(word@));
                    }
                }
            }
            i += 1;
        }
        proof {
            lemma_at_distance_prefix(all, query, distance as nat, i as int);
            lemma_nearer_than_prefix(all, query, (distance + 1) as nat, (max_edit_dist + 1) as nat);
            if found.len() < result_limit {
                assert(all.take(i as int) == all);
            }
        }
        distance += 1;
    }
    found
}

} // verus!
