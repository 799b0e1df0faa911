//! Pairs of texts, sorted by the first.
use vstd::prelude::*;

use crate::text;
use crate::text::{chars_of, comes_before};

verus! {

/// Keys and values as texts.
pub open spec fn pair_views(pairs: Seq<(String, String)>) -> Seq<(Seq<char>, Seq<char>)> {
    pairs.map_values(|pair: (String, String)| (pair.0@, pair.1@))
}

/// Pairs sorted by key, with one more pair put behind those whose key is not greater.
pub open spec fn insert_pair(
    sorted: Seq<(Seq<char>, Seq<char>)>,
    pair: (Seq<char>, Seq<char>),
) -> Seq<(Seq<char>, Seq<char>)>
    decreases sorted.len(),
{
    if sorted.len() == 0 || !text::lex_less(pair.0, sorted.last().0) {
        sorted.push(pair)
    } else {
        insert_pair(sorted.drop_last(), pair).push(sorted.last())
    }
}

/// Pairs sorted by key, those with the same key in the order in which they came.
pub open spec fn sort_pairs(
    pairs: Seq<(Seq<char>, Seq<char>)>,
) -> Seq<(Seq<char>, Seq<char>)>
    decreases pairs.len(),
{
    if pairs.len() == 0 {
        Seq::empty()
    } else {
        insert_pair(sort_pairs(pairs.drop_last()), pairs.last())
    }
}

/// Character pairs as texts.
pub open spec fn char_pair_views(
    pairs: Seq<(Vec<char>, Vec<char>)>,
) -> Seq<(Seq<char>, Seq<char>)> {
    pairs.map_values(|pair: (Vec<char>, Vec<char>)| (pair.0@, pair.1@))
}

/// Puts a pair into a sorted list, behind those whose key is not greater.
pub fn insert_by_key(sorted: &mut Vec<(Vec<char>, Vec<char>)>, pair: (Vec<char>, Vec<char>))
    ensures
        char_pair_views(final(sorted)@) == insert_pair(
            char_pair_views(old(sorted)@),
            (pair.0@, pair.1@),
        ),
{
    let ghost all = char_pair_views(sorted@);
    let ghost p = (pair.0@, pair.1@);
    let mut j: usize = sorted.len();
    assert(all.take(j as int) =~= all);
    assert(insert_pair(all, p) + all.skip(j as int) =~= insert_pair(all, p));
    while j > 0 && comes_before(&pair.0, &sorted[j - 1].0)
        invariant
            j <= sorted@.len(),
            all == char_pair_views(sorted@),
            p == (pair.0@, pair.1@),
            insert_pair(all.take(j as int), p) + all.skip(j as int) == insert_pair(all, p),
        decreases j,
    {
        proof {
            let front = all.take(j as int);
            assert(front.last() == all[j - 1]);
            assert(front.drop_last() =~= all.take(j - 1));
            assert(insert_pair(front, p) == insert_pair(all.take(j - 1), p).push(all[j - 1]));
            assert(insert_pair(all.take(j - 1), p).push(all[j - 1]) + all.skip(j as int)
                =~= insert_pair(all.take(j - 1), p) + all.skip(j - 1));
        }
        j = j - 1;
    }
    proof {
        let front = all.take(j as int);
        if j > 0 {
            assert(front.last() == all[j - 1]);
        }
        assert(insert_pair(front, p) == front.push(p));
    }
    sorted.insert(j, pair);
    assert(char_pair_views(sorted@) =~= all.take(j as int).push(p) + all.skip(j as int));
}

/// The pairs sorted by key, those with the same key in the order in which they came.
pub fn sort_by_key(pairs: &Vec<(String, String)>) -> (sorted: Vec<(Vec<char>, Vec<char>)>)
    ensures
        char_pair_views(sorted@) == sort_pairs(pair_views(pairs@)),
{
    let mut sorted: Vec<(Vec<char>, Vec<char>)> = Vec::new();
    let mut i: usize = 0;
    let ghost all = pair_views(pairs@);
    assert(char_pair_views(sorted@) =~= sort_pairs(all.take(0)));
    while i < pairs.len()
        invariant
            i <= pairs@.len(),
            all == pair_views(pairs@),
            char_pair_views(sorted@) == sort_pairs(all.take(i as int)),
        decreases pairs@.len() - i,
    {
        let key = chars_of(pairs[i].0.as_str());
        let value = chars_of(pairs[i].1.as_str());
        insert_by_key(&mut sorted, (key, value));
        proof {
            let front = all.take(i + 1);
            assert(front.drop_last() =~= all.take(i as int));
            assert(front.last() == all[i as int]);
        }
        i = i + 1;
    }
    assert(all.take(i as int) =~= all);
    sorted
}

proof fn lemma_insert_len(sorted: Seq<(Seq<char>, Seq<char>)>, pair: (Seq<char>, Seq<char>))
    ensures
        insert_pair(sorted, pair).len() == sorted.len() + 1,
    decreases sorted.len(),
{
    if sorted.len() != 0 && text::lex_less(pair.0, sorted.last().0) {
        lemma_insert_len(sorted.drop_last(), pair);
    }
}

pub proof fn lemma_sort_len(pairs: Seq<(Seq<char>, Seq<char>)>)
    ensures
        sort_pairs(pairs).len() == pairs.len(),
    decreases pairs.len(),
{
    if pairs.len() != 0 {
        lemma_sort_len(pairs.drop_last());
        lemma_insert_len(sort_pairs(pairs.drop_last()), pairs.last());
    }
}

/// Sorting pairs by key leaves none out and adds none, puts no key before a smaller one,
/// and keeps those with the same key in the order in which they came.
pub proof fn law_pairs_sorted_by_key(pairs: Seq<(Seq<char>, Seq<char>)>)
    ensures
        sort_pairs(pairs).to_multiset() == pairs.to_multiset(),
        forall|i: int, j: int|
            0 <= i < j < sort_pairs(pairs).len() ==> !text::lex_less(
                (#[trigger] sort_pairs(pairs)[j]).0,
                (#[trigger] sort_pairs(pairs)[i]).0,
            ),
        forall|key: Seq<char>|
            #[trigger] with_key(sort_pairs(pairs), key) == with_key(pairs, key),
    decreases pairs.len(),
{
    broadcast use vstd::seq_lib::group_to_multiset_ensures;

    if pairs.len() > 0 {
        let front = pairs.drop_last();
        let last = pairs.last();
        law_pairs_sorted_by_key(front);
        lemma_insert_sorted(sort_pairs(front), last);
        assert(pairs =~= front.push(last));
        assert forall|key: Seq<char>| #[trigger] with_key(sort_pairs(pairs), key) == with_key(
            pairs,
            key,
        ) by {
            lemma_insert_with_key(sort_pairs(front), last, key);
        }
    }
}

/// The pairs with a given key, in order.
pub open spec fn with_key(
    pairs: Seq<(Seq<char>, Seq<char>)>,
    key: Seq<char>,
) -> Seq<(Seq<char>, Seq<char>)>
    decreases pairs.len(),
{
    if pairs.len() == 0 {
        Seq::empty()
    } else if pairs.last().0 == key {
        with_key(pairs.drop_last(), key).push(pairs.last())
    } else {
        with_key(pairs.drop_last(), key)
    }
}

proof fn lemma_insert_with_key(
    sorted: Seq<(Seq<char>, Seq<char>)>,
    pair: (Seq<char>, Seq<char>),
    key: Seq<char>,
)
    ensures
        with_key(insert_pair(sorted, pair), key) == if pair.0 == key {
            with_key(sorted, key).push(pair)
        } else {
            with_key(sorted, key)
        },
    decreases sorted.len(),
{
    if sorted.len() == 0 || !text::lex_less(pair.0, sorted.last().0) {
        assert(sorted.push(pair).drop_last() =~= sorted);
    } else {
        let last = sorted.last();
        lemma_insert_with_key(sorted.drop_last(), pair, key);
        text::lemma_lex_total(pair.0, last.0);
        let inner = insert_pair(sorted.drop_last(), pair);
        assert(inner.push(last).drop_last() =~= inner);
    }
}

proof fn lemma_insert_sorted(
    sorted: Seq<(Seq<char>, Seq<char>)>,
    pair: (Seq<char>, Seq<char>),
)
    requires
        forall|i: int, j: int|
            0 <= i < j < sorted.len() ==> !text::lex_less(
                (#[trigger] sorted[j]).0,
                (#[trigger] sorted[i]).0,
            ),
    ensures
        insert_pair(sorted, pair).to_multiset() == sorted.to_multiset().insert(pair),
        forall|i: int, j: int|
            0 <= i < j < insert_pair(sorted, pair).len() ==> !text::lex_less(
                (#[trigger] insert_pair(sorted, pair)[j]).0,
                (#[trigger] insert_pair(sorted, pair)[i]).0,
            ),
        forall|i: int|
            0 <= i < insert_pair(sorted, pair).len() ==> #[trigger] insert_pair(sorted, pair)[i]
                == pair || sorted.contains(insert_pair(sorted, pair)[i]),
    decreases sorted.len(),
{
    broadcast use vstd::seq_lib::group_to_multiset_ensures;

    let result = insert_pair(sorted, pair);
    if sorted.len() == 0 || !text::lex_less(pair.0, sorted.last().0) {
        assert forall|i: int, j: int| 0 <= i < j < result.len() implies !text::lex_less(
            (#[trigger] result[j]).0,
            (#[trigger] result[i]).0,
        ) by {
            if j == sorted.len() {
                let last = sorted.last();
                if text::lex_less(pair.0, sorted[i].0) {
                    if i < sorted.len() - 1 {
                        text::lemma_lex_total(sorted[i].0, last.0);
                        assert(!text::lex_less(sorted[sorted.len() - 1].0, sorted[i].0));
                        if text::lex_less(sorted[i].0, last.0) {
                            text::lemma_lex_transitive(pair.0, sorted[i].0, last.0);
                        }
                    }
                }
            }
        }
        assert forall|i: int| 0 <= i < result.len() implies #[trigger] result[i] == pair
            || sorted.contains(result[i]) by {
            if i < sorted.len() {
                assert(sorted[i] == result[i]);
            }
        }
    } else {
        let front = sorted.drop_last();
        let last = sorted.last();
        assert forall|i: int, j: int| 0 <= i < j < front.len() implies !text::lex_less(
            (#[trigger] front[j]).0,
            (#[trigger] front[i]).0,
        ) by {
            assert(front[i] == sorted[i] && front[j] == sorted[j]);
        }
        lemma_insert_sorted(front, pair);
        let inner = insert_pair(front, pair);
        assert(sorted =~= front.push(last));
        assert forall|i: int| 0 <= i < inner.len() implies !text::lex_less(
            last.0,
            (#[trigger] inner[i]).0,
        ) by {
            if inner[i] == pair {
                text::lemma_lex_total(pair.0, last.0);
            } else {
                let k = choose|k: int| 0 <= k < front.len() && front[k] == inner[i];
                assert(front[k] == sorted[k]);
                assert(!text::lex_less(sorted[sorted.len() - 1].0, sorted[k].0));
            }
        }
        assert forall|i: int, j: int| 0 <= i < j < result.len() implies !text::lex_less(
            (#[trigger] result[j]).0,
            (#[trigger] result[i]).0,
        ) by {
            if j < inner.len() {
                assert(result[j] == inner[j]);
            }
            assert(result[i] == inner[i]);
        }
        assert forall|i: int| 0 <= i < result.len() implies #[trigger] result[i] == pair
            || sorted.contains(result[i]) by {
            if i < inner.len() {
                assert(result[i] == inner[i]);
                if inner[i] != pair {
                    let k = choose|k: int| 0 <= k < front.len() && front[k] == inner[i];
                    assert(sorted[k] == inner[i]);
                }
            } else {
                assert(sorted[sorted.len() - 1] == last);
            }
        }
        assert(result.to_multiset() =~= sorted.to_multiset().insert(pair));
    }
}

/// The pairs with a key are those that have it, in their order.
pub proof fn law_pairs_with_a_key(pairs: Seq<(Seq<char>, Seq<char>)>, key: Seq<char>)
    ensures
        with_key(pairs, key) == pairs.filter(|pair: (Seq<char>, Seq<char>)| pair.0 == key),
    decreases pairs.len(),
{
    reveal(Seq::filter);
    if pairs.len() > 0 {
        law_pairs_with_a_key(pairs.drop_last(), key);
    } else {
        assert(with_key(pairs, key) =~= pairs);
    }
}

} // verus!
