//! Tables keyed by text.
use vstd::prelude::*;

use crate::text;
use crate::text::{chars_of, comes_before, same_chars};

verus! {

/// A table from texts to values, kept in the order of its keys.
#[derive(Debug)]
pub struct TextTable<V> {
    entries: Vec<(Vec<char>, V)>,
}

/// Whether each key comes before the keys after it.
pub open spec fn is_sorted<V>(entries: Seq<(Vec<char>, V)>) -> bool {
    forall|i: int, j: int|
        0 <= i < j < entries.len() ==> text::lex_less(
            (#[trigger] entries[i]).0@,
            (#[trigger] entries[j]).0@,
        )
}

/// Whether a key stands at a place.
pub open spec fn stands_at<V>(entries: Seq<(Vec<char>, V)>, key: Seq<char>, i: int) -> bool {
    0 <= i < entries.len() && entries[i].0@ == key
}

/// The values by their keys.
pub open spec fn contents<V>(entries: Seq<(Vec<char>, V)>) -> Map<Seq<char>, V>
    decreases entries.len(),
{
    if entries.len() == 0 {
        Map::empty()
    } else {
        contents(entries.drop_last()).insert(entries.last().0@, entries.last().1)
    }
}

/// In a sorted table, a key is mapped to the value that stands with it.
proof fn lemma_contents<V>(entries: Seq<(Vec<char>, V)>)
    requires
        is_sorted(entries),
    ensures
        forall|i: int|
            0 <= i < entries.len() ==> #[trigger] contents(entries).contains_key(entries[i].0@)
                && contents(entries)[entries[i].0@] == entries[i].1,
        forall|key: Seq<char>| #[trigger]
            contents(entries).contains_key(key) ==> exists|i: int| stands_at(entries, key, i),
        contents(entries).dom().finite(),
        contents(entries).dom().len() == entries.len(),
    decreases entries.len(),
{
    if entries.len() > 0 {
        let before = entries.drop_last();
        let last = entries.len() - 1;
        assert(is_sorted(before)) by {
            assert forall|i: int, j: int| 0 <= i < j < before.len() implies text::lex_less(
                (#[trigger] before[i]).0@,
                (#[trigger] before[j]).0@,
            ) by {
                assert(text::lex_less(entries[i].0@, entries[j].0@));
            }
        }
        lemma_contents(before);
        assert forall|i: int| 0 <= i < last implies entries[i].0@ != entries[last].0@ by {
            assert(text::lex_less(entries[i].0@, entries[last].0@));
            text::lemma_lex_total(entries[i].0@, entries[last].0@);
        }
        assert(!contents(before).contains_key(entries[last].0@)) by {
            if contents(before).contains_key(entries[last].0@) {
                let i = choose|i: int| stands_at(before, entries[last].0@, i);
                assert(entries[i].0@ == entries[last].0@);
            }
        }
        assert forall|i: int| 0 <= i < entries.len() implies #[trigger] contents(
            entries,
        ).contains_key(entries[i].0@) && contents(entries)[entries[i].0@] == entries[i].1 by {
            if i < last {
                assert(before[i] == entries[i]);
                assert(contents(before).contains_key(before[i].0@));
            }
        }
        assert forall|key: Seq<char>| #[trigger] contents(entries).contains_key(
            key,
        ) implies exists|i: int| stands_at(entries, key, i) by {
            if key == entries[last].0@ {
                assert(stands_at(entries, key, last));
            } else {
                assert(contents(before).contains_key(key));
                let i = choose|i: int| stands_at(before, key, i);
                assert(stands_at(entries, key, i));
            }
        }
        assert(contents(entries).dom() =~= contents(before).dom().insert(entries[last].0@));
    }
}

/// Two sorted tables with the same keys and values hold the same.
proof fn lemma_same_contents<V>(entries: Seq<(Vec<char>, V)>, map: Map<Seq<char>, V>)
    requires
        is_sorted(entries),
        forall|i: int|
            0 <= i < entries.len() ==> #[trigger] map.contains_key(entries[i].0@)
                && map[entries[i].0@] == entries[i].1,
        forall|key: Seq<char>| #[trigger]
            map.contains_key(key) ==> exists|i: int| stands_at(entries, key, i),
    ensures
        contents(entries) == map,
{
    lemma_contents(entries);
    assert forall|key: Seq<char>| #[trigger] map.contains_key(key) implies contents(
        entries,
    ).contains_key(key) && contents(entries)[key] == map[key] by {
        let i = choose|i: int| stands_at(entries, key, i);
        assert(contents(entries).contains_key(entries[i].0@));
        assert(map.contains_key(entries[i].0@));
    }
    assert forall|key: Seq<char>| #[trigger] contents(entries).contains_key(
        key,
    ) implies map.contains_key(key) by {
        let i = choose|i: int| stands_at(entries, key, i);
        assert(map.contains_key(entries[i].0@));
    }
    assert(contents(entries) =~= map);
}

impl<V> View for TextTable<V> {
    type V = Map<Seq<char>, V>;

    closed spec fn view(&self) -> Map<Seq<char>, V> {
        contents(self.entries@)
    }
}

impl<V> TextTable<V> {
    #[verifier::type_invariant]
    spec fn is_well_formed(self) -> bool {
        is_sorted(self.entries@)
    }

    /// An empty table.
    pub fn new() -> (table: TextTable<V>)
        ensures
            table@ == Map::<Seq<char>, V>::empty(),
    {
        TextTable { entries: Vec::new() }
    }

    /// How many keys the table has.
    pub fn len(&self) -> (len: usize)
        ensures
            self@.dom().finite(),
            len == self@.dom().len(),
    {
        proof {
            use_type_invariant(self);
            lemma_contents(self.entries@);
        }
        self.entries.len()
    }

    /// The place of a key, or where it would stand.
    fn place(&self, key: &[char]) -> (place: (usize, bool))
        ensures
            place.0 <= self.entries@.len(),
            forall|i: int|
                0 <= i < place.0 ==> text::lex_less((#[trigger] self.entries@[i]).0@, key@),
            place.1 ==> stands_at(self.entries@, key@, place.0 as int),
            !place.1 ==> forall|i: int|
                place.0 <= i < self.entries@.len() ==> text::lex_less(
                    key@,
                    (#[trigger] self.entries@[i]).0@,
                ),
    {
        proof {
            use_type_invariant(self);
        }
        let ghost all = self.entries@;
        let mut low: usize = 0;
        let mut high: usize = self.entries.len();
        while low < high
            invariant
                all == self.entries@,
                is_sorted(all),
                low <= high <= all.len(),
                forall|i: int| 0 <= i < low ==> text::lex_less((#[trigger] all[i]).0@, key@),
                forall|i: int|
                    high <= i < all.len() ==> text::lex_less(key@, (#[trigger] all[i]).0@),
            decreases high - low,
        {
            let middle: usize = low + (high - low) / 2;
            let found = &self.entries[middle].0;
            if comes_before(found, key) {
                assert forall|i: int| 0 <= i < middle + 1 implies text::lex_less(
                    (#[trigger] all[i]).0@,
                    key@,
                ) by {
                    if i < middle {
                        assert(text::lex_less(all[i].0@, all[middle as int].0@));
                        text::lemma_lex_transitive(all[i].0@, all[middle as int].0@, key@);
                    }
                }
                low = middle + 1;
            } else if same_chars(found, key) {
                assert(stands_at(all, key@, middle as int));
                assert forall|i: int| 0 <= i < middle implies text::lex_less(
                    (#[trigger] all[i]).0@,
                    key@,
                ) by {
                    assert(text::lex_less(all[i].0@, all[middle as int].0@));
                }
                return (middle, true);
            } else {
                proof {
                    text::lemma_lex_total(found@, key@);
                }
                assert forall|i: int| middle <= i < all.len() implies text::lex_less(
                    key@,
                    (#[trigger] all[i]).0@,
                ) by {
                    if i > middle {
                        assert(text::lex_less(all[middle as int].0@, all[i].0@));
                        text::lemma_lex_transitive(key@, all[middle as int].0@, all[i].0@);
                    }
                }
                high = middle;
            }
        }
        (low, false)
    }

    /// Where a key stands nowhere, the table does not have it.
    proof fn lemma_absent(&self, key: Seq<char>, place: int)
        requires
            is_sorted(self.entries@),
            0 <= place <= self.entries@.len(),
            forall|i: int|
                0 <= i < place ==> text::lex_less((#[trigger] self.entries@[i]).0@, key),
            forall|i: int|
                place <= i < self.entries@.len() ==> text::lex_less(
                    key,
                    (#[trigger] self.entries@[i]).0@,
                ),
        ensures
            !self@.contains_key(key),
    {
        lemma_contents(self.entries@);
        if self@.contains_key(key) {
            let i = choose|i: int| stands_at(self.entries@, key, i);
            text::lemma_lex_total(self.entries@[i].0@, key);
        }
    }

    /// The value of a key, if the table has it.
    pub fn get(&self, key: &str) -> (value: Option<&V>)
        ensures
            match value {
                Some(value) => self@.contains_key(key@) && *value == self@[key@],
                None => !self@.contains_key(key@),
            },
    {
        proof {
            use_type_invariant(self);
            lemma_contents(self.entries@);
        }
        let chars = chars_of(key);
        let (place, found) = self.place(&chars);
        if found {
            assert(self@.contains_key(self.entries@[place as int].0@));
            Some(&self.entries[place].1)
        } else {
            proof {
                self.lemma_absent(key@, place as int);
            }
            None
        }
    }

    /// Whether the table has a key.
    pub fn contains_key(&self, key: &str) -> (found: bool)
        ensures
            found == self@.contains_key(key@),
    {
        self.get(key).is_some()
    }

    /// Maps a key to a value, in place of the value that it had.
    pub fn insert(&mut self, key: &str, value: V)
        ensures
            final(self)@ == old(self)@.insert(key@, value),
    {
        proof {
            use_type_invariant(&*self);
            lemma_contents(self.entries@);
        }
        let chars = chars_of(key);
        let (place, found) = self.place(&chars);
        let ghost before = self.entries@;
        let ghost expected = self@.insert(key@, value);
        let mut entries: Vec<(Vec<char>, V)> = Vec::new();
        std::mem::swap(&mut entries, &mut self.entries);
        if found {
            entries.set(place, (chars, value));
            proof {
                assert forall|i: int, j: int| 0 <= i < j < entries@.len() implies text::lex_less(
                    (#[trigger] entries@[i]).0@,
                    (#[trigger] entries@[j]).0@,
                ) by {
                    assert(text::lex_less(before[i].0@, before[j].0@));
                }
                assert forall|i: int| 0 <= i < entries@.len() implies #[trigger] expected.contains_key(
                    entries@[i].0@,
                ) && expected[entries@[i].0@] == entries@[i].1 by {
                    if i != place {
                        assert(contents(before).contains_key(before[i].0@));
                        if i < place {
                            assert(text::lex_less(before[i].0@, before[place as int].0@));
                        } else {
                            assert(text::lex_less(before[place as int].0@, before[i].0@));
                        }
                        text::lemma_lex_total(before[i].0@, before[place as int].0@);
                    }
                }
                assert forall|key: Seq<char>| #[trigger] expected.contains_key(
                    key,
                ) implies exists|i: int| stands_at(entries@, key, i) by {
                    if key == chars@ {
                        assert(stands_at(entries@, key, place as int));
                    } else {
                        assert(contents(before).contains_key(key));
                        let i = choose|i: int| stands_at(before, key, i);
                        assert(stands_at(entries@, key, i));
                    }
                }
            }
        } else {
            entries.insert(place, (chars, value));
            proof {
                assert forall|i: int, j: int| 0 <= i < j < entries@.len() implies text::lex_less(
                    (#[trigger] entries@[i]).0@,
                    (#[trigger] entries@[j]).0@,
                ) by {
                    let i2 = if i > place {
                        i - 1
                    } else {
                        i
                    };
                    let j2 = if j > place {
                        j - 1
                    } else {
                        j
                    };
                    if i == place {
                        assert(text::lex_less(chars@, before[j2].0@));
                    } else if j == place {
                        assert(text::lex_less(before[i2].0@, chars@));
                    } else {
                        assert(text::lex_less(before[i2].0@, before[j2].0@));
                    }
                }
                assert forall|i: int| 0 <= i < entries@.len() implies #[trigger] expected.contains_key(
                    entries@[i].0@,
                ) && expected[entries@[i].0@] == entries@[i].1 by {
                    if i != place {
                        let i2 = if i > place {
                            i - 1
                        } else {
                            i
                        };
                        assert(entries@[i] == before[i2]);
                        assert(contents(before).contains_key(before[i2].0@));
                        text::lemma_lex_total(before[i2].0@, chars@);
                    }
                }
                assert forall|key: Seq<char>| #[trigger] expected.contains_key(
                    key,
                ) implies exists|i: int| stands_at(entries@, key, i) by {
                    if key == chars@ {
                        assert(stands_at(entries@, key, place as int));
                    } else {
                        assert(contents(before).contains_key(key));
                        let i = choose|i: int| stands_at(before, key, i);
                        if i < place {
                            assert(stands_at(entries@, key, i));
                        } else {
                            assert(entries@[i + 1] == before[i]);
                            assert(stands_at(entries@, key, i + 1));
                        }
                    }
                }
            }
        }
        proof {
            lemma_same_contents(entries@, expected);
        }
        *self = TextTable { entries };
    }
}

} // verus!
