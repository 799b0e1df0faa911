//! Tables keyed by digest.
use vstd::prelude::*;

use crate::digest;
use crate::digest::Sha1Digest;

verus! {

/// A table from digests to values, kept in the order of its keys.
#[derive(Debug)]
pub struct DigestTable<V> {
    entries: Vec<(Sha1Digest, V)>,
}

/// Whether each key comes before the keys after it.
pub open spec fn is_sorted<V>(entries: Seq<(Sha1Digest, V)>) -> bool {
    forall|i: int, j: int|
        0 <= i < j < entries.len() ==> (#[trigger] entries[i]).0@ < (#[trigger] entries[j]).0@
}

/// Whether a key stands at a place.
pub open spec fn stands_at<V>(entries: Seq<(Sha1Digest, V)>, key: nat, i: int) -> bool {
    0 <= i < entries.len() && entries[i].0@ == key
}

/// The values by their keys.
pub open spec fn contents<V>(entries: Seq<(Sha1Digest, V)>) -> Map<nat, V>
    decreases entries.len(),
{
    if entries.len() == 0 {
        Map::empty()
    } else {
        contents(entries.drop_last()).insert(entries.last().0@, entries.last().1)
    }
}

/// In a sorted table, a key is mapped to the value that stands with it.
proof fn lemma_contents<V>(entries: Seq<(Sha1Digest, V)>)
    requires
        is_sorted(entries),
    ensures
        forall|i: int|
            0 <= i < entries.len() ==> #[trigger] contents(entries).contains_key(entries[i].0@)
                && contents(entries)[entries[i].0@] == entries[i].1,
        forall|key: nat| #[trigger]
            contents(entries).contains_key(key) ==> exists|i: int| stands_at(entries, key, i),
    decreases entries.len(),
{
    if entries.len() > 0 {
        let before = entries.drop_last();
        let last = entries.len() - 1;
        lemma_contents(before);
        assert forall|i: int| 0 <= i < entries.len() implies #[trigger] contents(
            entries,
        ).contains_key(entries[i].0@) && contents(entries)[entries[i].0@] == entries[i].1 by {
            if i < last {
                assert(before[i] == entries[i]);
                assert(contents(before).contains_key(before[i].0@));
                assert(entries[i].0@ < entries[last].0@);
            }
        }
        assert forall|key: nat| #[trigger] contents(entries).contains_key(key) implies exists|
            i: int,
        | stands_at(entries, key, i) by {
            if key == entries[last].0@ {
                assert(stands_at(entries, key, last));
            } else {
                assert(contents(before).contains_key(key));
                let i = choose|i: int| stands_at(before, key, i);
                assert(stands_at(entries, key, i));
            }
        }
    }
}

/// A sorted table with the keys and values of a map holds the map.
proof fn lemma_same_contents<V>(entries: Seq<(Sha1Digest, V)>, map: Map<nat, V>)
    requires
        is_sorted(entries),
        forall|i: int|
            0 <= i < entries.len() ==> #[trigger] map.contains_key(entries[i].0@)
                && map[entries[i].0@] == entries[i].1,
        forall|key: nat| #[trigger]
            map.contains_key(key) ==> exists|i: int| stands_at(entries, key, i),
    ensures
        contents(entries) == map,
{
    lemma_contents(entries);
    assert forall|key: nat| #[trigger] map.contains_key(key) implies contents(entries).contains_key(
        key,
    ) && contents(entries)[key] == map[key] by {
        let i = choose|i: int| stands_at(entries, key, i);
        assert(contents(entries).contains_key(entries[i].0@));
        assert(map.contains_key(entries[i].0@));
    }
    assert forall|key: nat| #[trigger] contents(entries).contains_key(key) implies map.contains_key(
        key,
    ) by {
        let i = choose|i: int| stands_at(entries, key, i);
        assert(map.contains_key(entries[i].0@));
    }
    assert(contents(entries) =~= map);
}

impl<V> View for DigestTable<V> {
    type V = Map<nat, V>;

    open spec fn view(&self) -> Map<nat, V> {
        contents(self.all())
    }
}

impl<V> DigestTable<V> {
    #[verifier::type_invariant]
    spec fn is_well_formed(self) -> bool {
        is_sorted(self.entries@)
    }

    /// The keys and values, in the order of the keys.
    pub closed spec fn all(&self) -> Seq<(Sha1Digest, V)> {
        self.entries@
    }

    /// An empty table.
    pub fn new() -> (table: DigestTable<V>)
        ensures
            table.all() == Seq::<(Sha1Digest, V)>::empty(),
            table@ == Map::<nat, V>::empty(),
    {
        DigestTable { entries: Vec::new() }
    }

    /// The keys and values, in the order of the keys, which are distinct.
    pub fn entries(&self) -> (entries: &Vec<(Sha1Digest, V)>)
        ensures
            entries@ == self.all(),
            is_sorted(self.all()),
            forall|i: int|
                0 <= i < self.all().len() ==> #[trigger] self@.contains_key(self.all()[i].0@)
                    && self@[self.all()[i].0@] == self.all()[i].1,
            forall|key: nat| #[trigger]
                self@.contains_key(key) ==> exists|i: int| stands_at(self.all(), key, i),
    {
        proof {
            use_type_invariant(self);
            lemma_contents(self.entries@);
        }
        &self.entries
    }

    /// Hands over the keys and values, in the order of the keys, which are distinct.
    pub fn into_entries(self) -> (entries: Vec<(Sha1Digest, V)>)
        ensures
            entries@ == self.all(),
            is_sorted(self.all()),
    {
        proof {
            use_type_invariant(&self);
        }
        self.entries
    }

    /// The place of a key, or where it would stand.
    fn place(&self, key: &Sha1Digest) -> (place: (usize, bool))
        ensures
            place.0 <= self.entries@.len(),
            forall|i: int| 0 <= i < place.0 ==> (#[trigger] self.entries@[i]).0@ < key@,
            place.1 ==> stands_at(self.entries@, key@, place.0 as int),
            !place.1 ==> forall|i: int|
                place.0 <= i < self.entries@.len() ==> key@ < (#[trigger] self.entries@[i]).0@,
    {
        proof {
            use_type_invariant(self);
        }
        let ghost all = self.entries@;
        let mut low: usize = 0;
        let mut high: usize = self.entries.len();
        while low < high
            invariant
                all == self.entries@,
                is_sorted(all),
                low <= high <= all.len(),
                forall|i: int| 0 <= i < low ==> (#[trigger] all[i]).0@ < key@,
                forall|i: int| high <= i < all.len() ==> key@ < (#[trigger] all[i]).0@,
            decreases high - low,
        {
            let middle: usize = low + (high - low) / 2;
            let found = &self.entries[middle].0;
            if found.is_before(key) {
                assert forall|i: int| 0 <= i < middle + 1 implies (#[trigger] all[i]).0@ < key@ by {
                    if i < middle {
                        assert(all[i].0@ < all[middle as int].0@);
                    }
                }
                low = middle + 1;
            } else if key.is_before(found) {
                assert forall|i: int| middle <= i < all.len() implies key@ < (
                #[trigger] all[i]).0@ by {
                    if i > middle {
                        assert(all[middle as int].0@ < all[i].0@);
                    }
                }
                high = middle;
            } else {
                assert(stands_at(all, key@, middle as int));
                assert forall|i: int| 0 <= i < middle implies (#[trigger] all[i]).0@ < key@ by {
                    assert(all[i].0@ < all[middle as int].0@);
                }
                return (middle, true);
            }
        }
        (low, false)
    }

    /// The value of a key, if the table has it.
    pub fn get(&self, key: &Sha1Digest) -> (value: Option<&V>)
        ensures
            match value {
                Some(value) => self@.contains_key(key@) && *value == self@[key@],
                None => !self@.contains_key(key@),
            },
    {
        proof {
            use_type_invariant(self);
            lemma_contents(self.entries@);
        }
        let (place, found) = self.place(key);
        if found {
            assert(self@.contains_key(self.entries@[place as int].0@));
            Some(&self.entries[place].1)
        } else {
            proof {
                if self@.contains_key(key@) {
                    let i = choose|i: int| stands_at(self.entries@, key@, i);
                    assert(self.entries@[i].0@ == key@);
                }
            }
            None
        }
    }

    /// Whether the table has a key.
    pub fn contains_key(&self, key: &Sha1Digest) -> (found: bool)
        ensures
            found == self@.contains_key(key@),
    {
        self.get(key).is_some()
    }

    /// Maps a key to a value, and gives the value that it had.
    pub fn insert(&mut self, key: Sha1Digest, value: V) -> (previous: Option<V>)
        ensures
            final(self)@ == old(self)@.insert(key@, value),
            previous == if old(self)@.contains_key(key@) {
                Some(old(self)@[key@])
            } else {
                None
            },
    {
        proof {
            use_type_invariant(&*self);
            lemma_contents(self.entries@);
        }
        let (place, found) = self.place(&key);
        let ghost before = self.entries@;
        let ghost expected = self@.insert(key@, value);
        let mut entries: Vec<(Sha1Digest, V)> = Vec::new();
        std::mem::swap(&mut entries, &mut self.entries);
        let mut previous: Option<V> = None;
        if found {
            let (_, replaced) = entries.remove(place);
            previous = Some(replaced);
            assert(contents(before).contains_key(before[place as int].0@));
        } else {
            proof {
                if contents(before).contains_key(key@) {
                    let i = choose|i: int| stands_at(before, key@, i);
                    assert(before[i].0@ == key@);
                }
            }
        }
        entries.insert(place, (key, value));
        proof {
            let now = entries@;
            let shift: int = if found {
                0
            } else {
                1
            };
            assert forall|i: int| 0 <= i < now.len() && i != place implies (#[trigger] now[i])
                == before[if i > place {
                i - shift
            } else {
                i
            }] by {}
            assert forall|i: int, j: int| 0 <= i < j < now.len() implies (#[trigger] now[i]).0@ < (
            #[trigger] now[j]).0@ by {
                let i2 = if i > place {
                    i - shift
                } else {
                    i
                };
                let j2 = if j > place {
                    j - shift
                } else {
                    j
                };
                if i == place {
                    if found {
                        assert(before[place as int].0@ < before[j2].0@);
                    } else {
                        assert(key@ < before[j2].0@);
                    }
                } else if j == place {
                    assert(before[i2].0@ < key@);
                } else {
                    assert(before[i2].0@ < before[j2].0@);
                }
            }
            assert forall|i: int| 0 <= i < now.len() implies #[trigger] expected.contains_key(
                now[i].0@,
            ) && expected[now[i].0@] == now[i].1 by {
                if i != place {
                    let i2 = if i > place {
                        i - shift
                    } else {
                        i
                    };
                    assert(now[i] == before[i2]);
                    assert(contents(before).contains_key(before[i2].0@));
                    if i < place {
                        assert(now[i].0@ < now[place as int].0@);
                    } else {
                        assert(now[place as int].0@ < now[i].0@);
                    }
                }
            }
            assert forall|k: nat| #[trigger] expected.contains_key(k) implies exists|i: int|
                stands_at(now, k, i) by {
                if k == key@ {
                    assert(stands_at(now, k, place as int));
                } else {
                    assert(contents(before).contains_key(k));
                    let i = choose|i: int| stands_at(before, k, i);
                    if i < place {
                        assert(stands_at(now, k, i));
                    } else {
                        assert(now[i + shift] == before[i]);
                        assert(stands_at(now, k, i + shift));
                    }
                }
            }
            lemma_same_contents(now, expected);
        }
        *self = DigestTable { entries };
        previous
    }
}

} // verus!
