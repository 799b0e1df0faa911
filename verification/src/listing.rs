//! The places in a list at which something holds.
use vstd::prelude::*;

use crate::digest::Sha1Digest;

verus! {

/// The places below `n` at which a condition holds, in ascending order.
pub open spec fn places(n: nat, holds: spec_fn(int) -> bool) -> Seq<int>
    decreases n,
{
    if n == 0 {
        Seq::empty()
    } else {
        let before = places((n - 1) as nat, holds);
        if holds(n - 1) {
            before.push(n - 1)
        } else {
            before
        }
    }
}

/// The places are those below `n` at which the condition holds, each once and in order.
pub proof fn lemma_places(n: nat, holds: spec_fn(int) -> bool)
    ensures
        forall|i: int| 0 <= i < n && #[trigger] holds(i) ==> places(n, holds).contains(i),
        forall|k: int|
            0 <= k < places(n, holds).len() ==> 0 <= #[trigger] places(n, holds)[k] < n && holds(
                places(n, holds)[k],
            ),
        forall|j: int, k: int|
            0 <= j < k < places(n, holds).len() ==> places(n, holds)[j] < places(n, holds)[k],
        places(n, holds).len() <= n,
    decreases n,
{
    if n > 0 {
        let before = places((n - 1) as nat, holds);
        lemma_places((n - 1) as nat, holds);
        assert forall|i: int| 0 <= i < n && #[trigger] holds(i) implies places(n, holds).contains(i) by {
            if i < n - 1 {
                assert(before.contains(i));
                let k = choose|k: int| 0 <= k < before.len() && before[k] == i;
                assert(places(n, holds)[k] == i);
            } else {
                assert(places(n, holds)[before.len() as int] == i);
            }
        }
    }
}

/// No places means that the condition holds nowhere.
pub proof fn lemma_no_places(n: nat, holds: spec_fn(int) -> bool)
    ensures
        places(n, holds).len() == 0 <==> forall|i: int| 0 <= i < n ==> !#[trigger] holds(i),
{
    lemma_places(n, holds);
    if places(n, holds).len() == 0 {
        assert forall|i: int| 0 <= i < n implies !#[trigger] holds(i) by {
            if holds(i) {
                assert(places(n, holds).contains(i));
            }
        }
    } else {
        let k = places(n, holds)[0];
        assert(holds(k));
    }
}

/// The numbers of digests.
pub open spec fn digest_views(digests: Seq<Sha1Digest>) -> Seq<nat> {
    digests.map_values(|digest: Sha1Digest| digest@)
}

pub proof fn lemma_digest_views_push(digests: Seq<Sha1Digest>, digest: Sha1Digest)
    ensures
        digest_views(digests.push(digest)) == digest_views(digests).push(digest@),
{
    assert(digest_views(digests.push(digest)) =~= digest_views(digests).push(digest@));
}

/// Whether a time is at or after another one, if there is one.
pub open spec fn is_from(time: int, from: Option<int>) -> bool {
    from matches Some(from) ==> time >= from
}

/// Whether rows are sorted by time.
pub open spec fn is_by_time<K>(rows: Seq<(K, int)>) -> bool {
    forall|i: int, j: int|
        0 <= i < j < rows.len() ==> (#[trigger] rows[i]).1 <= (#[trigger] rows[j]).1
}

/// Rows sorted by time, with one more row put behind those that are not later.
pub open spec fn insert_by_time<K>(sorted: Seq<(K, int)>, row: (K, int)) -> Seq<(K, int)>
    decreases sorted.len(),
{
    if sorted.len() == 0 || sorted.last().1 <= row.1 {
        sorted.push(row)
    } else {
        insert_by_time(sorted.drop_last(), row).push(sorted.last())
    }
}

/// The rows at or after a time, sorted by time, those of the same time in the order in which they
/// came.
pub open spec fn selected<K>(rows: Seq<(K, int)>, from: Option<int>) -> Seq<(K, int)>
    decreases rows.len(),
{
    if rows.len() == 0 {
        Seq::empty()
    } else if is_from(rows.last().1, from) {
        insert_by_time(selected(rows.drop_last(), from), rows.last())
    } else {
        selected(rows.drop_last(), from)
    }
}

/// A row is put before the first later row.
pub proof fn lemma_insert_place<K>(sorted: Seq<(K, int)>, row: (K, int), place: int)
    requires
        0 <= place <= sorted.len(),
        place > 0 ==> sorted[place - 1].1 <= row.1,
        forall|i: int| place <= i < sorted.len() ==> row.1 < (#[trigger] sorted[i]).1,
    ensures
        insert_by_time(sorted, row) == sorted.insert(place, row),
    decreases sorted.len(),
{
    if place < sorted.len() {
        let front = sorted.drop_last();
        assert(row.1 < sorted[sorted.len() - 1].1);
        assert forall|i: int| place <= i < front.len() implies row.1 < (#[trigger] front[i]).1 by {
            assert(row.1 < sorted[i].1);
        }
        lemma_insert_place(front, row, place);
        assert(front.insert(place, row).push(sorted.last()) =~= sorted.insert(place, row));
    } else {
        assert(sorted.push(row) =~= sorted.insert(place, row));
    }
}

/// What is put into sorted rows keeps them sorted.
proof fn lemma_insert_by_time<K>(sorted: Seq<(K, int)>, row: (K, int))
    requires
        is_by_time(sorted),
    ensures
        is_by_time(insert_by_time(sorted, row)),
        insert_by_time(sorted, row).len() == sorted.len() + 1,
        forall|x: (K, int)| #[trigger]
            insert_by_time(sorted, row).contains(x) <==> sorted.contains(x) || x == row,
        insert_by_time(sorted, row).last().1 == (if sorted.len() > 0 && sorted.last().1 > row.1 {
            sorted.last().1
        } else {
            row.1
        }),
        sorted.no_duplicates() && !sorted.contains(row) ==> insert_by_time(
            sorted,
            row,
        ).no_duplicates(),
    decreases sorted.len(),
{
    let now = insert_by_time(sorted, row);
    if sorted.len() == 0 || sorted.last().1 <= row.1 {
        lemma_push_contains(sorted, row);
        assert forall|i: int, j: int| 0 <= i < j < now.len() implies (#[trigger] now[i]).1 <= (
        #[trigger] now[j]).1 by {
            if j < sorted.len() {
                assert(sorted[i].1 <= sorted[j].1);
            } else if i < sorted.len() - 1 {
                assert(sorted[i].1 <= sorted[sorted.len() - 1].1);
            }
        }
    } else {
        let front = sorted.drop_last();
        let last = sorted.last();
        assert(is_by_time(front)) by {
            assert forall|i: int, j: int| 0 <= i < j < front.len() implies (#[trigger] front[i]).1
                <= (#[trigger] front[j]).1 by {
                assert(sorted[i].1 <= sorted[j].1);
            }
        }
        lemma_insert_by_time(front, row);
        let inner = insert_by_time(front, row);
        lemma_push_contains(inner, last);
        lemma_push_contains(front, last);
        assert(sorted =~= front.push(last));
        if front.len() > 0 {
            assert(sorted[front.len() - 1].1 <= sorted[sorted.len() - 1].1);
        }
        assert forall|i: int, j: int| 0 <= i < j < now.len() implies (#[trigger] now[i]).1 <= (
        #[trigger] now[j]).1 by {
            if j < inner.len() {
                assert(inner[i].1 <= inner[j].1);
            } else if i < inner.len() - 1 {
                assert(inner[i].1 <= inner[inner.len() - 1].1);
            }
        }
        if sorted.no_duplicates() && !sorted.contains(row) {
            assert(!front.contains(last)) by {
                if front.contains(last) {
                    let k = choose|k: int| 0 <= k < front.len() && front[k] == last;
                    assert(sorted[k] == sorted[sorted.len() - 1]);
                }
            }
            assert(!inner.contains(last));
            assert forall|i: int, j: int|
                0 <= i < now.len() && 0 <= j < now.len() && i != j implies now[i] != now[j] by {
                if i < inner.len() && j < inner.len() {
                    assert(inner[i] != inner[j]);
                } else if i < inner.len() {
                    assert(inner.contains(inner[i]));
                } else {
                    assert(inner.contains(inner[j]));
                }
            }
        }
    }
}

/// What a list holds with one more element.
proof fn lemma_push_contains<T>(s: Seq<T>, e: T)
    ensures
        forall|x: T| #[trigger] s.push(e).contains(x) <==> s.contains(x) || x == e,
{
    assert forall|x: T| #[trigger] s.push(e).contains(x) <==> s.contains(x) || x == e by {
        if s.push(e).contains(x) {
            let i = choose|i: int| 0 <= i < s.push(e).len() && s.push(e)[i] == x;
            if i < s.len() {
                assert(s[i] == x);
            }
        }
        if s.contains(x) {
            let i = choose|i: int| 0 <= i < s.len() && s[i] == x;
            assert(s.push(e)[i] == x);
        }
        assert(s.push(e)[s.len() as int] == e);
    }
}

/// The selected rows are those at or after the time, sorted.
pub proof fn lemma_selected<K>(rows: Seq<(K, int)>, from: Option<int>)
    ensures
        is_by_time(selected(rows, from)),
        forall|x: (K, int)| #[trigger]
            selected(rows, from).contains(x) <==> rows.contains(x) && is_from(x.1, from),
        rows.no_duplicates() ==> selected(rows, from).no_duplicates(),
    decreases rows.len(),
{
    if rows.len() > 0 {
        let front = rows.drop_last();
        let last = rows.last();
        lemma_selected(front, from);
        lemma_push_contains(front, last);
        assert(rows =~= front.push(last));
        if is_from(last.1, from) {
            lemma_insert_by_time(selected(front, from), last);
        }
        if rows.no_duplicates() {
            assert(!front.contains(last)) by {
                if front.contains(last) {
                    let k = choose|k: int| 0 <= k < front.len() && front[k] == last;
                    assert(rows[k] == rows[rows.len() - 1]);
                }
            }
        }
    }
}

/// A row is put behind all that are not later and before all that are.
pub proof fn law_rows_are_put_by_time<K>(sorted: Seq<(K, int)>, row: (K, int), place: int)
    requires
        0 <= place <= sorted.len(),
        forall|i: int| 0 <= i < place ==> (#[trigger] sorted[i]).1 <= row.1,
        forall|i: int| place <= i < sorted.len() ==> row.1 < (#[trigger] sorted[i]).1,
    ensures
        insert_by_time(sorted, row) == sorted.insert(place, row),
{
    lemma_insert_place(sorted, row, place);
}

} // verus!
