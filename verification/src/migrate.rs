//! Migrating snapshot lines from the old format to the new one.
//!
//! The old format stored `closing_whitespace` as a top-level string field and `format` as an
//! optional string. The new format nests both inside a `format` object, with `closing_whitespace` as
//! a field and the old string as the `type` key.
use vstd::prelude::*;

use crate::exact::{CONTENT_KEY, EXPECTED_DIGEST_KEY, FORMAT_KEY, TIMESTAMP_KEY, URL_KEY, VALUE_START};
use crate::format::{find_field, CLOSING_WHITESPACE_KEY, TYPE_KEY, UTF8_NAME};
use crate::json;
use crate::json::{compact, object_text, parse_fields, parse_string, string_text};
use crate::pairs;
use crate::text;
use crate::text::{append, chars_of, comes_before, same_str};

verus! {

/// The key of the digest.
pub const DIGEST_KEY: &'static str = "digest";

/// The line is not a JSON object, or the fields that move are not JSON that can be rewritten.
#[derive(Clone, Copy, Debug, PartialEq, Eq, Structural)]
pub struct InvalidJson;

/// Sorted fields with one more field, in place of one with the same key.
pub open spec fn put_pair(
    sorted: Seq<(Seq<char>, Seq<char>)>,
    pair: (Seq<char>, Seq<char>),
) -> Seq<(Seq<char>, Seq<char>)>
    decreases sorted.len(),
{
    if sorted.len() == 0 {
        seq![pair]
    } else if text::lex_less(pair.0, sorted.last().0) {
        put_pair(sorted.drop_last(), pair).push(sorted.last())
    } else if pair.0 == sorted.last().0 {
        sorted.drop_last().push(pair)
    } else {
        sorted.push(pair)
    }
}

/// What was put among JSON values is JSON again.
proof fn lemma_put_is_json(sorted: Seq<(Seq<char>, Seq<char>)>, pair: (Seq<char>, Seq<char>))
    requires
        json::are_json(sorted),
        json::is_json(pair.1),
    ensures
        json::are_json(put_pair(sorted, pair)),
    decreases sorted.len(),
{
    if sorted.len() > 0 {
        assert forall|i: int| 0 <= i < sorted.drop_last().len() implies json::is_json(
            (#[trigger] sorted.drop_last()[i]).1,
        ) by {
            assert(json::is_json(sorted[i].1));
        }
        assert(json::is_json(sorted[sorted.len() - 1].1));
        lemma_put_is_json(sorted.drop_last(), pair);
    }
}

/// Puts a field among sorted fields, in place of one with the same key.
fn put(fields: &mut Vec<(String, String)>, key: &str, value: String)
    ensures
        pairs::pair_views(final(fields)@) == put_pair(
            pairs::pair_views(old(fields)@),
            (key@, value@),
        ),
{
    let wanted = chars_of(key);
    let ghost all = pairs::pair_views(fields@);
    let ghost pair = (key@, value@);
    let mut j: usize = fields.len();
    assert(all.take(j as int) =~= all);
    assert(put_pair(all, pair) + all.skip(j as int) =~= put_pair(all, pair));
    while j > 0
        invariant
            j <= fields@.len(),
            fields@ == old(fields)@,
            all == pairs::pair_views(fields@),
            wanted@ == key@,
            pair == (key@, value@),
            put_pair(all.take(j as int), pair) + all.skip(j as int) == put_pair(all, pair),
        decreases j,
    {
        let found = chars_of(fields[j - 1].0.as_str());
        let ghost front = all.take(j as int);
        proof {
            assert(front.last() == all[j - 1]);
            assert(front.drop_last() =~= all.take(j - 1));
        }
        if comes_before(&wanted, &found) {
            proof {
                assert(put_pair(all.take(j - 1), pair).push(all[j - 1]) + all.skip(j as int)
                    =~= put_pair(all.take(j - 1), pair) + all.skip(j - 1));
            }
            j = j - 1;
        } else if same_str(fields[j - 1].0.as_str(), key) {
            fields.set(j - 1, (key.to_owned(), value));
            assert(pairs::pair_views(fields@) =~= all.take(j - 1).push(pair) + all.skip(j as int));
            return;
        } else {
            fields.insert(j, (key.to_owned(), value));
            assert(pairs::pair_views(fields@) =~= front.push(pair) + all.skip(j as int));
            return;
        }
    }
    fields.insert(0, (key.to_owned(), value));
    assert(all.take(0) =~= Seq::empty());
    assert(pairs::pair_views(fields@) =~= seq![pair] + all.skip(0));
}

/// The fields of the new format object that the old format gives, or `None` if it cannot be
/// rewritten: the name of a format other than plain text, or the fields of an object.
pub open spec fn old_format_fields(format: Option<Seq<char>>) -> Option<
    Seq<(Seq<char>, Seq<char>)>,
> {
    match format {
        None => Some(Seq::empty()),
        Some(raw) => match json::json_compact(raw) {
            None => None,
            Some(value) => Some(
                match json::json_string(value) {
                    Some(name) => if name == UTF8_NAME@ {
                        Seq::empty()
                    } else {
                        seq![(TYPE_KEY@, json::json_string_text(name))]
                    },
                    None => match json::json_fields(value) {
                        Some(fields) => fields,
                        None => Seq::empty(),
                    },
                },
            ),
        },
    }
}

/// The fields of the new format object, or `None` if the old values cannot be rewritten.
pub open spec fn new_format_fields(
    format: Option<Seq<char>>,
    closing_whitespace: Option<Seq<char>>,
) -> Option<Seq<(Seq<char>, Seq<char>)>> {
    match old_format_fields(format) {
        None => None,
        Some(fields) => match closing_whitespace {
            None => Some(fields),
            Some(raw) => match json::json_compact(raw) {
                Some(value) => Some(put_pair(fields, (CLOSING_WHITESPACE_KEY@, value))),
                None => None,
            },
        },
    }
}

/// A key and a value, as they stand in an object.
pub open spec fn member(key: Seq<char>, value: Seq<char>) -> Seq<char> {
    seq!['"'] + key + VALUE_START@ + value
}

/// The member for a key, if it has a value.
pub open spec fn optional_member(key: Seq<char>, value: Option<Seq<char>>) -> Seq<Seq<char>> {
    match value {
        Some(value) => seq![member(key, value)],
        None => Seq::empty(),
    }
}

/// The members of a migrated line, in the canonical field order.
pub open spec fn migrated_members(
    fields: Seq<(Seq<char>, Seq<char>)>,
    format: Seq<(Seq<char>, Seq<char>)>,
) -> Seq<Seq<char>> {
    optional_member(DIGEST_KEY@, crate::format::field(fields, DIGEST_KEY@)) + optional_member(
        EXPECTED_DIGEST_KEY@,
        crate::format::field(fields, EXPECTED_DIGEST_KEY@),
    ) + optional_member(TIMESTAMP_KEY@, crate::format::field(fields, TIMESTAMP_KEY@))
        + optional_member(URL_KEY@, crate::format::field(fields, URL_KEY@)) + optional_member(
        FORMAT_KEY@,
        if format.len() == 0 {
            None
        } else {
            Some(json::json_object_text(format))
        },
    ) + optional_member(CONTENT_KEY@, crate::format::field(fields, CONTENT_KEY@))
}

/// A migrated line.
pub open spec fn migrated_text(members: Seq<Seq<char>>) -> Seq<char> {
    seq!['{'] + text::join(members, seq![',']) + seq!['}']
}

/// What the fields of a line migrate to, or `None` if they cannot.
pub open spec fn migrated_line(fields: Seq<(Seq<char>, Seq<char>)>) -> Option<Seq<char>> {
    match new_format_fields(
        crate::format::field(fields, FORMAT_KEY@),
        crate::format::field(fields, CLOSING_WHITESPACE_KEY@),
    ) {
        Some(format) => Some(migrated_text(migrated_members(fields, format))),
        None => None,
    }
}

/// A member written behind others.
proof fn lemma_join_push(members: Seq<Seq<char>>, last: Seq<char>)
    ensures
        text::join(members.push(last), seq![',']) == if members.len() == 0 {
            last
        } else {
            text::join(members, seq![',']) + seq![','] + last
        },
{
    assert(members.push(last).drop_last() =~= members);
}

/// Writes a member behind those that are written.
fn push_member(out: &mut String, count: usize, key: &str, value: &str, Ghost(members): Ghost<
    Seq<Seq<char>>,
>)
    requires
        count == members.len(),
        old(out)@ == seq!['{'] + text::join(members, seq![',']),
    ensures
        final(out)@ == seq!['{'] + text::join(members.push(member(key@, value@)), seq![',']),
{
    if count > 0 {
        out.push(',');
    }
    out.push('"');
    append(out, key);
    append(out, VALUE_START);
    append(out, value);
    proof {
        lemma_join_push(members, member(key@, value@));
        if count == 0 {
            assert(text::join(members, seq![',']) =~= Seq::empty());
        }
    }
    assert(out@ =~= seq!['{'] + text::join(members.push(member(key@, value@)), seq![',']));
}

/// The fields of the new format object.
fn new_format(fields: &Vec<(String, String)>) -> (result: Result<
    Vec<(String, String)>,
    InvalidJson,
>)
    requires
        json::are_json(pairs::pair_views(fields@)),
    ensures
        ({
            let expected = new_format_fields(
                crate::format::field(pairs::pair_views(fields@), FORMAT_KEY@),
                crate::format::field(pairs::pair_views(fields@), CLOSING_WHITESPACE_KEY@),
            );
            match result {
                Ok(format) => {
                    &&& expected == Some(pairs::pair_views(format@))
                    &&& json::are_json(pairs::pair_views(format@))
                },
                Err(_) => expected is None,
            }
        }),
{
    let ghost none: Seq<(String, String)> = Seq::empty();
    assert(pairs::pair_views(none) =~= Seq::empty());
    let mut format: Vec<(String, String)> = Vec::new();
    if let Some(raw) = find_field(fields, FORMAT_KEY) {
        let value = match compact(raw) {
            Some(value) => value,
            None => return Err(InvalidJson),
        };
        match parse_string(value.as_str()) {
            Some(name) => {
                if !same_str(name.as_str(), UTF8_NAME) {
                    format.push((TYPE_KEY.to_owned(), string_text(name.as_str())));
                    assert(pairs::pair_views(format@) =~= seq![
                        (TYPE_KEY@, json::json_string_text(name@)),
                    ]);
                }
            },
            None => {
                if let Some(found) = parse_fields(value.as_str()) {
                    format = found;
                }
            },
        }
    }
    if let Some(raw) = find_field(fields, CLOSING_WHITESPACE_KEY) {
        let value = match compact(raw) {
            Some(value) => value,
            None => return Err(InvalidJson),
        };
        proof {
            lemma_put_is_json(pairs::pair_views(format@), (CLOSING_WHITESPACE_KEY@, value@));
        }
        put(&mut format, CLOSING_WHITESPACE_KEY, value);
    }
    Ok(format)
}

/// Writes a member behind those that are written, if there is a value.
fn push_optional(
    out: &mut String,
    count: usize,
    key: &str,
    value: Option<&str>,
    Ghost(members): Ghost<Seq<Seq<char>>>,
) -> (written: usize)
    requires
        count == members.len(),
        count < usize::MAX,
        old(out)@ == seq!['{'] + text::join(members, seq![',']),
    ensures
        final(out)@ == seq!['{'] + text::join(
            members + optional_member(key@, text::str_view(value)),
            seq![','],
        ),
        written == (members + optional_member(key@, text::str_view(value))).len(),
        written <= count + 1,
{
    match value {
        Some(value) => {
            push_member(out, count, key, value, Ghost(members));
            assert(members + optional_member(key@, Some(value@)) =~= members.push(
                member(key@, value@),
            ));
            count + 1
        },
        None => {
            assert(members + optional_member(key@, None) =~= members);
            count
        },
    }
}

/// Writes the members of a migrated line.
pub fn migrate_fields(fields: &Vec<(String, String)>) -> (result: Result<String, InvalidJson>)
    requires
        json::are_json(pairs::pair_views(fields@)),
    ensures
        match result {
            Ok(migrated) => migrated_line(pairs::pair_views(fields@)) == Some(migrated@),
            Err(_) => migrated_line(pairs::pair_views(fields@)) is None,
        },
{
    let ghost views = pairs::pair_views(fields@);
    let format = match new_format(fields) {
        Ok(format) => format,
        Err(error) => return Err(error),
    };
    let object: String = if format.len() > 0 {
        object_text(&format)
    } else {
        String::new()
    };
    let format_value: Option<&str> = if format.len() > 0 {
        Some(object.as_str())
    } else {
        None
    };
    let mut out = String::new();
    out.push('{');
    let ghost none: Seq<Seq<char>> = Seq::empty();
    assert(out@ =~= seq!['{'] + text::join(none, seq![',']));
    let count: usize = push_optional(
        &mut out,
        0,
        DIGEST_KEY,
        find_field(fields, DIGEST_KEY),
        Ghost(none),
    );
    let ghost first = none + optional_member(
        DIGEST_KEY@,
        crate::format::field(views, DIGEST_KEY@),
    );
    let count: usize = push_optional(
        &mut out,
        count,
        EXPECTED_DIGEST_KEY,
        find_field(fields, EXPECTED_DIGEST_KEY),
        Ghost(first),
    );
    let ghost second = first + optional_member(
        EXPECTED_DIGEST_KEY@,
        crate::format::field(views, EXPECTED_DIGEST_KEY@),
    );
    let count: usize = push_optional(
        &mut out,
        count,
        TIMESTAMP_KEY,
        find_field(fields, TIMESTAMP_KEY),
        Ghost(second),
    );
    let ghost third = second + optional_member(
        TIMESTAMP_KEY@,
        crate::format::field(views, TIMESTAMP_KEY@),
    );
    let count: usize = push_optional(
        &mut out,
        count,
        URL_KEY,
        find_field(fields, URL_KEY),
        Ghost(third),
    );
    let ghost fourth = third + optional_member(URL_KEY@, crate::format::field(views, URL_KEY@));
    let count: usize = push_optional(&mut out, count, FORMAT_KEY, format_value, Ghost(fourth));
    let ghost fifth = fourth + optional_member(FORMAT_KEY@, text::str_view(format_value));
    push_optional(&mut out, count, CONTENT_KEY, find_field(fields, CONTENT_KEY), Ghost(fifth));
    let ghost last = fifth + optional_member(
        CONTENT_KEY@,
        crate::format::field(views, CONTENT_KEY@),
    );
    out.push('}');
    proof {
        assert(none + optional_member(DIGEST_KEY@, crate::format::field(views, DIGEST_KEY@))
            =~= optional_member(DIGEST_KEY@, crate::format::field(views, DIGEST_KEY@)));
        assert(last == migrated_members(views, pairs::pair_views(format@)));
        assert(out@ =~= migrated_text(last));
    }
    Ok(out)
}

/// Rewrites one old-format snapshot line into the new format, preserving every other field's bytes.
pub fn migrate_snapshot_line(line: &str) -> (result: Result<String, InvalidJson>)
    ensures
        match result {
            Ok(migrated) => json::json_fields(line@) matches Some(fields) && migrated_line(fields)
                == Some(migrated@),
            Err(_) => json::json_fields(line@) matches Some(fields) ==> migrated_line(fields) is None,
        },
{
    match parse_fields(line) {
        Some(fields) => migrate_fields(&fields),
        None => Err(InvalidJson),
    }
}

/// Every member stands in the joined text.
proof fn lemma_joined_has_member(members: Seq<Seq<char>>, k: int) -> (at: int)
    requires
        0 <= k < members.len(),
    ensures
        text::has_at(text::join(members, seq![',']), at, members[k]),
    decreases members.len(),
{
    let all = text::join(members, seq![',']);
    if members.len() == 1 {
        assert(all.subrange(0, members[0].len() as int) =~= members[0]);
        0
    } else if k == members.len() - 1 {
        let at = text::join(members.drop_last(), seq![',']).len() as int + 1;
        assert(all.subrange(at, at + members[k].len()) =~= members[k]);
        at
    } else {
        let front = members.drop_last();
        let at = lemma_joined_has_member(front, k);
        assert(all.subrange(at, at + members[k].len()) =~= text::join(front, seq![',']).subrange(
            at,
            at + members[k].len(),
        ));
        at
    }
}

/// A member of a migrated line stands in it as it was.
proof fn lemma_migrated_has_member(members: Seq<Seq<char>>, k: int)
    requires
        0 <= k < members.len(),
    ensures
        exists|at: int| text::has_at(migrated_text(members), at, members[k]),
{
    let inner = text::join(members, seq![',']);
    let at = lemma_joined_has_member(members, k);
    assert(migrated_text(members).subrange(at + 1, at + 1 + members[k].len()) =~= inner.subrange(
        at,
        at + members[k].len(),
    ));
    assert(text::has_at(migrated_text(members), at + 1, members[k]));
}

/// Migration keeps the exact JSON text of the digest, expected digest, timestamp, URL and content of
/// a line.
pub proof fn law_migration_keeps_values(
    fields: Seq<(Seq<char>, Seq<char>)>,
    key: Seq<char>,
)
    requires
        migrated_line(fields) is Some,
        key == DIGEST_KEY@ || key == EXPECTED_DIGEST_KEY@ || key == TIMESTAMP_KEY@ || key == URL_KEY@
            || key == CONTENT_KEY@,
        crate::format::field(fields, key) is Some,
    ensures
        exists|at: int| #[trigger]
            text::has_at(
                migrated_line(fields).unwrap(),
                at,
                member(key, crate::format::field(fields, key).unwrap()),
            ),
{
    let format = new_format_fields(
        crate::format::field(fields, FORMAT_KEY@),
        crate::format::field(fields, CLOSING_WHITESPACE_KEY@),
    ).unwrap();
    let members = migrated_members(fields, format);
    let wanted = member(key, crate::format::field(fields, key).unwrap());
    let p0 = optional_member(DIGEST_KEY@, crate::format::field(fields, DIGEST_KEY@));
    let p1 = optional_member(
        EXPECTED_DIGEST_KEY@,
        crate::format::field(fields, EXPECTED_DIGEST_KEY@),
    );
    let p2 = optional_member(TIMESTAMP_KEY@, crate::format::field(fields, TIMESTAMP_KEY@));
    let p3 = optional_member(URL_KEY@, crate::format::field(fields, URL_KEY@));
    let k: int = if key == DIGEST_KEY@ {
        0
    } else if key == EXPECTED_DIGEST_KEY@ {
        p0.len() as int
    } else if key == TIMESTAMP_KEY@ {
        (p0 + p1).len() as int
    } else if key == URL_KEY@ {
        (p0 + p1 + p2).len() as int
    } else {
        members.len() - 1
    };
    assert(members[k] == wanted);
    lemma_migrated_has_member(members, k);
    let at = choose|at: int| text::has_at(migrated_text(members), at, members[k]);
    assert(text::has_at(migrated_line(fields).unwrap(), at, wanted));
}

/// A migrated line has the digest, the expected digest, the timestamp, the URL, the format and the content of
/// the line, in this order, each only if there is one, and nothing else.
pub proof fn law_migrated_layout(fields: Seq<(Seq<char>, Seq<char>)>, format: Seq<(Seq<char>, Seq<char>)>)
    ensures
        ({
            let of = |key: Seq<char>| crate::format::field(fields, key);
            let written = |key: Seq<char>, value: Option<Seq<char>>|
                match value {
                    Some(value) => seq!["\""@ + key + "\":"@ + value],
                    None => Seq::<Seq<char>>::empty(),
                };
            let object = if format.len() > 0 {
                Some(json::json_object_text(format))
            } else {
                None
            };
            migrated_members(fields, format) == written("digest"@, of("digest"@)) + written(
                "expected_digest"@,
                of("expected_digest"@),
            ) + written("timestamp"@, of("timestamp"@)) + written("url"@, of("url"@)) + written(
                "format"@,
                object,
            ) + written("content"@, of("content"@))
        }),
{
    reveal_strlit("\"");
    assert("\""@ =~= seq!['"']);
}

/// A field that is put among sorted fields is there with its value, in its place, and every other field stays.
pub proof fn law_put_replaces_one_field(
    sorted: Seq<(Seq<char>, Seq<char>)>,
    pair: (Seq<char>, Seq<char>),
    other: (Seq<char>, Seq<char>),
)
    requires
        forall|i: int, j: int|
            0 <= i < j < sorted.len() ==> text::lex_less(
                (#[trigger] sorted[i]).0,
                (#[trigger] sorted[j]).0,
            ),
        other.0 != pair.0,
    ensures
        ({
            let after = put_pair(sorted, pair);
            &&& after.contains(pair)
            &&& after.contains(other) <==> sorted.contains(other)
            &&& forall|i: int| 0 <= i < after.len() && (#[trigger] after[i]).0 == pair.0 ==> after[i] == pair
            &&& forall|i: int, j: int|
                0 <= i < j < after.len() ==> text::lex_less(
                    (#[trigger] after[i]).0,
                    (#[trigger] after[j]).0,
                )
        }),
{
    let k = lemma_put_place(sorted, pair);
    let after = put_pair(sorted, pair);
    let replaces = k < sorted.len() && sorted[k].0 == pair.0;
    assert(after[k] == pair);
    assert forall|i: int| 0 <= i < after.len() && i != k implies ({
        let key = (#[trigger] after[i]).0;
        if i < k {
            text::lex_less(key, pair.0)
        } else {
            text::lex_less(pair.0, key)
        }
    }) by {
        if i < k || replaces {
            assert(after[i] == sorted[i]);
        } else {
            assert(after[i] == sorted[i - 1]);
        }
    }
    assert forall|i: int| 0 <= i < after.len() && (#[trigger] after[i]).0 == pair.0 implies after[i]
        == pair by {
        text::lemma_lex_total(pair.0, pair.0);
    }
    assert forall|i: int, j: int| 0 <= i < j < after.len() implies text::lex_less(
        (#[trigger] after[i]).0,
        (#[trigger] after[j]).0,
    ) by {
        if i != k && j != k {
            let a = if i < k || replaces {
                i
            } else {
                i - 1
            };
            let b = if j < k || replaces {
                j
            } else {
                j - 1
            };
            assert(after[i] == sorted[a] && after[j] == sorted[b]);
        }
    }
    if sorted.contains(other) {
        let i = choose|i: int| 0 <= i < sorted.len() && sorted[i] == other;
        if k < sorted.len() && sorted[k].0 == pair.0 {
            assert(after[i] == other);
        } else if i < k {
            assert(after[i] == other);
        } else {
            assert(after[i + 1] == other);
        }
    }
    if after.contains(other) {
        let i = choose|i: int| 0 <= i < after.len() && after[i] == other;
        if k < sorted.len() && sorted[k].0 == pair.0 {
            assert(sorted[i] == other);
        } else if i < k {
            assert(sorted[i] == other);
        } else {
            assert(sorted[i - 1] == other);
        }
    }
}

/// Where a field is put among sorted fields.
proof fn lemma_put_place(sorted: Seq<(Seq<char>, Seq<char>)>, pair: (Seq<char>, Seq<char>)) -> (k: int)
    requires
        forall|i: int, j: int|
            0 <= i < j < sorted.len() ==> text::lex_less(
                (#[trigger] sorted[i]).0,
                (#[trigger] sorted[j]).0,
            ),
    ensures
        0 <= k <= sorted.len(),
        forall|i: int| 0 <= i < k ==> text::lex_less((#[trigger] sorted[i]).0, pair.0),
        forall|i: int|
            k < i < sorted.len() ==> text::lex_less(pair.0, (#[trigger] sorted[i]).0),
        k < sorted.len() && sorted[k].0 != pair.0 ==> text::lex_less(pair.0, sorted[k].0),
        put_pair(sorted, pair) == if k < sorted.len() && sorted[k].0 == pair.0 {
            sorted.update(k, pair)
        } else {
            sorted.insert(k, pair)
        },
    decreases sorted.len(),
{
    let n = sorted.len() as int;
    if n == 0 {
        assert(put_pair(sorted, pair) =~= sorted.insert(0, pair));
        0
    } else {
        let last = sorted.last();
        let front = sorted.drop_last();
        assert(forall|i: int| 0 <= i < front.len() ==> #[trigger] sorted[i] == front[i]);
        text::lemma_lex_total(pair.0, last.0);
        if text::lex_less(pair.0, last.0) {
            let k = lemma_put_place(front, pair);
            if k < front.len() && front[k].0 == pair.0 {
                assert(put_pair(sorted, pair) =~= sorted.update(k, pair));
            } else {
                assert(put_pair(sorted, pair) =~= sorted.insert(k, pair));
            }
            k
        } else if pair.0 == last.0 {
            assert(put_pair(sorted, pair) =~= sorted.update(n - 1, pair));
            assert forall|i: int| 0 <= i < n - 1 implies text::lex_less(
                (#[trigger] sorted[i]).0,
                pair.0,
            ) by {
                assert(sorted[n - 1] == last);
            }
            n - 1
        } else {
            assert forall|i: int| 0 <= i < n implies text::lex_less((#[trigger] sorted[i]).0, pair.0) by {
                if i < n - 1 {
                    assert(sorted[n - 1] == last);
                    text::lemma_lex_transitive(sorted[i].0, last.0, pair.0);
                }
            }
            assert(put_pair(sorted, pair) =~= sorted.insert(n, pair));
            n
        }
    }
}

/// The old format of a line becomes an object: a name of its own stands for the format of that name, `utf8` and
/// no format for none, an object for its fields, and any other JSON for none. The closing whitespace of the line
/// is put among its fields.
pub proof fn law_old_formats_become_objects(
    format: Option<Seq<char>>,
    closing_whitespace: Option<Seq<char>>,
)
    ensures
        ({
            let object = new_format_fields(format, None);
            let compact = json::json_compact(format.unwrap());
            let name = json::json_string(compact.unwrap());
            let fields = json::json_fields(compact.unwrap());
            &&& format is None ==> object == Some(Seq::<(Seq<char>, Seq<char>)>::empty())
            &&& format is Some ==> {
                &&& object is None <==> compact is None
                &&& object matches Some(object) ==> {
                    &&& name == Some("utf8"@) ==> object.len() == 0
                    &&& name is Some && name != Some("utf8"@) ==> object == seq![
                        ("type"@, json::json_string_text(name.unwrap())),
                    ]
                    &&& name is None && fields is Some ==> object == fields.unwrap()
                    &&& name is None && fields is None ==> object.len() == 0
                }
            }
            &&& closing_whitespace matches Some(raw) ==> {
                let closed = new_format_fields(format, closing_whitespace);
                &&& closed is None <==> object is None || json::json_compact(raw) is None
                &&& closed matches Some(closed) ==> closed == put_pair(
                    object.unwrap(),
                    ("closing_whitespace"@, json::json_compact(raw).unwrap()),
                )
            }
        }),
{
}

} // verus!
