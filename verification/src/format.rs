//! The `format` object of a snapshot: how the archived bytes follow from the stored content.
use vstd::prelude::*;

use crate::json;
use crate::json::{parse_string, string_text};
use crate::pairs;
use crate::text;
use crate::text::{chars_of, same_str, string_of};

verus! {

/// The key of the format's name.
pub const TYPE_KEY: &'static str = "type";

/// The key of the closing whitespace.
pub const CLOSING_WHITESPACE_KEY: &'static str = "closing_whitespace";

/// The name of the plain text format.
pub const UTF8_NAME: &'static str = "utf8";

/// The format that content is archived in.
#[derive(Debug, PartialEq, Eq)]
pub enum Format {
    /// Plain UTF-8 text.
    Utf8,
    /// A format with the given name, which some codec knows.
    Other(String),
}

/// The `format` object of a snapshot.
#[derive(Debug, PartialEq, Eq)]
pub struct FormatInfo {
    /// The format that the content is archived in.
    pub name: Format,
    /// The whitespace that follows the content, if it is not the default.
    pub closing_whitespace: Option<Vec<char>>,
    /// The other fields of the object, each with its key and its value as JSON.
    pub metadata: Vec<(String, String)>,
}

/// The `format` object of a snapshot as texts.
#[verifier::ext_equal]
pub struct FormatView {
    /// The name of the format, if it is not plain text.
    pub name: Option<Seq<char>>,
    /// The whitespace that follows the content, if it is not the default.
    pub closing_whitespace: Option<Seq<char>>,
    /// The other fields of the object.
    pub metadata: Seq<(Seq<char>, Seq<char>)>,
}

impl View for FormatInfo {
    type V = FormatView;

    open spec fn view(&self) -> FormatView {
        FormatView {
            name: match self.name {
                Format::Utf8 => None,
                Format::Other(name) => Some(name@),
            },
            closing_whitespace: match self.closing_whitespace {
                Some(whitespace) => Some(whitespace@),
                None => None,
            },
            metadata: pairs::pair_views(self.metadata@),
        }
    }
}

/// One of the four whitespace characters of JSON.
pub open spec fn is_json_whitespace(c: char) -> bool {
    c == ' ' || c == '\t' || c == '\r' || c == '\n'
}

/// Whether a text is made of JSON whitespace.
pub open spec fn is_whitespace(s: Seq<char>) -> bool {
    forall|i: int| 0 <= i < s.len() ==> is_json_whitespace(#[trigger] s[i])
}

/// Whether a key is one that the format object itself gives a meaning to.
pub open spec fn is_reserved(key: Seq<char>) -> bool {
    key == TYPE_KEY@ || key == CLOSING_WHITESPACE_KEY@
}

/// The value of a field.
pub open spec fn field(fields: Seq<(Seq<char>, Seq<char>)>, key: Seq<char>) -> Option<Seq<char>> {
    let found = pairs::with_key(fields, key);
    if found.len() > 0 {
        Some(found[0].1)
    } else {
        None
    }
}

/// The fields that the format object itself gives no meaning to.
pub open spec fn other_fields(
    fields: Seq<(Seq<char>, Seq<char>)>,
) -> Seq<(Seq<char>, Seq<char>)>
    decreases fields.len(),
{
    if fields.len() == 0 {
        Seq::empty()
    } else if is_reserved(fields.last().0) {
        other_fields(fields.drop_last())
    } else {
        other_fields(fields.drop_last()).push(fields.last())
    }
}

/// What the fields of a `format` object say, or `None` if its name is not a string or its closing
/// whitespace is not a string of JSON whitespace.
pub open spec fn format_of(fields: Seq<(Seq<char>, Seq<char>)>) -> Option<FormatView> {
    let name = match field(fields, TYPE_KEY@) {
        Some(value) => json::json_string(value),
        None => Some(UTF8_NAME@),
    };
    let whitespace = match field(fields, CLOSING_WHITESPACE_KEY@) {
        Some(value) => match json::json_string(value) {
            Some(text) => if is_whitespace(text) {
                Some(Some(text))
            } else {
                None
            },
            None => None,
        },
        None => Some(None),
    };
    match (name, whitespace) {
        (Some(name), Some(closing_whitespace)) => Some(
            FormatView {
                name: if name == UTF8_NAME@ {
                    None
                } else {
                    Some(name)
                },
                closing_whitespace,
                metadata: other_fields(fields),
            },
        ),
        _ => None,
    }
}

/// The fields of a `format` object, in the order in which they are written.
pub open spec fn format_fields(format: FormatView) -> Seq<(Seq<char>, Seq<char>)> {
    let name = match format.name {
        Some(name) => seq![(TYPE_KEY@, json::json_string_text(name))],
        None => Seq::empty(),
    };
    let whitespace = match format.closing_whitespace {
        Some(whitespace) => seq![(CLOSING_WHITESPACE_KEY@, json::json_string_text(whitespace))],
        None => Seq::empty(),
    };
    name + whitespace + format.metadata
}

/// Whether a `format` object can be written and read back: its whitespace is whitespace, its name
/// is not the one that plain text has, and its other fields are JSON, sorted by key, and have keys
/// of their own.
pub open spec fn is_canonical(format: FormatView) -> bool {
    &&& format.name != Some(UTF8_NAME@)
    &&& format.closing_whitespace matches Some(whitespace) ==> is_whitespace(whitespace)
    &&& json::are_json(format.metadata)
    &&& forall|i: int|
        0 <= i < format.metadata.len() ==> !is_reserved((#[trigger] format.metadata[i]).0)
    &&& forall|i: int, j: int|
        0 <= i < j < format.metadata.len() ==> text::lex_less(
            (#[trigger] format.metadata[i]).0,
            (#[trigger] format.metadata[j]).0,
        )
}

/// Whether the JSON string for a text stands for that text.
pub open spec fn reads_back(text: Seq<char>) -> bool {
    json::json_string(json::json_string_text(text)) == Some(text)
}

/// Whether a text is made of JSON whitespace.
pub fn all_whitespace(chars: &[char]) -> (whitespace: bool)
    ensures
        whitespace == is_whitespace(chars@),
{
    let mut i: usize = 0;
    while i < chars.len()
        invariant
            i <= chars@.len(),
            forall|k: int| 0 <= k < i ==> is_json_whitespace(#[trigger] chars@[k]),
        decreases chars@.len() - i,
    {
        let c = chars[i];
        if !(c == ' ' || c == '\t' || c == '\r' || c == '\n') {
            assert(!is_json_whitespace(chars@[i as int]));
            return false;
        }
        i = i + 1;
    }
    true
}

/// The value of a field.
pub(crate) fn find_field<'a>(fields: &'a Vec<(String, String)>, key: &str) -> (value: Option<&'a str>)
    ensures
        match value {
            Some(value) => field(pairs::pair_views(fields@), key@) == Some(value@),
            None => field(pairs::pair_views(fields@), key@) is None,
        },
{
    let mut i: usize = 0;
    let ghost all = pairs::pair_views(fields@);
    assert(all.take(0) =~= Seq::empty());
    while i < fields.len()
        invariant
            i <= fields@.len(),
            all == pairs::pair_views(fields@),
            pairs::with_key(all.take(i as int), key@).len() == 0,
        decreases fields@.len() - i,
    {
        proof {
            assert(all.take(i + 1).drop_last() =~= all.take(i as int));
            assert(all.take(i + 1).last() == all[i as int]);
        }
        if same_str(fields[i].0.as_str(), key) {
            proof {
                assert(pairs::with_key(all.take(i + 1), key@) =~= seq![all[i as int]]);
                lemma_with_key_prefix(all, i + 1, key@);
            }
            return Some(fields[i].1.as_str());
        }
        i = i + 1;
    }
    assert(all.take(i as int) =~= all);
    None
}

/// The pairs with a key in a prefix come first among those of the whole.
proof fn lemma_with_key_prefix(all: Seq<(Seq<char>, Seq<char>)>, k: int, key: Seq<char>)
    requires
        0 <= k <= all.len(),
        pairs::with_key(all.take(k), key).len() > 0,
    ensures
        pairs::with_key(all, key).len() > 0,
        pairs::with_key(all, key)[0] == pairs::with_key(all.take(k), key)[0],
    decreases all.len() - k,
{
    if k == all.len() {
        assert(all.take(k) =~= all);
    } else {
        assert(all.take(k + 1).drop_last() =~= all.take(k));
        lemma_with_key_prefix(all, k + 1, key);
    }
}

impl FormatInfo {
    /// Plain text with the default closing whitespace.
    pub fn plain() -> (format: FormatInfo)
        ensures
            format@ == (FormatView {
                name: None,
                closing_whitespace: None,
                metadata: Seq::empty(),
            }),
    {
        let format = FormatInfo {
            name: Format::Utf8,
            closing_whitespace: None,
            metadata: Vec::new(),
        };
        assert(pairs::pair_views(format.metadata@) =~= Seq::empty());
        format
    }

    /// A copy of the fields that the format object itself gives no meaning to.
    pub fn copy_metadata(&self) -> (metadata: Vec<(String, String)>)
        ensures
            pairs::pair_views(metadata@) == self@.metadata,
    {
        let ghost all = self@.metadata;
        let mut metadata: Vec<(String, String)> = Vec::new();
        let mut i: usize = 0;
        assert(pairs::pair_views(metadata@) =~= all.take(0));
        while i < self.metadata.len()
            invariant
                i <= self.metadata@.len(),
                all == pairs::pair_views(self.metadata@),
                pairs::pair_views(metadata@) == all.take(i as int),
            decreases self.metadata@.len() - i,
        {
            let ghost before = metadata@;
            metadata.push((self.metadata[i].0.clone(), self.metadata[i].1.clone()));
            proof {
                assert(pairs::pair_views(metadata@) =~= pairs::pair_views(before).push(all[i as int]));
                assert(all.take(i + 1) =~= all.take(i as int).push(all[i as int]));
            }
            i = i + 1;
        }
        assert(all.take(i as int) =~= all);
        metadata
    }

    /// What the fields of a `format` object say.
    pub fn from_fields(fields: &Vec<(String, String)>) -> (format: Option<FormatInfo>)
        ensures
            match format {
                Some(format) => format_of(pairs::pair_views(fields@)) == Some(format@),
                None => format_of(pairs::pair_views(fields@)) is None,
            },
    {
        let ghost all = pairs::pair_views(fields@);
        let name: Format = match find_field(fields, TYPE_KEY) {
            Some(value) => match parse_string(value) {
                Some(name) => if same_str(name.as_str(), UTF8_NAME) {
                    Format::Utf8
                } else {
                    Format::Other(name)
                },
                None => return None,
            },
            None => Format::Utf8,
        };
        let closing_whitespace: Option<Vec<char>> = match find_field(fields, CLOSING_WHITESPACE_KEY) {
            Some(value) => match parse_string(value) {
                Some(whitespace) => {
                    let chars = chars_of(whitespace.as_str());
                    if !all_whitespace(&chars) {
                        return None;
                    }
                    Some(chars)
                },
                None => return None,
            },
            None => None,
        };
        let mut metadata: Vec<(String, String)> = Vec::new();
        let mut i: usize = 0;
        assert(pairs::pair_views(metadata@) =~= other_fields(all.take(0)));
        while i < fields.len()
            invariant
                i <= fields@.len(),
                all == pairs::pair_views(fields@),
                pairs::pair_views(metadata@) == other_fields(all.take(i as int)),
            decreases fields@.len() - i,
        {
            let ghost before = metadata@;
            proof {
                assert(all.take(i + 1).drop_last() =~= all.take(i as int));
                assert(all.take(i + 1).last() == all[i as int]);
            }
            if !same_str(fields[i].0.as_str(), TYPE_KEY) && !same_str(
                fields[i].0.as_str(),
                CLOSING_WHITESPACE_KEY,
            ) {
                metadata.push((fields[i].0.clone(), fields[i].1.clone()));
                assert(pairs::pair_views(metadata@) =~= pairs::pair_views(before).push(all[i as int]));
            }
            i = i + 1;
        }
        assert(all.take(i as int) =~= all);
        let format = FormatInfo { name, closing_whitespace, metadata };
        assert(format_of(all) == Some(format@));
        Some(format)
    }

    /// The fields of the `format` object, in the order in which they are written, with the given
    /// closing whitespace.
    pub fn to_fields(&self, closing_whitespace: Option<&Vec<char>>) -> (fields: Vec<(String, String)>)
        ensures
            pairs::pair_views(fields@) == format_fields(
                FormatView {
                    closing_whitespace: match closing_whitespace {
                        Some(whitespace) => Some(whitespace@),
                        None => None,
                    },
                    ..self@
                },
            ),
            forall|i: int|
                0 <= i < fields@.len() - self@.metadata.len() ==> json::is_json(
                    (#[trigger] pairs::pair_views(fields@)[i]).1,
                ),
            self@.name matches Some(name) ==> reads_back(name),
            closing_whitespace matches Some(whitespace) ==> reads_back(whitespace@),
    {
        let mut fields: Vec<(String, String)> = Vec::new();
        match &self.name {
            Format::Utf8 => {},
            Format::Other(name) => {
                fields.push((TYPE_KEY.to_owned(), string_text(name.as_str())));
            },
        }
        match closing_whitespace {
            Some(whitespace) => {
                let text = string_of(whitespace);
                fields.push((CLOSING_WHITESPACE_KEY.to_owned(), string_text(text.as_str())));
            },
            None => {},
        }
        let ghost head = pairs::pair_views(fields@);
        let ghost start = fields@;
        let ghost metadata = self@.metadata;
        let mut i: usize = 0;
        assert(head + metadata.take(0) =~= head);
        while i < self.metadata.len()
            invariant
                i <= self.metadata@.len(),
                metadata == pairs::pair_views(self.metadata@),
                pairs::pair_views(fields@) == head + metadata.take(i as int),
            decreases self.metadata@.len() - i,
        {
            let ghost before = fields@;
            fields.push((self.metadata[i].0.clone(), self.metadata[i].1.clone()));
            proof {
                assert(pairs::pair_views(fields@) =~= pairs::pair_views(before).push(
                    metadata[i as int],
                ));
                assert(head + metadata.take(i + 1) =~= (head + metadata.take(i as int)).push(
                    metadata[i as int],
                ));
            }
            i = i + 1;
        }
        proof {
            assert(metadata.take(i as int) =~= metadata);
            assert(pairs::pair_views(fields@) =~= format_fields(
                FormatView {
                    closing_whitespace: match closing_whitespace {
                        Some(whitespace) => Some(whitespace@),
                        None => None,
                    },
                    ..self@
                },
            ));
        }
        fields
    }
}

/// The reserved fields that a `format` object is written with.
spec fn head_fields(format: FormatView) -> Seq<(Seq<char>, Seq<char>)> {
    format_fields(FormatView { metadata: Seq::empty(), ..format })
}

/// Whether every key that is not reserved comes before the given one.
spec fn others_before(fields: Seq<(Seq<char>, Seq<char>)>, key: Seq<char>) -> bool {
    forall|i: int|
        0 <= i < fields.len() ==> is_reserved((#[trigger] fields[i]).0) || text::lex_less(
            fields[i].0,
            key,
        )
}

/// Sorting in a field that comes after all others puts it last among them.
proof fn lemma_insert_other(sorted: Seq<(Seq<char>, Seq<char>)>, pair: (Seq<char>, Seq<char>))
    requires
        !is_reserved(pair.0),
        others_before(sorted, pair.0),
    ensures
        other_fields(pairs::insert_pair(sorted, pair)) == other_fields(sorted).push(pair),
        forall|i: int|
            0 <= i < pairs::insert_pair(sorted, pair).len() ==> sorted.contains(
                #[trigger] pairs::insert_pair(sorted, pair)[i],
            ) || pairs::insert_pair(sorted, pair)[i] == pair,
    decreases sorted.len(),
{
    let result = pairs::insert_pair(sorted, pair);
    if sorted.len() == 0 || !text::lex_less(pair.0, sorted.last().0) {
        assert(sorted.push(pair).drop_last() =~= sorted);
        assert forall|i: int| 0 <= i < result.len() implies sorted.contains(#[trigger] result[i])
            || result[i] == pair by {
            if i < sorted.len() {
                assert(sorted[i] == result[i]);
            }
        }
    } else {
        let front = sorted.drop_last();
        let last = sorted.last();
        text::lemma_lex_total(pair.0, last.0);
        assert(is_reserved(last.0)) by {
            assert(sorted[sorted.len() - 1] == last);
        }
        assert(others_before(front, pair.0)) by {
            assert forall|i: int| 0 <= i < front.len() implies is_reserved((#[trigger] front[i]).0)
                || text::lex_less(front[i].0, pair.0) by {
                assert(front[i] == sorted[i]);
            }
        }
        lemma_insert_other(front, pair);
        let inner = pairs::insert_pair(front, pair);
        assert(inner.push(last).drop_last() =~= inner);
        assert forall|i: int| 0 <= i < result.len() implies sorted.contains(#[trigger] result[i])
            || result[i] == pair by {
            if i < inner.len() {
                assert(result[i] == inner[i]);
                if front.contains(inner[i]) {
                    let k = choose|k: int| 0 <= k < front.len() && front[k] == inner[i];
                    assert(sorted[k] == inner[i]);
                }
            } else {
                assert(sorted[sorted.len() - 1] == last);
            }
        }
    }
}

/// The other fields of a sorted `format` object are its metadata.
proof fn lemma_sorted_others(format: FormatView, n: int)
    requires
        is_canonical(format),
        0 <= n <= format.metadata.len(),
    ensures
        other_fields(pairs::sort_pairs(head_fields(format) + format.metadata.take(n)))
            == format.metadata.take(n),
        forall|i: int|
            #![trigger pairs::sort_pairs(head_fields(format) + format.metadata.take(n))[i]]
            0 <= i < pairs::sort_pairs(head_fields(format) + format.metadata.take(n)).len()
                ==> is_reserved(
                pairs::sort_pairs(head_fields(format) + format.metadata.take(n))[i].0,
            ) || format.metadata.take(n).contains(
                pairs::sort_pairs(head_fields(format) + format.metadata.take(n))[i],
            ),
    decreases n,
{
    let head = head_fields(format);
    let fields = head + format.metadata.take(n);
    let sorted = pairs::sort_pairs(fields);
    reveal_with_fuel(pairs::sort_pairs, 3);
    reveal_with_fuel(pairs::insert_pair, 3);
    reveal_with_fuel(other_fields, 3);
    if n == 0 {
        assert(fields =~= head);
        assert(head.len() <= 2);
        if head.len() == 2 {
            assert(head.drop_last() =~= seq![head[0]]);
            assert(head.drop_last().drop_last() =~= Seq::empty());
        } else if head.len() == 1 {
            assert(head.drop_last() =~= Seq::empty());
        }
        assert(other_fields(sorted) =~= format.metadata.take(0));
    } else {
        let before = format.metadata.take(n - 1);
        let pair = format.metadata[n - 1];
        lemma_sorted_others(format, n - 1);
        let inner = pairs::sort_pairs(head + before);
        assert(fields.drop_last() =~= head + before);
        assert(fields.last() == pair);
        assert(others_before(inner, pair.0)) by {
            assert forall|i: int| 0 <= i < inner.len() implies is_reserved((#[trigger] inner[i]).0)
                || text::lex_less(inner[i].0, pair.0) by {
                if !is_reserved(inner[i].0) {
                    let k = choose|k: int| 0 <= k < before.len() && before[k] == inner[i];
                    assert(before[k] == format.metadata[k]);
                }
            }
        }
        lemma_insert_other(inner, pair);
        assert(before.push(pair) =~= format.metadata.take(n));
        assert forall|i: int| 0 <= i < sorted.len() implies is_reserved((#[trigger] sorted[i]).0)
            || format.metadata.take(n).contains(sorted[i]) by {
            if sorted[i] == pair {
                assert(format.metadata.take(n)[n - 1] == pair);
            } else {
                let k = choose|k: int| 0 <= k < inner.len() && inner[k] == sorted[i];
                if !is_reserved(inner[k].0) {
                    let m = choose|m: int| 0 <= m < before.len() && before[m] == inner[k];
                    assert(format.metadata.take(n)[m] == sorted[i]);
                }
            }
        }
    }
}

/// The fields with a reserved key are those that the object is written with.
proof fn lemma_reserved_field(format: FormatView, n: int, key: Seq<char>)
    requires
        is_canonical(format),
        is_reserved(key),
        0 <= n <= format.metadata.len(),
    ensures
        pairs::with_key(head_fields(format) + format.metadata.take(n), key) == pairs::with_key(
            head_fields(format),
            key,
        ),
    decreases n,
{
    let head = head_fields(format);
    if n == 0 {
        assert(head + format.metadata.take(0) =~= head);
    } else {
        lemma_reserved_field(format, n - 1, key);
        let fields = head + format.metadata.take(n);
        assert(fields.drop_last() =~= head + format.metadata.take(n - 1));
        assert(fields.last() == format.metadata[n - 1]);
    }
}

/// The fields of a canonical `format` object, once they are written and read, say the same again.
pub proof fn lemma_format_reads_back(format: FormatView)
    requires
        is_canonical(format),
        format.name matches Some(name) ==> reads_back(name),
        format.closing_whitespace matches Some(whitespace) ==> reads_back(whitespace),
    ensures
        json::distinct_keys(format_fields(format)),
        format_of(pairs::sort_pairs(format_fields(format))) == Some(format),
{
    let head = head_fields(format);
    let fields = format_fields(format);
    let sorted = pairs::sort_pairs(fields);
    let n = format.metadata.len() as int;
    reveal_strlit("type");
    reveal_strlit("closing_whitespace");
    assert(TYPE_KEY@ != CLOSING_WHITESPACE_KEY@) by {
        assert(TYPE_KEY@.len() == 4);
        assert(CLOSING_WHITESPACE_KEY@.len() == 18);
    }
    assert(format.metadata.take(n) =~= format.metadata);
    assert(head + format.metadata =~= fields);
    assert forall|i: int, j: int| 0 <= i < j < fields.len() implies (#[trigger] fields[i]).0 != (
    #[trigger] fields[j]).0 by {
        let h = head.len() as int;
        if i >= h {
            assert(fields[i] == format.metadata[i - h]);
            assert(fields[j] == format.metadata[j - h]);
            text::lemma_lex_total(fields[i].0, fields[j].0);
        } else if j >= h {
            assert(fields[i] == head[i]);
            assert(fields[j] == format.metadata[j - h]);
        } else {
            assert(fields[i] == head[i] && fields[j] == head[j]);
        }
    }
    lemma_sorted_others(format, n);
    pairs::law_pairs_sorted_by_key(fields);
    assert(pairs::with_key(sorted, TYPE_KEY@) == pairs::with_key(fields, TYPE_KEY@));
    assert(pairs::with_key(sorted, CLOSING_WHITESPACE_KEY@) == pairs::with_key(
        fields,
        CLOSING_WHITESPACE_KEY@,
    ));
    lemma_reserved_field(format, n, TYPE_KEY@);
    lemma_reserved_field(format, n, CLOSING_WHITESPACE_KEY@);
    reveal_with_fuel(pairs::with_key, 3);
    if head.len() == 2 {
        assert(head.drop_last() =~= seq![head[0]]);
        assert(head.drop_last().drop_last() =~= Seq::empty());
    } else if head.len() == 1 {
        assert(head.drop_last() =~= Seq::empty());
    }
    assert(format_of(sorted) =~= Some(format));
}

/// A format object gives its `type` as the name of the format, where `utf8` and no type both stand for plain
/// text, its `closing_whitespace`, which has to be made of spaces, tabs, carriage returns and line feeds, and
/// every other key as metadata, with its value and in its order.
pub proof fn law_format_objects(fields: Seq<(Seq<char>, Seq<char>)>)
    ensures
        ({
            let name = field(fields, "type"@);
            let whitespace = field(fields, "closing_whitespace"@);
            let bad_name = name matches Some(value) && json::json_string(value) is None;
            let bad_whitespace = whitespace matches Some(value) && match json::json_string(value) {
                None => true,
                Some(text) => exists|i: int|
                    0 <= i < text.len() && ({
                        let c = #[trigger] text[i];
                        c != ' ' && c != '\t' && c != '\r' && c != '\n'
                    }),
            };
            match format_of(fields) {
                None => bad_name || bad_whitespace,
                Some(format) => {
                    &&& !bad_name && !bad_whitespace
                    &&& name is None ==> format.name is None
                    &&& name matches Some(value) ==> {
                        if json::json_string(value) == Some("utf8"@) {
                            format.name is None
                        } else {
                            format.name == json::json_string(value)
                        }
                    }
                    &&& whitespace is None ==> format.closing_whitespace is None
                    &&& whitespace matches Some(value) ==> format.closing_whitespace
                        == json::json_string(value)
                    &&& format.metadata == fields.filter(
                        |field: (Seq<char>, Seq<char>)|
                            field.0 != "type"@ && field.0 != "closing_whitespace"@,
                    )
                },
            }
        }),
{
    lemma_other_fields(fields);
    if let Some(value) = field(fields, "closing_whitespace"@) {
        if let Some(text) = json::json_string(value) {
            if !is_whitespace(text) {
                let i = choose|i: int| 0 <= i < text.len() && !is_json_whitespace(#[trigger] text[i]);
                let c = text[i];
                assert(c != ' ' && c != '\t' && c != '\r' && c != '\n');
            } else {
                assert(forall|i: int| 0 <= i < text.len() ==> is_json_whitespace(#[trigger] text[i]));
            }
        }
    }
}

/// The fields that are not reserved are those with other keys.
proof fn lemma_other_fields(fields: Seq<(Seq<char>, Seq<char>)>)
    ensures
        other_fields(fields) == fields.filter(
            |field: (Seq<char>, Seq<char>)|
                field.0 != "type"@ && field.0 != "closing_whitespace"@,
        ),
    decreases fields.len(),
{
    reveal(Seq::filter);
    if fields.len() > 0 {
        lemma_other_fields(fields.drop_last());
    } else {
        assert(other_fields(fields) =~= fields);
    }
}

/// The field with a key is the first that has it.
pub proof fn law_field_is_the_first(fields: Seq<(Seq<char>, Seq<char>)>, key: Seq<char>)
    ensures
        match field(fields, key) {
            Some(value) => exists|i: int|
                {
                    &&& 0 <= i < fields.len()
                    &&& #[trigger] fields[i] == (key, value)
                    &&& forall|k: int| 0 <= k < i ==> (#[trigger] fields[k]).0 != key
                },
            None => forall|k: int| 0 <= k < fields.len() ==> (#[trigger] fields[k]).0 != key,
        },
    decreases fields.len(),
{
    if fields.len() > 0 {
        let front = fields.drop_last();
        law_field_is_the_first(front, key);
        assert(forall|k: int| 0 <= k < front.len() ==> #[trigger] fields[k] == front[k]);
        match field(front, key) {
            Some(value) => {
                let i = choose|i: int|
                    {
                        &&& 0 <= i < front.len()
                        &&& #[trigger] front[i] == (key, value)
                        &&& forall|k: int| 0 <= k < i ==> (#[trigger] front[k]).0 != key
                    };
                assert(fields[i] == (key, value));
                assert forall|k: int| 0 <= k < i implies (#[trigger] fields[k]).0 != key by {
                    assert(front[k].0 != key);
                }
            },
            None => {
                assert forall|k: int| 0 <= k < front.len() implies (#[trigger] fields[k]).0 != key by {
                    assert(front[k].0 != key);
                }
                if fields.last().0 == key {
                    assert(fields[fields.len() - 1] == (key, fields.last().1));
                }
            },
        }
    }
}

/// A format is written with its name, if it is not plain text, its closing whitespace, if it has any of its
/// own, and then its metadata.
pub proof fn law_format_fields(format: FormatView)
    ensures
        ({
            let fields = format_fields(format);
            let n = fields.len() - format.metadata.len();
            &&& fields.skip(n) == format.metadata
            &&& n == (if format.name is Some {
                1int
            } else {
                0
            }) + if format.closing_whitespace is Some {
                1int
            } else {
                0
            }
            &&& format.name matches Some(name) ==> fields[0] == (
                "type"@,
                json::json_string_text(name),
            )
            &&& format.closing_whitespace matches Some(whitespace) ==> fields[n - 1] == (
                "closing_whitespace"@,
                json::json_string_text(whitespace),
            )
        }),
{
    let fields = format_fields(format);
    assert(fields.skip(fields.len() - format.metadata.len()) =~= format.metadata);
}

/// A format is seen by its name, unless it is plain text, its closing whitespace and all of its metadata.
pub proof fn law_formats_are_seen_whole(format: FormatInfo, i: int)
    requires
        0 <= i < format.metadata@.len(),
    ensures
        format.name is Utf8 <==> format@.name is None,
        format.name matches Format::Other(name) ==> format@.name == Some(name@),
        format.closing_whitespace matches Some(whitespace) ==> format@.closing_whitespace == Some(
            whitespace@,
        ),
        format.closing_whitespace is None ==> format@.closing_whitespace is None,
        format@.metadata.len() == format.metadata@.len(),
        format@.metadata[i] == (format.metadata@[i].0@, format.metadata@[i].1@),
{
}

} // verus!
