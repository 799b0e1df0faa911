//! Conversions between strings and character vectors, and searches over characters.
use std::borrow::Cow;

use vstd::prelude::*;

verus! {

/// `String::push`: appends one character at the end of the string.
pub assume_specification[ String::push ](s: &mut String, c: char)
    ensures
        final(s)@ == old(s)@.push(c),
;

/// Whether `literal` stands in `s` at position `index`.
pub open spec fn has_at(s: Seq<char>, index: int, literal: Seq<char>) -> bool {
    &&& 0 <= index
    &&& index + literal.len() <= s.len()
    &&& s.subrange(index, index + literal.len()) == literal
}

/// The position of the first `c` in `s`, or the length of `s` if there is none.
pub open spec fn first_index(s: Seq<char>, c: char) -> int
    decreases s.len(),
{
    if s.len() == 0 || s[0] == c {
        0
    } else {
        1 + first_index(s.drop_first(), c)
    }
}

/// `first_index` is where the first occurrence stands: at it, or nowhere.
pub proof fn lemma_first_index(s: Seq<char>, c: char)
    ensures
        0 <= first_index(s, c) <= s.len(),
        first_index(s, c) < s.len() ==> s[first_index(s, c)] == c,
        forall|i: int| 0 <= i < first_index(s, c) ==> s[i] != c,
    decreases s.len(),
{
    if s.len() != 0 && s[0] != c {
        lemma_first_index(s.drop_first(), c);
        assert forall|i: int| 0 <= i < first_index(s, c) implies s[i] != c by {
            if i > 0 {
                assert(s[i] == s.drop_first()[i - 1]);
            }
        }
    }
}

/// Any position with `c` and no earlier `c` is `first_index`.
pub proof fn lemma_first_index_unique(s: Seq<char>, c: char, k: int)
    requires
        0 <= k <= s.len(),
        k < s.len() ==> s[k] == c,
        forall|i: int| 0 <= i < k ==> s[i] != c,
    ensures
        first_index(s, c) == k,
{
    lemma_first_index(s, c);
}

/// The text of an optional string.
pub open spec fn str_view(s: Option<&str>) -> Option<Seq<char>> {
    match s {
        Some(s) => Some(s@),
        None => None,
    }
}

/// The text of a borrowed or owned string.
pub fn borrow_str<'a>(text: &'a Cow<'_, str>) -> (s: &'a str)
    ensures
        s@ == text@,
{
    match text {
        Cow::Borrowed(s) => s,
        Cow::Owned(s) => s.as_str(),
    }
}

/// A copy of a borrowed or owned string that borrows where the string does.
pub fn clone_cow<'a>(text: &Cow<'a, str>) -> (copy: Cow<'a, str>)
    ensures
        copy == *text,
{
    match text {
        Cow::Borrowed(s) => Cow::Borrowed(*s),
        Cow::Owned(s) => Cow::Owned(s.clone()),
    }
}

/// An owned copy of a borrowed or owned string.
pub fn own_cow(text: &Cow<'_, str>) -> (owned: Cow<'static, str>)
    ensures
        owned@ == text@,
        owned is Owned,
{
    Cow::Owned(borrow_str(text).to_owned())
}

/// The characters of a string, in order.
pub fn chars_of(s: &str) -> (chars: Vec<char>)
    ensures
        chars@ == s@,
{
    let mut chars: Vec<char> = Vec::new();
    for c in iter: s.chars()
        invariant
            iter.seq() == s@,
            chars@ == s@.take(iter.index()),
    {
        chars.push(c);
    }
    chars
}

/// The string made of the given characters.
pub fn string_of(chars: &[char]) -> (s: String)
    ensures
        s@ == chars@,
{
    let mut s = String::new();
    let mut i: usize = 0;
    while i < chars.len()
        invariant
            i <= chars@.len(),
            s@ == chars@.take(i as int),
        decreases chars@.len() - i,
    {
        s.push(chars[i]);
        i = i + 1;
    }
    assert(chars@.take(i as int) == chars@);
    s
}

/// Appends a text to a string.
pub fn append(s: &mut String, tail: &str)
    ensures
        final(s)@ == old(s)@ + tail@,
{
    s.append(tail);
}

/// Whether a string holds a character.
pub fn contains(s: &str, c: char) -> (found: bool)
    ensures
        found == s@.contains(c),
{
    let chars = chars_of(s);
    let mut i: usize = 0;
    while i < chars.len()
        invariant
            i <= chars@.len(),
            chars@ == s@,
            forall|k: int| 0 <= k < i ==> chars@[k] != c,
        decreases chars@.len() - i,
    {
        if chars[i] == c {
            assert(s@[i as int] == c);
            return true;
        }
        i = i + 1;
    }
    false
}

/// Whether two character sequences are equal.
pub fn same_chars(a: &[char], b: &[char]) -> (same: bool)
    ensures
        same == (a@ == b@),
{
    if a.len() != b.len() {
        return false;
    }
    let mut i: usize = 0;
    while i < a.len()
        invariant
            i <= a@.len(),
            a@.len() == b@.len(),
            forall|k: int| 0 <= k < i ==> a@[k] == b@[k],
        decreases a@.len() - i,
    {
        if a[i] != b[i] {
            return false;
        }
        i = i + 1;
    }
    assert(a@ =~= b@);
    true
}

/// Whether two strings hold the same characters.
pub fn same_str(a: &str, b: &str) -> (same: bool)
    ensures
        same == (a@ == b@),
{
    let left = chars_of(a);
    let right = chars_of(b);
    same_chars(&left, &right)
}

/// Whether `literal` stands in `chars` at position `index`.
pub fn starts_at(chars: &[char], index: usize, literal: &str) -> (found: bool)
    ensures
        found == has_at(chars@, index as int, literal@),
{
    let wanted = chars_of(literal);
    if index > chars.len() || wanted.len() > chars.len() - index {
        return false;
    }
    let mut k: usize = 0;
    while k < wanted.len()
        invariant
            wanted@ == literal@,
            k <= wanted@.len(),
            index + wanted@.len() <= chars.len(),
            forall|j: int| 0 <= j < k ==> chars@[index + j] == wanted@[j],
        decreases wanted@.len() - k,
    {
        if chars[index + k] != wanted[k] {
            assert(chars@.subrange(index as int, index + literal@.len())[k as int] != literal@[k as int]);
            return false;
        }
        k = k + 1;
    }
    assert(chars@.subrange(index as int, index + literal@.len()) =~= literal@);
    true
}

/// The position of the first `c` at or after `from`, or `None` if there is none.
pub fn find_from(chars: &[char], from: usize, c: char) -> (found: Option<usize>)
    requires
        from <= chars@.len(),
    ensures
        match found {
            Some(k) => {
                &&& from <= k < chars.len()
                &&& k == from + first_index(chars@.skip(from as int), c)
            },
            None => first_index(chars@.skip(from as int), c) == chars@.len() - from,
        },
{
    let mut k: usize = from;
    while k < chars.len()
        invariant
            from <= k <= chars@.len(),
            forall|j: int| from <= j < k ==> chars@[j] != c,
        decreases chars@.len() - k,
    {
        if chars[k] == c {
            proof {
                lemma_first_index_unique(chars@.skip(from as int), c, k - from);
            }
            return Some(k);
        }
        k = k + 1;
    }
    proof {
        lemma_first_index_unique(chars@.skip(from as int), c, k - from);
    }
    None
}

/// The texts between the separators.
pub open spec fn split(s: Seq<char>, separator: char) -> Seq<Seq<char>>
    decreases s.len(),
{
    let k = first_index(s, separator);
    if 0 <= k < s.len() {
        seq![s.take(k)] + split(s.skip(k + 1), separator)
    } else {
        seq![s]
    }
}

/// The texts with the separator between each two of them.
pub open spec fn join(parts: Seq<Seq<char>>, separator: Seq<char>) -> Seq<char>
    decreases parts.len(),
{
    if parts.len() == 0 {
        Seq::empty()
    } else if parts.len() == 1 {
        parts[0]
    } else {
        join(parts.drop_last(), separator) + separator + parts.last()
    }
}

/// The texts of a vector of character vectors.
pub open spec fn char_views(parts: Seq<Vec<char>>) -> Seq<Seq<char>> {
    parts.map_values(|part: Vec<char>| part@)
}

/// A joined text with one more part in front.
pub proof fn lemma_join_front(first: Seq<char>, rest: Seq<Seq<char>>, separator: Seq<char>)
    requires
        rest.len() > 0,
    ensures
        join(seq![first] + rest, separator) == first + separator + join(rest, separator),
    decreases rest.len(),
{
    let all = seq![first] + rest;
    if rest.len() == 1 {
        assert(all.drop_last() =~= seq![first]);
        assert(join(seq![first], separator) == first);
        assert(join(all, separator) =~= first + separator + rest[0]);
    } else {
        lemma_join_front(first, rest.drop_last(), separator);
        assert(all.drop_last() =~= seq![first] + rest.drop_last());
        assert(join(all, separator) =~= first + separator + join(rest, separator));
    }
}

/// The parts of a split text, joined again, give the text.
pub proof fn law_split_joins_back(s: Seq<char>, separator: char)
    ensures
        join(split(s, separator), seq![separator]) == s,
        split(s, separator).len() > 0,
    decreases s.len(),
{
    let k = first_index(s, separator);
    lemma_first_index(s, separator);
    if k < s.len() {
        let rest = s.skip(k + 1);
        law_split_joins_back(rest, separator);
        lemma_join_front(s.take(k), split(rest, separator), seq![separator]);
        assert(s =~= s.take(k) + seq![separator] + rest);
    }
}

/// Texts without the separator, once joined, split again into the same texts.
pub proof fn law_joined_splits_back(parts: Seq<Seq<char>>, separator: char)
    requires
        parts.len() > 0,
        forall|i: int| 0 <= i < parts.len() ==> !(#[trigger] parts[i]).contains(separator),
    ensures
        split(join(parts, seq![separator]), separator) == parts,
    decreases parts.len(),
{
    let first = parts[0];
    let rest = parts.drop_first();
    let all = join(parts, seq![separator]);
    assert(!first.contains(separator));
    assert(parts =~= seq![first] + rest);
    if rest.len() == 0 {
        lemma_first_index_unique(all, separator, all.len() as int);
    } else {
        lemma_join_front(first, rest, seq![separator]);
        assert(all == first + seq![separator] + join(rest, seq![separator]));
        assert forall|i: int| 0 <= i < first.len() implies all[i] != separator by {
            assert(first.contains(first[i]));
        }
        lemma_first_index_unique(all, separator, first.len() as int);
        assert(all.take(first.len() as int) =~= first);
        assert(all.skip(first.len() as int + 1) =~= join(rest, seq![separator]));
        law_joined_splits_back(rest, separator);
    }
}

/// The texts between the separators.
pub fn split_chars(chars: &[char], separator: char) -> (parts: Vec<Vec<char>>)
    ensures
        char_views(parts@) == split(chars@, separator),
{
    let mut parts: Vec<Vec<char>> = Vec::new();
    let mut start: usize = 0;
    assert(chars@.skip(0) =~= chars@);
    assert(char_views(parts@) + split(chars@.skip(0), separator) =~= split(chars@, separator));
    loop
        invariant
            start <= chars@.len(),
            char_views(parts@) + split(chars@.skip(start as int), separator) == split(
                chars@,
                separator,
            ),
        decreases chars@.len() - start,
    {
        let ghost rest = chars@.skip(start as int);
        let ghost before = parts@;
        match find_from(chars, start, separator) {
            Some(end) => {
                parts.push(vstd::slice::slice_to_vec(vstd::slice::slice_subrange(chars, start, end)));
                proof {
                    let k = end - start;
                    assert(chars@.subrange(start as int, end as int) =~= rest.take(k));
                    assert(rest.skip(k + 1) =~= chars@.skip(end + 1));
                    assert(char_views(parts@) =~= char_views(before).push(rest.take(k)));
                    assert(char_views(parts@) + split(chars@.skip(end + 1), separator)
                        =~= char_views(before) + split(rest, separator));
                }
                start = end + 1;
            },
            None => {
                parts.push(
                    vstd::slice::slice_to_vec(vstd::slice::slice_subrange(chars, start, chars.len())),
                );
                proof {
                    assert(chars@.subrange(start as int, chars@.len() as int) =~= rest);
                    assert(char_views(parts@) =~= char_views(before) + split(rest, separator));
                }
                return parts;
            },
        }
    }
}

/// Appends characters to a vector.
pub fn push_all(out: &mut Vec<char>, tail: &[char])
    ensures
        final(out)@ == old(out)@ + tail@,
{
    let mut i: usize = 0;
    assert(out@ =~= old(out)@ + tail@.take(0));
    while i < tail.len()
        invariant
            i <= tail@.len(),
            out@ == old(out)@ + tail@.take(i as int),
        decreases tail@.len() - i,
    {
        out.push(tail[i]);
        i = i + 1;
        assert(tail@.take(i as int) =~= tail@.take(i - 1).push(tail@[i - 1]));
        assert(out@ =~= old(out)@ + tail@.take(i as int));
    }
    assert(tail@.take(i as int) =~= tail@);
}

/// Appends the characters of a string to a vector.
pub fn push_str(out: &mut Vec<char>, tail: &str)
    ensures
        final(out)@ == old(out)@ + tail@,
{
    let chars = chars_of(tail);
    push_all(out, &chars);
}

/// Whether `a` comes before `b` in the order of their characters.
pub open spec fn lex_less(a: Seq<char>, b: Seq<char>) -> bool
    decreases a.len(),
{
    if b.len() == 0 {
        false
    } else if a.len() == 0 {
        true
    } else if a[0] != b[0] {
        a[0] < b[0]
    } else {
        lex_less(a.drop_first(), b.drop_first())
    }
}

/// `lex_less` is decided at the first difference.
proof fn lemma_lex_less_at(a: Seq<char>, b: Seq<char>, k: int)
    requires
        0 <= k <= a.len(),
        k <= b.len(),
        a.take(k) == b.take(k),
        k == a.len() || k == b.len() || a[k] != b[k],
    ensures
        lex_less(a, b) == (k < b.len() && (k == a.len() || a[k] < b[k])),
    decreases k,
{
    if k > 0 {
        assert(a[0] == a.take(k)[0]);
        assert(b[0] == b.take(k)[0]);
        assert(a.drop_first().take(k - 1) =~= a.take(k).drop_first());
        assert(b.drop_first().take(k - 1) =~= b.take(k).drop_first());
        lemma_lex_less_at(a.drop_first(), b.drop_first(), k - 1);
    }
}

/// The character order is total: of two texts, one comes first or they are the same.
pub proof fn lemma_lex_total(a: Seq<char>, b: Seq<char>)
    ensures
        lex_less(a, b) || lex_less(b, a) || a == b,
        !(lex_less(a, b) && lex_less(b, a)),
        a == b ==> !lex_less(a, b),
    decreases a.len(),
{
    if a.len() == 0 || b.len() == 0 {
        if a.len() == 0 && b.len() == 0 {
            assert(a =~= b);
        }
    } else if a[0] == b[0] {
        lemma_lex_total(a.drop_first(), b.drop_first());
        if a.drop_first() == b.drop_first() {
            assert(a =~= seq![a[0]] + a.drop_first());
            assert(b =~= seq![b[0]] + b.drop_first());
        }
    }
}

/// The character order is transitive.
pub proof fn lemma_lex_transitive(a: Seq<char>, b: Seq<char>, c: Seq<char>)
    requires
        lex_less(a, b),
        lex_less(b, c),
    ensures
        lex_less(a, c),
    decreases a.len(),
{
    if a.len() > 0 && b.len() > 0 && c.len() > 0 && a[0] == b[0] && b[0] == c[0] {
        lemma_lex_transitive(a.drop_first(), b.drop_first(), c.drop_first());
    }
}

/// Whether `a` comes before `b` in the order of their characters, which is the order of their
/// UTF-8 bytes.
pub fn comes_before(a: &[char], b: &[char]) -> (before: bool)
    ensures
        before == lex_less(a@, b@),
{
    let mut k: usize = 0;
    assert(a@.take(0) =~= b@.take(0));
    while k < a.len() && k < b.len() && a[k] == b[k]
        invariant
            k <= a@.len(),
            k <= b@.len(),
            a@.take(k as int) == b@.take(k as int),
        decreases a@.len() - k,
    {
        assert(a@.take(k + 1) =~= a@.take(k as int).push(a@[k as int]));
        assert(b@.take(k + 1) =~= b@.take(k as int).push(b@[k as int]));
        k = k + 1;
    }
    proof {
        lemma_lex_less_at(a@, b@, k as int);
    }
    k < b.len() && (k == a.len() || a[k] < b[k])
}

/// Whether a character has the Unicode property `White_Space`.
pub open spec fn is_white_space(c: char) -> bool {
    ||| '\u{9}' <= c <= '\u{d}'
    ||| c == ' '
    ||| c == '\u{85}'
    ||| c == '\u{a0}'
    ||| c == '\u{1680}'
    ||| '\u{2000}' <= c <= '\u{200a}'
    ||| c == '\u{2028}'
    ||| c == '\u{2029}'
    ||| c == '\u{202f}'
    ||| c == '\u{205f}'
    ||| c == '\u{3000}'
}

/// Whether a character has the Unicode property `White_Space`.
pub fn test_white_space(c: char) -> (found: bool)
    ensures
        found == is_white_space(c),
{
    ('\u{9}' <= c && c <= '\u{d}') || c == ' ' || c == '\u{85}' || c == '\u{a0}' || c == '\u{1680}'
        || ('\u{2000}' <= c && c <= '\u{200a}') || c == '\u{2028}' || c == '\u{2029}' || c
        == '\u{202f}' || c == '\u{205f}' || c == '\u{3000}'
}

/// A text without the white space in front.
pub open spec fn trimmed_front(s: Seq<char>) -> Seq<char>
    decreases s.len(),
{
    if s.len() > 0 && is_white_space(s[0]) {
        trimmed_front(s.drop_first())
    } else {
        s
    }
}

/// A text without the white space at the end.
pub open spec fn trimmed_back(s: Seq<char>) -> Seq<char>
    decreases s.len(),
{
    if s.len() > 0 && is_white_space(s.last()) {
        trimmed_back(s.drop_last())
    } else {
        s
    }
}

/// A text without the white space around it.
pub open spec fn trimmed(s: Seq<char>) -> Seq<char> {
    trimmed_back(trimmed_front(s))
}

/// Trimming takes the white space off both ends and nothing else.
pub proof fn law_trimming_keeps_the_middle(front: Seq<char>, middle: Seq<char>, back: Seq<char>)
    requires
        forall|i: int| 0 <= i < front.len() ==> is_white_space(#[trigger] front[i]),
        forall|i: int| 0 <= i < back.len() ==> is_white_space(#[trigger] back[i]),
        middle.len() > 0 ==> !is_white_space(middle[0]) && !is_white_space(middle.last()),
    ensures
        trimmed(front + middle + back) == middle,
    decreases front.len() + back.len(),
{
    let all = front + middle + back;
    if front.len() > 0 {
        let rest = front.drop_first();
        assert(is_white_space(front[0]));
        assert(all[0] == front[0]);
        assert(all.drop_first() =~= rest + middle + back);
        assert forall|i: int| 0 <= i < rest.len() implies is_white_space(#[trigger] rest[i]) by {
            assert(is_white_space(front[i + 1]));
        }
        law_trimming_keeps_the_middle(rest, middle, back);
    } else if middle.len() > 0 {
        assert(all[0] == middle[0]);
        assert(trimmed_front(all) == all);
        if back.len() > 0 {
            let rest = back.drop_last();
            assert(is_white_space(back[back.len() - 1]));
            assert(all.last() == back.last());
            assert(all.drop_last() =~= front + middle + rest);
            assert forall|i: int| 0 <= i < rest.len() implies is_white_space(
                #[trigger] rest[i],
            ) by {
                assert(is_white_space(back[i]));
            }
            law_trimming_keeps_the_middle(front, middle, rest);
            assert(trimmed_front(front + middle + rest) == front + middle + rest) by {
                assert((front + middle + rest)[0] == middle[0]);
            }
        } else {
            assert(all =~= middle);
        }
    } else if back.len() > 0 {
        let rest = back.drop_first();
        assert(is_white_space(back[0]));
        assert(all =~= back);
        assert(all.drop_first() =~= front + middle + rest);
        assert forall|i: int| 0 <= i < rest.len() implies is_white_space(#[trigger] rest[i]) by {
            assert(is_white_space(back[i + 1]));
        }
        law_trimming_keeps_the_middle(front, middle, rest);
    } else {
        assert(all =~= middle);
    }
}

/// White space is what Unicode counts as such, and the control characters from the tab to the carriage return.
pub proof fn law_white_space_characters(c: char)
    ensures
        is_white_space(c) <==> {
            let code = c as int;
            ||| 0x9 <= code <= 0xd
            ||| code == 0x20
            ||| code == 0x85
            ||| code == 0xa0
            ||| code == 0x1680
            ||| 0x2000 <= code <= 0x200a
            ||| code == 0x2028
            ||| code == 0x2029
            ||| code == 0x202f
            ||| code == 0x205f
            ||| code == 0x3000
        },
{
}

/// A text without the white space around it.
pub fn trim(chars: &[char]) -> (out: Vec<char>)
    ensures
        out@ == trimmed(chars@),
{
    let mut start: usize = 0;
    assert(chars@.skip(0) =~= chars@);
    while start < chars.len() && test_white_space(chars[start])
        invariant
            start <= chars@.len(),
            trimmed_front(chars@.skip(start as int)) == trimmed_front(chars@),
        decreases chars@.len() - start,
    {
        assert(chars@.skip(start as int).drop_first() =~= chars@.skip(start + 1));
        start = start + 1;
    }
    let ghost front = chars@.skip(start as int);
    let mut end: usize = chars.len();
    assert(chars@.subrange(start as int, end as int) =~= front);
    while end > start && test_white_space(chars[end - 1])
        invariant
            start <= end <= chars@.len(),
            trimmed_back(chars@.subrange(start as int, end as int)) == trimmed_back(front),
        decreases end,
    {
        assert(chars@.subrange(start as int, end as int).drop_last() =~= chars@.subrange(
            start as int,
            end - 1,
        ));
        end = end - 1;
    }
    vstd::slice::slice_to_vec(vstd::slice::slice_subrange(chars, start, end))
}

/// No part of a split text has the separator in it.
pub proof fn law_parts_lack_the_separator(s: Seq<char>, separator: char)
    ensures
        forall|i: int|
            0 <= i < split(s, separator).len() ==> !(#[trigger] split(s, separator)[i]).contains(
                separator,
            ),
    decreases s.len(),
{
    let k = first_index(s, separator);
    lemma_first_index(s, separator);
    let parts = split(s, separator);
    if k < s.len() {
        let rest = s.skip(k + 1);
        law_parts_lack_the_separator(rest, separator);
        assert forall|i: int| 0 <= i < parts.len() implies !(#[trigger] parts[i]).contains(
            separator,
        ) by {
            if i == 0 {
                if parts[0].contains(separator) {
                    let j = choose|j: int| 0 <= j < parts[0].len() && parts[0][j] == separator;
                    assert(s[j] == separator);
                }
            } else {
                assert(parts[i] == split(rest, separator)[i - 1]);
            }
        }
    } else {
        assert forall|i: int| 0 <= i < parts.len() implies !(#[trigger] parts[i]).contains(
            separator,
        ) by {
            if parts[0].contains(separator) {
                let j = choose|j: int| 0 <= j < s.len() && s[j] == separator;
                assert(s[j] == separator);
            }
        }
    }
}

/// What stands behind the last separator is the last part.
pub proof fn law_last_part(front: Seq<char>, last: Seq<char>, separator: char)
    requires
        !last.contains(separator),
    ensures
        split(front + seq![separator] + last, separator) == split(front, separator).push(last),
        split(last, separator) == seq![last],
{
    let parts = split(front, separator);
    law_split_joins_back(front, separator);
    law_parts_lack_the_separator(front, separator);
    let all = parts.push(last);
    assert(all.drop_last() =~= parts);
    assert(join(all, seq![separator]) == front + seq![separator] + last);
    assert forall|i: int| 0 <= i < all.len() implies !(#[trigger] all[i]).contains(separator) by {
        if i < parts.len() {
            assert(all[i] == parts[i]);
        }
    }
    law_joined_splits_back(all, separator);
    let one = seq![last];
    assert(join(one, seq![separator]) == last);
    law_joined_splits_back(one, separator);
}

/// Texts are in order by the first character that differs, and a text comes before what it is the start of.
pub proof fn law_texts_are_ordered(common: Seq<char>, a: Seq<char>, b: Seq<char>)
    requires
        a.len() > 0 && b.len() > 0 ==> a[0] != b[0],
    ensures
        lex_less(common + a, common + b) <==> b.len() > 0 && (a.len() == 0 || a[0] < b[0]),
    decreases common.len(),
{
    if common.len() > 0 {
        law_texts_are_ordered(common.drop_first(), a, b);
        assert((common + a).drop_first() =~= common.drop_first() + a);
        assert((common + b).drop_first() =~= common.drop_first() + b);
    } else {
        assert(common + a =~= a);
        assert(common + b =~= b);
    }
}

/// Parts are joined with the separator between each two of them.
pub proof fn law_joining(parts: Seq<Seq<char>>, part: Seq<char>, separator: Seq<char>)
    ensures
        join(Seq::empty(), separator) == Seq::<char>::empty(),
        join(seq![part], separator) == part,
        parts.len() > 0 ==> join(parts.push(part), separator) == join(parts, separator) + separator + part,
{
    assert(parts.push(part).drop_last() =~= parts);
}

} // verus!
