//! Splitting a text into lines.
use vstd::prelude::*;

use crate::text;
use crate::text::{chars_of, find_from, string_of};

verus! {

/// A line without the carriage return at its end.
pub open spec fn without_return(line: Seq<char>) -> Seq<char> {
    if line.len() > 0 && line.last() == '\r' {
        line.drop_last()
    } else {
        line
    }
}

/// The lines of a text, without their terminators. A line ends with a line feed, which may follow a
/// carriage return. The last line may have no terminator.
pub open spec fn lines(s: Seq<char>) -> Seq<Seq<char>>
    decreases s.len(),
{
    let k = text::first_index(s, '\n');
    if s.len() == 0 {
        Seq::empty()
    } else if 0 <= k < s.len() {
        seq![without_return(s.take(k))] + lines(s.skip(k + 1))
    } else {
        seq![s]
    }
}

/// Lines written one after the other, each with a line feed.
pub open spec fn written(lines: Seq<Seq<char>>) -> Seq<char>
    decreases lines.len(),
{
    if lines.len() == 0 {
        Seq::empty()
    } else {
        written(lines.drop_last()) + lines.last() + seq!['\n']
    }
}

/// Whether a text stands on a line of its own: it holds no line feed and ends with no carriage
/// return.
pub open spec fn is_line(line: Seq<char>) -> bool {
    &&& !line.contains('\n')
    &&& line.len() > 0 ==> line.last() != '\r'
}

/// Whether a line has no content.
pub open spec fn is_blank(line: Seq<char>) -> bool {
    line.len() == 0
}

/// The texts of strings.
pub open spec fn string_views(strings: Seq<String>) -> Seq<Seq<char>> {
    strings.map_values(|s: String| s@)
}

/// The lines of a text that starts with a whole line.
proof fn lemma_lines_front(line: Seq<char>, rest: Seq<char>)
    requires
        is_line(line),
    ensures
        lines(line + seq!['\n'] + rest) == seq![line] + lines(rest),
{
    let s = line + seq!['\n'] + rest;
    let k = line.len() as int;
    assert forall|i: int| 0 <= i < k implies s[i] != '\n' by {
        assert(s[i] == line[i]);
        assert(line.contains(line[i]));
    }
    text::lemma_first_index_unique(s, '\n', k);
    assert(s.take(k) =~= line);
    assert(s.skip(k + 1) =~= rest);
}

/// Lines that are written and then read are the same.
pub proof fn law_lines_read_back(all: Seq<Seq<char>>)
    requires
        forall|i: int| 0 <= i < all.len() ==> is_line(#[trigger] all[i]),
    ensures
        lines(written(all)) == all,
{
    lemma_lines_read_back(all, Seq::empty());
    assert(written(all) + Seq::<char>::empty() =~= written(all));
    assert(all + lines(Seq::empty()) =~= all);
}

proof fn lemma_lines_read_back(all: Seq<Seq<char>>, rest: Seq<char>)
    requires
        forall|i: int| 0 <= i < all.len() ==> is_line(#[trigger] all[i]),
    ensures
        lines(written(all) + rest) == all + lines(rest),
    decreases all.len(),
{
    if all.len() == 0 {
        assert(written(all) + rest =~= rest);
        assert(all + lines(rest) =~= lines(rest));
    } else {
        let line = all.last();
        assert(is_line(all[all.len() - 1]));
        assert forall|i: int| 0 <= i < all.drop_last().len() implies is_line(
            #[trigger] all.drop_last()[i],
        ) by {
            assert(is_line(all[i]));
        }
        lemma_lines_front(line, rest);
        lemma_lines_read_back(all.drop_last(), line + seq!['\n'] + rest);
        assert(written(all) + rest =~= written(all.drop_last()) + (line + seq!['\n'] + rest));
        assert(all.drop_last() + (seq![line] + lines(rest)) =~= all + lines(rest));
    }
}

/// A line without the carriage return at its end.
fn strip_return(line: &[char]) -> (stripped: String)
    ensures
        stripped@ == without_return(line@),
{
    let n: usize = line.len();
    if n > 0 && line[n - 1] == '\r' {
        assert(line@.subrange(0, n - 1) =~= line@.drop_last());
        string_of(vstd::slice::slice_subrange(line, 0, n - 1))
    } else {
        string_of(line)
    }
}

/// The lines of a text, without their terminators.
pub fn split_lines(s: &str) -> (all: Vec<String>)
    ensures
        string_views(all@) == lines(s@),
{
    let chars = chars_of(s);
    let mut all: Vec<String> = Vec::new();
    let mut start: usize = 0;
    assert(chars@.skip(0) =~= chars@);
    assert(string_views(all@) + lines(chars@.skip(0)) =~= lines(s@));
    while start < chars.len()
        invariant
            chars@ == s@,
            start <= chars@.len(),
            string_views(all@) + lines(chars@.skip(start as int)) == lines(s@),
        decreases chars@.len() - start,
    {
        let ghost rest = chars@.skip(start as int);
        let ghost before = all@;
        let (end, next): (usize, usize) = match find_from(&chars, start, '\n') {
            Some(end) => (end, end + 1),
            None => (chars.len(), chars.len()),
        };
        let found: bool = end < next;
        let piece = vstd::slice::slice_subrange(&chars, start, end);
        let line: String = if found {
            strip_return(piece)
        } else {
            string_of(piece)
        };
        proof {
            let k = end - start;
            text::lemma_first_index(rest, '\n');
            assert(piece@ =~= rest.take(k));
            if found {
                assert(rest.skip(k + 1) =~= chars@.skip(next as int));
            } else {
                assert(rest.take(k) =~= rest);
                assert(chars@.skip(next as int) =~= Seq::empty());
            }
            assert(lines(rest) =~= seq![line@] + lines(chars@.skip(next as int)));
        }
        all.push(line);
        proof {
            assert(string_views(all@) =~= string_views(before).push(line@));
            assert(string_views(all@) + lines(chars@.skip(next as int)) =~= string_views(before)
                + lines(rest));
        }
        start = next;
    }
    assert(chars@.skip(start as int) =~= Seq::empty());
    assert(string_views(all@) + lines(Seq::empty()) =~= string_views(all@));
    all
}

/// A text is read line by line: each line ends in front of a line feed, without a carriage return just before it
/// if there is one, and what is left behind the last line feed is a line as it is unless it is empty.
pub proof fn law_lines_end_at_line_feeds(line: Seq<char>, rest: Seq<char>)
    requires
        !line.contains('\n'),
    ensures
        lines(line + seq!['\n'] + rest) == seq![
            if line.len() > 0 && line.last() == '\r' {
                line.drop_last()
            } else {
                line
            },
        ] + lines(rest),
        line.len() > 0 ==> lines(line) == seq![line],
        lines(Seq::empty()) == Seq::<Seq<char>>::empty(),
{
    let all = line + seq!['\n'] + rest;
    assert forall|i: int| 0 <= i < line.len() implies all[i] != '\n' && line[i] != '\n' by {
        if line[i] == '\n' {
            assert(line.contains(line[i]));
        }
    }
    text::lemma_first_index_unique(all, '\n', line.len() as int);
    text::lemma_first_index_unique(line, '\n', line.len() as int);
    assert(all.take(line.len() as int) =~= line);
    assert(all.skip(line.len() as int + 1) =~= rest);
}

/// Each line is written with a line feed behind it, in order.
pub proof fn law_lines_are_written(all: Seq<Seq<char>>, line: Seq<char>)
    ensures
        written(Seq::empty()) == Seq::<char>::empty(),
        written(all.push(line)) == written(all) + line + seq!['\n'],
{
    assert(all.push(line).drop_last() =~= all);
}

/// Strings are seen by their texts, in order.
pub proof fn law_strings_are_seen_whole(strings: Seq<String>, i: int)
    requires
        0 <= i < strings.len(),
    ensures
        string_views(strings).len() == strings.len(),
        string_views(strings)[i] == strings[i]@,
{
}

} // verus!
