//! Reading snapshots from JSON Lines.
//!
//! Lines are parsed structurally and the content is kept as raw JSON, so reading needs no context.
use vstd::prelude::*;

use crate::exact;
use crate::exact::{ExactSnapshot, InvalidLine};
use crate::lines;
use crate::lines::split_lines;
use crate::snapshot::Snapshot;

verus! {

/// The line that an error happened on.
#[derive(Debug, PartialEq, Eq)]
pub struct LineContext {
    /// What names the text that was read.
    pub source: String,
    /// The one-based number of the line.
    pub line: usize,
    /// The line itself.
    pub excerpt: Option<String>,
}

/// A snapshot line could not be read, or does not hold a snapshot.
#[derive(Debug, PartialEq, Eq)]
pub enum Error {
    /// The line is blank.
    Read {
        /// The line that should not be blank.
        context: LineContext,
    },
    /// The line is not a well-formed snapshot.
    InvalidLine {
        /// The line the snapshot was expected on.
        context: LineContext,
    },
}

/// Reads JSONL snapshot lines into raw snapshots.
///
/// Blank lines are rejected; each line must contain a snapshot.
#[derive(Debug)]
pub struct SnapshotReader {
    lines: Vec<String>,
    position: usize,
    source: String,
}

impl SnapshotReader {
    #[verifier::type_invariant]
    spec fn is_well_formed(self) -> bool {
        self.position <= self.lines@.len()
    }

    /// The lines of the text that is read.
    pub closed spec fn all(&self) -> Seq<Seq<char>> {
        lines::string_views(self.lines@)
    }

    /// How many lines were read.
    pub closed spec fn read_count(&self) -> nat {
        self.position as nat
    }

    /// What names the text that is read.
    pub closed spec fn source(&self) -> Seq<char> {
        self.source@
    }

    /// Read JSONL snapshots from a text.
    ///
    /// Errors name no source; use [`with_source`](Self::with_source) to name one.
    pub fn new(text: &str) -> (reader: SnapshotReader)
        ensures
            reader.all() == lines::lines(text@),
            reader.read_count() == 0,
            reader.source() == Seq::<char>::empty(),
    {
        let reader = SnapshotReader { lines: split_lines(text), position: 0, source: String::new() };
        assert(reader.source() =~= Seq::empty());
        reader
    }

    /// Read JSONL snapshots from a text named `source` in errors.
    pub fn with_source(text: &str, source: &str) -> (reader: SnapshotReader)
        ensures
            reader.all() == lines::lines(text@),
            reader.read_count() == 0,
            reader.source() == source@,
    {
        SnapshotReader { lines: split_lines(text), position: 0, source: source.to_owned() }
    }

    /// The snapshot on the next line, which stays the next, or `None` after the last line.
    pub fn peek(&self) -> (item: Option<Result<ExactSnapshot<'static>, Error>>)
        ensures
            match item {
                None => self.read_count() == self.all().len(),
                Some(result) => {
                    &&& self.read_count() < self.all().len()
                    &&& is_read(
                        result,
                        self.all()[self.read_count() as int],
                        self.read_count() + 1,
                        self.source(),
                    )
                },
            },
    {
        proof {
            use_type_invariant(self);
        }
        if self.position >= self.lines.len() {
            return None;
        }
        let line: String = self.lines[self.position].clone();
        let number: usize = self.position + 1;
        if line.as_str().is_empty() {
            let context = LineContext {
                source: self.source.clone(),
                line: number,
                excerpt: Some(line),
            };
            return Some(Err(Error::Read { context }));
        }
        let parsed: Result<ExactSnapshot<'static>, InvalidLine> = match Snapshot::parse(
            line.as_str(),
        ) {
            Ok(snapshot) => Ok(snapshot.into_static()),
            Err(error) => Err(error),
        };
        match parsed {
            Ok(snapshot) => Some(Ok(snapshot)),
            Err(_) => {
                let context = LineContext {
                    source: self.source.clone(),
                    line: number,
                    excerpt: Some(line),
                };
                Some(Err(Error::InvalidLine { context }))
            },
        }
    }

    /// The snapshot on the next line, or `None` after the last line.
    pub fn next(&mut self) -> (item: Option<Result<ExactSnapshot<'static>, Error>>)
        ensures
            final(self).all() == old(self).all(),
            final(self).source() == old(self).source(),
            match item {
                None => {
                    &&& old(self).read_count() == old(self).all().len()
                    &&& final(self).read_count() == old(self).read_count()
                },
                Some(result) => {
                    &&& old(self).read_count() < old(self).all().len()
                    &&& final(self).read_count() == old(self).read_count() + 1
                    &&& is_read(
                        result,
                        old(self).all()[old(self).read_count() as int],
                        old(self).read_count() + 1,
                        old(self).source(),
                    )
                },
            },
    {
        let item = self.peek();
        self.skip();
        item
    }

    /// How many lines were read.
    pub fn position(&self) -> (count: usize)
        ensures
            count == self.read_count(),
    {
        self.position
    }

    /// Passes over the next line, if there is one.
    pub fn skip(&mut self)
        ensures
            final(self).all() == old(self).all(),
            final(self).source() == old(self).source(),
            final(self).read_count() == if old(self).read_count() < old(self).all().len() {
                old(self).read_count() + 1
            } else {
                old(self).read_count()
            },
    {
        proof {
            use_type_invariant(&*self);
        }
        if self.position < self.lines.len() {
            self.position = self.position + 1;
        }
    }
}

/// Whether an error context names a line.
pub open spec fn names_line(
    context: LineContext,
    line: Seq<char>,
    number: nat,
    source: Seq<char>,
) -> bool {
    &&& context.source@ == source
    &&& context.line == number
    &&& context.excerpt matches Some(excerpt) && excerpt@ == line
}

/// Whether a result is what the line with the given number reads as.
pub open spec fn is_read(
    result: Result<ExactSnapshot<'static>, Error>,
    line: Seq<char>,
    number: nat,
    source: Seq<char>,
) -> bool {
    match result {
        Ok(snapshot) => {
            &&& !lines::is_blank(line)
            &&& exact::parse_line(line) == Some(exact::snapshot_view(snapshot))
        },
        Err(Error::Read { context }) => {
            &&& lines::is_blank(line)
            &&& names_line(context, line, number, source)
        },
        Err(Error::InvalidLine { context }) => {
            &&& !lines::is_blank(line)
            &&& exact::parse_line(line) is None
            &&& names_line(context, line, number, source)
        },
    }
}

/// A line is read as the snapshot on it. A blank line and one that holds no snapshot are errors of two kinds,
/// each with the source, the number of the line and the line itself.
pub proof fn law_lines_are_read(
    result: Result<ExactSnapshot<'static>, Error>,
    line: Seq<char>,
    number: nat,
    source: Seq<char>,
)
    requires
        is_read(result, line, number, source),
    ensures
        result is Ok <==> line.len() > 0 && exact::parse_line(line) is Some,
        result matches Ok(snapshot) ==> exact::parse_line(line) == Some(
            exact::snapshot_view(snapshot),
        ),
        result matches Err(error) ==> {
            &&& error is Read <==> line.len() == 0
            &&& ({
                let context = match error {
                    Error::Read { context } => context,
                    Error::InvalidLine { context } => context,
                };
                &&& context.source@ == source
                &&& context.line == number
                &&& context.excerpt matches Some(excerpt)
                &&& excerpt@ == line
            })
        },
{
}

/// Lines are read one after the other: each once, in order, with its number, and none behind the last.
pub proof fn law_lines_are_read_in_order(
    reader: &mut SnapshotReader,
    item: Option<Result<ExactSnapshot<'static>, Error>>,
)
    requires
        call_ensures(SnapshotReader::next, (reader,), item),
    ensures
        ({
            let all = old(reader).all();
            let count = old(reader).read_count();
            &&& final(reader).all() == all
            &&& item is None ==> count == all.len() && final(reader).read_count() == count
            &&& item matches Some(result) ==> {
                &&& count < all.len()
                &&& final(reader).read_count() == count + 1
                &&& result is Ok <==> all[count as int].len() > 0 && exact::parse_line(
                    all[count as int],
                ) is Some
                &&& result matches Ok(snapshot) ==> exact::parse_line(all[count as int]) == Some(
                    exact::snapshot_view(snapshot),
                )
                &&& result matches Err(Error::InvalidLine { context }) ==> context.line == count + 1
                &&& result matches Err(Error::Read { context }) ==> context.line == count + 1
            }
        }),
{
}

} // verus!
