//! The parser of mapping files: classifies each line, extracts the
//! address token and the name tokens, validates the address, and
//! accumulates the resulting records in file order.  Malformed or
//! rejected lines are dropped silently, so a few bad lines never make
//! the rest of the file unusable.

use vstd::prelude::*;

use crate::address::Address;
use crate::address::spec_acceptable;
use crate::address::spec_parse_address;
use crate::record::Record;
use crate::record::RecordModel;
use crate::record::duplicate_records;
use crate::text::line_tokens;
use crate::text::lines_of;
use crate::text::split_lines;
use crate::text::tokenize;
use crate::text::views_of;

verus! {

/// The part of a line that a reader stands at.
#[derive(Clone, Copy, Debug, PartialEq, Eq, Structural)]
pub enum Part {
    Addr,
    Names,
    Comment,
    Unknown,
}

impl Default for Part {
    fn default() -> (r: Part)
        ensures
            r == Part::Unknown,
    {
        Part::Unknown
    }
}

/// The whole-parse failure: the file could not be opened or read.  The
/// parsing functions of this crate never construct it themselves; the
/// caller that performs the reading maps its failure into this variant.
#[derive(Debug, PartialEq, Eq)]
pub enum ParserError {
    CouldNotOpen(String),
}

/// The record contributed by one line: none for a blank line, a comment
/// line, a line whose first token is no address literal, or one whose
/// address is neither loopback nor private; otherwise the address and
/// the remaining tokens as names.
pub open spec fn spec_line_record(line: Seq<char>) -> Option<RecordModel> {
    if line.len() == 0 {
        None
    } else if line[0] == '#' {
        None
    } else {
        let toks = line_tokens(line);
        if toks.len() == 0 {
            None
        } else {
            match spec_parse_address(toks[0]) {
                Some(addr) => if spec_acceptable(addr) {
                    Some(RecordModel { addr, names: toks.drop_first() })
                } else {
                    None
                },
                None => None,
            }
        }
    }
}

/// The records of a sequence of lines, in file order.
pub open spec fn records_of_lines(lines: Seq<Seq<char>>) -> Seq<RecordModel>
    decreases lines.len(),
{
    if lines.len() == 0 {
        Seq::empty()
    } else {
        records_of_lines(lines.drop_last()) + match spec_line_record(lines.last()) {
            Some(m) => seq![m],
            None => Seq::<RecordModel>::empty(),
        }
    }
}

/// Extracts the record of one line, if the line carries one.
pub fn line_record(line: &str) -> (r: Option<Record>)
    ensures
        match r {
            Some(rec) => spec_line_record(line@) == Some(rec@),
            None => spec_line_record(line@) is None,
        },
{
    if line.is_empty() {
        return None;
    }
    if line.get_char(0) == '#' {
        return None;
    }
    let mut toks = tokenize(line);
    if toks.len() == 0 {
        return None;
    }
    let ghost tv = views_of(toks@);
    let first = toks.remove(0);
    proof {
        assert(first@ == tv[0]);
        assert(views_of(toks@) =~~= tv.drop_first());
    }
    let addr = match Address::parse(first.as_str()) {
        Ok(a) => a,
        Err(_) => { return None },
    };
    match Record::new(addr, toks) {
        Ok(rec) => Some(rec),
        Err(_) => None,
    }
}

/// Reads records out of the lines of one mapping file, accumulating
/// them in file order.
#[derive(Debug)]
pub struct Parser {
    line: u64,
    part: Part,
    records: Vec<Record>,
}

impl Parser {
    /// The abstract values of the accumulated records, in file order.
    pub closed spec fn spec_records(self) -> Seq<RecordModel> {
        self.records@.map_values(|r: Record| r@)
    }

    /// Parses the whole text of a mapping file.  Every line's record,
    /// in file order, is appended to the accumulator, and the whole
    /// accumulated sequence is returned.  No failure of an individual
    /// line is surfaced: with the text already in hand the parse always
    /// succeeds.
    pub fn parse(&mut self, content: &str) -> (r: Result<Vec<Record>, ParserError>)
        ensures
            final(self).spec_records() == old(self).spec_records() + records_of_lines(
                lines_of(content@),
            ),
            match r {
                Ok(recs) => recs@.map_values(|x: Record| x@) == final(self).spec_records(),
                Err(_) => false,
            },
    {
        let lines = split_lines(content);
        self.part = Part::Names;
        let ghost lv = views_of(lines@);
        let n = lines.len();
        let mut i: usize = 0;
        proof {
            assert(lv.subrange(0, 0) =~= Seq::<Seq<char>>::empty());
            assert(self.spec_records() + records_of_lines(lv.subrange(0, 0))
                =~= self.spec_records());
        }
        while i < n
            invariant
                i <= n,
                n == lines@.len(),
                lv == views_of(lines@),
                self.spec_records() == old(self).spec_records() + records_of_lines(
                    lv.subrange(0, i as int),
                ),
            decreases n - i,
        {
            if self.line < u64::MAX {
                self.line = self.line + 1;
            }
            proof {
                assert(lv[i as int] == lines@[i as int]@);
                assert(lv.subrange(0, i + 1).drop_last() =~= lv.subrange(0, i as int));
                assert(lv.subrange(0, i + 1).last() == lv[i as int]);
            }
            let ghost before = self.records@;
            match line_record(lines[i].as_str()) {
                Some(rec) => {
                    self.records.push(rec);
                    proof {
                        assert(self.records@.map_values(|x: Record| x@) =~~= before.map_values(
                            |x: Record| x@,
                        ).push(rec@));
                        assert(self.spec_records() =~~= old(self).spec_records()
                            + records_of_lines(lv.subrange(0, i + 1)));
                    }
                },
                None => {
                    proof {
                        assert(self.spec_records() =~~= old(self).spec_records()
                            + records_of_lines(lv.subrange(0, i + 1)));
                    }
                },
            }
            i += 1;
        }
        proof {
            assert(lv.subrange(0, n as int) =~= lv);
        }
        Ok(duplicate_records(&self.records))
    }
}

impl Default for Parser {
    /// A fresh parser: no records accumulated, the line counter at
    /// zero.
    fn default() -> (r: Parser)
        ensures
            r.spec_records() == Seq::<RecordModel>::empty(),
    {
        let records: Vec<Record> = Vec::new();
        let p = Parser { line: 0, part: Part::Unknown, records };
        proof {
            assert(p.spec_records() =~= Seq::<RecordModel>::empty());
        }
        p
    }
}

/// A file of only blank lines and full-line comments yields no
/// records.
pub proof fn lemma_only_comments_and_blanks(lines: Seq<Seq<char>>)
    requires
        forall|i: int|
            0 <= i < lines.len() ==> (#[trigger] lines[i]).len() == 0 || lines[i][0] == '#',
    ensures
        records_of_lines(lines) == Seq::<RecordModel>::empty(),
    decreases lines.len(),
{
    if lines.len() > 0 {
        assert(forall|i: int|
            0 <= i < lines.drop_last().len() ==> (#[trigger] lines.drop_last()[i]).len() == 0
                || lines.drop_last()[i][0] == '#');
        lemma_only_comments_and_blanks(lines.drop_last());
        assert(lines.last() == lines[lines.len() - 1]);
        assert(spec_line_record(lines.last()) is None);
        assert(records_of_lines(lines) =~= Seq::<RecordModel>::empty());
    }
}

/// Lines contribute independently: the records of a file are the
/// records of its parts, concatenated.  A malformed or rejected line
/// therefore never disturbs the lines after it.
pub proof fn lemma_lines_independent(a: Seq<Seq<char>>, b: Seq<Seq<char>>)
    ensures
        records_of_lines(a + b) == records_of_lines(a) + records_of_lines(b),
    decreases b.len(),
{
    if b.len() == 0 {
        assert(a + b =~= a);
        assert(records_of_lines(a) + records_of_lines(b) =~= records_of_lines(a));
    } else {
        lemma_lines_independent(a, b.drop_last());
        assert((a + b).drop_last() =~= a + b.drop_last());
        assert((a + b).last() == b.last());
        assert(records_of_lines(a + b) =~= records_of_lines(a) + records_of_lines(b));
    }
}

/// Parsing is deterministic: two record sequences read from the same
/// lines are equal, so parsing a file twice from fresh parsers gives
/// identical results.
pub proof fn lemma_parse_deterministic(
    r1: Seq<RecordModel>,
    r2: Seq<RecordModel>,
    lines: Seq<Seq<char>>,
)
    requires
        r1 == records_of_lines(lines),
        r2 == records_of_lines(lines),
    ensures
        r1 == r2,
{
}

} // verus!
