//! The formatter: from the changes to a report.
//!
//! A record is written line by line, each line behind a mark and ended by a
//! line feed. The records of a list are parted by a line feed more, the two
//! lists by two; the whole is trimmed.

use crate::diff::{Changes, Diff};
use crate::lines::{lemma_line_end, line_break, line_end, lines, lines_from, without_cr};
use crate::position::{
    byte_pos, end_of, lemma_before_end, lemma_char_at, lemma_rising, look_back, slice,
};
use crate::text::{is_trimmed, lemma_trimmed, trim, trimmed};
use vstd::prelude::*;
use vstd::string::*;

verus! {

/// The mark before each line of an added record.
pub open spec fn added_mark() -> Seq<char> {
    seq!['>', ' ']
}

/// The mark before each line of a removed record.
pub open spec fn removed_mark() -> Seq<char> {
    seq!['<', ' ']
}

/// The lines one after the other, each behind `mark` and ended by a line
/// feed.
pub open spec fn marked(lines: Seq<Seq<char>>, mark: Seq<char>) -> Seq<char>
    decreases lines.len(),
{
    if lines.len() == 0 {
        seq![]
    } else {
        mark + lines[0] + seq!['\n'] + marked(lines.drop_first(), mark)
    }
}

/// A record as the report shows it: the lines of the trimmed record, marked.
pub open spec fn entry(record: Seq<char>, mark: Seq<char>) -> Seq<char> {
    marked(lines(trimmed(record)), mark)
}

/// A list of records as the report shows it: its entries, with a line feed
/// between one and the next.
pub open spec fn block(records: Seq<Seq<char>>, mark: Seq<char>) -> Seq<char>
    decreases records.len(),
{
    if records.len() == 0 {
        seq![]
    } else if records.len() == 1 {
        entry(records[0], mark)
    } else {
        block(records.drop_last(), mark) + seq!['\n'] + entry(records.last(), mark)
    }
}

/// The report before it is trimmed: the block of the added records, then that
/// of the removed ones, two line feeds between them if there are both.
pub open spec fn blocks(changes: Changes) -> Seq<char> {
    let added = block(changes.added, added_mark());
    let removed = block(changes.removed, removed_mark());
    if changes.added.len() > 0 && changes.removed.len() > 0 {
        added + seq!['\n', '\n'] + removed
    } else if changes.added.len() > 0 {
        added
    } else if changes.removed.len() > 0 {
        removed
    } else {
        seq![]
    }
}

/// The report on `changes`.
pub open spec fn report_of(changes: Changes) -> Seq<char> {
    trimmed(blocks(changes))
}

/// Writes `mark`, `line` and a line feed to the end of `out`.
fn write_line(out: &mut String, mark: &str, line: &str)
    ensures
        final(out)@ == old(out)@ + mark@ + line@ + seq!['\n'],
{
    proof {
        reveal_strlit("\n");
    }
    out.append(mark);
    out.append(line);
    out.append("\n");
}

/// Writes the entry of `record` to the end of `out`.
fn write_entry(out: &mut String, record: &str, mark: &str)
    ensures
        final(out)@ == old(out)@ + entry(record@, mark@),
{
    let body = trim(record);
    let stop = end_of(body);
    let mut from: usize = 0;
    let ghost mut k: int = 0;
    let ghost whole = old(out)@ + marked(lines_from(body@, 0), mark@);
    while from < stop
        invariant
            0 <= k <= body@.len(),
            from == byte_pos(body@, k),
            stop == byte_pos(body@, body@.len() as int),
            from < stop <==> k < body@.len(),
            out@ + marked(lines_from(body@, k), mark@) == whole,
        decreases body@.len() - k,
    {
        let end = line_break(body, from, Ghost(k));
        let ghost e = line_end(body@, k);
        let ghost before = out@;
        proof {
            lemma_line_end(body@, k);
            lemma_before_end(body@, e);
            if k < e {
                lemma_rising(body@, k, e);
            }
        }
        if end < stop {
            let mut line_stop = end;
            let ghost mut line_k = e;
            if end > from {
                if look_back(body, end, Ghost(e)) == Some('\r') {
                    line_stop = end - 1;
                    proof {
                        line_k = e - 1;
                    }
                }
            }
            let line = slice(body, from, line_stop, Ghost(k), Ghost(line_k));
            write_line(out, mark, line);
            from = end + 1;
            proof {
                lemma_char_at(body@, e);
                let rest = lines_from(body@, e + 1);
                assert(line@ == without_cr(body@.subrange(k, e)));
                assert((seq![line@] + rest).drop_first() =~= rest);
                assert(before + (mark@ + line@ + seq!['\n'] + marked(rest, mark@)) =~= before
                    + mark@ + line@ + seq!['\n'] + marked(rest, mark@));
                k = e + 1;
                lemma_before_end(body@, k);
            }
        } else {
            let line = slice(body, from, stop, Ghost(k), Ghost(e));
            write_line(out, mark, line);
            from = stop;
            proof {
                let rest = Seq::<Seq<char>>::empty();
                assert(seq![line@].drop_first() =~= rest);
                assert(before + (mark@ + line@ + seq!['\n'] + marked(rest, mark@)) =~= before
                    + mark@ + line@ + seq!['\n']);
                k = e;
            }
        }
    }
}

impl<'a> Diff<'a> {
    /// The records of `text` as a block of the report, each line behind
    /// `start`.
    pub fn format(text: &[&str], start: &str) -> (shown: String)
        ensures
            shown@ == block(text.deep_view(), start@),
    {
        let mut shown = String::new();
        let mut i: usize = 0;
        while i < text.len()
            invariant
                i <= text.len(),
                shown@ == block(text.deep_view().take(i as int), start@),
            decreases text.len() - i,
        {
            let ghost seen = text.deep_view().take(i as int);
            if i > 0 {
                proof {
                    reveal_strlit("\n");
                }
                shown.append("\n");
            }
            write_entry(&mut shown, text[i], start);
            i += 1;
            proof {
                assert(text.deep_view().take(i as int).drop_last() =~= seen);
            }
        }
        proof {
            assert(text.deep_view().take(i as int) =~= text.deep_view());
        }
        shown
    }

    /// The report on these changes: the added records, each line behind
    /// `"> "`, then the removed ones, each line behind `"< "`, with no white
    /// space before or behind; the empty text if nothing changed.
    pub fn report(&self) -> (text: String)
        ensures
            text@ == report_of(self@),
            is_trimmed(text@),
            self@.added.len() == 0 && self@.removed.len() == 0 ==> text@.len() == 0,
    {
        proof {
            lemma_trimmed(blocks(self@));
        }
        let mut shown = String::new();
        if self.added.len() > 0 {
            proof {
                reveal_strlit("> ");
                assert("> "@ =~= added_mark());
            }
            shown = Self::format(self.added.as_slice(), "> ");
        }
        if self.removed.len() > 0 {
            if self.added.len() > 0 {
                proof {
                    reveal_strlit("\n\n");
                    assert("\n\n"@ =~= seq!['\n', '\n']);
                }
                shown.append("\n\n");
            }
            proof {
                reveal_strlit("< ");
                assert("< "@ =~= removed_mark());
            }
            let removed = Self::format(self.removed.as_slice(), "< ");
            shown.append(removed.as_str());
        }
        trim(shown.as_str()).to_owned()
    }
}

} // verus!
