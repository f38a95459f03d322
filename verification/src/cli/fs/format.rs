//! Reading the text of an index: one record to a line, a dash in place of
//! the digest on the lines of duplicates.

use vstd::prelude::*;
use crate::cli::fs::treeindex::{absorb, TreeIndex};
use crate::cli::fs::treeitem::{GroupView, ItemView, TreeItem};
use crate::error::Error;
use crate::text::{decimal, find_space, first_white, parse_size, push_decimal, size_of, string_of, to_chars};

verus! {

/// The index of the first line break of `text`, or `text.len()` when there
/// is none.
pub open spec fn first_break(text: Seq<char>) -> nat
    decreases text.len(),
{
    if text.len() == 0 {
        0
    } else if text[0] == '\n' {
        0
    } else {
        1 + first_break(text.drop_first())
    }
}

/// A position `k` with a line break, before which there is none, is
/// `first_break`.
pub proof fn lemma_first_break_is(text: Seq<char>, k: int)
    requires
        0 <= k <= text.len(),
        forall|i: int| 0 <= i < k ==> #[trigger] text[i] != '\n',
        k < text.len() ==> text[k] == '\n',
    ensures
        first_break(text) == k,
    decreases text.len(),
{
    if text.len() > 0 && k > 0 {
        let t = text.drop_first();
        assert forall|i: int| 0 <= i < k - 1 implies #[trigger] t[i] != '\n' by {
            assert(t[i] == text[i + 1]);
        }
        lemma_first_break_is(t, k - 1);
    }
}

/// A line without the carriage return that stood before its line break.
pub open spec fn strip_cr(line: Seq<char>) -> Seq<char> {
    if line.len() > 0 && line.last() == '\r' {
        line.drop_last()
    } else {
        line
    }
}

/// The lines of `text`. A line ends at a line break, or at a carriage
/// return followed by one, or with the text; neither belongs to the line.
pub open spec fn lines_of(text: Seq<char>) -> Seq<Seq<char>>
    decreases text.len(),
{
    if text.len() == 0 {
        Seq::empty()
    } else {
        let k = first_break(text) as int;
        if k >= text.len() {
            seq![text]
        } else {
            seq![strip_cr(text.subrange(0, k))] + lines_of(text.subrange(k + 1, text.len() as int))
        }
    }
}

/// What a line says.
pub enum LineView {
    /// A primary record.
    Primary(ItemView),
    /// A duplicate, at this path, of the primary record read last.
    Dupe(Seq<char>),
    /// No white space ends the digest.
    NoDigest,
    /// No white space ends the size.
    NoSize,
}

/// Reads one line. The digest ends at the first white space; the character
/// behind it starts the rest. After a dash the rest is the path of a
/// duplicate. After any other digest the size ends at the next white space,
/// and what follows the character behind it is the path.
pub open spec fn parse_line(line: Seq<char>) -> LineView {
    let i = first_white(line);
    if i >= line.len() {
        LineView::NoDigest
    } else {
        let digest = line.subrange(0, i);
        let rest = line.subrange(i + 1, line.len() as int);
        if digest == seq!['-'] {
            LineView::Dupe(rest)
        } else {
            let j = first_white(rest);
            if j >= rest.len() {
                LineView::NoSize
            } else {
                LineView::Primary(
                    ItemView {
                        digest,
                        size: size_of(rest.subrange(0, j)),
                        path: rest.subrange(j + 1, rest.len() as int),
                    },
                )
            }
        }
    }
}

/// What is wrong with a text, and the number of the line where, counted
/// from 1.
pub enum Fault {
    MissingDigest { line: nat },
    MissingSize { line: nat },
}

/// The message for a fault.
pub open spec fn fault_message(fault: Fault) -> Seq<char> {
    match fault {
        Fault::MissingDigest { line } => "missing digest on line "@ + decimal(line),
        Fault::MissingSize { line } => "missing size on line "@ + decimal(line),
    }
}

/// What has been read: the groups, and the digest that a line of a
/// duplicate stands for.
pub struct ReadView {
    pub groups: Seq<GroupView>,
    pub last: Seq<char>,
}

/// Before the first line there are no groups, and a duplicate would stand
/// for a dash.
pub open spec fn read_start() -> ReadView {
    ReadView { groups: Seq::empty(), last: seq!['-'] }
}

/// Takes in what the line with the given number says. A fault stays; a
/// malformed line is a fault; a record is merged into the groups as one of
/// a list is, a duplicate under the digest of the primary record read last.
pub open spec fn take(
    state: Result<ReadView, Fault>,
    number: nat,
    line: LineView,
    with_dupes: bool,
) -> Result<ReadView, Fault> {
    match state {
        Err(fault) => Err(fault),
        Ok(read) => match line {
            LineView::NoDigest => Err(Fault::MissingDigest { line: number }),
            LineView::NoSize => Err(Fault::MissingSize { line: number }),
            LineView::Primary(record) => Ok(
                ReadView { groups: absorb(read.groups, record, with_dupes), last: record.digest },
            ),
            LineView::Dupe(path) => Ok(
                ReadView {
                    groups: absorb(
                        read.groups,
                        ItemView { digest: read.last, path, size: 0 },
                        with_dupes,
                    ),
                    last: read.last,
                },
            ),
        },
    }
}

/// Takes in the line with the given number.
pub open spec fn read_line(
    state: Result<ReadView, Fault>,
    number: nat,
    line: Seq<char>,
    with_dupes: bool,
) -> Result<ReadView, Fault> {
    take(state, number, parse_line(line), with_dupes)
}

/// Takes in `lines`, of which the first has the number `done + 1`.
pub open spec fn read_from(
    state: Result<ReadView, Fault>,
    done: nat,
    lines: Seq<Seq<char>>,
    with_dupes: bool,
) -> Result<ReadView, Fault>
    decreases lines.len(),
{
    if lines.len() == 0 {
        state
    } else {
        read_line(
            read_from(state, done, lines.drop_last(), with_dupes),
            done + lines.len() as nat,
            lines.last(),
            with_dupes,
        )
    }
}

/// What the text of an index says, or the first fault in it.
pub open spec fn read_text(text: Seq<char>, with_dupes: bool) -> Result<ReadView, Fault> {
    read_from(Ok(read_start()), 0, lines_of(text), with_dupes)
}

/// The error for a malformed line.
fn fault_error(missing: &str, number: usize) -> (error: Error)
    ensures
        error matches Error::InvalidFormat(m) && m@ == missing@ + decimal(number as nat),
{
    let mut message = String::from_str(missing);
    push_decimal(&mut message, number as u64);
    Error::InvalidFormat(message)
}

/// A line as it was read.
pub enum Line {
    Primary(TreeItem),
    Dupe(String),
    NoDigest,
    NoSize,
}

impl View for Line {
    type V = LineView;

    open spec fn view(&self) -> LineView {
        match self {
            Line::Primary(record) => LineView::Primary(record@),
            Line::Dupe(path) => LineView::Dupe(path@),
            Line::NoDigest => LineView::NoDigest,
            Line::NoSize => LineView::NoSize,
        }
    }
}

/// Where the line that starts at `from` ends, and where the next one
/// starts.
fn line_bounds(chars: &[char], from: usize) -> (bounds: (usize, usize))
    requires
        from < chars@.len(),
    ensures
        from <= bounds.0 <= bounds.1 <= chars@.len(),
        from < bounds.1,
        lines_of(chars@.subrange(from as int, chars@.len() as int)) == seq![
            chars@.subrange(from as int, bounds.0 as int),
        ] + lines_of(chars@.subrange(bounds.1 as int, chars@.len() as int)),
{
    let n: usize = chars.len();
    let ghost rest = chars@.subrange(from as int, n as int);
    let mut stop: usize = from;
    while stop < n && chars[stop] != '\n'
        invariant
            from <= stop <= n,
            n == chars@.len(),
            rest == chars@.subrange(from as int, n as int),
            forall|i: int| 0 <= i < stop - from ==> #[trigger] rest[i] != '\n',
        decreases n - stop,
    {
        stop += 1;
    }
    proof {
        lemma_first_break_is(rest, stop - from);
    }
    let end: usize = if stop < n && stop > from && chars[stop - 1] == '\r' {
        stop - 1
    } else {
        stop
    };
    let next: usize = if stop < n {
        stop + 1
    } else {
        stop
    };
    proof {
        let line = chars@.subrange(from as int, end as int);
        assert(rest.subrange(0, stop - from) =~= chars@.subrange(from as int, stop as int));
        if stop < n {
            assert(line =~= strip_cr(rest.subrange(0, stop - from)));
            assert(rest.subrange(stop - from + 1, rest.len() as int) =~= chars@.subrange(
                next as int,
                n as int,
            ));
        } else {
            assert(line =~= rest);
            assert(lines_of(chars@.subrange(next as int, n as int)) =~= Seq::<Seq<char>>::empty());
        }
        assert(lines_of(rest) =~= seq![line] + lines_of(chars@.subrange(next as int, n as int)));
    }
    (end, next)
}

/// Reads the line `chars[from..to]`.
pub fn read_line_at(chars: &[char], from: usize, to: usize) -> (line: Line)
    requires
        from <= to <= chars@.len(),
    ensures
        line@ == parse_line(chars@.subrange(from as int, to as int)),
{
    let ghost text = chars@.subrange(from as int, to as int);
    let space = find_space(chars, from, to);
    if space == to {
        return Line::NoDigest;
    }
    let ghost digest_part = text.subrange(0, space - from);
    let ghost tail = text.subrange(space - from + 1, text.len() as int);
    proof {
        assert(digest_part =~= chars@.subrange(from as int, space as int));
        assert(tail =~= chars@.subrange(space + 1, to as int));
    }
    let is_dupe: bool = space == from + 1 && chars[from] == '-';
    assert(is_dupe == (digest_part == seq!['-'])) by {
        if is_dupe {
            assert(digest_part =~= seq!['-']);
        } else if digest_part == seq!['-'] {
            assert(digest_part.len() == 1);
            assert(digest_part[0] == '-');
        }
    }
    if is_dupe {
        return Line::Dupe(string_of(chars, space + 1, to));
    }
    let field = find_space(chars, space + 1, to);
    if field == to {
        return Line::NoSize;
    }
    proof {
        assert(tail.subrange(0, field - space - 1) =~= chars@.subrange(space + 1, field as int));
        assert(tail.subrange(field - space, tail.len() as int) =~= chars@.subrange(
            field + 1,
            to as int,
        ));
    }
    Line::Primary(
        TreeItem {
            digest: string_of(chars, from, space),
            path: string_of(chars, field + 1, to),
            size: parse_size(chars, space + 1, field),
        },
    )
}

/// Takes the line with the given number into `index`. `last` is the digest
/// that a line of a duplicate stands for.
fn take_line(
    index: &mut TreeIndex,
    last: &mut String,
    line: Line,
    number: usize,
    with_dupes: bool,
) -> (r: Result<(), Error>)
    requires
        old(index).wf(),
    ensures
        final(index).wf(),
        match take(
            Ok(ReadView { groups: old(index)@, last: old(last)@ }),
            number as nat,
            line@,
            with_dupes,
        ) {
            Ok(read) => r is Ok && final(index)@ == read.groups && final(last)@ == read.last,
            Err(fault) => r matches Err(Error::InvalidFormat(m)) && m@ == fault_message(fault),
        },
{
    match line {
        Line::NoDigest => Err(fault_error("missing digest on line ", number)),
        Line::NoSize => Err(fault_error("missing size on line ", number)),
        Line::Primary(record) => {
            index.absorb(&record, with_dupes);
            *last = record.digest;
            Ok(())
        },
        Line::Dupe(path) => {
            let record = TreeItem { digest: last.clone(), path, size: 0 };
            index.absorb(&record, with_dupes);
            Ok(())
        },
    }
}

/// Reads the index that `text` writes. The first malformed line ends the
/// reading with an error that names it.
pub fn read_index(text: &str, with_dupes: bool) -> (r: Result<TreeIndex, Error>)
    ensures
        match read_text(text@, with_dupes) {
            Ok(read) => r matches Ok(index) && index.wf() && index@ == read.groups,
            Err(fault) => r matches Err(Error::InvalidFormat(m)) && m@ == fault_message(fault),
        },
{
    let chars = to_chars(text);
    let n: usize = chars.len();
    let mut index = TreeIndex::new();
    let mut last = String::from_str("-");
    let mut pos: usize = 0;
    let mut count: usize = 0;
    let ghost mut done: Seq<Seq<char>> = Seq::empty();
    proof {
        reveal_strlit("-");
        assert(last@ =~= seq!['-']);
        assert(chars@.subrange(0, n as int) =~= chars@);
    }
    while pos < n
        invariant
            chars@ == text@,
            n == chars@.len(),
            pos <= n,
            count <= pos,
            count == done.len(),
            index.wf(),
            lines_of(text@) == done + lines_of(chars@.subrange(pos as int, n as int)),
            read_from(Ok(read_start()), 0, done, with_dupes) == Ok::<ReadView, Fault>(
                ReadView { groups: index@, last: last@ },
            ),
        decreases n - pos,
    {
        let (end, next) = line_bounds(chars.as_slice(), pos);
        let ghost line = chars@.subrange(pos as int, end as int);
        let ghost after = lines_of(chars@.subrange(next as int, n as int));
        proof {
            assert(lines_of(text@) =~= done.push(line) + after);
            assert(done.push(line).drop_last() =~= done);
        }
        count += 1;
        let parsed = read_line_at(chars.as_slice(), pos, end);
        match take_line(&mut index, &mut last, parsed, count, with_dupes) {
            Ok(()) => {},
            Err(error) => {
                proof {
                    let fault = read_from(Ok(read_start()), 0, done.push(line), with_dupes)->Err_0;
                    lemma_fault_stays(fault, done.push(line), after, with_dupes);
                }
                return Err(error);
            },
        }
        proof {
            done = done.push(line);
        }
        pos = next;
    }
    proof {
        assert(chars@.subrange(pos as int, n as int) =~= Seq::<char>::empty());
        assert(lines_of(text@) =~= done);
    }
    Ok(index)
}

/// Once a line is at fault, the lines that follow change nothing.
pub proof fn lemma_fault_stays(
    fault: Fault,
    before: Seq<Seq<char>>,
    after: Seq<Seq<char>>,
    with_dupes: bool,
)
    requires
        read_from(Ok(read_start()), 0, before, with_dupes) == Err::<ReadView, Fault>(fault),
    ensures
        read_from(Ok(read_start()), 0, before + after, with_dupes) == Err::<ReadView, Fault>(fault),
    decreases after.len(),
{
    if after.len() == 0 {
        assert(before + after =~= before);
    } else {
        lemma_fault_stays(fault, before, after.drop_last(), with_dupes);
        assert((before + after).drop_last() =~= before + after.drop_last());
    }
}

} // verus!
