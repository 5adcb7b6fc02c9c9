//! The code viewer: the source files that were loaded, and the lines of a
//! file that are shown around the line of a node.

use vstd::prelude::*;
use crate::collapsed::{first_index_of, lemma_first_index_of};
use crate::topdown::StackInfo;

verus! {

/// The byte that ends a line.
pub const LINE_FEED: u8 = 10;

/// The byte that may stand before the end of a line and is not shown.
pub const CARRIAGE_RETURN: u8 = 13;

/// One line of a text: the bytes from `start` up to `end`, its ending left out.
#[derive(Clone, Copy, Debug, PartialEq, Eq, Structural)]
pub struct LineSpan {
    pub start: usize,
    pub end: usize,
}

/// One line as the viewer shows it.
#[derive(Clone, Copy, Debug, PartialEq, Eq, Structural)]
pub struct CodeRow {
    /// The number of the line, counted from 1.
    pub number: usize,
    /// Where the line lies in the text.
    pub span: LineSpan,
    /// The peak of the node, at the line of the node.
    pub peaked: Option<u64>,
}

/// Where a line that reaches from `start` to the line feed at `end` ends
/// when a carriage return before the line feed is left out.
pub open spec fn without_return(code: Seq<u8>, start: int, end: int) -> int {
    if start < end && code[end - 1] == CARRIAGE_RETURN {
        end - 1
    } else {
        end
    }
}

/// The lines of the text from `start` on. A line ends with a line feed, or
/// with a carriage return and a line feed, or with the text.
pub open spec fn lines_from(code: Seq<u8>, start: int) -> Seq<LineSpan>
    decreases code.len() - start,
{
    if start < 0 || start >= code.len() {
        Seq::empty()
    } else {
        match first_index_of(code.skip(start), LINE_FEED) {
            Some(i) => if 0 <= i < code.len() - start {
                seq![
                    LineSpan {
                        start: start as usize,
                        end: without_return(code, start, start + i) as usize,
                    },
                ] + lines_from(code, start + i + 1)
            } else {
                Seq::empty()
            },
            None => seq![LineSpan { start: start as usize, end: code.len() as usize }],
        }
    }
}

/// The lines of a text.
pub open spec fn text_lines(code: Seq<u8>) -> Seq<LineSpan> {
    lines_from(code, 0)
}

/// The first line that is shown around `line_number` when `offset` lines fit.
pub open spec fn first_shown(line_number: u32, offset: u32) -> int {
    if line_number >= offset / 2 {
        line_number - offset / 2
    } else {
        0
    }
}

/// The last line that is shown around `line_number` when `offset` lines fit.
pub open spec fn last_shown(line_number: u32, offset: u32) -> int {
    line_number + offset / 2
}

/// The rows for the first `n` lines: those whose numbers lie in the window,
/// the line of the node with its peak.
pub open spec fn rows_of(spans: Seq<LineSpan>, line_number: u32, offset: u32, peaked: u64, n: nat) -> Seq<
    CodeRow,
>
    decreases n,
{
    if n == 0 {
        Seq::empty()
    } else {
        let before = rows_of(spans, line_number, offset, peaked, (n - 1) as nat);
        if first_shown(line_number, offset) <= n <= last_shown(line_number, offset) {
            before.push(
                CodeRow {
                    number: n as usize,
                    span: spans[n - 1],
                    peaked: if n == line_number {
                        Some(peaked)
                    } else {
                        None
                    },
                },
            )
        } else {
            before
        }
    }
}

/// The lines of a text.
pub fn split_lines(code: &[u8]) -> (spans: Vec<LineSpan>)
    ensures
        spans@ == text_lines(code@),
        forall|i: int|
            0 <= i < spans.len() ==> (#[trigger] spans[i]).start <= spans[i].end <= code.len(),
{
    let mut spans: Vec<LineSpan> = Vec::new();
    let n: usize = code.len();
    let mut start: usize = 0;
    let mut i: usize = 0;
    assert(spans@ + lines_from(code@, 0) =~= text_lines(code@));
    while i < n
        invariant
            n == code.len(),
            start <= i <= n,
            text_lines(code@) == spans@ + lines_from(code@, start as int),
            forall|j: int| start <= j < i ==> code[j] != LINE_FEED,
            forall|m: int|
                0 <= m < spans.len() ==> (#[trigger] spans[m]).start <= spans[m].end <= code.len(),
        decreases n - i,
    {
        if code[i] == LINE_FEED {
            let end: usize = if start < i && code[i - 1] == CARRIAGE_RETURN {
                i - 1
            } else {
                i
            };
            proof {
                let tail = code@.skip(start as int);
                lemma_first_index_of(tail, LINE_FEED);
                assert(tail[i - start] == LINE_FEED);
                assert(forall|j: int| 0 <= j < i - start ==> tail[j] == code[start + j]);
                assert(first_index_of(tail, LINE_FEED) == Some(i - start));
                assert(spans@ + (seq![LineSpan { start, end }] + lines_from(code@, i + 1))
                    =~= spans@.push(LineSpan { start, end }) + lines_from(code@, i + 1));
            }
            spans.push(LineSpan { start, end });
            start = i + 1;
        }
        i = i + 1;
    }
    if start < n {
        proof {
            let tail = code@.skip(start as int);
            lemma_first_index_of(tail, LINE_FEED);
            assert(forall|j: int| 0 <= j < tail.len() ==> tail[j] == code[start + j]);
            assert(first_index_of(tail, LINE_FEED) is None);
        }
        spans.push(LineSpan { start, end: n });
    }
    assert(spans@ =~= text_lines(code@));
    spans
}

/// The rows that the viewer shows of a text with these lines, around the
/// line `line_number`, when `offset` lines fit in the view.
pub fn window_rows(spans: &Vec<LineSpan>, line_number: u32, offset: u32, peaked: u64) -> (rows: Vec<
    CodeRow,
>)
    ensures
        rows@ == rows_of(spans@, line_number, offset, peaked, spans.len() as nat),
{
    let first: u64 = if line_number >= offset / 2 {
        (line_number - offset / 2) as u64
    } else {
        0
    };
    let last: u64 = line_number as u64 + (offset / 2) as u64;
    let mut rows: Vec<CodeRow> = Vec::new();
    let mut i: usize = 0;
    while i < spans.len()
        invariant
            i <= spans.len(),
            first == first_shown(line_number, offset),
            last == last_shown(line_number, offset),
            rows@ == rows_of(spans@, line_number, offset, peaked, i as nat),
        decreases spans.len() - i,
    {
        let number: usize = i + 1;
        if first <= number as u64 && number as u64 <= last {
            rows.push(
                CodeRow {
                    number,
                    span: spans[i],
                    peaked: if number as u64 == line_number as u64 {
                        Some(peaked)
                    } else {
                        None
                    },
                },
            );
        }
        i = i + 1;
    }
    rows
}

/// The place of the first file named `name` among the loaded ones.
pub open spec fn position(entries: Seq<(String, String)>, name: Seq<char>) -> Option<int>
    decreases entries.len(),
{
    if entries.len() == 0 {
        None
    } else {
        match position(entries.drop_last(), name) {
            Some(i) => Some(i),
            None => if entries.last().0@ == name {
                Some(entries.len() - 1)
            } else {
                None
            },
        }
    }
}

/// The first place is a place of a file with that name, and none before it
/// has the name.
pub proof fn lemma_position(entries: Seq<(String, String)>, name: Seq<char>)
    ensures
        match position(entries, name) {
            Some(i) => 0 <= i < entries.len() && entries[i].0@ == name && forall|j: int|
                0 <= j < i ==> (#[trigger] entries[j]).0@ != name,
            None => forall|j: int| 0 <= j < entries.len() ==> (#[trigger] entries[j]).0@ != name,
        },
    decreases entries.len(),
{
    if entries.len() > 0 {
        let rest = entries.drop_last();
        lemma_position(rest, name);
        assert(forall|j: int| 0 <= j < rest.len() ==> rest[j] == entries[j]);
    }
}

/// The source files that were read, each under its name.
#[derive(Debug)]
pub struct CodeLoader {
    pub mapped: Vec<(String, String)>,
}

impl CodeLoader {
    /// The text that is kept under `name`.
    pub open spec fn text_of(&self, name: Seq<char>) -> Option<Seq<char>> {
        match position(self.mapped@, name) {
            Some(i) => Some(self.mapped[i].1@),
            None => None,
        }
    }

    /// A loader that has read no file.
    pub fn new() -> (loader: Self)
        ensures
            forall|name: Seq<char>| loader.text_of(name) is None,
    {
        CodeLoader { mapped: Vec::new() }
    }

    /// The place of the file named `name`.
    fn find(&self, name: &String) -> (r: Option<usize>)
        ensures
            match r {
                Some(i) => position(self.mapped@, name@) == Some(i as int) && i < self.mapped.len(),
                None => position(self.mapped@, name@) is None,
            },
    {
        proof {
            lemma_position(self.mapped@, name@);
        }
        let mut i: usize = 0;
        while i < self.mapped.len()
            invariant
                i <= self.mapped.len(),
                forall|j: int| 0 <= j < i ==> (#[trigger] self.mapped[j]).0@ != name@,
            decreases self.mapped.len() - i,
        {
            if self.mapped[i].0 == *name {
                proof {
                    lemma_position(self.mapped@, name@);
                }
                return Some(i);
            }
            i = i + 1;
        }
        None
    }

    /// Whether a file named `name` was read.
    pub fn contains_key(&self, name: &String) -> (r: bool)
        ensures
            r == self.text_of(name@) is Some,
    {
        self.find(name).is_some()
    }

    /// The text of the file named `name`.
    pub fn get(&self, name: &String) -> (r: Option<&String>)
        ensures
            match r {
                Some(code) => self.text_of(name@) == Some(code@),
                None => self.text_of(name@) is None,
            },
    {
        match self.find(name) {
            Some(i) => Some(&self.mapped[i].1),
            None => None,
        }
    }

    /// Keeps `code` as the text of the file named `name`, in place of what
    /// was kept under that name.
    pub fn insert(&mut self, name: String, code: String)
        ensures
            final(self).text_of(name@) == Some(code@),
            forall|other: Seq<char>|
                other != name@ ==> final(self).text_of(other) == old(self).text_of(other),
    {
        let ghost before = self.mapped@;
        match self.find(&name) {
            Some(i) => {
                self.mapped[i] = (name, code);
                proof {
                    let after = self.mapped@;
                    lemma_position(before, name@);
                    assert forall|j: int| 0 <= j < before.len() implies (#[trigger] before[j]).0@
                        == after[j].0@ by {}
                    assert forall|other: Seq<char>|
                        position(after, other) == position(before, other) && (other != name@
                            ==> self.text_of(other) == old(self).text_of(other)) by {
                        lemma_same_names(before, after, other);
                        lemma_position(before, other);
                    }
                }
            },
            None => {
                self.mapped.push((name, code));
                proof {
                    let after = self.mapped@;
                    assert(after.drop_last() =~= before);
                    assert forall|other: Seq<char>| other != name@ implies self.text_of(other)
                        == old(self).text_of(other) by {
                        lemma_position(before, other);
                    }
                }
            },
        }
    }

    /// The rows of the file of `stack_info` around its line, when `offset`
    /// lines fit in the view; nothing where the file was not read.
    pub fn show(&self, stack_info: &StackInfo, offset: u32) -> (rows: Option<Vec<CodeRow>>)
        ensures
            match self.text_of(stack_info.file_name@) {
                Some(code) => rows matches Some(v) && v@ == rows_of(
                    text_lines(vstd::utf8::encode_utf8(code)),
                    stack_info.line_number,
                    offset,
                    stack_info.peaked,
                    text_lines(vstd::utf8::encode_utf8(code)).len(),
                ),
                None => rows is None,
            },
    {
        let code = match self.get(&stack_info.file_name) {
            Some(code) => code,
            None => {
                return None;
            },
        };
        let spans = split_lines(code.as_str().as_bytes());
        Some(window_rows(&spans, stack_info.line_number, offset, stack_info.peaked))
    }
}

/// Two lists with the same names at the same places find a name at the same place.
proof fn lemma_same_names(a: Seq<(String, String)>, b: Seq<(String, String)>, name: Seq<char>)
    requires
        a.len() == b.len(),
        forall|i: int| 0 <= i < a.len() ==> (#[trigger] a[i]).0@ == b[i].0@,
    ensures
        position(a, name) == position(b, name),
    decreases a.len(),
{
    if a.len() > 0 {
        assert(forall|i: int| 0 <= i < a.len() - 1 ==> a.drop_last()[i] == a[i]);
        assert(forall|i: int| 0 <= i < b.len() - 1 ==> b.drop_last()[i] == b[i]);
        lemma_same_names(a.drop_last(), b.drop_last(), name);
        assert(a.last() == a[a.len() - 1]);
    }
}

} // verus!
