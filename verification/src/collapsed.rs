//! The collapsed-stack line: the labels of a chain, outermost first, joined
//! by `;`, then a space and the chain's weight in decimal digits.

use vstd::prelude::*;

verus! {

/// The byte between two labels, `;`.
pub const FRAME_SEPARATOR: u8 = 59;

/// The byte before the weight, a space.
pub const WEIGHT_SEPARATOR: u8 = 32;

/// Why a line is not a collapsed stack.
#[derive(Clone, Copy, Debug, PartialEq, Eq, Structural)]
pub enum LineError {
    /// The line has no space, so no weight behind one.
    MissingWeight,
    /// What stands behind the last space is not a decimal number of 64 bits.
    InvalidWeight,
}

/// The place of the first `b` in `s`.
pub open spec fn first_index_of(s: Seq<u8>, b: u8) -> Option<int>
    decreases s.len(),
{
    if s.len() == 0 {
        None
    } else if s[0] == b {
        Some(0)
    } else {
        match first_index_of(s.drop_first(), b) {
            Some(i) => Some(i + 1),
            None => None,
        }
    }
}

/// The place of the last `b` in `s`.
pub open spec fn last_index_of(s: Seq<u8>, b: u8) -> Option<int>
    decreases s.len(),
{
    if s.len() == 0 {
        None
    } else if s.last() == b {
        Some(s.len() - 1)
    } else {
        last_index_of(s.drop_last(), b)
    }
}

/// `first_index_of` finds a `b` that has none before it, or says that there is none.
pub proof fn lemma_first_index_of(s: Seq<u8>, b: u8)
    ensures
        match first_index_of(s, b) {
            Some(i) => 0 <= i < s.len() && s[i] == b && forall|j: int| 0 <= j < i ==> s[j] != b,
            None => forall|j: int| 0 <= j < s.len() ==> s[j] != b,
        },
    decreases s.len(),
{
    if s.len() > 0 && s[0] != b {
        let rest = s.drop_first();
        lemma_first_index_of(rest, b);
        match first_index_of(rest, b) {
            Some(i) => {
                assert forall|j: int| 0 <= j < i + 1 implies s[j] != b by {
                    if j > 0 {
                        assert(rest[j - 1] == s[j]);
                    }
                }
            },
            None => {
                assert forall|j: int| 0 <= j < s.len() implies s[j] != b by {
                    if j > 0 {
                        assert(rest[j - 1] == s[j]);
                    }
                }
            },
        }
    }
}

/// `last_index_of` finds a `b` that has none behind it, or says that there is none.
pub proof fn lemma_last_index_of(s: Seq<u8>, b: u8)
    ensures
        match last_index_of(s, b) {
            Some(i) => 0 <= i < s.len() && s[i] == b && forall|j: int|
                i < j < s.len() ==> s[j] != b,
            None => forall|j: int| 0 <= j < s.len() ==> s[j] != b,
        },
    decreases s.len(),
{
    if s.len() > 0 && s.last() != b {
        let rest = s.drop_last();
        lemma_last_index_of(rest, b);
        match last_index_of(rest, b) {
            Some(i) => {
                assert forall|j: int| i < j < s.len() implies s[j] != b by {
                    if j < s.len() - 1 {
                        assert(rest[j] == s[j]);
                    }
                }
            },
            None => {
                assert forall|j: int| 0 <= j < s.len() implies s[j] != b by {
                    if j < s.len() - 1 {
                        assert(rest[j] == s[j]);
                    }
                }
            },
        }
    }
}

/// Whether `b` is a decimal digit.
pub open spec fn is_digit(b: u8) -> bool {
    48 <= b <= 57
}

/// Whether `s` is a decimal number: one digit or more, and nothing else.
pub open spec fn all_digits(s: Seq<u8>) -> bool {
    s.len() > 0 && forall|i: int| 0 <= i < s.len() ==> is_digit(#[trigger] s[i])
}

/// The number that the digits `s` write.
pub open spec fn digits_value(s: Seq<u8>) -> int
    decreases s.len(),
{
    if s.len() == 0 {
        0
    } else {
        10 * digits_value(s.drop_last()) + (s.last() - 48)
    }
}

/// The weight that `s` writes, if it writes one that fits in 64 bits.
pub open spec fn parse_weight(s: Seq<u8>) -> Option<u64> {
    if all_digits(s) && digits_value(s) <= u64::MAX {
        Some(digits_value(s) as u64)
    } else {
        None
    }
}

/// The decimal digits of `n`, without leading zeros.
pub open spec fn decimal(n: nat) -> Seq<u8>
    decreases n,
{
    if n < 10 {
        seq![(48 + n) as u8]
    } else {
        decimal(n / 10).push((48 + n % 10) as u8)
    }
}

/// The pieces of `s` between its separators; a piece may be empty.
pub open spec fn split_pieces(s: Seq<u8>) -> Seq<Seq<u8>>
    decreases s.len(),
{
    match first_index_of(s, FRAME_SEPARATOR) {
        Some(i) => if 0 <= i < s.len() {
            seq![s.take(i)] + split_pieces(s.skip(i + 1))
        } else {
            seq![s]
        },
        None => seq![s],
    }
}

/// The labels that `s` holds: none where `s` is empty, else its pieces.
pub open spec fn split_labels(s: Seq<u8>) -> Seq<Seq<u8>> {
    if s.len() == 0 {
        Seq::empty()
    } else {
        split_pieces(s)
    }
}

/// The labels with a separator between each two.
pub open spec fn join(labels: Seq<Seq<u8>>) -> Seq<u8>
    decreases labels.len(),
{
    if labels.len() == 0 {
        Seq::empty()
    } else if labels.len() == 1 {
        labels[0]
    } else {
        labels[0] + seq![FRAME_SEPARATOR] + join(labels.drop_first())
    }
}

/// The line of a chain with these labels and this weight.
pub open spec fn format_line(labels: Seq<Seq<u8>>, weight: u64) -> Seq<u8> {
    join(labels) + seq![WEIGHT_SEPARATOR] + decimal(weight as nat)
}

/// What a line says: the labels before its last space and the weight behind it.
pub open spec fn parse_line(line: Seq<u8>) -> Result<(Seq<Seq<u8>>, u64), LineError> {
    match last_index_of(line, WEIGHT_SEPARATOR) {
        None => Err(LineError::MissingWeight),
        Some(i) => match parse_weight(line.skip(i + 1)) {
            None => Err(LineError::InvalidWeight),
            Some(weight) => Ok((split_labels(line.take(i)), weight)),
        },
    }
}

/// The byte sequences that a list of byte vectors holds.
pub open spec fn labels_view(labels: Seq<Vec<u8>>) -> Seq<Seq<u8>> {
    Seq::new(labels.len(), |i: int| labels[i]@)
}

/// The digits of the beginning of a number write no more than all its digits.
proof fn lemma_digits_value_grows(s: Seq<u8>, k: int)
    requires
        all_digits(s),
        0 <= k <= s.len(),
    ensures
        0 <= digits_value(s.take(k)) <= digits_value(s),
    decreases s.len() - k,
{
    if k == s.len() {
        assert(s.take(k) =~= s);
        lemma_digits_value_nonnegative(s);
    } else {
        assert(s.take(k + 1).drop_last() =~= s.take(k));
        lemma_digits_value_grows(s, k + 1);
        lemma_digits_value_nonnegative(s.take(k));
    }
}

/// Digits write no negative number.
proof fn lemma_digits_value_nonnegative(s: Seq<u8>)
    requires
        forall|i: int| 0 <= i < s.len() ==> is_digit(#[trigger] s[i]),
    ensures
        0 <= digits_value(s),
    decreases s.len(),
{
    if s.len() > 0 {
        assert(forall|i: int| 0 <= i < s.len() - 1 ==> s.drop_last()[i] == s[i]);
        lemma_digits_value_nonnegative(s.drop_last());
        assert(is_digit(s[s.len() - 1]));
    }
}

/// The digits of a number write that number.
pub proof fn lemma_decimal_value(n: nat)
    ensures
        all_digits(decimal(n)),
        digits_value(decimal(n)) == n,
    decreases n,
{
    if n < 10 {
        let s = decimal(n);
        assert(s.drop_last() =~= Seq::<u8>::empty());
        assert(digits_value(s.drop_last()) == 0);
    } else {
        lemma_decimal_value(n / 10);
        let s = decimal(n);
        assert(s.drop_last() =~= decimal(n / 10));
        assert forall|i: int| 0 <= i < s.len() implies is_digit(#[trigger] s[i]) by {
            if i < s.len() - 1 {
                assert(s[i] == decimal(n / 10)[i]);
            }
        }
    }
}

/// Joining one more label behind at least one puts a separator and the label behind the rest.
proof fn lemma_join_push(labels: Seq<Seq<u8>>, x: Seq<u8>)
    requires
        labels.len() >= 1,
    ensures
        join(labels.push(x)) == join(labels) + seq![FRAME_SEPARATOR] + x,
    decreases labels.len(),
{
    let all = labels.push(x);
    assert(all.drop_first() =~= labels.drop_first().push(x));
    if labels.len() == 1 {
        assert(labels.drop_first().push(x) =~= seq![x]);
        assert(join(seq![x]) == x);
        assert(join(all) =~= labels[0] + seq![FRAME_SEPARATOR] + x);
    } else {
        lemma_join_push(labels.drop_first(), x);
        assert(join(all) =~= join(labels) + seq![FRAME_SEPARATOR] + x);
    }
}

/// Labels that hold no separator come back from their joined form.
proof fn lemma_split_pieces_join(labels: Seq<Seq<u8>>)
    requires
        labels.len() >= 1,
        forall|i: int| 0 <= i < labels.len() ==> !(#[trigger] labels[i]).contains(FRAME_SEPARATOR),
    ensures
        split_pieces(join(labels)) == labels,
    decreases labels.len(),
{
    let joined = join(labels);
    lemma_first_index_of(joined, FRAME_SEPARATOR);
    if labels.len() == 1 {
        assert(!labels[0].contains(FRAME_SEPARATOR));
        if let Some(i) = first_index_of(joined, FRAME_SEPARATOR) {
            assert(labels[0].contains(joined[i]));
        }
        assert(seq![joined] =~= labels);
    } else {
        let head = labels[0];
        let rest = labels.drop_first();
        let n = head.len() as int;
        assert(!head.contains(FRAME_SEPARATOR));
        assert(joined[n] == FRAME_SEPARATOR);
        assert forall|j: int| 0 <= j < n implies joined[j] != FRAME_SEPARATOR by {
            assert(joined[j] == head[j]);
            assert(head.contains(head[j]));
        }
        assert(first_index_of(joined, FRAME_SEPARATOR) == Some(n));
        assert(joined.take(n) =~= head);
        assert(joined.skip(n + 1) =~= join(rest));
        assert forall|i: int| 0 <= i < rest.len() implies !(#[trigger] rest[i]).contains(
            FRAME_SEPARATOR,
        ) by {
            assert(rest[i] == labels[i + 1]);
        }
        lemma_split_pieces_join(rest);
        assert(seq![head] + rest =~= labels);
    }
}

/// A line that was written from labels and a weight is read back as they
/// were. The weight always comes back. The labels come back where none of
/// them holds a separator and they are not a single empty label, which reads
/// as no label.
pub proof fn lemma_parse_format(labels: Seq<Seq<u8>>, weight: u64)
    ensures
        parse_line(format_line(labels, weight)) matches Ok(read) && read.1 == weight && read.0
            == split_labels(join(labels)),
        (forall|i: int| 0 <= i < labels.len() ==> !(#[trigger] labels[i]).contains(FRAME_SEPARATOR))
            && !(labels.len() == 1 && labels[0].len() == 0) ==> parse_line(
            format_line(labels, weight),
        ) == Ok::<(Seq<Seq<u8>>, u64), LineError>((labels, weight)),
{
    let joined = join(labels);
    let digits = decimal(weight as nat);
    let line = format_line(labels, weight);
    let n = joined.len() as int;
    lemma_decimal_value(weight as nat);
    lemma_last_index_of(line, WEIGHT_SEPARATOR);
    assert(line[n] == WEIGHT_SEPARATOR);
    assert forall|j: int| n < j < line.len() implies line[j] != WEIGHT_SEPARATOR by {
        assert(line[j] == digits[j - n - 1]);
        assert(is_digit(digits[j - n - 1]));
    }
    assert(last_index_of(line, WEIGHT_SEPARATOR) == Some(n));
    assert(line.skip(n + 1) =~= digits);
    assert(line.take(n) =~= joined);
    if (forall|i: int| 0 <= i < labels.len() ==> !(#[trigger] labels[i]).contains(FRAME_SEPARATOR))
        && !(labels.len() == 1 && labels[0].len() == 0) {
        if labels.len() == 0 {
            assert(split_labels(joined) =~= labels);
        } else {
            lemma_split_pieces_join(labels);
            if labels.len() > 1 {
                assert(joined.len() > 0);
            }
        }
    }
}

/// The place of the last `b` in `bytes`.
pub fn find_last(bytes: &[u8], b: u8) -> (r: Option<usize>)
    ensures
        match r {
            Some(i) => last_index_of(bytes@, b) == Some(i as int),
            None => last_index_of(bytes@, b) is None,
        },
{
    proof {
        lemma_last_index_of(bytes@, b);
    }
    let mut i: usize = bytes.len();
    while i > 0
        invariant
            i <= bytes.len(),
            forall|j: int| i <= j < bytes.len() ==> bytes[j] != b,
        decreases i,
    {
        if bytes[i - 1] == b {
            proof {
                lemma_last_index_of(bytes@, b);
            }
            return Some(i - 1);
        }
        i = i - 1;
    }
    None
}

/// Reads a decimal number of 64 bits: digits only, at least one.
pub fn parse_decimal(bytes: &[u8]) -> (r: Option<u64>)
    ensures
        r == parse_weight(bytes@),
{
    if bytes.len() == 0 {
        return None;
    }
    let mut value: u64 = 0;
    let mut i: usize = 0;
    assert(bytes@.take(0) =~= Seq::<u8>::empty());
    while i < bytes.len()
        invariant
            i <= bytes.len(),
            bytes.len() > 0,
            forall|j: int| 0 <= j < i ==> is_digit(#[trigger] bytes[j]),
            value == digits_value(bytes@.take(i as int)),
        decreases bytes.len() - i,
    {
        let b = bytes[i];
        if b < 48 || b > 57 {
            return None;
        }
        proof {
            assert(bytes@.take(i + 1).drop_last() =~= bytes@.take(i as int));
            if all_digits(bytes@) {
                lemma_digits_value_grows(bytes@, i + 1);
            }
        }
        let tens = match value.checked_mul(10) {
            Some(t) => t,
            None => {
                return None;
            },
        };
        value = match tens.checked_add((b - 48) as u64) {
            Some(v) => v,
            None => {
                return None;
            },
        };
        i = i + 1;
    }
    assert(bytes@.take(i as int) =~= bytes@);
    Some(value)
}

/// Writes the decimal digits of `n` behind `out`.
pub fn push_decimal(out: &mut Vec<u8>, n: u64)
    ensures
        final(out)@ == old(out)@ + decimal(n as nat),
    decreases n,
{
    if n >= 10 {
        push_decimal(out, n / 10);
    }
    out.push(48 + (n % 10) as u8);
    proof {
        if n < 10 {
            assert(old(out)@.push((48 + n) as u8) =~= old(out)@ + decimal(n as nat));
        } else {
            assert((old(out)@ + decimal((n / 10) as nat)).push((48 + n % 10) as u8) =~= old(out)@
                + decimal(n as nat));
        }
    }
}

/// The labels of the frames part of a line.
pub fn split_frames(bytes: &[u8]) -> (labels: Vec<Vec<u8>>)
    ensures
        labels_view(labels@) == split_labels(bytes@),
{
    let mut out: Vec<Vec<u8>> = Vec::new();
    if bytes.len() == 0 {
        assert(labels_view(out@) =~= Seq::<Seq<u8>>::empty());
        return out;
    }
    let mut piece: Vec<u8> = Vec::new();
    let ghost mut start: int = 0;
    let mut i: usize = 0;
    assert(bytes@.skip(0) =~= bytes@);
    assert(labels_view(out@) + split_pieces(bytes@) =~= split_pieces(bytes@));
    while i < bytes.len()
        invariant
            0 <= start <= i <= bytes.len(),
            split_pieces(bytes@) == labels_view(out@) + split_pieces(bytes@.skip(start)),
            piece@ == bytes@.subrange(start, i as int),
            forall|j: int| start <= j < i ==> bytes[j] != FRAME_SEPARATOR,
        decreases bytes.len() - i,
    {
        let b = bytes[i];
        if b == FRAME_SEPARATOR {
            proof {
                let tail = bytes@.skip(start);
                lemma_first_index_of(tail, FRAME_SEPARATOR);
                assert(tail[i - start] == FRAME_SEPARATOR);
                assert(forall|j: int| 0 <= j < i - start ==> tail[j] == bytes[start + j]);
                assert(first_index_of(tail, FRAME_SEPARATOR) == Some(i - start));
                assert(tail.take(i - start) =~= piece@);
                assert(tail.skip(i - start + 1) =~= bytes@.skip(i + 1));
                assert(labels_view(out@.push(piece)) =~= labels_view(out@) + seq![piece@]);
            }
            out.push(piece);
            piece = Vec::new();
            proof {
                start = i + 1;
            }
        } else {
            piece.push(b);
        }
        i = i + 1;
        assert(piece@ =~= bytes@.subrange(start, i as int));
    }
    proof {
        let tail = bytes@.skip(start);
        lemma_first_index_of(tail, FRAME_SEPARATOR);
        assert(forall|j: int| 0 <= j < tail.len() ==> tail[j] == bytes[start + j]);
        assert(first_index_of(tail, FRAME_SEPARATOR) is None);
        assert(tail =~= piece@);
        assert(labels_view(out@.push(piece)) =~= labels_view(out@) + seq![piece@]);
    }
    out.push(piece);
    out
}

/// Reads one line: the labels before its last space, the weight behind it.
pub fn read_line(line: &[u8]) -> (r: Result<(Vec<Vec<u8>>, u64), LineError>)
    ensures
        match parse_line(line@) {
            Ok(read) => r matches Ok(got) && labels_view(got.0@) == read.0 && got.1 == read.1,
            Err(e) => r matches Err(f) && f == e,
        },
{
    proof {
        lemma_last_index_of(line@, WEIGHT_SEPARATOR);
    }
    let at = match find_last(line, WEIGHT_SEPARATOR) {
        Some(at) => at,
        None => {
            return Err(LineError::MissingWeight);
        },
    };
    let n: usize = line.len();
    assert(at < n);
    let digits = vstd::slice::slice_subrange(line, at + 1, n);
    assert(digits@ =~= line@.skip(at + 1));
    let weight = match parse_decimal(digits) {
        Some(weight) => weight,
        None => {
            return Err(LineError::InvalidWeight);
        },
    };
    let frames = vstd::slice::slice_subrange(line, 0, at);
    assert(frames@ =~= line@.take(at as int));
    Ok((split_frames(frames), weight))
}

/// One chain on its way to a line: its labels as they are gathered on the
/// way up, innermost first, and its weight.
#[derive(Debug)]
pub struct Line {
    pub frames: Vec<Vec<u8>>,
    pub value: u64,
}

impl Line {
    /// A chain without labels that weighs `value`.
    pub fn new(value: u64) -> (line: Self)
        ensures
            line.frames@.len() == 0,
            line.value == value,
    {
        Line { frames: Vec::new(), value }
    }

    /// The line of the chain: its labels turned round, so that the outermost
    /// comes first, then the weight.
    pub fn into_bytes(self) -> (out: Vec<u8>)
        ensures
            out@ == format_line(labels_view(self.frames@).reverse(), self.value),
    {
        let ghost labels = labels_view(self.frames@).reverse();
        let n: usize = self.frames.len();
        let mut out: Vec<u8> = Vec::new();
        let mut k: usize = 0;
        assert(labels.take(0) =~= Seq::<Seq<u8>>::empty());
        while k < n
            invariant
                n == self.frames.len(),
                k <= n,
                labels == labels_view(self.frames@).reverse(),
                out@ == join(labels.take(k as int)),
            decreases n - k,
        {
            let frame = &self.frames[n - 1 - k];
            proof {
                assert(labels[k as int] == frame@);
                assert(labels.take(k + 1) =~= labels.take(k as int).push(labels[k as int]));
                if k > 0 {
                    lemma_join_push(labels.take(k as int), labels[k as int]);
                } else {
                    assert(labels.take(1)[0] == labels[0]);
                }
            }
            if k > 0 {
                out.push(FRAME_SEPARATOR);
            }
            out.extend_from_slice(frame.as_slice());
            proof {
                if k > 0 {
                    assert(out@ =~= join(labels.take(k as int)) + seq![FRAME_SEPARATOR]
                        + labels[k as int]);
                } else {
                    assert(out@ =~= labels[0]);
                }
            }
            k = k + 1;
        }
        assert(labels.take(k as int) =~= labels);
        out.push(WEIGHT_SEPARATOR);
        push_decimal(&mut out, self.value);
        assert(out@ =~= format_line(labels, self.value));
        out
    }
}

} // verus!
