//! Lines of a text held as bytes: how many there are, and which bytes make
//! up the line at a given place.

use vstd::prelude::*;

verus! {

/// The byte that ends a line.
pub const NEWLINE: u8 = 10;

/// The byte between two fields of a line.
pub const SPACE: u8 = 32;

/// How often the byte `b` occurs in `s`.
pub open spec fn count_byte(s: Seq<u8>, b: u8) -> nat
    decreases s.len(),
{
    if s.len() == 0 {
        0
    } else if s.last() == b {
        count_byte(s.drop_last(), b) + 1
    } else {
        count_byte(s.drop_last(), b)
    }
}

/// The number of lines in `s`: one for each line end.
pub open spec fn line_count(s: Seq<u8>) -> nat {
    count_byte(s, NEWLINE)
}

/// Whether no line ends inside `s`.
pub open spec fn is_unbroken(s: Seq<u8>) -> bool {
    forall|i: int| 0 <= i < s.len() ==> s[i] != NEWLINE
}

/// The length of the first line of `s`, its line end not counted: the place
/// of the first line end, or the length of `s` where there is none.
pub open spec fn first_line_len(s: Seq<u8>) -> nat
    decreases s.len(),
{
    if s.len() == 0 || s[0] == NEWLINE {
        0
    } else {
        1 + first_line_len(s.skip(1))
    }
}

/// Line `k` of `s`, counted from zero, without its line end. Past the last
/// line it is empty.
pub open spec fn line_at(s: Seq<u8>, k: nat) -> Seq<u8>
    decreases k,
{
    let n = first_line_len(s) as int;
    if k == 0 {
        s.take(n)
    } else if n < s.len() {
        line_at(s.skip(n + 1), (k - 1) as nat)
    } else {
        Seq::empty()
    }
}

/// What occurs in two texts laid end to end is counted together.
pub proof fn lemma_count_concat(a: Seq<u8>, b: Seq<u8>, byte: u8)
    ensures
        count_byte(a + b, byte) == count_byte(a, byte) + count_byte(b, byte),
    decreases b.len(),
{
    if b.len() > 0 {
        lemma_count_concat(a, b.drop_last(), byte);
        assert((a + b).drop_last() =~= a + b.drop_last());
    }
}

/// In a text of one byte that byte occurs once, and no other.
pub proof fn lemma_count_single(b: u8, byte: u8)
    ensures
        count_byte(seq![b], byte) == if b == byte { 1nat } else { 0nat },
{
    assert(seq![b].drop_last() =~= Seq::<u8>::empty());
    assert(count_byte(Seq::<u8>::empty(), byte) == 0);
}

/// A byte that stands nowhere in a text is counted zero times.
pub proof fn lemma_count_absent(s: Seq<u8>, byte: u8)
    requires
        forall|i: int| 0 <= i < s.len() ==> s[i] != byte,
    ensures
        count_byte(s, byte) == 0,
    decreases s.len(),
{
    if s.len() > 0 {
        lemma_count_absent(s.drop_last(), byte);
    }
}

/// The lines of two texts laid end to end are counted together.
pub proof fn lemma_line_count_concat(a: Seq<u8>, b: Seq<u8>)
    ensures
        line_count(a + b) == line_count(a) + line_count(b),
{
    lemma_count_concat(a, b, NEWLINE);
}

/// A text in which no line ends has no lines.
pub proof fn lemma_unbroken_has_no_lines(s: Seq<u8>)
    requires
        is_unbroken(s),
    ensures
        line_count(s) == 0,
{
    lemma_count_absent(s, NEWLINE);
}

/// A text that starts with an unbroken line and its line end has that line
/// as its first, and the lines of what follows after it.
pub proof fn lemma_line_at_front(line: Seq<u8>, rest: Seq<u8>, k: nat)
    requires
        is_unbroken(line),
    ensures
        first_line_len(line + seq![NEWLINE] + rest) == line.len(),
        line_at(line + seq![NEWLINE] + rest, 0) == line,
        line_at(line + seq![NEWLINE] + rest, k + 1) == line_at(rest, k),
{
    let whole = line + seq![NEWLINE] + rest;
    lemma_first_line_len(line, rest);
    assert(whole.skip(line.len() as int + 1) =~= rest);
}

proof fn lemma_first_line_len(line: Seq<u8>, rest: Seq<u8>)
    requires
        is_unbroken(line),
    ensures
        first_line_len(line + seq![NEWLINE] + rest) == line.len(),
    decreases line.len(),
{
    let whole = line + seq![NEWLINE] + rest;
    if line.len() > 0 {
        lemma_first_line_len(line.skip(1), rest);
        assert(whole.skip(1) =~= line.skip(1) + seq![NEWLINE] + rest);
    }
}

} // verus!
