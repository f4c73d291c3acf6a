//! The lines of a dataset file: which of them hold a record, and how a
//! record falls into fields.

use vstd::prelude::*;

verus! {

/// The byte that separates the fields of a record.
pub const SEPARATOR: u8 = 44;

/// The token that stands for the class of a point without a class, `noise`.
pub open spec fn noise_token() -> Seq<u8> {
    seq![110u8, 111u8, 105u8, 115u8, 101u8]
}

/// A line holds a record unless it is empty or begins with `@` or `%`.
pub open spec fn holds_record(line: Seq<u8>) -> bool {
    line.len() > 0 && line[0] != 64 && line[0] != 37
}

/// `fields` are the fields of `line`, as half-open ranges of positions: the
/// first begins at the start of the line and the last ends at its end, a
/// separator stands between each two that follow one another, and no field
/// holds a separator.
pub open spec fn is_split(line: Seq<u8>, fields: Seq<(usize, usize)>) -> bool {
    &&& fields.len() > 0
    &&& fields[0].0 == 0
    &&& fields.last().1 == line.len()
    &&& forall|t: int|
        0 <= t < fields.len() ==> (#[trigger] fields[t]).0 <= fields[t].1 <= line.len()
    &&& forall|t: int|
        0 <= t < fields.len() - 1 ==> line[(#[trigger] fields[t]).1 as int] == SEPARATOR
            && fields[t + 1].0 == fields[t].1 + 1
    &&& forall|t: int, at: int|
        0 <= t < fields.len() && (#[trigger] fields[t]).0 <= at < fields[t].1
            ==> #[trigger] line[at] != SEPARATOR
}

/// Two splits of a line agree on their first `upto` fields, and neither ends
/// before the other within them.
proof fn lemma_split_agrees(
    line: Seq<u8>,
    a: Seq<(usize, usize)>,
    b: Seq<(usize, usize)>,
    upto: int,
)
    requires
        is_split(line, a),
        is_split(line, b),
        0 <= upto,
    ensures
        upto <= a.len() <==> upto <= b.len(),
        forall|t: int| 0 <= t < upto && t < a.len() ==> a[t] == b[t],
    decreases upto,
{
    if upto > 1 {
        lemma_split_agrees(line, a, b, upto - 1);
        let t = upto - 1;
        if t <= a.len() {
            // The field before `t` is the same in both, so both go on or both end.
            assert(a[t - 1] == b[t - 1]);
            if t < a.len() && t >= b.len() {
                assert(line[a[t - 1].1 as int] == SEPARATOR);
                assert(a[t].0 <= a[t].1);
            }
            if t < b.len() && t >= a.len() {
                assert(line[b[t - 1].1 as int] == SEPARATOR);
                assert(b[t].0 <= b[t].1);
            }
        }
    }
    if upto >= 1 && upto <= a.len() && upto <= b.len() {
        let t = upto - 1;
        if t > 0 {
            assert(a[t - 1] == b[t - 1]);
        }
        assert(a[t].0 == b[t].0);
        if a[t].1 < b[t].1 {
            assert(line[a[t].1 as int] != SEPARATOR);
            assert(t < a.len() - 1);
        }
        if b[t].1 < a[t].1 {
            assert(line[b[t].1 as int] != SEPARATOR);
            assert(t < b.len() - 1);
        }
    }
}

/// A line has one split only.
pub proof fn lemma_split_unique(line: Seq<u8>, a: Seq<(usize, usize)>, b: Seq<(usize, usize)>)
    requires
        is_split(line, a),
        is_split(line, b),
    ensures
        a == b,
{
    lemma_split_agrees(line, a, b, a.len() as int);
    lemma_split_agrees(line, a, b, b.len() as int);
    assert(a =~= b);
}

/// Whether a line of a dataset file holds a record. Empty lines are passed
/// over, and so are lines that begin with `@` or `%`, which hold remarks.
pub fn is_record_line(line: &[u8]) -> (record: bool)
    ensures
        record == holds_record(line@),
{
    line.len() > 0 && line[0] != 64 && line[0] != 37
}

/// Splits a record at its separators.
pub fn split_fields(line: &[u8]) -> (fields: Vec<(usize, usize)>)
    ensures
        is_split(line@, fields@),
{
    let mut fields: Vec<(usize, usize)> = Vec::new();
    let mut start: usize = 0;
    let mut at: usize = 0;
    while at < line.len()
        invariant
            start <= at <= line@.len(),
            fields@.len() == 0 ==> start == 0,
            fields@.len() > 0 ==> fields@[0].0 == 0 && fields@.last().1 + 1 == start,
            forall|t: int|
                0 <= t < fields@.len() ==> (#[trigger] fields@[t]).0 <= fields@[t].1 < at
                    && line@[fields@[t].1 as int] == SEPARATOR,
            forall|t: int|
                0 <= t < fields@.len() - 1 ==> fields@[t + 1].0 == (#[trigger] fields@[t]).1 + 1,
            forall|t: int, q: int|
                0 <= t < fields@.len() && (#[trigger] fields@[t]).0 <= q < fields@[t].1
                    ==> #[trigger] line@[q] != SEPARATOR,
            forall|q: int| start <= q < at ==> line@[q] != SEPARATOR,
        decreases line@.len() - at,
    {
        if line[at] == SEPARATOR {
            fields.push((start, at));
            start = at + 1;
        }
        at += 1;
    }
    fields.push((start, line.len()));
    fields
}

/// Whether the field of `line` in the range from `start` to `end` is the
/// token `noise`, letter for letter.
pub fn is_noise(line: &[u8], start: usize, end: usize) -> (noise: bool)
    requires
        start <= end <= line@.len(),
    ensures
        noise == (line@.subrange(start as int, end as int) == noise_token()),
{
    let noise = end - start == 5 && line[start] == 110 && line[start + 1] == 111 && line[start + 2]
        == 105 && line[start + 3] == 115 && line[start + 4] == 101;
    proof {
        let field = line@.subrange(start as int, end as int);
        if noise {
            assert(field =~= noise_token());
        } else if field == noise_token() {
            assert(field.len() == 5);
            assert(field[0] == 110 && field[1] == 111 && field[2] == 105 && field[3] == 115
                && field[4] == 101);
        }
    }
    noise
}

/// `word` stands in `text` at the position `at`.
pub open spec fn stands_at(text: Seq<u8>, word: Seq<u8>, at: int) -> bool {
    0 <= at && at + word.len() <= text.len() && text.subrange(at, at + word.len()) == word
}

/// The word by which the files are known that a desktop leaves in its
/// directories, `DS_Store`.
pub open spec fn desktop_word() -> Seq<u8> {
    seq![68u8, 83u8, 95u8, 83u8, 116u8, 111u8, 114u8, 101u8]
}

/// Whether `word` stands in `text` at the position `at`.
fn word_at(text: &[u8], word: &[u8], at: usize) -> (found: bool)
    requires
        at + word@.len() <= text@.len(),
    ensures
        found == stands_at(text@, word@, at as int),
{
    let length = text.len();
    let mut i: usize = 0;
    while i < word.len()
        invariant
            i <= word@.len(),
            at + word@.len() <= text@.len() == length,
            forall|q: int| 0 <= q < i ==> text@[at + q] == word@[q],
        decreases word@.len() - i,
    {
        if text[at + i] != word[i] {
            assert(text@.subrange(at as int, at + word@.len())[i as int] != word@[i as int]);
            return false;
        }
        i += 1;
    }
    assert(text@.subrange(at as int, at + word@.len()) =~= word@);
    true
}

/// Whether a file of a directory of datasets is a dataset: every file is,
/// but those with `DS_Store` in their name.
pub fn is_dataset_name(name: &[u8]) -> (dataset: bool)
    ensures
        dataset == !exists|at: int| stands_at(name@, desktop_word(), at),
{
    let word: [u8; 8] = [68, 83, 95, 83, 116, 111, 114, 101];
    assert(word@ =~= desktop_word());
    if name.len() < 8 {
        return true;
    }
    let mut at: usize = 0;
    while at <= name.len() - 8
        invariant
            word@ == desktop_word(),
            8 <= name@.len(),
            at <= name@.len() - 8 + 1,
            forall|q: int| 0 <= q < at ==> !stands_at(name@, desktop_word(), q),
        decreases name@.len() - at,
    {
        if word_at(name, word.as_slice(), at) {
            return false;
        }
        at += 1;
    }
    true
}

/// Whether a record fits a dataset of the given dimension. It must have one
/// field for each coordinate and one more for the class, and each of its
/// `fields` fields must hold a number, so that there are as many `numbers`.
pub fn is_complete_record(fields: usize, numbers: usize, dimension: usize) -> (complete: bool)
    ensures
        complete == (fields == dimension + 1 && numbers == fields),
{
    fields > 0 && fields - 1 == dimension && numbers == fields
}

} // verus!
