//! Trimming: a text without the white space at its two ends.

use vstd::prelude::*;
use vstd::string::{StrSliceExecFns, StringExecFns};

verus! {

/// The character is white space: it has the Unicode property `White_Space`.
pub open spec fn is_white_space(c: char) -> bool {
    let u = c as u32;
    ||| 0x09 <= u <= 0x0D
    ||| u == 0x20
    ||| u == 0x85
    ||| u == 0xA0
    ||| u == 0x1680
    ||| 0x2000 <= u <= 0x200A
    ||| u == 0x2028
    ||| u == 0x2029
    ||| u == 0x202F
    ||| u == 0x205F
    ||| u == 0x3000
}

/// The end of the run of white space that starts at `from`.
pub open spec fn leading_end(field: Seq<char>, from: int) -> int
    decreases field.len() - from,
{
    if 0 <= from < field.len() && is_white_space(field[from]) {
        leading_end(field, from + 1)
    } else {
        from
    }
}

/// The start of the run of white space that ends at `to`.
pub open spec fn trailing_start(field: Seq<char>, to: int) -> int
    decreases to,
{
    if 0 < to <= field.len() && is_white_space(field[to - 1]) {
        trailing_start(field, to - 1)
    } else {
        to
    }
}

/// A field without the white space at its two ends: what lies from the
/// first to the last character that is no white space, and nothing where
/// every character is white space.
pub open spec fn trimmed(field: Seq<char>) -> Seq<char> {
    let start = leading_end(field, 0);
    let end = trailing_start(field, field.len() as int);
    if start < end {
        field.subrange(start, end)
    } else {
        Seq::empty()
    }
}

/// The two runs of white space at the ends of a field stay within it, and
/// what lies next to them is no white space.
pub proof fn lemma_trim_bounds(field: Seq<char>, from: int, to: int)
    requires
        0 <= from <= field.len(),
        0 <= to <= field.len(),
    ensures
        from <= leading_end(field, from) <= field.len(),
        leading_end(field, from) < field.len() ==> !is_white_space(
            field[leading_end(field, from)],
        ),
        0 <= trailing_start(field, to) <= to,
        trailing_start(field, to) > 0 ==> !is_white_space(field[trailing_start(field, to) - 1]),
    decreases field.len() - from + to,
{
    if from < field.len() && is_white_space(field[from]) {
        lemma_trim_bounds(field, from + 1, 0);
    }
    if 0 < to && is_white_space(field[to - 1]) {
        lemma_trim_bounds(field, field.len() as int, to - 1);
    }
}

/// A trimmed field neither starts nor ends with white space.
pub proof fn lemma_trimmed_clean(field: Seq<char>)
    ensures
        trimmed(field).len() > 0 ==> !is_white_space(trimmed(field).first()) && !is_white_space(
            trimmed(field).last(),
        ),
        trimmed(field).len() <= field.len(),
{
    lemma_trim_bounds(field, 0, field.len() as int);
}

/// The fields of a row, each trimmed.
pub open spec fn trimmed_row(fields: Seq<Seq<char>>) -> Seq<Seq<char>> {
    Seq::new(fields.len(), |i: int| trimmed(fields[i]))
}

/// Trimming a trimmed field changes nothing.
pub proof fn lemma_trimmed_idempotent(field: Seq<char>)
    ensures
        trimmed(trimmed(field)) == trimmed(field),
{
    lemma_trim_bounds(field, 0, field.len() as int);
    let t = trimmed(field);
    if t.len() > 0 {
        assert(leading_end(t, 0) == 0);
        assert(trailing_start(t, t.len() as int) == t.len());
        assert(t.subrange(0, t.len() as int) =~= t);
    } else {
        assert(leading_end(t, 0) == 0);
        assert(trailing_start(t, 0) == 0);
    }
}

/// Trimming the fields of a trimmed row changes nothing.
pub proof fn lemma_trimmed_row_idempotent(fields: Seq<Seq<char>>)
    ensures
        trimmed_row(trimmed_row(fields)) == trimmed_row(fields),
{
    assert forall|i: int| 0 <= i < fields.len() implies trimmed(#[trigger] trimmed_row(fields)[i])
        == trimmed_row(fields)[i] by {
        lemma_trimmed_idempotent(fields[i]);
    }
    assert(trimmed_row(trimmed_row(fields)) =~= trimmed_row(fields));
}

/// Tells whether the character is white space.
pub fn white_space(c: char) -> (r: bool)
    ensures
        r == is_white_space(c),
{
    let u: u32 = c as u32;
    (0x09 <= u && u <= 0x0D) || u == 0x20 || u == 0x85 || u == 0xA0 || u == 0x1680 || (0x2000 <= u
        && u <= 0x200A) || u == 0x2028 || u == 0x2029 || u == 0x202F || u == 0x205F || u == 0x3000
}

/// Takes the white space off the two ends of a text.
pub fn trim(s: &str) -> (r: String)
    ensures
        r@ == trimmed(s@),
{
    let n = s.unicode_len();
    let mut start: usize = 0;
    while start < n && white_space(s.get_char(start))
        invariant
            0 <= start <= n,
            n == s@.len(),
            leading_end(s@, start as int) == leading_end(s@, 0),
        decreases n - start,
    {
        start = start + 1;
    }
    assert(leading_end(s@, start as int) == start);
    let mut end: usize = n;
    while end > start && white_space(s.get_char(end - 1))
        invariant
            start <= end <= n,
            n == s@.len(),
            start < n ==> !is_white_space(s@[start as int]) && end > start,
            trailing_start(s@, end as int) == trailing_start(s@, n as int),
        decreases end,
    {
        end = end - 1;
    }
    proof {
        if start < n {
            assert(trailing_start(s@, end as int) == end);
        } else {
            lemma_trim_bounds(s@, 0, n as int);
            assert(s@.subrange(start as int, end as int) =~= Seq::<char>::empty());
        }
    }
    String::from_str(s.substring_char(start, end))
}

/// Takes the white space off the two ends of every field of a row.
pub fn trim_row(record: &Vec<String>) -> (r: Vec<String>)
    ensures
        r.deep_view() == trimmed_row(record.deep_view()),
{
    let mut out: Vec<String> = Vec::new();
    let mut i: usize = 0;
    while i < record.len()
        invariant
            0 <= i <= record.len(),
            out@.len() == i,
            forall|k: int| 0 <= k < i ==> (#[trigger] out@[k])@ == trimmed(record@[k]@),
        decreases record.len() - i,
    {
        out.push(trim(record[i].as_str()));
        i = i + 1;
    }
    assert(out.deep_view() =~= trimmed_row(record.deep_view()));
    out
}

} // verus!
