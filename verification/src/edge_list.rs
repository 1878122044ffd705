//! Rows of an edge list: two whole numbers with a comma between them,
//! under a header row that begins with `from`.

use vstd::prelude::*;
use crate::graph::Vertex;

verus! {

/// What a row of an edge list says.
#[derive(Debug, Clone, Copy, PartialEq, Eq, Structural)]
pub enum Row {
    /// The header row: its first field is `from`.
    Header,
    /// An edge between the two vertices.
    Edge(Vertex, Vertex),
    /// Anything else.
    Malformed,
}

pub const COMMA: u8 = 44;

/// `i` is where the first field of `s` ends: at the first comma, or at the
/// end where there is none.
pub open spec fn ends_first_field(s: Seq<u8>, i: int) -> bool {
    &&& 0 <= i <= s.len()
    &&& forall|k: int| 0 <= k < i ==> s[k] != COMMA
    &&& (i == s.len() || s[i] == COMMA)
}

/// Where the first field of `s` ends.
pub open spec fn first_field_end(s: Seq<u8>) -> int {
    choose|i: int| ends_first_field(s, i)
}

/// The bytes `f`, `r`, `o`, `m`.
pub open spec fn header_word() -> Seq<u8> {
    seq![102u8, 114u8, 111u8, 109u8]
}

pub open spec fn is_digit(b: u8) -> bool {
    48 <= b <= 57
}

pub open spec fn all_digits(s: Seq<u8>) -> bool {
    forall|k: int| 0 <= k < s.len() ==> is_digit(#[trigger] s[k])
}

/// The number that a run of decimal digits writes.
pub open spec fn digits_value(s: Seq<u8>) -> int
    decreases s.len(),
{
    if s.len() == 0 {
        0
    } else {
        10 * digits_value(s.drop_last()) + (s.last() - 48)
    }
}

/// The number that a field writes, if it is one that fits in 32 bits: an
/// optional sign and at least one decimal digit, nothing else.
pub open spec fn field_value(s: Seq<u8>) -> Option<int> {
    let signed = s.len() > 0 && (s[0] == 45 || s[0] == 43);
    let body = if signed {
        s.skip(1)
    } else {
        s
    };
    let size = digits_value(body);
    let value = if s.len() > 0 && s[0] == 45 {
        -size
    } else {
        size
    };
    if body.len() > 0 && all_digits(body) && i32::MIN <= value <= i32::MAX {
        Some(value)
    } else {
        None
    }
}

/// What a row says: the header if its first field is `from`; an edge if
/// its first two fields are numbers; else nothing. Further fields are not
/// looked at.
pub open spec fn row_meaning(line: Seq<u8>) -> Row {
    let c = first_field_end(line);
    let head = line.take(c);
    if head == header_word() {
        Row::Header
    } else if c == line.len() {
        Row::Malformed
    } else {
        let rest = line.skip(c + 1);
        let tail = rest.take(first_field_end(rest));
        match (field_value(head), field_value(tail)) {
            (Some(u), Some(v)) => Row::Edge(u as Vertex, v as Vertex),
            _ => Row::Malformed,
        }
    }
}

/// There is one place where the first field ends.
pub proof fn lemma_first_field_end(s: Seq<u8>, i: int)
    requires
        ends_first_field(s, i),
    ensures
        first_field_end(s) == i,
{
    let c = first_field_end(s);
    assert(ends_first_field(s, c));
    if c < i {
        assert(s[c] != COMMA);
    }
    if i < c {
        assert(s[i] != COMMA);
    }
}

/// More digits never write a smaller number.
pub proof fn lemma_digits_grow(s: Seq<u8>, k: int)
    requires
        all_digits(s),
        0 <= k <= s.len(),
    ensures
        0 <= digits_value(s.take(k)) <= digits_value(s),
    decreases s.len() - k,
{
    if k == s.len() {
        assert(s.take(k) =~= s);
        lemma_digits_nonnegative(s);
    } else {
        let t = s.drop_last();
        assert(t.take(k) =~= s.take(k));
        assert(is_digit(s[s.len() - 1]));
        lemma_digits_grow(t, k);
    }
}

pub proof fn lemma_digits_nonnegative(s: Seq<u8>)
    requires
        all_digits(s),
    ensures
        0 <= digits_value(s),
    decreases s.len(),
{
    if s.len() > 0 {
        assert(is_digit(s[s.len() - 1]));
        lemma_digits_nonnegative(s.drop_last());
    }
}

/// Where the field that begins at `from` ends.
fn field_end(line: &Vec<u8>, from: usize) -> (end: usize)
    requires
        from <= line@.len(),
    ensures
        from <= end <= line@.len(),
        end - from == first_field_end(line@.skip(from as int)),
{
    let mut i: usize = from;
    while i < line.len() && line[i] != COMMA
        invariant
            from <= i <= line@.len(),
            forall|k: int| from <= k < i ==> line@[k] != COMMA,
        decreases line@.len() - i,
    {
        i += 1;
    }
    proof {
        lemma_first_field_end(line@.skip(from as int), i - from);
    }
    i
}

/// The number that the bytes from `lo` up to `hi` write.
#[verifier::loop_isolation(false)]
fn read_number(line: &Vec<u8>, lo: usize, hi: usize) -> (r: Option<i32>)
    requires
        lo <= hi <= line@.len(),
    ensures
        match field_value(line@.subrange(lo as int, hi as int)) {
            Some(v) => r == Some(v as i32),
            None => r is None,
        },
{
    let ghost s = line@.subrange(lo as int, hi as int);
    if lo == hi {
        return None;
    }
    let first = line[lo];
    assert(first == s[0]);
    let negative = first == 45;
    let start: usize = if first == 45 || first == 43 {
        lo + 1
    } else {
        lo
    };
    let ghost body = line@.subrange(start as int, hi as int);
    assert(body =~= if s.len() > 0 && (s[0] == 45 || s[0] == 43) {
        s.skip(1)
    } else {
        s
    });
    if start == hi {
        return None;
    }
    let mut size: i64 = 0;
    let mut i: usize = start;
    while i < hi
        invariant
            start <= i <= hi <= line@.len(),
            body == line@.subrange(start as int, hi as int),
            all_digits(body.take(i - start)),
            size == digits_value(body.take(i - start)),
            0 <= size <= 0x8000_0000,
        decreases hi - i,
    {
        let b = line[i];
        assert(b == body[i - start]);
        if b < 48 || b > 57 {
            assert(!is_digit(body[i - start]));
            return None;
        }
        proof {
            assert(body.take(i - start + 1).drop_last() =~= body.take(i - start));
            assert(body.take(i - start + 1).last() == b);
        }
        size = size * 10 + (b - 48) as i64;
        i += 1;
        if size > 0x8000_0000 {
            proof {
                if all_digits(body) {
                    lemma_digits_grow(body, i - start);
                }
            }
            return None;
        }
    }
    assert(body.take(hi - start) =~= body);
    let value: i64 = if negative {
        -size
    } else {
        size
    };
    if value < -0x8000_0000 || value > 0x7fff_ffff {
        None
    } else {
        Some(value as i32)
    }
}

/// Whether the bytes before `end` are the word `from`.
fn is_header(line: &Vec<u8>, end: usize) -> (r: bool)
    requires
        end <= line@.len(),
    ensures
        r == (line@.take(end as int) == header_word()),
{
    let r = end == 4 && line[0] == 102 && line[1] == 114 && line[2] == 111 && line[3] == 109;
    proof {
        let head = line@.take(end as int);
        if r {
            assert(head =~= header_word());
        } else if end == 4 {
            assert(head[0] == line@[0] && head[1] == line@[1] && head[2] == line@[2] && head[3]
                == line@[3]);
            assert(header_word()[0] == 102 && header_word()[1] == 114 && header_word()[2] == 111
                && header_word()[3] == 109);
        } else {
            assert(header_word().len() == 4);
        }
    }
    r
}

/// Reads one row of an edge list.
pub fn parse_row(line: &Vec<u8>) -> (r: Row)
    ensures
        r == row_meaning(line@),
{
    let c = field_end(line, 0);
    assert(line@.skip(0) =~= line@);
    if is_header(line, c) {
        return Row::Header;
    }
    if c == line.len() {
        return Row::Malformed;
    }
    let d = field_end(line, c + 1);
    proof {
        let rest = line@.skip(c + 1);
        assert(line@.take(c as int) =~= line@.subrange(0, c as int));
        assert(rest.take(d - (c + 1)) =~= line@.subrange(c + 1, d as int));
    }
    match (read_number(line, 0, c), read_number(line, c + 1, d)) {
        (Some(u), Some(v)) => Row::Edge(u, v),
        _ => Row::Malformed,
    }
}

} // verus!
