//! The name of a model file carries the grid's edge: `<name>_<N>.csv`.
use vstd::prelude::*;
use vstd::utf8::encode_utf8;

verus! {

/// `i` is the first position of `c` in `b`.
pub open spec fn first_at(b: Seq<u8>, c: u8, i: int) -> bool {
    &&& 0 <= i < b.len()
    &&& b[i] == c
    &&& forall|j: int| 0 <= j < i ==> b[j] != c
}

/// The first position of `c` in `b`, if any.
pub open spec fn first_index(b: Seq<u8>, c: u8) -> Option<int> {
    if exists|i: int| first_at(b, c, i) {
        Some(choose|i: int| first_at(b, c, i))
    } else {
        None
    }
}

pub open spec fn is_digit(c: u8) -> bool {
    0x30 <= c <= 0x39
}

/// Value of a string of decimal digits.
pub open spec fn digits_value(d: Seq<u8>) -> nat
    decreases d.len(),
{
    if d.len() == 0 {
        0
    } else {
        digits_value(d.drop_last()) * 10 + (d.last() - 0x30) as nat
    }
}

/// `d` without a leading `+`.
pub open spec fn digits_part(d: Seq<u8>) -> Seq<u8> {
    if d.len() > 0 && d[0] == 0x2b {
        d.drop_first()
    } else {
        d
    }
}

/// The number that `d` writes in decimal, with an optional leading `+`, as
/// an unsigned integer is read from text; `None` when `d` is no such number.
pub open spec fn decimal_value(d: Seq<u8>) -> Option<nat> {
    let body = digits_part(d);
    if body.len() > 0 && forall|i: int| 0 <= i < body.len() ==> is_digit(#[trigger] body[i]) {
        Some(digits_value(body))
    } else {
        None
    }
}

/// The edge written in a model file name: the text between the first `_`
/// and the first `.`, read as a `usize`.
pub open spec fn name_size(b: Seq<u8>) -> Option<usize> {
    match (first_index(b, 0x5f), first_index(b, 0x2e)) {
        (Some(u), Some(d)) => if u + 1 <= d {
            match decimal_value(b.subrange(u + 1, d)) {
                Some(v) => if v <= usize::MAX {
                    Some(v as usize)
                } else {
                    None
                },
                None => None,
            }
        } else {
            None
        },
        _ => None,
    }
}

/// Position of the first `c` in `b`, or `None`.
fn find_byte(b: &[u8], c: u8) -> (r: Option<usize>)
    ensures
        r matches Some(i) ==> i < b@.len(),
        match r {
            Some(i) => first_index(b@, c) == Some(i as int),
            None => first_index(b@, c) is None,
        },
{
    let mut i: usize = 0;
    while i < b.len()
        invariant
            i <= b@.len(),
            forall|j: int| 0 <= j < i ==> b@[j] != c,
        decreases b@.len() - i,
    {
        if b[i] == c {
            assert(first_at(b@, c, i as int));
            assert forall|k: int| first_at(b@, c, k) implies k == i by {
                if k < i {
                } else if k > i {
                    assert(b@[i as int] == c);
                }
            }
            return Some(i);
        }
        i += 1;
    }
    None
}

proof fn lemma_digits_grow(d: Seq<u8>, j: int)
    requires
        0 <= j <= d.len(),
        forall|i: int| 0 <= i < d.len() ==> is_digit(#[trigger] d[i]),
    ensures
        digits_value(d.subrange(0, j)) <= digits_value(d),
    decreases d.len() - j,
{
    if j < d.len() {
        lemma_digits_grow(d, j + 1);
        assert(d.subrange(0, j + 1).drop_last() =~= d.subrange(0, j));
    } else {
        assert(d.subrange(0, j) =~= d);
    }
}

/// Reads the decimal number in `b[start..end]`, or `None` where it is no
/// number or exceeds `usize::MAX`.
fn parse_decimal(b: &[u8], start: usize, end: usize) -> (r: Option<usize>)
    requires
        start <= end <= b@.len(),
    ensures
        r == (match decimal_value(b@.subrange(start as int, end as int)) {
            Some(v) => if v <= usize::MAX {
                Some(v as usize)
            } else {
                None
            },
            None => None,
        }),
{
    let ghost d = b@.subrange(start as int, end as int);
    let mut i = start;
    if i < end && b[i] == 0x2b {
        i += 1;
    }
    let ghost body = b@.subrange(i as int, end as int);
    assert(body =~= digits_part(d));
    if i == end {
        return None;
    }
    let first = i;
    let mut value: usize = 0;
    while i < end
        invariant
            first <= i <= end <= b@.len(),
            first < end,
            body == b@.subrange(first as int, end as int),
            d == b@.subrange(start as int, end as int),
            body == digits_part(d),
            forall|k: int| first <= k < i ==> is_digit(#[trigger] b@[k]),
            value == digits_value(b@.subrange(first as int, i as int)),
        decreases end - i,
    {
        let c = b[i];
        if c < 0x30 || c > 0x39 {
            assert(!is_digit(body[i - first]));
            assert(!(forall|k: int| 0 <= k < body.len() ==> is_digit(#[trigger] body[k])));
            assert(decimal_value(d) is None);
            return None;
        }
        let digit = (c - 0x30) as usize;
        assert(b@.subrange(first as int, i + 1).drop_last() =~= b@.subrange(first as int, i as int));
        if value > (usize::MAX - digit) / 10 {
            proof {
                assert(value * 10 + digit > usize::MAX) by (nonlinear_arith)
                    requires
                        value > (usize::MAX - digit) / 10,
                        digit <= 9,
                ;
                let rest = b@.subrange(first as int, end as int);
                if forall|k: int| 0 <= k < rest.len() ==> is_digit(#[trigger] rest[k]) {
                    lemma_digits_grow(rest, i + 1 - first);
                    assert(rest.subrange(0, i + 1 - first) =~= b@.subrange(first as int, i + 1));
                    assert(decimal_value(d) == Some(digits_value(rest)));
                } else {
                    assert(decimal_value(d) is None);
                }
            }
            return None;
        }
        value = value * 10 + digit;
        i += 1;
    }
    assert(body =~= b@.subrange(first as int, i as int));
    Some(value)
}

/// The grid edge that a model file name carries (`torus_128.csv` gives
/// 128), or `None` when the name lacks `_` or `.`, has the `.` before the
/// `_`, or has no number between them.
pub fn parse_size(path: &String) -> (r: Option<usize>)
    ensures
        r == name_size(encode_utf8(path@)),
{
    let s = path.as_str();
    let b = s.as_bytes();
    assert(b@ == encode_utf8(path@));
    let underscore = match find_byte(b, 0x5f) {
        Some(u) => u,
        None => return None,
    };
    let size_end = match find_byte(b, 0x2e) {
        Some(d) => d,
        None => return None,
    };
    if underscore >= size_end {
        return None;
    }
    parse_decimal(b, underscore + 1, size_end)
}

} // verus!
