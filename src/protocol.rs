use vstd::prelude::*;

verus! {

/// The first space at or after `i` (the length if none).
pub open spec fn space_from(b: Seq<u8>, i: int) -> int
    decreases b.len() - i,
{
    if i < 0 || i >= b.len() {
        b.len() as int
    } else if b[i] == 32 {
        i
    } else {
        space_from(b, i + 1)
    }
}

/// ASCII lower case of one byte.
pub open spec fn lower(c: u8) -> u8 {
    if 65 <= c <= 90 {
        (c + 32) as u8
    } else {
        c
    }
}

pub open spec fn lowered(t: Seq<u8>) -> Seq<u8> {
    t.map_values(|c: u8| lower(c))
}

/// A decimal number as `str::parse` reads it for an unsigned type: an optional `+`,
/// then one digit or more.
pub open spec fn digits(t: Seq<u8>) -> Seq<u8> {
    if t.len() > 0 && t[0] == 43 {
        t.drop_first()
    } else {
        t
    }
}

pub open spec fn all_digits(t: Seq<u8>) -> bool {
    forall|i: int| 0 <= i < t.len() ==> 48 <= #[trigger] t[i] <= 57
}

pub open spec fn digits_value(t: Seq<u8>) -> int
    decreases t.len(),
{
    if t.len() == 0 {
        0
    } else {
        digits_value(t.drop_last()) * 10 + (t.last() - 48)
    }
}

/// The value of the number `t`, when it is one and at most `bound`.
pub open spec fn number(t: Seq<u8>, bound: int) -> Option<int> {
    let d = digits(t);
    if d.len() > 0 && all_digits(d) && digits_value(d) <= bound {
        Some(digits_value(d))
    } else {
        None
    }
}

/// The fields of a line split at its first two spaces: the keyword, then, where there
/// are spaces, the second field and the rest of the line verbatim.
pub open spec fn field0(b: Seq<u8>) -> Seq<u8> {
    b.subrange(0, space_from(b, 0))
}

pub open spec fn has_field1(b: Seq<u8>) -> bool {
    space_from(b, 0) < b.len()
}

pub open spec fn field1(b: Seq<u8>) -> Seq<u8> {
    b.subrange(space_from(b, 0) + 1, space_from(b, space_from(b, 0) + 1))
}

pub open spec fn has_field2(b: Seq<u8>) -> bool {
    has_field1(b) && space_from(b, space_from(b, 0) + 1) < b.len()
}

pub open spec fn field2(b: Seq<u8>) -> Seq<u8> {
    b.subrange(space_from(b, space_from(b, 0) + 1) + 1, b.len() as int)
}

pub open spec fn is_pop(b: Seq<u8>) -> bool {
    lowered(field0(b)) == seq![112u8, 111, 112]
}

pub open spec fn is_push(b: Seq<u8>) -> bool {
    lowered(field0(b)) == seq![112u8, 117, 115, 104]
}

pub open spec fn is_clear(b: Seq<u8>) -> bool {
    lowered(field0(b)) == seq![99u8, 108, 101, 97, 114]
}

/// A push line with all three fields and a priority that fits in 16 bits.
pub open spec fn push_ok(b: Seq<u8>) -> bool {
    is_push(b) && has_field2(b) && number(field1(b), u16::MAX as int) is Some
}

/// The count of a pop line: its number, and 1 where it has none.
pub open spec fn pop_count(b: Seq<u8>) -> int {
    if has_field1(b) && number(field1(b), usize::MAX as int) is Some {
        number(field1(b), usize::MAX as int)->0
    } else {
        1
    }
}

/// Whether the line is a command at all.
pub open spec fn is_command(b: Seq<u8>) -> bool {
    is_pop(b) || is_clear(b) || push_ok(b)
}

pub proof fn lemma_value_mono(d: Seq<u8>, m: int)
    requires
        all_digits(d),
        0 <= m <= d.len(),
    ensures
        digits_value(d) >= digits_value(d.take(m)),
        digits_value(d) >= 0,
    decreases d.len(),
{
    if d.len() > 0 {
        let front = d.drop_last();
        assert(all_digits(front)) by {
            assert forall|i: int| 0 <= i < front.len() implies 48 <= #[trigger] front[i] <= 57 by {
                assert(front[i] == d[i]);
            }
        }
        assert(48 <= d[d.len() - 1] <= 57);
        if m == d.len() {
            assert(d.take(m) =~= d);
            lemma_value_mono(front, 0);
        } else {
            lemma_value_mono(front, m);
            assert(front.take(m) =~= d.take(m));
        }
    }
}

/// The first space in `b` at or after `i`.
pub fn find_space(b: &[u8], i: usize) -> (r: usize)
    requires
        i <= b@.len(),
    ensures
        r == space_from(b@, i as int),
        i <= r <= b@.len(),
{
    let mut k: usize = i;
    while k < b.len() && b[k] != 32
        invariant
            i <= k <= b@.len(),
            space_from(b@, i as int) == space_from(b@, k as int),
        decreases b@.len() - k,
    {
        k = k + 1;
    }
    k
}

/// Reads the number in `b[start..end]`, when it is one and at most `bound`.
pub fn parse_number(b: &[u8], start: usize, end: usize, bound: u64) -> (r: Option<u64>)
    requires
        start <= end <= b@.len(),
        bound >= 9,
    ensures
        r is Some <==> number(b@.subrange(start as int, end as int), bound as int) is Some,
        r is Some ==> r->0 as int == number(b@.subrange(start as int, end as int), bound as int)->0,
{
    let ghost t = b@.subrange(start as int, end as int);
    let mut s = start;
    if s < end && b[s] == 43 {
        s = s + 1;
    }
    let ghost d = b@.subrange(s as int, end as int);
    assert(d =~= digits(t));
    if s == end {
        return None;
    }
    let mut acc: u64 = 0;
    let mut k: usize = s;
    while k < end
        invariant
            t == b@.subrange(start as int, end as int),
            d == b@.subrange(s as int, end as int),
            d == digits(t),
            s <= k <= end <= b@.len(),
            bound >= 9,
            all_digits(d.take(k - s)),
            acc == digits_value(d.take(k - s)),
            acc <= bound,
        decreases end - k,
    {
        let c = b[k];
        if c < 48 || c > 57 {
            assert(d[k - s] == c);
            assert(!all_digits(d));
            return None;
        }
        let dig = (c - 48) as u64;
        assert(d.take(k - s + 1).drop_last() =~= d.take(k - s));
        assert(d.take(k - s + 1).last() == c);
        assert(digits_value(d.take(k - s + 1)) == acc * 10 + dig);
        if acc > (bound - dig) / 10 {
            proof {
                assert(acc * 10 + dig > bound) by (nonlinear_arith)
                    requires acc > (bound - dig) / 10, dig <= 9, bound >= 9;
                if all_digits(d) {
                    lemma_value_mono(d, k - s + 1);
                }
            }
            return None;
        }
        assert(acc * 10 + dig <= bound) by (nonlinear_arith)
            requires acc <= (bound - dig) / 10, dig <= 9, bound >= 9;
        acc = acc * 10 + dig;
        k = k + 1;
        assert(all_digits(d.take(k - s))) by {
            assert forall|i: int| 0 <= i < d.take(k - s).len() implies 48 <= #[trigger] d.take(k - s)[i] <= 57 by {
                if i < k - s - 1 {
                    assert(d.take(k - s)[i] == d.take(k - s - 1)[i]);
                }
            }
        }
    }
    assert(d.take(k - s) =~= d);
    Some(acc)
}

} // verus!
