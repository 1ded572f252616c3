use vstd::prelude::*;
use crate::storage::{Item, StorageItem, views};

verus! {

// Layout of a dump: the item count, then for each item its priority, its payload length
// and its payload bytes. Integers are little-endian: two bytes for a priority, four
// bytes for a count or a length.

/// A priority as two bytes, low byte first.
pub open spec fn le16(p: u16) -> Seq<u8> {
    seq![(p % 256) as u8, (p / 256) as u8]
}

/// A number below 2^32 as four bytes, low byte first.
pub open spec fn le32(n: nat) -> Seq<u8> {
    seq![(n % 256) as u8, (n / 256 % 256) as u8, (n / 256 / 256 % 256) as u8, (n / 256 / 256 / 256 % 256) as u8]
}

pub open spec fn read16(b: Seq<u8>, at: int) -> int {
    b[at] + 256 * b[at + 1]
}

pub open spec fn read32(b: Seq<u8>, at: int) -> int {
    b[at] + 256 * b[at + 1] + 65536 * b[at + 2] + 16777216 * b[at + 3]
}

/// One item as bytes.
pub open spec fn record(x: Item) -> Seq<u8> {
    le16(x.0) + le32(x.1.len()) + x.1
}

pub open spec fn records(q: Seq<Item>) -> Seq<u8>
    decreases q.len(),
{
    if q.len() == 0 {
        Seq::<u8>::empty()
    } else {
        record(q[0]) + records(q.drop_first())
    }
}

/// The count and every payload length fit in four bytes.
pub open spec fn encodable(q: Seq<Item>) -> bool {
    &&& q.len() <= u32::MAX
    &&& forall|i: int| 0 <= i < q.len() ==> q[i].1.len() <= u32::MAX
}

/// The dump of the items `q`, in that order.
pub open spec fn encoding(q: Seq<Item>) -> Seq<u8> {
    le32(q.len()) + records(q)
}

/// The `n` items that `b` holds, when it holds exactly that many records and nothing else.
pub open spec fn decode_records(b: Seq<u8>, n: nat) -> Option<Seq<Item>>
    decreases n,
{
    if n == 0 {
        if b.len() == 0 {
            Some(Seq::<Item>::empty())
        } else {
            None
        }
    } else if b.len() < 6 {
        None
    } else {
        let l = read32(b, 2);
        if b.len() < 6 + l {
            None
        } else {
            match decode_records(b.skip(6 + l), (n - 1) as nat) {
                Some(r) => Some(seq![(read16(b, 0) as u16, b.subrange(6, 6 + l))] + r),
                None => None,
            }
        }
    }
}

/// The items of a dump, or `None` for bytes that are not one.
pub open spec fn decoding(b: Seq<u8>) -> Option<Seq<Item>> {
    if b.len() < 4 {
        None
    } else {
        decode_records(b.skip(4), read32(b, 0) as nat)
    }
}

proof fn lemma_le16(p: u16)
    ensures
        read16(le16(p), 0) == p,
{
}

proof fn lemma_le32(n: nat)
    requires
        n <= u32::MAX,
    ensures
        read32(le32(n), 0) == n,
{
    let q1 = n / 256;
    let q2 = q1 / 256;
    let q3 = q2 / 256;
    assert(n == 256 * q1 + n % 256);
    assert(q1 == 256 * q2 + q1 % 256);
    assert(q2 == 256 * q3 + q2 % 256);
    assert(q3 < 256);
    assert(q3 % 256 == q3);
}

proof fn lemma_records_push(q: Seq<Item>, x: Item)
    ensures
        records(q.push(x)) == records(q) + record(x),
    decreases q.len(),
{
    if q.len() == 0 {
        assert(q.push(x).drop_first() =~= Seq::<Item>::empty());
        assert(q.push(x)[0] == x);
        assert(records(Seq::<Item>::empty()) == Seq::<u8>::empty());
        assert(records(q) == Seq::<u8>::empty());
        assert(records(q.push(x)) =~= record(x));
    } else {
        assert(q.push(x).drop_first() =~= q.drop_first().push(x));
        lemma_records_push(q.drop_first(), x);
        assert(records(q.push(x)) =~= records(q) + record(x));
    }
}

proof fn lemma_read_record(x: Item, tail: Seq<u8>)
    requires
        x.1.len() <= u32::MAX,
    ensures
        ({
            let b = record(x) + tail;
            &&& b.len() >= 6 + x.1.len()
            &&& read16(b, 0) == x.0
            &&& read32(b, 2) == x.1.len()
            &&& b.skip(6 + x.1.len() as int) == tail
            &&& b.subrange(6, 6 + x.1.len() as int) == x.1
        }),
{
    let b = record(x) + tail;
    let l = x.1.len() as int;
    let h16 = le16(x.0);
    let h32 = le32(x.1.len());
    assert(b == h16 + h32 + x.1 + tail);
    lemma_le16(x.0);
    assert(b[0] == h16[0]);
    assert(b[1] == h16[1]);
    lemma_le32(x.1.len());
    assert(b[2] == h32[0]);
    assert(b[3] == h32[1]);
    assert(b[4] == h32[2]);
    assert(b[5] == h32[3]);
    assert(b.skip(6 + l) =~= tail);
    assert(b.subrange(6, 6 + l) =~= x.1);
}

proof fn lemma_decode_records(q: Seq<Item>)
    requires
        encodable(q),
    ensures
        decode_records(records(q), q.len()) == Some(q),
    decreases q.len(),
{
    if q.len() > 0 {
        let x = q[0];
        let rest = q.drop_first();
        assert(encodable(rest)) by {
            assert forall|i: int| 0 <= i < rest.len() implies rest[i].1.len() <= u32::MAX by {
                assert(rest[i] == q[i + 1]);
            }
        }
        lemma_decode_records(rest);
        lemma_read_record(x, records(rest));
        assert(records(q) == record(x) + records(rest));
        assert(seq![(x.0, x.1)] + rest =~= q);
    }
}

/// Decoding a dump gives back the items it was made of.
pub proof fn lemma_decoding_encoding(q: Seq<Item>)
    requires
        encodable(q),
    ensures
        decoding(encoding(q)) == Some(q),
{
    let b = encoding(q);
    lemma_le32(q.len());
    assert(read32(b, 0) == read32(le32(q.len()), 0));
    assert(b.skip(4) =~= records(q));
    lemma_decode_records(q);
}

fn put_u16(out: &mut Vec<u8>, p: u16)
    ensures
        final(out)@ == old(out)@ + le16(p),
{
    out.push((p % 256) as u8);
    out.push((p / 256) as u8);
    assert(final(out)@ =~= old(out)@ + le16(p));
}

fn put_u32(out: &mut Vec<u8>, n: u32)
    ensures
        final(out)@ == old(out)@ + le32(n as nat),
{
    out.push((n % 256) as u8);
    out.push((n / 256 % 256) as u8);
    out.push((n / 256 / 256 % 256) as u8);
    out.push((n / 256 / 256 / 256 % 256) as u8);
    assert(final(out)@ =~= old(out)@ + le32(n as nat));
}

/// The dump of `items`, in their order; `None` when a count or a length does not fit
/// in four bytes.
pub fn encode(items: &Vec<StorageItem>) -> (r: Option<Vec<u8>>)
    ensures
        r is Some <==> encodable(views(items@)),
        r is Some ==> r->0@ == encoding(views(items@)),
{
    let ghost q = views(items@);
    if items.len() > 0xffff_ffff {
        return None;
    }
    let mut out: Vec<u8> = Vec::new();
    put_u32(&mut out, items.len() as u32);
    let mut i: usize = 0;
    while i < items.len()
        invariant
            q == views(items@),
            q.len() <= u32::MAX,
            i <= q.len(),
            forall|j: int| 0 <= j < i ==> q[j].1.len() <= u32::MAX,
            out@ == le32(q.len()) + records(q.take(i as int)),
        decreases q.len() - i,
    {
        let it = &items[i];
        if it.data.len() > 0xffff_ffff {
            return None;
        }
        put_u16(&mut out, it.priority);
        put_u32(&mut out, it.data.len() as u32);
        let mut k: usize = 0;
        let ghost before = out@;
        while k < it.data.len()
            invariant
                k <= it.data@.len(),
                out@ == before + it.data@.take(k as int),
            decreases it.data@.len() - k,
        {
            out.push(it.data[k]);
            k = k + 1;
            assert(out@ =~= before + it.data@.take(k as int));
        }
        proof {
            assert(it.data@.take(k as int) =~= it.data@);
            assert(q[i as int] == it@);
            lemma_records_push(q.take(i as int), q[i as int]);
            assert(q.take(i + 1) =~= q.take(i as int).push(q[i as int]));
            assert(out@ =~= le32(q.len()) + records(q.take(i + 1)));
        }
        i = i + 1;
    }
    assert(q.take(i as int) =~= q);
    Some(out)
}

fn get_u32(b: &[u8], at: usize) -> (r: u32)
    requires
        at + 4 <= b@.len(),
    ensures
        r == read32(b@, at as int),
{
    b[at] as u32 + 256 * (b[at + 1] as u32) + 65536 * (b[at + 2] as u32) + 16777216 * (b[at + 3] as u32)
}

/// The items of a dump; `None` when the bytes are not exactly one.
pub fn decode(bytes: &[u8]) -> (r: Option<Vec<StorageItem>>)
    ensures
        r is None <==> decoding(bytes@) is None,
        r is Some ==> decoding(bytes@) == Some(views(r->0@)),
{
    let ghost b = bytes@;
    if bytes.len() < 4 {
        return None;
    }
    let n = get_u32(bytes, 0);
    let mut items: Vec<StorageItem> = Vec::new();
    let mut pos: usize = 4;
    let mut i: u32 = 0;
    assert(b.skip(4) =~= b.skip(pos as int));
    while i < n
        invariant
            b == bytes@,
            4 <= pos <= b.len(),
            i <= n,
            n == read32(b, 0),
            decoding(b) == match decode_records(b.skip(pos as int), (n - i) as nat) {
                Some(r) => Some(views(items@) + r),
                None => None::<Seq<Item>>,
            },
        decreases n - i,
    {
        let ghost rest = b.skip(pos as int);
        if bytes.len() - pos < 6 {
            return None;
        }
        let p = bytes[pos] as u16 + 256 * (bytes[pos + 1] as u16);
        let l = get_u32(bytes, pos + 2);
        assert(read32(rest, 2) == l);
        assert(read16(rest, 0) == p);
        if ((bytes.len() - pos - 6) as u64) < (l as u64) {
            return None;
        }
        let start: usize = pos + 6;
        let end: usize = start + l as usize;
        let mut data: Vec<u8> = Vec::new();
        let mut k: usize = start;
        while k < end
            invariant
                b == bytes@,
                start <= k <= end <= b.len(),
                data@ == b.subrange(start as int, k as int),
            decreases end - k,
        {
            data.push(bytes[k]);
            k = k + 1;
            assert(data@ =~= b.subrange(start as int, k as int));
        }
        let ghost x: Item = (p, data@);
        assert(rest.subrange(6, 6 + l) =~= data@);
        assert(rest.skip(6 + l) =~= b.skip(end as int));
        items.push(StorageItem { priority: p, data: Box::new(data) });
        assert(views(items@) =~= views(items@.drop_last()).push(x));
        proof {
            match decode_records(b.skip(end as int), (n - i - 1) as nat) {
                Some(r) => {
                    assert(views(items@) + r =~= views(items@.drop_last()) + (seq![x] + r));
                },
                None => {},
            }
        }
        pos = end;
        i = i + 1;
    }
    if pos < bytes.len() {
        return None;
    }
    assert(views(items@) + Seq::<Item>::empty() =~= views(items@));
    Some(items)
}

} // verus!
