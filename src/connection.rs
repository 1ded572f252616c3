use vstd::prelude::*;
use vstd::string::StringExecFns;
use vstd::utf8::encode_utf8;
use crate::storage::{Item, Storage, StorageItem, pushed};
use crate::protocol::{
    lower, lowered, number, field1, field2, has_field2, is_pop, is_push, is_clear, push_ok, pop_count,
    is_command, find_space, parse_number,
};

verus! {

/// One request of the line protocol.
pub enum Command {
    Pop { count: usize },
    Push { priority: u16, data: Box<Vec<u8>> },
    Clear,
}

/// The second and third fields of a push line make a priority and a payload.
pub open spec fn push_fields_ok(b: Seq<u8>) -> bool {
    has_field2(b) && number(field1(b), u16::MAX as int) is Some
}

/// The reply to a pop: each payload on a line of its own, or one empty line for none.
pub open spec fn lines(q: Seq<Item>) -> Seq<u8>
    decreases q.len(),
{
    if q.len() == 0 {
        Seq::<u8>::empty()
    } else {
        lines(q.drop_last()) + q.last().1 + seq![10u8]
    }
}

pub open spec fn pop_reply(q: Seq<Item>) -> Seq<u8> {
    if q.len() == 0 {
        seq![10u8]
    } else {
        lines(q)
    }
}

/// `OK` and a newline.
pub open spec fn ok_reply() -> Seq<u8> {
    seq![79u8, 75, 10]
}

fn lower_byte(c: u8) -> (r: u8)
    ensures
        r == lower(c),
{
    if 65 <= c && c <= 90 {
        c + 32
    } else {
        c
    }
}

/// Whether `b[0..end]`, in lower case, is the word `w`.
fn keyword_is(b: &[u8], end: usize, w: &Vec<u8>) -> (r: bool)
    requires
        end <= b@.len(),
    ensures
        r == (lowered(b@.subrange(0, end as int)) == w@),
{
    let ghost t = b@.subrange(0, end as int);
    if end != w.len() {
        assert(lowered(t).len() != w@.len());
        return false;
    }
    let mut i: usize = 0;
    while i < end
        invariant
            t == b@.subrange(0, end as int),
            end == w@.len(),
            end <= b@.len(),
            i <= end,
            forall|j: int| 0 <= j < i ==> lower(b@[j]) == w@[j],
        decreases end - i,
    {
        if lower_byte(b[i]) != w[i] {
            assert(lowered(t)[i as int] != w@[i as int]);
            return false;
        }
        i = i + 1;
    }
    assert(lowered(t) =~= w@);
    true
}

/// Copies `b[start..]`.
fn tail_bytes(b: &[u8], start: usize) -> (r: Vec<u8>)
    requires
        start <= b@.len(),
    ensures
        r@ == b@.subrange(start as int, b@.len() as int),
{
    let mut r: Vec<u8> = Vec::new();
    let mut k: usize = start;
    while k < b.len()
        invariant
            start <= k <= b@.len(),
            r@ == b@.subrange(start as int, k as int),
        decreases b@.len() - k,
    {
        r.push(b[k]);
        k = k + 1;
        assert(r@ =~= b@.subrange(start as int, k as int));
    }
    r
}

/// Parses request lines; the newline is already stripped.
pub struct ProtocolParser {}

impl ProtocolParser {
    /// Reads one line: a case-insensitive keyword, then its fields, separated by single
    /// spaces. Lines that are no command give an error that quotes them.
    pub fn parse_line(line: &String) -> (r: Result<Command, String>)
        ensures
            ({
                let b = encode_utf8(line@);
                match r {
                    Ok(Command::Pop { count }) => is_pop(b) && count == pop_count(b),
                    Ok(Command::Push { priority, data }) => push_ok(b)
                        && priority == number(field1(b), u16::MAX as int)->0 && data@ == field2(b),
                    Ok(Command::Clear) => is_clear(b),
                    Err(e) => !is_command(b) && e@ == (if is_push(b) {
                        "Unrecognized push command "@
                    } else {
                        "Unrecognized command "@
                    }) + line@,
                }
            }),
    {
        let b: &[u8] = line.as_str().as_bytes();
        proof {
            assert(b@ == encode_utf8(line@));
        }
        let k0 = find_space(b, 0);
        let w_pop: Vec<u8> = vec![112u8, 111, 112];
        let w_push: Vec<u8> = vec![112u8, 117, 115, 104];
        let w_clear: Vec<u8> = vec![99u8, 108, 101, 97, 114];
        proof {
            assert(w_pop@ =~= seq![112u8, 111, 112]);
            assert(w_push@ =~= seq![112u8, 117, 115, 104]);
            assert(w_clear@ =~= seq![99u8, 108, 101, 97, 114]);
        }
        if keyword_is(b, k0, &w_pop) {
            Ok(Self::pop(b))
        } else if keyword_is(b, k0, &w_push) {
            match Self::push(b) {
                Some(cmd) => Ok(cmd),
                None => {
                    let mut e = "Unrecognized push command ".to_owned();
                    e.append(line.as_str());
                    Err(e)
                },
            }
        } else if keyword_is(b, k0, &w_clear) {
            Ok(Self::clear())
        } else {
            let mut e = "Unrecognized command ".to_owned();
            e.append(line.as_str());
            Err(e)
        }
    }

    /// The fields after the keyword of a push line: a priority that fits in 16 bits and
    /// the payload, which is the rest of the line verbatim.
    pub fn push(b: &[u8]) -> (r: Option<Command>)
        ensures
            match r {
                Some(Command::Push { priority, data }) => push_fields_ok(b@)
                    && priority == number(field1(b@), u16::MAX as int)->0 && data@ == field2(b@),
                Some(_) => false,
                None => !push_fields_ok(b@),
            },
    {
        let k0 = find_space(b, 0);
        if k0 == b.len() {
            return None;
        }
        let k1 = find_space(b, k0 + 1);
        if k1 == b.len() {
            return None;
        }
        match parse_number(b, k0 + 1, k1, 65535) {
            None => None,
            Some(p) => {
                let data = tail_bytes(b, k1 + 1);
                Some(Command::Push { priority: p as u16, data: Box::new(data) })
            },
        }
    }

    /// The count of a pop line; 1 where it gives none, or none that can be read.
    pub fn pop(b: &[u8]) -> (r: Command)
        ensures
            r matches Command::Pop { count } && count == pop_count(b@),
    {
        let k0 = find_space(b, 0);
        if k0 == b.len() {
            return Command::Pop { count: 1 };
        }
        let k1 = find_space(b, k0 + 1);
        match parse_number(b, k0 + 1, k1, usize::MAX as u64) {
            None => Command::Pop { count: 1 },
            Some(n) => Command::Pop { count: n as usize },
        }
    }

    /// A clear takes no fields; whatever follows the keyword is ignored.
    pub fn clear() -> (r: Command)
        ensures
            r is Clear,
    {
        Command::Clear
    }
}

/// Runs the requests of one client against the shared store.
pub struct Connection {}

impl Connection {
    pub fn new() -> (r: Self) {
        Connection {}
    }

    /// Carries out one request on the store and gives the bytes of its reply.
    pub fn execute<S: Storage>(&mut self, cmd: Command, storage: &mut S) -> (r: Vec<u8>)
        requires
            old(storage).wf(),
        ensures
            final(storage).wf(),
            match cmd {
                Command::Pop { count } => {
                    let q = old(storage).queue();
                    let n = if count < q.len() { count as int } else { q.len() as int };
                    &&& final(storage).queue() == q.skip(n)
                    &&& r@ == pop_reply(q.take(n))
                },
                Command::Push { priority, data } => final(storage).queue() == pushed(old(storage).queue(), priority, data@)
                    && r@ == ok_reply(),
                Command::Clear => final(storage).queue() == Seq::<Item>::empty() && r@ == ok_reply(),
            },
    {
        match cmd {
            Command::Pop { count } => {
                let items = storage.pop_many(count);
                reply_to_pop(&items)
            },
            Command::Push { priority, data } => {
                storage.push(priority, data);
                ok_bytes()
            },
            Command::Clear => {
                storage.clear();
                ok_bytes()
            },
        }
    }
}

fn ok_bytes() -> (r: Vec<u8>)
    ensures
        r@ == ok_reply(),
{
    let r: Vec<u8> = vec![79u8, 75, 10];
    assert(r@ =~= ok_reply());
    r
}

/// The reply to a pop that returned `items`.
pub fn reply_to_pop(items: &Vec<StorageItem>) -> (r: Vec<u8>)
    ensures
        r@ == pop_reply(items@.map_values(|it: StorageItem| it@)),
{
    let ghost q = items@.map_values(|it: StorageItem| it@);
    let mut out: Vec<u8> = Vec::new();
    if items.len() == 0 {
        out.push(10);
        assert(out@ =~= seq![10u8]);
        return out;
    }
    let mut i: usize = 0;
    while i < items.len()
        invariant
            q == items@.map_values(|it: StorageItem| it@),
            i <= items@.len(),
            out@ == lines(q.take(i as int)),
        decreases items@.len() - i,
    {
        let ghost before = out@;
        let d = &items[i].data;
        let mut k: usize = 0;
        while k < d.len()
            invariant
                k <= d@.len(),
                out@ == before + d@.take(k as int),
            decreases d@.len() - k,
        {
            out.push(d[k]);
            k = k + 1;
            assert(out@ =~= before + d@.take(k as int));
        }
        out.push(10);
        proof {
            assert(d@.take(k as int) =~= d@);
            assert(q.take(i + 1).drop_last() =~= q.take(i as int));
            assert(q.take(i + 1).last() == q[i as int]);
            assert(out@ =~= lines(q.take(i + 1)));
        }
        i = i + 1;
    }
    assert(q.take(i as int) =~= q);
    out
}

} // verus!
