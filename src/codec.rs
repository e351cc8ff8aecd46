use vstd::prelude::*;
use vstd::utf8::{decode_utf8, decode_utf8_encode_utf8, encode_utf8, encode_utf8_decode_utf8, encode_utf8_valid_utf8, valid_utf8};

use crate::outside::utf8_text;
use crate::store::TaskStat;
use crate::tasklog::{TaskLog, TaskLogView, log_wf};
use crate::task::{
    ActiveTask, ActiveTaskView, LogEntry, LogEntryView, PooledTask, PooledTaskView, Task,
    TaskAction, TaskActionView, TaskView, actives_view, entries_view, pooled_view,
};

verus! {

/// The eight bytes of `x`, least significant first.
pub open spec fn enc_u64(x: u64) -> Seq<u8> {
    seq![
        (x & 0xff) as u8,
        ((x >> 8u64) & 0xff) as u8,
        ((x >> 16u64) & 0xff) as u8,
        ((x >> 24u64) & 0xff) as u8,
        ((x >> 32u64) & 0xff) as u8,
        ((x >> 40u64) & 0xff) as u8,
        ((x >> 48u64) & 0xff) as u8,
        ((x >> 56u64) & 0xff) as u8,
    ]
}

pub open spec fn enc_i64(x: i64) -> Seq<u8> {
    enc_u64(x as u64)
}

/// `e` stands in `b` from position `pos` on.
pub open spec fn at(b: Seq<u8>, pos: int, e: Seq<u8>) -> bool {
    &&& 0 <= pos
    &&& pos + e.len() <= b.len()
    &&& b.subrange(pos, pos + e.len()) == e
}

proof fn lemma_at_split(b: Seq<u8>, pos: int, e1: Seq<u8>, e2: Seq<u8>)
    requires
        at(b, pos, e1 + e2),
    ensures
        at(b, pos, e1),
        at(b, pos + e1.len(), e2),
{
    let whole = b.subrange(pos, pos + e1.len() + e2.len());
    assert(whole == e1 + e2);
    assert(b.subrange(pos, pos + e1.len()) =~= whole.subrange(0, e1.len() as int));
    assert((e1 + e2).subrange(0, e1.len() as int) =~= e1);
    assert(b.subrange(pos + e1.len(), pos + e1.len() + e2.len()) =~= whole.subrange(
        e1.len() as int,
        whole.len() as int,
    ));
    assert((e1 + e2).subrange(e1.len() as int, (e1.len() + e2.len()) as int) =~= e2);
}

proof fn lemma_at_join(b: Seq<u8>, pos: int, e1: Seq<u8>, e2: Seq<u8>)
    requires
        at(b, pos, e1),
        at(b, pos + e1.len(), e2),
    ensures
        at(b, pos, e1 + e2),
{
    assert(b.subrange(pos, pos + e1.len() + e2.len()) =~= b.subrange(pos, pos + e1.len())
        + b.subrange(pos + e1.len(), pos + e1.len() + e2.len()));
}

proof fn lemma_bytes_u64(b0: u8, b1: u8, b2: u8, b3: u8, b4: u8, b5: u8, b6: u8, b7: u8, x: u64)
    by (bit_vector)
    requires
        x == (b0 as u64) | (b1 as u64) << 8u64 | (b2 as u64) << 16u64 | (b3 as u64) << 24u64 | (b4
            as u64) << 32u64 | (b5 as u64) << 40u64 | (b6 as u64) << 48u64 | (b7 as u64) << 56u64,
    ensures
        (x & 0xff) as u8 == b0,
        ((x >> 8u64) & 0xff) as u8 == b1,
        ((x >> 16u64) & 0xff) as u8 == b2,
        ((x >> 24u64) & 0xff) as u8 == b3,
        ((x >> 32u64) & 0xff) as u8 == b4,
        ((x >> 40u64) & 0xff) as u8 == b5,
        ((x >> 48u64) & 0xff) as u8 == b6,
        ((x >> 56u64) & 0xff) as u8 == b7,
{
}

proof fn lemma_u64_i64_cast(x: u64)
    by (bit_vector)
    ensures
        (x as i64) as u64 == x,
{
}

proof fn lemma_u64_bytes(x: u64)
    by (bit_vector)
    ensures
        ((((x & 0xff) as u8) as u64) | ((((x >> 8u64) & 0xff) as u8) as u64) << 8u64 | ((((x
            >> 16u64) & 0xff) as u8) as u64) << 16u64 | ((((x >> 24u64) & 0xff) as u8) as u64)
            << 24u64 | ((((x >> 32u64) & 0xff) as u8) as u64) << 32u64 | ((((x >> 40u64) & 0xff)
            as u8) as u64) << 40u64 | ((((x >> 48u64) & 0xff) as u8) as u64) << 48u64 | ((((x
            >> 56u64) & 0xff) as u8) as u64) << 56u64) == x,
{
}

proof fn lemma_i64_cast(y: i64)
    by (bit_vector)
    ensures
        (y as u64) as i64 == y,
{
}

fn put_u64(out: &mut Vec<u8>, x: u64)
    ensures
        final(out)@ == old(out)@ + enc_u64(x),
{
    out.push((x & 0xff) as u8);
    out.push(((x >> 8u64) & 0xff) as u8);
    out.push(((x >> 16u64) & 0xff) as u8);
    out.push(((x >> 24u64) & 0xff) as u8);
    out.push(((x >> 32u64) & 0xff) as u8);
    out.push(((x >> 40u64) & 0xff) as u8);
    out.push(((x >> 48u64) & 0xff) as u8);
    out.push(((x >> 56u64) & 0xff) as u8);
    assert(final(out)@ =~= old(out)@ + enc_u64(x));
}

fn read_u64(b: &Vec<u8>, pos: usize) -> (r: Option<(u64, usize)>)
    ensures
        r matches Some((_, p)) ==> p == pos + 8 && p <= b@.len(),
        r matches Some((x, _)) ==> at(b@, pos as int, enc_u64(x)),
        forall|x: u64| #[trigger]
            at(b@, pos as int, enc_u64(x)) ==> r == Some::<(u64, usize)>((x, (pos + 8) as usize)),
{
    if pos > b.len() || b.len() - pos < 8 {
        return None;
    }
    let x = (b[pos] as u64) | (b[pos + 1] as u64) << 8u64 | (b[pos + 2] as u64) << 16u64 | (b[pos
        + 3] as u64) << 24u64 | (b[pos + 4] as u64) << 32u64 | (b[pos + 5] as u64) << 40u64 | (b[pos
        + 6] as u64) << 48u64 | (b[pos + 7] as u64) << 56u64;
    proof {
        assert forall|y: u64| #[trigger] at(b@, pos as int, enc_u64(y)) implies x == y by {
            let e = enc_u64(y);
            assert forall|k: int| 0 <= k < 8 implies b@[pos + k] == e[k] by {
                assert(b@.subrange(pos as int, pos + 8)[k] == b@[pos + k]);
            }
            lemma_u64_bytes(y);
        }
        lemma_bytes_u64(
            b@[pos as int],
            b@[pos + 1],
            b@[pos + 2],
            b@[pos + 3],
            b@[pos + 4],
            b@[pos + 5],
            b@[pos + 6],
            b@[pos + 7],
            x,
        );
        assert(b@.subrange(pos as int, pos + 8) =~= enc_u64(x));
    }
    Some((x, pos + 8))
}

pub open spec fn enc_str(s: Seq<char>) -> Seq<u8> {
    enc_u64(encode_utf8(s).len() as u64) + encode_utf8(s)
}

fn put_i64(out: &mut Vec<u8>, x: i64)
    ensures
        final(out)@ == old(out)@ + enc_i64(x),
{
    put_u64(out, x as u64);
}

fn read_i64(b: &Vec<u8>, pos: usize) -> (r: Option<(i64, usize)>)
    ensures
        r matches Some((_, p)) ==> p == pos + 8 && p <= b@.len(),
        r matches Some((x, _)) ==> at(b@, pos as int, enc_i64(x)),
        forall|x: i64| #[trigger]
            at(b@, pos as int, enc_i64(x)) ==> r == Some::<(i64, usize)>((x, (pos + 8) as usize)),
{
    match read_u64(b, pos) {
        None => {
            proof {
                assert forall|y: i64| #[trigger] at(b@, pos as int, enc_i64(y)) implies false by {
                    assert(at(b@, pos as int, enc_u64(y as u64)));
                }
            }
            None
        },
        Some((x, p)) => {
            proof {
                assert forall|y: i64| #[trigger] at(b@, pos as int, enc_i64(y)) implies x as i64 == y by {
                    assert(at(b@, pos as int, enc_u64(y as u64)));
                    lemma_i64_cast(y);
                }
                lemma_u64_i64_cast(x);
            }
            Some((x as i64, p))
        },
    }
}

fn read_i16(b: &Vec<u8>, pos: usize) -> (r: Option<(i16, usize)>)
    ensures
        r matches Some((_, p)) ==> p == pos + 8 && p <= b@.len(),
        r matches Some((x, _)) ==> at(b@, pos as int, enc_i64(x as i64)),
        forall|x: i16| #[trigger]
            at(b@, pos as int, enc_i64(x as i64)) ==> r == Some::<(i16, usize)>(
                (x, (pos + 8) as usize),
            ),
{
    match read_i64(b, pos) {
        None => None,
        Some((x, p)) => {
            if x < -32768 || x > 32767 {
                return None;
            }
            Some((x as i16, p))
        },
    }
}

fn read_u32(b: &Vec<u8>, pos: usize) -> (r: Option<(u32, usize)>)
    ensures
        r matches Some((_, p)) ==> p == pos + 8 && p <= b@.len(),
        r matches Some((x, _)) ==> at(b@, pos as int, enc_u64(x as u64)),
        forall|x: u32| #[trigger]
            at(b@, pos as int, enc_u64(x as u64)) ==> r == Some::<(u32, usize)>(
                (x, (pos + 8) as usize),
            ),
{
    match read_u64(b, pos) {
        None => None,
        Some((x, p)) => {
            if x > 0xffff_ffff {
                return None;
            }
            Some((x as u32, p))
        },
    }
}

fn put_str(out: &mut Vec<u8>, s: &String)
    ensures
        final(out)@ == old(out)@ + enc_str(s@),
{
    let bytes = s.as_str().as_bytes();
    let ghost e = encode_utf8(s@);
    assert(bytes@ == e);
    put_u64(out, bytes.len() as u64);
    let ghost start = out@;
    let mut i: usize = 0;
    while i < bytes.len()
        invariant
            i <= bytes@.len(),
            bytes@ == e,
            out@ == start + e.take(i as int),
        decreases bytes@.len() - i,
    {
        out.push(bytes[i]);
        i += 1;
        assert(out@ =~= start + e.take(i as int));
    }
    assert(e.take(i as int) =~= e);
    assert(out@ =~= old(out)@ + enc_str(s@));
}

fn read_str(b: &Vec<u8>, pos: usize) -> (r: Option<(String, usize)>)
    ensures
        r matches Some((_, p)) ==> pos < p <= b@.len(),
        r matches Some((t, p)) ==> at(b@, pos as int, enc_str(t@)) && p == pos + enc_str(t@).len(),
        forall|s: Seq<char>| #[trigger]
            at(b@, pos as int, enc_str(s)) ==> (r matches Some((t, q)) && t@ == s && q == pos
                + enc_str(s).len()),
{
    let (n, p) = match read_u64(b, pos) {
        None => {
            proof {
                assert forall|s: Seq<char>| #[trigger] at(b@, pos as int, enc_str(s)) implies false by {
                    lemma_at_split(b@, pos as int, enc_u64(encode_utf8(s).len() as u64), encode_utf8(s));
                }
            }
            return None;
        },
        Some(np) => np,
    };
    if n > (b.len() - p) as u64 {
        proof {
            assert forall|s: Seq<char>| #[trigger] at(b@, pos as int, enc_str(s)) implies false by {
                lemma_at_split(b@, pos as int, enc_u64(encode_utf8(s).len() as u64), encode_utf8(s));
            }
        }
        return None;
    }
    let end = p + n as usize;
    let mut buf: Vec<u8> = Vec::new();
    let mut i: usize = p;
    while i < end
        invariant
            p <= i <= end <= b@.len(),
            buf@ == b@.subrange(p as int, i as int),
        decreases end - i,
    {
        buf.push(b[i]);
        i += 1;
        assert(buf@ =~= b@.subrange(p as int, i as int));
    }
    proof {
        assert forall|s: Seq<char>| #[trigger] at(b@, pos as int, enc_str(s)) implies valid_utf8(buf@)
            && decode_utf8(buf@) == s && end == pos + enc_str(s).len() by {
            let e = encode_utf8(s);
            lemma_at_split(b@, pos as int, enc_u64(e.len() as u64), e);
            assert(n == e.len() as u64);
            assert(buf@ =~= e);
            encode_utf8_valid_utf8(s);
            encode_utf8_decode_utf8(s);
        }
    }
    match utf8_text(&buf) {
        None => None,
        Some(t) => {
            proof {
                decode_utf8_encode_utf8(buf@);
                assert(encode_utf8(t@) == buf@);
                assert(at(b@, p as int, buf@));
                lemma_at_join(b@, pos as int, enc_u64(n), buf@);
            }
            Some((t, end))
        },
    }
}

pub open spec fn enc_task(t: TaskView) -> Seq<u8> {
    enc_str(t.title) + enc_str(t.description) + enc_i64(t.factor)
}

pub open spec fn enc_active(a: ActiveTaskView) -> Seq<u8> {
    enc_task(a.task) + enc_i64(a.due)
}

pub open spec fn enc_pooled(p: PooledTaskView) -> Seq<u8> {
    enc_task(p.task) + enc_u64(p.probability as u64) + enc_i64(p.cool_down as i64) + enc_i64(
        p.due_days as i64,
    ) + enc_i64(p.cooling_until)
}

/// The encodings of the items of `s`, one after the other.
pub open spec fn enc_items<T>(s: Seq<T>, f: spec_fn(T) -> Seq<u8>) -> Seq<u8>
    decreases s.len(),
{
    if s.len() == 0 {
        Seq::empty()
    } else {
        f(s[0]) + enc_items(s.drop_first(), f)
    }
}

/// The number of items, then their encodings.
pub open spec fn enc_list<T>(s: Seq<T>, f: spec_fn(T) -> Seq<u8>) -> Seq<u8> {
    enc_u64(s.len() as u64) + enc_items(s, f)
}

proof fn lemma_items_step<T>(s: Seq<T>, f: spec_fn(T) -> Seq<u8>, i: int)
    requires
        0 <= i < s.len(),
    ensures
        enc_items(s.skip(i), f) == f(s[i]) + enc_items(s.skip(i + 1), f),
{
    assert(s.skip(i).drop_first() =~= s.skip(i + 1));
}

proof fn lemma_items_push<T>(s: Seq<T>, x: T, f: spec_fn(T) -> Seq<u8>)
    ensures
        enc_items(s.push(x), f) == enc_items(s, f) + f(x),
    decreases s.len(),
{
    if s.len() == 0 {
        assert(s.push(x).drop_first() =~= Seq::<T>::empty());
        assert(s.push(x)[0] == x);
        assert(enc_items(s.push(x).drop_first(), f) =~= Seq::<u8>::empty());
        assert(enc_items(s, f) =~= Seq::<u8>::empty());
        assert(enc_items(s.push(x), f) =~= enc_items(s, f) + f(x));
    } else {
        lemma_items_push(s.drop_first(), x, f);
        assert(s.push(x).drop_first() =~= s.drop_first().push(x));
        assert(enc_items(s.push(x), f) =~= enc_items(s, f) + f(x));
    }
}

proof fn lemma_items_len<T>(s: Seq<T>, f: spec_fn(T) -> Seq<u8>)
    requires
        forall|x: T| #[trigger] f(x).len() >= 1,
    ensures
        enc_items(s, f).len() >= s.len(),
    decreases s.len(),
{
    if s.len() > 0 {
        lemma_items_len(s.drop_first(), f);
        assert(f(s[0]).len() >= 1);
    }
}

proof fn lemma_task_parts(b: Seq<u8>, pos: int, t: TaskView)
    requires
        at(b, pos, enc_task(t)),
    ensures
        at(b, pos, enc_str(t.title)),
        at(b, pos + enc_str(t.title).len(), enc_str(t.description)),
        at(b, pos + enc_str(t.title).len() + enc_str(t.description).len(), enc_i64(t.factor)),
{
    lemma_at_split(b, pos, enc_str(t.title) + enc_str(t.description), enc_i64(t.factor));
    lemma_at_split(b, pos, enc_str(t.title), enc_str(t.description));
}

fn put_task(out: &mut Vec<u8>, t: &Task)
    ensures
        final(out)@ == old(out)@ + enc_task(t@),
{
    put_str(out, &t.title);
    put_str(out, &t.description);
    put_i64(out, t.factor);
    assert(final(out)@ =~= old(out)@ + enc_task(t@));
}

fn read_task(b: &Vec<u8>, pos: usize) -> (r: Option<(Task, usize)>)
    ensures
        r matches Some((_, p)) ==> pos < p <= b@.len(),
        r matches Some((x, p)) ==> at(b@, pos as int, enc_task(x@)) && p == pos + enc_task(x@).len(),
        forall|t: TaskView| #[trigger]
            at(b@, pos as int, enc_task(t)) ==> (r matches Some((x, q)) && x@ == t && q == pos
                + enc_task(t).len()),
{
    let (title, p1) = match read_str(b, pos) {
        None => {
            proof {
                assert forall|t: TaskView| #[trigger] at(b@, pos as int, enc_task(t)) implies false by {
                    lemma_task_parts(b@, pos as int, t);
                }
            }
            return None;
        },
        Some(v) => v,
    };
    let (description, p2) = match read_str(b, p1) {
        None => {
            proof {
                assert forall|t: TaskView| #[trigger] at(b@, pos as int, enc_task(t)) implies false by {
                    lemma_task_parts(b@, pos as int, t);
                }
            }
            return None;
        },
        Some(v) => v,
    };
    let (factor, p3) = match read_i64(b, p2) {
        None => {
            proof {
                assert forall|t: TaskView| #[trigger] at(b@, pos as int, enc_task(t)) implies false by {
                    lemma_task_parts(b@, pos as int, t);
                }
            }
            return None;
        },
        Some(v) => v,
    };
    proof {
        assert forall|t: TaskView| #[trigger] at(b@, pos as int, enc_task(t)) implies title@
            == t.title && description@ == t.description && factor == t.factor && p3 == pos
            + enc_task(t).len() by {
            lemma_task_parts(b@, pos as int, t);
        }
    }
    proof {
        lemma_at_join(b@, pos as int, enc_str(title@), enc_str(description@));
        lemma_at_join(b@, pos as int, enc_str(title@) + enc_str(description@), enc_i64(factor));
    }
    Some((Task { title, description, factor }, p3))
}

fn put_active(out: &mut Vec<u8>, a: &ActiveTask)
    ensures
        final(out)@ == old(out)@ + enc_active(a@),
{
    put_task(out, &a.task);
    put_i64(out, a.due);
    assert(final(out)@ =~= old(out)@ + enc_active(a@));
}

fn read_active(b: &Vec<u8>, pos: usize) -> (r: Option<(ActiveTask, usize)>)
    ensures
        r matches Some((_, p)) ==> pos < p <= b@.len(),
        r matches Some((x, p)) ==> at(b@, pos as int, enc_active(x@)) && p == pos + enc_active(x@).len(),
        forall|a: ActiveTaskView| #[trigger]
            at(b@, pos as int, enc_active(a)) ==> (r matches Some((x, q)) && x@ == a && q == pos
                + enc_active(a).len()),
{
    let (task, p1) = match read_task(b, pos) {
        None => {
            proof {
                assert forall|a: ActiveTaskView| #[trigger] at(b@, pos as int, enc_active(a)) implies false by {
                    lemma_at_split(b@, pos as int, enc_task(a.task), enc_i64(a.due));
                }
            }
            return None;
        },
        Some(v) => v,
    };
    let (due, p2) = match read_i64(b, p1) {
        None => {
            proof {
                assert forall|a: ActiveTaskView| #[trigger] at(b@, pos as int, enc_active(a)) implies false by {
                    lemma_at_split(b@, pos as int, enc_task(a.task), enc_i64(a.due));
                }
            }
            return None;
        },
        Some(v) => v,
    };
    proof {
        assert forall|a: ActiveTaskView| #[trigger] at(b@, pos as int, enc_active(a)) implies task@
            == a.task && due == a.due && p2 == pos + enc_active(a).len() by {
            lemma_at_split(b@, pos as int, enc_task(a.task), enc_i64(a.due));
        }
    }
    proof {
        lemma_at_join(b@, pos as int, enc_task(task@), enc_i64(due));
    }
    Some((ActiveTask { task, due }, p2))
}

proof fn lemma_pooled_parts(b: Seq<u8>, pos: int, p: PooledTaskView)
    requires
        at(b, pos, enc_pooled(p)),
    ensures
        at(b, pos, enc_task(p.task)),
        at(b, pos + enc_task(p.task).len(), enc_u64(p.probability as u64)),
        at(b, pos + enc_task(p.task).len() + 8, enc_i64(p.cool_down as i64)),
        at(b, pos + enc_task(p.task).len() + 16, enc_i64(p.due_days as i64)),
        at(b, pos + enc_task(p.task).len() + 24, enc_i64(p.cooling_until)),
{
    let e0 = enc_task(p.task);
    let e1 = enc_u64(p.probability as u64);
    let e2 = enc_i64(p.cool_down as i64);
    let e3 = enc_i64(p.due_days as i64);
    let e4 = enc_i64(p.cooling_until);
    lemma_at_split(b, pos, e0 + e1 + e2 + e3, e4);
    lemma_at_split(b, pos, e0 + e1 + e2, e3);
    lemma_at_split(b, pos, e0 + e1, e2);
    lemma_at_split(b, pos, e0, e1);
}

proof fn lemma_pooled_join(b: Seq<u8>, pos: int, p: PooledTaskView)
    requires
        at(b, pos, enc_task(p.task)),
        at(b, pos + enc_task(p.task).len(), enc_u64(p.probability as u64)),
        at(b, pos + enc_task(p.task).len() + 8, enc_i64(p.cool_down as i64)),
        at(b, pos + enc_task(p.task).len() + 16, enc_i64(p.due_days as i64)),
        at(b, pos + enc_task(p.task).len() + 24, enc_i64(p.cooling_until)),
    ensures
        at(b, pos, enc_pooled(p)),
{
    let e0 = enc_task(p.task);
    let e1 = enc_u64(p.probability as u64);
    let e2 = enc_i64(p.cool_down as i64);
    let e3 = enc_i64(p.due_days as i64);
    let e4 = enc_i64(p.cooling_until);
    lemma_at_join(b, pos, e0, e1);
    lemma_at_join(b, pos, e0 + e1, e2);
    lemma_at_join(b, pos, e0 + e1 + e2, e3);
    lemma_at_join(b, pos, e0 + e1 + e2 + e3, e4);
}

fn put_pooled(out: &mut Vec<u8>, p: &PooledTask)
    ensures
        final(out)@ == old(out)@ + enc_pooled(p@),
{
    put_task(out, &p.task);
    put_u64(out, p.probability as u64);
    put_i64(out, p.cool_down as i64);
    put_i64(out, p.due_days as i64);
    put_i64(out, p.cooling_until);
    assert(final(out)@ =~= old(out)@ + enc_pooled(p@));
}

fn read_pooled(b: &Vec<u8>, pos: usize) -> (r: Option<(PooledTask, usize)>)
    ensures
        r matches Some((_, p)) ==> pos < p <= b@.len(),
        r matches Some((x, p)) ==> at(b@, pos as int, enc_pooled(x@)) && p == pos + enc_pooled(x@).len(),
        forall|v: PooledTaskView| #[trigger]
            at(b@, pos as int, enc_pooled(v)) ==> (r matches Some((x, q)) && x@ == v && q == pos
                + enc_pooled(v).len()),
{
    let (task, p1) = match read_task(b, pos) {
        None => {
            proof {
                assert forall|v: PooledTaskView| #[trigger] at(b@, pos as int, enc_pooled(v)) implies false by {
                    lemma_pooled_parts(b@, pos as int, v);
                }
            }
            return None;
        },
        Some(v) => v,
    };
    let (probability, p2) = match read_u32(b, p1) {
        None => {
            proof {
                assert forall|v: PooledTaskView| #[trigger] at(b@, pos as int, enc_pooled(v)) implies false by {
                    lemma_pooled_parts(b@, pos as int, v);
                }
            }
            return None;
        },
        Some(v) => v,
    };
    let (cool_down, p3) = match read_i16(b, p2) {
        None => {
            proof {
                assert forall|v: PooledTaskView| #[trigger] at(b@, pos as int, enc_pooled(v)) implies false by {
                    lemma_pooled_parts(b@, pos as int, v);
                }
            }
            return None;
        },
        Some(v) => v,
    };
    let (due_days, p4) = match read_i16(b, p3) {
        None => {
            proof {
                assert forall|v: PooledTaskView| #[trigger] at(b@, pos as int, enc_pooled(v)) implies false by {
                    lemma_pooled_parts(b@, pos as int, v);
                }
            }
            return None;
        },
        Some(v) => v,
    };
    let (cooling_until, p5) = match read_i64(b, p4) {
        None => {
            proof {
                assert forall|v: PooledTaskView| #[trigger] at(b@, pos as int, enc_pooled(v)) implies false by {
                    lemma_pooled_parts(b@, pos as int, v);
                }
            }
            return None;
        },
        Some(v) => v,
    };
    proof {
        assert forall|v: PooledTaskView| #[trigger] at(b@, pos as int, enc_pooled(v)) implies task@
            == v.task && probability == v.probability && cool_down == v.cool_down && due_days
            == v.due_days && cooling_until == v.cooling_until && p5 == pos + enc_pooled(v).len() by {
            lemma_pooled_parts(b@, pos as int, v);
        }
    }
    proof {
        lemma_pooled_join(b@, pos as int, PooledTaskView {
            task: task@,
            probability,
            cool_down,
            due_days,
            cooling_until,
        });
    }
    Some((PooledTask { task, probability, cool_down, due_days, cooling_until }, p5))
}

pub open spec fn active_enc() -> spec_fn(ActiveTaskView) -> Seq<u8> {
    |x: ActiveTaskView| enc_active(x)
}

fn put_active_list(out: &mut Vec<u8>, v: &Vec<ActiveTask>)
    ensures
        final(out)@ == old(out)@ + enc_list(actives_view(v@), active_enc()),
{
    let ghost s = actives_view(v@);
    put_u64(out, v.len() as u64);
    let ghost start = out@;
    let mut i: usize = 0;
    assert(s.skip(0) =~= s);
    while i < v.len()
        invariant
            i <= v@.len(),
            s == actives_view(v@),
            out@ + enc_items(s.skip(i as int), active_enc()) == start + enc_items(s, active_enc()),
        decreases v@.len() - i,
    {
        proof {
            lemma_items_step(s, active_enc(), i as int);
        }
        let ghost before = out@;
        put_active(out, &v[i]);
        assert(v@[i as int]@ == s[i as int]);
        assert(out@ + enc_items(s.skip(i + 1), active_enc()) =~= before + enc_items(
            s.skip(i as int),
            active_enc(),
        ));
        i += 1;
    }
    assert(enc_items(s.skip(i as int), active_enc()) =~= Seq::<u8>::empty()) by {
        assert(s.skip(i as int).len() == 0);
    }
    assert(out@ =~= start + enc_items(s, active_enc()));
    assert(final(out)@ =~= old(out)@ + enc_list(s, active_enc()));
}

#[verifier::rlimit(50)]
fn read_active_list(b: &Vec<u8>, pos: usize) -> (r: Option<(Vec<ActiveTask>, usize)>)
    ensures
        r matches Some((_, p)) ==> pos < p <= b@.len(),
        r matches Some((x, p)) ==> at(b@, pos as int, enc_list(actives_view(x@), active_enc())) && p == pos
            + enc_list(actives_view(x@), active_enc()).len(),
        forall|s: Seq<ActiveTaskView>| #[trigger]
            at(b@, pos as int, enc_list(s, active_enc())) ==> (r matches Some((x, q)) && actives_view(x@)
                == s && q == pos + enc_list(s, active_enc()).len()),
{
    let (n, p0) = match read_u64(b, pos) {
        None => {
            proof {
                assert forall|s: Seq<ActiveTaskView>| #[trigger] at(b@, pos as int, enc_list(s, active_enc())) implies false by {
                    lemma_at_split(b@, pos as int, enc_u64(s.len() as u64), enc_items(s, active_enc()));
                }
            }
            return None;
        },
        Some(v) => v,
    };
    let blen = b.len();
    let mut out: Vec<ActiveTask> = Vec::new();
    proof {
        assert(actives_view(out@) =~= Seq::<ActiveTaskView>::empty());
        assert(b@.subrange(p0 as int, p0 as int) =~= Seq::<u8>::empty());
    }
    let mut p: usize = p0;
    let mut i: u64 = 0;
    proof {
        assert forall|s: Seq<ActiveTaskView>| #[trigger] at(b@, pos as int, enc_list(s, active_enc())) implies n
            == s.len() && at(b@, p0 as int, enc_items(s.skip(0), active_enc())) && actives_view(out@) == s.take(0)
            && p0 + enc_items(s.skip(0), active_enc()).len() == pos + enc_list(s, active_enc()).len() by {
            assert(actives_view(out@) =~= s.take(0));
            lemma_at_split(b@, pos as int, enc_u64(s.len() as u64), enc_items(s, active_enc()));
            assert(s.skip(0) =~= s);
            assert forall|x| #[trigger] active_enc()(x).len() >= 1 by {
                assert(active_enc()(x) == enc_active(x));
            }
            lemma_items_len(s, active_enc());
        }
    }
    while i < n
        invariant
            pos < p0 <= p <= b@.len(),
            i <= n,
            out@.len() == i,
            at(b@, pos as int, enc_u64(n)),
            at(b@, p0 as int, enc_items(actives_view(out@), active_enc())),
            p == p0 + enc_items(actives_view(out@), active_enc()).len(),
            forall|s: Seq<ActiveTaskView>| #[trigger]
                at(b@, pos as int, enc_list(s, active_enc())) ==> n == s.len() && actives_view(out@)
                    == s.take(i as int) && at(b@, p as int, enc_items(s.skip(i as int), active_enc()))
                    && p + enc_items(s.skip(i as int), active_enc()).len() == pos + enc_list(
                    s,
                    active_enc(),
                ).len(),
        decreases n - i,
    {
        match read_active(b, p) {
            None => {
                proof {
                    assert forall|s: Seq<ActiveTaskView>| #[trigger] at(b@, pos as int, enc_list(s, active_enc())) implies false by {
                        lemma_items_step(s, active_enc(), i as int);
                        lemma_at_split(b@, p as int, enc_active(s[i as int]), enc_items(s.skip(i + 1), active_enc()));
                    }
                }
                return None;
            },
            Some((x, q)) => {
                proof {
                    assert forall|s: Seq<ActiveTaskView>| #[trigger] at(b@, pos as int, enc_list(s, active_enc())) implies x@
                        == s[i as int] && at(b@, q as int, enc_items(s.skip(i + 1), active_enc()))
                        && q + enc_items(s.skip(i + 1), active_enc()).len() == pos + enc_list(
                        s,
                        active_enc(),
                    ).len() by {
                        lemma_items_step(s, active_enc(), i as int);
                        lemma_at_split(b@, p as int, enc_active(s[i as int]), enc_items(s.skip(i + 1), active_enc()));
                    }
                }
                let ghost before = out@;
                out.push(x);
                proof {
                    assert(actives_view(out@) =~= actives_view(before).push(x@));
                    lemma_items_push(actives_view(before), x@, active_enc());
                    assert(active_enc()(x@) == enc_active(x@));
                    lemma_at_join(b@, p0 as int, enc_items(actives_view(before), active_enc()), enc_active(x@));
                }
                proof {
                    assert forall|s: Seq<ActiveTaskView>| #[trigger] at(b@, pos as int, enc_list(s, active_enc())) implies actives_view(out@)
                        == s.take(i + 1) by {
                        assert(actives_view(out@) =~= s.take(i + 1));
                    }
                }
                p = q;
                i = i + 1;
            },
        }
    }
    proof {
        assert forall|s: Seq<ActiveTaskView>| #[trigger] at(b@, pos as int, enc_list(s, active_enc())) implies actives_view(out@)
            == s && p == pos + enc_list(s, active_enc()).len() by {
            assert(s.take(i as int) =~= s);
            assert(s.skip(i as int).len() == 0);
            assert(enc_items(s.skip(i as int), active_enc()).len() == 0);
        }
    }
    proof {
        assert(actives_view(out@).len() == n);
        lemma_at_join(b@, pos as int, enc_u64(n), enc_items(actives_view(out@), active_enc()));
    }
    Some((out, p))
}

pub open spec fn pooled_enc() -> spec_fn(PooledTaskView) -> Seq<u8> {
    |x: PooledTaskView| enc_pooled(x)
}

fn put_pooled_list(out: &mut Vec<u8>, v: &Vec<PooledTask>)
    ensures
        final(out)@ == old(out)@ + enc_list(pooled_view(v@), pooled_enc()),
{
    let ghost s = pooled_view(v@);
    put_u64(out, v.len() as u64);
    let ghost start = out@;
    let mut i: usize = 0;
    assert(s.skip(0) =~= s);
    while i < v.len()
        invariant
            i <= v@.len(),
            s == pooled_view(v@),
            out@ + enc_items(s.skip(i as int), pooled_enc()) == start + enc_items(s, pooled_enc()),
        decreases v@.len() - i,
    {
        proof {
            lemma_items_step(s, pooled_enc(), i as int);
        }
        let ghost before = out@;
        put_pooled(out, &v[i]);
        assert(v@[i as int]@ == s[i as int]);
        assert(out@ + enc_items(s.skip(i + 1), pooled_enc()) =~= before + enc_items(
            s.skip(i as int),
            pooled_enc(),
        ));
        i += 1;
    }
    assert(enc_items(s.skip(i as int), pooled_enc()) =~= Seq::<u8>::empty()) by {
        assert(s.skip(i as int).len() == 0);
    }
    assert(out@ =~= start + enc_items(s, pooled_enc()));
    assert(final(out)@ =~= old(out)@ + enc_list(s, pooled_enc()));
}

#[verifier::rlimit(50)]
fn read_pooled_list(b: &Vec<u8>, pos: usize) -> (r: Option<(Vec<PooledTask>, usize)>)
    ensures
        r matches Some((_, p)) ==> pos < p <= b@.len(),
        r matches Some((x, p)) ==> at(b@, pos as int, enc_list(pooled_view(x@), pooled_enc())) && p == pos
            + enc_list(pooled_view(x@), pooled_enc()).len(),
        forall|s: Seq<PooledTaskView>| #[trigger]
            at(b@, pos as int, enc_list(s, pooled_enc())) ==> (r matches Some((x, q)) && pooled_view(x@)
                == s && q == pos + enc_list(s, pooled_enc()).len()),
{
    let (n, p0) = match read_u64(b, pos) {
        None => {
            proof {
                assert forall|s: Seq<PooledTaskView>| #[trigger] at(b@, pos as int, enc_list(s, pooled_enc())) implies false by {
                    lemma_at_split(b@, pos as int, enc_u64(s.len() as u64), enc_items(s, pooled_enc()));
                }
            }
            return None;
        },
        Some(v) => v,
    };
    let blen = b.len();
    let mut out: Vec<PooledTask> = Vec::new();
    proof {
        assert(pooled_view(out@) =~= Seq::<PooledTaskView>::empty());
        assert(b@.subrange(p0 as int, p0 as int) =~= Seq::<u8>::empty());
    }
    let mut p: usize = p0;
    let mut i: u64 = 0;
    proof {
        assert forall|s: Seq<PooledTaskView>| #[trigger] at(b@, pos as int, enc_list(s, pooled_enc())) implies n
            == s.len() && at(b@, p0 as int, enc_items(s.skip(0), pooled_enc())) && pooled_view(out@) == s.take(0)
            && p0 + enc_items(s.skip(0), pooled_enc()).len() == pos + enc_list(s, pooled_enc()).len() by {
            assert(pooled_view(out@) =~= s.take(0));
            lemma_at_split(b@, pos as int, enc_u64(s.len() as u64), enc_items(s, pooled_enc()));
            assert(s.skip(0) =~= s);
            assert forall|x| #[trigger] pooled_enc()(x).len() >= 1 by {
                assert(pooled_enc()(x) == enc_pooled(x));
            }
            lemma_items_len(s, pooled_enc());
        }
    }
    while i < n
        invariant
            pos < p0 <= p <= b@.len(),
            i <= n,
            out@.len() == i,
            at(b@, pos as int, enc_u64(n)),
            at(b@, p0 as int, enc_items(pooled_view(out@), pooled_enc())),
            p == p0 + enc_items(pooled_view(out@), pooled_enc()).len(),
            forall|s: Seq<PooledTaskView>| #[trigger]
                at(b@, pos as int, enc_list(s, pooled_enc())) ==> n == s.len() && pooled_view(out@)
                    == s.take(i as int) && at(b@, p as int, enc_items(s.skip(i as int), pooled_enc()))
                    && p + enc_items(s.skip(i as int), pooled_enc()).len() == pos + enc_list(
                    s,
                    pooled_enc(),
                ).len(),
        decreases n - i,
    {
        match read_pooled(b, p) {
            None => {
                proof {
                    assert forall|s: Seq<PooledTaskView>| #[trigger] at(b@, pos as int, enc_list(s, pooled_enc())) implies false by {
                        lemma_items_step(s, pooled_enc(), i as int);
                        lemma_at_split(b@, p as int, enc_pooled(s[i as int]), enc_items(s.skip(i + 1), pooled_enc()));
                    }
                }
                return None;
            },
            Some((x, q)) => {
                proof {
                    assert forall|s: Seq<PooledTaskView>| #[trigger] at(b@, pos as int, enc_list(s, pooled_enc())) implies x@
                        == s[i as int] && at(b@, q as int, enc_items(s.skip(i + 1), pooled_enc()))
                        && q + enc_items(s.skip(i + 1), pooled_enc()).len() == pos + enc_list(
                        s,
                        pooled_enc(),
                    ).len() by {
                        lemma_items_step(s, pooled_enc(), i as int);
                        lemma_at_split(b@, p as int, enc_pooled(s[i as int]), enc_items(s.skip(i + 1), pooled_enc()));
                    }
                }
                let ghost before = out@;
                out.push(x);
                proof {
                    assert(pooled_view(out@) =~= pooled_view(before).push(x@));
                    lemma_items_push(pooled_view(before), x@, pooled_enc());
                    assert(pooled_enc()(x@) == enc_pooled(x@));
                    lemma_at_join(b@, p0 as int, enc_items(pooled_view(before), pooled_enc()), enc_pooled(x@));
                }
                proof {
                    assert forall|s: Seq<PooledTaskView>| #[trigger] at(b@, pos as int, enc_list(s, pooled_enc())) implies pooled_view(out@)
                        == s.take(i + 1) by {
                        assert(pooled_view(out@) =~= s.take(i + 1));
                    }
                }
                p = q;
                i = i + 1;
            },
        }
    }
    proof {
        assert forall|s: Seq<PooledTaskView>| #[trigger] at(b@, pos as int, enc_list(s, pooled_enc())) implies pooled_view(out@)
            == s && p == pos + enc_list(s, pooled_enc()).len() by {
            assert(s.take(i as int) =~= s);
            assert(s.skip(i as int).len() == 0);
            assert(enc_items(s.skip(i as int), pooled_enc()).len() == 0);
        }
    }
    proof {
        assert(pooled_view(out@).len() == n);
        lemma_at_join(b@, pos as int, enc_u64(n), enc_items(pooled_view(out@), pooled_enc()));
    }
    Some((out, p))
}

pub open spec fn enc_action(a: TaskActionView) -> Seq<u8> {
    match a {
        TaskActionView::ScheduleTask(t) => seq![0u8] + enc_active(t),
        TaskActionView::PoolTask(p) => seq![1u8] + enc_pooled(p),
        TaskActionView::CompleteTask(t) => seq![2u8] + enc_active(t),
        TaskActionView::ActivateTask(v) => seq![3u8] + enc_list(v, active_enc()),
    }
}

proof fn lemma_tagged(b: Seq<u8>, pos: int, tag: u8, e: Seq<u8>)
    requires
        at(b, pos, seq![tag] + e),
    ensures
        b[pos] == tag,
        at(b, pos + 1, e),
{
    lemma_at_split(b, pos, seq![tag], e);
    assert(b.subrange(pos, pos + 1)[0] == b[pos]);
}

fn put_action(out: &mut Vec<u8>, a: &TaskAction)
    ensures
        final(out)@ == old(out)@ + enc_action(a@),
{
    match a {
        TaskAction::ScheduleTask(t) => {
            out.push(0u8);
            put_active(out, t);
        },
        TaskAction::PoolTask(p) => {
            out.push(1u8);
            put_pooled(out, p);
        },
        TaskAction::CompleteTask(t) => {
            out.push(2u8);
            put_active(out, t);
        },
        TaskAction::ActivateTask(v) => {
            out.push(3u8);
            put_active_list(out, v);
        },
    }
    assert(final(out)@ =~= old(out)@ + enc_action(a@));
}

#[verifier::rlimit(100)]
#[verifier::spinoff_prover]
fn read_action(b: &Vec<u8>, pos: usize) -> (r: Option<(TaskAction, usize)>)
    ensures
        r matches Some((_, p)) ==> pos < p <= b@.len(),
        r matches Some((x, p)) ==> at(b@, pos as int, enc_action(x@)) && p == pos + enc_action(x@).len(),
        forall|a: TaskActionView| #[trigger]
            at(b@, pos as int, enc_action(a)) ==> (r matches Some((x, q)) && x@ == a && q == pos
                + enc_action(a).len()),
{
    if pos >= b.len() {
        return None;
    }
    let tag = b[pos];
    if tag == 0 {
        proof {
            assert forall|a: TaskActionView| #[trigger] at(b@, pos as int, enc_action(a)) implies a is ScheduleTask && at(b@, pos + 1, enc_active(a->ScheduleTask_0)) by {
                match a {
                    TaskActionView::ScheduleTask(t) => lemma_tagged(b@, pos as int, 0u8, enc_active(t)),
                    TaskActionView::PoolTask(p) => lemma_tagged(b@, pos as int, 1u8, enc_pooled(p)),
                    TaskActionView::CompleteTask(t) => lemma_tagged(b@, pos as int, 2u8, enc_active(t)),
                    TaskActionView::ActivateTask(v) => lemma_tagged(b@, pos as int, 3u8, enc_list(v, active_enc())),
                }
            }
        }
        match read_active(b, pos + 1) {
            None => None,
            Some((t, q)) => {
                proof {
                    assert(b@.subrange(pos as int, pos + 1) =~= seq![0u8]);
                    lemma_at_join(b@, pos as int, seq![0u8], enc_active(t@));
                }
                Some((TaskAction::ScheduleTask(t), q))
            },
        }
    } else if tag == 1 {
        proof {
            assert forall|a: TaskActionView| #[trigger] at(b@, pos as int, enc_action(a)) implies a is PoolTask && at(b@, pos + 1, enc_pooled(a->PoolTask_0)) by {
                match a {
                    TaskActionView::ScheduleTask(t) => lemma_tagged(b@, pos as int, 0u8, enc_active(t)),
                    TaskActionView::PoolTask(p) => lemma_tagged(b@, pos as int, 1u8, enc_pooled(p)),
                    TaskActionView::CompleteTask(t) => lemma_tagged(b@, pos as int, 2u8, enc_active(t)),
                    TaskActionView::ActivateTask(v) => lemma_tagged(b@, pos as int, 3u8, enc_list(v, active_enc())),
                }
            }
        }
        match read_pooled(b, pos + 1) {
            None => None,
            Some((p, q)) => {
                proof {
                    assert(b@.subrange(pos as int, pos + 1) =~= seq![1u8]);
                    lemma_at_join(b@, pos as int, seq![1u8], enc_pooled(p@));
                }
                Some((TaskAction::PoolTask(p), q))
            },
        }
    } else if tag == 2 {
        proof {
            assert forall|a: TaskActionView| #[trigger] at(b@, pos as int, enc_action(a)) implies a is CompleteTask && at(b@, pos + 1, enc_active(a->CompleteTask_0)) by {
                match a {
                    TaskActionView::ScheduleTask(t) => lemma_tagged(b@, pos as int, 0u8, enc_active(t)),
                    TaskActionView::PoolTask(p) => lemma_tagged(b@, pos as int, 1u8, enc_pooled(p)),
                    TaskActionView::CompleteTask(t) => lemma_tagged(b@, pos as int, 2u8, enc_active(t)),
                    TaskActionView::ActivateTask(v) => lemma_tagged(b@, pos as int, 3u8, enc_list(v, active_enc())),
                }
            }
        }
        match read_active(b, pos + 1) {
            None => None,
            Some((t, q)) => {
                proof {
                    assert(b@.subrange(pos as int, pos + 1) =~= seq![2u8]);
                    lemma_at_join(b@, pos as int, seq![2u8], enc_active(t@));
                }
                Some((TaskAction::CompleteTask(t), q))
            },
        }
    } else if tag == 3 {
        proof {
            assert forall|a: TaskActionView| #[trigger] at(b@, pos as int, enc_action(a)) implies a is ActivateTask && at(b@, pos + 1, enc_list(a->ActivateTask_0, active_enc())) by {
                match a {
                    TaskActionView::ScheduleTask(t) => lemma_tagged(b@, pos as int, 0u8, enc_active(t)),
                    TaskActionView::PoolTask(p) => lemma_tagged(b@, pos as int, 1u8, enc_pooled(p)),
                    TaskActionView::CompleteTask(t) => lemma_tagged(b@, pos as int, 2u8, enc_active(t)),
                    TaskActionView::ActivateTask(v) => lemma_tagged(b@, pos as int, 3u8, enc_list(v, active_enc())),
                }
            }
        }
        match read_active_list(b, pos + 1) {
            None => None,
            Some((v, q)) => {
                proof {
                    assert(b@.subrange(pos as int, pos + 1) =~= seq![3u8]);
                    lemma_at_join(b@, pos as int, seq![3u8], enc_list(actives_view(v@), active_enc()));
                }
                Some((TaskAction::ActivateTask(v), q))
            },
        }
    } else {
        proof {
            assert forall|a: TaskActionView| #[trigger] at(b@, pos as int, enc_action(a)) implies false by {
                match a {
                    TaskActionView::ScheduleTask(t) => lemma_tagged(b@, pos as int, 0u8, enc_active(t)),
                    TaskActionView::PoolTask(p) => lemma_tagged(b@, pos as int, 1u8, enc_pooled(p)),
                    TaskActionView::CompleteTask(t) => lemma_tagged(b@, pos as int, 2u8, enc_active(t)),
                    TaskActionView::ActivateTask(v) => lemma_tagged(b@, pos as int, 3u8, enc_list(v, active_enc())),
                }
            }
        }
        None
    }
}

pub open spec fn enc_entry(e: LogEntryView) -> Seq<u8> {
    enc_i64(e.dttm) + enc_action(e.entry)
}

fn put_entry(out: &mut Vec<u8>, e: &LogEntry)
    ensures
        final(out)@ == old(out)@ + enc_entry(e@),
{
    put_i64(out, e.dttm);
    put_action(out, &e.entry);
    assert(final(out)@ =~= old(out)@ + enc_entry(e@));
}

fn read_entry(b: &Vec<u8>, pos: usize) -> (r: Option<(LogEntry, usize)>)
    ensures
        r matches Some((_, p)) ==> pos < p <= b@.len(),
        r matches Some((x, p)) ==> at(b@, pos as int, enc_entry(x@)) && p == pos + enc_entry(x@).len(),
        forall|e: LogEntryView| #[trigger]
            at(b@, pos as int, enc_entry(e)) ==> (r matches Some((x, q)) && x@ == e && q == pos
                + enc_entry(e).len()),
{
    let (dttm, p1) = match read_i64(b, pos) {
        None => {
            proof {
                assert forall|e: LogEntryView| #[trigger] at(b@, pos as int, enc_entry(e)) implies false by {
                    lemma_at_split(b@, pos as int, enc_i64(e.dttm), enc_action(e.entry));
                }
            }
            return None;
        },
        Some(v) => v,
    };
    let (entry, p2) = match read_action(b, p1) {
        None => {
            proof {
                assert forall|e: LogEntryView| #[trigger] at(b@, pos as int, enc_entry(e)) implies false by {
                    lemma_at_split(b@, pos as int, enc_i64(e.dttm), enc_action(e.entry));
                }
            }
            return None;
        },
        Some(v) => v,
    };
    proof {
        assert forall|e: LogEntryView| #[trigger] at(b@, pos as int, enc_entry(e)) implies dttm
            == e.dttm && entry@ == e.entry && p2 == pos + enc_entry(e).len() by {
            lemma_at_split(b@, pos as int, enc_i64(e.dttm), enc_action(e.entry));
        }
    }
    proof {
        lemma_at_join(b@, pos as int, enc_i64(dttm), enc_action(entry@));
    }
    Some((LogEntry { dttm, entry }, p2))
}

pub open spec fn entry_enc() -> spec_fn(LogEntryView) -> Seq<u8> {
    |x: LogEntryView| enc_entry(x)
}

fn put_entry_list(out: &mut Vec<u8>, v: &Vec<LogEntry>)
    ensures
        final(out)@ == old(out)@ + enc_list(entries_view(v@), entry_enc()),
{
    let ghost s = entries_view(v@);
    put_u64(out, v.len() as u64);
    let ghost start = out@;
    let mut i: usize = 0;
    assert(s.skip(0) =~= s);
    while i < v.len()
        invariant
            i <= v@.len(),
            s == entries_view(v@),
            out@ + enc_items(s.skip(i as int), entry_enc()) == start + enc_items(s, entry_enc()),
        decreases v@.len() - i,
    {
        proof {
            lemma_items_step(s, entry_enc(), i as int);
        }
        let ghost before = out@;
        put_entry(out, &v[i]);
        assert(v@[i as int]@ == s[i as int]);
        assert(out@ + enc_items(s.skip(i + 1), entry_enc()) =~= before + enc_items(
            s.skip(i as int),
            entry_enc(),
        ));
        i += 1;
    }
    assert(enc_items(s.skip(i as int), entry_enc()) =~= Seq::<u8>::empty()) by {
        assert(s.skip(i as int).len() == 0);
    }
    assert(out@ =~= start + enc_items(s, entry_enc()));
    assert(final(out)@ =~= old(out)@ + enc_list(s, entry_enc()));
}

#[verifier::rlimit(100)]
#[verifier::spinoff_prover]
fn read_entry_list(b: &Vec<u8>, pos: usize) -> (r: Option<(Vec<LogEntry>, usize)>)
    ensures
        r matches Some((_, p)) ==> pos < p <= b@.len(),
        r matches Some((x, p)) ==> at(b@, pos as int, enc_list(entries_view(x@), entry_enc())) && p == pos
            + enc_list(entries_view(x@), entry_enc()).len(),
        forall|s: Seq<LogEntryView>| #[trigger]
            at(b@, pos as int, enc_list(s, entry_enc())) ==> (r matches Some((x, q)) && entries_view(x@)
                == s && q == pos + enc_list(s, entry_enc()).len()),
{
    let (n, p0) = match read_u64(b, pos) {
        None => {
            proof {
                assert forall|s: Seq<LogEntryView>| #[trigger] at(b@, pos as int, enc_list(s, entry_enc())) implies false by {
                    lemma_at_split(b@, pos as int, enc_u64(s.len() as u64), enc_items(s, entry_enc()));
                }
            }
            return None;
        },
        Some(v) => v,
    };
    let blen = b.len();
    let mut out: Vec<LogEntry> = Vec::new();
    proof {
        assert(entries_view(out@) =~= Seq::<LogEntryView>::empty());
        assert(b@.subrange(p0 as int, p0 as int) =~= Seq::<u8>::empty());
    }
    let mut p: usize = p0;
    let mut i: u64 = 0;
    proof {
        assert forall|s: Seq<LogEntryView>| #[trigger] at(b@, pos as int, enc_list(s, entry_enc())) implies n
            == s.len() && at(b@, p0 as int, enc_items(s.skip(0), entry_enc())) && entries_view(out@) == s.take(0)
            && p0 + enc_items(s.skip(0), entry_enc()).len() == pos + enc_list(s, entry_enc()).len() by {
            assert(entries_view(out@) =~= s.take(0));
            lemma_at_split(b@, pos as int, enc_u64(s.len() as u64), enc_items(s, entry_enc()));
            assert(s.skip(0) =~= s);
            assert forall|x| #[trigger] entry_enc()(x).len() >= 1 by {
                assert(entry_enc()(x) == enc_entry(x));
            }
            lemma_items_len(s, entry_enc());
        }
    }
    while i < n
        invariant
            pos < p0 <= p <= b@.len(),
            i <= n,
            out@.len() == i,
            at(b@, pos as int, enc_u64(n)),
            at(b@, p0 as int, enc_items(entries_view(out@), entry_enc())),
            p == p0 + enc_items(entries_view(out@), entry_enc()).len(),
            forall|s: Seq<LogEntryView>| #[trigger]
                at(b@, pos as int, enc_list(s, entry_enc())) ==> n == s.len() && entries_view(out@)
                    == s.take(i as int) && at(b@, p as int, enc_items(s.skip(i as int), entry_enc()))
                    && p + enc_items(s.skip(i as int), entry_enc()).len() == pos + enc_list(
                    s,
                    entry_enc(),
                ).len(),
        decreases n - i,
    {
        match read_entry(b, p) {
            None => {
                proof {
                    assert forall|s: Seq<LogEntryView>| #[trigger] at(b@, pos as int, enc_list(s, entry_enc())) implies false by {
                        lemma_items_step(s, entry_enc(), i as int);
                        lemma_at_split(b@, p as int, enc_entry(s[i as int]), enc_items(s.skip(i + 1), entry_enc()));
                    }
                }
                return None;
            },
            Some((x, q)) => {
                proof {
                    assert forall|s: Seq<LogEntryView>| #[trigger] at(b@, pos as int, enc_list(s, entry_enc())) implies x@
                        == s[i as int] && at(b@, q as int, enc_items(s.skip(i + 1), entry_enc()))
                        && q + enc_items(s.skip(i + 1), entry_enc()).len() == pos + enc_list(
                        s,
                        entry_enc(),
                    ).len() by {
                        lemma_items_step(s, entry_enc(), i as int);
                        lemma_at_split(b@, p as int, enc_entry(s[i as int]), enc_items(s.skip(i + 1), entry_enc()));
                    }
                }
                let ghost before = out@;
                out.push(x);
                proof {
                    assert(entries_view(out@) =~= entries_view(before).push(x@));
                    lemma_items_push(entries_view(before), x@, entry_enc());
                    assert(entry_enc()(x@) == enc_entry(x@));
                    lemma_at_join(b@, p0 as int, enc_items(entries_view(before), entry_enc()), enc_entry(x@));
                }
                proof {
                    assert forall|s: Seq<LogEntryView>| #[trigger] at(b@, pos as int, enc_list(s, entry_enc())) implies entries_view(out@)
                        == s.take(i + 1) by {
                        assert(entries_view(out@) =~= s.take(i + 1));
                    }
                }
                p = q;
                i = i + 1;
            },
        }
    }
    proof {
        assert forall|s: Seq<LogEntryView>| #[trigger] at(b@, pos as int, enc_list(s, entry_enc())) implies entries_view(out@)
            == s && p == pos + enc_list(s, entry_enc()).len() by {
            assert(s.take(i as int) =~= s);
            assert(s.skip(i as int).len() == 0);
            assert(enc_items(s.skip(i as int), entry_enc()).len() == 0);
        }
    }
    proof {
        assert(entries_view(out@).len() == n);
        lemma_at_join(b@, pos as int, enc_u64(n), enc_items(entries_view(out@), entry_enc()));
    }
    Some((out, p))
}

/// The first bytes of every saved task log: "TBD" and the format's version.
pub open spec fn magic() -> Seq<u8> {
    seq![84u8, 66u8, 68u8, 1u8]
}

/// The saved form of a task log: the active tasks, the pooled tasks and the
/// log entries, each as a count followed by the items in order.
pub open spec fn enc_log(l: TaskLogView) -> Seq<u8> {
    magic() + enc_list(l.stat.active, active_enc()) + enc_list(l.stat.pooled, pooled_enc())
        + enc_list(l.log, entry_enc())
}

/// Why saved bytes could not be read back.
#[derive(PartialEq, Eq, Structural, Clone, Copy, Debug)]
pub enum LoadError {
    /// The bytes are not a saved task log: wrong header, cut short, bad
    /// UTF-8, a value out of range, bytes left over, or a title repeated.
    Format,
}

/// The bytes that `load` reads back as `task_log`.
pub fn save(task_log: &TaskLog) -> (r: Vec<u8>)
    ensures
        r@ == enc_log(task_log@),
{
    let mut out: Vec<u8> = Vec::new();
    out.push(84u8);
    out.push(66u8);
    out.push(68u8);
    out.push(1u8);
    assert(out@ =~= magic());
    put_active_list(&mut out, &task_log.task_stat.active);
    put_pooled_list(&mut out, &task_log.task_stat.pooled);
    put_entry_list(&mut out, &task_log.log);
    out
}

/// Reads back what `save` wrote: every well-formed task log whose saved form
/// is `bytes` comes back whole, with the log in order.
#[verifier::rlimit(50)]
pub fn load(bytes: &Vec<u8>) -> (r: Result<TaskLog, LoadError>)
    ensures
        r matches Ok(l) ==> l.wf() && enc_log(l@) == bytes@,
        forall|v: TaskLogView|
            enc_log(v) == bytes@ && log_wf(v) ==> (r matches Ok(l) && l@ == v),
{
    let b = bytes;
    proof {
        assert forall|v: TaskLogView| enc_log(v) == b@ implies at(b@, 0, magic()) && at(
            b@,
            4,
            enc_list(v.stat.active, active_enc()),
        ) && at(
            b@,
            4 + enc_list(v.stat.active, active_enc()).len() as int,
            enc_list(v.stat.pooled, pooled_enc()),
        ) && at(
            b@,
            4 + enc_list(v.stat.active, active_enc()).len() + enc_list(v.stat.pooled, pooled_enc()).len() as int,
            enc_list(v.log, entry_enc()),
        ) by {
            let e0 = magic();
            let e1 = enc_list(v.stat.active, active_enc());
            let e2 = enc_list(v.stat.pooled, pooled_enc());
            let e3 = enc_list(v.log, entry_enc());
            assert(b@.subrange(0, b@.len() as int) =~= b@);
            lemma_at_split(b@, 0, e0 + e1 + e2, e3);
            lemma_at_split(b@, 0, e0 + e1, e2);
            lemma_at_split(b@, 0, e0, e1);
        }
    }
    if b.len() < 4 || b[0] != 84u8 || b[1] != 66u8 || b[2] != 68u8 || b[3] != 1u8 {
        proof {
            assert forall|v: TaskLogView| enc_log(v) == b@ implies false by {
                assert(b@.subrange(0, 4)[0] == b@[0]);
                assert(b@.subrange(0, 4)[1] == b@[1]);
                assert(b@.subrange(0, 4)[2] == b@[2]);
                assert(b@.subrange(0, 4)[3] == b@[3]);
            }
        }
        return Err(LoadError::Format);
    }
    let (active, p1) = match read_active_list(b, 4) {
        None => return Err(LoadError::Format),
        Some(v) => v,
    };
    let (pooled, p2) = match read_pooled_list(b, p1) {
        None => return Err(LoadError::Format),
        Some(v) => v,
    };
    let (log, p3) = match read_entry_list(b, p2) {
        None => return Err(LoadError::Format),
        Some(v) => v,
    };
    if p3 != b.len() {
        return Err(LoadError::Format);
    }
    proof {
        let e0 = magic();
        let e1 = enc_list(actives_view(active@), active_enc());
        let e2 = enc_list(pooled_view(pooled@), pooled_enc());
        let e3 = enc_list(entries_view(log@), entry_enc());
        assert(b@.subrange(0, 4) =~= e0);
        lemma_at_join(b@, 0, e0, e1);
        lemma_at_join(b@, 0, e0 + e1, e2);
        lemma_at_join(b@, 0, e0 + e1 + e2, e3);
        assert(b@.subrange(0, b@.len() as int) =~= b@);
    }
    let task_stat = TaskStat { active, pooled };
    if !task_stat.titles_unique() {
        return Err(LoadError::Format);
    }
    Ok(TaskLog { task_stat, log })
}

} // verus!
