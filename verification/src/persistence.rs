//! The `key=value` text codec: one record per line, written from the least
//! recent entry to the most recent one, so that replaying the lines through
//! `put` reconstructs the same recency order on reload.

use vstd::prelude::*;

use crate::cache::byte_entries;
use crate::cache::has_key;
use crate::cache::key_at;
use crate::cache::put_step;
use crate::cache::view_records;
use crate::cache::LruCache;

verus! {

/// The file image of one record: key, `=` (byte 61), value, newline
/// (byte 10).
pub open spec fn render_line(k: Seq<u8>, v: Seq<u8>) -> Seq<u8> {
    k + seq![61u8] + v + seq![10u8]
}

/// The file image of a cache state (most recent entry first): one line per
/// record, the least recent entry written first.
pub open spec fn render(recs: Seq<(Seq<u8>, Seq<u8>)>) -> Seq<u8>
    decreases recs.len(),
{
    if recs.len() == 0 {
        Seq::empty()
    } else {
        render_line(recs.last().0, recs.last().1) + render(recs.drop_last())
    }
}

/// The index of the first occurrence of `b` in `s`, or `s.len()` when `b`
/// does not occur.
pub open spec fn find_byte(s: Seq<u8>, b: u8) -> nat
    decreases s.len(),
{
    if s.len() == 0 {
        0
    } else if s[0] == b {
        0
    } else {
        1 + find_byte(s.drop_first(), b)
    }
}

/// The record one line yields: the parts before and after the first `=`;
/// a line without `=` yields no record.
pub open spec fn parse_line(line: Seq<u8>) -> Seq<(Seq<u8>, Seq<u8>)> {
    let j = find_byte(line, 61u8) as int;
    if j < line.len() {
        seq![(line.take(j), line.skip(j + 1))]
    } else {
        Seq::empty()
    }
}

/// All records of a file image, in file order: one candidate record per
/// newline-terminated line, an unterminated final segment counting as a
/// line as well.
pub open spec fn parse(text: Seq<u8>) -> Seq<(Seq<u8>, Seq<u8>)>
    decreases text.len(),
{
    let j = find_byte(text, 10u8) as int;
    if j < text.len() {
        parse_line(text.take(j)) + parse(text.skip(j + 1))
    } else {
        parse_line(text)
    }
}

/// The cache state reached by replaying `recs` in file order through `put`
/// into an empty cache of capacity `cap`.
pub open spec fn replay(cap: int, recs: Seq<(Seq<u8>, Seq<u8>)>) -> Seq<(Seq<u8>, Seq<u8>)>
    decreases recs.len(),
{
    if recs.len() == 0 {
        Seq::empty()
    } else {
        put_step(cap, replay(cap, recs.drop_last()), recs.last().0, recs.last().1)
    }
}

/// True when `b` does not occur in `s`.
pub open spec fn no_byte(s: Seq<u8>, b: u8) -> bool {
    forall|i: int| 0 <= i < s.len() ==> s[i] != b
}

/// A record the line format can carry faithfully: no `=` or newline in the
/// key, no newline in the value.
pub open spec fn record_clean(rec: (Seq<u8>, Seq<u8>)) -> bool {
    no_byte(rec.0, 61u8) && no_byte(rec.0, 10u8) && no_byte(rec.1, 10u8)
}

/// `find_byte` returns the unique index below which `b` is absent and at
/// which `b` sits unless the sequence is exhausted.
proof fn lemma_find_byte_is(s: Seq<u8>, b: u8, j: int)
    requires
        0 <= j <= s.len(),
        forall|i: int| 0 <= i < j ==> s[i] != b,
        j < s.len() ==> s[j] == b,
    ensures
        find_byte(s, b) == j,
    decreases s.len(),
{
    if s.len() == 0 {
    } else if s[0] == b {
        assert(j == 0);
    } else {
        assert(j >= 1);
        assert forall|i: int| 0 <= i < j - 1 implies s.drop_first()[i] != b by {
            assert(s.drop_first()[i] == s[i + 1]);
        }
        assert(j - 1 < s.drop_first().len() ==> s.drop_first()[j - 1] == b);
        lemma_find_byte_is(s.drop_first(), b, j - 1);
    }
}

/// Prepending one clean line to a file image contributes exactly one
/// record at the front of what the rest yields.
proof fn lemma_parse_one(k: Seq<u8>, v: Seq<u8>, rest: Seq<u8>)
    requires
        no_byte(k, 61u8),
        no_byte(k, 10u8),
        no_byte(v, 10u8),
    ensures
        parse(render_line(k, v) + rest) == seq![(k, v)] + parse(rest),
{
    let text = render_line(k, v) + rest;
    let j = k.len() + 1 + v.len();
    assert forall|i: int| 0 <= i < j implies text[i] != 10u8 by {
        if i < k.len() {
            assert(text[i] == k[i]);
        } else if i == k.len() {
            assert(text[i] == 61u8);
        } else {
            assert(text[i] == v[i - k.len() - 1]);
        }
    }
    assert(text[j as int] == 10u8);
    lemma_find_byte_is(text, 10u8, j as int);
    let line = text.take(j as int);
    assert(line =~= k + seq![61u8] + v);
    assert(text.skip(j as int + 1) =~= rest);
    assert forall|i: int| 0 <= i < k.len() implies line[i] != 61u8 by {
        assert(line[i] == k[i]);
    }
    assert(line[k.len() as int] == 61u8);
    lemma_find_byte_is(line, 61u8, k.len() as int);
    assert(line.take(k.len() as int) =~= k);
    assert(line.skip(k.len() as int + 1) =~= v);
    assert(parse_line(line) =~= seq![(k, v)]);
    assert(parse(text) =~= seq![(k, v)] + parse(rest));
}

/// A rendered file image parses back to the records in reverse file order,
/// that is, in recency order reversed.
proof fn lemma_parse_render(recs: Seq<(Seq<u8>, Seq<u8>)>)
    requires
        forall|j: int| 0 <= j < recs.len() ==> record_clean(#[trigger] recs[j]),
    ensures
        parse(render(recs)) == recs.reverse(),
    decreases recs.len(),
{
    if recs.len() == 0 {
        assert(parse(render(recs)) =~= recs.reverse());
    } else {
        let last = recs.last();
        lemma_parse_one(last.0, last.1, render(recs.drop_last()));
        assert forall|j: int|
            0 <= j < recs.drop_last().len() implies record_clean(
            #[trigger] recs.drop_last()[j],
        ) by {
            assert(recs.drop_last()[j] == recs[j]);
        }
        lemma_parse_render(recs.drop_last());
        assert((last.0, last.1) == last);
        assert(seq![last] + recs.drop_last().reverse() =~= recs.reverse());
    }
}

/// Replaying records whose keys are pairwise distinct, fewer than the
/// capacity admits, in reverse recency order, rebuilds exactly that
/// state.
proof fn lemma_replay_reverse(cap: int, recs: Seq<(Seq<u8>, Seq<u8>)>)
    requires
        recs.len() <= cap,
        forall|p: int, q: int| 0 <= p < q < recs.len() ==> recs[p].0 != recs[q].0,
    ensures
        replay(cap, recs.reverse()) == recs,
    decreases recs.len(),
{
    let rs = recs.reverse();
    if recs.len() == 0 {
        assert(replay(cap, rs) =~= recs);
    } else {
        let rest = recs.drop_first();
        assert(rs.drop_last() =~= rest.reverse());
        assert(rs.last() == recs[0]);
        assert forall|p: int, q: int|
            0 <= p < q < rest.len() implies rest[p].0 != rest[q].0 by {
            assert(rest[p] == recs[p + 1] && rest[q] == recs[q + 1]);
        }
        lemma_replay_reverse(cap, rest);
        assert(!has_key(rest, recs[0].0)) by {
            if has_key(rest, recs[0].0) {
                let p = choose|p: int| 0 <= p < rest.len() && rest[p].0 == recs[0].0;
                assert(rest[p] == recs[p + 1]);
                assert(false);
            }
        }
        assert(rest.len() < cap);
        assert(replay(cap, rs) == put_step(cap, rest, recs[0].0, recs[0].1));
        assert((recs[0].0, recs[0].1) == recs[0]);
        assert(seq![recs[0]] + rest =~= recs);
    }
}

/// Round-trip ordering: the file image of any cache state whose records
/// the line format can carry, replayed through `put` into an empty cache
/// of the same (or a larger) capacity, reproduces the identical recency
/// order with the values preserved exactly.
pub proof fn lemma_round_trip(cap: int, recs: Seq<(Seq<u8>, Seq<u8>)>)
    requires
        recs.len() <= cap,
        forall|p: int, q: int| 0 <= p < q < recs.len() ==> recs[p].0 != recs[q].0,
        forall|j: int| 0 <= j < recs.len() ==> record_clean(#[trigger] recs[j]),
    ensures
        replay(cap, parse(render(recs))) == recs,
{
    lemma_parse_render(recs);
    lemma_replay_reverse(cap, recs);
}

/// Round-trip ordering at the cache level: for a well-formed cache whose
/// records the line format can carry, the file image that `save_to_bytes`
/// writes, replayed the way `new_from_bytes` replays it at the same
/// capacity, is exactly the cache's own state, order and values included.
pub proof fn lemma_save_load(c: &LruCache<Vec<u8>, Vec<u8>>)
    requires
        c.wf(),
        forall|j: int|
            0 <= j < byte_entries(c).len() ==> record_clean(#[trigger] byte_entries(c)[j]),
    ensures
        replay(c.cap(), parse(render(byte_entries(c)))) == byte_entries(c),
{
    c.lemma_capacity_invariant();
    c.lemma_keys_unique();
    let bs = byte_entries(c);
    assert(bs.len() == c.entries().len());
    assert forall|p: int, q: int| 0 <= p < q < bs.len() implies bs[p].0 != bs[q].0 by {
        assert(bs[p].0 == c.entries()[p].0);
        assert(bs[q].0 == c.entries()[q].0);
    }
    lemma_round_trip(c.cap(), bs);
}

/// Taking the values of a state as byte sequences commutes with one `put`
/// step, as long as the state's keys are pairwise distinct.
proof fn lemma_put_step_view(cap: int, s: Seq<(Seq<u8>, Vec<u8>)>, k: Seq<u8>, v: Vec<u8>)
    requires
        cap >= 1,
        forall|p: int, q: int| 0 <= p < q < s.len() ==> s[p].0 != s[q].0,
    ensures
        view_records(put_step(cap, s, k, v)) == put_step(cap, view_records(s), k, v@),
{
    let sv = view_records(s);
    assert(sv.len() == s.len());
    assert forall|i: int| 0 <= i < s.len() implies #[trigger] sv[i] == (s[i].0, s[i].1@) by {}
    let r = put_step(cap, s, k, v);
    let rv = view_records(r);
    assert forall|i: int| 0 <= i < r.len() implies #[trigger] rv[i] == (r[i].0, r[i].1@) by {}
    if has_key(s, k) {
        let pa = key_at(s, k);
        assert(0 <= pa < s.len() && s[pa].0 == k);
        assert(sv[pa] == (s[pa].0, s[pa].1@));
        assert(has_key(sv, k));
        let pb = key_at(sv, k);
        assert(0 <= pb < sv.len() && sv[pb].0 == k);
        assert(s[pb].0 == k);
        if pa != pb {
            assert(false);
        }
        assert(r == seq![(k, v)] + s.remove(pa));
        assert forall|i: int|
            0 <= i < rv.len() implies #[trigger] rv[i] == (seq![(k, v@)] + sv.remove(pa))[
            i
        ] by {
            if i == 0 {
            } else if i - 1 < pa {
                assert(r[i] == s[i - 1]);
                assert(sv.remove(pa)[i - 1] == sv[i - 1]);
            } else {
                assert(r[i] == s[i]);
                assert(sv.remove(pa)[i - 1] == sv[i]);
            }
        }
        assert(rv =~= seq![(k, v@)] + sv.remove(pa));
        assert(put_step(cap, sv, k, v@) == seq![(k, v@)] + sv.remove(pa));
    } else {
        assert(!has_key(sv, k)) by {
            if has_key(sv, k) {
                let p = choose|p: int| 0 <= p < sv.len() && sv[p].0 == k;
                assert(s[p].0 == k);
                assert(false);
            }
        }
        if s.len() < cap {
            assert(r == seq![(k, v)] + s);
            assert forall|i: int|
                0 <= i < rv.len() implies #[trigger] rv[i] == (seq![(k, v@)] + sv)[i] by {
                if i > 0 {
                    assert(r[i] == s[i - 1]);
                }
            }
            assert(rv =~= seq![(k, v@)] + sv);
        } else {
            assert(r == seq![(k, v)] + s.drop_last());
            assert(s.len() >= 1);
            assert forall|i: int|
                0 <= i < rv.len() implies #[trigger] rv[i] == (seq![(k, v@)] + sv.drop_last())[
                i
            ] by {
                if i > 0 {
                    assert(r[i] == s[i - 1]);
                    assert(sv.drop_last()[i - 1] == sv[i - 1]);
                }
            }
            assert(rv =~= seq![(k, v@)] + sv.drop_last());
        }
    }
}

/// The first index in `[start, end)` at which `b` occurs in `text`, or
/// `end` when it does not occur there.
fn find_range(text: &Vec<u8>, start: usize, end: usize, b: u8) -> (r: usize)
    requires
        start <= end <= text@.len(),
    ensures
        start <= r <= end,
        forall|i: int| start <= i < r ==> text@[i] != b,
        r < end ==> text@[r as int] == b,
{
    let mut i: usize = start;
    while i < end
        invariant
            start <= i <= end,
            end <= text@.len(),
            forall|j: int| start <= j < i ==> text@[j] != b,
        decreases end - i,
    {
        if text[i] == b {
            return i;
        }
        i = i + 1;
    }
    i
}

/// A copy of the bytes of `text` in the range `[start, end)`.
fn copy_range(text: &Vec<u8>, start: usize, end: usize) -> (r: Vec<u8>)
    requires
        start <= end <= text@.len(),
    ensures
        r@ == text@.subrange(start as int, end as int),
{
    let mut out: Vec<u8> = Vec::new();
    let mut i: usize = start;
    while i < end
        invariant
            start <= i <= end,
            end <= text@.len(),
            out@ == text@.subrange(start as int, i as int),
        decreases end - i,
    {
        out.push(text[i]);
        i = i + 1;
        proof {
            assert(text@.subrange(start as int, i as int) =~= text@.subrange(
                start as int,
                i - 1,
            ).push(text@[i - 1]));
        }
    }
    out
}

/// Appends the bytes of `src` to `out`.
fn push_bytes(out: &mut Vec<u8>, src: &Vec<u8>)
    ensures
        final(out)@ == old(out)@ + src@,
{
    let mut i: usize = 0;
    while i < src.len()
        invariant
            i <= src@.len(),
            out@ == old(out)@ + src@.take(i as int),
        decreases src@.len() - i,
    {
        let b = src[i];
        out.push(b);
        i = i + 1;
        proof {
            assert(old(out)@ + src@.take(i as int) =~= (old(out)@ + src@.take(i - 1)).push(
                src@[i - 1],
            ));
        }
    }
    proof {
        assert(src@.take(src@.len() as int) =~= src@);
    }
}

/// Peeling the most recent record off a state appends its line at the end
/// of the file image.
proof fn lemma_render_peel(recs: Seq<(Seq<u8>, Seq<u8>)>)
    requires
        recs.len() >= 1,
    ensures
        render(recs) == render(recs.drop_first()) + render_line(recs[0].0, recs[0].1),
    decreases recs.len(),
{
    if recs.len() == 1 {
        assert(recs.drop_first() =~= Seq::<(Seq<u8>, Seq<u8>)>::empty());
        assert(recs.drop_last() =~= Seq::<(Seq<u8>, Seq<u8>)>::empty());
        assert(render(recs.drop_last()) =~= Seq::<u8>::empty());
        assert(recs.last() == recs[0]);
        assert(render(recs) =~= render_line(recs[0].0, recs[0].1));
        assert(render(recs.drop_first()) =~= Seq::<u8>::empty());
        assert(render(recs.drop_first()) + render_line(recs[0].0, recs[0].1)
            =~= render_line(recs[0].0, recs[0].1));
    } else {
        let shorter = recs.drop_last();
        lemma_render_peel(shorter);
        assert(shorter[0] == recs[0]);
        assert(recs.drop_first().drop_last() =~= shorter.drop_first());
        assert(recs.drop_first().last() == recs.last());
        let first_line = render_line(recs[0].0, recs[0].1);
        let last_line = render_line(recs.last().0, recs.last().1);
        assert(render(recs) == last_line + render(shorter));
        assert(render(shorter) == render(shorter.drop_first()) + first_line);
        assert(render(recs.drop_first()) == last_line + render(shorter.drop_first()));
        assert(last_line + (render(shorter.drop_first()) + first_line) =~= (last_line + render(
            shorter.drop_first(),
        )) + first_line);
        assert(render(recs) == render(recs.drop_first()) + first_line);
    }
}

impl LruCache<Vec<u8>, Vec<u8>> {
    /// The file image of the cache: one `key=value` line per entry, walked
    /// from the least recent entry (the tail) to the most recent one, so
    /// that a reload replays the entries in an order that restores their
    /// recency.
    pub fn save_to_bytes(&self) -> (r: Vec<u8>)
        requires
            self.wf(),
        ensures
            r@ == render(byte_entries(self)),
    {
        let recs = self.records();
        let ghost bs = byte_entries(self);
        let mut out: Vec<u8> = Vec::new();
        let mut q: usize = recs.len();
        proof {
            assert(bs.skip(q as int) =~= Seq::<(Seq<u8>, Seq<u8>)>::empty());
        }
        while q > 0
            invariant
                q <= recs@.len(),
                recs@.len() == bs.len(),
                forall|j: int|
                    0 <= j < recs@.len() ==> (#[trigger] recs@[j].0@, recs@[j].1@) == bs[j],
                out@ == render(bs.skip(q as int)),
            decreases q,
        {
            q = q - 1;
            let ghost out0 = out@;
            push_bytes(&mut out, &recs[q].0);
            out.push(61u8);
            push_bytes(&mut out, &recs[q].1);
            out.push(10u8);
            proof {
                let suffix = bs.skip(q as int);
                assert(suffix.len() >= 1);
                assert(suffix[0] == bs[q as int]);
                assert(suffix.drop_first() =~= bs.skip(q as int + 1));
                lemma_render_peel(suffix);
                assert(out@ =~= out0 + render_line(bs[q as int].0, bs[q as int].1));
                assert(out@ =~= render(suffix));
            }
        }
        proof {
            assert(bs.skip(0) =~= bs);
        }
        out
    }

    /// Builds a cache of the given capacity from a file image: each
    /// newline-separated line is split on its first `=` into a key and a
    /// value and submitted through `put`, so earlier lines end up less
    /// recent; lines without `=` are skipped.
    pub fn new_from_bytes(capacity: usize, text: &Vec<u8>) -> (r: Self)
        requires
            capacity > 0,
        ensures
            r.wf(),
            r.cap() == capacity,
            byte_entries(&r) == replay(capacity as int, parse(text@)),
    {
        let mut cache = LruCache::<Vec<u8>, Vec<u8>>::new(capacity);
        let ghost full = parse(text@);
        let mut start: usize = 0;
        let ghost mut done: Seq<(Seq<u8>, Seq<u8>)> = Seq::empty();
        proof {
            assert(byte_entries(&cache) =~= replay(capacity as int, done));
            assert(text@.skip(0) =~= text@);
            assert(parse(text@.skip(0)) == parse(text@));
            assert(done + parse(text@.skip(0)) =~= full);
        }
        loop
            invariant_except_break
                done + parse(text@.skip(start as int)) == full,
            invariant
                cache.wf(),
                cache.cap() == capacity,
                capacity > 0,
                start <= text@.len(),
                byte_entries(&cache) == replay(capacity as int, done),
            ensures
                cache.wf(),
                cache.cap() == capacity,
                byte_entries(&cache) == replay(capacity as int, full),
            decreases text@.len() - start,
        {
            let nl = find_range(text, start, text.len(), 10u8);
            let ghost suffix = text@.skip(start as int);
            let ghost seg = text@.subrange(start as int, nl as int);
            proof {
                assert forall|i: int| 0 <= i < nl - start implies suffix[i] != 10u8 by {
                    assert(suffix[i] == text@[start + i]);
                }
                assert(nl < text@.len() ==> suffix[nl - start] == text@[nl as int]);
                lemma_find_byte_is(suffix, 10u8, nl - start);
                assert(suffix.take(nl - start) =~= seg);
                if (nl as int) < text@.len() {
                    assert(suffix.skip(nl - start + 1) =~= text@.skip(nl as int + 1));
                    assert(parse(suffix) == parse_line(seg) + parse(text@.skip(nl as int + 1)));
                } else {
                    assert(suffix =~= seg);
                    assert(parse(suffix) == parse_line(seg));
                }
            }
            let eq = find_range(text, start, nl, 61u8);
            let ghost done0 = done;
            proof {
                assert forall|i: int| 0 <= i < eq - start implies seg[i] != 61u8 by {
                    assert(seg[i] == text@[start + i]);
                }
                assert(eq < nl ==> seg[eq - start] == text@[eq as int]);
                lemma_find_byte_is(seg, 61u8, eq - start);
            }
            if eq < nl {
                let key = copy_range(text, start, eq);
                let value = copy_range(text, eq + 1, nl);
                let ghost pre = cache.entries();
                let ghost key_view = key@;
                let ghost value_view = value@;
                proof {
                    assert(seg.take(eq - start) =~= key_view);
                    assert(seg.skip(eq - start + 1) =~= value_view);
                    assert(parse_line(seg) == seq![(key_view, value_view)]);
                    cache.lemma_keys_unique();
                    lemma_put_step_view(capacity as int, pre, key_view, value);
                }
                cache.put(key, value);
                proof {
                    let rec = (key_view, value_view);
                    done = done0.push(rec);
                    assert(done.drop_last() =~= done0);
                    assert(done.last() == rec);
                    assert(done.len() >= 1);
                    assert(replay(capacity as int, done) == put_step(
                        capacity as int,
                        replay(capacity as int, done0),
                        key_view,
                        value_view,
                    ));
                    assert(byte_entries(&cache) == replay(capacity as int, done));
                    assert(done =~= done0 + parse_line(seg));
                }
            } else {
                proof {
                    assert(parse_line(seg) =~= Seq::<(Seq<u8>, Seq<u8>)>::empty());
                    assert(done =~= done0 + parse_line(seg));
                }
            }
            if nl == text.len() {
                proof {
                    assert(parse(suffix) == parse_line(seg));
                    assert(done =~= done0 + parse(suffix));
                    assert(done == full);
                    assert(replay(capacity as int, done) == replay(capacity as int, full));
                }
                break;
            }
            proof {
                let rest_recs = parse(text@.skip(nl as int + 1));
                assert(parse(suffix) == parse_line(seg) + rest_recs);
                assert((done0 + parse_line(seg)) + rest_recs =~= done0 + (parse_line(seg)
                    + rest_recs));
                assert(done + rest_recs =~= full);
            }
            start = nl + 1;
        }
        cache
    }
}

} // verus!
