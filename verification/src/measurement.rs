use vstd::prelude::*;
use crate::errors::QsError;
use crate::payload::{Payload, PayloadModel, decode, lemma_decode_wf, MAX_SAMPLES_PER_FRAME};
use crate::sampling::{mask_at, mask_seq, compute_mask};

verus! {

/// The number of samples per channel across a whole payload sequence: the
/// length of the concatenated sample stream.
pub open spec fn total_samples(ps: Seq<PayloadModel>) -> int
    decreases ps.len(),
{
    if ps.len() == 0 {
        0
    } else {
        ps[0].sample_count() + total_samples(ps.drop_first())
    }
}

pub proof fn lemma_total_samples_snoc(ps: Seq<PayloadModel>, p: PayloadModel)
    ensures
        total_samples(ps.push(p)) == total_samples(ps) + p.sample_count(),
    decreases ps.len(),
{
    assert(total_samples(ps.push(p))
        == ps.push(p)[0].sample_count() + total_samples(ps.push(p).drop_first()));
    if ps.len() == 0 {
        assert(ps.push(p)[0] == p);
        assert(ps.push(p).drop_first() =~= Seq::<PayloadModel>::empty());
        assert(total_samples(Seq::<PayloadModel>::empty()) == 0);
    } else {
        assert(ps.push(p)[0] == ps[0]);
        assert(ps.push(p).drop_first() =~= ps.drop_first().push(p));
        lemma_total_samples_snoc(ps.drop_first(), p);
    }
}

pub proof fn lemma_total_samples_nonneg(ps: Seq<PayloadModel>)
    ensures
        total_samples(ps) >= 0,
    decreases ps.len(),
{
    if ps.len() > 0 {
        lemma_total_samples_nonneg(ps.drop_first());
    }
}

/// Stream lengths add up across a split of the payload sequence.
pub proof fn lemma_total_samples_concat(a: Seq<PayloadModel>, b: Seq<PayloadModel>)
    ensures
        total_samples(a + b) == total_samples(a) + total_samples(b),
    decreases a.len(),
{
    if a.len() == 0 {
        assert(a + b =~= b);
    } else {
        assert((a + b)[0] == a[0]);
        assert((a + b).drop_first() =~= a.drop_first() + b);
        lemma_total_samples_concat(a.drop_first(), b);
    }
}

/// In a strictly sorted sequence each counter is at least its index.
pub proof fn lemma_sorted_counter_ge_index(ps: Seq<PayloadModel>, i: int)
    requires
        sorted_by_counter(ps),
        0 <= i < ps.len(),
    ensures
        ps[i].counter >= i,
    decreases i,
{
    if i > 0 {
        lemma_sorted_counter_ge_index(ps, i - 1);
    }
}

/// A sorted sequence of well-formed payloads is bounded in length by the
/// counter range, and so in total samples by `2^36 * 32763 < 2^52`.
pub proof fn lemma_total_samples_bound(ps: Seq<PayloadModel>)
    requires
        sorted_by_counter(ps),
        forall|i: int| 0 <= i < ps.len() ==> (#[trigger] ps[i]).wf(),
    ensures
        0 <= total_samples(ps) <= 0x10_0000_0000 * (MAX_SAMPLES_PER_FRAME as int),
{
    if ps.len() > 0 {
        lemma_sorted_counter_ge_index(ps, ps.len() - 1);
        assert(ps.len() <= 0x10_0000_0000);
    }
    lemma_total_samples_le(ps);
    assert(total_samples(ps) <= 0x10_0000_0000 * (MAX_SAMPLES_PER_FRAME as int)) by (nonlinear_arith)
        requires
            total_samples(ps) <= ps.len() * (MAX_SAMPLES_PER_FRAME as int),
            ps.len() <= 0x10_0000_0000,
    ;
}

proof fn lemma_total_samples_le(ps: Seq<PayloadModel>)
    requires
        forall|i: int| 0 <= i < ps.len() ==> (#[trigger] ps[i]).wf(),
    ensures
        0 <= total_samples(ps) <= ps.len() * (MAX_SAMPLES_PER_FRAME as int),
    decreases ps.len(),
{
    if ps.len() > 0 {
        lemma_total_samples_le(ps.drop_first());
    }
}

/// The stream positions the downsampling mask includes among `0..total`, in
/// ascending order.
pub open spec fn included_positions(seed: u64, scale: u32, threshold: u32, total: int) -> Seq<u64>
    decreases total,
{
    if total <= 0 {
        Seq::empty()
    } else if mask_at(seed, scale, threshold, total - 1) {
        included_positions(seed, scale, threshold, total - 1).push((total - 1) as u64)
    } else {
        included_positions(seed, scale, threshold, total - 1)
    }
}

/// Included positions of a shorter stream are a prefix of those of a longer
/// one.
pub proof fn lemma_included_positions_prefix(seed: u64, scale: u32, threshold: u32, t1: int, t2: int)
    requires
        0 <= t1 <= t2,
    ensures
        included_positions(seed, scale, threshold, t1).len()
            <= included_positions(seed, scale, threshold, t2).len(),
        included_positions(seed, scale, threshold, t1)
            == included_positions(seed, scale, threshold, t2)
                .take(included_positions(seed, scale, threshold, t1).len() as int),
    decreases t2 - t1,
{
    if t1 < t2 {
        lemma_included_positions_prefix(seed, scale, threshold, t1, t2 - 1);
        assert(included_positions(seed, scale, threshold, t1)
            =~= included_positions(seed, scale, threshold, t2)
                .take(included_positions(seed, scale, threshold, t1).len() as int));
    } else {
        assert(included_positions(seed, scale, threshold, t1)
            =~= included_positions(seed, scale, threshold, t2)
                .take(included_positions(seed, scale, threshold, t1).len() as int));
    }
}

/// Included positions lie below the stream length, ascend strictly, and
/// number at most the stream length.
pub proof fn lemma_included_positions_bounds(seed: u64, scale: u32, threshold: u32, total: int)
    requires
        total <= 0xFFFF_FFFF_FFFF_FFFF,
    ensures
        included_positions(seed, scale, threshold, total).len() <= if total >= 0 { total } else { 0 },
        forall|k: int| 0 <= k < included_positions(seed, scale, threshold, total).len()
            ==> #[trigger] included_positions(seed, scale, threshold, total)[k] < total,
        forall|k1: int, k2: int|
            0 <= k1 < k2 < included_positions(seed, scale, threshold, total).len()
            ==> included_positions(seed, scale, threshold, total)[k1]
                < included_positions(seed, scale, threshold, total)[k2],
    decreases total,
{
    if total > 0 {
        lemma_included_positions_bounds(seed, scale, threshold, total - 1);
        let prev = included_positions(seed, scale, threshold, total - 1);
        let cur = included_positions(seed, scale, threshold, total);
        assert forall|k1: int, k2: int| 0 <= k1 < k2 < cur.len() implies cur[k1] < cur[k2] by {
            if k2 < prev.len() {
                assert(cur[k1] == prev[k1] && cur[k2] == prev[k2]);
            } else {
                assert(cur[k2] == (total - 1) as u64);
                assert(cur[k1] == prev[k1]);
            }
        }
    }
}

/// The included positions actually handed back once the destination
/// capacity is applied: truncation in stream order, never an error.
pub open spec fn capped_positions(seed: u64, scale: u32, threshold: u32, total: int, cap: int) -> Seq<u64> {
    let ip = included_positions(seed, scale, threshold, total);
    if ip.len() <= cap {
        ip
    } else {
        ip.take(cap)
    }
}

/// The sample of channel `c` at global stream position `g`, or `None` where
/// the payload holding that position does not populate channel `c`.
pub open spec fn channel_value_at(ps: Seq<PayloadModel>, c: int, g: int) -> Option<i16>
    decreases ps.len(),
{
    if ps.len() == 0 {
        None
    } else if g < ps[0].sample_count() {
        if 0 <= c < ps[0].channels.len() && 0 <= g {
            Some(ps[0].channels[c][g])
        } else {
            None
        }
    } else {
        channel_value_at(ps.drop_first(), c, g - ps[0].sample_count())
    }
}

/// The samples of channel `c` at the given stream positions, in order,
/// skipping positions whose payload does not populate the channel.
pub open spec fn copied_channel(ps: Seq<PayloadModel>, c: int, positions: Seq<u64>) -> Seq<i16>
    decreases positions.len(),
{
    if positions.len() == 0 {
        Seq::empty()
    } else {
        copied_channel(ps, c, positions.drop_last()) + match channel_value_at(
            ps,
            c,
            positions.last() as int,
        ) {
            Some(v) => seq![v],
            None => Seq::<i16>::empty(),
        }
    }
}

/// Locate a stream position inside the payload that covers it: position `g`
/// within payload `k`'s range is that payload's sample at offset
/// `g - total_samples(take(k))`.
pub proof fn lemma_channel_value_locate(ps: Seq<PayloadModel>, c: int, k: int, g: int)
    requires
        0 <= k < ps.len(),
        total_samples(ps.take(k)) <= g < total_samples(ps.take(k + 1)),
    ensures
        channel_value_at(ps, c, g) == (if 0 <= c < ps[k].channels.len() {
            Some(ps[k].channels[c][g - total_samples(ps.take(k))])
        } else {
            None::<i16>
        }),
    decreases k,
{
    if k == 0 {
        assert(total_samples(ps.take(0)) == 0);
        assert(ps.take(1) =~= seq![ps[0]]);
        assert(ps.take(1).drop_first() =~= Seq::<PayloadModel>::empty());
        assert(total_samples(Seq::<PayloadModel>::empty()) == 0);
        assert(ps.take(1)[0] == ps[0]);
        assert(total_samples(ps.take(1))
            == ps.take(1)[0].sample_count() + total_samples(ps.take(1).drop_first()));
        assert(total_samples(ps.take(1)) == ps[0].sample_count());
    } else {
        let tail = ps.drop_first();
        assert(ps.take(k)[0] == ps[0]);
        assert(ps.take(k).drop_first() =~= tail.take(k - 1));
        assert(ps.take(k + 1)[0] == ps[0]);
        assert(ps.take(k + 1).drop_first() =~= tail.take(k));
        assert(total_samples(ps.take(k)) == ps[0].sample_count() + total_samples(tail.take(k - 1)));
        assert(total_samples(ps.take(k + 1)) == ps[0].sample_count() + total_samples(tail.take(k)));
        lemma_total_samples_nonneg(tail.take(k - 1));
        assert(g >= ps[0].sample_count());
        lemma_channel_value_locate(tail, c, k - 1, g - ps[0].sample_count());
        assert(tail[k - 1] == ps[k]);
    }
}

/// Payload sequences are kept strictly ascending by counter: ordering is
/// total and duplicates are never stored.
pub open spec fn sorted_by_counter(ps: Seq<PayloadModel>) -> bool {
    forall|i: int, j: int| 0 <= i < j < ps.len() ==> ps[i].counter < ps[j].counter
}

/// Where ingestion puts one decoded payload: at its counter's sorted
/// position, or nowhere if that counter is already present.
pub open spec fn insert_sorted(s: Seq<PayloadModel>, p: PayloadModel) -> Seq<PayloadModel>
    decreases s.len(),
{
    if s.len() == 0 {
        seq![p]
    } else if p.counter < s[0].counter {
        seq![p] + s
    } else if p.counter == s[0].counter {
        s
    } else {
        seq![s[0]] + insert_sorted(s.drop_first(), p)
    }
}

/// `insert_sorted` on a sorted sequence at a position bounded below and
/// above is exactly `Seq::insert`.
pub proof fn lemma_insert_sorted_at(s: Seq<PayloadModel>, p: PayloadModel, idx: int)
    requires
        sorted_by_counter(s),
        0 <= idx <= s.len(),
        forall|k: int| 0 <= k < idx ==> s[k].counter < p.counter,
        forall|k: int| idx <= k < s.len() ==> s[k].counter > p.counter,
    ensures
        insert_sorted(s, p) == s.insert(idx, p),
    decreases s.len(),
{
    if s.len() == 0 {
        assert(insert_sorted(s, p) =~= s.insert(0, p));
    } else if idx == 0 {
        assert(insert_sorted(s, p) =~= s.insert(0, p));
    } else {
        lemma_insert_sorted_at(s.drop_first(), p, idx - 1);
        assert(seq![s[0]] + s.drop_first().insert(idx - 1, p) =~= s.insert(idx, p));
    }
}

/// `insert_sorted` of a counter already present leaves the sequence as it is.
pub proof fn lemma_insert_sorted_dup(s: Seq<PayloadModel>, p: PayloadModel, idx: int)
    requires
        sorted_by_counter(s),
        0 <= idx < s.len(),
        s[idx].counter == p.counter,
    ensures
        insert_sorted(s, p) == s,
    decreases s.len(),
{
    if idx == 0 {
    } else {
        lemma_insert_sorted_dup(s.drop_first(), p, idx - 1);
        assert(seq![s[0]] + s.drop_first() =~= s);
    }
}

/// `insert_sorted` keeps the sequence sorted, adds no element but `p`, and
/// never removes one.
pub proof fn lemma_insert_sorted_props(s: Seq<PayloadModel>, p: PayloadModel)
    requires
        sorted_by_counter(s),
    ensures
        sorted_by_counter(insert_sorted(s, p)),
        forall|q: PayloadModel| insert_sorted(s, p).contains(q) ==> q == p || s.contains(q),
        forall|q: PayloadModel| s.contains(q) ==> insert_sorted(s, p).contains(q),
        insert_sorted(s, p).contains(p) || exists|i: int| 0 <= i < s.len() && s[i].counter == p.counter,
    decreases s.len(),
{
    let r = insert_sorted(s, p);
    if s.len() == 0 {
        assert(r.contains(p)) by {
            assert(r[0] == p);
        }
    } else if p.counter < s[0].counter {
        assert(r.contains(p)) by {
            assert(r[0] == p);
        }
        assert forall|q: PayloadModel| r.contains(q) implies q == p || s.contains(q) by {
            let i = choose|i: int| 0 <= i < r.len() && r[i] == q;
            if i > 0 {
                assert(s[i - 1] == q);
            }
        }
        assert forall|q: PayloadModel| s.contains(q) implies r.contains(q) by {
            let i = choose|i: int| 0 <= i < s.len() && s[i] == q;
            assert(r[i + 1] == q);
        }
    } else if p.counter == s[0].counter {
        assert(s[0].counter == p.counter);
    } else {
        let tail = s.drop_first();
        lemma_insert_sorted_props(tail, p);
        let rt = insert_sorted(tail, p);
        assert(sorted_by_counter(r)) by {
            assert forall|i: int, j: int| 0 <= i < j < r.len() implies r[i].counter < r[j].counter by {
                if i == 0 {
                    // r[j] is p or an element of the tail, both above s[0].
                    assert(rt.contains(r[j])) by {
                        assert(r[j] == rt[j - 1]);
                    }
                    if r[j] != p {
                        assert(tail.contains(r[j]));
                        let k = choose|k: int| 0 <= k < tail.len() && tail[k] == r[j];
                        assert(s[k + 1] == r[j]);
                    }
                } else {
                    assert(r[i] == rt[i - 1] && r[j] == rt[j - 1]);
                }
            }
        }
        assert forall|q: PayloadModel| r.contains(q) implies q == p || s.contains(q) by {
            let i = choose|i: int| 0 <= i < r.len() && r[i] == q;
            if i == 0 {
                assert(s[0] == q);
            } else {
                assert(rt[i - 1] == q);
                assert(rt.contains(q));
                if q != p {
                    assert(tail.contains(q));
                    let k = choose|k: int| 0 <= k < tail.len() && tail[k] == q;
                    assert(s[k + 1] == q);
                }
            }
        }
        assert forall|q: PayloadModel| s.contains(q) implies r.contains(q) by {
            let i = choose|i: int| 0 <= i < s.len() && s[i] == q;
            if i == 0 {
                assert(r[0] == q);
            } else {
                assert(tail[i - 1] == q);
                assert(tail.contains(q));
                assert(rt.contains(q));
                let k = choose|k: int| 0 <= k < rt.len() && rt[k] == q;
                assert(r[k + 1] == q);
            }
        }
        if !(exists|i: int| 0 <= i < s.len() && s[i].counter == p.counter) {
            assert(!(exists|i: int| 0 <= i < tail.len() && tail[i].counter == p.counter)) by {
                if exists|i: int| 0 <= i < tail.len() && tail[i].counter == p.counter {
                    let i = choose|i: int| 0 <= i < tail.len() && tail[i].counter == p.counter;
                    assert(s[i + 1].counter == p.counter);
                }
            }
            assert(rt.contains(p));
            let k = choose|k: int| 0 <= k < rt.len() && rt[k] == p;
            assert(r[k + 1] == p);
        }
    }
}

/// One capture session: an id, a fixed channel count, and the decoded
/// payloads kept strictly sorted by counter.
pub struct Measurement {
    pub id: u32,
    pub payloads: Vec<Payload>,
    pub active_channels: u8,
}

impl View for Measurement {
    type V = Seq<PayloadModel>;

    open spec fn view(&self) -> Seq<PayloadModel> {
        self.payloads@.map_values(|p: Payload| p@)
    }
}

impl Measurement {
    /// The session invariant: payloads strictly sorted by counter, each one
    /// well formed.
    pub open spec fn wf(self) -> bool {
        &&& sorted_by_counter(self@)
        &&& forall|i: int| 0 <= i < self.payloads@.len() ==> (#[trigger] self.payloads@[i]).wf()
    }

    pub fn new(id: u32, active_channels: u8) -> (r: Measurement)
        ensures
            r.id == id,
            r.active_channels == active_channels,
            r@ == Seq::<PayloadModel>::empty(),
            r.wf(),
    {
        let r = Measurement { id, payloads: Vec::new(), active_channels };
        assert(r@ =~= Seq::<PayloadModel>::empty());
        r
    }

    /// Decode one wire frame and ingest the payload: a new counter is placed
    /// at its sorted position, a counter already present leaves the session
    /// unchanged, and either way the frame's sample count is acknowledged.
    /// A decode failure reports its exact error and mutates nothing.
    pub fn consume(&mut self, data: &[u8]) -> (r: Result<u32, QsError>)
        requires
            old(self).wf(),
        ensures
            final(self).wf(),
            final(self).id == old(self).id,
            final(self).active_channels == old(self).active_channels,
            match r {
                Ok(n) => decode(data@) is Ok
                    && n == decode(data@)->Ok_0.sample_count()
                    && final(self)@ == insert_sorted(old(self)@, decode(data@)->Ok_0),
                Err(e) => decode(data@) is Err && e == decode(data@)->Err_0
                    && final(self)@ == old(self)@,
            },
    {
        let payload = match Payload::new(data) {
            Ok(p) => p,
            Err(e) => return Err(e),
        };
        proof {
            lemma_decode_wf(data@);
        }
        let n = payload.channels[0].len();
        let c = payload.counter;

        let mut idx: usize = 0;
        while idx < self.payloads.len() && self.payloads[idx].counter < c
            invariant
                idx <= self.payloads@.len(),
                forall|k: int| 0 <= k < idx ==> self@[k].counter < c,
                self == old(self),
            decreases self.payloads@.len() - idx,
        {
            idx += 1;
        }

        let ghost s = old(self)@;
        if idx < self.payloads.len() && self.payloads[idx].counter == c {
            proof {
                lemma_insert_sorted_dup(s, payload@, idx as int);
            }
            return Ok(n as u32);
        }
        proof {
            assert(forall|k: int| idx <= k < s.len() ==> s[k].counter > c) by {
                assert(forall|k: int| idx < k < s.len() ==> s[idx as int].counter < s[k].counter);
            }
            lemma_insert_sorted_at(s, payload@, idx as int);
            lemma_insert_sorted_props(s, payload@);
        }
        self.payloads.insert(idx, payload);
        proof {
            assert(self@ =~= s.insert(idx as int, payload@));
            assert forall|i: int| 0 <= i < self.payloads@.len() implies (#[trigger] self.payloads@[i]).wf() by {
                if i < idx {
                    assert(self.payloads@[i] == old(self).payloads@[i]);
                } else if i > idx {
                    assert(self.payloads@[i] == old(self).payloads@[i - 1]);
                }
            }
        }
        Ok(n as u32)
    }

    /// The length of this session's concatenated sample stream.
    pub fn total_sample_count(&self) -> (r: usize)
        requires
            self.wf(),
            total_samples(self@) <= usize::MAX,
        ensures
            r == total_samples(self@),
            r <= 0x10_0000_0000 * (MAX_SAMPLES_PER_FRAME as int),
    {
        let mut t: usize = 0;
        let mut i: usize = 0;
        while i < self.payloads.len()
            invariant
                self.wf(),
                total_samples(self@) <= usize::MAX,
                i <= self.payloads@.len(),
                t == total_samples(self@.take(i as int)),
                t <= 0x10_0000_0000 * (MAX_SAMPLES_PER_FRAME as int),
            decreases self.payloads@.len() - i,
        {
            proof {
                assert(sorted_by_counter(self@.take(i as int + 1)));
                assert(forall|k: int| 0 <= k < i + 1 ==> (#[trigger] self@.take(i as int + 1)[k]).wf()) by {
                    assert(forall|k: int| 0 <= k < i + 1 ==> self@.take(i as int + 1)[k] == self.payloads@[k]@);
                }
                lemma_total_samples_bound(self@.take(i as int + 1));
                assert(self@.take(i as int + 1) =~= self@.take(i as int).push(self@[i as int]));
                lemma_total_samples_snoc(self@.take(i as int), self@[i as int]);
                assert(self@ =~= self@.take(i as int + 1) + self@.skip(i as int + 1));
                lemma_total_samples_concat(self@.take(i as int + 1), self@.skip(i as int + 1));
                lemma_total_samples_nonneg(self@.skip(i as int + 1));
            }
            let n = self.payloads[i].channels[0].len();
            proof {
                assert(self@[i as int] == self.payloads@[i as int]@);
                assert(n == self@[i as int].sample_count());
                assert(t + n == total_samples(self@.take(i as int + 1)));
                assert(t + n <= usize::MAX);
            }
            t += n;
            i += 1;
        }
        proof {
            assert(self@.take(self.payloads@.len() as int) =~= self@);
        }
        t
    }

    /// Walk the concatenated sample stream under one contiguous downsampling
    /// mask and return the included positions, truncated in stream order at
    /// `capacity`. Position `g` times the nominal per-sample period is the
    /// g-th sample's timestamp; a counter gap adds no time, so positions run
    /// contiguously across skipped frames.
    pub fn interpret_timestamp_positions(&self, seed: u64, threshold: u32, scale: u32, capacity: u32) -> (r: Vec<u64>)
        requires
            self.wf(),
            total_samples(self@) <= usize::MAX,
            scale >= 1,
        ensures
            r@ == capped_positions(seed, scale, threshold, total_samples(self@), capacity as int),
    {
        let total = self.total_sample_count();
        let mask = compute_mask(seed, scale, threshold, 0, total);
        let mut out: Vec<u64> = Vec::new();
        let mut g: usize = 0;
        while g < total
            invariant
                total == total_samples(self@),
                mask@ == mask_seq(seed, scale, threshold, 0, total as int),
                g <= total,
                out@ == included_positions(seed, scale, threshold, g as int),
                out@.len() <= capacity,
            decreases total - g,
        {
            if out.len() >= capacity as usize {
                proof {
                    lemma_included_positions_prefix(seed, scale, threshold, g as int, total as int);
                }
                return out;
            }
            if mask[g] {
                assert(mask@[g as int] == mask_at(seed, scale, threshold, g as int));
                out.push(g as u64);
            }
            g += 1;
        }
        out
    }

    /// The positions the channel copier includes: recomputed payload by
    /// payload, with one mask chunk sized to each payload's own sample
    /// count, and capped once the running total reaches `capacity`. Selects
    /// exactly the positions of the single contiguous mask walk.
    pub fn copy_included_positions(&self, seed: u64, threshold: u32, scale: u32, capacity: u32) -> (r: Vec<u64>)
        requires
            self.wf(),
            total_samples(self@) <= usize::MAX,
            scale >= 1,
        ensures
            r@ == capped_positions(seed, scale, threshold, total_samples(self@), capacity as int),
    {
        let ghost full = self@;
        let mut out: Vec<u64> = Vec::new();
        let mut g: usize = 0;
        let mut k: usize = 0;
        while k < self.payloads.len()
            invariant
                self.wf(),
                total_samples(self@) <= usize::MAX,
                scale >= 1,
                k <= self.payloads@.len(),
                g == total_samples(self@.take(k as int)),
                out@ == included_positions(seed, scale, threshold, g as int),
                out@.len() <= capacity,
            decreases self.payloads@.len() - k,
        {
            let n = self.payloads[k].channels[0].len();
            proof {
                assert(self@[k as int] == self.payloads@[k as int]@);
                assert(n == self@[k as int].sample_count());
                assert(self@.take(k as int + 1) =~= self@.take(k as int).push(self@[k as int]));
                lemma_total_samples_snoc(self@.take(k as int), self@[k as int]);
                assert(self@ =~= self@.take(k as int + 1) + self@.skip(k as int + 1));
                lemma_total_samples_concat(self@.take(k as int + 1), self@.skip(k as int + 1));
                lemma_total_samples_nonneg(self@.skip(k as int + 1));
                assert(g + n <= total_samples(self@));
            }
            let mask = compute_mask(seed, scale, threshold, g, n);
            let mut j: usize = 0;
            while j < n
                invariant
                    self.wf(),
                    total_samples(self@) <= usize::MAX,
                    scale >= 1,
                    j <= n,
                    g + n <= total_samples(self@),
                    mask@ == mask_seq(seed, scale, threshold, g as int, n as int),
                    out@ == included_positions(seed, scale, threshold, g as int + j as int),
                    out@.len() <= capacity,
                decreases n - j,
            {
                if out.len() >= capacity as usize {
                    proof {
                        lemma_included_positions_prefix(
                            seed, scale, threshold,
                            g as int + j as int,
                            total_samples(self@),
                        );
                    }
                    return out;
                }
                if mask[j] {
                    assert(mask@[j as int] == mask_at(seed, scale, threshold, g as int + j as int));
                    out.push((g + j) as u64);
                }
                j += 1;
            }
            g += n;
            k += 1;
        }
        proof {
            assert(self@.take(self.payloads@.len() as int) =~= self@);
        }
        out
    }

    /// Collect channel `c`'s samples at the given ascending stream
    /// positions.
    fn copy_channel(&self, c: usize, positions: &Vec<u64>) -> (r: Vec<i16>)
        requires
            self.wf(),
            total_samples(self@) <= usize::MAX,
            forall|k1: int, k2: int| 0 <= k1 < k2 < positions@.len()
                ==> positions@[k1] < positions@[k2],
            forall|k: int| 0 <= k < positions@.len()
                ==> #[trigger] positions@[k] < total_samples(self@),
        ensures
            r@ == copied_channel(self@, c as int, positions@),
    {
        let mut col: Vec<i16> = Vec::new();
        let mut pi: usize = 0;
        let mut off: usize = 0;
        let mut k: usize = 0;
        while k < self.payloads.len()
            invariant
                self.wf(),
                total_samples(self@) <= usize::MAX,
                forall|k1: int, k2: int| 0 <= k1 < k2 < positions@.len()
                    ==> positions@[k1] < positions@[k2],
                forall|i: int| 0 <= i < positions@.len()
                    ==> #[trigger] positions@[i] < total_samples(self@),
                k <= self.payloads@.len(),
                off == total_samples(self@.take(k as int)),
                pi <= positions@.len(),
                forall|i: int| pi <= i < positions@.len() ==> #[trigger] positions@[i] >= off,
                col@ == copied_channel(self@, c as int, positions@.take(pi as int)),
            decreases self.payloads@.len() - k,
        {
            let n = self.payloads[k].channels[0].len();
            proof {
                assert(self@[k as int] == self.payloads@[k as int]@);
                assert(n == self@[k as int].sample_count());
                assert(self@.take(k as int + 1) =~= self@.take(k as int).push(self@[k as int]));
                lemma_total_samples_snoc(self@.take(k as int), self@[k as int]);
                assert(self@ =~= self@.take(k as int + 1) + self@.skip(k as int + 1));
                lemma_total_samples_concat(self@.take(k as int + 1), self@.skip(k as int + 1));
                lemma_total_samples_nonneg(self@.skip(k as int + 1));
                assert(off + n <= total_samples(self@));
            }
            while pi < positions.len() && positions[pi] < (off + n) as u64
                invariant
                    self.wf(),
                    forall|k1: int, k2: int| 0 <= k1 < k2 < positions@.len()
                        ==> positions@[k1] < positions@[k2],
                    forall|i: int| 0 <= i < positions@.len()
                        ==> #[trigger] positions@[i] < total_samples(self@),
                    k < self.payloads@.len(),
                    n == self@[k as int].sample_count(),
                    off == total_samples(self@.take(k as int)),
                    off + n == total_samples(self@.take(k as int + 1)),
                    off + n <= total_samples(self@) <= usize::MAX,
                    pi <= positions@.len(),
                    forall|i: int| pi <= i < positions@.len() ==> #[trigger] positions@[i] >= off,
                    col@ == copied_channel(self@, c as int, positions@.take(pi as int)),
                decreases positions@.len() - pi,
            {
                let pos = positions[pi];
                let j = pos as usize - off;
                proof {
                    lemma_channel_value_locate(self@, c as int, k as int, pos as int);
                    assert(positions@.take(pi as int + 1).drop_last() =~= positions@.take(pi as int));
                    assert(positions@.take(pi as int + 1).last() == positions@[pi as int]);
                }
                if c < self.payloads[k].channels.len() {
                    col.push(self.payloads[k].channels[c][j]);
                    assert(col@ =~= copied_channel(self@, c as int, positions@.take(pi as int + 1)));
                } else {
                    proof {
                        assert(self@[k as int].channels.len()
                            == self.payloads@[k as int].channels@.len());
                        assert(col@ =~= copied_channel(self@, c as int, positions@.take(pi as int + 1)));
                    }
                }
                pi += 1;
            }
            proof {
                assert forall|i: int| pi <= i < positions@.len()
                    implies #[trigger] positions@[i] >= off + n by {
                    if i > pi {
                        assert(positions@[pi as int] < positions@[i]);
                    }
                }
            }
            off += n;
            k += 1;
        }
        proof {
            assert(self@.take(self.payloads@.len() as int) =~= self@);
            assert(pi == positions@.len()) by {
                if pi < positions@.len() {
                    assert(positions@[pi as int] >= off);
                }
            }
            assert(positions@.take(pi as int) =~= positions@);
        }
        col
    }

    /// How many output channels the copier fills: the session's channel
    /// count, capped at the wire format's eight.
    pub open spec fn spec_channel_slots(active: u8) -> int {
        if active > 8 {
            8
        } else {
            active as int
        }
    }

    /// Select sample positions with the payload-chunked downsampling mask,
    /// capped at `capacity` positions across the whole session, and copy
    /// each populated channel's samples at those positions into one output
    /// column per channel. Returns the columns and the number of included
    /// positions.
    pub fn copy_signal_values(&self, seed: u64, threshold: u32, scale: u32, capacity: u32) -> (r: (Vec<Vec<i16>>, u32))
        requires
            self.wf(),
            total_samples(self@) <= usize::MAX,
            scale >= 1,
        ensures
            ({
                let pos = capped_positions(seed, scale, threshold, total_samples(self@), capacity as int);
                &&& r.1 == pos.len()
                &&& r.0@.len() == Self::spec_channel_slots(self.active_channels)
                &&& forall|c: int| 0 <= c < r.0@.len()
                    ==> (#[trigger] r.0@[c])@ == copied_channel(self@, c, pos)
            }),
    {
        let positions = self.copy_included_positions(seed, threshold, scale, capacity);
        proof {
            lemma_total_samples_nonneg(self@);
            lemma_included_positions_bounds(seed, scale, threshold, total_samples(self@));
        }
        let count = positions.len() as u32;
        let slots: usize = if self.active_channels > 8 { 8 } else { self.active_channels as usize };
        let mut outs: Vec<Vec<i16>> = Vec::new();
        let mut c: usize = 0;
        while c < slots
            invariant
                self.wf(),
                total_samples(self@) <= usize::MAX,
                scale >= 1,
                c <= slots,
                slots == Self::spec_channel_slots(self.active_channels),
                positions@ == capped_positions(seed, scale, threshold, total_samples(self@), capacity as int),
                forall|k1: int, k2: int| 0 <= k1 < k2 < positions@.len()
                    ==> positions@[k1] < positions@[k2],
                forall|i: int| 0 <= i < positions@.len()
                    ==> #[trigger] positions@[i] < total_samples(self@),
                outs@.len() == c,
                forall|cc: int| 0 <= cc < c
                    ==> (#[trigger] outs@[cc])@ == copied_channel(self@, cc, positions@),
            decreases slots - c,
        {
            let col = self.copy_channel(c, &positions);
            outs.push(col);
            c += 1;
        }
        (outs, count)
    }
}

} // verus!
