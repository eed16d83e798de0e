use vstd::prelude::*;
use crate::measurement::{
    sorted_by_counter, insert_sorted, lemma_insert_sorted_props, included_positions,
    capped_positions,
};
use crate::payload::PayloadModel;
use crate::sampling::{mask_at, mask_seq, lemma_mask_seq_split};

verus! {

/// Ingesting the same payload twice leaves exactly what ingesting it once
/// leaves: a counter already stored is discarded, so retransmissions are
/// harmless.
pub proof fn lemma_dedup_idempotent(s: Seq<PayloadModel>, p: PayloadModel)
    requires
        sorted_by_counter(s),
    ensures
        insert_sorted(insert_sorted(s, p), p) == insert_sorted(s, p),
    decreases s.len(),
{
    if s.len() == 0 {
        assert(insert_sorted(s, p) == seq![p]);
        assert(seq![p][0] == p);
    } else if p.counter < s[0].counter {
        assert(insert_sorted(s, p) == seq![p] + s);
        assert((seq![p] + s)[0] == p);
    } else if p.counter == s[0].counter {
    } else {
        let tail = s.drop_first();
        let r = seq![s[0]] + insert_sorted(tail, p);
        assert(insert_sorted(s, p) == r);
        assert(r[0] == s[0]);
        assert(r.len() > 0);
        assert(r.drop_first() =~= insert_sorted(tail, p));
        lemma_dedup_idempotent(tail, p);
        assert(insert_sorted(r, p) =~= seq![r[0]] + insert_sorted(r.drop_first(), p));
        assert(seq![r[0]] + insert_sorted(r.drop_first(), p) =~= r);
    }
}

/// Folding a whole batch of payloads through ingestion, one at a time in
/// the order given.
pub open spec fn ingest_all(s0: Seq<PayloadModel>, ps: Seq<PayloadModel>) -> Seq<PayloadModel>
    decreases ps.len(),
{
    if ps.len() == 0 {
        s0
    } else {
        ingest_all(insert_sorted(s0, ps[0]), ps.drop_first())
    }
}

/// No two elements share a counter.
pub open spec fn distinct_counters(ps: Seq<PayloadModel>) -> bool {
    forall|i: int, j: int| 0 <= i < j < ps.len() ==> ps[i].counter != ps[j].counter
}

proof fn lemma_ingest_all_props(s0: Seq<PayloadModel>, ps: Seq<PayloadModel>)
    requires
        sorted_by_counter(s0),
        distinct_counters(ps),
        forall|i: int, j: int| 0 <= i < ps.len() && 0 <= j < s0.len()
            ==> ps[i].counter != s0[j].counter,
    ensures
        sorted_by_counter(ingest_all(s0, ps)),
        forall|q: PayloadModel| ingest_all(s0, ps).contains(q) <==> s0.contains(q) || ps.contains(q),
    decreases ps.len(),
{
    if ps.len() == 0 {
        assert(forall|q: PayloadModel| !ps.contains(q));
    } else {
        let p = ps[0];
        let s1 = insert_sorted(s0, p);
        let tail = ps.drop_first();
        lemma_insert_sorted_props(s0, p);
        assert(s1.contains(p)) by {
            if exists|i: int| 0 <= i < s0.len() && s0[i].counter == p.counter {
                let i = choose|i: int| 0 <= i < s0.len() && s0[i].counter == p.counter;
                assert(ps[0].counter != s0[i].counter);
                assert(false);
            }
        }
        assert(forall|q: PayloadModel| s1.contains(q) <==> s0.contains(q) || q == p) by {
            assert(forall|q: PayloadModel| s1.contains(q) ==> q == p || s0.contains(q));
            assert(forall|q: PayloadModel| s0.contains(q) ==> s1.contains(q));
        }
        assert forall|i: int, j: int| 0 <= i < tail.len() && 0 <= j < s1.len()
            implies tail[i].counter != s1[j].counter by {
            assert(tail[i] == ps[i + 1]);
            assert(s1.contains(s1[j]));
            if s1[j] == p {
                assert(ps[i + 1].counter != ps[0].counter);
            } else {
                assert(s0.contains(s1[j]));
                let k = choose|k: int| 0 <= k < s0.len() && s0[k] == s1[j];
                assert(ps[i + 1].counter != s0[k].counter);
            }
        }
        lemma_ingest_all_props(s1, tail);
        assert forall|q: PayloadModel| ingest_all(s0, ps).contains(q)
            <==> s0.contains(q) || ps.contains(q) by {
            assert(ingest_all(s0, ps) == ingest_all(s1, tail));
            if ps.contains(q) {
                let i = choose|i: int| 0 <= i < ps.len() && ps[i] == q;
                if i == 0 {
                    assert(s1.contains(q));
                } else {
                    assert(tail[i - 1] == q);
                    assert(tail.contains(q));
                }
            }
            if tail.contains(q) {
                let i = choose|i: int| 0 <= i < tail.len() && tail[i] == q;
                assert(ps[i + 1] == q);
                assert(ps.contains(q));
            }
        }
    }
}

/// Two strictly sorted sequences holding the same elements are the same
/// sequence.
proof fn lemma_sorted_unique(a: Seq<PayloadModel>, b: Seq<PayloadModel>)
    requires
        sorted_by_counter(a),
        sorted_by_counter(b),
        forall|q: PayloadModel| a.contains(q) <==> b.contains(q),
    ensures
        a == b,
    decreases a.len(),
{
    if a.len() == 0 {
        if b.len() > 0 {
            assert(b.contains(b[0]));
            assert(a.contains(b[0]));
            assert(false);
        }
        assert(a =~= b);
    } else {
        assert(a.contains(a[0]));
        assert(b.contains(a[0]));
        let jb = choose|j: int| 0 <= j < b.len() && b[j] == a[0];
        assert(b.contains(b[0]));
        assert(a.contains(b[0]));
        let ja = choose|j: int| 0 <= j < a.len() && a[j] == b[0];
        assert(a[0].counter <= a[ja].counter);
        assert(b[0].counter <= b[jb].counter);
        assert(a[0] == b[0]) by {
            assert(a[0].counter <= b[0].counter && b[0].counter <= a[0].counter);
            if jb > 0 {
                assert(b[0].counter < b[jb].counter);
                assert(false);
            }
        }
        let ta = a.drop_first();
        let tb = b.drop_first();
        assert(forall|i: int| 0 <= i < ta.len() ==> ta[i] == a[i + 1]);
        assert(forall|i: int| 0 <= i < tb.len() ==> tb[i] == b[i + 1]);
        assert forall|q: PayloadModel| ta.contains(q) <==> tb.contains(q) by {
            if ta.contains(q) {
                let i = choose|i: int| 0 <= i < ta.len() && ta[i] == q;
                assert(a[i + 1] == q);
                assert(a.contains(q));
                assert(b.contains(q));
                let j = choose|j: int| 0 <= j < b.len() && b[j] == q;
                assert(q.counter > a[0].counter);
                if j == 0 {
                    assert(false);
                }
                assert(tb[j - 1] == q);
                assert(tb.contains(q));
            }
            if tb.contains(q) {
                let i = choose|i: int| 0 <= i < tb.len() && tb[i] == q;
                assert(b[i + 1] == q);
                assert(b.contains(q));
                assert(a.contains(q));
                let j = choose|j: int| 0 <= j < a.len() && a[j] == q;
                assert(q.counter > b[0].counter);
                if j == 0 {
                    assert(false);
                }
                assert(ta[j - 1] == q);
                assert(ta.contains(q));
            }
        }
        assert(sorted_by_counter(ta));
        assert(sorted_by_counter(tb));
        lemma_sorted_unique(ta, tb);
        assert(ta == tb);
        assert(a.len() == b.len());
        assert forall|i: int| 0 <= i < a.len() implies a[i] == b[i] by {
            if i > 0 {
                assert(a[i] == ta[i - 1]);
                assert(b[i] == tb[i - 1]);
            }
        }
        assert(a =~= b);
    }
}

/// Ingesting one set of payloads, in whatever order its elements come,
/// yields one and the same sorted-by-counter sequence. The requirement that
/// counters be pairwise distinct is what makes the batch a set: two
/// different payloads sharing a counter are resolved by arrival order.
pub proof fn lemma_order_invariance(ps1: Seq<PayloadModel>, ps2: Seq<PayloadModel>)
    requires
        distinct_counters(ps1),
        distinct_counters(ps2),
        forall|q: PayloadModel| ps1.contains(q) <==> ps2.contains(q),
    ensures
        ingest_all(Seq::<PayloadModel>::empty(), ps1)
            == ingest_all(Seq::<PayloadModel>::empty(), ps2),
{
    let empty = Seq::<PayloadModel>::empty();
    lemma_ingest_all_props(empty, ps1);
    lemma_ingest_all_props(empty, ps2);
    assert(forall|q: PayloadModel| !empty.contains(q));
    assert forall|q: PayloadModel|
        ingest_all(empty, ps1).contains(q) <==> ingest_all(empty, ps2).contains(q) by {
        assert(ingest_all(empty, ps1).contains(q) <==> empty.contains(q) || ps1.contains(q));
        assert(ingest_all(empty, ps2).contains(q) <==> empty.contains(q) || ps2.contains(q));
        assert(ps1.contains(q) <==> ps2.contains(q));
    }
    lemma_sorted_unique(ingest_all(empty, ps1), ingest_all(empty, ps2));
}

/// The sum of a sequence of chunk lengths.
pub open spec fn chunk_sum(chunks: Seq<int>) -> int
    decreases chunks.len(),
{
    if chunks.len() == 0 {
        0
    } else {
        chunks[0] + chunk_sum(chunks.drop_first())
    }
}

/// The downsampling masks of consecutive chunks, concatenated in stream
/// order.
pub open spec fn concat_chunk_masks(seed: u64, scale: u32, threshold: u32, offset: int, chunks: Seq<int>) -> Seq<bool>
    decreases chunks.len(),
{
    if chunks.len() == 0 {
        Seq::empty()
    } else {
        mask_seq(seed, scale, threshold, offset, chunks[0]) + concat_chunk_masks(
            seed, scale, threshold,
            offset + chunks[0],
            chunks.drop_first(),
        )
    }
}

/// One contiguous mask over a stream equals the concatenation of per-chunk
/// masks over any partition of that stream into consecutive chunks: the
/// payload-by-payload recomputation selects exactly what the single
/// contiguous walk selects.
pub proof fn lemma_mask_partition(seed: u64, scale: u32, threshold: u32, offset: int, chunks: Seq<int>)
    requires
        forall|i: int| 0 <= i < chunks.len() ==> chunks[i] >= 0,
    ensures
        concat_chunk_masks(seed, scale, threshold, offset, chunks)
            == mask_seq(seed, scale, threshold, offset, chunk_sum(chunks)),
    decreases chunks.len(),
{
    if chunks.len() == 0 {
        assert(concat_chunk_masks(seed, scale, threshold, offset, chunks)
            =~= mask_seq(seed, scale, threshold, offset, 0));
    } else {
        let tail = chunks.drop_first();
        assert(forall|i: int| 0 <= i < tail.len() ==> tail[i] == chunks[i + 1]);
        lemma_mask_partition(seed, scale, threshold, offset + chunks[0], tail);
        lemma_chunk_sum_nonneg(tail);
        lemma_mask_seq_split(seed, scale, threshold, offset, chunks[0], chunk_sum(tail));
    }
}

proof fn lemma_chunk_sum_nonneg(chunks: Seq<int>)
    requires
        forall|i: int| 0 <= i < chunks.len() ==> chunks[i] >= 0,
    ensures
        chunk_sum(chunks) >= 0,
    decreases chunks.len(),
{
    if chunks.len() > 0 {
        assert(forall|i: int| 0 <= i < chunks.drop_first().len()
            ==> chunks.drop_first()[i] == chunks[i + 1]);
        lemma_chunk_sum_nonneg(chunks.drop_first());
    }
}

/// A scale of 1 includes every stream position, whatever the seed and
/// threshold: every draw is 0 modulo 1.
pub proof fn lemma_scale_one_includes_all(seed: u64, threshold: u32, total: int)
    requires
        0 <= total <= 0xFFFF_FFFF_FFFF_FFFF,
    ensures
        forall|i: int| mask_at(seed, 1, threshold, i),
        included_positions(seed, 1, threshold, total)
            == Seq::new(total as nat, |k: int| k as u64),
    decreases total,
{
    if total > 0 {
        lemma_scale_one_includes_all(seed, threshold, total - 1);
        assert(included_positions(seed, 1, threshold, total)
            =~= Seq::new(total as nat, |k: int| k as u64));
    } else {
        assert(included_positions(seed, 1, threshold, 0)
            =~= Seq::new(0, |k: int| k as u64));
    }
}

/// When the destination cannot hold every included position, both read
/// paths hand back exactly `cap` positions, the first `cap` in stream
/// order, and no error arises.
pub proof fn lemma_capacity_truncation(seed: u64, scale: u32, threshold: u32, total: int, cap: int)
    requires
        0 <= cap,
        cap < included_positions(seed, scale, threshold, total).len(),
    ensures
        capped_positions(seed, scale, threshold, total, cap).len() == cap,
        capped_positions(seed, scale, threshold, total, cap)
            == included_positions(seed, scale, threshold, total).take(cap),
{
}

} // verus!
