//! A model of the shared output file.
//!
//! The destination file is modelled as a partial map from absolute byte
//! offset to byte value: an offset is in the domain once some chunk write
//! has covered it. Each segment fetch writes its arriving chunks at a
//! running offset, so a segment's whole effect is one contiguous write of
//! the concatenation of its chunks. The lemmas here show that such writes
//! fill exactly the segment's region with the resource's bytes, that they
//! leave everything else untouched, and that writes to disjoint regions
//! commute — which is why neither chunk sizes nor segment completion
//! order can change the final file.
use vstd::prelude::*;
use vstd::pervasive::VecAdditionalExecFns;

verus! {

/// The set of integer offsets in `[a, b)`.
pub open spec fn range_set(a: int, b: int) -> Set<int> {
    Set::new(|k: int| a <= k < b)
}

/// The file after writing `data` at offset `off`: offsets under the write
/// take the new bytes, every other offset keeps its old binding.
pub open spec fn write_at(file: Map<int, u8>, off: int, data: Seq<u8>) -> Map<int, u8> {
    Map::new(
        |k: int| file.dom().contains(k) || (off <= k < off + data.len()),
        |k: int|
            if off <= k < off + data.len() {
                data[k - off]
            } else {
                file[k]
            },
    )
}

/// The file after a segment fetch that started writing at `start` and
/// received `chunks` in order, advancing the write offset by each
/// chunk's length.
pub open spec fn apply_chunks(file: Map<int, u8>, start: int, chunks: Seq<Seq<u8>>) -> Map<int, u8>
    decreases chunks.len(),
{
    if chunks.len() == 0 {
        file
    } else {
        apply_chunks(write_at(file, start, chunks.first()), start + chunks.first().len(), chunks.drop_first())
    }
}

/// Two back-to-back writes are one write of the concatenation.
proof fn lemma_write_write_adjacent(file: Map<int, u8>, off: int, a: Seq<u8>, b: Seq<u8>)
    ensures
        write_at(write_at(file, off, a), off + a.len(), b) == write_at(file, off, a + b),
{
    let lhs = write_at(write_at(file, off, a), off + a.len(), b);
    let rhs = write_at(file, off, a + b);
    assert forall|k: int| lhs.dom().contains(k) implies rhs.dom().contains(k) by {}
    assert forall|k: int| rhs.dom().contains(k) implies lhs.dom().contains(k) by {}
    assert forall|k: int| lhs.dom().contains(k) implies lhs[k] == rhs[k] by {
        if off <= k < off + a.len() {
            assert((a + b)[k - off] == a[k - off]);
        } else if off + a.len() <= k < off + a.len() + b.len() {
            assert((a + b)[k - off] == b[k - off - a.len()]);
        }
    }
    assert(lhs =~= rhs);
}

/// A segment's chunk-by-chunk writes have the same effect as one write
/// of the concatenation of its chunks at the segment's start: so the
/// sizes into which the transport happened to cut the body cannot change
/// the final file.
pub proof fn lemma_apply_chunks_is_single_write(file: Map<int, u8>, start: int, chunks: Seq<Seq<u8>>)
    ensures
        apply_chunks(file, start, chunks) == write_at(file, start, chunks.flatten()),
    decreases chunks.len(),
{
    if chunks.len() == 0 {
        assert(write_at(file, start, chunks.flatten()) =~= file);
    } else {
        lemma_apply_chunks_is_single_write(
            write_at(file, start, chunks.first()),
            start + chunks.first().len(),
            chunks.drop_first(),
        );
        lemma_write_write_adjacent(file, start, chunks.first(), chunks.drop_first().flatten());
    }
}

/// A segment whose chunks concatenate to the resource's bytes over
/// `[start, end_ex)` writes exactly that region: afterwards the region
/// holds the resource's bytes at their own offsets, every offset outside
/// it is untouched, and the domain grows by exactly the region.
pub proof fn lemma_segment_chunks_write_exact(
    file: Map<int, u8>,
    resource: Seq<u8>,
    start: int,
    end_ex: int,
    chunks: Seq<Seq<u8>>,
)
    requires
        0 <= start <= end_ex <= resource.len(),
        chunks.flatten() == resource.subrange(start, end_ex),
    ensures
        ({
            let f2 = apply_chunks(file, start, chunks);
            &&& f2.dom() =~= file.dom().union(range_set(start, end_ex))
            &&& forall|k: int| start <= k < end_ex ==> f2[k] == resource[k]
            &&& forall|k: int|
                file.dom().contains(k) && !(start <= k < end_ex) ==> f2[k] == file[k]
        }),
{
    lemma_apply_chunks_is_single_write(file, start, chunks);
    let data = chunks.flatten();
    assert(data.len() == end_ex - start);
    let f2 = apply_chunks(file, start, chunks);
    assert forall|k: int| start <= k < end_ex implies f2[k] == resource[k] by {
        assert(data[k - start] == resource.subrange(start, end_ex)[k - start]);
    }
}

/// The in-memory realization of one seek-and-write pair: place `chunk`
/// at offset `off` of the buffer, leaving every other byte unchanged.
/// This is the whole effect that one guarded seek+write of a segment
/// task has on the shared file.
pub fn write_chunk_into(buf: &mut Vec<u8>, off: usize, chunk: &[u8])
    requires
        off + chunk@.len() <= old(buf)@.len(),
    ensures
        final(buf)@.len() == old(buf)@.len(),
        forall|k: int|
            0 <= k < final(buf)@.len() ==> final(buf)@[k] == (if off <= k < off + chunk@.len() {
                chunk@[k - off]
            } else {
                old(buf)@[k]
            }),
{
    let n = buf.len();
    let mut i: usize = 0;
    while i < chunk.len()
        invariant
            0 <= i <= chunk@.len(),
            off + chunk@.len() <= n == buf@.len(),
            buf@.len() == old(buf)@.len(),
            forall|k: int|
                0 <= k < buf@.len() ==> buf@[k] == (if off <= k < off + i {
                    chunk@[k - off]
                } else {
                    old(buf)@[k]
                }),
        decreases chunk@.len() - i,
    {
        buf.set(off + i, chunk[i]);
        i = i + 1;
    }
}

/// The file after a sequence of write events, each an (offset, bytes)
/// pair, applied in the given order.
pub open spec fn apply_writes(file: Map<int, u8>, events: Seq<(int, Seq<u8>)>) -> Map<int, u8>
    decreases events.len(),
{
    if events.len() == 0 {
        file
    } else {
        apply_writes(write_at(file, events.first().0, events.first().1), events.drop_first())
    }
}

/// True iff the event writes the resource's own bytes at its own
/// offsets.
pub open spec fn event_matches(resource: Seq<u8>, ev: (int, Seq<u8>)) -> bool {
    &&& 0 <= ev.0
    &&& ev.0 + ev.1.len() <= resource.len()
    &&& ev.1 == resource.subrange(ev.0, ev.0 + ev.1.len())
}

/// True iff every event writes the resource's own bytes at its own
/// offsets: what the guarded seek+write pairs of a correct download do,
/// in whatever order the scheduler runs them.
pub open spec fn events_match_resource(resource: Seq<u8>, events: Seq<(int, Seq<u8>)>) -> bool {
    forall|e: int| 0 <= e < events.len() ==> event_matches(resource, #[trigger] events[e])
}

/// The set of offsets that some event of the sequence writes.
pub open spec fn events_dom(events: Seq<(int, Seq<u8>)>) -> Set<int>
    decreases events.len(),
{
    if events.len() == 0 {
        Set::empty()
    } else {
        range_set(events.first().0, events.first().0 + events.first().1.len()).union(
            events_dom(events.drop_first()),
        )
    }
}

/// An offset is written by the event sequence exactly when some event's
/// range covers it — a characterization independent of event order.
pub proof fn lemma_events_dom_iff(events: Seq<(int, Seq<u8>)>, k: int)
    ensures
        events_dom(events).contains(k) <==> exists|e: int|
            0 <= e < events.len() && (#[trigger] events[e]).0 <= k < events[e].0
                + events[e].1.len(),
    decreases events.len(),
{
    if events.len() > 0 {
        lemma_events_dom_iff(events.drop_first(), k);
        assert(forall|e: int|
            0 <= e < events.drop_first().len() ==> #[trigger] events.drop_first()[e] == events[e
                + 1]);
        if events_dom(events).contains(k) {
            if events.first().0 <= k < events.first().0 + events.first().1.len() {
                assert(events[0].0 <= k < events[0].0 + events[0].1.len());
            } else {
                let e = choose|e: int|
                    0 <= e < events.drop_first().len() && (#[trigger] events.drop_first()[e]).0
                        <= k < events.drop_first()[e].0 + events.drop_first()[e].1.len();
                assert(events[e + 1].0 <= k < events[e + 1].0 + events[e + 1].1.len());
            }
        }
        if exists|e: int|
            0 <= e < events.len() && (#[trigger] events[e]).0 <= k < events[e].0
                + events[e].1.len() {
            let e = choose|e: int|
                0 <= e < events.len() && (#[trigger] events[e]).0 <= k < events[e].0
                    + events[e].1.len();
            if e == 0 {
                assert(range_set(events.first().0, events.first().0 + events.first().1.len())
                    .contains(k));
            } else {
                assert(events.drop_first()[e - 1] == events[e]);
                assert(events_dom(events.drop_first()).contains(k));
            }
        }
    }
}

/// The offsets written by a concatenation of event sequences are the
/// union of the offsets each part writes.
pub proof fn lemma_events_dom_concat(a: Seq<(int, Seq<u8>)>, b: Seq<(int, Seq<u8>)>)
    ensures
        events_dom(a + b) =~= events_dom(a).union(events_dom(b)),
    decreases a.len(),
{
    if a.len() == 0 {
        assert(a + b =~= b);
        assert(events_dom(a) =~= Set::<int>::empty());
    } else {
        assert((a + b).first() == a.first());
        assert((a + b).drop_first() =~= a.drop_first() + b);
        lemma_events_dom_concat(a.drop_first(), b);
    }
}

/// Write events that each place the resource's own bytes at their own
/// offsets rebuild the resource wherever they touched the file — in
/// every order the events could arrive in, since no event can disturb
/// what another one wrote. With events that jointly cover the resource,
/// the file is the whole resource, byte for byte.
pub proof fn lemma_any_write_order_rebuilds_resource(
    file: Map<int, u8>,
    resource: Seq<u8>,
    events: Seq<(int, Seq<u8>)>,
)
    requires
        events_match_resource(resource, events),
        forall|k: int|
            #[trigger] file.dom().contains(k) ==> 0 <= k < resource.len() && file[k]
                == resource[k],
    ensures
        ({
            let f2 = apply_writes(file, events);
            &&& f2.dom() =~= file.dom().union(events_dom(events))
            &&& forall|k: int|
                #[trigger] f2.dom().contains(k) ==> 0 <= k < resource.len() && f2[k]
                    == resource[k]
        }),
    decreases events.len(),
{
    if events.len() > 0 {
        let (off, data) = events.first();
        assert(events[0] == (off, data));
        assert(event_matches(resource, (off, data)));
        let f1 = write_at(file, off, data);
        assert forall|k: int| f1.dom().contains(k) implies 0 <= k < resource.len() && f1[k]
            == resource[k] by {
            if off <= k < off + data.len() {
                assert(f1[k] == data[k - off]);
                assert(data[k - off] == resource.subrange(off, off + data.len())[k - off]);
            } else {
                assert(file.dom().contains(k));
                assert(0 <= k < resource.len() && file[k] == resource[k]);
                assert(f1[k] == file[k]);
            }
        }
        assert(events_match_resource(resource, events.drop_first())) by {
            assert(forall|e: int|
                0 <= e < events.drop_first().len() ==> #[trigger] events.drop_first()[e]
                    == events[e + 1]);
        }
        lemma_any_write_order_rebuilds_resource(f1, resource, events.drop_first());
        assert(f1.dom() =~= file.dom().union(range_set(off, off + data.len())));
        assert(apply_writes(file, events).dom() =~= file.dom().union(events_dom(events)));
    } else {
        assert(file.dom().union(events_dom(events)) =~= file.dom());
    }
}

/// Writes to disjoint regions commute: the order in which two segments'
/// writes reach the file cannot change the final file.
pub proof fn lemma_disjoint_writes_commute(
    file: Map<int, u8>,
    s1: int,
    d1: Seq<u8>,
    s2: int,
    d2: Seq<u8>,
)
    requires
        s1 + d1.len() <= s2 || s2 + d2.len() <= s1,
    ensures
        write_at(write_at(file, s1, d1), s2, d2) == write_at(write_at(file, s2, d2), s1, d1),
{
    let lhs = write_at(write_at(file, s1, d1), s2, d2);
    let rhs = write_at(write_at(file, s2, d2), s1, d1);
    assert forall|k: int| lhs.dom().contains(k) implies rhs.dom().contains(k) by {}
    assert forall|k: int| rhs.dom().contains(k) implies lhs.dom().contains(k) by {}
    assert(lhs =~= rhs);
}

} // verus!
