//! Reassembly of the fragments of plaintext UDP datagrams.
//!
//! A reassembler keeps one set per fragment id. The number of sets and the bytes they hold are
//! bounded: while a new fragment has no room, the oldest other set is dropped, and sets that stay
//! incomplete are dropped after a while.

use crate::buffer::{buffer_bytes, frozen_bytes, frozen_option};
use crate::buffer::{bytes_slice, copy_bytes, freeze, new_buffer, put_slice};
use crate::protocol::{FragmentView, PlainUdpFragment};
use bytes::Bytes;
use std::collections::HashMap;
use vstd::prelude::*;
use vstd::std_specs::iter::IteratorSpec;

verus! {

broadcast use vstd::std_specs::hash::group_hash_axioms;

/// Nanoseconds after which an incomplete set is dropped.
pub const PLAIN_REASSEMBLY_TIMEOUT: u64 = 5_000_000_000;

/// The largest number of incomplete sets.
pub const MAX_REASSEMBLY_SETS: usize = 256;

/// The largest number of bytes that incomplete sets hold together.
pub const MAX_REASSEMBLY_BYTES: usize = 8 * 1024 * 1024;

// ---------------------------------------------------------------------------
// Model
// ---------------------------------------------------------------------------

/// The fragments received so far of one datagram.
#[verifier::ext_equal]
pub struct SetView {
    /// When the first fragment arrived, in nanoseconds.
    pub created: u64,
    /// The declared length of the datagram.
    pub total_len: nat,
    /// The chunk of each fragment, once it has arrived.
    pub chunks: Seq<Option<Seq<u8>>>,
}

/// The number of chunks that have arrived.
pub open spec fn received_count(chunks: Seq<Option<Seq<u8>>>) -> nat
    decreases chunks.len(),
{
    if chunks.len() == 0 {
        0
    } else {
        received_count(chunks.drop_last()) + (if chunks.last() is Some {
            1nat
        } else {
            0
        })
    }
}

/// The number of bytes of the chunks that have arrived.
pub open spec fn received_bytes(chunks: Seq<Option<Seq<u8>>>) -> nat
    decreases chunks.len(),
{
    if chunks.len() == 0 {
        0
    } else {
        received_bytes(chunks.drop_last()) + (match chunks.last() {
            Some(c) => c.len(),
            None => 0,
        })
    }
}

/// The chunks that have arrived, one after the other.
pub open spec fn joined(chunks: Seq<Option<Seq<u8>>>) -> Seq<u8>
    decreases chunks.len(),
{
    if chunks.len() == 0 {
        Seq::empty()
    } else {
        joined(chunks.drop_last()) + (match chunks.last() {
            Some(c) => c,
            None => Seq::empty(),
        })
    }
}

/// The number of bytes that all sets hold together.
pub open spec fn stored(m: Map<u64, SetView>) -> nat
    decreases m.dom().len(),
    when m.dom().finite()
{
    if m.dom().len() == 0 {
        0
    } else {
        let id = m.dom().choose();
        stored(m.remove(id)) + received_bytes(m[id].chunks)
    }
}

/// Whether `id` is, among the sets other than `except`, one of the oldest.
pub open spec fn oldest(m: Map<u64, SetView>, except: u64, id: u64) -> bool {
    &&& m.contains_key(id)
    &&& id != except
    &&& forall|k: u64| #[trigger] m.contains_key(k) && k != except ==> m[id].created <= m[k].created
}

/// Whether there is a set other than `except`.
pub open spec fn has_other(m: Map<u64, SetView>, except: u64) -> bool {
    exists|k: u64| #[trigger] m.contains_key(k) && k != except
}

/// `kept` is `m` after the oldest set other than `except` was dropped for as long as there was no
/// room for one more set.
pub open spec fn makes_room_for_set(
    m: Map<u64, SetView>,
    except: u64,
    kept: Map<u64, SetView>,
) -> bool
    decreases m.dom().len(),
    when m.dom().finite()
{
    if m.dom().len() < MAX_REASSEMBLY_SETS || !has_other(m, except) {
        kept == m
    } else {
        exists|id: u64| #[trigger]
            oldest(m, except, id) && makes_room_for_set(m.remove(id), except, kept)
    }
}

/// `kept` is `m` after the oldest set other than `except` was dropped for as long as there was no
/// room for `len` more bytes.
pub open spec fn makes_room_for_bytes(
    m: Map<u64, SetView>,
    except: u64,
    len: nat,
    kept: Map<u64, SetView>,
) -> bool
    decreases m.dom().len(),
    when m.dom().finite()
{
    if stored(m) + len <= MAX_REASSEMBLY_BYTES || !has_other(m, except) {
        kept == m
    } else {
        exists|id: u64| #[trigger]
            oldest(m, except, id) && makes_room_for_bytes(m.remove(id), except, len, kept)
    }
}

/// The set that a first fragment opens.
pub open spec fn fresh_set(f: FragmentView, now: u64) -> SetView {
    SetView {
        created: now,
        total_len: f.total_len as nat,
        chunks: Seq::new(f.fragment_count as nat, |i: int| None),
    }
}

/// `opened` is `m` with a set for the fragment.
pub open spec fn opens_set(
    m: Map<u64, SetView>,
    f: FragmentView,
    now: u64,
    opened: Map<u64, SetView>,
) -> bool {
    if m.contains_key(f.fragment_id) {
        opened == m
    } else {
        exists|kept: Map<u64, SetView>| #[trigger]
            makes_room_for_set(m, f.fragment_id, kept) && opened == kept.insert(
                f.fragment_id,
                fresh_set(f, now),
            )
    }
}

/// The chunks of the fragment's set once the fragment is in it.
pub open spec fn chunks_with(m: Map<u64, SetView>, f: FragmentView) -> Seq<Option<Seq<u8>>> {
    m[f.fragment_id].chunks.update(f.fragment_index as int, Some(f.chunk))
}

/// The sets after the fragment was put into its set in `kept`. The set leaves when it is complete
/// or when the fragment cannot belong to it.
pub open spec fn sets_after(kept: Map<u64, SetView>, f: FragmentView) -> Map<u64, SetView> {
    let id = f.fragment_id;
    let set = kept[id];
    let chunks = chunks_with(kept, f);
    if stored(kept) + f.chunk.len() > MAX_REASSEMBLY_BYTES {
        kept.remove(id)
    } else if set.chunks[f.fragment_index as int] is Some {
        kept
    } else if received_bytes(set.chunks) + f.chunk.len() > set.total_len {
        kept.remove(id)
    } else if received_count(chunks) == chunks.len() {
        kept.remove(id)
    } else {
        kept.insert(id, SetView { chunks, ..set })
    }
}

/// The datagram that the fragment completes when it is put into its set in `kept`.
pub open spec fn completed(kept: Map<u64, SetView>, f: FragmentView) -> Option<Seq<u8>> {
    let set = kept[f.fragment_id];
    let chunks = chunks_with(kept, f);
    if stored(kept) + f.chunk.len() <= MAX_REASSEMBLY_BYTES
        && set.chunks[f.fragment_index as int] is None && received_bytes(chunks) == set.total_len
        && received_count(chunks) == chunks.len() {
        Some(joined(chunks))
    } else {
        None
    }
}

/// One fragment arrives: from the sets `m` to the sets `after`, with the datagram `out` completed.
/// Which of several equally old sets makes room is left open.
pub open spec fn pushes(
    m: Map<u64, SetView>,
    f: FragmentView,
    now: u64,
    after: Map<u64, SetView>,
    out: Option<Seq<u8>>,
) -> bool {
    let id = f.fragment_id;
    if f.chunk.len() > f.total_len {
        after == m && out is None
    } else if m.contains_key(id) && (m[id].total_len != f.total_len || m[id].chunks.len()
        != f.fragment_count) {
        after == m.remove(id) && out is None
    } else {
        exists|opened: Map<u64, SetView>, kept: Map<u64, SetView>|
            {
                &&& #[trigger] opens_set(m, f, now, opened)
                &&& #[trigger] makes_room_for_bytes(opened, id, f.chunk.len(), kept)
                &&& after == sets_after(kept, f)
                &&& out == completed(kept, f)
            }
    }
}

/// Whether a set has expired at the time `now`.
pub open spec fn expired(set: SetView, now: u64) -> bool {
    now - set.created > PLAIN_REASSEMBLY_TIMEOUT
}

/// A fragment that arrives twice is ignored the second time, as long as the sets have room for its
/// bytes.
pub proof fn law_duplicate_ignored(
    m: Map<u64, SetView>,
    f: FragmentView,
    now: u64,
    after: Map<u64, SetView>,
    out: Option<Seq<u8>>,
)
    requires
        m.dom().finite(),
        m.contains_key(f.fragment_id),
        m[f.fragment_id].total_len == f.total_len,
        m[f.fragment_id].chunks.len() == f.fragment_count,
        f.fragment_index < f.fragment_count,
        m[f.fragment_id].chunks[f.fragment_index as int] is Some,
        stored(m) + f.chunk.len() <= MAX_REASSEMBLY_BYTES,
        pushes(m, f, now, after, out),
    ensures
        after == m,
        out is None,
{
}

// ---------------------------------------------------------------------------
// Lemmas on the model
// ---------------------------------------------------------------------------

/// A chunk that arrives in an empty slot adds one to the count and its length to the bytes.
pub proof fn lemma_chunk_arrives(chunks: Seq<Option<Seq<u8>>>, i: int, c: Seq<u8>)
    requires
        0 <= i < chunks.len(),
        chunks[i] is None,
    ensures
        received_count(chunks.update(i, Some(c))) == received_count(chunks) + 1,
        received_bytes(chunks.update(i, Some(c))) == received_bytes(chunks) + c.len(),
    decreases chunks.len(),
{
    let after = chunks.update(i, Some(c));
    if i == chunks.len() - 1 {
        assert(after.drop_last() =~= chunks.drop_last());
    } else {
        lemma_chunk_arrives(chunks.drop_last(), i, c);
        assert(after.drop_last() =~= chunks.drop_last().update(i, Some(c)));
    }
}

/// The count is the number of slots exactly when every slot is filled.
pub proof fn lemma_count_full(chunks: Seq<Option<Seq<u8>>>)
    ensures
        received_count(chunks) <= chunks.len(),
        received_count(chunks) == chunks.len() <==> forall|i: int|
            0 <= i < chunks.len() ==> (#[trigger] chunks[i]) is Some,
    decreases chunks.len(),
{
    if chunks.len() > 0 {
        let front = chunks.drop_last();
        lemma_count_full(front);
        assert forall|i: int| 0 <= i < front.len() implies #[trigger] front[i] == chunks[i] by {}
        if received_count(chunks) == chunks.len() {
            assert(chunks.last() is Some);
            assert forall|i: int| 0 <= i < chunks.len() implies (#[trigger] chunks[i]) is Some by {
                if i < front.len() {
                    assert(front[i] is Some);
                }
            }
        } else if forall|i: int| 0 <= i < chunks.len() ==> (#[trigger] chunks[i]) is Some {
            assert(chunks[chunks.len() - 1] is Some);
            assert(forall|i: int| 0 <= i < front.len() ==> (#[trigger] front[i]) is Some);
        }
    }
}

/// The joined chunks are as long as the bytes received.
pub proof fn lemma_joined_len(chunks: Seq<Option<Seq<u8>>>)
    ensures
        joined(chunks).len() == received_bytes(chunks),
    decreases chunks.len(),
{
    if chunks.len() > 0 {
        lemma_joined_len(chunks.drop_last());
    }
}

/// The first chunks hold no more than all of them.
pub proof fn lemma_received_take(chunks: Seq<Option<Seq<u8>>>, n: int)
    requires
        0 <= n <= chunks.len(),
    ensures
        received_bytes(chunks.take(n)) <= received_bytes(chunks),
    decreases chunks.len(),
{
    if n == chunks.len() {
        assert(chunks.take(n) =~= chunks);
    } else {
        lemma_received_take(chunks.drop_last(), n);
        assert(chunks.drop_last().take(n) =~= chunks.take(n));
    }
}

/// No chunk, no bytes.
pub proof fn lemma_nothing_received(chunks: Seq<Option<Seq<u8>>>)
    requires
        forall|i: int| 0 <= i < chunks.len() ==> (#[trigger] chunks[i]) is None,
    ensures
        received_count(chunks) == 0,
        received_bytes(chunks) == 0,
    decreases chunks.len(),
{
    if chunks.len() > 0 {
        assert(chunks[chunks.len() - 1] is None);
        lemma_nothing_received(chunks.drop_last());
    }
}

/// The bytes stored are those of one set and those of the others.
pub proof fn lemma_stored_remove(m: Map<u64, SetView>, id: u64)
    requires
        m.dom().finite(),
        m.contains_key(id),
    ensures
        stored(m) == stored(m.remove(id)) + received_bytes(m[id].chunks),
    decreases m.dom().len(),
{
    let first = m.dom().choose();
    assert(m.dom().contains(id));
    if m.dom().len() == 0 {
        assert(m.dom() =~= Set::empty());
    }
    if first != id {
        lemma_stored_remove(m.remove(first), id);
        lemma_stored_remove(m.remove(id), first);
        assert(m.remove(first).remove(id) =~= m.remove(id).remove(first));
    }
}

/// Replacing or adding a set changes the bytes stored by that set alone.
pub proof fn lemma_stored_insert(m: Map<u64, SetView>, id: u64, set: SetView)
    requires
        m.dom().finite(),
    ensures
        stored(m.insert(id, set)) == stored(m.remove(id)) + received_bytes(set.chunks),
{
    lemma_stored_remove(m.insert(id, set), id);
    assert(m.insert(id, set).remove(id) =~= m.remove(id));
}

/// A map without the key is the map without that entry.
pub proof fn lemma_remove_absent(m: Map<u64, SetView>, id: u64)
    requires
        !m.contains_key(id),
    ensures
        m.remove(id) == m,
{
    assert(m.remove(id) =~= m);
}

// ---------------------------------------------------------------------------
// Fragments of one datagram
// ---------------------------------------------------------------------------

/// The parts, one after the other.
pub open spec fn concat(parts: Seq<Seq<u8>>) -> Seq<u8>
    decreases parts.len(),
{
    if parts.len() == 0 {
        Seq::empty()
    } else {
        concat(parts.drop_last()) + parts.last()
    }
}

/// The fragment with the index `i` of a datagram that was cut into `parts`.
pub open spec fn fragment_of(id: u64, parts: Seq<Seq<u8>>, i: int) -> FragmentView {
    FragmentView {
        fragment_id: id,
        fragment_index: i as u16,
        fragment_count: parts.len() as u16,
        total_len: concat(parts).len() as u32,
        chunk: parts[i],
    }
}

/// Whether every chunk that has arrived is the part with the same index.
pub open spec fn partial(chunks: Seq<Option<Seq<u8>>>, parts: Seq<Seq<u8>>) -> bool {
    &&& chunks.len() == parts.len()
    &&& forall|i: int|
        0 <= i < chunks.len() && (#[trigger] chunks[i]) is Some ==> chunks[i] == Some(parts[i])
}

/// Some of the parts hold no more bytes than all of them; all of them give the datagram back.
pub proof fn lemma_partial(chunks: Seq<Option<Seq<u8>>>, parts: Seq<Seq<u8>>)
    requires
        partial(chunks, parts),
    ensures
        received_bytes(chunks) <= concat(parts).len(),
        received_count(chunks) == chunks.len() ==> joined(chunks) == concat(parts)
            && received_bytes(chunks) == concat(parts).len(),
    decreases chunks.len(),
{
    if chunks.len() > 0 {
        let front = chunks.drop_last();
        assert forall|i: int| 0 <= i < front.len() && (#[trigger] front[i]) is Some implies front[i]
            == Some(parts.drop_last()[i]) by {
            assert(chunks[i] is Some);
        }
        lemma_partial(front, parts.drop_last());
        lemma_count_full(front);
        assert(chunks[chunks.len() - 1] is Some ==> chunks.last() == Some(parts.last()));
        if received_count(chunks) == chunks.len() {
            assert(joined(chunks) =~= concat(parts));
        }
    }
}

/// The sets while some fragments of a datagram have arrived and others have not.
pub open spec fn in_flight(
    m: Map<u64, SetView>,
    id: u64,
    parts: Seq<Seq<u8>>,
    arrived: Seq<int>,
    state: Map<u64, SetView>,
) -> bool {
    if arrived.len() == 0 {
        state == m
    } else {
        &&& state.contains_key(id)
        &&& state.remove(id) == m
        &&& state[id].total_len == concat(parts).len()
        &&& partial(state[id].chunks, parts)
        &&& received_count(state[id].chunks) == arrived.len()
        &&& forall|i: int|
            0 <= i < parts.len() ==> ((#[trigger] state[id].chunks[i]) is Some <==> arrived.contains(
                i,
            ))
    }
}

proof fn lemma_one_more_fragment(
    m: Map<u64, SetView>,
    id: u64,
    parts: Seq<Seq<u8>>,
    arrived: Seq<int>,
    i: int,
    now: u64,
    state: Map<u64, SetView>,
    after: Map<u64, SetView>,
    out: Option<Seq<u8>>,
)
    requires
        m.dom().finite(),
        m.dom().len() < MAX_REASSEMBLY_SETS,
        !m.contains_key(id),
        stored(m) + concat(parts).len() <= MAX_REASSEMBLY_BYTES,
        0 < parts.len() <= u16::MAX,
        arrived.len() < parts.len(),
        0 <= i < parts.len(),
        !arrived.contains(i),
        in_flight(m, id, parts, arrived, state),
        pushes(state, fragment_of(id, parts, i), now, after, out),
    ensures
        arrived.len() + 1 < parts.len() ==> out is None && in_flight(
            m,
            id,
            parts,
            arrived.push(i),
            after,
        ),
        arrived.len() + 1 == parts.len() ==> out == Some(concat(parts)) && after == m,
{
    let f = fragment_of(id, parts, i);
    let n = parts.len();
    lemma_part_len(parts, i);
    assert(m.remove(id) =~= m);
    let (opened, kept) = choose|opened: Map<u64, SetView>, kept: Map<u64, SetView>|
        {
            &&& #[trigger] opens_set(state, f, now, opened)
            &&& #[trigger] makes_room_for_bytes(opened, id, f.chunk.len(), kept)
            &&& after == sets_after(kept, f)
            &&& out == completed(kept, f)
        };
    let set = if arrived.len() == 0 {
        fresh_set(f, now)
    } else {
        state[id]
    };
    if arrived.len() == 0 {
        lemma_nothing_received(set.chunks);
        assert(opened =~= m.insert(id, set));
    } else {
        assert(opened == state);
    }
    assert(opened =~= m.insert(id, set));
    lemma_stored_insert(m, id, set);
    assert(stored(opened) == stored(m) + received_bytes(set.chunks));
    assert(set.chunks[i] is None);
    lemma_chunk_arrives(set.chunks, i, parts[i]);
    let chunks = set.chunks.update(i, Some(parts[i]));
    assert(partial(chunks, parts));
    lemma_partial(chunks, parts);
    assert(kept == opened);
    assert(chunks_with(kept, f) == chunks);
    assert(arrived.push(i)[arrived.len() as int] == i);
    if arrived.len() + 1 < n {
        assert(after =~= m.insert(id, SetView { chunks, ..set }));
        assert(after.remove(id) =~= m);
        assert forall|j: int| 0 <= j < n implies ((#[trigger] after[id].chunks[j]) is Some
            <==> arrived.push(i).contains(j)) by {
            if j != i {
                assert(after[id].chunks[j] == set.chunks[j]);
                if arrived.contains(j) {
                    let k = choose|k: int| 0 <= k < arrived.len() && arrived[k] == j;
                    assert(arrived.push(i)[k] == j);
                }
                if arrived.push(i).contains(j) {
                    let k = choose|k: int|
                        0 <= k < arrived.push(i).len() && arrived.push(i)[k] == j;
                    assert(arrived[k] == j);
                }
            }
        }
    } else {
        assert(after =~= m);
    }
}

proof fn lemma_part_len(parts: Seq<Seq<u8>>, i: int)
    requires
        0 <= i < parts.len(),
    ensures
        parts[i].len() <= concat(parts).len(),
    decreases parts.len(),
{
    if i < parts.len() - 1 {
        lemma_part_len(parts.drop_last(), i);
    }
}

/// The fragments of a datagram give the datagram back, whatever the order in which they arrive:
/// the last one to arrive completes it, none before does, and nothing of it is left behind. The
/// sets `m` that were there before must leave room for it, or the oldest of them would go.
pub proof fn law_fragments_reassemble(
    m: Map<u64, SetView>,
    id: u64,
    parts: Seq<Seq<u8>>,
    order: Seq<int>,
    times: Seq<u64>,
    states: Seq<Map<u64, SetView>>,
    outs: Seq<Option<Seq<u8>>>,
)
    requires
        m.dom().finite(),
        m.dom().len() < MAX_REASSEMBLY_SETS,
        !m.contains_key(id),
        stored(m) + concat(parts).len() <= MAX_REASSEMBLY_BYTES,
        0 < parts.len() <= u16::MAX,
        order.len() == parts.len(),
        order.no_duplicates(),
        forall|k: int| 0 <= k < order.len() ==> 0 <= #[trigger] order[k] < parts.len(),
        times.len() == parts.len(),
        outs.len() == parts.len(),
        states.len() == parts.len() + 1,
        states[0] == m,
        forall|k: int|
            0 <= k < order.len() ==> pushes(
                states[k],
                fragment_of(id, parts, #[trigger] order[k]),
                times[k],
                states[k + 1],
                outs[k],
            ),
    ensures
        outs.last() == Some(concat(parts)),
        forall|k: int| 0 <= k < outs.len() - 1 ==> (#[trigger] outs[k]) is None,
        states.last() == m,
{
    let n = parts.len() as int;
    lemma_first_fragments(m, id, parts, order, times, states, outs, n - 1);
    let arrived = order.take(n - 1);
    assert(!arrived.contains(order[n - 1]));
    lemma_one_more_fragment(
        m,
        id,
        parts,
        arrived,
        order[n - 1],
        times[n - 1],
        states[n - 1],
        states[n],
        outs[n - 1],
    );
}

proof fn lemma_first_fragments(
    m: Map<u64, SetView>,
    id: u64,
    parts: Seq<Seq<u8>>,
    order: Seq<int>,
    times: Seq<u64>,
    states: Seq<Map<u64, SetView>>,
    outs: Seq<Option<Seq<u8>>>,
    k: int,
)
    requires
        m.dom().finite(),
        m.dom().len() < MAX_REASSEMBLY_SETS,
        !m.contains_key(id),
        stored(m) + concat(parts).len() <= MAX_REASSEMBLY_BYTES,
        0 < parts.len() <= u16::MAX,
        order.len() == parts.len(),
        order.no_duplicates(),
        forall|k: int| 0 <= k < order.len() ==> 0 <= #[trigger] order[k] < parts.len(),
        times.len() == parts.len(),
        outs.len() == parts.len(),
        states.len() == parts.len() + 1,
        states[0] == m,
        forall|k: int|
            0 <= k < order.len() ==> pushes(
                states[k],
                fragment_of(id, parts, #[trigger] order[k]),
                times[k],
                states[k + 1],
                outs[k],
            ),
        0 <= k < parts.len(),
    ensures
        in_flight(m, id, parts, order.take(k), states[k]),
        forall|j: int| 0 <= j < k ==> (#[trigger] outs[j]) is None,
    decreases k,
{
    if k > 0 {
        lemma_first_fragments(m, id, parts, order, times, states, outs, k - 1);
        let arrived = order.take(k - 1);
        assert(!arrived.contains(order[k - 1]));
        lemma_one_more_fragment(
            m,
            id,
            parts,
            arrived,
            order[k - 1],
            times[k - 1],
            states[k - 1],
            states[k],
            outs[k - 1],
        );
        assert(arrived.push(order[k - 1]) =~= order.take(k));
    }
}

/// The indices of `order`, each where it first occurs.
pub open spec fn first_arrivals(order: Seq<int>) -> Seq<int>
    decreases order.len(),
{
    if order.len() == 0 {
        Seq::empty()
    } else if order.drop_last().contains(order.last()) {
        first_arrivals(order.drop_last())
    } else {
        first_arrivals(order.drop_last()).push(order.last())
    }
}

proof fn lemma_first_arrivals(order: Seq<int>)
    ensures
        first_arrivals(order).no_duplicates(),
        forall|i: int| #[trigger] first_arrivals(order).contains(i) <==> order.contains(i),
    decreases order.len(),
{
    if order.len() > 0 {
        let front = order.drop_last();
        let arrived = first_arrivals(front);
        let last = order.last();
        lemma_first_arrivals(front);
        assert forall|i: int| #[trigger] first_arrivals(order).contains(i)
            <==> order.contains(i) by {
            if arrived.contains(i) {
                assert(front.contains(i));
                let k = choose|k: int| 0 <= k < front.len() && front[k] == i;
                assert(order[k] == i);
                if !front.contains(last) {
                    let k = choose|k: int| 0 <= k < arrived.len() && arrived[k] == i;
                    assert(arrived.push(last)[k] == i);
                }
            }
            if order.contains(i) && i != last {
                let k = choose|k: int| 0 <= k < order.len() && order[k] == i;
                assert(front[k] == i);
                assert(arrived.contains(i));
            }
            if !front.contains(last) {
                assert(arrived.push(last)[arrived.len() as int] == last);
                assert(order[order.len() - 1] == last);
                if arrived.push(last).contains(i) && i != last {
                    let k = choose|k: int|
                        0 <= k < arrived.push(last).len() && arrived.push(last)[k] == i;
                    assert(arrived[k] == i);
                }
            }
        }
        if !front.contains(last) {
            assert(!arrived.contains(last));
        }
    }
}

/// Different indices that leave one out are fewer than there are; with that one they are as many,
/// if no other is left out.
proof fn lemma_indices_but_one(arrived: Seq<int>, n: nat, missing: int)
    requires
        arrived.no_duplicates(),
        forall|i: int| #[trigger] arrived.contains(i) ==> 0 <= i < n,
        0 <= missing < n,
        !arrived.contains(missing),
    ensures
        arrived.len() < n,
        (forall|i: int| 0 <= i < n && i != missing ==> #[trigger] arrived.contains(i))
            ==> arrived.len() + 1 == n,
{
    let all = vstd::set_lib::set_int_range(0, n as int);
    let with = arrived.to_set().insert(missing);
    vstd::set_lib::lemma_int_range(0, n as int);
    arrived.unique_seq_to_set();
    vstd::seq_lib::seq_to_set_is_finite(arrived);
    assert forall|i: int| #[trigger] with.contains(i) implies all.contains(i) by {
        if i != missing {
            assert(arrived.contains(i));
        }
    }
    vstd::set_lib::lemma_len_subset(with, all);
    if forall|i: int| 0 <= i < n && i != missing ==> #[trigger] arrived.contains(i) {
        assert forall|i: int| #[trigger] all.contains(i) implies with.contains(i) by {
            if i != missing {
                assert(arrived.contains(i));
            }
        }
        assert(with =~= all);
    }
}

/// The fragments of a datagram give the datagram back, whatever the order in which they arrive and
/// however often each of them does: the one that was still missing completes it, none before does,
/// and nothing of it is left behind. The sets `m` that were there before must leave room for it and
/// for a fragment that comes again.
pub proof fn law_repeated_fragments_reassemble(
    m: Map<u64, SetView>,
    id: u64,
    parts: Seq<Seq<u8>>,
    order: Seq<int>,
    times: Seq<u64>,
    states: Seq<Map<u64, SetView>>,
    outs: Seq<Option<Seq<u8>>>,
)
    requires
        m.dom().finite(),
        m.dom().len() < MAX_REASSEMBLY_SETS,
        !m.contains_key(id),
        forall|i: int|
            0 <= i < parts.len() ==> stored(m) + concat(parts).len() + (#[trigger] parts[i]).len()
                <= MAX_REASSEMBLY_BYTES,
        0 < parts.len() <= u16::MAX,
        forall|k: int| 0 <= k < order.len() ==> 0 <= #[trigger] order[k] < parts.len(),
        forall|i: int| 0 <= i < parts.len() ==> #[trigger] order.contains(i),
        !order.drop_last().contains(order.last()),
        times.len() == order.len(),
        outs.len() == order.len(),
        states.len() == order.len() + 1,
        states[0] == m,
        forall|k: int|
            0 <= k < order.len() ==> pushes(
                states[k],
                fragment_of(id, parts, #[trigger] order[k]),
                times[k],
                states[k + 1],
                outs[k],
            ),
    ensures
        outs.last() == Some(concat(parts)),
        forall|k: int| 0 <= k < outs.len() - 1 ==> (#[trigger] outs[k]) is None,
        states.last() == m,
{
    assert(order.contains(0));
    assert(parts[0].len() >= 0);
    let end = order.len() - 1;
    lemma_repeated_fragments(m, id, parts, order, times, states, outs, end);
    let arrived = first_arrivals(order.take(end));
    let last = order[end];
    assert(order.take(end) =~= order.drop_last());
    lemma_first_arrivals(order.take(end));
    assert forall|i: int| #[trigger] arrived.contains(i) implies 0 <= i < parts.len() by {
        assert(order.take(end).contains(i));
    }
    assert forall|i: int| 0 <= i < parts.len() && i != last implies #[trigger] arrived.contains(
        i,
    ) by {
        assert(order.contains(i));
        let k = choose|k: int| 0 <= k < order.len() && order[k] == i;
        assert(order.take(end)[k] == i);
    }
    lemma_indices_but_one(arrived, parts.len(), last);
    lemma_one_more_fragment(
        m,
        id,
        parts,
        arrived,
        last,
        times[end],
        states[end],
        states[end + 1],
        outs[end],
    );
}

proof fn lemma_repeated_fragments(
    m: Map<u64, SetView>,
    id: u64,
    parts: Seq<Seq<u8>>,
    order: Seq<int>,
    times: Seq<u64>,
    states: Seq<Map<u64, SetView>>,
    outs: Seq<Option<Seq<u8>>>,
    k: int,
)
    requires
        m.dom().finite(),
        m.dom().len() < MAX_REASSEMBLY_SETS,
        !m.contains_key(id),
        forall|i: int|
            0 <= i < parts.len() ==> stored(m) + concat(parts).len() + (#[trigger] parts[i]).len()
                <= MAX_REASSEMBLY_BYTES,
        0 < parts.len() <= u16::MAX,
        forall|k: int| 0 <= k < order.len() ==> 0 <= #[trigger] order[k] < parts.len(),
        !order.drop_last().contains(order.last()),
        times.len() == order.len(),
        outs.len() == order.len(),
        states.len() == order.len() + 1,
        states[0] == m,
        forall|k: int|
            0 <= k < order.len() ==> pushes(
                states[k],
                fragment_of(id, parts, #[trigger] order[k]),
                times[k],
                states[k + 1],
                outs[k],
            ),
        0 <= k < order.len(),
    ensures
        in_flight(m, id, parts, first_arrivals(order.take(k)), states[k]),
        forall|j: int| 0 <= j < k ==> (#[trigger] outs[j]) is None,
    decreases k,
{
    if k > 0 {
        lemma_repeated_fragments(m, id, parts, order, times, states, outs, k - 1);
        let before = order.take(k - 1);
        let arrived = first_arrivals(before);
        let i = order[k - 1];
        assert(parts[0].len() >= 0);
        assert(order.take(k).drop_last() =~= before);
        assert(order.take(k).last() == i);
        lemma_first_arrivals(before);
        if before.contains(i) {
            assert(arrived.contains(i));
            let state = states[k - 1];
            lemma_stored_remove(state, id);
            lemma_partial(state[id].chunks, parts);
            law_duplicate_ignored(
                state,
                fragment_of(id, parts, i),
                times[k - 1],
                states[k],
                outs[k - 1],
            );
        } else {
            let now = first_arrivals(order.take(k));
            lemma_first_arrivals(order.take(k));
            assert forall|j: int| #[trigger] now.contains(j) implies 0 <= j < parts.len() by {
                assert(order.take(k).contains(j));
            }
            let end = order.len() - 1;
            let last = order[end];
            assert(!now.contains(last)) by {
                if order.take(k).contains(last) {
                    let j = choose|j: int| 0 <= j < k && order.take(k)[j] == last;
                    assert(order.drop_last()[j] == last);
                }
            }
            lemma_indices_but_one(now, parts.len(), last);
            assert(!arrived.contains(i));
            lemma_one_more_fragment(
                m,
                id,
                parts,
                arrived,
                i,
                times[k - 1],
                states[k - 1],
                states[k],
                outs[k - 1],
            );
        }
    }
}

// ---------------------------------------------------------------------------
// The reassembler
// ---------------------------------------------------------------------------

struct FragmentSet {
    created: u64,
    total_len: usize,
    chunks: Vec<Option<Bytes>>,
    received_count: usize,
    received_bytes: usize,
}

spec fn chunk_view(c: Option<Bytes>) -> Option<Seq<u8>> {
    match c {
        Some(b) => Some(frozen_bytes(b)),
        None => None,
    }
}

spec fn chunks_view(chunks: Seq<Option<Bytes>>) -> Seq<Option<Seq<u8>>> {
    Seq::new(chunks.len(), |i: int| chunk_view(chunks[i]))
}

impl FragmentSet {
    spec fn model(self) -> SetView {
        SetView {
            created: self.created,
            total_len: self.total_len as nat,
            chunks: chunks_view(self.chunks@),
        }
    }

    spec fn wf(self) -> bool {
        &&& self.received_count == received_count(self.model().chunks)
        &&& self.received_bytes == received_bytes(self.model().chunks)
        &&& self.received_count < self.chunks@.len()
        &&& self.received_bytes <= self.total_len
    }
}

spec fn sets_view(sets: Map<u64, FragmentSet>) -> Map<u64, SetView> {
    Map::new(|id: u64| sets.contains_key(id), |id: u64| sets[id].model())
}

proof fn lemma_sets_view_dom(sets: Map<u64, FragmentSet>)
    ensures
        sets_view(sets).dom() == sets.dom(),
{
    assert(sets_view(sets).dom() =~= sets.dom());
}

pub struct PlainUdpReassembler {
    sets: HashMap<u64, FragmentSet>,
    stored_bytes: usize,
}

impl View for PlainUdpReassembler {
    type V = Map<u64, SetView>;

    closed spec fn view(&self) -> Map<u64, SetView> {
        sets_view(self.sets@)
    }
}

impl PlainUdpReassembler {
    /// Whether the counters agree with the sets and the bounds are kept.
    pub closed spec fn wf(&self) -> bool {
        &&& self@.dom() == self.sets@.dom()
        &&& self@.dom().finite()
        &&& forall|id: u64| #[trigger] self.sets@.contains_key(id) ==> self.sets@[id].wf()
        &&& self.stored_bytes == stored(self@)
        &&& self.stored_bytes <= MAX_REASSEMBLY_BYTES
        &&& self.sets@.dom().len() <= MAX_REASSEMBLY_SETS
    }

    /// A reassembler never holds more sets or more bytes than its bounds allow, and no set that
    /// it holds is complete.
    pub proof fn law_bounded(&self)
        requires
            self.wf(),
        ensures
            self@.dom().finite(),
            self@.dom().len() <= MAX_REASSEMBLY_SETS,
            stored(self@) <= MAX_REASSEMBLY_BYTES,
            forall|id: u64| #[trigger]
                self@.contains_key(id) ==> received_count(self@[id].chunks)
                    < self@[id].chunks.len() && received_bytes(self@[id].chunks)
                    <= self@[id].total_len,
    {
        assert forall|id: u64| #[trigger] self@.contains_key(id) implies received_count(
            self@[id].chunks,
        ) < self@[id].chunks.len() && received_bytes(self@[id].chunks) <= self@[id].total_len by {
            assert(self.sets@.contains_key(id));
        }
    }

    /// A reassembler without sets.
    pub fn new() -> (r: PlainUdpReassembler)
        ensures
            r.wf(),
            r@ == Map::<u64, SetView>::empty(),
    {
        let r = PlainUdpReassembler { sets: HashMap::new(), stored_bytes: 0 };
        proof {
            lemma_sets_view_dom(r.sets@);
            assert(r@ =~= Map::<u64, SetView>::empty());
            assert(r@.dom() =~= Set::empty());
        }
        r
    }

    /// The ids of all sets, in no particular order.
    fn ids(&self) -> (r: Vec<u64>)
        ensures
            forall|id: u64| r@.contains(id) <==> self.sets@.contains_key(id),
            r@.no_duplicates(),
    {
        let keys = self.sets.keys();
        let ghost all = keys.remaining().unref();
        let mut r: Vec<u64> = Vec::new();
        for id in it: keys
            invariant
                it.seq().unref() == all,
                r@ == all.take(it.index()),
        {
            r.push(*id);
            assert(r@ =~= all.take(it.index() + 1));
        }
        proof {
            assert(r@ =~= all);
            assert(all.to_set() == self.sets@.dom());
            assert forall|id: u64| r@.contains(id) <==> self.sets@.contains_key(id) by {
                assert(all.to_set().contains(id) <==> self.sets@.dom().contains(id));
            }
        }
        r
    }

    /// Drop a set, if it is there.
    pub fn drop_set(&mut self, id: u64)
        requires
            old(self).wf(),
        ensures
            final(self).wf(),
            final(self)@ == old(self)@.remove(id),
    {
        let ghost before = self@;
        match self.sets.remove(&id) {
            Some(set) => {
                proof {
                    lemma_sets_view_dom(old(self).sets@);
                    lemma_stored_remove(before, id);
                    assert(self@ =~= before.remove(id));
                    lemma_sets_view_dom(self.sets@);
                    assert(self.sets@.dom() =~= old(self).sets@.dom().remove(id));
                }
                self.stored_bytes = self.stored_bytes - set.received_bytes;
            },
            None => {
                proof {
                    assert(self@ =~= before.remove(id));
                    assert(before.remove(id) =~= before);
                }
            },
        }
    }

    /// Drop the oldest set other than `except`; one of the oldest when several are equally old.
    pub fn drop_oldest_except(&mut self, except: u64) -> (r: bool)
        requires
            old(self).wf(),
        ensures
            final(self).wf(),
            r == has_other(old(self)@, except),
            !r ==> final(self)@ == old(self)@,
            r ==> exists|id: u64| #[trigger]
                oldest(old(self)@, except, id) && final(self)@ == old(self)@.remove(id),
    {
        let ids = self.ids();
        let mut found: Option<(u64, u64)> = None;
        let mut i: usize = 0;
        while i < ids.len()
            invariant
                i <= ids@.len(),
                forall|id: u64| ids@.contains(id) <==> self.sets@.contains_key(id),
                match found {
                    Some((id, created)) => {
                        &&& self.sets@.contains_key(id)
                        &&& id != except
                        &&& self.sets@[id].created == created
                        &&& forall|j: int|
                            0 <= j < i && ids@[j] != except ==> created
                                <= self.sets@[#[trigger] ids@[j]].created
                    },
                    None => forall|j: int| 0 <= j < i ==> #[trigger] ids@[j] == except,
                },
            decreases ids@.len() - i,
        {
            let id: u64 = ids[i];
            assert(ids@.contains(id));
            if id != except {
                match self.sets.get(&id) {
                    Some(set) => {
                        let older = match found {
                            Some((_, created)) => set.created < created,
                            None => true,
                        };
                        if older {
                            found = Some((id, set.created));
                        }
                    },
                    None => {},
                }
            }
            i += 1;
        }
        let ghost before = self@;
        match found {
            None => {
                proof {
                    assert forall|k: u64| #[trigger] before.contains_key(k) implies k == except by {
                        assert(ids@.contains(k));
                        let j = choose|j: int| 0 <= j < ids@.len() && ids@[j] == k;
                        assert(ids@[j] == except);
                    }
                }
                false
            },
            Some((id, created)) => {
                proof {
                    assert(before.contains_key(id));
                    assert forall|k: u64| #[trigger] before.contains_key(k) && k
                        != except implies before[id].created <= before[k].created by {
                        assert(ids@.contains(k));
                        let j = choose|j: int| 0 <= j < ids@.len() && ids@[j] == k;
                        assert(created <= self.sets@[ids@[j]].created);
                    }
                    assert(oldest(before, except, id));
                }
                self.drop_set(id);
                true
            },
        }
    }

    /// Drop the sets that have been incomplete for too long.
    pub fn prune_expired(&mut self, now: u64)
        requires
            old(self).wf(),
        ensures
            final(self).wf(),
            forall|id: u64| #[trigger]
                final(self)@.contains_key(id) <==> old(self)@.contains_key(id) && !expired(
                    old(self)@[id],
                    now,
                ),
            forall|id: u64| #[trigger]
                final(self)@.contains_key(id) ==> final(self)@[id] == old(self)@[id],
    {
        let ids = self.ids();
        let ghost before = self@;
        let mut i: usize = 0;
        while i < ids.len()
            invariant
                self.wf(),
                i <= ids@.len(),
                before == old(self)@,
                ids@.no_duplicates(),
                forall|id: u64| ids@.contains(id) <==> before.contains_key(id),
                forall|id: u64| #[trigger]
                    self@.contains_key(id) <==> before.contains_key(id) && !(expired(
                        before[id],
                        now,
                    ) && ids@.take(i as int).contains(id)),
                forall|id: u64| #[trigger] self@.contains_key(id) ==> self@[id] == before[id],
            decreases ids@.len() - i,
        {
            let id: u64 = ids[i];
            assert(ids@.contains(id));
            let ghost current = self@;
            proof {
                assert(ids@.take(i as int + 1) =~= ids@.take(i as int).push(id));
                assert(!ids@.take(i as int).contains(id)) by {
                    if ids@.take(i as int).contains(id) {
                        let j = choose|j: int| 0 <= j < i && ids@.take(i as int)[j] == id;
                        assert(ids@[j] == ids@[i as int]);
                    }
                }
                assert(current.contains_key(id));
            }
            let old_enough = match self.sets.get(&id) {
                Some(set) => now.saturating_sub(set.created) > PLAIN_REASSEMBLY_TIMEOUT,
                None => false,
            };
            assert(old_enough == expired(before[id], now));
            if old_enough {
                self.drop_set(id);
            }
            proof {
                assert forall|k: u64| #[trigger]
                    self@.contains_key(k) <==> before.contains_key(k) && !(expired(before[k], now)
                        && ids@.take(i as int + 1).contains(k)) by {
                    let next = ids@.take(i as int).push(id);
                    if ids@.take(i as int).contains(k) {
                        let j = choose|j: int| 0 <= j < i && ids@.take(i as int)[j] == k;
                        assert(next[j] == k);
                    }
                    if next.contains(k) && k != id {
                        let j = choose|j: int| 0 <= j < next.len() && next[j] == k;
                        assert(ids@.take(i as int)[j] == k);
                    }
                    assert(next[i as int] == id);
                    assert(current.contains_key(k) <==> before.contains_key(k) && !(expired(
                        before[k],
                        now,
                    ) && ids@.take(i as int).contains(k)));
                }
                assert forall|k: u64| #[trigger] self@.contains_key(k) implies self@[k]
                    == before[k] by {
                    assert(current.contains_key(k));
                }
            }
            i += 1;
        }
        proof {
            assert(ids@.take(ids@.len() as int) =~= ids@);
            assert forall|id: u64| #[trigger]
                self@.contains_key(id) <==> before.contains_key(id) && !expired(
                    before[id],
                    now,
                ) by {}
        }
    }

    /// Drop the oldest sets until one more set fits.
    fn make_room_for_set(&mut self, id: u64)
        requires
            old(self).wf(),
            !old(self)@.contains_key(id),
        ensures
            final(self).wf(),
            makes_room_for_set(old(self)@, id, final(self)@),
            !final(self)@.contains_key(id),
            final(self).sets@.dom().len() < MAX_REASSEMBLY_SETS,
    {
        let ghost before = self@;
        while self.sets.len() >= MAX_REASSEMBLY_SETS
            invariant
                before == old(self)@,
                self.wf(),
                !self@.contains_key(id),
                forall|kept: Map<u64, SetView>| #[trigger]
                    makes_room_for_set(self@, id, kept) ==> makes_room_for_set(before, id, kept),
            ensures
                self.sets@.dom().len() < MAX_REASSEMBLY_SETS,
            decreases self.sets@.dom().len(),
        {
            let ghost current = self@;
            if !self.drop_oldest_except(id) {
                proof {
                    assert(current.dom() =~= Set::empty()) by {
                        assert forall|k: u64| !current.dom().contains(k) by {
                            if current.contains_key(k) {
                                assert(has_other(current, id));
                            }
                        }
                    }
                    assert(false);
                }
                break;
            }
            proof {
                let dropped = choose|k: u64| #[trigger]
                    oldest(current, id, k) && self@ == current.remove(k);
                assert(self@.dom() =~= current.dom().remove(dropped));
                assert forall|kept: Map<u64, SetView>| #[trigger]
                    makes_room_for_set(self@, id, kept) implies makes_room_for_set(
                    before,
                    id,
                    kept,
                ) by {
                    assert(oldest(current, id, dropped) && makes_room_for_set(
                        current.remove(dropped),
                        id,
                        kept,
                    ));
                    assert(makes_room_for_set(current, id, kept));
                }
            }
        }
        assert(makes_room_for_set(self@, id, self@));
    }

    /// Drop the oldest sets other than `id` until `len` more bytes fit.
    fn make_room_for_bytes(&mut self, id: u64, len: usize)
        requires
            old(self).wf(),
            old(self)@.contains_key(id),
        ensures
            final(self).wf(),
            makes_room_for_bytes(old(self)@, id, len as nat, final(self)@),
            final(self)@.contains_key(id),
            final(self)@[id] == old(self)@[id],
    {
        let ghost before = self@;
        while len > MAX_REASSEMBLY_BYTES - self.stored_bytes
            invariant
                before == old(self)@,
                self.wf(),
                self@.contains_key(id),
                self@[id] == before[id],
                forall|kept: Map<u64, SetView>| #[trigger]
                    makes_room_for_bytes(self@, id, len as nat, kept) ==> makes_room_for_bytes(
                        before,
                        id,
                        len as nat,
                        kept,
                    ),
            ensures
                stored(self@) + len <= MAX_REASSEMBLY_BYTES || !has_other(self@, id),
            decreases self.sets@.dom().len(),
        {
            let ghost current = self@;
            if !self.drop_oldest_except(id) {
                break;
            }
            proof {
                let dropped = choose|k: u64| #[trigger]
                    oldest(current, id, k) && self@ == current.remove(k);
                assert(self@.dom() =~= current.dom().remove(dropped));
                assert forall|kept: Map<u64, SetView>| #[trigger]
                    makes_room_for_bytes(self@, id, len as nat, kept) implies makes_room_for_bytes(
                    before,
                    id,
                    len as nat,
                    kept,
                ) by {
                    assert(oldest(current, id, dropped) && makes_room_for_bytes(
                        current.remove(dropped),
                        id,
                        len as nat,
                        kept,
                    ));
                    assert(makes_room_for_bytes(current, id, len as nat, kept));
                }
            }
        }
        assert(makes_room_for_bytes(self@, id, len as nat, self@));
    }

    /// Make a set for the first fragment of a datagram.
    fn open_set(&mut self, fragment: PlainUdpFragment<'_>, now: u64)
        requires
            old(self).wf(),
            !old(self)@.contains_key(fragment.fragment_id),
            fragment.fragment_count > 0,
        ensures
            final(self).wf(),
            opens_set(old(self)@, fragment@, now, final(self)@),
            final(self)@.contains_key(fragment.fragment_id),
            final(self)@[fragment.fragment_id] == fresh_set(fragment@, now),
    {
        let id: u64 = fragment.fragment_id;
        let count: usize = fragment.fragment_count as usize;
        self.make_room_for_set(id);
        let ghost kept = self@;
        let ghost kept_sets = self.sets@;
        let mut chunks: Vec<Option<Bytes>> = Vec::new();
        while chunks.len() < count
            invariant
                chunks@.len() <= count,
                forall|i: int| 0 <= i < chunks@.len() ==> (#[trigger] chunks@[i]) is None,
            decreases count - chunks@.len(),
        {
            chunks.push(None);
        }
        let set = FragmentSet {
            created: now,
            total_len: fragment.total_len as usize,
            chunks,
            received_count: 0,
            received_bytes: 0,
        };
        let ghost model = set.model();
        proof {
            assert(model.chunks =~= fresh_set(fragment@, now).chunks);
            lemma_nothing_received(model.chunks);
            lemma_stored_insert(kept, id, model);
            lemma_remove_absent(kept, id);
        }
        self.sets.insert(id, set);
        proof {
            lemma_sets_view_dom(self.sets@);
            assert(self@ =~= kept.insert(id, model));
            assert(self@.dom() =~= kept.dom().insert(id));
            assert forall|k: u64| #[trigger]
                self.sets@.contains_key(k) implies self.sets@[k].wf() by {
                if k != id {
                    assert(kept_sets.contains_key(k));
                }
            }
            assert(makes_room_for_set(old(self)@, id, kept));
        }
    }

    /// Put a fragment into its set.
    fn store(&mut self, fragment: PlainUdpFragment<'_>) -> (r: Option<Bytes>)
        requires
            old(self).wf(),
            old(self)@.contains_key(fragment.fragment_id),
            fragment.fragment_index < old(self)@[fragment.fragment_id].chunks.len(),
        ensures
            final(self).wf(),
            final(self)@ == sets_after(old(self)@, fragment@),
            completed(old(self)@, fragment@) == frozen_option(r),
    {
        let id: u64 = fragment.fragment_id;
        let index: usize = fragment.fragment_index as usize;
        let len: usize = fragment.chunk.len();
        let ghost kept = self@;
        let ghost kept_sets = self.sets@;
        let ghost f = fragment@;
        if len > MAX_REASSEMBLY_BYTES - self.stored_bytes {
            self.drop_set(id);
            return None;
        }
        let mut set = match self.sets.remove(&id) {
            Some(set) => set,
            None => {
                assert(false);
                return None;
            },
        };
        let ghost found = set;
        proof {
            assert(kept_sets.contains_key(id));
            assert(found.wf());
            assert(found.model() == kept[id]);
            lemma_stored_remove(kept, id);
            lemma_sets_view_dom(self.sets@);
            assert(self@ =~= kept.remove(id));
            assert(self@.dom() =~= kept.dom().remove(id));
        }
        if set.chunks[index].is_some() {
            // A duplicate: the set stays as it is.
            self.sets.insert(id, set);
            proof {
                lemma_sets_view_dom(self.sets@);
                assert(self@ =~= kept);
                assert forall|k: u64| #[trigger]
                    self.sets@.contains_key(k) implies self.sets@[k].wf() by {
                    if k != id {
                        assert(kept_sets.contains_key(k));
                    }
                }
            }
            return None;
        }
        proof {
            lemma_chunk_arrives(found.model().chunks, index as int, f.chunk);
        }
        if len > set.total_len - set.received_bytes {
            // More bytes than declared: the set is dropped.
            self.stored_bytes = self.stored_bytes - set.received_bytes;
            return None;
        }
        let old_bytes: usize = set.received_bytes;
        let slots: usize = set.chunks.len();
        proof {
            let model = found.model().chunks;
            lemma_count_full(chunks_with(kept, f));
            assert(received_count(chunks_with(kept, f)) == received_count(model) + 1);
            assert(set.received_count == received_count(model));
            assert(set.received_count < slots);
        }
        set.chunks[index] = Some(copy_bytes(fragment.chunk));
        set.received_count = set.received_count + 1;
        set.received_bytes = set.received_bytes + len;
        proof {
            assert(set.model().chunks =~= chunks_with(kept, f));
        }
        if set.received_count != slots {
            self.stored_bytes = self.stored_bytes + len;
            self.sets.insert(id, set);
            proof {
                let model = set.model();
                lemma_stored_insert(kept, id, model);
                lemma_sets_view_dom(self.sets@);
                assert(self@ =~= kept.insert(id, model));
                assert(self@.dom() =~= kept.dom());
                assert forall|k: u64| #[trigger]
                    self.sets@.contains_key(k) implies self.sets@[k].wf() by {
                    if k != id {
                        assert(kept_sets.contains_key(k));
                    }
                }
            }
            return None;
        }
        self.stored_bytes = self.stored_bytes - old_bytes;
        if set.received_bytes != set.total_len {
            return None;
        }
        let out = join_chunks(&set);
        Some(out)
    }

    /// Take one fragment in; the datagram that it completes comes out. `now` is the current time
    /// in nanoseconds.
    pub fn push(&mut self, fragment: PlainUdpFragment<'_>, now: u64) -> (r: Option<Bytes>)
        requires
            old(self).wf(),
            fragment.fragment_index < fragment.fragment_count,
        ensures
            final(self).wf(),
            pushes(old(self)@, fragment@, now, final(self)@, frozen_option(r)),
    {
        let id: u64 = fragment.fragment_id;
        let count: usize = fragment.fragment_count as usize;
        let total_len: usize = fragment.total_len as usize;
        let ghost f = fragment@;
        let ghost before = self@;
        if fragment.chunk.len() > total_len {
            return None;
        }
        let (known, consistent) = match self.sets.get(&id) {
            Some(set) => (true, set.total_len == total_len && set.chunks.len() == count),
            None => (false, false),
        };
        if known && !consistent {
            self.drop_set(id);
            return None;
        }
        if !known {
            self.open_set(fragment, now);
        }
        let ghost opened = self@;
        assert(opens_set(before, f, now, opened));
        self.make_room_for_bytes(id, fragment.chunk.len());
        assert(makes_room_for_bytes(opened, id, f.chunk.len(), self@));
        self.store(fragment)
    }
}

/// The chunks of a complete set, one after the other.
fn join_chunks(set: &FragmentSet) -> (r: Bytes)
    requires
        received_count(set.model().chunks) == set.model().chunks.len(),
        received_bytes(set.model().chunks) == set.total_len,
        set.total_len <= MAX_REASSEMBLY_BYTES,
    ensures
        frozen_bytes(r) == joined(set.model().chunks),
{
    let ghost chunks = set.model().chunks;
    let mut out = new_buffer(set.total_len);
    let mut i: usize = 0;
    proof {
        lemma_count_full(chunks);
    }
    while i < set.chunks.len()
        invariant
            i <= set.chunks@.len(),
            chunks == set.model().chunks,
            forall|j: int| 0 <= j < chunks.len() ==> (#[trigger] chunks[j]) is Some,
            buffer_bytes(out) == joined(chunks.take(i as int)),
            received_bytes(chunks) <= MAX_REASSEMBLY_BYTES,
        decreases set.chunks@.len() - i,
    {
        proof {
            assert(chunks[i as int] is Some);
            lemma_received_take(chunks, i as int + 1);
            lemma_joined_len(chunks.take(i as int));
            assert(chunks.take(i as int + 1).drop_last() =~= chunks.take(i as int));
        }
        match &set.chunks[i] {
            Some(chunk) => put_slice(&mut out, bytes_slice(chunk)),
            None => {
                assert(false);
            },
        }
        i += 1;
    }
    assert(chunks.take(chunks.len() as int) =~= chunks);
    freeze(out)
}

/// While a reassembler has room, a fragment touches no set but its own.
pub proof fn law_other_sets_untouched(
    m: Map<u64, SetView>,
    f: FragmentView,
    now: u64,
    after: Map<u64, SetView>,
    out: Option<Seq<u8>>,
)
    requires
        m.dom().finite(),
        m.dom().len() < 256,
        stored(m) + f.chunk.len() <= 8_388_608,
        f.fragment_index < f.fragment_count,
        pushes(m, f, now, after, out),
    ensures
        after.remove(f.fragment_id) == m.remove(f.fragment_id),
{
    let id = f.fragment_id;
    if f.chunk.len() <= f.total_len && !(m.contains_key(id) && (m[id].total_len != f.total_len
        || m[id].chunks.len() != f.fragment_count)) {
        let (opened, kept) = choose|opened: Map<u64, SetView>, kept: Map<u64, SetView>|
            {
                &&& #[trigger] opens_set(m, f, now, opened)
                &&& #[trigger] makes_room_for_bytes(opened, id, f.chunk.len(), kept)
                &&& after == sets_after(kept, f)
                &&& out == completed(kept, f)
            };
        if !m.contains_key(id) {
            lemma_stored_insert_fresh(m, f, now);
        }
        assert(opened.dom().finite());
        assert(kept == opened);
    }
    assert(after.remove(id) =~= m.remove(id));
}

proof fn lemma_stored_insert_fresh(m: Map<u64, SetView>, f: FragmentView, now: u64)
    requires
        m.dom().finite(),
        !m.contains_key(f.fragment_id),
    ensures
        stored(m.insert(f.fragment_id, fresh_set(f, now))) == stored(m),
{
    let id = f.fragment_id;
    let opened = m.insert(id, fresh_set(f, now));
    lemma_stored_remove(opened, id);
    assert(opened.remove(id) =~= m);
    lemma_nothing_received(fresh_set(f, now).chunks);
}

/// A datagram that comes out has the length that its fragments declared, and nothing is kept of it.
/// A fragment that cannot belong to the set of its id ends that set and completes nothing, and one
/// that is longer than its datagram is ignored.
pub proof fn law_datagram_as_declared(
    m: Map<u64, SetView>,
    f: FragmentView,
    now: u64,
    after: Map<u64, SetView>,
    out: Option<Seq<u8>>,
)
    requires
        m.dom().finite(),
        f.fragment_index < f.fragment_count,
        pushes(m, f, now, after, out),
    ensures
        out matches Some(datagram) ==> datagram.len() == f.total_len && !after.contains_key(
            f.fragment_id,
        ),
        f.chunk.len() > f.total_len ==> out is None && after == m,
        f.chunk.len() <= f.total_len && m.contains_key(f.fragment_id) && (
        m[f.fragment_id].total_len != f.total_len || m[f.fragment_id].chunks.len()
            != f.fragment_count) ==> out is None && after == m.remove(f.fragment_id),
{
    let id = f.fragment_id;
    if f.chunk.len() <= f.total_len && !(m.contains_key(id) && (m[id].total_len != f.total_len
        || m[id].chunks.len() != f.fragment_count)) {
        let (opened, kept) = choose|opened: Map<u64, SetView>, kept: Map<u64, SetView>|
            {
                &&& #[trigger] opens_set(m, f, now, opened)
                &&& #[trigger] makes_room_for_bytes(opened, id, f.chunk.len(), kept)
                &&& after == sets_after(kept, f)
                &&& out == completed(kept, f)
            };
        lemma_opened_finite(m, f, now, opened);
        lemma_room_keeps(opened, id, f.chunk.len(), kept);
        let chunks = chunks_with(kept, f);
        lemma_joined_len(chunks);
        if out is Some {
            lemma_chunk_arrives(kept[id].chunks, f.fragment_index as int, f.chunk);
        }
    }
}

proof fn lemma_opened_finite(
    m: Map<u64, SetView>,
    f: FragmentView,
    now: u64,
    opened: Map<u64, SetView>,
)
    requires
        m.dom().finite(),
        opens_set(m, f, now, opened),
    ensures
        opened.dom().finite(),
        opened.contains_key(f.fragment_id),
        m.contains_key(f.fragment_id) ==> opened[f.fragment_id] == m[f.fragment_id],
        !m.contains_key(f.fragment_id) ==> opened[f.fragment_id] == fresh_set(f, now),
{
    if !m.contains_key(f.fragment_id) {
        let kept = choose|kept: Map<u64, SetView>| #[trigger]
            makes_room_for_set(m, f.fragment_id, kept) && opened == kept.insert(
                f.fragment_id,
                fresh_set(f, now),
            );
        lemma_set_room_finite(m, f.fragment_id, kept);
    }
}

proof fn lemma_set_room_finite(m: Map<u64, SetView>, except: u64, kept: Map<u64, SetView>)
    requires
        m.dom().finite(),
        makes_room_for_set(m, except, kept),
    ensures
        kept.dom().finite(),
        kept.dom().len() <= m.dom().len(),
        m.dom().len() >= 256 && has_other(m, except) && !m.contains_key(except) ==> kept.dom().len()
            == 255,
        forall|k: u64| #[trigger] kept.contains_key(k) ==> m.contains_key(k) && kept[k] == m[k],
        forall|k: u64, j: u64|
            m.contains_key(k) && !kept.contains_key(k) && k != except && #[trigger] kept.contains_key(
                j,
            ) && j != except ==> (#[trigger] m[k]).created <= m[j].created,
    decreases m.dom().len(),
{
    if !(m.dom().len() < MAX_REASSEMBLY_SETS || !has_other(m, except)) {
        let id = choose|id: u64| #[trigger]
            oldest(m, except, id) && makes_room_for_set(m.remove(id), except, kept);
        let rest = m.remove(id);
        assert(rest.dom() =~= m.dom().remove(id));
        lemma_set_room_finite(rest, except, kept);
        if rest.dom().len() >= 256 && !m.contains_key(except) {
            let other = rest.dom().choose();
            assert(rest.dom().contains(other));
            assert(rest.contains_key(other) && other != except);
        }
        assert forall|k: u64| #[trigger] kept.contains_key(k) implies m.contains_key(k) && kept[k]
            == m[k] by {
            assert(rest.contains_key(k));
        }
        assert forall|k: u64, j: u64|
            m.contains_key(k) && !kept.contains_key(k) && k != except && #[trigger] kept.contains_key(
                j,
            ) && j != except implies (#[trigger] m[k]).created <= m[j].created by {
            assert(m.contains_key(j) && rest.contains_key(j));
            if k != id {
                assert(rest.contains_key(k) && rest[k] == m[k] && rest[j] == m[j]);
            }
        }
    }
}

/// The sets that make room for one more are the oldest: no set that stays is older than one that
/// went. Only as many go as must, and those that stay are unchanged.
pub proof fn law_oldest_sets_make_room(
    m: Map<u64, SetView>,
    id: u64,
    kept: Map<u64, SetView>,
    gone: u64,
    stays: u64,
)
    requires
        m.dom().finite(),
        !m.contains_key(id),
        makes_room_for_set(m, id, kept),
        m.contains_key(gone),
        !kept.contains_key(gone),
        kept.contains_key(stays),
    ensures
        m.contains_key(stays) && kept[stays] == m[stays],
        m[gone].created <= m[stays].created,
        m.dom().len() >= 256,
        kept.dom().len() == 255,
{
    lemma_set_room_finite(m, id, kept);
    assert(m[gone].created <= m[stays].created);
}

proof fn lemma_room_keeps(m: Map<u64, SetView>, except: u64, len: nat, kept: Map<u64, SetView>)
    requires
        m.dom().finite(),
        makes_room_for_bytes(m, except, len, kept),
    ensures
        kept.dom().finite(),
        m.contains_key(except) ==> kept.contains_key(except) && kept[except] == m[except],
        stored(m) + len <= 8_388_608 ==> kept == m,
        forall|k: u64| #[trigger] kept.contains_key(k) ==> m.contains_key(k) && kept[k] == m[k],
    decreases m.dom().len(),
{
    if !(stored(m) + len <= MAX_REASSEMBLY_BYTES || !has_other(m, except)) {
        let id = choose|id: u64| #[trigger]
            oldest(m, except, id) && makes_room_for_bytes(m.remove(id), except, len, kept);
        assert(m.remove(id).dom() =~= m.dom().remove(id));
        lemma_room_keeps(m.remove(id), except, len, kept);
        assert forall|k: u64| #[trigger] kept.contains_key(k) implies m.contains_key(k) && kept[k]
            == m[k] by {
            assert(m.remove(id).contains_key(k));
        }
    }
}

/// An incomplete set is kept for five seconds and no longer.
pub proof fn law_sets_expire(set: SetView, now: u64)
    ensures
        expired(set, now) <==> now > set.created + 5_000_000_000,
{
}

/// What a further fragment does to the set of its datagram, while there is room: one that has more
/// bytes than the datagram lacks ends the set, and one that does not complete the datagram is kept
/// in its place. Nothing comes out of either.
pub proof fn law_further_fragment(
    m: Map<u64, SetView>,
    f: FragmentView,
    now: u64,
    after: Map<u64, SetView>,
    out: Option<Seq<u8>>,
    other: int,
)
    requires
        m.dom().finite(),
        m.contains_key(f.fragment_id),
        m[f.fragment_id].total_len == f.total_len,
        m[f.fragment_id].chunks.len() == f.fragment_count,
        f.fragment_index < f.fragment_count,
        m[f.fragment_id].chunks[f.fragment_index as int] is None,
        f.chunk.len() <= f.total_len,
        stored(m) + f.chunk.len() <= 8_388_608,
        0 <= other < f.fragment_count,
        other != f.fragment_index,
        m[f.fragment_id].chunks[other] is None,
        pushes(m, f, now, after, out),
    ensures
        out is None,
        received_bytes(m[f.fragment_id].chunks) + f.chunk.len() > f.total_len ==> after == m.remove(
            f.fragment_id,
        ),
        received_bytes(m[f.fragment_id].chunks) + f.chunk.len() <= f.total_len ==> {
            &&& after.contains_key(f.fragment_id)
            &&& after[f.fragment_id].created == m[f.fragment_id].created
            &&& after[f.fragment_id].total_len == m[f.fragment_id].total_len
            &&& after[f.fragment_id].chunks.len() == f.fragment_count
            &&& after[f.fragment_id].chunks[f.fragment_index as int] == Some(f.chunk)
            &&& after[f.fragment_id].chunks[other] is None
        },
{
    let id = f.fragment_id;
    let (opened, kept) = choose|opened: Map<u64, SetView>, kept: Map<u64, SetView>|
        {
            &&& #[trigger] opens_set(m, f, now, opened)
            &&& #[trigger] makes_room_for_bytes(opened, id, f.chunk.len(), kept)
            &&& after == sets_after(kept, f)
            &&& out == completed(kept, f)
        };
    assert(kept == m);
    let chunks = chunks_with(kept, f);
    lemma_count_full(chunks);
    assert(chunks[other] is None);
}

}
