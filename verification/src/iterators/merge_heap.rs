//! The order in which a merge takes its cursors, and what it means for a
//! list of cursors to be a heap in that order.

use crate::key::{key_lt, lemma_key_lt_asymmetric, lemma_key_lt_total, lemma_key_lt_transitive};
use crate::run::Entry;
use vstd::prelude::*;

verus! {

/// Run `a` is to be taken before run `b`: it starts with the smaller key,
/// or with the same key and comes first in the input. Both runs hold an
/// entry.
pub open spec fn before(sources: Seq<Seq<Entry>>, a: int, b: int) -> bool {
    key_lt(sources[a][0].0, sources[b][0].0) || (sources[a][0].0 == sources[b][0].0 && a < b)
}

/// The place above place `p` in a heap.
pub open spec fn parent(p: int) -> int {
    (p - 1) / 2
}

/// The heap holds places of runs, no place twice, and every run from place
/// `from` of the heap on holds an entry.
pub open spec fn heap_members_from(heap: Seq<usize>, sources: Seq<Seq<Entry>>, from: int) -> bool {
    &&& forall|p: int| 0 <= p < heap.len() ==> (#[trigger] heap[p]) < sources.len()
    &&& forall|p: int| from <= p < heap.len() ==> sources[(#[trigger] heap[p]) as int].len() > 0
    &&& forall|p: int, q: int| 0 <= p < q < heap.len() ==> #[trigger] heap[p] != #[trigger] heap[q]
}

/// The heap holds places of runs that hold an entry, and no place twice.
pub open spec fn heap_members(heap: Seq<usize>, sources: Seq<Seq<Entry>>) -> bool {
    heap_members_from(heap, sources, 0)
}

/// Every run of the heap is to be taken after the run above it.
pub open spec fn heap_ordered(heap: Seq<usize>, sources: Seq<Seq<Entry>>) -> bool {
    forall|p: int|
        1 <= p < heap.len() ==> before(sources, heap[parent(p)] as int, #[trigger] heap[p] as int)
}

/// The heap is in order but for the run at `hole`, which may have to sink:
/// every other run is to be taken after the run above it, and the runs
/// below `hole` after the run above `hole`.
pub open spec fn ordered_but_down(heap: Seq<usize>, sources: Seq<Seq<Entry>>, hole: int) -> bool {
    forall|p: int|
        1 <= p < heap.len() ==> {
            &&& parent(p) != hole ==> before(
                sources,
                heap[parent(p)] as int,
                #[trigger] heap[p] as int,
            )
            &&& parent(p) == hole && hole > 0 ==> before(
                sources,
                heap[parent(hole)] as int,
                heap[p] as int,
            )
        }
}

/// The heap is in order but for the run at `hole`, which may have to rise:
/// every other run is to be taken after the run above it, and the runs
/// below `hole` after the run above `hole`.
pub open spec fn ordered_but_up(heap: Seq<usize>, sources: Seq<Seq<Entry>>, hole: int) -> bool {
    forall|p: int|
        1 <= p < heap.len() ==> {
            &&& p != hole ==> before(sources, heap[parent(p)] as int, #[trigger] heap[p] as int)
            &&& parent(p) == hole && hole > 0 ==> before(
                sources,
                heap[parent(hole)] as int,
                heap[p] as int,
            )
        }
}

/// The heap with the runs at two places exchanged.
pub open spec fn swapped(heap: Seq<usize>, a: int, b: int) -> Seq<usize> {
    heap.update(a, heap[b]).update(b, heap[a])
}

/// Of two runs at different places one is to be taken before the other,
/// and not both.
pub proof fn lemma_before_total(sources: Seq<Seq<Entry>>, a: int, b: int)
    requires
        a != b,
    ensures
        before(sources, a, b) != before(sources, b, a),
{
    let x = sources[a][0].0;
    let y = sources[b][0].0;
    lemma_key_lt_total(x, y);
    if key_lt(x, y) {
        lemma_key_lt_asymmetric(x, y);
    }
    if key_lt(y, x) {
        lemma_key_lt_asymmetric(y, x);
    }
}

/// What is before something that is before a third is before the third.
pub proof fn lemma_before_transitive(sources: Seq<Seq<Entry>>, a: int, b: int, c: int)
    requires
        before(sources, a, b),
        before(sources, b, c),
    ensures
        before(sources, a, c),
{
    let x = sources[a][0].0;
    let y = sources[b][0].0;
    let z = sources[c][0].0;
    if key_lt(x, y) && key_lt(y, z) {
        lemma_key_lt_transitive(x, y, z);
    }
}

/// The run at the top of a heap is to be taken before every other run of
/// the heap.
pub proof fn lemma_top_first(heap: Seq<usize>, sources: Seq<Seq<Entry>>, p: int)
    requires
        heap_ordered(heap, sources),
        1 <= p < heap.len(),
    ensures
        before(sources, heap[0] as int, heap[p] as int),
    decreases p,
{
    if parent(p) > 0 {
        lemma_top_first(heap, sources, parent(p));
        lemma_before_transitive(sources, heap[0] as int, heap[parent(p)] as int, heap[p] as int);
    }
}

/// A heap with two runs exchanged holds the same runs, none twice.
pub proof fn lemma_swapped_members(heap: Seq<usize>, sources: Seq<Seq<Entry>>, a: int, b: int)
    requires
        heap_members(heap, sources),
        0 <= a < heap.len(),
        0 <= b < heap.len(),
    ensures
        heap_members(swapped(heap, a, b), sources),
        forall|x: usize| #[trigger] swapped(heap, a, b).contains(x) <==> heap.contains(x),
{
    let s = swapped(heap, a, b);
    let other = |p: int|
        if p == a {
            b
        } else if p == b {
            a
        } else {
            p
        };
    assert forall|p: int| 0 <= p < s.len() implies #[trigger] s[p] == heap[other(p)] by {}
    assert forall|p: int, q: int| 0 <= p < q < s.len() implies #[trigger] s[p] != #[trigger] s[q] by {
        let x = other(p);
        let y = other(q);
        if x < y {
            assert(heap[x] != heap[y]);
        } else {
            assert(heap[y] != heap[x]);
        }
    }
    assert forall|x: usize| #[trigger] s.contains(x) <==> heap.contains(x) by {
        if s.contains(x) {
            let p = choose|p: int| 0 <= p < s.len() && s[p] == x;
            assert(heap[other(p)] == x);
        }
        if heap.contains(x) {
            let p = choose|p: int| 0 <= p < heap.len() && heap[p] == x;
            assert(s[other(p)] == x);
        }
    }
}

/// The order of two runs depends on those two runs alone.
pub proof fn lemma_before_same(
    old_sources: Seq<Seq<Entry>>,
    sources: Seq<Seq<Entry>>,
    a: int,
    b: int,
)
    requires
        old_sources[a] == sources[a],
        old_sources[b] == sources[b],
    ensures
        before(old_sources, a, b) == before(sources, a, b),
{
}

/// The first of the runs under `hole`, as a sinking run finds it: `least` is
/// one of the two places under `hole`, and the run there is to be taken
/// before the run at the other place, if the heap reaches that far.
pub open spec fn first_below(
    heap: Seq<usize>,
    sources: Seq<Seq<Entry>>,
    hole: int,
    least: int,
) -> bool {
    let left = 2 * hole + 1;
    let right = 2 * hole + 2;
    &&& 0 <= hole
    &&& left < heap.len()
    &&& least == left || (least == right && right < heap.len())
    &&& least == left && right < heap.len() ==> before(
        sources,
        heap[left] as int,
        heap[right] as int,
    )
    &&& least == right ==> before(sources, heap[right] as int, heap[left] as int)
}

/// A heap that is in order but for a run that may have to sink, and that
/// has no run under that run, is in order.
pub proof fn lemma_sunk_to_bottom(heap: Seq<usize>, sources: Seq<Seq<Entry>>, hole: int)
    requires
        ordered_but_down(heap, sources, hole),
        0 <= hole,
        2 * hole + 1 >= heap.len(),
    ensures
        heap_ordered(heap, sources),
{
    assert forall|p: int| 1 <= p < heap.len() implies parent(p) != hole by {}
}

/// A heap that is in order but for a run that may have to sink, where the
/// first of the runs under that run is not to be taken before it, is in
/// order.
pub proof fn lemma_sunk(heap: Seq<usize>, sources: Seq<Seq<Entry>>, hole: int, least: int)
    requires
        heap_members(heap, sources),
        ordered_but_down(heap, sources, hole),
        first_below(heap, sources, hole, least),
        !before(sources, heap[least] as int, heap[hole] as int),
    ensures
        heap_ordered(heap, sources),
{
    lemma_before_total(sources, heap[least] as int, heap[hole] as int);
    assert forall|p: int| 1 <= p < heap.len() implies before(
        sources,
        heap[parent(p)] as int,
        #[trigger] heap[p] as int,
    ) by {
        if parent(p) == hole {
            assert(p == 2 * hole + 1 || p == 2 * hole + 2);
            if p != least {
                lemma_before_transitive(
                    sources,
                    heap[hole] as int,
                    heap[least] as int,
                    heap[p] as int,
                );
            }
        }
    }
}

/// Letting the run at `hole` sink below the first of the runs under it
/// leaves a heap that is in order but for that run at its new place.
pub proof fn lemma_sink_step(heap: Seq<usize>, sources: Seq<Seq<Entry>>, hole: int, least: int)
    requires
        heap_members(heap, sources),
        ordered_but_down(heap, sources, hole),
        first_below(heap, sources, hole, least),
        before(sources, heap[least] as int, heap[hole] as int),
    ensures
        ordered_but_down(swapped(heap, hole, least), sources, least),
{
    let s = swapped(heap, hole, least);
    assert forall|p: int| 1 <= p < s.len() implies (parent(p) != least ==> before(
        sources,
        s[parent(p)] as int,
        #[trigger] s[p] as int,
    )) && (parent(p) == least && least > 0 ==> before(
        sources,
        s[parent(least)] as int,
        s[p] as int,
    )) by {
        if parent(p) == least {
            assert(before(sources, heap[least] as int, heap[p] as int));
        } else if p == least {
        } else if parent(p) == hole {
            assert(p == 2 * hole + 1 || p == 2 * hole + 2);
            assert(before(sources, heap[least] as int, heap[p] as int));
        } else if p == hole {
            assert(before(sources, heap[parent(hole)] as int, heap[least] as int));
        } else {
            assert(before(sources, heap[parent(p)] as int, heap[p] as int));
        }
    }
}

/// A heap that is in order but for a run that may have to rise, where that
/// run is at the top or to be taken after the run above it, is in order.
pub proof fn lemma_risen(heap: Seq<usize>, sources: Seq<Seq<Entry>>, hole: int)
    requires
        ordered_but_up(heap, sources, hole),
        0 <= hole < heap.len(),
        hole > 0 ==> before(sources, heap[parent(hole)] as int, heap[hole] as int),
    ensures
        heap_ordered(heap, sources),
{
}

/// Letting the run at `hole` rise above the run over it leaves a heap that
/// is in order but for that run at its new place.
pub proof fn lemma_rise_step(heap: Seq<usize>, sources: Seq<Seq<Entry>>, hole: int)
    requires
        heap_members(heap, sources),
        ordered_but_up(heap, sources, hole),
        0 < hole < heap.len(),
        before(sources, heap[hole] as int, heap[parent(hole)] as int),
    ensures
        ordered_but_up(swapped(heap, hole, parent(hole)), sources, parent(hole)),
{
    let up = parent(hole);
    let s = swapped(heap, hole, up);
    assert forall|p: int| 1 <= p < s.len() implies (p != up ==> before(
        sources,
        s[parent(p)] as int,
        #[trigger] s[p] as int,
    )) && (parent(p) == up && up > 0 ==> before(sources, s[parent(up)] as int, s[p] as int)) by {
        if p == hole {
            if up > 0 {
                assert(before(sources, heap[parent(up)] as int, heap[up] as int));
            }
        } else if parent(p) == up {
            // the other run under the run that sinks
            assert(before(sources, heap[up] as int, heap[p] as int));
            lemma_before_transitive(sources, heap[hole] as int, heap[up] as int, heap[p] as int);
            if up > 0 {
                assert(before(sources, heap[parent(up)] as int, heap[up] as int));
                lemma_before_transitive(
                    sources,
                    heap[parent(up)] as int,
                    heap[up] as int,
                    heap[p] as int,
                );
            }
        } else if parent(p) == hole {
            assert(before(sources, heap[up] as int, heap[p] as int));
        } else if p != up {
            assert(before(sources, heap[parent(p)] as int, heap[p] as int));
        }
    }
}

/// A heap stays what it is where the runs that it holds stay what they are.
pub proof fn lemma_heap_same(
    heap: Seq<usize>,
    old_sources: Seq<Seq<Entry>>,
    sources: Seq<Seq<Entry>>,
)
    requires
        heap_members(heap, old_sources),
        heap_ordered(heap, old_sources),
        old_sources.len() == sources.len(),
        forall|p: int|
            0 <= p < heap.len() ==> sources[(#[trigger] heap[p]) as int] == old_sources[heap[p] as int],
    ensures
        heap_members(heap, sources),
        heap_ordered(heap, sources),
{
    assert forall|p: int| 1 <= p < heap.len() implies before(
        sources,
        heap[parent(p)] as int,
        #[trigger] heap[p] as int,
    ) by {
        assert(sources[heap[parent(p)] as int] == old_sources[heap[parent(p)] as int]);
        lemma_before_same(old_sources, sources, heap[parent(p)] as int, heap[p] as int);
    }
}

/// Where the run at the top of a heap changes and the others stay, the heap
/// is in order but for the run at the top.
pub proof fn lemma_heap_top_moved(
    heap: Seq<usize>,
    old_sources: Seq<Seq<Entry>>,
    sources: Seq<Seq<Entry>>,
)
    requires
        heap_members(heap, old_sources),
        heap_ordered(heap, old_sources),
        heap.len() > 0,
        old_sources.len() == sources.len(),
        forall|i: int|
            0 <= i < sources.len() && i != heap[0] ==> #[trigger] sources[i] == old_sources[i],
    ensures
        heap_members_from(heap, sources, 1),
        ordered_but_down(heap, sources, 0),
{
    assert forall|p: int| 1 <= p < heap.len() implies sources[(#[trigger] heap[p]) as int]
        == old_sources[heap[p] as int] by {
        assert(heap[0] != heap[p]);
    }
    assert forall|p: int| 1 <= p < heap.len() && parent(p) != 0 implies before(
        sources,
        heap[parent(p)] as int,
        #[trigger] heap[p] as int,
    ) by {
        assert(sources[heap[parent(p)] as int] == old_sources[heap[parent(p)] as int]);
        lemma_before_same(old_sources, sources, heap[parent(p)] as int, heap[p] as int);
    }
}

/// The number of entries in all the runs.
pub open spec fn total_len(sources: Seq<Seq<Entry>>) -> nat
    decreases sources.len(),
{
    if sources.len() == 0 {
        0
    } else {
        total_len(sources.drop_last()) + sources.last().len()
    }
}

/// Where one run gets shorter and the others stay, all the runs together
/// hold fewer entries.
pub proof fn lemma_total_len_shrinks(
    old_sources: Seq<Seq<Entry>>,
    sources: Seq<Seq<Entry>>,
    at: int,
)
    requires
        old_sources.len() == sources.len(),
        0 <= at < sources.len(),
        sources[at].len() < old_sources[at].len(),
        forall|i: int| 0 <= i < sources.len() && i != at ==> sources[i] == old_sources[i],
    ensures
        total_len(sources) < total_len(old_sources),
    decreases sources.len(),
{
    let n = sources.len() as int;
    if at == n - 1 {
        assert(sources.drop_last() =~= old_sources.drop_last());
    } else {
        lemma_total_len_shrinks(old_sources.drop_last(), sources.drop_last(), at);
    }
}

} // verus!
