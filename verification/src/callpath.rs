//! Reconstruction of a call chain from a parent-linked trace.

use vstd::prelude::*;
use crate::trace::{Frame, TraceError, TraceGraph};

verus! {

/// Puts `prefix` before the hops of `rest`, keeping an error.
pub open spec fn prepend_hops(prefix: Seq<u64>, rest: Result<Seq<u64>, TraceError>) -> Result<
    Seq<u64>,
    TraceError,
> {
    match rest {
        Ok(hops) => Ok(prefix + hops),
        Err(e) => Err(e),
    }
}

/// The instruction-pointer indices met on the way from `trace_idx` up to the
/// outermost level, innermost first, walking at most `fuel` levels.
pub open spec fn hops_within(graph: TraceGraph, trace_idx: u64, fuel: nat) -> Result<
    Seq<u64>,
    TraceError,
>
    decreases fuel,
{
    if trace_idx == 0 {
        Ok(Seq::empty())
    } else if trace_idx > graph.traces.len() {
        Err(TraceError::TraceIndex(trace_idx))
    } else if fuel == 0 {
        Err(TraceError::ParentCycle)
    } else {
        let trace = graph.traces[trace_idx - 1];
        prepend_hops(seq![trace.ip_idx], hops_within(graph, trace.parent_idx, (fuel - 1) as nat))
    }
}

/// The hops of a trace. A walk that has not reached the outermost level after
/// as many levels as the table has traces has met one of them twice.
pub open spec fn hops(graph: TraceGraph, trace_idx: u64) -> Result<Seq<u64>, TraceError> {
    hops_within(graph, trace_idx, graph.traces.len() as nat)
}

/// The trace that is reached from `trace_idx` after `k` levels up; 0 once
/// the walk has left the table.
pub open spec fn level(graph: TraceGraph, trace_idx: u64, k: nat) -> u64
    decreases k,
{
    if k == 0 {
        trace_idx
    } else {
        let below = level(graph, trace_idx, (k - 1) as nat);
        if 0 < below <= graph.traces.len() {
            graph.traces[below - 1].parent_idx
        } else {
            0
        }
    }
}

/// Going on for `j` levels from where `a` levels lead is going `a + j` levels.
proof fn lemma_level_add(graph: TraceGraph, trace_idx: u64, a: nat, j: nat)
    ensures
        level(graph, trace_idx, a + j) == level(graph, level(graph, trace_idx, a), j),
    decreases j,
{
    if j > 0 {
        lemma_level_add(graph, trace_idx, a, (j - 1) as nat);
    }
}

/// A walk that ends has passed only traces of the table, and as many as it
/// has hops.
proof fn lemma_ended_walk(graph: TraceGraph, trace_idx: u64, fuel: nat)
    requires
        hops_within(graph, trace_idx, fuel) is Ok,
    ensures
        hops_within(graph, trace_idx, fuel).unwrap().len() <= fuel,
        level(graph, trace_idx, hops_within(graph, trace_idx, fuel).unwrap().len()) == 0,
        forall|i: nat|
            i < hops_within(graph, trace_idx, fuel).unwrap().len() ==> 0 < #[trigger] level(
                graph,
                trace_idx,
                i,
            ) <= graph.traces.len(),
    decreases fuel,
{
    if trace_idx != 0 {
        let parent = graph.traces[trace_idx - 1].parent_idx;
        lemma_ended_walk(graph, parent, (fuel - 1) as nat);
        let rest = hops_within(graph, parent, (fuel - 1) as nat).unwrap();
        let all = hops_within(graph, trace_idx, fuel).unwrap();
        assert(all.len() == rest.len() + 1);
        assert(level(graph, trace_idx, 0) == trace_idx);
        assert(level(graph, trace_idx, 1) == parent);
        lemma_level_add(graph, trace_idx, 1, rest.len());
        assert forall|i: nat| i < all.len() implies 0 < #[trigger] level(graph, trace_idx, i)
            <= graph.traces.len() by {
            if i > 0 {
                lemma_level_add(graph, trace_idx, 1, (i - 1) as nat);
                assert(0 < level(graph, parent, (i - 1) as nat) <= graph.traces.len());
            }
        }
    }
}

/// A walk that reaches the outermost level after `m` levels ends with any
/// number of levels from `m` on, and with the same hops.
proof fn lemma_walk_needs(graph: TraceGraph, trace_idx: u64, m: nat, fuel: nat)
    requires
        m <= fuel,
        level(graph, trace_idx, m) == 0,
        forall|i: nat| i < m ==> 0 < #[trigger] level(graph, trace_idx, i) <= graph.traces.len(),
    ensures
        hops_within(graph, trace_idx, fuel) is Ok,
        hops_within(graph, trace_idx, fuel) == hops_within(graph, trace_idx, m),
    decreases m,
{
    if m > 0 {
        assert(0 < level(graph, trace_idx, 0) <= graph.traces.len());
        let parent = graph.traces[trace_idx - 1].parent_idx;
        assert(level(graph, trace_idx, 0) == trace_idx);
        assert(level(graph, trace_idx, 1) == parent);
        lemma_level_add(graph, trace_idx, 1, (m - 1) as nat);
        assert forall|i: nat| i < m - 1 implies 0 < #[trigger] level(graph, parent, i)
            <= graph.traces.len() by {
            lemma_level_add(graph, trace_idx, 1, i);
            assert(0 < level(graph, trace_idx, i + 1) <= graph.traces.len());
        }
        lemma_walk_needs(graph, parent, (m - 1) as nat, (fuel - 1) as nat);
        lemma_walk_needs(graph, parent, (m - 1) as nat, (m - 1) as nat);
    }
}

/// A walk that ends passes no trace twice, so it has no more hops than the
/// table has traces.
proof fn lemma_walk_is_short(graph: TraceGraph, trace_idx: u64, m: nat)
    requires
        level(graph, trace_idx, m) == 0,
        forall|i: nat| i < m ==> 0 < #[trigger] level(graph, trace_idx, i) <= graph.traces.len(),
    ensures
        m <= graph.traces.len(),
{
    let passed = Seq::new(m, |i: int| level(graph, trace_idx, i as nat) as int);
    assert forall|a: int, b: int| 0 <= a < passed.len() && 0 <= b < passed.len() && a
        != b implies passed[a] != passed[b] by {
        if passed[a] == passed[b] {
            let (lo, hi) = if a < b {
                (a, b)
            } else {
                (b, a)
            };
            // from the two places the walk goes on alike, so it would end early
            let left = (m - hi) as nat;
            lemma_level_add(graph, trace_idx, lo as nat, left);
            lemma_level_add(graph, trace_idx, hi as nat, left);
            assert(level(graph, trace_idx, lo as nat) == level(graph, trace_idx, hi as nat));
            assert(level(graph, trace_idx, (lo + left) as nat) == 0);
            assert(0 < level(graph, trace_idx, (lo + left) as nat));
        }
    }
    assert(passed.no_duplicates());
    passed.unique_seq_to_set();
    let table = vstd::set_lib::set_int_range(1, graph.traces.len() + 1);
    vstd::set_lib::lemma_int_range(1, graph.traces.len() + 1);
    assert forall|x: int| passed.to_set().contains(x) implies table.contains(x) by {
        let i = choose|i: int| 0 <= i < passed.len() && passed[i] == x;
        assert(0 < level(graph, trace_idx, i as nat) <= graph.traces.len());
    }
    vstd::set_lib::lemma_len_subset(passed.to_set(), table);
}

/// A chain of parents that ends at all ends within as many levels as the
/// table has traces: where the walk of a trace is cut off for want of
/// levels, no number of levels would have been enough.
pub proof fn lemma_enough_levels(graph: TraceGraph, trace_idx: u64, fuel: nat)
    requires
        hops_within(graph, trace_idx, fuel) is Ok,
    ensures
        hops(graph, trace_idx) == hops_within(graph, trace_idx, fuel),
{
    lemma_ended_walk(graph, trace_idx, fuel);
    let m = hops_within(graph, trace_idx, fuel).unwrap().len();
    lemma_walk_is_short(graph, trace_idx, m);
    lemma_walk_needs(graph, trace_idx, m, fuel);
    lemma_walk_needs(graph, trace_idx, m, graph.traces.len() as nat);
}

/// What is wrong with one frame, if anything, in a profile with `strings`
/// strings.
pub open spec fn frame_error(frame: Frame, strings: nat) -> Option<TraceError> {
    if frame.function_idx() == 0 || frame.function_idx() > strings {
        Some(TraceError::FunctionIndex(frame.function_idx()))
    } else if frame.file_idx() > strings {
        Some(TraceError::FileIndex(frame.file_idx()))
    } else {
        None
    }
}

/// The error of the first frame of `frames` that has one.
pub open spec fn first_frame_error(frames: Seq<Frame>, strings: nat) -> Option<TraceError>
    decreases frames.len(),
{
    if frames.len() == 0 {
        None
    } else {
        match first_frame_error(frames.drop_last(), strings) {
            Some(e) => Some(e),
            None => frame_error(frames.last(), strings),
        }
    }
}

/// The frames at one instruction pointer, outermost first: its own frame, then
/// the inlined ones.
pub open spec fn frames_at(graph: TraceGraph, ip_idx: u64) -> Result<Seq<Frame>, TraceError> {
    if ip_idx == 0 || ip_idx > graph.instruction_pointers.len() {
        Err(TraceError::IpIndex(ip_idx))
    } else {
        let ip = graph.instruction_pointers[ip_idx - 1];
        let frames = seq![ip.frame] + ip.inlined@;
        match first_frame_error(frames, graph.strings.len() as nat) {
            Some(e) => Err(e),
            None => Ok(frames),
        }
    }
}

/// The frames of a list of hops that is ordered outermost first.
pub open spec fn expand(graph: TraceGraph, hops: Seq<u64>) -> Result<Seq<Frame>, TraceError>
    decreases hops.len(),
{
    if hops.len() == 0 {
        Ok(Seq::empty())
    } else {
        match expand(graph, hops.drop_last()) {
            Err(e) => Err(e),
            Ok(outer) => match frames_at(graph, hops.last()) {
                Err(e) => Err(e),
                Ok(inner) => Ok(outer + inner),
            },
        }
    }
}

/// The call chain of a trace, from the outermost frame to the innermost, with
/// inlined frames in place; or the first defect met, on the way up first, then
/// on the way down.
pub open spec fn chain(graph: TraceGraph, trace_idx: u64) -> Result<Seq<Frame>, TraceError> {
    match hops(graph, trace_idx) {
        Err(e) => Err(e),
        Ok(up) => expand(graph, up.reverse()),
    }
}

/// How many frames one hop stands for: its own and the inlined ones.
pub open spec fn frames_per_hop(graph: TraceGraph, ip_idx: u64) -> nat {
    if 0 < ip_idx <= graph.instruction_pointers.len() {
        1 + graph.instruction_pointers[ip_idx - 1].inlined.len() as nat
    } else {
        0
    }
}

/// The sum of `frames_per_hop` over a list of hops.
pub open spec fn frames_of_hops(graph: TraceGraph, hops: Seq<u64>) -> nat
    decreases hops.len(),
{
    if hops.len() == 0 {
        0
    } else {
        frames_of_hops(graph, hops.drop_last()) + frames_per_hop(graph, hops.last())
    }
}

/// An expansion has one frame for each hop and one more for each frame
/// inlined at a hop.
pub proof fn lemma_expand_len(graph: TraceGraph, hops: Seq<u64>)
    ensures
        expand(graph, hops) matches Ok(frames) ==> frames.len() == frames_of_hops(graph, hops),
    decreases hops.len(),
{
    if hops.len() > 0 {
        lemma_expand_len(graph, hops.drop_last());
    }
}

/// Reversing a list of hops does not change how many frames it stands for.
pub proof fn lemma_frames_of_hops_reverse(graph: TraceGraph, hops: Seq<u64>)
    ensures
        frames_of_hops(graph, hops.reverse()) == frames_of_hops(graph, hops),
    decreases hops.len(),
{
    if hops.len() > 0 {
        let rest = hops.drop_first();
        lemma_frames_of_hops_reverse(graph, rest);
        assert(hops.reverse().drop_last() =~= rest.reverse());
        assert(hops.reverse().last() == hops[0]);
        lemma_frames_of_hops_front(graph, hops);
    }
}

/// The count of a list is the count of its first hop plus that of the rest.
proof fn lemma_frames_of_hops_front(graph: TraceGraph, hops: Seq<u64>)
    requires
        hops.len() > 0,
    ensures
        frames_of_hops(graph, hops) == frames_per_hop(graph, hops[0]) + frames_of_hops(
            graph,
            hops.drop_first(),
        ),
    decreases hops.len(),
{
    if hops.len() == 1 {
        assert(hops.drop_last() =~= Seq::<u64>::empty());
        assert(hops.drop_first() =~= Seq::<u64>::empty());
    } else {
        lemma_frames_of_hops_front(graph, hops.drop_last());
        assert(hops.drop_last().drop_first() =~= hops.drop_first().drop_last());
        assert(hops.drop_last()[0] == hops[0]);
        assert(hops.drop_first().last() == hops.last());
    }
}

/// Every frame of a list without a frame error is sound.
pub proof fn lemma_frames_sound(frames: Seq<Frame>, strings: nat)
    requires
        first_frame_error(frames, strings) is None,
    ensures
        forall|i: int| 0 <= i < frames.len() ==> frame_error(#[trigger] frames[i], strings) is None,
    decreases frames.len(),
{
    if frames.len() > 0 {
        lemma_frames_sound(frames.drop_last(), strings);
        assert forall|i: int| 0 <= i < frames.len() implies frame_error(
            #[trigger] frames[i],
            strings,
        ) is None by {
            if i < frames.len() - 1 {
                assert(frames.drop_last()[i] == frames[i]);
            }
        }
    }
}

/// Every frame of an expansion names a function and a file that the string
/// table has.
pub proof fn lemma_expand_sound(graph: TraceGraph, hops: Seq<u64>)
    ensures
        expand(graph, hops) matches Ok(frames) ==> forall|i: int|
            0 <= i < frames.len() ==> frame_error(
                #[trigger] frames[i],
                graph.strings.len() as nat,
            ) is None,
    decreases hops.len(),
{
    if hops.len() > 0 {
        lemma_expand_sound(graph, hops.drop_last());
        if let Ok(outer) = expand(graph, hops.drop_last()) {
            if let Ok(inner) = frames_at(graph, hops.last()) {
                lemma_frames_sound(inner, graph.strings.len() as nat);
                let frames = outer + inner;
                assert forall|i: int| 0 <= i < frames.len() implies frame_error(
                    #[trigger] frames[i],
                    graph.strings.len() as nat,
                ) is None by {
                    if i < outer.len() {
                        assert(frames[i] == outer[i]);
                    } else {
                        assert(frames[i] == inner[i - outer.len()]);
                    }
                }
            }
        }
    }
}

/// The length of a chain is the number of its frames per hop, summed over the
/// hops of the trace; the chain of trace 0 is empty.
pub proof fn lemma_chain_len(graph: TraceGraph, trace_idx: u64)
    ensures
        chain(graph, trace_idx) matches Ok(frames) ==> (hops(graph, trace_idx) is Ok
            && frames.len() == frames_of_hops(graph, hops(graph, trace_idx).unwrap())),
        chain(graph, 0) == Ok::<Seq<Frame>, TraceError>(Seq::empty()),
        chain(graph, trace_idx) matches Ok(frames) ==> forall|i: int|
            0 <= i < frames.len() ==> frame_error(
                #[trigger] frames[i],
                graph.strings.len() as nat,
            ) is None,
{
    if let Ok(up) = hops(graph, trace_idx) {
        lemma_expand_sound(graph, up.reverse());
        lemma_expand_len(graph, up.reverse());
        lemma_frames_of_hops_reverse(graph, up);
    }
    assert(Seq::<u64>::empty().reverse() =~= Seq::<u64>::empty());
}

/// Checks the frames at one instruction pointer and appends them to `out`.
fn push_frames_at(graph: &TraceGraph, ip_idx: u64, out: &mut Vec<Frame>) -> (res: Result<
    (),
    TraceError,
>)
    ensures
        match frames_at(*graph, ip_idx) {
            Ok(frames) => res is Ok && final(out)@ == old(out)@ + frames,
            Err(e) => res == Err::<(), TraceError>(e),
        },
{
    if ip_idx == 0 || ip_idx > graph.instruction_pointers.len() as u64 {
        return Err(TraceError::IpIndex(ip_idx));
    }
    let ip = &graph.instruction_pointers[(ip_idx - 1) as usize];
    let strings: usize = graph.strings.len();
    let ghost all = seq![ip.frame] + ip.inlined@;
    let ghost before = out@;
    let first = ip.frame;
    if first.function_idx() == 0 || first.function_idx() > strings {
        proof {
            lemma_first_frame_error_at(all, strings as nat, 0);
        }
        return Err(TraceError::FunctionIndex(first.function_idx()));
    }
    if first.file_idx() > strings {
        proof {
            lemma_first_frame_error_at(all, strings as nat, 0);
        }
        return Err(TraceError::FileIndex(first.file_idx()));
    }
    out.push(first);
    let mut i: usize = 0;
    assert(all.take(1) =~= seq![ip.frame]);
    assert(first_frame_error(all.take(1), strings as nat) is None) by {
        assert(all.take(1).drop_last() =~= Seq::<Frame>::empty());
        assert(first_frame_error(Seq::<Frame>::empty(), strings as nat) is None);
        assert(all.take(1).last() == first);
    }
    while i < ip.inlined.len()
        invariant
            i <= ip.inlined.len(),
            0 < ip_idx <= graph.instruction_pointers.len(),
            *ip == graph.instruction_pointers[ip_idx - 1],
            all == seq![ip.frame] + ip.inlined@,
            strings == graph.strings.len(),
            out@ == before + all.take(i + 1),
            first_frame_error(all.take(i + 1), strings as nat) is None,
        decreases ip.inlined.len() - i,
    {
        let frame = ip.inlined[i];
        assert(all[i + 1] == frame);
        if frame.function_idx() == 0 || frame.function_idx() > strings {
            proof {
                lemma_first_frame_error_at(all, strings as nat, i + 1);
            }
            return Err(TraceError::FunctionIndex(frame.function_idx()));
        }
        if frame.file_idx() > strings {
            proof {
                lemma_first_frame_error_at(all, strings as nat, i + 1);
            }
            return Err(TraceError::FileIndex(frame.file_idx()));
        }
        out.push(frame);
        proof {
            assert(all.take(i + 2).drop_last() =~= all.take(i + 1));
            assert(all.take(i + 2).last() == frame);
            assert(before + all.take(i + 2) =~= (before + all.take(i + 1)).push(frame));
        }
        i = i + 1;
    }
    assert(all.take(i + 1) =~= all);
    Ok(())
}

/// Where the frames before position `k` are sound and the one at `k` is not,
/// its error is the error of the whole list.
proof fn lemma_first_frame_error_at(frames: Seq<Frame>, strings: nat, k: int)
    requires
        0 <= k < frames.len(),
        first_frame_error(frames.take(k), strings) is None,
        frame_error(frames[k], strings) is Some,
    ensures
        first_frame_error(frames, strings) == frame_error(frames[k], strings),
    decreases frames.len() - k,
{
    assert(frames.take(k + 1).drop_last() =~= frames.take(k));
    assert(frames.take(k + 1).last() == frames[k]);
    lemma_first_frame_error_extends(frames, strings, k + 1);
}

/// An error among the first `k` frames is the error of the whole list.
proof fn lemma_first_frame_error_extends(frames: Seq<Frame>, strings: nat, k: int)
    requires
        0 <= k <= frames.len(),
        first_frame_error(frames.take(k), strings) is Some,
    ensures
        first_frame_error(frames, strings) == first_frame_error(frames.take(k), strings),
    decreases frames.len() - k,
{
    if k == frames.len() {
        assert(frames.take(k) =~= frames);
    } else {
        assert(frames.take(k + 1).drop_last() =~= frames.take(k));
        lemma_first_frame_error_extends(frames, strings, k + 1);
    }
}

/// The call chain of a trace: its frames from the outermost to the innermost,
/// inlined frames in place. Trace 0 has the empty chain. An index that does
/// not resolve, or a chain of parents that does not end, is reported.
pub fn reconstruct(graph: &TraceGraph, trace_idx: u64) -> (res: Result<Vec<Frame>, TraceError>)
    ensures
        match chain(*graph, trace_idx) {
            Ok(frames) => res matches Ok(v) && v@ == frames,
            Err(e) => res == Err::<Vec<Frame>, TraceError>(e),
        },
        trace_idx == 0 ==> (res matches Ok(v) && v@.len() == 0),
        res matches Ok(v) ==> (hops(*graph, trace_idx) is Ok && v@.len() == frames_of_hops(
            *graph,
            hops(*graph, trace_idx).unwrap(),
        )),
{
    proof {
        lemma_chain_len(*graph, trace_idx);
    }
    if trace_idx == 0 {
        return Ok(Vec::new());
    }
    let n: usize = graph.traces.len();
    let mut up: Vec<u64> = Vec::new();
    let mut cur: u64 = trace_idx;
    while cur != 0
        invariant
            n == graph.traces.len(),
            up.len() <= n,
            hops(*graph, trace_idx) == prepend_hops(
                up@,
                hops_within(*graph, cur, (n - up.len()) as nat),
            ),
        decreases n - up.len(),
    {
        if cur > n as u64 {
            return Err(TraceError::TraceIndex(cur));
        }
        if up.len() == n {
            return Err(TraceError::ParentCycle);
        }
        let trace = graph.traces[(cur - 1) as usize];
        proof {
            let rest = hops_within(*graph, trace.parent_idx, (n - up.len() - 1) as nat);
            if let Ok(r) = rest {
                assert(up@ + (seq![trace.ip_idx] + r) =~= up@.push(trace.ip_idx) + r);
            }
        }
        up.push(trace.ip_idx);
        cur = trace.parent_idx;
    }
    assert(hops(*graph, trace_idx) == Ok::<Seq<u64>, TraceError>(up@)) by {
        assert(up@ + Seq::<u64>::empty() =~= up@);
    }
    let ghost down = up@.reverse();
    let mut out: Vec<Frame> = Vec::new();
    let mut k: usize = 0;
    assert(down.take(0) =~= Seq::<u64>::empty());
    while k < up.len()
        invariant
            k <= up.len(),
            trace_idx != 0,
            down == up@.reverse(),
            hops(*graph, trace_idx) == Ok::<Seq<u64>, TraceError>(up@),
            expand(*graph, down.take(k as int)) == Ok::<Seq<Frame>, TraceError>(out@),
        decreases up.len() - k,
    {
        let ip_idx = up[up.len() - 1 - k];
        proof {
            assert(down[k as int] == ip_idx);
            assert(down.take(k + 1).drop_last() =~= down.take(k as int));
            assert(down.take(k + 1).last() == ip_idx);
        }
        match push_frames_at(graph, ip_idx, &mut out) {
            Ok(()) => {},
            Err(e) => {
                proof {
                    lemma_expand_error_extends(*graph, down, k + 1);
                }
                return Err(e);
            },
        }
        k = k + 1;
    }
    assert(down.take(k as int) =~= down);
    Ok(out)
}

/// An error in the expansion of the first `k` hops is the error of the whole
/// expansion.
proof fn lemma_expand_error_extends(graph: TraceGraph, hops: Seq<u64>, k: int)
    requires
        0 <= k <= hops.len(),
        expand(graph, hops.take(k)) is Err,
    ensures
        expand(graph, hops) == expand(graph, hops.take(k)),
    decreases hops.len() - k,
{
    if k == hops.len() {
        assert(hops.take(k) =~= hops);
    } else {
        assert(hops.take(k + 1).drop_last() =~= hops.take(k));
        lemma_expand_error_extends(graph, hops, k + 1);
    }
}

} // verus!
