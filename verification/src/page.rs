//! The flame-graph page: the lines of a profile for each of the four
//! metrics, and the flame graph of the metric that is chosen.

use vstd::prelude::*;
use crate::callpath::{chain, frame_error, frames_at, lemma_chain_len, lemma_frames_sound, reconstruct};
use crate::collapsed::{format_line, labels_view, lemma_parse_format, parse_line, Line};
use crate::flame::FlameError;
use crate::flamegraph::{shown, Drawing, Flamegraph, Options, Pointer};
use crate::layout::Canvas;
use crate::trace::{
    AllocationInfo, Frame, InstructionPointer, MemInfo, MemoryKind, TraceError, TraceGraph,
};

verus! {

/// The label of a frame: the bytes of its function's name.
pub open spec fn label_of(strings: Seq<String>, frame: Frame) -> Seq<u8> {
    vstd::utf8::encode_utf8(strings[frame.function_idx() - 1]@)
}

/// The labels of a chain of frames.
pub open spec fn labels_of_frames(strings: Seq<String>, frames: Seq<Frame>) -> Seq<Seq<u8>> {
    Seq::new(frames.len(), |i: int| label_of(strings, frames[i]))
}

/// The line of one sampled event: the names along its chain and the metric
/// of its allocation.
pub open spec fn line_of(graph: TraceGraph, event: AllocationInfo, kind: MemoryKind) -> Result<
    Seq<u8>,
    TraceError,
> {
    if event.allocation_idx == 0 || event.allocation_idx > graph.allocations.len() {
        Err(TraceError::AllocationIndex(event.allocation_idx))
    } else {
        let allocation = graph.allocations[event.allocation_idx - 1];
        match chain(graph, allocation.trace_idx) {
            Err(e) => Err(e),
            Ok(frames) => Ok(
                format_line(labels_of_frames(graph.strings@, frames), allocation.data.metric(kind)),
            ),
        }
    }
}

/// The lines of the first `n` sampled events, or the first defect met.
pub open spec fn frame_lines(graph: TraceGraph, kind: MemoryKind, n: nat) -> Result<
    Seq<Seq<u8>>,
    TraceError,
>
    decreases n,
{
    if n == 0 {
        Ok(Seq::empty())
    } else {
        match frame_lines(graph, kind, (n - 1) as nat) {
            Err(e) => Err(e),
            Ok(lines) => match line_of(graph, graph.allocation_infos[n - 1], kind) {
                Err(e) => Err(e),
                Ok(line) => Ok(lines.push(line)),
            },
        }
    }
}

/// A defect among the first `n` events is the defect of any more.
pub proof fn lemma_frame_lines_error(graph: TraceGraph, kind: MemoryKind, n: nat, m: nat)
    requires
        n <= m,
        frame_lines(graph, kind, n) is Err,
    ensures
        frame_lines(graph, kind, m) == frame_lines(graph, kind, n),
    decreases m - n,
{
    if n < m {
        lemma_frame_lines_error(graph, kind, n, (m - 1) as nat);
    }
}

/// The weight that the line of an event carries: the metric of its allocation.
pub open spec fn weight_of(graph: TraceGraph, event: AllocationInfo, kind: MemoryKind) -> u64 {
    graph.allocations[event.allocation_idx - 1].data.metric(kind)
}

/// The lines that are written for a profile are read back: each is a
/// collapsed stack, and its weight is the metric it was written with,
/// whatever the names along the chain are.
pub proof fn lemma_lines_read_back(graph: TraceGraph, kind: MemoryKind, n: nat)
    ensures
        frame_lines(graph, kind, n) matches Ok(lines) ==> lines.len() == n && forall|i: int|
            0 <= i < n ==> (parse_line(#[trigger] lines[i]) matches Ok(read) && read.1 == weight_of(
                graph,
                graph.allocation_infos[i],
                kind,
            )),
    decreases n,
{
    if n > 0 {
        lemma_lines_read_back(graph, kind, (n - 1) as nat);
        if let Ok(lines) = frame_lines(graph, kind, n) {
            let before = frame_lines(graph, kind, (n - 1) as nat).unwrap();
            let event = graph.allocation_infos[n - 1];
            let allocation = graph.allocations[event.allocation_idx - 1];
            let frames = chain(graph, allocation.trace_idx).unwrap();
            lemma_parse_format(labels_of_frames(graph.strings@, frames), allocation.data.metric(kind));
            assert forall|i: int| 0 <= i < n implies (parse_line(#[trigger] lines[i]) matches Ok(
                read,
            ) && read.1 == weight_of(graph, graph.allocation_infos[i], kind)) by {
                if i < n - 1 {
                    assert(lines[i] == before[i]);
                }
            }
        }
    }
}

/// The unit of a metric: bytes for the two that measure memory, none for the
/// two that count.
pub open spec fn unit_of(kind: MemoryKind) -> Seq<char> {
    match kind {
        MemoryKind::Peak => "bytes"@,
        MemoryKind::Leaked => "bytes"@,
        MemoryKind::Temporary => ""@,
        MemoryKind::Allocations => ""@,
    }
}

/// The flame-graph page.
#[derive(Debug)]
pub struct FlamegraphPage {
    /// The metric that is shown.
    pub memory_kind: MemoryKind,
    pub peak_frame_lines: Vec<Vec<u8>>,
    pub tmp_frame_lines: Vec<Vec<u8>>,
    pub allocations_frame_lines: Vec<Vec<u8>>,
    pub leaked_frame_lines: Vec<Vec<u8>>,
    pub flamegraph: Flamegraph,
}

/// The frames at an address: its own, then the inlined ones as they are kept.
pub open spec fn frames_of(ip_info: InstructionPointer) -> Seq<Frame> {
    seq![ip_info.frame] + ip_info.inlined@
}

/// The error of the first of the frames whose function the string table
/// does not have.
pub open spec fn first_name_error(frames: Seq<Frame>, strings: nat) -> Option<TraceError>
    decreases frames.len(),
{
    if frames.len() == 0 {
        None
    } else {
        match first_name_error(frames.drop_last(), strings) {
            Some(e) => Some(e),
            None => if frames.last().function_idx() == 0 || frames.last().function_idx() > strings {
                Some(TraceError::FunctionIndex(frames.last().function_idx()))
            } else {
                None
            },
        }
    }
}

/// The names of the functions at an address: that of its own frame first,
/// then those of the inlined frames as they are kept.
pub open spec fn names_at(strings: Seq<String>, ip_info: InstructionPointer) -> Result<
    Seq<Seq<char>>,
    TraceError,
> {
    match first_name_error(frames_of(ip_info), strings.len()) {
        Some(e) => Err(e),
        None => Ok(
            Seq::new(
                frames_of(ip_info).len(),
                |i: int| strings[frames_of(ip_info)[i].function_idx() - 1]@,
            ),
        ),
    }
}

/// An error among the first `k` frames is the error of the whole list.
proof fn lemma_first_name_error_extends(frames: Seq<Frame>, strings: nat, k: int)
    requires
        0 <= k <= frames.len(),
        first_name_error(frames.take(k), strings) is Some,
    ensures
        first_name_error(frames, strings) == first_name_error(frames.take(k), strings),
    decreases frames.len() - k,
{
    if k == frames.len() {
        assert(frames.take(k) =~= frames);
    } else {
        assert(frames.take(k + 1).drop_last() =~= frames.take(k));
        lemma_first_name_error_extends(frames, strings, k + 1);
    }
}

/// Frames without a frame error have no name error.
proof fn lemma_sound_frames_have_names(frames: Seq<Frame>, strings: nat)
    requires
        forall|i: int| 0 <= i < frames.len() ==> frame_error(#[trigger] frames[i], strings) is None,
    ensures
        first_name_error(frames, strings) is None,
    decreases frames.len(),
{
    if frames.len() > 0 {
        assert(forall|i: int| 0 <= i < frames.len() - 1 ==> frames.drop_last()[i] == frames[i]);
        lemma_sound_frames_have_names(frames.drop_last(), strings);
        assert(frame_error(frames[frames.len() - 1], strings) is None);
    }
}

/// The labels of the frames at an address are the bytes of the names at it,
/// in the same order: the own frame first, then the inlined ones.
pub proof fn lemma_labels_at_are_names(graph: TraceGraph, ip_idx: u64)
    ensures
        frames_at(graph, ip_idx) matches Ok(frames) ==> (names_at(
            graph.strings@,
            graph.instruction_pointers[ip_idx - 1],
        ) matches Ok(names) && names.len() == frames.len() && forall|i: int|
            0 <= i < frames.len() ==> #[trigger] labels_of_frames(graph.strings@, frames)[i]
                == vstd::utf8::encode_utf8(names[i])),
{
    if let Ok(frames) = frames_at(graph, ip_idx) {
        lemma_frames_sound(frames, graph.strings.len() as nat);
        lemma_sound_frames_have_names(frames, graph.strings.len() as nat);
    }
}

/// The names of the functions at an address: that of its own frame first,
/// then those of the inlined frames as they are kept. A frame whose function
/// the string table does not have is reported.
pub fn get_frames_from_ip_info(data: &TraceGraph, ip_info: &InstructionPointer) -> (res: Result<
    Vec<String>,
    TraceError,
>)
    ensures
        match names_at(data.strings@, *ip_info) {
            Ok(names) => res matches Ok(v) && v.len() == names.len() && forall|i: int|
                0 <= i < v.len() ==> (#[trigger] v[i])@ == names[i],
            Err(e) => res matches Err(f) && f == e,
        },
        res matches Ok(v) ==> (v.len() == 1 + ip_info.inlined.len() && v[0]@
            == data.strings[ip_info.frame.function_idx() - 1]@ && forall|k: int|
            0 <= k < ip_info.inlined.len() ==> (#[trigger] v[k + 1])@
                == data.strings[ip_info.inlined[k].function_idx() - 1]@),
{
    let ghost frames = frames_of(*ip_info);
    let strings: usize = data.strings.len();
    let mut names: Vec<String> = Vec::new();
    let own = ip_info.frame.function_idx();
    proof {
        assert(frames[0] == ip_info.frame);
        assert(frames.take(1).drop_last() =~= Seq::<Frame>::empty());
        assert(first_name_error(Seq::<Frame>::empty(), strings as nat) is None);
        assert(frames.take(1).last() == ip_info.frame);
    }
    if own == 0 || own > strings {
        proof {
            lemma_first_name_error_extends(frames, strings as nat, 1);
        }
        return Err(TraceError::FunctionIndex(own));
    }
    names.push(data.strings[own - 1].clone());
    let mut i: usize = 0;
    while i < ip_info.inlined.len()
        invariant
            i <= ip_info.inlined.len(),
            strings == data.strings.len(),
            frames == frames_of(*ip_info),
            names.len() == i + 1,
            first_name_error(frames.take(i + 1), strings as nat) is None,
            forall|m: int| 0 <= m <= i ==> 1 <= (#[trigger] frames[m]).function_idx() <= strings,
            forall|m: int|
                0 <= m <= i ==> (#[trigger] names[m])@ == data.strings[frames[m].function_idx()
                    - 1]@,
        decreases ip_info.inlined.len() - i,
    {
        let frame = ip_info.inlined[i];
        proof {
            assert(frames[i + 1] == frame);
            assert(frames.take(i + 2).drop_last() =~= frames.take(i + 1));
            assert(frames.take(i + 2).last() == frame);
        }
        let function_idx = frame.function_idx();
        if function_idx == 0 || function_idx > strings {
            proof {
                lemma_first_name_error_extends(frames, strings as nat, i + 2);
            }
            return Err(TraceError::FunctionIndex(function_idx));
        }
        let name = data.strings[function_idx - 1].clone();
        let ghost before = names@;
        names.push(name);
        proof {
            assert forall|m: int| 0 <= m <= i + 1 implies (#[trigger] names[m])@
                == data.strings[frames[m].function_idx() - 1]@ by {
                if m <= i {
                    assert(names[m] == before[m]);
                    assert(before[m]@ == data.strings[frames[m].function_idx() - 1]@);
                } else {
                    assert(names[m] == name);
                }
            }
        }
        i = i + 1;
    }
    proof {
        assert(frames.take(i + 1) =~= frames);
        assert forall|k: int| 0 <= k < ip_info.inlined.len() implies (#[trigger] names[k + 1])@
            == data.strings[ip_info.inlined[k].function_idx() - 1]@ by {
            assert(frames[k + 1] == ip_info.inlined[k]);
        }
    }
    Ok(names)
}

/// The labels of a chain of sound frames, the innermost first.
fn frame_labels(graph: &TraceGraph, frames: &Vec<Frame>) -> (labels: Vec<Vec<u8>>)
    requires
        forall|i: int|
            0 <= i < frames.len() ==> frame_error(
                #[trigger] frames[i],
                graph.strings.len() as nat,
            ) is None,
    ensures
        labels_view(labels@).reverse() == labels_of_frames(graph.strings@, frames@),
{
    let n: usize = frames.len();
    let mut labels: Vec<Vec<u8>> = Vec::new();
    let mut i: usize = 0;
    while i < n
        invariant
            n == frames.len(),
            i <= n,
            labels.len() == i,
            forall|m: int|
                0 <= m < i ==> (#[trigger] labels[m])@ == label_of(
                    graph.strings@,
                    frames[n - 1 - m],
                ),
            forall|m: int|
                0 <= m < frames.len() ==> frame_error(
                    #[trigger] frames[m],
                    graph.strings.len() as nat,
                ) is None,
        decreases n - i,
    {
        let frame = frames[n - 1 - i];
        assert(frame_error(frames[n - 1 - i], graph.strings.len() as nat) is None);
        let name = graph.strings[frame.function_idx() - 1].as_str();
        let bytes = vstd::slice::slice_to_vec(name.as_bytes());
        labels.push(bytes);
        i = i + 1;
    }
    assert(labels_view(labels@).reverse() =~= labels_of_frames(graph.strings@, frames@));
    labels
}

impl FlamegraphPage {
    /// The lines of the page for one metric.
    pub open spec fn lines(&self, kind: MemoryKind) -> Seq<Seq<u8>> {
        match kind {
            MemoryKind::Peak => labels_view(self.peak_frame_lines@),
            MemoryKind::Temporary => labels_view(self.tmp_frame_lines@),
            MemoryKind::Allocations => labels_view(self.allocations_frame_lines@),
            MemoryKind::Leaked => labels_view(self.leaked_frame_lines@),
        }
    }

    /// One collapsed-stack line for each sampled event of the profile,
    /// weighted by the given metric of the event's allocation.
    pub fn make_frame_lines(info: &MemInfo, kind: MemoryKind) -> (res: Result<
        Vec<Vec<u8>>,
        TraceError,
    >)
        ensures
            match frame_lines(info.data, kind, info.data.allocation_infos.len() as nat) {
                Ok(lines) => res matches Ok(v) && labels_view(v@) == lines,
                Err(e) => res matches Err(f) && f == e,
            },
    {
        let graph = &info.data;
        let mut lines: Vec<Vec<u8>> = Vec::new();
        let mut i: usize = 0;
        assert(labels_view(lines@) =~= Seq::<Seq<u8>>::empty());
        while i < graph.allocation_infos.len()
            invariant
                i <= graph.allocation_infos.len(),
                *graph == info.data,
                frame_lines(*graph, kind, i as nat) == Ok::<Seq<Seq<u8>>, TraceError>(
                    labels_view(lines@),
                ),
            decreases graph.allocation_infos.len() - i,
        {
            let event = graph.allocation_infos[i];
            if event.allocation_idx == 0 || event.allocation_idx > graph.allocations.len() as u64 {
                proof {
                    lemma_frame_lines_error(
                        *graph,
                        kind,
                        i as nat + 1,
                        graph.allocation_infos.len() as nat,
                    );
                }
                return Err(TraceError::AllocationIndex(event.allocation_idx));
            }
            let allocation = graph.allocations[(event.allocation_idx - 1) as usize];
            proof {
                lemma_chain_len(*graph, allocation.trace_idx);
            }
            let frames = match reconstruct(graph, allocation.trace_idx) {
                Ok(frames) => frames,
                Err(e) => {
                    proof {
                        lemma_frame_lines_error(
                            *graph,
                            kind,
                            i as nat + 1,
                            graph.allocation_infos.len() as nat,
                        );
                    }
                    return Err(e);
                },
            };
            let mut line = Line::new(allocation.data.metric(kind));
            line.frames = frame_labels(graph, &frames);
            let bytes = line.into_bytes();
            proof {
                assert(labels_view(lines@.push(bytes)) =~= labels_view(lines@).push(bytes@));
            }
            lines.push(bytes);
            i = i + 1;
        }
        Ok(lines)
    }

    /// The page of a profile, showing the peak metric with nothing selected.
    pub fn new(info: &MemInfo) -> (res: Result<Self, TraceError>)
        ensures
            match res {
                Ok(page) => {
                    &&& page.memory_kind == MemoryKind::Peak
                    &&& page.flamegraph.wf()
                    &&& !page.flamegraph.is_selected()
                    &&& page.flamegraph.info_bar is None
                    &&& page.flamegraph.options.frame_height == 20
                    &&& page.flamegraph.options.show_info_bar
                    &&& forall|kind: MemoryKind|
                        frame_lines(
                            info.data,
                            kind,
                            info.data.allocation_infos.len() as nat,
                        ) == Ok::<Seq<Seq<u8>>, TraceError>(#[trigger] page.lines(kind))
                },
                Err(e) => frame_lines(
                    info.data,
                    MemoryKind::Peak,
                    info.data.allocation_infos.len() as nat,
                ) == Err::<Seq<Seq<u8>>, TraceError>(e),
            },
    {
        let options = Options { frame_height: 20, show_info_bar: true, unit: String::new() };
        let peak_frame_lines = match Self::make_frame_lines(info, MemoryKind::Peak) {
            Ok(lines) => lines,
            Err(e) => {
                return Err(e);
            },
        };
        proof {
            let n = info.data.allocation_infos.len() as nat;
            lemma_same_defects(info.data, MemoryKind::Peak, MemoryKind::Temporary, n);
            lemma_same_defects(info.data, MemoryKind::Peak, MemoryKind::Allocations, n);
            lemma_same_defects(info.data, MemoryKind::Peak, MemoryKind::Leaked, n);
        }
        let tmp_frame_lines = match Self::make_frame_lines(info, MemoryKind::Temporary) {
            Ok(lines) => lines,
            Err(e) => {
                return Err(e);
            },
        };
        let allocations_frame_lines = match Self::make_frame_lines(info, MemoryKind::Allocations) {
            Ok(lines) => lines,
            Err(e) => {
                return Err(e);
            },
        };
        let leaked_frame_lines = match Self::make_frame_lines(info, MemoryKind::Leaked) {
            Ok(lines) => lines,
            Err(e) => {
                return Err(e);
            },
        };
        Ok(
            FlamegraphPage {
                memory_kind: MemoryKind::Peak,
                peak_frame_lines,
                tmp_frame_lines,
                allocations_frame_lines,
                leaked_frame_lines,
                flamegraph: Flamegraph::new(options),
            },
        )
    }

    /// The unit of the metric that is shown.
    pub fn unit(&self) -> (unit: &'static str)
        ensures
            unit@ == unit_of(self.memory_kind),
    {
        match self.memory_kind {
            MemoryKind::Peak => "bytes",
            MemoryKind::Leaked => "bytes",
            MemoryKind::Temporary => "",
            MemoryKind::Allocations => "",
        }
    }

    /// Shows the metric `kind`: where it is another than before, the
    /// selection is dropped first; then the lines of `kind` are drawn.
    pub fn show(&mut self, kind: MemoryKind, canvas: &Canvas, pointer: &Pointer) -> (res: Result<
        Drawing,
        FlameError,
    >)
        requires
            old(self).flamegraph.wf(),
            canvas.min_x <= canvas.max_x,
        ensures
            final(self).flamegraph.wf(),
            final(self).memory_kind == kind,
            final(self).flamegraph.options == old(self).flamegraph.options,
            forall|any: MemoryKind| #[trigger] final(self).lines(any) == old(self).lines(any),
            shown(
                if kind == old(self).memory_kind {
                    old(self).flamegraph.selected_chain_ids@
                } else {
                    Seq::empty()
                },
                old(self).flamegraph.options,
                old(self).flamegraph.info_bar,
                final(self).flamegraph,
                old(self).lines(kind),
                *canvas,
                *pointer,
                res,
            ),
    {
        let previous = self.memory_kind;
        self.memory_kind = kind;
        if previous != kind {
            self.flamegraph.reset();
            assert(self.flamegraph.selected_chain_ids@ =~= Seq::<usize>::empty());
        }
        match kind {
            MemoryKind::Peak => self.flamegraph.show(&self.peak_frame_lines, canvas, pointer),
            MemoryKind::Leaked => self.flamegraph.show(&self.leaked_frame_lines, canvas, pointer),
            MemoryKind::Temporary => self.flamegraph.show(&self.tmp_frame_lines, canvas, pointer),
            MemoryKind::Allocations => self.flamegraph.show(
                &self.allocations_frame_lines,
                canvas,
                pointer,
            ),
        }
    }
}

/// The lines of two metrics have the same defects.
pub proof fn lemma_same_defects(graph: TraceGraph, a: MemoryKind, b: MemoryKind, n: nat)
    ensures
        match frame_lines(graph, a, n) {
            Ok(lines) => frame_lines(graph, b, n) is Ok,
            Err(e) => frame_lines(graph, b, n) == Err::<Seq<Seq<u8>>, TraceError>(e),
        },
    decreases n,
{
    if n > 0 {
        lemma_same_defects(graph, a, b, (n - 1) as nat);
    }
}

} // verus!
