//! The vector pass as a list of commands: opaque interiors first, then what
//! blends, from each geometry source, skipping whatever the view cannot see.

use bevy::camera::visibility::RenderLayers;
use vstd::prelude::*;

use crate::layers::{layer_words, shows, LayerTable};
use crate::render::arc::{ARC_INDEX_COUNT, ARC_INTERIOR_INDEX_COUNT};
use crate::render::batch::VectorBatch;
use crate::render::gpu::{Span, INDIRECT_BYTES};
use crate::render::params::{runs_partition, LayerRun, ParamBuffers, ParamItem};
use crate::render::prepare::VectorBuffers;

verus! {

/// Indices of the quad under every distance-field primitive.
pub const SDF_INDEX_COUNT: u32 = 6;

/// Where drawn geometry comes from.
#[derive(Clone, Copy, Debug, PartialEq, Eq, Structural)]
pub enum Source {
    Tessellated,
    Sdf,
    Arc,
}

/// One step of the pass.
#[derive(Clone, Copy, Debug, PartialEq, Eq, Structural)]
pub enum PassCommand {
    /// Bind the vertex, instance and index buffers of a source.
    Bind(Source),
    /// Use the opaque or the blending pipeline of a source.
    SetPipeline { source: Source, opaque: bool },
    /// Draw a range of instances of a range of indices.
    Draw { indices: Span, base_vertex: i32, instances: Span },
    /// Draw `count` indirect records from this byte offset on.
    MultiDraw { offset: u64, count: u32 },
}

/// The pipelines of a view that have been compiled.
#[derive(Clone, Copy, Debug, PartialEq, Eq, Structural)]
pub struct CompiledPipelines {
    pub opaque: bool,
    pub blend: bool,
    pub param_opaque: bool,
    pub param_blend: bool,
    pub sdf_opaque: bool,
    pub sdf_blend: bool,
}

/// The draws of the batches that a view sees.
pub open spec fn batch_draws(
    list: Seq<VectorBatch>,
    masks: Seq<Seq<u64>>,
    view: Seq<u64>,
) -> Seq<PassCommand>
    decreases list.len(),
{
    if list.len() == 0 {
        Seq::empty()
    } else {
        let earlier = batch_draws(list.drop_last(), masks, view);
        let batch = list.last();
        if shows(masks, batch.layer, view) {
            earlier.push(
                PassCommand::Draw {
                    indices: batch.indices,
                    base_vertex: batch.base_vertex,
                    instances: batch.instances,
                },
            )
        } else {
            earlier
        }
    }
}

/// The same as indirect draws, over records that start at `base`: one command
/// for every stretch of neighbouring visible batches.
pub open spec fn multi_draws(
    list: Seq<VectorBatch>,
    base: int,
    masks: Seq<Seq<u64>>,
    view: Seq<u64>,
) -> Seq<PassCommand>
    decreases list.len(),
{
    if list.len() == 0 {
        Seq::empty()
    } else {
        let earlier = multi_draws(list.drop_last(), base, masks, view);
        let at = list.len() - 1;
        if !shows(masks, list.last().layer, view) {
            earlier
        } else if at > 0 && shows(masks, list[at - 1].layer, view) {
            earlier.drop_last().push(
                PassCommand::MultiDraw {
                    offset: earlier.last()->offset,
                    count: (earlier.last()->count + 1) as u32,
                },
            )
        } else {
            earlier.push(
                PassCommand::MultiDraw { offset: ((base + at) * INDIRECT_BYTES) as u64, count: 1 },
            )
        }
    }
}

/// The part of a run that lies between two slots.
pub open spec fn clamped(span: Span, from: u32, to: u32) -> Span {
    Span {
        start: if span.start < from { from } else { span.start },
        end: if span.end > to { to } else { span.end },
    }
}

/// The draws of the runs that a view sees, as far as they lie between two
/// slots.
pub open spec fn run_draws(
    runs: Seq<LayerRun>,
    from: u32,
    to: u32,
    indices: Span,
    masks: Seq<Seq<u64>>,
    view: Seq<u64>,
) -> Seq<PassCommand>
    decreases runs.len(),
{
    if runs.len() == 0 {
        Seq::empty()
    } else {
        let earlier = run_draws(runs.drop_last(), from, to, indices, masks, view);
        let run = runs.last();
        let span = clamped(run.span, from, to);
        if span.start < span.end && shows(masks, run.layer, view) {
            earlier.push(PassCommand::Draw { indices, base_vertex: 0, instances: span })
        } else {
            earlier
        }
    }
}

/// Bind a source and choose its pipeline.
pub open spec fn entering(source: Source, opaque: bool) -> Seq<PassCommand> {
    seq![PassCommand::Bind(source), PassCommand::SetPipeline { source, opaque }]
}

/// There is tessellated content, and it is on the GPU.
pub open spec fn has_tessellated(buffers: VectorBuffers) -> bool {
    &&& buffers.layout@.opaque_batches.len() > 0 || buffers.layout@.blend_batches.len() > 0
    &&& buffers.has_vertex
    &&& buffers.has_index
    &&& buffers.has_instance
}

/// There is parametric content, and it is on the GPU.
pub open spec fn has_params(buffers: ParamBuffers) -> bool {
    buffers.total_count > 0 && buffers.has_mesh && buffers.has_instance
}

/// A tessellated phase: nothing without batches.
pub open spec fn tessellated_phase(
    buffers: VectorBuffers,
    opaque: bool,
    masks: Seq<Seq<u64>>,
    view: Seq<u64>,
) -> Seq<PassCommand> {
    let list = if opaque {
        buffers.layout@.opaque_batches
    } else {
        buffers.layout@.blend_batches
    };
    let base = if opaque {
        0int
    } else {
        buffers.layout@.opaque_batches.len() as int
    };
    if list.len() == 0 {
        Seq::empty()
    } else if buffers.use_multi_draw && buffers.has_indirect {
        entering(Source::Tessellated, opaque) + multi_draws(list, base, masks, view)
    } else {
        entering(Source::Tessellated, opaque) + batch_draws(list, masks, view)
    }
}

/// The opaque interiors of a parametric source: nothing without any.
pub open spec fn param_opaque_phase(
    buffers: ParamBuffers,
    source: Source,
    indices: Span,
    masks: Seq<Seq<u64>>,
    view: Seq<u64>,
) -> Seq<PassCommand> {
    if buffers.opaque_count == 0 {
        Seq::empty()
    } else {
        entering(source, true) + run_draws(
            buffers.layer_runs@,
            0,
            buffers.opaque_count,
            indices,
            masks,
            view,
        )
    }
}

/// The blending phase of the arcs: translucent interiors, then every fringe.
pub open spec fn arc_blend_phase(
    buffers: ParamBuffers,
    masks: Seq<Seq<u64>>,
    view: Seq<u64>,
) -> Seq<PassCommand> {
    entering(Source::Arc, false) + run_draws(
        buffers.layer_runs@,
        buffers.opaque_count,
        buffers.total_count,
        Span { start: 0, end: ARC_INTERIOR_INDEX_COUNT },
        masks,
        view,
    ) + run_draws(
        buffers.layer_runs@,
        0,
        u32::MAX,
        Span { start: ARC_INTERIOR_INDEX_COUNT, end: ARC_INDEX_COUNT },
        masks,
        view,
    )
}

/// The blending phase of the distance-field primitives.
pub open spec fn sdf_blend_phase(
    buffers: ParamBuffers,
    masks: Seq<Seq<u64>>,
    view: Seq<u64>,
) -> Seq<PassCommand> {
    entering(Source::Sdf, false) + run_draws(
        buffers.layer_runs@,
        buffers.opaque_count,
        u32::MAX,
        Span { start: 0, end: SDF_INDEX_COUNT },
        masks,
        view,
    )
}

/// The whole pass, or `None` where there is nothing to draw, no source has
/// both its pipelines compiled, or the view has no bind group yet.
pub open spec fn pass_of(
    buffers: VectorBuffers,
    arcs: ParamBuffers,
    sdf: ParamBuffers,
    compiled: CompiledPipelines,
    bound: bool,
    masks: Seq<Seq<u64>>,
    view: Seq<u64>,
) -> Option<Seq<PassCommand>> {
    let tess_ready = has_tessellated(buffers) && compiled.opaque && compiled.blend;
    let arcs_ready = has_params(arcs) && compiled.param_opaque && compiled.param_blend;
    let sdf_ready = has_params(sdf) && compiled.sdf_opaque && compiled.sdf_blend;
    if !bound || !(tess_ready || arcs_ready || sdf_ready) {
        None
    } else {
        let none = Seq::<PassCommand>::empty();
        Some(
            (if tess_ready {
                tessellated_phase(buffers, true, masks, view)
            } else {
                none
            }) + (if sdf_ready {
                param_opaque_phase(
                    sdf,
                    Source::Sdf,
                    Span { start: 0, end: SDF_INDEX_COUNT },
                    masks,
                    view,
                )
            } else {
                none
            }) + (if arcs_ready {
                param_opaque_phase(
                    arcs,
                    Source::Arc,
                    Span { start: 0, end: ARC_INTERIOR_INDEX_COUNT },
                    masks,
                    view,
                )
            } else {
                none
            }) + (if tess_ready {
                tessellated_phase(buffers, false, masks, view)
            } else {
                none
            }) + (if arcs_ready {
                arc_blend_phase(arcs, masks, view)
            } else {
                none
            }) + (if sdf_ready {
                sdf_blend_phase(sdf, masks, view)
            } else {
                none
            }),
        )
    }
}

fn push_entering(commands: &mut Vec<PassCommand>, source: Source, opaque: bool)
    ensures
        final(commands)@ == old(commands)@ + entering(source, opaque),
{
    commands.push(PassCommand::Bind(source));
    commands.push(PassCommand::SetPipeline { source, opaque });
    assert(commands@ =~= old(commands)@ + entering(source, opaque));
}

fn push_batch_draws(
    commands: &mut Vec<PassCommand>,
    list: &Vec<VectorBatch>,
    layers: &LayerTable,
    view: &RenderLayers,
)
    ensures
        final(commands)@ == old(commands)@ + batch_draws(list@, layers@, layer_words(*view)),
{
    let ghost start = commands@;
    let ghost words = layer_words(*view);
    let mut i: usize = 0;
    assert(commands@ =~= start + batch_draws(list@.take(0), layers@, words));
    while i < list.len()
        invariant
            words == layer_words(*view),
            i <= list@.len(),
            commands@ == start + batch_draws(list@.take(i as int), layers@, words),
        decreases list@.len() - i,
    {
        let batch: VectorBatch = list[i];
        let ghost prior = commands@;
        assert(list@.take(i + 1).drop_last() =~= list@.take(i as int));
        if layers.visible(batch.layer, view) {
            commands.push(
                PassCommand::Draw {
                    indices: batch.indices,
                    base_vertex: batch.base_vertex,
                    instances: batch.instances,
                },
            );
        }
        assert(commands@ =~= start + batch_draws(list@.take(i + 1), layers@, words));
        i = i + 1;
    }
    assert(list@.take(list@.len() as int) =~= list@);
}

/// A stretch of visible batches from `start` to `i`, all in one command.
proof fn lemma_stretch(
    list: Seq<VectorBatch>,
    base: int,
    start: int,
    i: int,
    masks: Seq<Seq<u64>>,
    view: Seq<u64>,
)
    requires
        0 <= start < i <= list.len() <= u32::MAX,
        forall|k: int|
            start <= k < i ==> shows(masks, (#[trigger] list[k]).layer, view),
        start > 0 ==> !shows(masks, list[start - 1].layer, view),
    ensures
        multi_draws(list.take(i), base, masks, view) == multi_draws(
            list.take(start),
            base,
            masks,
            view,
        ).push(
            PassCommand::MultiDraw {
                offset: ((base + start) * INDIRECT_BYTES) as u64,
                count: (i - start) as u32,
            },
        ),
    decreases i - start,
{
    assert(list.take(i).drop_last() =~= list.take(i - 1));
    assert(shows(masks, list[i - 1].layer, view));
    if i - 1 > start {
        assert(shows(masks, list[i - 2].layer, view));
        lemma_stretch(list, base, start, i - 1, masks, view);
        let earlier = multi_draws(list.take(i - 1), base, masks, view);
        assert(earlier.drop_last() =~= multi_draws(list.take(start), base, masks, view));
    }
}

fn push_multi_draws(
    commands: &mut Vec<PassCommand>,
    list: &Vec<VectorBatch>,
    base: usize,
    layers: &LayerTable,
    view: &RenderLayers,
)
    requires
        base + list@.len() <= u32::MAX,
    ensures
        final(commands)@ == old(commands)@ + multi_draws(
            list@,
            base as int,
            layers@,
            layer_words(*view),
        ),
{
    let ghost origin = commands@;
    let ghost words = layer_words(*view);
    let mut i: usize = 0;
    assert(commands@ =~= origin + multi_draws(list@.take(0), base as int, layers@, words));
    while i < list.len()
        invariant
            base + list@.len() <= u32::MAX,
            words == layer_words(*view),
            i <= list@.len(),
            0 < i < list@.len() ==> !shows(layers@, list@[i - 1].layer, words) || !shows(
                layers@,
                list@[i as int].layer,
                words,
            ),
            commands@ == origin + multi_draws(list@.take(i as int), base as int, layers@, words),
        decreases list@.len() - i,
    {
        if !layers.visible(list[i].layer, view) {
            assert(list@.take(i + 1).drop_last() =~= list@.take(i as int));
            i = i + 1;
            continue ;
        }
        let start: usize = i;
        while i < list.len() && layers.visible(list[i].layer, view)
            invariant
                words == layer_words(*view),
                start <= i <= list@.len(),
                forall|k: int|
                    start <= k < i ==> shows(layers@, (#[trigger] list@[k]).layer, words),
            ensures
                start <= i <= list@.len(),
                forall|k: int|
                    start <= k < i ==> shows(layers@, (#[trigger] list@[k]).layer, words),
                i < list@.len() ==> !shows(layers@, list@[i as int].layer, words),
            decreases list@.len() - i,
        {
            i = i + 1;
        }
        assert(i > start);
        proof {
            lemma_stretch(list@, base as int, start as int, i as int, layers@, words);
        }
        let ghost prior = commands@;
        commands.push(
            PassCommand::MultiDraw {
                offset: (base + start) as u64 * INDIRECT_BYTES,
                count: (i - start) as u32,
            },
        );
        assert(commands@ =~= origin + multi_draws(
            list@.take(i as int),
            base as int,
            layers@,
            words,
        ));
    }
    assert(list@.take(list@.len() as int) =~= list@);
}

fn push_run_draws(
    commands: &mut Vec<PassCommand>,
    runs: &Vec<LayerRun>,
    from: u32,
    to: u32,
    indices: Span,
    layers: &LayerTable,
    view: &RenderLayers,
)
    ensures
        final(commands)@ == old(commands)@ + run_draws(
            runs@,
            from,
            to,
            indices,
            layers@,
            layer_words(*view),
        ),
{
    let ghost origin = commands@;
    let ghost words = layer_words(*view);
    let mut i: usize = 0;
    assert(commands@ =~= origin + run_draws(runs@.take(0), from, to, indices, layers@, words));
    while i < runs.len()
        invariant
            words == layer_words(*view),
            i <= runs@.len(),
            commands@ == origin + run_draws(
                runs@.take(i as int),
                from,
                to,
                indices,
                layers@,
                words,
            ),
        decreases runs@.len() - i,
    {
        let run: LayerRun = runs[i];
        assert(runs@.take(i + 1).drop_last() =~= runs@.take(i as int));
        let start: u32 = if run.span.start < from {
            from
        } else {
            run.span.start
        };
        let end: u32 = if run.span.end > to {
            to
        } else {
            run.span.end
        };
        if start < end && layers.visible(run.layer, view) {
            commands.push(
                PassCommand::Draw { indices, base_vertex: 0, instances: Span { start, end } },
            );
        }
        assert(commands@ =~= origin + run_draws(
            runs@.take(i + 1),
            from,
            to,
            indices,
            layers@,
            words,
        ));
        i = i + 1;
    }
    assert(runs@.take(runs@.len() as int) =~= runs@);
}

fn push_tessellated_phase(
    commands: &mut Vec<PassCommand>,
    buffers: &VectorBuffers,
    opaque: bool,
    layers: &LayerTable,
    view: &RenderLayers,
)
    requires
        buffers.layout.opaque_batches@.len() + buffers.layout.blend_batches@.len() <= u32::MAX,
    ensures
        final(commands)@ == old(commands)@ + tessellated_phase(
            *buffers,
            opaque,
            layers@,
            layer_words(*view),
        ),
{
    let ghost origin = commands@;
    let base: usize = if opaque {
        0
    } else {
        buffers.layout.opaque_batches.len()
    };
    let list: &Vec<VectorBatch> = if opaque {
        &buffers.layout.opaque_batches
    } else {
        &buffers.layout.blend_batches
    };
    if list.len() > 0 {
        push_entering(commands, Source::Tessellated, opaque);
        if buffers.use_multi_draw && buffers.has_indirect {
            push_multi_draws(commands, list, base, layers, view);
        } else {
            push_batch_draws(commands, list, layers, view);
        }
    }
    assert(commands@ =~= origin + tessellated_phase(*buffers, opaque, layers@, layer_words(*view)));
}

fn push_param_opaque_phase(
    commands: &mut Vec<PassCommand>,
    buffers: &ParamBuffers,
    source: Source,
    indices: Span,
    layers: &LayerTable,
    view: &RenderLayers,
)
    ensures
        final(commands)@ == old(commands)@ + param_opaque_phase(
            *buffers,
            source,
            indices,
            layers@,
            layer_words(*view),
        ),
{
    let ghost origin = commands@;
    if buffers.opaque_count > 0 {
        push_entering(commands, source, true);
        push_run_draws(
            commands,
            &buffers.layer_runs,
            0,
            buffers.opaque_count,
            indices,
            layers,
            view,
        );
    }
    assert(commands@ =~= origin + param_opaque_phase(
        *buffers,
        source,
        indices,
        layers@,
        layer_words(*view),
    ));
}

/// The commands of the pass in one option of sequences.
pub open spec fn command_view(plan: Option<Vec<PassCommand>>) -> Option<Seq<PassCommand>> {
    match plan {
        None => None,
        Some(commands) => Some(commands@),
    }
}

/// Plans the vector pass of one view.
pub fn plan_pass(
    buffers: &VectorBuffers,
    arcs: &ParamBuffers,
    sdf: &ParamBuffers,
    compiled: CompiledPipelines,
    bound: bool,
    layers: &LayerTable,
    view: &RenderLayers,
) -> (plan: Option<Vec<PassCommand>>)
    requires
        buffers.layout.opaque_batches@.len() + buffers.layout.blend_batches@.len() <= u32::MAX,
    ensures
        command_view(plan) == pass_of(
            *buffers,
            *arcs,
            *sdf,
            compiled,
            bound,
            layers@,
            layer_words(*view),
        ),
{
    let tessellated: bool = (buffers.layout.opaque_batches.len() > 0
        || buffers.layout.blend_batches.len() > 0) && buffers.has_vertex && buffers.has_index
        && buffers.has_instance;
    let tess_ready: bool = tessellated && compiled.opaque && compiled.blend;
    let arcs_ready: bool = arcs.total_count > 0 && arcs.has_mesh && arcs.has_instance
        && compiled.param_opaque && compiled.param_blend;
    let sdf_ready: bool = sdf.total_count > 0 && sdf.has_mesh && sdf.has_instance
        && compiled.sdf_opaque && compiled.sdf_blend;
    if !bound || !(tess_ready || arcs_ready || sdf_ready) {
        return None;
    }
    let quad = Span { start: 0, end: SDF_INDEX_COUNT };
    let interior = Span { start: 0, end: ARC_INTERIOR_INDEX_COUNT };
    let fringe = Span { start: ARC_INTERIOR_INDEX_COUNT, end: ARC_INDEX_COUNT };
    let mut commands: Vec<PassCommand> = Vec::new();
    if tess_ready {
        push_tessellated_phase(&mut commands, buffers, true, layers, view);
    }
    if sdf_ready {
        push_param_opaque_phase(&mut commands, sdf, Source::Sdf, quad, layers, view);
    }
    if arcs_ready {
        push_param_opaque_phase(&mut commands, arcs, Source::Arc, interior, layers, view);
    }
    if tess_ready {
        push_tessellated_phase(&mut commands, buffers, false, layers, view);
    }
    if arcs_ready {
        let ghost origin = commands@;
        push_entering(&mut commands, Source::Arc, false);
        push_run_draws(
            &mut commands,
            &arcs.layer_runs,
            arcs.opaque_count,
            arcs.total_count,
            interior,
            layers,
            view,
        );
        push_run_draws(&mut commands, &arcs.layer_runs, 0, u32::MAX, fringe, layers, view);
        assert(commands@ =~= origin + arc_blend_phase(*arcs, layers@, layer_words(*view)));
    }
    if sdf_ready {
        let ghost origin = commands@;
        push_entering(&mut commands, Source::Sdf, false);
        push_run_draws(
            &mut commands,
            &sdf.layer_runs,
            sdf.opaque_count,
            u32::MAX,
            quad,
            layers,
            view,
        );
        assert(commands@ =~= origin + sdf_blend_phase(*sdf, layers@, layer_words(*view)));
    }
    proof {
        let whole = pass_of(*buffers, *arcs, *sdf, compiled, bound, layers@, layer_words(*view));
        assert(commands@ =~= whole->0);
    }
    Some(commands)
}

/// The positions of the batches that a view sees.
pub open spec fn seen(list: Seq<VectorBatch>, masks: Seq<Seq<u64>>, view: Seq<u64>) -> Seq<int>
    decreases list.len(),
{
    if list.len() == 0 {
        Seq::empty()
    } else {
        let earlier = seen(list.drop_last(), masks, view);
        if shows(masks, list.last().layer, view) {
            earlier.push(list.len() - 1)
        } else {
            earlier
        }
    }
}

/// Positions that only go up: none comes twice.
pub open spec fn ascending(positions: Seq<int>) -> bool {
    forall|k: int, m: int|
        0 <= k < m < positions.len() ==> #[trigger] positions[k] < #[trigger] positions[m]
}

/// The indirect records that a command draws.
pub open spec fn records(command: PassCommand) -> Seq<int> {
    match command {
        PassCommand::MultiDraw { offset, count } => Seq::new(
            count as nat,
            |k: int| offset as int / INDIRECT_BYTES as int + k,
        ),
        _ => Seq::empty(),
    }
}

/// The indirect records that a list of commands draws, in order.
pub open spec fn all_records(commands: Seq<PassCommand>) -> Seq<int>
    decreases commands.len(),
{
    if commands.len() == 0 {
        Seq::empty()
    } else {
        all_records(commands.drop_last()) + records(commands.last())
    }
}

pub open spec fn draw_of(batch: VectorBatch) -> PassCommand {
    PassCommand::Draw {
        indices: batch.indices,
        base_vertex: batch.base_vertex,
        instances: batch.instances,
    }
}

/// The records of the indirect draws are those of the seen batches; where the
/// last batch is seen, the last command ends with its record.
proof fn lemma_multi_draws_records(
    list: Seq<VectorBatch>,
    base: int,
    masks: Seq<Seq<u64>>,
    view: Seq<u64>,
)
    requires
        0 <= base,
        base + list.len() <= u32::MAX,
    ensures
        all_records(multi_draws(list, base, masks, view)) == seen(list, masks, view).map_values(
            |i: int| base + i,
        ),
        list.len() > 0 && shows(masks, list.last().layer, view) ==> {
            let commands = multi_draws(list, base, masks, view);
            &&& commands.len() > 0
            &&& commands.last() is MultiDraw
            &&& commands.last()->count <= list.len()
            &&& commands.last()->offset as int / INDIRECT_BYTES as int + commands.last()->count
                == base + list.len()
        },
    decreases list.len(),
{
    if list.len() > 0 {
        let rest = list.drop_last();
        lemma_multi_draws_records(rest, base, masks, view);
        let earlier = multi_draws(rest, base, masks, view);
        let commands = multi_draws(list, base, masks, view);
        let at = list.len() - 1;
        let shift = |i: int| base + i;
        if shows(masks, list.last().layer, view) {
            assert(seen(list, masks, view).map_values(shift) =~= seen(
                rest,
                masks,
                view,
            ).map_values(shift).push(base + at));
            if at > 0 && shows(masks, list[at - 1].layer, view) {
                assert(rest.last() == list[at - 1]);
                let open = earlier.last();
                assert(commands.drop_last() =~= earlier.drop_last());
                assert(records(commands.last()) =~= records(open).push(base + at));
                assert(all_records(commands) =~= all_records(earlier).push(base + at));
            } else {
                assert(commands.drop_last() =~= earlier);
                assert(((base + at) * INDIRECT_BYTES) / 20 == base + at);
                assert(records(commands.last()) =~= seq![base + at]);
                assert(all_records(commands) =~= all_records(earlier).push(base + at));
            }
        }
    } else {
        assert(all_records(multi_draws(list, base, masks, view)) =~= seen(
            list,
            masks,
            view,
        ).map_values(|i: int| base + i));
    }
}

/// Indirect or not, a view draws the same batches in the same order: exactly
/// those it sees, each once.
pub proof fn lemma_views_draw_exactly_what_they_see(
    list: Seq<VectorBatch>,
    base: int,
    masks: Seq<Seq<u64>>,
    view: Seq<u64>,
)
    requires
        0 <= base,
        base + list.len() <= u32::MAX,
    ensures
        all_records(multi_draws(list, base, masks, view)) == seen(list, masks, view).map_values(
            |i: int| base + i,
        ),
        batch_draws(list, masks, view) == seen(list, masks, view).map_values(
            |i: int| draw_of(list[i]),
        ),
        forall|i: int| #[trigger]
            seen(list, masks, view).contains(i) <==> 0 <= i < list.len() && shows(
                masks,
                list[i].layer,
                view,
            ),
        ascending(seen(list, masks, view)),
{
    lemma_multi_draws_records(list, base, masks, view);
    lemma_batch_draws(list, masks, view);
}

proof fn lemma_batch_draws(list: Seq<VectorBatch>, masks: Seq<Seq<u64>>, view: Seq<u64>)
    ensures
        batch_draws(list, masks, view) == seen(list, masks, view).map_values(
            |i: int| draw_of(list[i]),
        ),
        forall|i: int| #[trigger]
            seen(list, masks, view).contains(i) <==> 0 <= i < list.len() && shows(
                masks,
                list[i].layer,
                view,
            ),
        ascending(seen(list, masks, view)),
    decreases list.len(),
{
    let whole = seen(list, masks, view);
    if list.len() > 0 {
        let rest = list.drop_last();
        lemma_batch_draws(rest, masks, view);
        let earlier = seen(rest, masks, view);
        assert forall|k: int| 0 <= k < earlier.len() implies 0 <= #[trigger] earlier[k] < rest.len() by {
            assert(earlier.contains(earlier[k]));
        }
        assert(earlier.map_values(|i: int| draw_of(rest[i])) =~= earlier.map_values(
            |i: int| draw_of(list[i]),
        ));
        assert(batch_draws(list, masks, view) =~= whole.map_values(|i: int| draw_of(list[i])));
        assert forall|i: int| #[trigger] whole.contains(i) <==> 0 <= i < list.len() && shows(
            masks,
            list[i].layer,
            view,
        ) by {
            if earlier.contains(i) {
                let k = choose|k: int| 0 <= k < earlier.len() && earlier[k] == i;
                assert(whole[k] == i);
            }
            if i == list.len() - 1 && shows(masks, list[i].layer, view) {
                assert(whole[earlier.len() as int] == i);
            }
            if whole.contains(i) && i != list.len() - 1 {
                let k = choose|k: int| 0 <= k < whole.len() && whole[k] == i;
                assert(earlier[k] == i);
            }
            if 0 <= i < rest.len() {
                assert(earlier.contains(i) <==> shows(masks, rest[i].layer, view));
            }
        }
    } else {
        assert(batch_draws(list, masks, view) =~= whole.map_values(|i: int| draw_of(list[i])));
    }
}

/// A view that sees everything submits each phase as a single indirect draw.
pub proof fn lemma_seeing_all_is_one_multi_draw(
    list: Seq<VectorBatch>,
    base: int,
    masks: Seq<Seq<u64>>,
    view: Seq<u64>,
)
    requires
        0 < list.len() <= u32::MAX,
        forall|k: int| 0 <= k < list.len() ==> shows(masks, (#[trigger] list[k]).layer, view),
    ensures
        multi_draws(list, base, masks, view) == seq![
            PassCommand::MultiDraw {
                offset: (base * INDIRECT_BYTES) as u64,
                count: list.len() as u32,
            },
        ],
{
    lemma_stretch(list, base, 0, list.len() as int, masks, view);
    assert(list.take(list.len() as int) =~= list);
    assert(multi_draws(list.take(0), base, masks, view) =~= Seq::<PassCommand>::empty());
    assert(multi_draws(list, base, masks, view) =~= seq![
        PassCommand::MultiDraw {
            offset: (base * INDIRECT_BYTES) as u64,
            count: list.len() as u32,
        },
    ]);
}

/// A command draws the instance in this slot.
pub open spec fn covers(command: PassCommand, slot: int) -> bool {
    match command {
        PassCommand::Draw { indices, base_vertex, instances } => instances.start <= slot
            < instances.end,
        _ => false,
    }
}

/// How many of the commands draw the instance in this slot.
pub open spec fn times(commands: Seq<PassCommand>, slot: int) -> nat
    decreases commands.len(),
{
    if commands.len() == 0 {
        0
    } else {
        times(commands.drop_last(), slot) + if covers(commands.last(), slot) {
            1nat
        } else {
            0nat
        }
    }
}

proof fn lemma_slot_has_a_run(runs: Seq<LayerRun>, items: Seq<ParamItem>, slot: int, m: int)
    requires
        runs_partition(runs, items),
        0 <= m < runs.len(),
        0 <= slot < runs[m].span.end,
    ensures
        exists|k: int|
            0 <= k < runs.len() && (#[trigger] runs[k]).span.start <= slot < runs[k].span.end,
    decreases m,
{
    if runs[m].span.start > slot {
        assert(m > 0);
        assert(runs[m - 1].span.end == runs[m].span.start);
        lemma_slot_has_a_run(runs, items, slot, m - 1);
    }
}

proof fn lemma_runs_follow(runs: Seq<LayerRun>, items: Seq<ParamItem>, k: int, m: int)
    requires
        runs_partition(runs, items),
        0 <= k < m < runs.len(),
    ensures
        runs[k].span.end <= runs[m].span.start,
    decreases m - k,
{
    assert(runs[m - 1].span.end == runs[m].span.start);
    if k < m - 1 {
        lemma_runs_follow(runs, items, k, m - 1);
    }
}

/// Among the first `n` runs only the slot's own draws it.
proof fn lemma_own_run_draws(
    runs: Seq<LayerRun>,
    items: Seq<ParamItem>,
    n: int,
    own: int,
    from: u32,
    to: u32,
    indices: Span,
    masks: Seq<Seq<u64>>,
    view: Seq<u64>,
    slot: int,
)
    requires
        runs_partition(runs, items),
        0 <= n <= runs.len(),
        0 <= own < runs.len(),
        runs[own].span.start <= slot < runs[own].span.end,
    ensures
        times(run_draws(runs.take(n), from, to, indices, masks, view), slot) == if own < n && from
            <= slot < to && shows(masks, runs[own].layer, view) {
            1nat
        } else {
            0nat
        },
    decreases n,
{
    if n > 0 {
        lemma_own_run_draws(runs, items, n - 1, own, from, to, indices, masks, view, slot);
        let part = runs.take(n);
        let run = part.last();
        assert(part.drop_last() =~= runs.take(n - 1));
        let earlier = run_draws(runs.take(n - 1), from, to, indices, masks, view);
        let whole = run_draws(part, from, to, indices, masks, view);
        let span = clamped(run.span, from, to);
        if n - 1 < own {
            lemma_runs_follow(runs, items, n - 1, own);
        } else if own < n - 1 {
            lemma_runs_follow(runs, items, own, n - 1);
        }
        if span.start < span.end && shows(masks, run.layer, view) {
            assert(whole.drop_last() =~= earlier);
            assert(covers(whole.last(), slot) <==> n - 1 == own && from <= slot < to);
        }
    }
}

/// Between two slots a view draws exactly the primitives whose layer it sees,
/// and each once, whatever the runs they were grouped into.
pub proof fn lemma_runs_draw_exactly_what_is_seen(
    runs: Seq<LayerRun>,
    items: Seq<ParamItem>,
    from: u32,
    to: u32,
    indices: Span,
    masks: Seq<Seq<u64>>,
    view: Seq<u64>,
    slot: int,
)
    requires
        runs_partition(runs, items),
        0 <= slot < items.len(),
    ensures
        times(run_draws(runs, from, to, indices, masks, view), slot) == if from <= slot < to
            && shows(masks, items[slot].layer, view) {
            1nat
        } else {
            0nat
        },
{
    lemma_slot_has_a_run(runs, items, slot, runs.len() - 1);
    let own = choose|k: int|
        0 <= k < runs.len() && (#[trigger] runs[k]).span.start <= slot < runs[k].span.end;
    assert(items[slot].layer == runs[own].layer);
    lemma_own_run_draws(
        runs,
        items,
        runs.len() as int,
        own,
        from,
        to,
        indices,
        masks,
        view,
        slot,
    );
    assert(runs.take(runs.len() as int) =~= runs);
}

/// The source that is bound behind a list of commands.
pub open spec fn bound_source(commands: Seq<PassCommand>) -> Option<Source>
    decreases commands.len(),
{
    if commands.len() == 0 {
        None
    } else {
        match commands.last() {
            PassCommand::Bind(source) => Some(source),
            _ => bound_source(commands.drop_last()),
        }
    }
}

/// What a command draws, its indirect records taken from `list`.
pub open spec fn drawn(command: PassCommand, list: Seq<VectorBatch>) -> Seq<PassCommand> {
    match command {
        PassCommand::Draw { .. } => seq![command],
        PassCommand::MultiDraw { .. } => records(command).map_values(|r: int| draw_of(list[r])),
        _ => Seq::empty(),
    }
}

/// What the commands draw, in order.
pub open spec fn all_drawn(commands: Seq<PassCommand>, list: Seq<VectorBatch>) -> Seq<PassCommand>
    decreases commands.len(),
{
    if commands.len() == 0 {
        Seq::empty()
    } else {
        all_drawn(commands.drop_last(), list) + drawn(commands.last(), list)
    }
}

/// What the commands draw while a source is bound, in order.
pub open spec fn drawn_from_source(
    commands: Seq<PassCommand>,
    list: Seq<VectorBatch>,
    source: Source,
) -> Seq<PassCommand>
    decreases commands.len(),
{
    if commands.len() == 0 {
        Seq::empty()
    } else {
        drawn_from_source(commands.drop_last(), list, source) + if bound_source(commands) == Some(
            source,
        ) {
            drawn(commands.last(), list)
        } else {
            Seq::empty()
        }
    }
}

pub open spec fn is_draw(command: PassCommand) -> bool {
    command is Draw || command is MultiDraw
}

/// A phase draws what its draws are, from its own source.
proof fn lemma_phase_draws(
    before: Seq<PassCommand>,
    phase: Source,
    opaque: bool,
    draws: Seq<PassCommand>,
    list: Seq<VectorBatch>,
    source: Source,
)
    requires
        forall|k: int| 0 <= k < draws.len() ==> is_draw(#[trigger] draws[k]),
    ensures
        bound_source(before + (entering(phase, opaque) + draws)) == Some(phase),
        drawn_from_source(before + (entering(phase, opaque) + draws), list, source)
            == drawn_from_source(before, list, source) + if source == phase {
            all_drawn(draws, list)
        } else {
            Seq::empty()
        },
    decreases draws.len(),
{
    let whole = before + (entering(phase, opaque) + draws);
    if draws.len() == 0 {
        let one = before.push(PassCommand::Bind(phase));
        let two = one.push(PassCommand::SetPipeline { source: phase, opaque });
        assert(whole =~= two);
        assert(one.drop_last() =~= before);
        assert(two.drop_last() =~= one);
        assert(bound_source(one) == Some(phase));
        assert(drawn_from_source(one, list, source) =~= drawn_from_source(before, list, source));
        assert(drawn_from_source(two, list, source) =~= drawn_from_source(before, list, source));
        assert(whole.len() > 0);
    } else {
        let rest = draws.drop_last();
        assert forall|k: int| 0 <= k < rest.len() implies is_draw(#[trigger] rest[k]) by {
            assert(rest[k] == draws[k]);
        }
        lemma_phase_draws(before, phase, opaque, rest, list, source);
        assert(whole.drop_last() =~= before + (entering(phase, opaque) + rest));
        assert(whole.last() == draws.last());
        assert(is_draw(draws[draws.len() - 1]));
        assert(drawn_from_source(whole, list, source) =~= drawn_from_source(before, list, source)
            + if source == phase {
            all_drawn(draws, list)
        } else {
            Seq::empty()
        });
    }
}

proof fn lemma_multi_draws_only(
    list: Seq<VectorBatch>,
    base: int,
    masks: Seq<Seq<u64>>,
    view: Seq<u64>,
)
    ensures
        forall|k: int|
            0 <= k < multi_draws(list, base, masks, view).len() ==> (#[trigger] multi_draws(
                list,
                base,
                masks,
                view,
            )[k]) is MultiDraw,
    decreases list.len(),
{
    if list.len() > 0 {
        lemma_multi_draws_only(list.drop_last(), base, masks, view);
    }
}

proof fn lemma_multi_drawn(commands: Seq<PassCommand>, list: Seq<VectorBatch>)
    requires
        forall|k: int| 0 <= k < commands.len() ==> (#[trigger] commands[k]) is MultiDraw,
    ensures
        all_drawn(commands, list) == all_records(commands).map_values(|r: int| draw_of(list[r])),
    decreases commands.len(),
{
    let pick = |r: int| draw_of(list[r]);
    if commands.len() > 0 {
        let rest = commands.drop_last();
        assert forall|k: int| 0 <= k < rest.len() implies (#[trigger] rest[k]) is MultiDraw by {
            assert(rest[k] == commands[k]);
        }
        lemma_multi_drawn(rest, list);
        assert(commands[commands.len() - 1] is MultiDraw);
    }
    assert(all_drawn(commands, list) =~= all_records(commands).map_values(pick));
}

proof fn lemma_plain_drawn(commands: Seq<PassCommand>, list: Seq<VectorBatch>)
    requires
        forall|k: int| 0 <= k < commands.len() ==> (#[trigger] commands[k]) is Draw,
    ensures
        all_drawn(commands, list) == commands,
    decreases commands.len(),
{
    if commands.len() > 0 {
        let rest = commands.drop_last();
        assert forall|k: int| 0 <= k < rest.len() implies (#[trigger] rest[k]) is Draw by {
            assert(rest[k] == commands[k]);
        }
        lemma_plain_drawn(rest, list);
        assert(commands[commands.len() - 1] is Draw);
    }
    assert(all_drawn(commands, list) =~= commands);
}

proof fn lemma_run_draws_only(
    runs: Seq<LayerRun>,
    from: u32,
    to: u32,
    indices: Span,
    masks: Seq<Seq<u64>>,
    view: Seq<u64>,
)
    ensures
        forall|k: int|
            0 <= k < run_draws(runs, from, to, indices, masks, view).len() ==> (
            #[trigger] run_draws(runs, from, to, indices, masks, view)[k]) is Draw,
    decreases runs.len(),
{
    if runs.len() > 0 {
        lemma_run_draws_only(runs.drop_last(), from, to, indices, masks, view);
    }
}

/// The batches of both phases, in the order of their indirect records.
pub open spec fn record_list(buffers: VectorBuffers) -> Seq<VectorBatch> {
    buffers.layout@.opaque_batches + buffers.layout@.blend_batches
}

/// The draws of the batches of a list that a view sees, in the list's order.
pub open spec fn seen_draws(
    list: Seq<VectorBatch>,
    masks: Seq<Seq<u64>>,
    view: Seq<u64>,
) -> Seq<PassCommand> {
    seen(list, masks, view).map_values(|i: int| draw_of(list[i]))
}

proof fn lemma_tessellated_phase_draws(
    before: Seq<PassCommand>,
    buffers: VectorBuffers,
    opaque: bool,
    masks: Seq<Seq<u64>>,
    view: Seq<u64>,
    source: Source,
)
    requires
        record_list(buffers).len() <= u32::MAX,
    ensures
        drawn_from_source(
            before + tessellated_phase(buffers, opaque, masks, view),
            record_list(buffers),
            source,
        ) == drawn_from_source(before, record_list(buffers), source) + if source
            == Source::Tessellated {
            seen_draws(
                if opaque {
                    buffers.layout@.opaque_batches
                } else {
                    buffers.layout@.blend_batches
                },
                masks,
                view,
            )
        } else {
            Seq::empty()
        },
{
    let all = record_list(buffers);
    let list = if opaque {
        buffers.layout@.opaque_batches
    } else {
        buffers.layout@.blend_batches
    };
    let base = if opaque {
        0int
    } else {
        buffers.layout@.opaque_batches.len() as int
    };
    if list.len() == 0 {
        assert(before + tessellated_phase(buffers, opaque, masks, view) =~= before);
        assert(seen_draws(list, masks, view) =~= Seq::<PassCommand>::empty());
        assert(drawn_from_source(before, all, source) + Seq::<PassCommand>::empty()
            =~= drawn_from_source(before, all, source));
    } else {
        lemma_views_draw_exactly_what_they_see(list, base, masks, view);
        let positions = seen(list, masks, view);
        assert forall|k: int| 0 <= k < positions.len() implies 0 <= #[trigger] positions[k]
            < list.len() by {
            assert(positions.contains(positions[k]));
        }
        if buffers.use_multi_draw && buffers.has_indirect {
            let draws = multi_draws(list, base, masks, view);
            lemma_multi_draws_only(list, base, masks, view);
            lemma_multi_drawn(draws, all);
            assert(all_drawn(draws, all) =~= seen_draws(list, masks, view));
            lemma_phase_draws(before, Source::Tessellated, opaque, draws, all, source);
        } else {
            let draws = batch_draws(list, masks, view);
            lemma_plain_drawn(draws, all);
            lemma_phase_draws(before, Source::Tessellated, opaque, draws, all, source);
        }
    }
}

/// Between a slot and itself there is nothing to draw.
proof fn lemma_no_slots_no_draws(
    runs: Seq<LayerRun>,
    indices: Span,
    masks: Seq<Seq<u64>>,
    view: Seq<u64>,
)
    ensures
        run_draws(runs, 0, 0, indices, masks, view) == Seq::<PassCommand>::empty(),
    decreases runs.len(),
{
    if runs.len() > 0 {
        lemma_no_slots_no_draws(runs.drop_last(), indices, masks, view);
    }
}

/// A phase whose draws are all direct.
proof fn lemma_direct_phase_draws(
    before: Seq<PassCommand>,
    phase: Source,
    opaque: bool,
    draws: Seq<PassCommand>,
    list: Seq<VectorBatch>,
    source: Source,
)
    requires
        forall|k: int| 0 <= k < draws.len() ==> (#[trigger] draws[k]) is Draw,
    ensures
        drawn_from_source(before + (entering(phase, opaque) + draws), list, source)
            == drawn_from_source(before, list, source) + if source == phase {
            draws
        } else {
            Seq::empty()
        },
{
    lemma_plain_drawn(draws, list);
    lemma_phase_draws(before, phase, opaque, draws, list, source);
}

proof fn lemma_param_opaque_phase_draws(
    before: Seq<PassCommand>,
    buffers: ParamBuffers,
    phase: Source,
    indices: Span,
    masks: Seq<Seq<u64>>,
    view: Seq<u64>,
    list: Seq<VectorBatch>,
    source: Source,
)
    ensures
        drawn_from_source(
            before + param_opaque_phase(buffers, phase, indices, masks, view),
            list,
            source,
        ) == drawn_from_source(before, list, source) + if source == phase {
            run_draws(buffers.layer_runs@, 0, buffers.opaque_count, indices, masks, view)
        } else {
            Seq::empty()
        },
{
    let runs = buffers.layer_runs@;
    if buffers.opaque_count == 0 {
        lemma_no_slots_no_draws(runs, indices, masks, view);
        assert(before + param_opaque_phase(buffers, phase, indices, masks, view) =~= before);
        assert(drawn_from_source(before, list, source) + Seq::<PassCommand>::empty()
            =~= drawn_from_source(before, list, source));
    } else {
        lemma_run_draws_only(runs, 0, buffers.opaque_count, indices, masks, view);
        lemma_direct_phase_draws(
            before,
            phase,
            true,
            run_draws(runs, 0, buffers.opaque_count, indices, masks, view),
            list,
            source,
        );
    }
}

#[verifier::rlimit(40)]
proof fn lemma_pass_draws(
    buffers: VectorBuffers,
    arcs: ParamBuffers,
    sdf: ParamBuffers,
    compiled: CompiledPipelines,
    masks: Seq<Seq<u64>>,
    view: Seq<u64>,
    source: Source,
)
    requires
        record_list(buffers).len() <= u32::MAX,
        pass_of(buffers, arcs, sdf, compiled, true, masks, view) is Some,
    ensures
        ({
            let commands = pass_of(buffers, arcs, sdf, compiled, true, masks, view)->0;
            let drawn = drawn_from_source(commands, record_list(buffers), source);
            let interior = Span { start: 0, end: ARC_INTERIOR_INDEX_COUNT };
            let fringe = Span { start: ARC_INTERIOR_INDEX_COUNT, end: ARC_INDEX_COUNT };
            let quad = Span { start: 0, end: SDF_INDEX_COUNT };
            match source {
                Source::Tessellated => if has_tessellated(buffers) && compiled.opaque
                    && compiled.blend {
                    drawn == seen_draws(buffers.layout@.opaque_batches, masks, view) + seen_draws(
                        buffers.layout@.blend_batches,
                        masks,
                        view,
                    )
                } else {
                    drawn == Seq::<PassCommand>::empty()
                },
                Source::Arc => if has_params(arcs) && compiled.param_opaque
                    && compiled.param_blend {
                    let runs = arcs.layer_runs@;
                    drawn == run_draws(runs, 0, arcs.opaque_count, interior, masks, view)
                        + run_draws(
                        runs,
                        arcs.opaque_count,
                        arcs.total_count,
                        interior,
                        masks,
                        view,
                    ) + run_draws(runs, 0, u32::MAX, fringe, masks, view)
                } else {
                    drawn == Seq::<PassCommand>::empty()
                },
                Source::Sdf => if has_params(sdf) && compiled.sdf_opaque && compiled.sdf_blend {
                    let runs = sdf.layer_runs@;
                    drawn == run_draws(runs, 0, sdf.opaque_count, quad, masks, view) + run_draws(
                        runs,
                        sdf.opaque_count,
                        u32::MAX,
                        quad,
                        masks,
                        view,
                    )
                } else {
                    drawn == Seq::<PassCommand>::empty()
                },
            }
        }),
{
    let none = Seq::<PassCommand>::empty();
    let all = record_list(buffers);
    let tess_ready = has_tessellated(buffers) && compiled.opaque && compiled.blend;
    let arcs_ready = has_params(arcs) && compiled.param_opaque && compiled.param_blend;
    let sdf_ready = has_params(sdf) && compiled.sdf_opaque && compiled.sdf_blend;
    let interior = Span { start: 0, end: ARC_INTERIOR_INDEX_COUNT };
    let fringe = Span { start: ARC_INTERIOR_INDEX_COUNT, end: ARC_INDEX_COUNT };
    let quad = Span { start: 0, end: SDF_INDEX_COUNT };
    let p1 = if tess_ready {
        tessellated_phase(buffers, true, masks, view)
    } else {
        none
    };
    let p2 = if sdf_ready {
        param_opaque_phase(sdf, Source::Sdf, quad, masks, view)
    } else {
        none
    };
    let p3 = if arcs_ready {
        param_opaque_phase(arcs, Source::Arc, interior, masks, view)
    } else {
        none
    };
    let p4 = if tess_ready {
        tessellated_phase(buffers, false, masks, view)
    } else {
        none
    };
    let p5 = if arcs_ready {
        arc_blend_phase(arcs, masks, view)
    } else {
        none
    };
    let c2 = p1 + p2;
    let c3 = c2 + p3;
    let c4 = c3 + p4;
    let c5 = c4 + p5;
    assert(none + p1 =~= p1);
    if tess_ready {
        lemma_tessellated_phase_draws(none, buffers, true, masks, view, source);
        lemma_tessellated_phase_draws(c3, buffers, false, masks, view, source);
    } else {
        assert(c4 =~= c3);
    }
    if arcs_ready {
        let runs = arcs.layer_runs@;
        lemma_param_opaque_phase_draws(c2, arcs, Source::Arc, interior, masks, view, all, source);
        let a = run_draws(runs, arcs.opaque_count, arcs.total_count, interior, masks, view);
        let b = run_draws(runs, 0, u32::MAX, fringe, masks, view);
        lemma_run_draws_only(runs, arcs.opaque_count, arcs.total_count, interior, masks, view);
        lemma_run_draws_only(runs, 0, u32::MAX, fringe, masks, view);
        assert(p5 =~= entering(Source::Arc, false) + (a + b));
        lemma_direct_phase_draws(c4, Source::Arc, false, a + b, all, source);
    } else {
        assert(c3 =~= c2);
        assert(c5 =~= c4);
    }
    if sdf_ready {
        let runs = sdf.layer_runs@;
        lemma_param_opaque_phase_draws(p1, sdf, Source::Sdf, quad, masks, view, all, source);
        lemma_run_draws_only(runs, sdf.opaque_count, u32::MAX, quad, masks, view);
        lemma_direct_phase_draws(
            c5,
            Source::Sdf,
            false,
            run_draws(runs, sdf.opaque_count, u32::MAX, quad, masks, view),
            all,
            source,
        );
    } else {
        assert(c2 =~= p1);
        assert(c5 + none =~= c5);
    }
    let commands = pass_of(buffers, arcs, sdf, compiled, true, masks, view)->0;
    match source {
        Source::Tessellated => {
            if tess_ready {
                assert(drawn_from_source(commands, all, source) =~= seen_draws(
                    buffers.layout@.opaque_batches,
                    masks,
                    view,
                ) + seen_draws(buffers.layout@.blend_batches, masks, view));
            } else {
                assert(drawn_from_source(commands, all, source) =~= none);
            }
        },
        Source::Arc => {
            if arcs_ready {
                let runs = arcs.layer_runs@;
                assert(drawn_from_source(commands, all, source) =~= run_draws(
                    runs,
                    0,
                    arcs.opaque_count,
                    interior,
                    masks,
                    view,
                ) + run_draws(runs, arcs.opaque_count, arcs.total_count, interior, masks, view)
                    + run_draws(runs, 0, u32::MAX, fringe, masks, view));
            } else {
                assert(drawn_from_source(commands, all, source) =~= none);
            }
        },
        Source::Sdf => {
            if sdf_ready {
                let runs = sdf.layer_runs@;
                assert(drawn_from_source(commands, all, source) =~= run_draws(
                    runs,
                    0,
                    sdf.opaque_count,
                    quad,
                    masks,
                    view,
                ) + run_draws(runs, sdf.opaque_count, u32::MAX, quad, masks, view));
            } else {
                assert(drawn_from_source(commands, all, source) =~= none);
            }
        },
    }
}

/// What a pass draws from each of its sources, in order: of the tessellated
/// geometry the batches that the view sees, the opaque ones before the blended
/// ones, each once and the same with indirect draws as without; of the arcs the
/// opaque interiors, the translucent ones, then every fringe; of the
/// distance-field primitives the opaque ones, then the translucent ones. A
/// source that has no content or not both its pipelines draws nothing.
pub proof fn lemma_a_pass_draws_its_sources(
    buffers: VectorBuffers,
    arcs: ParamBuffers,
    sdf: ParamBuffers,
    compiled: CompiledPipelines,
    masks: Seq<Seq<u64>>,
    view: Seq<u64>,
)
    requires
        record_list(buffers).len() <= u32::MAX,
        pass_of(buffers, arcs, sdf, compiled, true, masks, view) is Some,
    ensures
        ({
            let commands = pass_of(buffers, arcs, sdf, compiled, true, masks, view)->0;
            let all = record_list(buffers);
            let interior = Span { start: 0, end: ARC_INTERIOR_INDEX_COUNT };
            let fringe = Span { start: ARC_INTERIOR_INDEX_COUNT, end: ARC_INDEX_COUNT };
            let quad = Span { start: 0, end: SDF_INDEX_COUNT };
            let none = Seq::<PassCommand>::empty();
            &&& drawn_from_source(commands, all, Source::Tessellated) == if has_tessellated(buffers)
                && compiled.opaque && compiled.blend {
                seen_draws(buffers.layout@.opaque_batches, masks, view) + seen_draws(
                    buffers.layout@.blend_batches,
                    masks,
                    view,
                )
            } else {
                none
            }
            &&& drawn_from_source(commands, all, Source::Arc) == if has_params(arcs)
                && compiled.param_opaque && compiled.param_blend {
                let runs = arcs.layer_runs@;
                run_draws(runs, 0, arcs.opaque_count, interior, masks, view) + run_draws(
                    runs,
                    arcs.opaque_count,
                    arcs.total_count,
                    interior,
                    masks,
                    view,
                ) + run_draws(runs, 0, u32::MAX, fringe, masks, view)
            } else {
                none
            }
            &&& drawn_from_source(commands, all, Source::Sdf) == if has_params(sdf)
                && compiled.sdf_opaque && compiled.sdf_blend {
                let runs = sdf.layer_runs@;
                run_draws(runs, 0, sdf.opaque_count, quad, masks, view) + run_draws(
                    runs,
                    sdf.opaque_count,
                    u32::MAX,
                    quad,
                    masks,
                    view,
                )
            } else {
                none
            }
        }),
{
    lemma_pass_draws(buffers, arcs, sdf, compiled, masks, view, Source::Tessellated);
    lemma_pass_draws(buffers, arcs, sdf, compiled, masks, view, Source::Arc);
    lemma_pass_draws(buffers, arcs, sdf, compiled, masks, view, Source::Sdf);
}

/// The pipeline that is set behind a list of commands.
pub open spec fn set_pipeline(commands: Seq<PassCommand>) -> Option<(Source, bool)>
    decreases commands.len(),
{
    if commands.len() == 0 {
        None
    } else {
        match commands.last() {
            PassCommand::SetPipeline { source, opaque } => Some((source, opaque)),
            _ => set_pipeline(commands.drop_last()),
        }
    }
}

/// What the commands draw under one pipeline, in order.
pub open spec fn drawn_under(
    commands: Seq<PassCommand>,
    list: Seq<VectorBatch>,
    source: Source,
    opaque: bool,
) -> Seq<PassCommand>
    decreases commands.len(),
{
    if commands.len() == 0 {
        Seq::empty()
    } else {
        drawn_under(commands.drop_last(), list, source, opaque) + if set_pipeline(
            commands.drop_last(),
        ) == Some((source, opaque)) {
            drawn(commands.last(), list)
        } else {
            Seq::empty()
        }
    }
}

/// Every draw runs under a pipeline of the source that is bound, and the draws of
/// tessellated geometry are indirect exactly where they are meant to be.
pub open spec fn in_step(commands: Seq<PassCommand>, indirect: bool) -> bool
    decreases commands.len(),
{
    commands.len() > 0 ==> {
        let earlier = commands.drop_last();
        &&& in_step(earlier, indirect)
        &&& is_draw(commands.last()) ==> {
            let state = set_pipeline(earlier)->0;
            &&& set_pipeline(earlier) is Some
            &&& bound_source(earlier) == Some(state.0)
            &&& commands.last() is MultiDraw <==> indirect && state.0 == Source::Tessellated
        }
    }
}

pub open spec fn sets_blending(command: PassCommand) -> bool {
    command matches PassCommand::SetPipeline { source, opaque } && !opaque
}

pub open spec fn sets_opaque(command: PassCommand) -> bool {
    command matches PassCommand::SetPipeline { source, opaque } && opaque
}

/// No opaque pipeline is set after a blending one.
pub open spec fn opaque_first(commands: Seq<PassCommand>) -> bool {
    forall|i: int, j: int|
        0 <= i < j < commands.len() && sets_blending(#[trigger] commands[i]) ==> !sets_opaque(
            #[trigger] commands[j],
        )
}

/// No blending pipeline is set.
pub open spec fn all_opaque(commands: Seq<PassCommand>) -> bool {
    forall|i: int| 0 <= i < commands.len() ==> !sets_blending(#[trigger] commands[i])
}

/// Commands that keep everything in order, and the pipeline that is set behind
/// them.
spec fn orderly(commands: Seq<PassCommand>, indirect: bool, phase: Source, opaque: bool) -> bool {
    &&& bound_source(commands) == Some(phase)
    &&& set_pipeline(commands) == Some((phase, opaque))
    &&& in_step(commands, indirect)
    &&& opaque_first(commands)
    &&& opaque ==> all_opaque(commands)
}

/// A phase that is entered behind other commands.
#[verifier::rlimit(40)]
proof fn lemma_entering_in_order(
    before: Seq<PassCommand>,
    phase: Source,
    opaque: bool,
    list: Seq<VectorBatch>,
    indirect: bool,
    source: Source,
    under: bool,
)
    requires
        in_step(before, indirect),
        opaque_first(before),
        opaque ==> all_opaque(before),
    ensures
        orderly(before + entering(phase, opaque), indirect, phase, opaque),
        drawn_under(before + entering(phase, opaque), list, source, under) == drawn_under(
            before,
            list,
            source,
            under,
        ),
{
    let whole = before + entering(phase, opaque);
    let one = before.push(PassCommand::Bind(phase));
    let two = one.push(PassCommand::SetPipeline { source: phase, opaque });
    assert(whole =~= two);
    assert(one.drop_last() =~= before);
    assert(two.drop_last() =~= one);
    assert(bound_source(one) == Some(phase));
    assert(set_pipeline(two) == Some((phase, opaque)));
    assert(in_step(one, indirect));
    assert(in_step(two, indirect));
    let old = drawn_under(before, list, source, under);
    assert(drawn_under(one, list, source, under) =~= old);
    assert(drawn_under(two, list, source, under) =~= old);
    assert forall|i: int, j: int|
        0 <= i < j < two.len() && sets_blending(#[trigger] two[i]) implies !sets_opaque(
        #[trigger] two[j],
    ) by {
        if j < before.len() {
            assert(sets_blending(before[i]));
            assert(!sets_opaque(before[j]));
        } else if i < before.len() {
            assert(sets_blending(before[i]));
        }
    }
    if opaque {
        assert forall|i: int| 0 <= i < two.len() implies !sets_blending(#[trigger] two[i]) by {
            if i < before.len() {
                assert(!sets_blending(before[i]));
            }
        }
    }
}

/// A draw behind commands that keep everything in order.
#[verifier::rlimit(40)]
proof fn lemma_draw_in_order(
    earlier: Seq<PassCommand>,
    draw: PassCommand,
    phase: Source,
    opaque: bool,
    list: Seq<VectorBatch>,
    indirect: bool,
    source: Source,
    under: bool,
)
    requires
        orderly(earlier, indirect, phase, opaque),
        is_draw(draw),
        draw is MultiDraw <==> indirect && phase == Source::Tessellated,
    ensures
        orderly(earlier.push(draw), indirect, phase, opaque),
        drawn_under(earlier.push(draw), list, source, under) == drawn_under(
            earlier,
            list,
            source,
            under,
        ) + if (source, under) == (phase, opaque) {
            drawn(draw, list)
        } else {
            Seq::empty()
        },
{
    let whole = earlier.push(draw);
    assert(whole.drop_last() =~= earlier);
    assert forall|i: int, j: int|
        0 <= i < j < whole.len() && sets_blending(#[trigger] whole[i]) implies !sets_opaque(
        #[trigger] whole[j],
    ) by {
        if j < earlier.len() {
            assert(earlier[i] == whole[i] && earlier[j] == whole[j]);
        }
    }
    if opaque {
        assert forall|i: int| 0 <= i < whole.len() implies !sets_blending(#[trigger] whole[i]) by {
            if i < earlier.len() {
                assert(earlier[i] == whole[i]);
            }
        }
    }
}

/// A phase behind other commands.
proof fn lemma_phase_in_order(
    before: Seq<PassCommand>,
    phase: Source,
    opaque: bool,
    draws: Seq<PassCommand>,
    list: Seq<VectorBatch>,
    indirect: bool,
    source: Source,
    under: bool,
)
    requires
        in_step(before, indirect),
        opaque_first(before),
        opaque ==> all_opaque(before),
        forall|k: int|
            0 <= k < draws.len() ==> is_draw(#[trigger] draws[k]) && (draws[k] is MultiDraw
                <==> indirect && phase == Source::Tessellated),
    ensures
        orderly(before + (entering(phase, opaque) + draws), indirect, phase, opaque),
        drawn_under(before + (entering(phase, opaque) + draws), list, source, under)
            == drawn_under(before, list, source, under) + if (source, under) == (phase, opaque) {
            all_drawn(draws, list)
        } else {
            Seq::empty()
        },
    decreases draws.len(),
{
    let whole = before + (entering(phase, opaque) + draws);
    let old = drawn_under(before, list, source, under);
    if draws.len() == 0 {
        lemma_entering_in_order(before, phase, opaque, list, indirect, source, under);
        assert(whole =~= before + entering(phase, opaque));
        assert(all_drawn(draws, list) =~= Seq::<PassCommand>::empty());
        assert(old + Seq::<PassCommand>::empty() =~= old);
    } else {
        let rest = draws.drop_last();
        assert forall|k: int| 0 <= k < rest.len() implies is_draw(#[trigger] rest[k]) && (
        rest[k] is MultiDraw <==> indirect && phase == Source::Tessellated) by {
            assert(is_draw(draws[k]));
        }
        lemma_phase_in_order(before, phase, opaque, rest, list, indirect, source, under);
        let earlier = before + (entering(phase, opaque) + rest);
        let last = draws[draws.len() - 1];
        assert(is_draw(last));
        lemma_draw_in_order(earlier, last, phase, opaque, list, indirect, source, under);
        assert(whole =~= earlier.push(last));
        if (source, under) == (phase, opaque) {
            assert(old + all_drawn(draws, list) =~= (old + all_drawn(rest, list)) + drawn(
                last,
                list,
            ));
        } else {
            assert((old + Seq::<PassCommand>::empty()) + Seq::<PassCommand>::empty() =~= old
                + Seq::<PassCommand>::empty());
        }
    }
}

/// The draws of a tessellated phase, drawn from the records of both.
spec fn tessellated_draws(
    buffers: VectorBuffers,
    opaque: bool,
    masks: Seq<Seq<u64>>,
    view: Seq<u64>,
) -> Seq<PassCommand> {
    let list = if opaque {
        buffers.layout@.opaque_batches
    } else {
        buffers.layout@.blend_batches
    };
    let base = if opaque {
        0int
    } else {
        buffers.layout@.opaque_batches.len() as int
    };
    if buffers.use_multi_draw && buffers.has_indirect {
        multi_draws(list, base, masks, view)
    } else {
        batch_draws(list, masks, view)
    }
}

proof fn lemma_tessellated_draws(
    buffers: VectorBuffers,
    opaque: bool,
    masks: Seq<Seq<u64>>,
    view: Seq<u64>,
)
    requires
        record_list(buffers).len() <= u32::MAX,
    ensures
        ({
            let draws = tessellated_draws(buffers, opaque, masks, view);
            let list = if opaque {
                buffers.layout@.opaque_batches
            } else {
                buffers.layout@.blend_batches
            };
            &&& all_drawn(draws, record_list(buffers)) == seen_draws(list, masks, view)
            &&& forall|k: int|
                0 <= k < draws.len() ==> is_draw(#[trigger] draws[k]) && (draws[k] is MultiDraw
                    <==> buffers.use_multi_draw && buffers.has_indirect)
        }),
{
    let all = record_list(buffers);
    let list = if opaque {
        buffers.layout@.opaque_batches
    } else {
        buffers.layout@.blend_batches
    };
    let base = if opaque {
        0int
    } else {
        buffers.layout@.opaque_batches.len() as int
    };
    lemma_views_draw_exactly_what_they_see(list, base, masks, view);
    let positions = seen(list, masks, view);
    assert forall|k: int| 0 <= k < positions.len() implies 0 <= #[trigger] positions[k]
        < list.len() by {
        assert(positions.contains(positions[k]));
    }
    if buffers.use_multi_draw && buffers.has_indirect {
        let draws = multi_draws(list, base, masks, view);
        lemma_multi_draws_only(list, base, masks, view);
        lemma_multi_drawn(draws, all);
        assert(all_drawn(draws, all) =~= seen_draws(list, masks, view));
    } else {
        let draws = batch_draws(list, masks, view);
        assert forall|k: int| 0 <= k < draws.len() implies (#[trigger] draws[k]) is Draw by {
            assert(draws == seen_draws(list, masks, view));
        }
        lemma_plain_drawn(draws, all);
    }
}

/// How often the instance in a slot is drawn with these indices.
pub open spec fn times_with(draws: Seq<PassCommand>, indices: Span, slot: int) -> nat
    decreases draws.len(),
{
    if draws.len() == 0 {
        0
    } else {
        times_with(draws.drop_last(), indices, slot) + match draws.last() {
            PassCommand::Draw { indices: own, base_vertex, instances } => if own == indices
                && instances.start <= slot < instances.end {
                1nat
            } else {
                0nat
            },
            _ => 0nat,
        }
    }
}

/// A draw of the shared mesh with these indices.
pub open spec fn draws_mesh(command: PassCommand, indices: Span) -> bool {
    command matches PassCommand::Draw { indices: own, base_vertex, instances } && own == indices
        && base_vertex == 0 && instances.start < instances.end
}

proof fn lemma_run_draws_mesh(
    runs: Seq<LayerRun>,
    from: u32,
    to: u32,
    indices: Span,
    masks: Seq<Seq<u64>>,
    view: Seq<u64>,
    other: Span,
    slot: int,
)
    ensures
        forall|k: int|
            0 <= k < run_draws(runs, from, to, indices, masks, view).len() ==> draws_mesh(
                #[trigger] run_draws(runs, from, to, indices, masks, view)[k],
                indices,
            ),
        times_with(run_draws(runs, from, to, indices, masks, view), indices, slot) == times(
            run_draws(runs, from, to, indices, masks, view),
            slot,
        ),
        other != indices ==> times_with(
            run_draws(runs, from, to, indices, masks, view),
            other,
            slot,
        ) == 0,
    decreases runs.len(),
{
    if runs.len() > 0 {
        let rest = runs.drop_last();
        lemma_run_draws_mesh(rest, from, to, indices, masks, view, other, slot);
        let earlier = run_draws(rest, from, to, indices, masks, view);
        let whole = run_draws(runs, from, to, indices, masks, view);
        if whole != earlier {
            assert(whole.drop_last() =~= earlier);
        }
    }
}

proof fn lemma_times_with_adds(
    a: Seq<PassCommand>,
    b: Seq<PassCommand>,
    indices: Span,
    slot: int,
)
    ensures
        times_with(a + b, indices, slot) == times_with(a, indices, slot) + times_with(
            b,
            indices,
            slot,
        ),
    decreases b.len(),
{
    if b.len() == 0 {
        assert(a + b =~= a);
    } else {
        lemma_times_with_adds(a, b.drop_last(), indices, slot);
        assert((a + b).drop_last() =~= a + b.drop_last());
    }
}

#[verifier::rlimit(40)]
proof fn lemma_pass_in_order(
    buffers: VectorBuffers,
    arcs: ParamBuffers,
    sdf: ParamBuffers,
    compiled: CompiledPipelines,
    masks: Seq<Seq<u64>>,
    view: Seq<u64>,
    source: Source,
    under: bool,
)
    requires
        record_list(buffers).len() <= u32::MAX,
        pass_of(buffers, arcs, sdf, compiled, true, masks, view) is Some,
    ensures
        ({
            let commands = pass_of(buffers, arcs, sdf, compiled, true, masks, view)->0;
            let drawn = drawn_under(commands, record_list(buffers), source, under);
            let interior = Span { start: 0, end: ARC_INTERIOR_INDEX_COUNT };
            let fringe = Span { start: ARC_INTERIOR_INDEX_COUNT, end: ARC_INDEX_COUNT };
            let quad = Span { start: 0, end: SDF_INDEX_COUNT };
            let none = Seq::<PassCommand>::empty();
            &&& opaque_first(commands)
            &&& in_step(commands, buffers.use_multi_draw && buffers.has_indirect)
            &&& drawn == match source {
                Source::Tessellated => if has_tessellated(buffers) && compiled.opaque
                    && compiled.blend {
                    if under {
                        seen_draws(buffers.layout@.opaque_batches, masks, view)
                    } else {
                        seen_draws(buffers.layout@.blend_batches, masks, view)
                    }
                } else {
                    none
                },
                Source::Arc => if has_params(arcs) && compiled.param_opaque
                    && compiled.param_blend {
                    let runs = arcs.layer_runs@;
                    if under {
                        run_draws(runs, 0, arcs.opaque_count, interior, masks, view)
                    } else {
                        run_draws(
                            runs,
                            arcs.opaque_count,
                            arcs.total_count,
                            interior,
                            masks,
                            view,
                        ) + run_draws(runs, 0, u32::MAX, fringe, masks, view)
                    }
                } else {
                    none
                },
                Source::Sdf => if has_params(sdf) && compiled.sdf_opaque && compiled.sdf_blend {
                    let runs = sdf.layer_runs@;
                    if under {
                        run_draws(runs, 0, sdf.opaque_count, quad, masks, view)
                    } else {
                        run_draws(runs, sdf.opaque_count, u32::MAX, quad, masks, view)
                    }
                } else {
                    none
                },
            }
        }),
{
    let none = Seq::<PassCommand>::empty();
    let all = record_list(buffers);
    let indirect = buffers.use_multi_draw && buffers.has_indirect;
    let tess_ready = has_tessellated(buffers) && compiled.opaque && compiled.blend;
    let arcs_ready = has_params(arcs) && compiled.param_opaque && compiled.param_blend;
    let sdf_ready = has_params(sdf) && compiled.sdf_opaque && compiled.sdf_blend;
    let interior = Span { start: 0, end: ARC_INTERIOR_INDEX_COUNT };
    let fringe = Span { start: ARC_INTERIOR_INDEX_COUNT, end: ARC_INDEX_COUNT };
    let quad = Span { start: 0, end: SDF_INDEX_COUNT };
    let p1 = if tess_ready {
        tessellated_phase(buffers, true, masks, view)
    } else {
        none
    };
    let p2 = if sdf_ready {
        param_opaque_phase(sdf, Source::Sdf, quad, masks, view)
    } else {
        none
    };
    let p3 = if arcs_ready {
        param_opaque_phase(arcs, Source::Arc, interior, masks, view)
    } else {
        none
    };
    let p4 = if tess_ready {
        tessellated_phase(buffers, false, masks, view)
    } else {
        none
    };
    let p5 = if arcs_ready {
        arc_blend_phase(arcs, masks, view)
    } else {
        none
    };
    let p6 = if sdf_ready {
        sdf_blend_phase(sdf, masks, view)
    } else {
        none
    };
    let after1 = none + p1;
    let after2 = after1 + p2;
    let after3 = after2 + p3;
    let after4 = after3 + p4;
    let after5 = after4 + p5;
    let after6 = after5 + p6;
    assert(after1 =~= p1);
    lemma_tessellated_draws(buffers, true, masks, view);
    lemma_tessellated_draws(buffers, false, masks, view);
    if tess_ready && buffers.layout@.opaque_batches.len() > 0 {
        lemma_phase_in_order(
            none,
            Source::Tessellated,
            true,
            tessellated_draws(buffers, true, masks, view),
            all,
            indirect,
            source,
            under,
        );
    } else {
        assert(after1 =~= none);
        assert(seen_draws(Seq::empty(), masks, view) =~= none);
        if tess_ready {
            assert(buffers.layout@.opaque_batches =~= Seq::empty());
        }
    }
    if sdf_ready && sdf.opaque_count > 0 {
        lemma_run_draws_only(sdf.layer_runs@, 0, sdf.opaque_count, quad, masks, view);
        let draws = run_draws(sdf.layer_runs@, 0, sdf.opaque_count, quad, masks, view);
        lemma_plain_drawn(draws, all);
        lemma_phase_in_order(after1, Source::Sdf, true, draws, all, indirect, source, under);
    } else {
        assert(after2 =~= after1);
        lemma_no_slots_no_draws(sdf.layer_runs@, quad, masks, view);
    }
    if arcs_ready && arcs.opaque_count > 0 {
        lemma_run_draws_only(arcs.layer_runs@, 0, arcs.opaque_count, interior, masks, view);
        let draws = run_draws(arcs.layer_runs@, 0, arcs.opaque_count, interior, masks, view);
        lemma_plain_drawn(draws, all);
        lemma_phase_in_order(after2, Source::Arc, true, draws, all, indirect, source, under);
    } else {
        assert(after3 =~= after2);
        lemma_no_slots_no_draws(arcs.layer_runs@, interior, masks, view);
    }
    if tess_ready && buffers.layout@.blend_batches.len() > 0 {
        lemma_phase_in_order(
            after3,
            Source::Tessellated,
            false,
            tessellated_draws(buffers, false, masks, view),
            all,
            indirect,
            source,
            under,
        );
    } else {
        assert(after4 =~= after3);
        assert(seen_draws(Seq::empty(), masks, view) =~= none);
        if tess_ready {
            assert(buffers.layout@.blend_batches =~= Seq::empty());
        }
    }
    if arcs_ready {
        let runs = arcs.layer_runs@;
        let a = run_draws(runs, arcs.opaque_count, arcs.total_count, interior, masks, view);
        let b = run_draws(runs, 0, u32::MAX, fringe, masks, view);
        lemma_run_draws_only(runs, arcs.opaque_count, arcs.total_count, interior, masks, view);
        lemma_run_draws_only(runs, 0, u32::MAX, fringe, masks, view);
        assert(p5 =~= entering(Source::Arc, false) + (a + b));
        lemma_plain_drawn(a + b, all);
        lemma_phase_in_order(after4, Source::Arc, false, a + b, all, indirect, source, under);
    } else {
        assert(after5 =~= after4);
    }
    if sdf_ready {
        let runs = sdf.layer_runs@;
        lemma_run_draws_only(runs, sdf.opaque_count, u32::MAX, quad, masks, view);
        let draws = run_draws(runs, sdf.opaque_count, u32::MAX, quad, masks, view);
        lemma_plain_drawn(draws, all);
        lemma_phase_in_order(after5, Source::Sdf, false, draws, all, indirect, source, under);
    } else {
        assert(after6 =~= after5);
    }
    let commands = pass_of(buffers, arcs, sdf, compiled, true, masks, view)->0;
    assert(commands =~= after6);
    let drawn = drawn_under(commands, all, source, under);
    match source {
        Source::Tessellated => {
            assert(drawn =~= if tess_ready {
                if under {
                    seen_draws(buffers.layout@.opaque_batches, masks, view)
                } else {
                    seen_draws(buffers.layout@.blend_batches, masks, view)
                }
            } else {
                none
            });
        },
        Source::Arc => {
            assert(drawn =~= if arcs_ready {
                if under {
                    run_draws(arcs.layer_runs@, 0, arcs.opaque_count, interior, masks, view)
                } else {
                    run_draws(
                        arcs.layer_runs@,
                        arcs.opaque_count,
                        arcs.total_count,
                        interior,
                        masks,
                        view,
                    ) + run_draws(arcs.layer_runs@, 0, u32::MAX, fringe, masks, view)
                }
            } else {
                none
            });
        },
        Source::Sdf => {
            assert(drawn =~= if sdf_ready {
                if under {
                    run_draws(sdf.layer_runs@, 0, sdf.opaque_count, quad, masks, view)
                } else {
                    run_draws(sdf.layer_runs@, sdf.opaque_count, u32::MAX, quad, masks, view)
                }
            } else {
                none
            });
        },
    }
}

/// Opaque content is drawn before anything blends: across all sources no opaque
/// pipeline is set after a blending one. Every draw runs under a pipeline of the
/// source that is bound, and those of tessellated geometry are indirect exactly
/// where indirect draws are to be had. Under the opaque pipeline of tessellated
/// geometry exactly the opaque batches are drawn that the view sees, under the
/// blending one the blended ones, each once and in order.
pub proof fn lemma_opaque_phases_come_first(
    buffers: VectorBuffers,
    arcs: ParamBuffers,
    sdf: ParamBuffers,
    compiled: CompiledPipelines,
    masks: Seq<Seq<u64>>,
    view: Seq<u64>,
)
    requires
        record_list(buffers).len() <= u32::MAX,
        pass_of(buffers, arcs, sdf, compiled, true, masks, view) is Some,
    ensures
        ({
            let commands = pass_of(buffers, arcs, sdf, compiled, true, masks, view)->0;
            let all = record_list(buffers);
            let ready = has_tessellated(buffers) && compiled.opaque && compiled.blend;
            let none = Seq::<PassCommand>::empty();
            &&& opaque_first(commands)
            &&& in_step(commands, buffers.use_multi_draw && buffers.has_indirect)
            &&& drawn_under(commands, all, Source::Tessellated, true) == if ready {
                seen_draws(buffers.layout@.opaque_batches, masks, view)
            } else {
                none
            }
            &&& drawn_under(commands, all, Source::Tessellated, false) == if ready {
                seen_draws(buffers.layout@.blend_batches, masks, view)
            } else {
                none
            }
        }),
{
    lemma_pass_in_order(buffers, arcs, sdf, compiled, masks, view, Source::Tessellated, true);
    lemma_pass_in_order(buffers, arcs, sdf, compiled, masks, view, Source::Tessellated, false);
}

/// An arc that a view sees is drawn with the shared mesh: its interior once, under
/// the opaque pipeline where it is opaque and under the blending one where it is
/// not; and its fringe once, under the blending pipeline and behind all
/// interiors. One that the view does not see is not drawn.
pub proof fn lemma_seen_arcs_are_drawn_once(
    buffers: VectorBuffers,
    arcs: ParamBuffers,
    sdf: ParamBuffers,
    compiled: CompiledPipelines,
    masks: Seq<Seq<u64>>,
    view: Seq<u64>,
    items: Seq<ParamItem>,
    slot: int,
)
    requires
        record_list(buffers).len() <= u32::MAX,
        pass_of(buffers, arcs, sdf, compiled, true, masks, view) is Some,
        has_params(arcs) && compiled.param_opaque && compiled.param_blend,
        runs_partition(arcs.layer_runs@, items),
        arcs.opaque_count <= arcs.total_count == items.len(),
        items.len() < u32::MAX,
        0 <= slot < items.len(),
    ensures
        ({
            let commands = pass_of(buffers, arcs, sdf, compiled, true, masks, view)->0;
            let solid = drawn_under(commands, record_list(buffers), Source::Arc, true);
            let blended = drawn_under(commands, record_list(buffers), Source::Arc, false);
            let interior = Span { start: 0, end: ARC_INTERIOR_INDEX_COUNT };
            let fringe = Span { start: ARC_INTERIOR_INDEX_COUNT, end: ARC_INDEX_COUNT };
            let seen = shows(masks, items[slot].layer, view);
            &&& times_with(solid, interior, slot) == if seen && slot < arcs.opaque_count {
                1nat
            } else {
                0nat
            }
            &&& times_with(blended, interior, slot) == if seen && slot >= arcs.opaque_count {
                1nat
            } else {
                0nat
            }
            &&& times_with(blended, fringe, slot) == if seen {
                1nat
            } else {
                0nat
            }
            &&& forall|k: int|
                0 <= k < solid.len() ==> draws_mesh(#[trigger] solid[k], interior)
            &&& forall|k: int|
                0 <= k < blended.len() ==> draws_mesh(#[trigger] blended[k], interior)
                    || draws_mesh(blended[k], fringe)
            &&& forall|j: int, k: int|
                0 <= j < k < blended.len() && draws_mesh(#[trigger] blended[j], fringe)
                    ==> draws_mesh(#[trigger] blended[k], fringe)
        }),
{
    lemma_pass_in_order(buffers, arcs, sdf, compiled, masks, view, Source::Arc, true);
    lemma_pass_in_order(buffers, arcs, sdf, compiled, masks, view, Source::Arc, false);
    let interior = Span { start: 0, end: ARC_INTERIOR_INDEX_COUNT };
    let fringe = Span { start: ARC_INTERIOR_INDEX_COUNT, end: ARC_INDEX_COUNT };
    let runs = arcs.layer_runs@;
    let (o, n) = (arcs.opaque_count, arcs.total_count);
    lemma_run_draws_mesh(runs, 0, o, interior, masks, view, fringe, slot);
    lemma_run_draws_mesh(runs, o, n, interior, masks, view, fringe, slot);
    lemma_run_draws_mesh(runs, 0, u32::MAX, fringe, masks, view, interior, slot);
    lemma_runs_draw_exactly_what_is_seen(runs, items, 0, o, interior, masks, view, slot);
    lemma_runs_draw_exactly_what_is_seen(runs, items, o, n, interior, masks, view, slot);
    lemma_runs_draw_exactly_what_is_seen(runs, items, 0, u32::MAX, fringe, masks, view, slot);
    let a = run_draws(runs, o, n, interior, masks, view);
    let b = run_draws(runs, 0, u32::MAX, fringe, masks, view);
    lemma_times_with_adds(a, b, interior, slot);
    lemma_times_with_adds(a, b, fringe, slot);
    assert forall|k: int| 0 <= k < (a + b).len() implies draws_mesh(
        #[trigger] (a + b)[k],
        interior,
    ) || draws_mesh((a + b)[k], fringe) by {
        if k < a.len() {
            assert(draws_mesh(a[k], interior));
        } else {
            assert(draws_mesh(b[k - a.len()], fringe));
        }
    }
    assert forall|j: int, k: int|
        0 <= j < k < (a + b).len() && draws_mesh(#[trigger] (a + b)[j], fringe) implies draws_mesh(
        #[trigger] (a + b)[k],
        fringe,
    ) by {
        if k < a.len() {
            assert(draws_mesh(a[j], interior));
        } else {
            assert(draws_mesh(b[k - a.len()], fringe));
        }
    }
}

/// A distance-field primitive that a view sees is drawn once with the shared
/// quad: under the opaque pipeline where it is opaque, under the blending one
/// where it is not. One that the view does not see is not drawn.
pub proof fn lemma_seen_quads_are_drawn_once(
    buffers: VectorBuffers,
    arcs: ParamBuffers,
    sdf: ParamBuffers,
    compiled: CompiledPipelines,
    masks: Seq<Seq<u64>>,
    view: Seq<u64>,
    items: Seq<ParamItem>,
    slot: int,
)
    requires
        record_list(buffers).len() <= u32::MAX,
        pass_of(buffers, arcs, sdf, compiled, true, masks, view) is Some,
        has_params(sdf) && compiled.sdf_opaque && compiled.sdf_blend,
        runs_partition(sdf.layer_runs@, items),
        sdf.opaque_count <= items.len(),
        items.len() < u32::MAX,
        0 <= slot < items.len(),
    ensures
        ({
            let commands = pass_of(buffers, arcs, sdf, compiled, true, masks, view)->0;
            let solid = drawn_under(commands, record_list(buffers), Source::Sdf, true);
            let blended = drawn_under(commands, record_list(buffers), Source::Sdf, false);
            let quad = Span { start: 0, end: 6 };
            let seen = shows(masks, items[slot].layer, view);
            &&& times_with(solid, quad, slot) == if seen && slot < sdf.opaque_count {
                1nat
            } else {
                0nat
            }
            &&& times_with(blended, quad, slot) == if seen && slot >= sdf.opaque_count {
                1nat
            } else {
                0nat
            }
            &&& forall|k: int| 0 <= k < solid.len() ==> draws_mesh(#[trigger] solid[k], quad)
            &&& forall|k: int| 0 <= k < blended.len() ==> draws_mesh(#[trigger] blended[k], quad)
        }),
{
    lemma_pass_in_order(buffers, arcs, sdf, compiled, masks, view, Source::Sdf, true);
    lemma_pass_in_order(buffers, arcs, sdf, compiled, masks, view, Source::Sdf, false);
    let quad = Span { start: 0, end: SDF_INDEX_COUNT };
    let runs = sdf.layer_runs@;
    let o = sdf.opaque_count;
    lemma_run_draws_mesh(runs, 0, o, quad, masks, view, quad, slot);
    lemma_run_draws_mesh(runs, o, u32::MAX, quad, masks, view, quad, slot);
    lemma_runs_draw_exactly_what_is_seen(runs, items, 0, o, quad, masks, view, slot);
    lemma_runs_draw_exactly_what_is_seen(runs, items, o, u32::MAX, quad, masks, view, slot);
}

/// There is a pass exactly where the view has its bindings and some source has
/// content on the GPU and both its pipelines.
pub proof fn lemma_a_pass_needs_content_and_pipelines(
    buffers: VectorBuffers,
    arcs: ParamBuffers,
    sdf: ParamBuffers,
    compiled: CompiledPipelines,
    bound: bool,
    masks: Seq<Seq<u64>>,
    view: Seq<u64>,
)
    ensures
        pass_of(buffers, arcs, sdf, compiled, bound, masks, view) is Some <==> bound && ((
        compiled.opaque && compiled.blend && (buffers.layout.opaque_batches@.len() > 0
            || buffers.layout.blend_batches@.len() > 0) && buffers.has_vertex && buffers.has_index
            && buffers.has_instance) || (compiled.param_opaque && compiled.param_blend
            && arcs.total_count > 0 && arcs.has_mesh && arcs.has_instance) || (compiled.sdf_opaque
            && compiled.sdf_blend && sdf.total_count > 0 && sdf.has_mesh && sdf.has_instance)),
{
}


/// When a phase comes: the opaque ones first, of the tessellated geometry, the
/// distance-field primitives and the arcs; then the blending ones, of the
/// tessellated geometry, the arcs and the distance-field primitives.
pub open spec fn turn(source: Source, opaque: bool) -> int {
    match (source, opaque) {
        (Source::Tessellated, true) => 0,
        (Source::Sdf, true) => 1,
        (Source::Arc, true) => 2,
        (Source::Tessellated, false) => 3,
        (Source::Arc, false) => 4,
        (Source::Sdf, false) => 5,
    }
}

/// The turn of the pipeline that a command sets.
pub open spec fn sets_turn(command: PassCommand) -> Option<int> {
    match command {
        PassCommand::SetPipeline { source, opaque } => Some(turn(source, opaque)),
        _ => None,
    }
}

/// Pipelines are set in their turn, none twice.
pub open spec fn by_turns(commands: Seq<PassCommand>) -> bool {
    forall|i: int, j: int|
        0 <= i < j < commands.len() && sets_turn(#[trigger] commands[i]) is Some && sets_turn(
            #[trigger] commands[j],
        ) is Some ==> sets_turn(commands[i])->0 < sets_turn(commands[j])->0
}

/// Every pipeline that is set has an earlier turn.
spec fn before_turn(commands: Seq<PassCommand>, turn: int) -> bool {
    forall|i: int|
        0 <= i < commands.len() ==> (sets_turn(#[trigger] commands[i]) matches Some(own) ==> own
            < turn)
}

proof fn lemma_phase_takes_its_turn(
    before: Seq<PassCommand>,
    phase: Source,
    opaque: bool,
    draws: Seq<PassCommand>,
)
    requires
        by_turns(before),
        before_turn(before, turn(phase, opaque)),
        forall|k: int| 0 <= k < draws.len() ==> is_draw(#[trigger] draws[k]),
    ensures
        by_turns(before + (entering(phase, opaque) + draws)),
        before_turn(before + (entering(phase, opaque) + draws), turn(phase, opaque) + 1),
{
    let whole = before + (entering(phase, opaque) + draws);
    let n = before.len() as int;
    assert forall|i: int| 0 <= i < whole.len() implies (sets_turn(#[trigger] whole[i]) is Some
        ==> i < n && whole[i] == before[i] || i == n + 1 && sets_turn(whole[i]) == Some(
        turn(phase, opaque),
    )) by {
        if i >= n + 2 {
            assert(whole[i] == draws[i - n - 2]);
        }
    }
    assert forall|i: int, j: int|
        0 <= i < j < whole.len() && sets_turn(#[trigger] whole[i]) is Some && sets_turn(
            #[trigger] whole[j],
        ) is Some implies sets_turn(whole[i])->0 < sets_turn(whole[j])->0 by {
        assert(i < n);
        assert(whole[i] == before[i]);
        if j < n {
            assert(whole[j] == before[j]);
        }
    }
}

/// A pass goes through its phases in their turn, each at most once: the opaque
/// phases of all sources, then the blending ones, of which the tessellated one is
/// first, so that arcs and distance-field primitives blend over it.
#[verifier::rlimit(40)]
pub proof fn lemma_phases_take_their_turn(
    buffers: VectorBuffers,
    arcs: ParamBuffers,
    sdf: ParamBuffers,
    compiled: CompiledPipelines,
    bound: bool,
    masks: Seq<Seq<u64>>,
    view: Seq<u64>,
    commands: Seq<PassCommand>,
)
    requires
        record_list(buffers).len() <= u32::MAX,
        pass_of(buffers, arcs, sdf, compiled, bound, masks, view) == Some(commands),
    ensures
        by_turns(commands),
{
    let none = Seq::<PassCommand>::empty();
    let tess_ready = has_tessellated(buffers) && compiled.opaque && compiled.blend;
    let arcs_ready = has_params(arcs) && compiled.param_opaque && compiled.param_blend;
    let sdf_ready = has_params(sdf) && compiled.sdf_opaque && compiled.sdf_blend;
    let interior = Span { start: 0, end: ARC_INTERIOR_INDEX_COUNT };
    let fringe = Span { start: ARC_INTERIOR_INDEX_COUNT, end: ARC_INDEX_COUNT };
    let quad = Span { start: 0, end: SDF_INDEX_COUNT };
    lemma_tessellated_draws(buffers, true, masks, view);
    lemma_tessellated_draws(buffers, false, masks, view);
    let first = if tess_ready && buffers.layout@.opaque_batches.len() > 0 {
        let draws = tessellated_draws(buffers, true, masks, view);
        lemma_phase_takes_its_turn(none, Source::Tessellated, true, draws);
        none + (entering(Source::Tessellated, true) + draws)
    } else {
        none
    };
    let second = if sdf_ready && sdf.opaque_count > 0 {
        let draws = run_draws(sdf.layer_runs@, 0, sdf.opaque_count, quad, masks, view);
        lemma_run_draws_only(sdf.layer_runs@, 0, sdf.opaque_count, quad, masks, view);
        lemma_phase_takes_its_turn(first, Source::Sdf, true, draws);
        first + (entering(Source::Sdf, true) + draws)
    } else {
        first
    };
    let third = if arcs_ready && arcs.opaque_count > 0 {
        let draws = run_draws(arcs.layer_runs@, 0, arcs.opaque_count, interior, masks, view);
        lemma_run_draws_only(arcs.layer_runs@, 0, arcs.opaque_count, interior, masks, view);
        lemma_phase_takes_its_turn(second, Source::Arc, true, draws);
        second + (entering(Source::Arc, true) + draws)
    } else {
        second
    };
    let fourth = if tess_ready && buffers.layout@.blend_batches.len() > 0 {
        let draws = tessellated_draws(buffers, false, masks, view);
        lemma_phase_takes_its_turn(third, Source::Tessellated, false, draws);
        third + (entering(Source::Tessellated, false) + draws)
    } else {
        third
    };
    let fifth = if arcs_ready {
        let runs = arcs.layer_runs@;
        let a = run_draws(runs, arcs.opaque_count, arcs.total_count, interior, masks, view);
        let b = run_draws(runs, 0, u32::MAX, fringe, masks, view);
        lemma_run_draws_only(runs, arcs.opaque_count, arcs.total_count, interior, masks, view);
        lemma_run_draws_only(runs, 0, u32::MAX, fringe, masks, view);
        assert forall|k: int| 0 <= k < (a + b).len() implies is_draw(#[trigger] (a + b)[k]) by {
            if k < a.len() {
                assert((a + b)[k] == a[k]);
            } else {
                assert((a + b)[k] == b[k - a.len()]);
            }
        }
        lemma_phase_takes_its_turn(fourth, Source::Arc, false, a + b);
        assert(arc_blend_phase(arcs, masks, view) =~= entering(Source::Arc, false) + (a + b));
        fourth + (entering(Source::Arc, false) + (a + b))
    } else {
        fourth
    };
    let sixth = if sdf_ready {
        let runs = sdf.layer_runs@;
        let draws = run_draws(runs, sdf.opaque_count, u32::MAX, quad, masks, view);
        lemma_run_draws_only(runs, sdf.opaque_count, u32::MAX, quad, masks, view);
        lemma_phase_takes_its_turn(fifth, Source::Sdf, false, draws);
        fifth + (entering(Source::Sdf, false) + draws)
    } else {
        fifth
    };
    assert(commands =~= sixth);
}

} // verus!
