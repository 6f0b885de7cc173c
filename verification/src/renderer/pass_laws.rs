//! What the passes of a frame are for: each draws what it is responsible for, in order and
//! with the right pipeline, into attachments that hold what they should.

use super::batching::{BatchMaterial, DrawBatchModel};
use super::draw_data::HighlightConfig;
use super::pass::attachments::{AuxName, ColorLoad, ColorTarget, DepthLoad, DepthTarget};
use super::pass::flat_color::FlatColorPass;
use super::pass::main_pass::{MainPass, OverlayPass, PrimitiveFilter};
use super::pass::outline_pass::{
    maskable, tier_color, tier_steps, tier_width, OutlineMaskPass, OutlineUniform,
};
use super::pass::silhouette::SilhouetteEdgesPass;
use super::pass_context::{
    drawn, draws_of, last_pipeline, sweep_draws_each_batch_once, BatchList, Group, Pipeline,
    PipelineCacheKey, SceneFrame, Step, SurfaceConfig, Sweep,
};
use super::pipeline::ColorWrites;
use super::resources::ResourcesModel;
use crate::common::{scalar_lt_spec, RgbaColor};
use crate::resource::material::AlphaMode;
use crate::resource::mesh::PrimitiveType;
use vstd::prelude::*;

verus! {

/// The draws of all batches for which something holds: each such batch is drawn, no other
/// is, and they are drawn in their order, so none twice.
pub proof fn draws_are_of_those_batches_in_order(
    list: BatchList,
    batches: Seq<DrawBatchModel>,
    p: spec_fn(DrawBatchModel) -> bool,
)
    requires
        batches.len() <= usize::MAX,
    ensures
        ({
            let draws = draws_of(list, batches, p);
            &&& forall|i: usize|
                #[trigger] draws.contains(Step::Draw(list, i)) <==> i < batches.len() && p(
                    batches[i as int],
                )
            &&& forall|x: int|
                0 <= x < draws.len() ==> (#[trigger] draws[x] matches Step::Draw(l, i) && l == list
                    && i < batches.len())
            &&& forall|x: int, y: int|
                #![trigger draws[x], draws[y]]
                0 <= x < y < draws.len() ==> draws[x]->Draw_1 < draws[y]->Draw_1
        }),
    decreases batches.len(),
{
    let draws = draws_of(list, batches, p);
    if batches.len() > 0 {
        let front = batches.drop_last();
        let before = draws_of(list, front, p);
        let at = (batches.len() - 1) as usize;
        draws_are_of_those_batches_in_order(list, front, p);
        assert forall|x: int| 0 <= x < draws.len() implies (#[trigger] draws[x] matches Step::Draw(
            l,
            i,
        ) && l == list && i < batches.len()) by {
            if x < before.len() {
                assert(draws[x] == before[x]);
            }
        }
        assert forall|x: int, y: int|
            #![trigger draws[x], draws[y]]
            0 <= x < y < draws.len() implies draws[x]->Draw_1 < draws[y]->Draw_1 by {
            assert(draws[x] == before[x]);
            if y < before.len() {
                assert(draws[y] == before[y]);
            }
        }
        assert forall|i: usize| #[trigger] draws.contains(Step::Draw(list, i)) <==> i
            < batches.len() && p(batches[i as int]) by {
            if draws.contains(Step::Draw(list, i)) {
                let x = choose|x: int| 0 <= x < draws.len() && draws[x] == Step::Draw(list, i);
                if x < before.len() {
                    assert(before[x] == Step::Draw(list, i));
                    assert(before.contains(Step::Draw(list, i)));
                    assert(front[i as int] == batches[i as int]);
                } else {
                    assert(i == at);
                }
            }
            if i < batches.len() && p(batches[i as int]) {
                if i == at {
                    assert(draws[before.len() as int] == Step::Draw(list, i));
                } else {
                    assert(front[i as int] == batches[i as int]);
                    assert(before.contains(Step::Draw(list, i)));
                    let x = choose|x: int| 0 <= x < before.len() && before[x] == Step::Draw(list, i);
                    assert(draws[x] == Step::Draw(list, i));
                }
            }
        }
    }
}

/// Whether a filter lets a kind of primitive through.
pub open spec fn lets_through(filter: PrimitiveFilter, kind: PrimitiveType) -> bool {
    match (filter, kind) {
        (PrimitiveFilter::All, _) => true,
        (PrimitiveFilter::Faces, PrimitiveType::TriangleList) => true,
        (PrimitiveFilter::LinesAndPoints, PrimitiveType::LineList) => true,
        (PrimitiveFilter::LinesAndPoints, PrimitiveType::PointList) => true,
        _ => false,
    }
}

/// Whether what a batch needs is there to be drawn with: its mesh and its material.
pub open spec fn at_hand(known: ResourcesModel, b: DrawBatchModel) -> bool {
    &&& known.meshes.contains_key(b.mesh_id)
    &&& b.material matches BatchMaterial::Face(id) ==> known.face_materials.contains_key(id)
    &&& b.material matches BatchMaterial::Line(id) ==> known.line_materials.contains_key(id)
    &&& b.material matches BatchMaterial::Point(id) ==> known.point_materials.contains_key(id)
}

/// A sweep draws the batches of its kind that can be drawn, and one for depth only those
/// of them that are blended.
pub proof fn sweeps_draw_what_they_are_for(sweep: Sweep, batches: Seq<DrawBatchModel>)
    ensures
        drawn(sweep.steps(batches)) == draws_of(
            sweep.list,
            batches,
            |b: DrawBatchModel|
                lets_through(sweep.filter, b.primitive_type) && at_hand(sweep.known, b) && (
                sweep.depth_prepass ==> b.material_props.alpha_mode == AlphaMode::Blend),
        ),
{
    sweep_draws_each_batch_once(sweep, batches);
    let f = |b: DrawBatchModel| sweep.draws(b);
    let g = |b: DrawBatchModel|
        lets_through(sweep.filter, b.primitive_type) && at_hand(sweep.known, b) && (
        sweep.depth_prepass ==> b.material_props.alpha_mode == AlphaMode::Blend);
    assert(f =~= g);
}

/// A batch is drawn with the pipeline for its own material and kind of primitive; with the
/// lighting of the environment where there is one, but for depth without it, so that the
/// depth of a batch is written alike with and without an environment.
pub proof fn batches_have_the_pipeline_of_their_material(b: DrawBatchModel, has_ibl: bool)
    ensures
        b.pipeline(false, has_ibl) == Pipeline::Surface(
            PipelineCacheKey {
                surface: SurfaceConfig {
                    material: b.material_props,
                    has_ibl,
                    depth_prepass: false,
                },
                primitive_type: b.primitive_type,
            },
        ),
        b.pipeline(true, has_ibl) == Pipeline::Surface(
            PipelineCacheKey {
                surface: SurfaceConfig {
                    material: b.material_props,
                    has_ibl: false,
                    depth_prepass: true,
                },
                primitive_type: b.primitive_type,
            },
        ),
        b.pipeline(true, true) == b.pipeline(true, false),
{
}

proof fn lemma_groups_draw_nothing(frame: &SceneFrame<'_>)
    ensures
        drawn(frame.scene_groups()) == Seq::<Step>::empty(),
        frame.scene_groups().len() >= 2,
        frame.scene_groups()[0] == Step::Bind(0, Group::Camera),
        frame.scene_groups()[1] == Step::Bind(1, Group::Lights),
        frame.scene_props.has_ibl ==> frame.scene_groups().len() == 3 && frame.scene_groups()[2]
            == Step::Bind(3, Group::Ibl),
        !frame.scene_props.has_ibl ==> frame.scene_groups().len() == 2,
{
    frame.scene_groups().lemma_all_neg_filter_empty(|s: Step| s is Draw);
}

/// The main passes: of the batches that such a pass is responsible for and that can be
/// drawn, the blended ones are drawn for their depth first, and then all of them shaded,
/// each once and in order. Camera, lights and, where there is one, the environment are
/// bound before. A pass that clears starts from the background and from empty depth; one
/// that does not goes on with what is there.
pub proof fn main_passes_draw_their_half(pass: MainPass, frame: &SceneFrame<'_>)
    ensures
        ({
            let plan = pass.planned(frame);
            let batches = frame.draw@.batches;
            let known = frame.resources@;
            &&& drawn(plan.steps) == draws_of(
                BatchList::All,
                batches,
                |b: DrawBatchModel|
                    lets_through(pass.filter(), b.primitive_type) && at_hand(known, b)
                        && b.material_props.alpha_mode == AlphaMode::Blend,
            ) + draws_of(
                BatchList::All,
                batches,
                |b: DrawBatchModel|
                    lets_through(pass.filter(), b.primitive_type) && at_hand(known, b),
            )
            &&& plan.steps.len() >= 2
            &&& plan.steps[0] == Step::Bind(0, Group::Camera)
            &&& plan.steps[1] == Step::Bind(1, Group::Lights)
            &&& frame.scene_props.has_ibl ==> plan.steps.len() > 2 && plan.steps[2] == Step::Bind(
                3,
                Group::Ibl,
            )
            &&& plan.color == ColorTarget::Frame
            &&& plan.color_store
            &&& pass.clears() ==> plan.color_load == ColorLoad::Clear(frame.background_color)
                && plan.depth == Some((DepthTarget::Scene, DepthLoad::Clear))
            &&& !pass.clears() ==> plan.color_load == ColorLoad::Load && plan.depth == Some(
                (DepthTarget::Scene, DepthLoad::Load),
            )
        }),
{
    let batches = frame.draw@.batches;
    let known = frame.resources@;
    let test = |s: Step| s is Draw;
    let deep = frame.sweep(BatchList::All, pass.filter(), true);
    let shaded = frame.sweep(BatchList::All, pass.filter(), false);
    lemma_groups_draw_nothing(frame);
    sweeps_draw_what_they_are_for(deep, batches);
    sweeps_draw_what_they_are_for(shaded, batches);
    Seq::filter_distributes_over_add(deep.steps(batches), shaded.steps(batches), test);
    Seq::filter_distributes_over_add(
        frame.scene_groups(),
        deep.steps(batches) + shaded.steps(batches),
        test,
    );
    let a = |b: DrawBatchModel|
        lets_through(pass.filter(), b.primitive_type) && at_hand(known, b)
            && b.material_props.alpha_mode == AlphaMode::Blend;
    let b = |b: DrawBatchModel|
        lets_through(pass.filter(), b.primitive_type) && at_hand(known, b);
    assert((|b: DrawBatchModel|
        lets_through(deep.filter, b.primitive_type) && at_hand(deep.known, b) && (
        deep.depth_prepass ==> b.material_props.alpha_mode == AlphaMode::Blend)) =~= a);
    assert((|b: DrawBatchModel|
        lets_through(shaded.filter, b.primitive_type) && at_hand(shaded.known, b) && (
        shaded.depth_prepass ==> b.material_props.alpha_mode == AlphaMode::Blend)) =~= b);
    assert(drawn(pass.planned(frame).steps) =~= draws_of(BatchList::All, batches, a) + draws_of(
        BatchList::All,
        batches,
        b,
    ));
}

/// The overlay pass draws all batches of the overlay that can be drawn, each once and in
/// order, over what is there, and against a depth buffer of its own that starts empty. It
/// does nothing without that buffer.
pub proof fn the_overlay_is_drawn_on_top(pass: OverlayPass, frame: &SceneFrame<'_>)
    ensures
        pass.planned(frame, false) is None,
        pass.planned(frame, true) is Some,
        ({
            let plan = pass.planned(frame, true)->0;
            &&& drawn(plan.steps) == draws_of(
                BatchList::Overlay,
                frame.draw@.overlay,
                |b: DrawBatchModel| at_hand(frame.resources@, b),
            )
            &&& plan.color == ColorTarget::Frame
            &&& plan.color_load == ColorLoad::Load
            &&& plan.color_store
            &&& plan.depth == Some((DepthTarget::Aux(AuxName::OverlayDepth), DepthLoad::Clear))
        }),
{
    let batches = frame.draw@.overlay;
    let test = |s: Step| s is Draw;
    let shaded = frame.sweep(BatchList::Overlay, PrimitiveFilter::All, false);
    lemma_groups_draw_nothing(frame);
    sweeps_draw_what_they_are_for(shaded, batches);
    Seq::filter_distributes_over_add(frame.scene_groups(), shaded.steps(batches), test);
    let b = |b: DrawBatchModel| at_hand(frame.resources@, b);
    assert((|b: DrawBatchModel|
        lets_through(shaded.filter, b.primitive_type) && at_hand(shaded.known, b) && (
        shaded.depth_prepass ==> b.material_props.alpha_mode == AlphaMode::Blend)) =~= b);
    assert(drawn(pass.planned(frame, true)->0.steps) =~= draws_of(BatchList::Overlay, batches, b));
}

proof fn lemma_draws_are_draws(
    list: BatchList,
    batches: Seq<DrawBatchModel>,
    p: spec_fn(DrawBatchModel) -> bool,
)
    ensures
        drawn(draws_of(list, batches, p)) == draws_of(list, batches, p),
        forall|x: int|
            0 <= x < draws_of(list, batches, p).len() ==> (#[trigger] draws_of(
                list,
                batches,
                p,
            )[x]) is Draw && draws_of(list, batches, p)[x]->Draw_0 == list,
    decreases batches.len(),
{
    reveal(Seq::filter);
    if batches.len() > 0 {
        lemma_draws_are_draws(list, batches.drop_last(), p);
        let before = draws_of(list, batches.drop_last(), p);
        if p(batches.last()) {
            assert(draws_of(list, batches, p).drop_last() =~= before);
        }
    } else {
        assert(drawn(draws_of(list, batches, p)) =~= draws_of(list, batches, p));
    }
}

/// A flat-color pass draws all batches of its kind of primitive whose mesh can be drawn,
/// each once and in order, with its own pipeline and color; it clears if and only if it has
/// a color to clear with.
pub proof fn flat_colors_fill_their_kind(pass: FlatColorPass, frame: &SceneFrame<'_>)
    ensures
        ({
            let plan = pass.planned(frame);
            let desc = pass.desc();
            &&& drawn(plan.steps) == draws_of(
                BatchList::All,
                frame.draw@.batches,
                |b: DrawBatchModel|
                    b.primitive_type == desc.primitive_filter
                        && frame.resources@.meshes.contains_key(b.mesh_id),
            )
            &&& plan.steps.len() >= 4
            &&& plan.steps[0] == Step::Pipeline(Pipeline::Own)
            &&& plan.steps[1] == Step::Bind(0, Group::Camera)
            &&& plan.steps[2] == Step::Bind(1, Group::Lights)
            &&& plan.steps[3] == Step::Bind(2, Group::Own)
            &&& forall|x: int|
                4 <= x < plan.steps.len() ==> (#[trigger] plan.steps[x]) is Draw
            &&& plan.color == ColorTarget::Frame
            &&& plan.color_store
            &&& desc.clear_color matches Some(color) ==> plan.color_load == ColorLoad::Clear(color)
                && plan.depth == Some((DepthTarget::Scene, DepthLoad::Clear))
            &&& desc.clear_color is None ==> plan.color_load == ColorLoad::Load && plan.depth
                == Some((DepthTarget::Scene, DepthLoad::Load))
        }),
{
    let test = |s: Step| s is Draw;
    let kind = pass.desc().primitive_filter;
    let batches = frame.draw@.batches;
    let p = |b: DrawBatchModel|
        b.primitive_type == kind && frame.resources@.meshes.contains_key(b.mesh_id);
    assert(frame.drawable(kind) =~= p);
    let head = pass.planned(frame).steps.take(4);
    let draws = draws_of(BatchList::All, batches, p);
    assert(pass.planned(frame).steps =~= head + draws);
    head.lemma_all_neg_filter_empty(test);
    lemma_draws_are_draws(BatchList::All, batches, p);
    Seq::filter_distributes_over_add(head, draws, test);
    assert(drawn(pass.planned(frame).steps) =~= draws);
}

proof fn lemma_pipeline_stays(before: Seq<Step>, pipeline: Pipeline, draws: Seq<Step>)
    requires
        forall|x: int| 0 <= x < draws.len() ==> (#[trigger] draws[x]) is Draw,
    ensures
        last_pipeline(before.push(Step::Pipeline(pipeline)) + draws) == Some(pipeline),
    decreases draws.len(),
{
    let set = before.push(Step::Pipeline(pipeline));
    if draws.len() > 0 {
        let less = draws.drop_last();
        assert forall|x: int| 0 <= x < less.len() implies (#[trigger] less[x]) is Draw by {
            assert(less[x] == draws[x]);
        }
        lemma_pipeline_stays(before, pipeline, less);
        assert((set + draws).drop_last() =~= set + less);
        assert((set + draws).last() == draws[draws.len() - 1]);
    } else {
        assert(set + draws =~= set);
    }
}

/// The draws of one tier of the outline mask.
pub open spec fn tier_draws(frame: &SceneFrame<'_>, list: BatchList) -> Seq<Step> {
    draws_of(
        list,
        frame.draw@.list(list),
        |b: DrawBatchModel|
            b.primitive_type == PrimitiveType::TriangleList
                && frame.resources@.meshes.contains_key(b.mesh_id),
    )
}

proof fn lemma_none_to_draw(frame: &SceneFrame<'_>, list: BatchList, n: int)
    requires
        !frame.has_kind(list, PrimitiveType::TriangleList),
        0 <= n <= frame.draw@.list(list).len(),
    ensures
        draws_of(
            list,
            frame.draw@.list(list).take(n),
            frame.drawable(PrimitiveType::TriangleList),
        ) == Seq::<Step>::empty(),
    decreases n,
{
    let all = frame.draw@.list(list);
    if n > 0 {
        lemma_none_to_draw(frame, list, n - 1);
        assert(all.take(n).drop_last() =~= all.take(n - 1));
        assert(all[n - 1].primitive_type != PrimitiveType::TriangleList);
    }
}

proof fn lemma_tier(frame: &SceneFrame<'_>, list: BatchList, pipeline: Pipeline)
    ensures
        drawn(tier_steps(frame, list, pipeline)) == tier_draws(frame, list),
        tier_steps(frame, list, pipeline).len() == 0 || tier_steps(frame, list, pipeline)
            == seq![Step::Pipeline(pipeline)] + tier_draws(frame, list),
        forall|x: int|
            0 <= x < tier_draws(frame, list).len() ==> (#[trigger] tier_draws(
                frame,
                list,
            )[x]) is Draw && tier_draws(frame, list)[x]->Draw_0 == list,
{
    let test = |s: Step| s is Draw;
    let all = frame.draw@.list(list);
    let p = |b: DrawBatchModel|
        b.primitive_type == PrimitiveType::TriangleList && frame.resources@.meshes.contains_key(
            b.mesh_id,
        );
    assert(frame.drawable(PrimitiveType::TriangleList) =~= p);
    lemma_draws_are_draws(list, all, p);
    let set = seq![Step::Pipeline(pipeline)];
    set.lemma_all_neg_filter_empty(test);
    Seq::filter_distributes_over_add(set, draws_of(list, all, p), test);
    if !frame.has_kind(list, PrimitiveType::TriangleList) {
        lemma_none_to_draw(frame, list, all.len() as int);
        assert(all.take(all.len() as int) =~= all);
        reveal(Seq::filter);
    }
    assert(drawn(tier_steps(frame, list, pipeline)) =~= tier_draws(frame, list));
}

/// The outline mask: the triangles of the primary tier are drawn, then those of the
/// secondary, each once, in order and only where its outline is configured. The mask starts
/// empty, and the depth of the scene is tested against but neither cleared nor written.
pub proof fn masks_hold_both_tiers(
    pass: OutlineMaskPass,
    frame: &SceneFrame<'_>,
    resolves: bool,
)
    ensures
        ({
            let plan = pass.planned(frame, resolves);
            &&& drawn(plan.steps) == (if frame.draw@.config is Some {
                tier_draws(frame, BatchList::Highlighted)
            } else {
                Seq::empty()
            }) + (if frame.draw@.secondary_config is Some {
                tier_draws(frame, BatchList::SecondaryHighlighted)
            } else {
                Seq::empty()
            })
            &&& plan.color == ColorTarget::Aux(AuxName::OutlineMask)
            &&& plan.color_load == ColorLoad::Clear(
                RgbaColor { r: 0, g: 0, b: 0, a: 0x3f80_0000 },
            )
            &&& plan.color_store == !resolves
            &&& plan.depth == Some((DepthTarget::Scene, DepthLoad::Load))
        }),
        pass.pipeline_spec(true).depth matches Some(d) && !d.write,
        pass.pipeline_spec(false).depth matches Some(d) && !d.write,
{
    let test = |s: Step| s is Draw;
    let plan = pass.planned(frame, resolves);
    let camera = seq![Step::Bind(0, Group::Camera)];
    let none: Seq<Step> = Seq::empty();
    let first = if frame.draw@.config is Some {
        tier_steps(frame, BatchList::Highlighted, Pipeline::Own)
    } else {
        none
    };
    let second = if frame.draw@.secondary_config is Some {
        tier_steps(frame, BatchList::SecondaryHighlighted, Pipeline::OwnSecond)
    } else {
        none
    };
    lemma_tier(frame, BatchList::Highlighted, Pipeline::Own);
    lemma_tier(frame, BatchList::SecondaryHighlighted, Pipeline::OwnSecond);
    camera.lemma_all_neg_filter_empty(test);
    none.lemma_all_neg_filter_empty(test);
    assert(plan.steps == camera + first + second);
    Seq::filter_distributes_over_add(camera, first, test);
    Seq::filter_distributes_over_add(camera + first, second, test);
    assert(drawn(plan.steps) =~= first.filter(test) + second.filter(test));
}

proof fn lemma_tier_pipeline(
    before: Seq<Step>,
    pipeline: Pipeline,
    draws: Seq<Step>,
    after: Seq<Step>,
    at: int,
)
    requires
        forall|x: int| 0 <= x < draws.len() ==> (#[trigger] draws[x]) is Draw,
        before.len() < at <= before.len() + draws.len(),
    ensures
        last_pipeline((before + (seq![Step::Pipeline(pipeline)] + draws) + after).take(at))
            == Some(pipeline),
        (before + (seq![Step::Pipeline(pipeline)] + draws) + after)[at] == draws[at - before.len()
            - 1],
{
    let all = before + (seq![Step::Pipeline(pipeline)] + draws) + after;
    let less = draws.take(at - before.len() - 1);
    assert(all.take(at) =~= before.push(Step::Pipeline(pipeline)) + less);
    assert forall|x: int| 0 <= x < less.len() implies (#[trigger] less[x]) is Draw by {
        assert(less[x] == draws[x]);
    }
    lemma_pipeline_stays(before, pipeline, less);
}

spec fn all_of(draws: Seq<Step>, list: BatchList) -> bool {
    forall|x: int|
        0 <= x < draws.len() ==> (#[trigger] draws[x]) is Draw && draws[x]->Draw_0 == list
}

proof fn lemma_two_tiers(
    first: Seq<Step>,
    second: Seq<Step>,
    a: Seq<Step>,
    b: Seq<Step>,
    at: int,
)
    requires
        first.len() == 0 || first == seq![Step::Pipeline(Pipeline::Own)] + a,
        second.len() == 0 || second == seq![Step::Pipeline(Pipeline::OwnSecond)] + b,
        all_of(a, BatchList::Highlighted),
        all_of(b, BatchList::SecondaryHighlighted),
        0 <= at < (seq![Step::Bind(0, Group::Camera)] + first + second).len(),
        (seq![Step::Bind(0, Group::Camera)] + first + second)[at] is Draw,
    ensures
        ({
            let steps = seq![Step::Bind(0, Group::Camera)] + first + second;
            let list = steps[at]->Draw_0;
            list == BatchList::Highlighted && last_pipeline(steps.take(at)) == Some(Pipeline::Own)
                || list == BatchList::SecondaryHighlighted && last_pipeline(steps.take(at))
                == Some(Pipeline::OwnSecond)
        }),
{
    let camera = seq![Step::Bind(0, Group::Camera)];
    let steps = camera + first + second;
    let from = 1 + first.len();
    if at == 0 {
        assert(steps[at] == camera[0]);
    } else if at == 1 && first.len() > 0 {
        assert(steps[at] == first[0]);
    } else if at < from {
        lemma_tier_pipeline(camera, Pipeline::Own, a, second, at);
    } else if at == from {
        assert(steps[at] == second[0]);
    } else {
        lemma_tier_pipeline(camera + first, Pipeline::OwnSecond, b, Seq::empty(), at);
        assert(steps =~= camera + first + (seq![Step::Pipeline(Pipeline::OwnSecond)] + b)
            + Seq::<Step>::empty());
    }
}

/// What the outline mask draws of the primary tier is drawn with the pipeline that writes
/// red, and what it draws of the secondary with the one that writes green.
pub proof fn tiers_are_masked_in_their_channel(
    pass: OutlineMaskPass,
    frame: &SceneFrame<'_>,
    resolves: bool,
    at: int,
)
    requires
        0 <= at < pass.planned(frame, resolves).steps.len(),
        pass.planned(frame, resolves).steps[at] is Draw,
    ensures
        ({
            let steps = pass.planned(frame, resolves).steps;
            let list = steps[at]->Draw_0;
            &&& list == BatchList::Highlighted && last_pipeline(steps.take(at)) == Some(
                Pipeline::Own,
            ) || list == BatchList::SecondaryHighlighted && last_pipeline(steps.take(at)) == Some(
                Pipeline::OwnSecond,
            )
        }),
        pass.pipeline_spec(true).writes == ColorWrites::Red,
        pass.pipeline_spec(false).writes == ColorWrites::Green,
{
    let steps = pass.planned(frame, resolves).steps;
    let camera = seq![Step::Bind(0, Group::Camera)];
    let none: Seq<Step> = Seq::empty();
    let first = if frame.draw@.config is Some {
        tier_steps(frame, BatchList::Highlighted, Pipeline::Own)
    } else {
        none
    };
    let second = if frame.draw@.secondary_config is Some {
        tier_steps(frame, BatchList::SecondaryHighlighted, Pipeline::OwnSecond)
    } else {
        none
    };
    lemma_tier(frame, BatchList::Highlighted, Pipeline::Own);
    lemma_tier(frame, BatchList::SecondaryHighlighted, Pipeline::OwnSecond);
    assert(steps == camera + first + second);
    lemma_two_tiers(
        first,
        second,
        tier_draws(frame, BatchList::Highlighted),
        tier_draws(frame, BatchList::SecondaryHighlighted),
        at,
    );
}

/// An outline has the color and the width that were asked for, cut to what the shader can
/// search; a tier that is not outlined has neither.
pub proof fn outlines_are_as_wide_as_asked(config: Option<HighlightConfig>)
    ensures
        config is None ==> tier_width(config) == 0 && tier_color(config) == (RgbaColor {
            r: 0,
            g: 0,
            b: 0,
            a: 0,
        }),
        config matches Some(c) ==> {
            &&& tier_color(config) == c.color
            &&& !scalar_lt_spec(c.width_pixels, 0) && !scalar_lt_spec(0x4080_0000, c.width_pixels)
                ==> tier_width(config) == c.width_pixels
            &&& scalar_lt_spec(c.width_pixels, 0) ==> tier_width(config) == 0
            &&& scalar_lt_spec(0x4080_0000, c.width_pixels) ==> tier_width(config) == 0x4080_0000
        },
{
}

/// Where the outline shader finds what it reads: the color of the primary tier, that of the
/// secondary, then both widths and the size of the screen. Each tier has its own.
pub proof fn outline_uniforms_are_laid_out(
    frame: &SceneFrame<'_>,
    width: u32,
    height: u32,
)
    ensures
        ({
            let words = OutlineUniform::of_frame(frame, width, height).words();
            let primary = frame.draw@.config;
            let secondary = frame.draw@.secondary_config;
            &&& words.len() == 12
            &&& words[0] == tier_color(primary).r && words[1] == tier_color(primary).g && words[2]
                == tier_color(primary).b && words[3] == tier_color(primary).a
            &&& words[4] == tier_color(secondary).r && words[5] == tier_color(secondary).g
                && words[6] == tier_color(secondary).b && words[7] == tier_color(secondary).a
            &&& words[8] == tier_width(primary)
            &&& words[9] == tier_width(secondary)
            &&& words[10] == width
            &&& words[11] == height
        }),
{
}

/// Where the silhouette shader finds what it reads; and what it reads of a frame follows
/// the camera: depth counts as perspective unless the projection is parallel.
pub proof fn silhouette_uniforms_are_laid_out(pass: SilhouetteEdgesPass, frame: &SceneFrame<'_>)
    ensures
        ({
            let uniform = pass.uniform_for(frame);
            let words = uniform.words();
            &&& words.len() == 8
            &&& words[0] == uniform.edge_color.r && words[1] == uniform.edge_color.g && words[2]
                == uniform.edge_color.b && words[3] == uniform.edge_color.a
            &&& words[4] == uniform.threshold
            &&& words[5] == uniform.perspective_depth
            &&& uniform.edge_color == pass.uniform().edge_color
            &&& uniform.threshold == pass.uniform().threshold
            &&& frame.projection.ortho ==> uniform.perspective_depth == 0
            &&& !frame.projection.ortho ==> uniform.perspective_depth == 0x3f80_0000
        }),
{
}

proof fn lemma_draws_of_none(
    list: BatchList,
    batches: Seq<DrawBatchModel>,
    p: spec_fn(DrawBatchModel) -> bool,
)
    requires
        forall|i: int| 0 <= i < batches.len() ==> !p(#[trigger] batches[i]),
    ensures
        draws_of(list, batches, p) == Seq::<Step>::empty(),
    decreases batches.len(),
{
    if batches.len() > 0 {
        let front = batches.drop_last();
        assert forall|i: int| 0 <= i < front.len() implies !p(#[trigger] front[i]) by {
            assert(front[i] == batches[i]);
        }
        lemma_draws_of_none(list, front, p);
        assert(!p(batches[batches.len() - 1]));
    }
}

/// A main pass runs whenever it has something to clear or a batch of its kind; one that does
/// not run would draw nothing and clear nothing.
pub proof fn main_passes_run_when_needed(pass: MainPass, frame: &SceneFrame<'_>, i: int)
    ensures
        pass.clears() ==> pass.runs(frame),
        0 <= i < frame.draw@.batches.len() && lets_through(
            pass.filter(),
            frame.draw@.batches[i].primitive_type,
        ) ==> pass.runs(frame),
        !pass.runs(frame) ==> drawn(pass.planned(frame).steps).len() == 0 && pass.planned(
            frame,
        ).color_load == ColorLoad::Load,
{
    let batches = frame.draw@.batches;
    main_passes_draw_their_half(pass, frame);
    if 0 <= i < batches.len() {
        assert(lets_through(pass.filter(), batches[i].primitive_type)
            == pass.filter().accepts_spec(batches[i].primitive_type));
    }
    if !pass.runs(frame) {
        assert forall|k: int| 0 <= k < batches.len() implies !lets_through(
            pass.filter(),
            (#[trigger] batches[k]).primitive_type,
        ) by {
            assert(!pass.filter().accepts_spec(batches[k].primitive_type));
        }
        lemma_draws_of_none(
            BatchList::All,
            batches,
            |b: DrawBatchModel|
                lets_through(pass.filter(), b.primitive_type) && at_hand(frame.resources@, b)
                    && b.material_props.alpha_mode == AlphaMode::Blend,
        );
        lemma_draws_of_none(
            BatchList::All,
            batches,
            |b: DrawBatchModel|
                lets_through(pass.filter(), b.primitive_type) && at_hand(frame.resources@, b),
        );
    }
}

/// A flat-color pass runs whenever it has something to clear or a batch of its kind of
/// primitive; one that does not run would draw nothing and clear nothing.
pub proof fn flat_colors_run_when_needed(pass: FlatColorPass, frame: &SceneFrame<'_>, i: int)
    ensures
        pass.desc().clear_color is Some ==> pass.runs(frame),
        0 <= i < frame.draw@.batches.len() && frame.draw@.batches[i].primitive_type
            == pass.desc().primitive_filter ==> pass.runs(frame),
        !pass.runs(frame) ==> drawn(pass.planned(frame).steps).len() == 0 && pass.planned(
            frame,
        ).color_load == ColorLoad::Load,
{
    let batches = frame.draw@.batches;
    let kind = pass.desc().primitive_filter;
    flat_colors_fill_their_kind(pass, frame);
    assert(frame.draw@.list(BatchList::All) == batches);
    if 0 <= i < batches.len() && batches[i].primitive_type == kind {
        assert(frame.draw@.list(BatchList::All)[i].primitive_type == kind);
    }
    if !pass.runs(frame) {
        assert forall|k: int| 0 <= k < batches.len() implies (#[trigger] batches[k]).primitive_type
            != kind by {
            assert(frame.draw@.list(BatchList::All)[k] == batches[k]);
        }
        lemma_draws_of_none(
            BatchList::All,
            batches,
            |b: DrawBatchModel|
                b.primitive_type == kind && frame.resources@.meshes.contains_key(b.mesh_id),
        );
    }
}

/// The outline passes run whenever some highlighted triangles are there to be outlined; and
/// when they do not run, the mask would stay empty.
pub proof fn outlines_run_when_needed(
    pass: OutlineMaskPass,
    frame: &SceneFrame<'_>,
    resolves: bool,
    i: int,
)
    ensures
        0 <= i < frame.draw@.highlighted.len() && frame.draw@.highlighted[i].primitive_type
            == PrimitiveType::TriangleList ==> maskable(frame),
        0 <= i < frame.draw@.secondary_highlighted.len()
            && frame.draw@.secondary_highlighted[i].primitive_type == PrimitiveType::TriangleList
            ==> maskable(frame),
        !maskable(frame) ==> drawn(pass.planned(frame, resolves).steps).len() == 0,
{
    let first = frame.draw@.list(BatchList::Highlighted);
    let second = frame.draw@.list(BatchList::SecondaryHighlighted);
    masks_hold_both_tiers(pass, frame, resolves);
    assert(first == frame.draw@.highlighted);
    assert(second == frame.draw@.secondary_highlighted);
    if 0 <= i < first.len() {
        assert(first[i] == frame.draw@.highlighted[i]);
    }
    if 0 <= i < second.len() {
        assert(second[i] == frame.draw@.secondary_highlighted[i]);
    }
    if !maskable(frame) {
        let p = |b: DrawBatchModel|
            b.primitive_type == PrimitiveType::TriangleList && frame.resources@.meshes.contains_key(
                b.mesh_id,
            );
        lemma_draws_of_none(BatchList::Highlighted, first, p);
        lemma_draws_of_none(BatchList::SecondaryHighlighted, second, p);
    }
}

} // verus!
