//! What a pass reads of a frame, and drawing batches through the surface pipelines.

use super::abi::{GROUP_CAMERA, GROUP_IBL, GROUP_LIGHTS, GROUP_MATERIAL};
use super::batching::{batch_views, BatchMaterial, DrawBatch, DrawBatchModel};
use super::draw_data::{DrawData, DrawDataModel};
use super::pass::main_pass::PrimitiveFilter;
use super::resources::{ResourcesModel, SceneResources};
use crate::camera::CameraProjection;
use crate::common::RgbaColor;
use crate::data::SceneProperties;
use crate::resource::material::MaterialProperties;
use crate::resource::mesh::PrimitiveType;
use vstd::prelude::*;

verus! {

/// Names [`SceneFrame`] as the per-frame data of passes, where a type is wanted that
/// does not borrow from a frame. It is a name only: no value of it is ever made.
#[allow(dead_code)]
pub struct SceneFrames {
    never: (),
}

/// Per-frame data of the scene renderer.
pub struct SceneFrame<'a> {
    /// Collected, sorted, partitioned draw batches for this frame.
    pub draw: &'a DrawData,
    /// Which resources are mirrored on the graphics device.
    pub resources: &'a SceneResources,
    /// Whether there is image-based lighting.
    pub scene_props: SceneProperties,
    /// This frame's camera projection. Passes that interpret the depth buffer need it:
    /// depth is reciprocal under perspective and linear under orthographic.
    pub projection: CameraProjection,
    /// The clear color for this frame.
    pub background_color: RgbaColor,
}

/// How [`SceneFrame::draw_batches`] should draw a batch list.
#[derive(Clone, Copy, PartialEq, Eq, Debug, Structural)]
pub struct DrawOptions {
    /// Run a depth-only pre-pass for blended materials first, so that their opaque
    /// portions establish correct depth occlusion before they are drawn with blending.
    pub depth_prepass: bool,
    /// Only batches of this primitive kind are drawn; the rest are left for another
    /// pass.
    pub filter: PrimitiveFilter,
}

impl Default for DrawOptions {
    fn default() -> (options: Self)
        ensures
            options == (DrawOptions { depth_prepass: true, filter: PrimitiveFilter::All }),
    {
        DrawOptions { depth_prepass: true, filter: PrimitiveFilter::All }
    }
}

/// What selects a variant of the surface shader.
#[derive(Clone, Copy, PartialEq, Eq, Debug, Hash, Structural)]
pub struct SurfaceConfig {
    pub material: MaterialProperties,
    /// Whether there is image-based lighting.
    pub has_ibl: bool,
    /// Whether only depth is written.
    pub depth_prepass: bool,
}

/// What selects a surface pipeline.
#[derive(Clone, Copy, PartialEq, Eq, Debug, Hash, Structural)]
pub struct PipelineCacheKey {
    pub surface: SurfaceConfig,
    pub primitive_type: PrimitiveType,
}

/// A pipeline to draw with.
#[derive(Clone, Copy, PartialEq, Eq, Debug, Structural)]
pub enum Pipeline {
    /// The standard surface pipeline for a key.
    Surface(PipelineCacheKey),
    /// The only pipeline of the pass, or the first of them.
    Own,
    /// The second pipeline of the pass.
    OwnSecond,
}

/// What is bound to a slot.
#[derive(Clone, Copy, PartialEq, Eq, Debug, Structural)]
pub enum Group {
    Camera,
    Lights,
    Ibl,
    Material(BatchMaterial),
    /// The bind group of the pass itself.
    Own,
}

/// Which batches of the frame are meant.
#[derive(Clone, Copy, PartialEq, Eq, Debug, Structural)]
pub enum BatchList {
    All,
    Overlay,
    Highlighted,
    SecondaryHighlighted,
    /// None of these: a list that the pass has put together for itself.
    Own,
}

/// One command of a render pass.
#[derive(Clone, Copy, PartialEq, Eq, Debug, Structural)]
pub enum Step {
    Pipeline(Pipeline),
    Bind(u32, Group),
    /// Draw all instances of the batch at this place of a list.
    Draw(BatchList, usize),
    /// Draw one triangle that covers the target.
    Fullscreen,
}

impl DrawBatchModel {
    /// The pipeline that the batch is drawn with, for depth only or shaded. Depth does
    /// not depend on image-based lighting.
    pub open spec fn pipeline(self, depth_prepass: bool, has_ibl: bool) -> Pipeline {
        Pipeline::Surface(
            PipelineCacheKey {
                surface: SurfaceConfig {
                    material: self.material_props,
                    has_ibl: has_ibl && !depth_prepass,
                    depth_prepass,
                },
                primitive_type: self.primitive_type,
            },
        )
    }
}

/// One sweep over batches: which they are, and how they are drawn.
pub struct Sweep {
    pub list: BatchList,
    pub filter: PrimitiveFilter,
    /// Draw only blended batches, and of them only the depth.
    pub depth_prepass: bool,
    pub has_ibl: bool,
    pub known: ResourcesModel,
}

impl Sweep {
    /// Whether the sweep is about a batch: its mesh is there to be drawn.
    pub open spec fn wants(self, batch: DrawBatchModel) -> bool {
        &&& self.filter.accepts_spec(batch.primitive_type)
        &&& self.depth_prepass ==> batch.transparent()
        &&& self.known.meshes.contains_key(batch.mesh_id)
    }

    /// Whether a batch is drawn: its material is there too.
    pub open spec fn draws(self, batch: DrawBatchModel) -> bool {
        self.wants(batch) && self.known.has_material(batch.material)
    }

    /// The pipeline that a batch is drawn with.
    pub open spec fn pipeline(self, batch: DrawBatchModel) -> Pipeline {
        batch.pipeline(self.depth_prepass, self.has_ibl)
    }

    /// The commands of the sweep: for each batch that it is about, the pipeline, unless
    /// it is set already, then the material and the draw, unless the material is
    /// missing.
    pub open spec fn steps(self, batches: Seq<DrawBatchModel>) -> Seq<Step>
        decreases batches.len(),
    {
        if batches.len() == 0 {
            Seq::empty()
        } else {
            let before = self.steps(batches.drop_last());
            let batch = batches.last();
            let pipeline = self.pipeline(batch);
            let ready = if last_pipeline(before) == Some(pipeline) {
                before
            } else {
                before.push(Step::Pipeline(pipeline))
            };
            if !self.wants(batch) {
                before
            } else if !self.known.has_material(batch.material) {
                ready
            } else {
                ready.push(Step::Bind(GROUP_MATERIAL, Group::Material(batch.material))).push(
                    Step::Draw(self.list, (batches.len() - 1) as usize),
                )
            }
        }
    }
}

/// The pipeline in effect after some commands.
pub open spec fn last_pipeline(steps: Seq<Step>) -> Option<Pipeline>
    decreases steps.len(),
{
    if steps.len() == 0 {
        None
    } else {
        match steps.last() {
            Step::Pipeline(pipeline) => Some(pipeline),
            _ => last_pipeline(steps.drop_last()),
        }
    }
}

/// What is bound to a slot after some commands.
pub open spec fn last_bound(steps: Seq<Step>, slot: u32) -> Option<Group>
    decreases steps.len(),
{
    if steps.len() == 0 {
        None
    } else {
        match steps.last() {
            Step::Bind(s, group) if s == slot => Some(group),
            _ => last_bound(steps.drop_last(), slot),
        }
    }
}

/// The draws among some commands, in order.
pub open spec fn drawn(steps: Seq<Step>) -> Seq<Step> {
    steps.filter(|s: Step| s is Draw)
}

/// The draws of all batches for which `p` holds, in order.
pub open spec fn draws_of(
    list: BatchList,
    batches: Seq<DrawBatchModel>,
    p: spec_fn(DrawBatchModel) -> bool,
) -> Seq<Step>
    decreases batches.len(),
{
    if batches.len() == 0 {
        Seq::empty()
    } else {
        let before = draws_of(list, batches.drop_last(), p);
        if p(batches.last()) {
            before.push(Step::Draw(list, (batches.len() - 1) as usize))
        } else {
            before
        }
    }
}

/// A sweep draws exactly the batches whose mesh and material are there, each once and
/// in order.
pub proof fn sweep_draws_each_batch_once(sweep: Sweep, batches: Seq<DrawBatchModel>)
    ensures
        drawn(sweep.steps(batches)) == draws_of(
            sweep.list,
            batches,
            |b: DrawBatchModel| sweep.draws(b),
        ),
    decreases batches.len(),
{
    let f = |s: Step| s is Draw;
    reveal(Seq::filter);
    if batches.len() > 0 {
        sweep_draws_each_batch_once(sweep, batches.drop_last());
        let before = sweep.steps(batches.drop_last());
        let batch = batches.last();
        let set = before.push(Step::Pipeline(sweep.pipeline(batch)));
        assert(set.drop_last() =~= before);
        let ready = if last_pipeline(before) == Some(sweep.pipeline(batch)) {
            before
        } else {
            set
        };
        assert(ready.filter(f) == before.filter(f));
        let bound = ready.push(Step::Bind(GROUP_MATERIAL, Group::Material(batch.material)));
        assert(bound.drop_last() =~= ready);
        assert(bound.filter(f) == before.filter(f));
        let draw = Step::Draw(sweep.list, (batches.len() - 1) as usize);
        assert(bound.push(draw).drop_last() =~= bound);
        assert(bound.push(draw).filter(f) == before.filter(f).push(draw));
    }
}

/// Whenever a sweep draws a batch, the pipeline in effect is that of the batch, and
/// the material bound is its material.
pub proof fn batches_are_drawn_with_their_own_material(
    sweep: Sweep,
    batches: Seq<DrawBatchModel>,
    at: int,
)
    requires
        0 <= at < sweep.steps(batches).len(),
        batches.len() <= usize::MAX,
    ensures
        sweep.steps(batches)[at] matches Step::Draw(list, i) ==> list == sweep.list && i
            < batches.len() && sweep.draws(batches[i as int]) && last_pipeline(
            sweep.steps(batches).take(at),
        ) == Some(sweep.pipeline(batches[i as int])) && last_bound(
            sweep.steps(batches).take(at),
            GROUP_MATERIAL,
        ) == Some(Group::Material(batches[i as int].material)),
    decreases batches.len(),
{
    if batches.len() > 0 {
        let less = batches.drop_last();
        let before = sweep.steps(less);
        let all = sweep.steps(batches);
        let batch = batches.last();
        assert(before.len() <= all.len());
        assert(all.take(before.len() as int) =~= before);
        if at < before.len() {
            batches_are_drawn_with_their_own_material(sweep, less, at);
            assert(all.take(at) =~= before.take(at));
            assert(all[at] == before[at]);
            if let Step::Draw(list, i) = before[at] {
                assert(less[i as int] == batches[i as int]);
            }
        } else {
            let ready = if last_pipeline(before) == Some(sweep.pipeline(batch)) {
                before
            } else {
                before.push(Step::Pipeline(sweep.pipeline(batch)))
            };
            if ready.len() > before.len() {
                assert(ready.drop_last() =~= before);
            }
            let bind = Step::Bind(GROUP_MATERIAL, Group::Material(batch.material));
            if sweep.draws(batch) && at == all.len() - 1 {
                assert(all.take(at) =~= ready.push(bind));
                assert(ready.push(bind).drop_last() =~= ready);
                assert(last_pipeline(ready) == Some(sweep.pipeline(batch)));
            }
        }
    }
}

/// A sweep never sets the pipeline that is in effect already.
pub proof fn pipelines_change_only_when_they_must(
    sweep: Sweep,
    batches: Seq<DrawBatchModel>,
    at: int,
)
    requires
        0 <= at < sweep.steps(batches).len(),
    ensures
        sweep.steps(batches)[at] matches Step::Pipeline(p) ==> last_pipeline(
            sweep.steps(batches).take(at),
        ) != Some(p),
    decreases batches.len(),
{
    if batches.len() > 0 {
        let less = batches.drop_last();
        let before = sweep.steps(less);
        let all = sweep.steps(batches);
        assert(all.take(before.len() as int) =~= before);
        if at < before.len() {
            pipelines_change_only_when_they_must(sweep, less, at);
            assert(all.take(at) =~= before.take(at));
            assert(all[at] == before[at]);
        }
    }
}

impl DrawDataModel {
    /// The batches of a list of the frame.
    pub open spec fn list(self, list: BatchList) -> Seq<DrawBatchModel> {
        match list {
            BatchList::All => self.batches,
            BatchList::Overlay => self.overlay,
            BatchList::Highlighted => self.highlighted,
            BatchList::SecondaryHighlighted => self.secondary_highlighted,
            BatchList::Own => Seq::empty(),
        }
    }
}

impl<'a> SceneFrame<'a> {
    /// A sweep over batches of this frame.
    pub open spec fn sweep(
        &self,
        list: BatchList,
        filter: PrimitiveFilter,
        depth_prepass: bool,
    ) -> Sweep {
        Sweep {
            list,
            filter,
            depth_prepass,
            has_ibl: self.scene_props.has_ibl,
            known: self.resources@,
        }
    }

    /// The commands that draw a list of batches: a sweep for depth where that is asked
    /// for, then one that shades.
    pub open spec fn draw_steps(
        &self,
        list: BatchList,
        batches: Seq<DrawBatchModel>,
        options: DrawOptions,
    ) -> Seq<Step> {
        let shaded = self.sweep(list, options.filter, false).steps(batches);
        if options.depth_prepass {
            self.sweep(list, options.filter, true).steps(batches) + shaded
        } else {
            shaded
        }
    }

    /// The commands that bind what all geometry passes share: camera, lights, and the
    /// environment where there is one.
    pub open spec fn scene_groups(&self) -> Seq<Step> {
        let shared = seq![
            Step::Bind(GROUP_CAMERA, Group::Camera),
            Step::Bind(GROUP_LIGHTS, Group::Lights),
        ];
        if self.scene_props.has_ibl {
            shared.push(Step::Bind(GROUP_IBL, Group::Ibl))
        } else {
            shared
        }
    }

    /// The batches of a list, unless it is a pass's own.
    pub fn batches(&self, list: BatchList) -> (batches: Option<&Vec<DrawBatch>>)
        ensures
            batches is None <==> list == BatchList::Own,
            batches matches Some(b) ==> batch_views(b@) == self.draw@.list(list),
    {
        match list {
            BatchList::All => Some(self.draw.all_batches()),
            BatchList::Overlay => Some(self.draw.overlay_batches()),
            BatchList::Highlighted => Some(self.draw.highlighted_batches()),
            BatchList::SecondaryHighlighted => Some(self.draw.secondary_highlighted_batches()),
            BatchList::Own => None,
        }
    }

    /// Whether the mesh of a batch is there to be drawn. Nothing is drawn of a batch
    /// whose mesh has not been copied yet.
    pub fn draw_batch(&self, batch: &DrawBatch) -> (ready: bool)
        ensures
            ready == self.resources@.meshes.contains_key(batch@.mesh_id),
    {
        self.resources.has_mesh(batch.mesh_id)
    }

    /// Binds the scene-level groups that all geometry passes share.
    pub fn bind_scene_groups(&self, steps: &mut Vec<Step>)
        ensures
            final(steps)@ == old(steps)@ + self.scene_groups(),
    {
        let ghost before = steps@;
        steps.push(Step::Bind(GROUP_CAMERA, Group::Camera));
        steps.push(Step::Bind(GROUP_LIGHTS, Group::Lights));
        if self.scene_props.has_ibl {
            steps.push(Step::Bind(GROUP_IBL, Group::Ibl));
        }
        proof {
            assert(steps@ =~= before + self.scene_groups());
        }
    }

    fn draw_sweep(
        &self,
        list: BatchList,
        batches: &Vec<DrawBatch>,
        filter: PrimitiveFilter,
        depth_prepass: bool,
        steps: &mut Vec<Step>,
    )
        ensures
            final(steps)@ == old(steps)@ + self.sweep(list, filter, depth_prepass).steps(
                batch_views(batches@),
            ),
    {
        let ghost start = steps@;
        let ghost sweep = self.sweep(list, filter, depth_prepass);
        let ghost views = batch_views(batches@);
        let mut current: Option<Pipeline> = None;
        let mut i: usize = 0;
        proof {
            assert(views.take(0) =~= Seq::empty());
            assert(steps@ =~= start + sweep.steps(views.take(0)));
        }
        while i < batches.len()
            invariant
                i <= batches.len(),
                views == batch_views(batches@),
                sweep == self.sweep(list, filter, depth_prepass),
                steps@ == start + sweep.steps(views.take(i as int)),
                current == last_pipeline(sweep.steps(views.take(i as int))),
            decreases batches.len() - i,
        {
            let batch = &batches[i];
            let ghost before = sweep.steps(views.take(i as int));
            proof {
                let next = views.take(i + 1);
                assert(next.drop_last() =~= views.take(i as int));
                assert(next.last() == batch@);
                assert(views[i as int] == batch@);
            }
            if filter.accepts(batch.primitive_type) && (!depth_prepass || batch.is_transparent())
                && self.resources.has_mesh(batch.mesh_id) {
                let pipeline = Pipeline::Surface(
                    PipelineCacheKey {
                        surface: SurfaceConfig {
                            material: batch.material_props,
                            has_ibl: self.scene_props.has_ibl && !depth_prepass,
                            depth_prepass,
                        },
                        primitive_type: batch.primitive_type,
                    },
                );
                let ghost set = before.push(Step::Pipeline(pipeline));
                let ghost ready = if last_pipeline(before) == Some(pipeline) {
                    before
                } else {
                    set
                };
                proof {
                    assert(set.drop_last() =~= before);
                }
                let same = match current {
                    Some(p) => p == pipeline,
                    None => false,
                };
                if !same {
                    steps.push(Step::Pipeline(pipeline));
                    current = Some(pipeline);
                }
                proof {
                    assert(steps@ =~= start + ready);
                    assert(last_pipeline(ready) == Some(pipeline));
                }
                if self.resources.has_material(batch.material) {
                    let bind = Step::Bind(GROUP_MATERIAL, Group::Material(batch.material));
                    steps.push(bind);
                    steps.push(Step::Draw(list, i));
                    proof {
                        let bound = ready.push(bind);
                        let draw = Step::Draw(list, i);
                        assert(bound.drop_last() =~= ready);
                        assert(bound.push(draw).drop_last() =~= bound);
                        assert(last_pipeline(bound) == Some(pipeline));
                        assert(last_pipeline(bound.push(draw)) == Some(pipeline));
                        assert(steps@ =~= start + bound.push(draw));
                    }
                }
            }
            i = i + 1;
        }
        proof {
            assert(views.take(batches.len() as int) =~= views);
        }
    }

    /// Draws a list of batches with standard material shading. Any batches can be drawn
    /// so, be they a list of the frame or one that a pass has put together, by filtering
    /// say; `list` says which, and the draws name the batches by their place in it.
    ///
    /// For each batch this selects the surface pipeline matching its material and binds
    /// that material, switching pipelines only when the key changes. Batches whose mesh
    /// or material has not been copied yet are skipped.
    pub fn draw_batches(
        &self,
        list: BatchList,
        batches: &Vec<DrawBatch>,
        options: DrawOptions,
        steps: &mut Vec<Step>,
    )
        ensures
            final(steps)@ == old(steps)@ + self.draw_steps(list, batch_views(batches@), options),
    {
        let ghost start = steps@;
        if options.depth_prepass {
            self.draw_sweep(list, batches, options.filter, true, steps);
        }
        self.draw_sweep(list, batches, options.filter, false, steps);
        proof {
            assert(steps@ =~= start + self.draw_steps(list, batch_views(batches@), options));
        }
    }

    /// Whether a batch has a kind of primitive and its mesh is there to be drawn.
    pub open spec fn drawable(&self, kind: PrimitiveType) -> spec_fn(DrawBatchModel) -> bool {
        |b: DrawBatchModel| b.primitive_type == kind && self.resources@.meshes.contains_key(b.mesh_id)
    }

    /// Whether some batch of a list has a kind of primitive.
    pub open spec fn has_kind(&self, list: BatchList, kind: PrimitiveType) -> bool {
        exists|i: int|
            0 <= i < self.draw@.list(list).len() && (#[trigger] self.draw@.list(
                list,
            )[i]).primitive_type == kind
    }

    /// Whether some batch of a list has a kind of primitive.
    pub fn any_of_kind(&self, list: BatchList, kind: PrimitiveType) -> (found: bool)
        ensures
            found == self.has_kind(list, kind),
    {
        let batches = match self.batches(list) {
            Some(batches) => batches,
            None => {
                return false;
            },
        };
        let ghost views = self.draw@.list(list);
        let mut i: usize = 0;
        while i < batches.len()
            invariant
                i <= batches.len(),
                views == self.draw@.list(list),
                views == batch_views(batches@),
                forall|j: int| 0 <= j < i ==> (#[trigger] views[j]).primitive_type != kind,
            decreases batches.len() - i,
        {
            assert(views[i as int] == batches@[i as int]@);
            if batches[i].primitive_type == kind {
                return true;
            }
            i = i + 1;
        }
        false
    }

    /// Draws the batches of a list with one kind of primitive, through the pipeline in
    /// effect and without binding a material.
    pub fn draw_kind(&self, list: BatchList, kind: PrimitiveType, steps: &mut Vec<Step>)
        ensures
            final(steps)@ == old(steps)@ + draws_of(
                list,
                self.draw@.list(list),
                self.drawable(kind),
            ),
    {
        let ghost start = steps@;
        let ghost p = self.drawable(kind);
        let batches = match self.batches(list) {
            Some(batches) => batches,
            None => {
                assert(steps@ =~= start + draws_of(list, self.draw@.list(list), p));
                return ;
            },
        };
        let ghost views = batch_views(batches@);
        let mut i: usize = 0;
        proof {
            assert(views.take(0) =~= Seq::empty());
            assert(steps@ =~= start + draws_of(list, views.take(0), p));
        }
        while i < batches.len()
            invariant
                i <= batches.len(),
                views == batch_views(batches@),
                p == self.drawable(kind),
                steps@ == start + draws_of(list, views.take(i as int), p),
            decreases batches.len() - i,
        {
            let batch = &batches[i];
            let ghost before = draws_of(list, views.take(i as int), p);
            proof {
                let next = views.take(i + 1);
                assert(next.drop_last() =~= views.take(i as int));
                assert(views[i as int] == batch@);
                assert(next.last() == batch@);
            }
            if batch.primitive_type == kind && self.draw_batch(batch) {
                steps.push(Step::Draw(list, i));
                proof {
                    assert(steps@ =~= start + before.push(Step::Draw(list, i)));
                }
            }
            i = i + 1;
        }
        proof {
            assert(views.take(batches.len() as int) =~= views);
        }
    }

    /// Whether a material is there to be bound.
    pub fn material_bind_group(&self, material: BatchMaterial) -> (found: bool)
        ensures
            found == self.resources@.has_material(material),
    {
        self.resources.has_material(material)
    }
}

} // verus!
