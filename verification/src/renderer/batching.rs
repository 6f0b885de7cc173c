//! Grouping instances into draw batches.

use super::frame::{collect_scene_frame_data, FrameMath, InstanceTransform};
use crate::common::{Matrix3, Matrix4, Scalar, Transform, Vector3};
use crate::data::bounds::acyclic;
use crate::data::model::SceneModel;
use crate::data::SceneData;
use crate::numeric::{accepts1, describes1};
use crate::resource::handle::{FaceMaterialId, LineMaterialId, MeshId, PointMaterialId};
use crate::resource::instance::{opt_id, Instance, InstanceParts};
use crate::resource::material::{AlphaMode, MaterialProperties};
use crate::resource::mesh::PrimitiveType;
use vstd::prelude::*;
use vstd::seq_lib::*;

verus! {

/// A typed reference to the material a batch draws with.
///
/// The variant *is* the material kind, so it carries the matching id. The kind always
/// agrees with the batch's `primitive_type` (faces with triangles, and so on).
#[derive(Debug, Clone, Copy, PartialEq, Eq, Hash, PartialOrd, Ord, Structural)]
pub enum BatchMaterial {
    Face(FaceMaterialId),
    Line(LineMaterialId),
    Point(PointMaterialId),
}

impl BatchMaterial {
    /// The primitive kind that this kind of material shades.
    pub open spec fn shades(self) -> PrimitiveType {
        match self {
            BatchMaterial::Face(_) => PrimitiveType::TriangleList,
            BatchMaterial::Line(_) => PrimitiveType::LineList,
            BatchMaterial::Point(_) => PrimitiveType::PointList,
        }
    }

    /// The id of the material.
    pub open spec fn id(self) -> u64 {
        match self {
            BatchMaterial::Face(id) => id,
            BatchMaterial::Line(id) => id,
            BatchMaterial::Point(id) => id,
        }
    }

    /// The place of this kind in drawing order.
    pub open spec fn rank(self) -> int {
        self.shades().rank()
    }

    /// The place of this kind in drawing order, and the id of the material.
    fn place(self) -> (place: (u8, u64))
        ensures
            place.0 == self.rank(),
            place.1 == self.id(),
    {
        match self {
            BatchMaterial::Face(id) => (0, id),
            BatchMaterial::Line(id) => (1, id),
            BatchMaterial::Point(id) => (2, id),
        }
    }
}

/// Key used to group instances into draw batches: instances sharing a mesh and
/// material render together.
///
/// The primitive type is intentionally absent: [`BatchMaterial`] already encodes the
/// kind.
#[derive(Debug, Clone, Copy, PartialEq, Eq, Hash, Structural)]
pub struct BatchKey {
    pub mesh_id: MeshId,
    pub material: BatchMaterial,
}

impl BatchKey {
    /// Whether batches with this key are drawn before those with another: by kind of
    /// primitive, then by material, then by mesh.
    pub open spec fn before(self, other: BatchKey) -> bool {
        ||| self.material.rank() < other.material.rank()
        ||| self.material.rank() == other.material.rank() && self.material.id()
            < other.material.id()
        ||| self.material == other.material && self.mesh_id < other.mesh_id
    }

    /// Whether batches with this key are drawn before those with another.
    fn is_before(&self, other: &BatchKey) -> (yes: bool)
        ensures
            yes == self.before(*other),
    {
        let (a, x) = self.material.place();
        let (b, y) = other.material.place();
        if a != b {
            a < b
        } else if x != y {
            x < y
        } else {
            self.mesh_id < other.mesh_id
        }
    }
}

/// The order in which batches are drawn is a strict total order of their keys.
pub proof fn drawing_order_is_total(a: BatchKey, b: BatchKey, c: BatchKey)
    ensures
        !a.before(a),
        a.before(b) && b.before(c) ==> a.before(c),
        a != b ==> a.before(b) || b.before(a),
        !(a.before(b) && b.before(a)),
{
}

/// A batch of instances that share the same mesh, material, and primitive type.
#[derive(Debug)]
pub struct DrawBatch {
    pub mesh_id: MeshId,
    /// Typed material this batch draws with.
    pub material: BatchMaterial,
    /// Shader and pipeline properties resolved from the typed material when batches
    /// are collected.
    pub material_props: MaterialProperties,
    /// Geometry primitive selecting the mesh's index buffer and pipeline topology.
    pub primitive_type: PrimitiveType,
    /// Number of indices this batch draws.
    pub index_count: u32,
    pub instances: Vec<InstanceTransform>,
}

/// What a [`DrawBatch`] holds.
#[verifier::ext_equal]
pub struct DrawBatchModel {
    pub mesh_id: MeshId,
    pub material: BatchMaterial,
    pub material_props: MaterialProperties,
    pub primitive_type: PrimitiveType,
    pub index_count: u32,
    pub instances: Seq<InstanceTransform>,
}

impl View for DrawBatch {
    type V = DrawBatchModel;

    open spec fn view(&self) -> DrawBatchModel {
        DrawBatchModel {
            mesh_id: self.mesh_id,
            material: self.material,
            material_props: self.material_props,
            primitive_type: self.primitive_type,
            index_count: self.index_count,
            instances: self.instances@,
        }
    }
}

/// What batches hold.
pub open spec fn batch_views(batches: Seq<DrawBatch>) -> Seq<DrawBatchModel> {
    batches.map_values(|b: DrawBatch| b@)
}

impl DrawBatchModel {
    /// What the instances of the batch share.
    pub open spec fn key(self) -> BatchKey {
        BatchKey { mesh_id: self.mesh_id, material: self.material }
    }

    /// Whether the batch is blended.
    pub open spec fn transparent(self) -> bool {
        self.material_props.alpha_mode == AlphaMode::Blend
    }
}

impl DrawBatch {
    /// An empty batch, drawn unlit and opaque.
    pub fn new(
        mesh_id: MeshId,
        material: BatchMaterial,
        primitive_type: PrimitiveType,
        index_count: u32,
    ) -> (batch: Self)
        ensures
            batch@ == (DrawBatchModel {
                mesh_id,
                material,
                material_props: MaterialProperties::unlit_opaque_spec(),
                primitive_type,
                index_count,
                instances: Seq::empty(),
            }),
    {
        DrawBatch {
            mesh_id,
            material,
            material_props: MaterialProperties::unlit_opaque(),
            primitive_type,
            index_count,
            instances: Vec::new(),
        }
    }

    /// Sets the resolved material properties (chainable).
    pub fn with_material_props(self, props: MaterialProperties) -> (batch: Self)
        ensures
            batch@ == (DrawBatchModel { material_props: props, ..self@ }),
    {
        let mut batch = self;
        batch.material_props = props;
        batch
    }

    /// What the instances of the batch share.
    pub fn key(&self) -> (key: BatchKey)
        ensures
            key == self@.key(),
    {
        BatchKey { mesh_id: self.mesh_id, material: self.material }
    }

    /// Adds an instance to the batch.
    pub fn add_instance(&mut self, instance_transform: InstanceTransform)
        ensures
            final(self)@ == (DrawBatchModel {
                instances: old(self)@.instances.push(instance_transform),
                ..old(self)@
            }),
    {
        self.instances.push(instance_transform);
    }

    /// The number of instances in the batch.
    pub fn len(&self) -> (n: usize)
        ensures
            n == self@.instances.len(),
    {
        self.instances.len()
    }

    /// Whether the batch has no instances.
    pub fn is_empty(&self) -> (empty: bool)
        ensures
            empty == (self@.instances.len() == 0),
    {
        self.instances.len() == 0
    }

    /// Whether the batch is blended.
    pub fn is_transparent(&self) -> (yes: bool)
        ensures
            yes == self@.transparent(),
    {
        self.material_props.alpha_mode == AlphaMode::Blend
    }
}

/// One instance to be drawn with one material: a batch of its own, before grouping.
#[derive(Debug, Clone, Copy, PartialEq, Eq, Structural)]
pub struct DrawItem {
    pub key: BatchKey,
    pub material_props: MaterialProperties,
    pub primitive_type: PrimitiveType,
    pub index_count: u32,
    pub instance: InstanceTransform,
}

impl DrawItem {
    /// A batch of this item alone.
    pub open spec fn alone(self) -> DrawBatchModel {
        DrawBatchModel {
            mesh_id: self.key.mesh_id,
            material: self.key.material,
            material_props: self.material_props,
            primitive_type: self.primitive_type,
            index_count: self.index_count,
            instances: seq![self.instance],
        }
    }
}

/// The position of the batch with the given key; the number of batches if there is
/// none.
pub open spec fn batch_position(batches: Seq<DrawBatchModel>, key: BatchKey) -> int
    decreases batches.len(),
{
    if batches.len() == 0 {
        0
    } else if batch_position(batches.drop_last(), key) < batches.len() - 1 {
        batch_position(batches.drop_last(), key)
    } else if batches.last().key() == key {
        batches.len() - 1
    } else {
        batches.len() as int
    }
}

/// Batches after adding an item: to the batch with its key, or as a new one.
pub open spec fn with_item(batches: Seq<DrawBatchModel>, item: DrawItem) -> Seq<DrawBatchModel> {
    let i = batch_position(batches, item.key);
    if i < batches.len() {
        batches.update(
            i,
            DrawBatchModel {
                instances: batches[i].instances.push(item.instance),
                ..batches[i]
            },
        )
    } else {
        batches.push(item.alone())
    }
}

/// Items grouped into batches by key, in the order in which the keys first appear.
pub open spec fn grouped(items: Seq<DrawItem>) -> Seq<DrawBatchModel>
    decreases items.len(),
{
    if items.len() == 0 {
        Seq::empty()
    } else {
        with_item(grouped(items.drop_last()), items.last())
    }
}

/// The instances of the items with the given key, in order.
pub open spec fn instances_with(items: Seq<DrawItem>, key: BatchKey) -> Seq<InstanceTransform>
    decreases items.len(),
{
    if items.len() == 0 {
        Seq::empty()
    } else if items.last().key == key {
        instances_with(items.drop_last(), key).push(items.last().instance)
    } else {
        instances_with(items.drop_last(), key)
    }
}

/// The items that a test keeps, in order.
pub open spec fn kept(items: Seq<DrawItem>, keep: spec_fn(InstanceTransform) -> bool) -> Seq<
    DrawItem,
>
    decreases items.len(),
{
    if items.len() == 0 {
        Seq::empty()
    } else if keep(items.last().instance) {
        kept(items.drop_last(), keep).push(items.last())
    } else {
        kept(items.drop_last(), keep)
    }
}

/// The items of one batch, in order.
pub open spec fn batch_items(batch: DrawBatchModel) -> Seq<DrawItem> {
    batch.instances.map_values(
        |i: InstanceTransform|
            DrawItem {
                key: batch.key(),
                material_props: batch.material_props,
                primitive_type: batch.primitive_type,
                index_count: batch.index_count,
                instance: i,
            },
    )
}

/// The items of all batches, in order.
pub open spec fn all_items(batches: Seq<DrawBatchModel>) -> Seq<DrawItem>
    decreases batches.len(),
{
    if batches.len() == 0 {
        Seq::empty()
    } else {
        all_items(batches.drop_last()) + batch_items(batches.last())
    }
}

/// Where the first batch with a key stands.
pub proof fn lemma_position(batches: Seq<DrawBatchModel>, key: BatchKey)
    ensures
        0 <= batch_position(batches, key) <= batches.len(),
        batch_position(batches, key) < batches.len() ==> batches[batch_position(
            batches,
            key,
        )].key() == key,
        forall|i: int|
            0 <= i < batch_position(batches, key) ==> (#[trigger] batches[i]).key() != key,
    decreases batches.len(),
{
    if batches.len() > 0 {
        lemma_position(batches.drop_last(), key);
        let front = batches.drop_last();
        assert forall|i: int| 0 <= i < batch_position(batches, key) implies (
        #[trigger] batches[i]).key() != key by {
            if i < front.len() {
                assert(front[i] == batches[i]);
            }
        }
        if batch_position(front, key) < front.len() {
            assert(front[batch_position(front, key)] == batches[batch_position(front, key)]);
        }
    }
}

/// The position of a batch that is the first with its key, or of none.
pub proof fn lemma_position_at(batches: Seq<DrawBatchModel>, key: BatchKey, i: int)
    requires
        0 <= i <= batches.len(),
        i < batches.len() ==> batches[i].key() == key,
        forall|j: int| 0 <= j < i ==> (#[trigger] batches[j]).key() != key,
    ensures
        batch_position(batches, key) == i,
{
    lemma_position(batches, key);
    let p = batch_position(batches, key);
    if p < i {
        assert(batches[p].key() != key);
    } else if p > i {
        assert(batches[i].key() != key);
    }
}

/// Whether no two batches have the same key.
pub open spec fn keys_distinct(batches: Seq<DrawBatchModel>) -> bool {
    forall|i: int, j: int|
        #![trigger batches[i], batches[j]]
        0 <= i < j < batches.len() ==> batches[i].key() != batches[j].key()
}

/// Grouping loses no instance and invents none: there is exactly one batch for each
/// key that occurs, none is empty, and each holds exactly the instances of its key, in
/// order.
pub proof fn grouping_keeps_every_instance(items: Seq<DrawItem>)
    ensures
        keys_distinct(grouped(items)),
        forall|i: int|
            0 <= i < grouped(items).len() ==> (#[trigger] grouped(items)[i]).instances.len() > 0
                && grouped(items)[i].instances == instances_with(items, grouped(items)[i].key()),
        forall|k: int|
            0 <= k < items.len() ==> batch_position(grouped(items), (#[trigger] items[k]).key)
                < grouped(items).len(),
    decreases items.len(),
{
    if items.len() > 0 {
        let front = items.drop_last();
        let item = items.last();
        let was = grouped(front);
        let now = grouped(items);
        grouping_keeps_every_instance(front);
        lemma_position(was, item.key);
        let p = batch_position(was, item.key);
        assert(keys_distinct(now)) by {
            assert forall|i: int, j: int|
                #![trigger now[i], now[j]]
                0 <= i < j < now.len() implies now[i].key() != now[j].key() by {
                if j < was.len() {
                    assert(was[i].key() != was[j].key());
                } else {
                    assert(was[i].key() != item.key);
                }
            }
        }
        assert forall|i: int| 0 <= i < now.len() implies (#[trigger] now[i]).instances.len() > 0
            && now[i].instances == instances_with(items, now[i].key()) by {
            if i < was.len() {
                assert(was[i].instances == instances_with(front, was[i].key()));
                if i != p && was[i].key() == item.key {
                    if i < p {
                        assert(was[i].key() != item.key);
                    } else {
                        assert(was[p].key() != was[i].key());
                    }
                }
            } else {
                lemma_no_instances(front, was, item.key);
                assert(now[i].instances =~= instances_with(items, item.key));
            }
        }
        assert forall|k: int| 0 <= k < items.len() implies batch_position(
            now,
            (#[trigger] items[k]).key,
        ) < now.len() by {
            let key = items[k].key;
            lemma_position(now, key);
            if k < front.len() {
                assert(front[k] == items[k]);
                lemma_position(was, key);
                let q = batch_position(was, key);
                assert(now[q].key() == key);
                if batch_position(now, key) == now.len() {
                    assert(now[q].key() != key);
                }
            } else {
                let q = if p < was.len() {
                    p
                } else {
                    was.len() as int
                };
                assert(now[q].key() == key);
                if batch_position(now, key) == now.len() {
                    assert(now[q].key() != key);
                }
            }
        }
    }
}

proof fn lemma_no_instances(items: Seq<DrawItem>, batches: Seq<DrawBatchModel>, key: BatchKey)
    requires
        forall|k: int|
            0 <= k < items.len() ==> batch_position(batches, (#[trigger] items[k]).key)
                < batches.len(),
        batch_position(batches, key) >= batches.len(),
    ensures
        instances_with(items, key) == Seq::<InstanceTransform>::empty(),
    decreases items.len(),
{
    if items.len() > 0 {
        let front = items.drop_last();
        assert forall|k: int| 0 <= k < front.len() implies batch_position(
            batches,
            (#[trigger] front[k]).key,
        ) < batches.len() by {
            assert(front[k] == items[k]);
        }
        assert(items[items.len() - 1] == items.last());
        lemma_no_instances(front, batches, key);
    }
}

/// Adds an item to the batch with its key, or as a new batch.
fn add_item(batches: &mut Vec<DrawBatch>, item: DrawItem)
    ensures
        batch_views(final(batches)@) == with_item(batch_views(old(batches)@), item),
{
    let ghost given = batch_views(batches@);
    let mut i: usize = 0;
    while i < batches.len()
        invariant
            i <= batches.len(),
            given == batch_views(batches@),
            given == batch_views(old(batches)@),
            forall|j: int| 0 <= j < i ==> (#[trigger] given[j]).key() != item.key,
        decreases batches.len() - i,
    {
        proof {
            assert(given[i as int] == batches@[i as int]@);
        }
        let key = batches[i].key();
        if key == item.key {
            proof {
                lemma_position_at(given, item.key, i as int);
            }
            batches[i].instances.push(item.instance);
            proof {
                assert(batch_views(batches@) =~= with_item(given, item));
            }
            return ;
        }
        i = i + 1;
    }
    proof {
        lemma_position_at(given, item.key, i as int);
    }
    let mut batch = DrawBatch::new(
        item.key.mesh_id,
        item.key.material,
        item.primitive_type,
        item.index_count,
    ).with_material_props(item.material_props);
    batch.add_instance(item.instance);
    proof {
        assert(batch@ =~= item.alone());
    }
    batches.push(batch);
    proof {
        assert(batch_views(batches@) =~= with_item(given, item));
    }
}

impl SceneModel {
    /// The typed material and shader properties for one primitive kind of an instance;
    /// `None` when that kind has no assigned material, so that it is not drawn.
    pub open spec fn batch_material(self, instance: InstanceParts, kind: PrimitiveType) -> Option<
        (BatchMaterial, MaterialProperties),
    > {
        match kind {
            PrimitiveType::TriangleList => match opt_id(instance.face_material) {
                Some(id) if self.face_materials.contains_key(id) => Some(
                    (BatchMaterial::Face(id), self.face_materials[id].properties_spec()),
                ),
                _ => None,
            },
            PrimitiveType::LineList => match opt_id(instance.line_material) {
                Some(id) if self.line_materials.contains_key(id) => Some(
                    (BatchMaterial::Line(id), self.line_materials[id].properties_spec()),
                ),
                _ => None,
            },
            PrimitiveType::PointList => match opt_id(instance.point_material) {
                Some(id) if self.point_materials.contains_key(id) => Some(
                    (BatchMaterial::Point(id), self.point_materials[id].properties_spec()),
                ),
                _ => None,
            },
        }
    }

    /// What is drawn of one primitive kind of an instance. Nothing when the instance,
    /// its mesh or the material is missing, or the mesh has no such primitives.
    pub open spec fn draw_item(self, instance: InstanceTransform, kind: PrimitiveType) -> Option<
        DrawItem,
    > {
        if !self.instances.contains_key(instance.instance_id) {
            None
        } else {
            let item = self.instances[instance.instance_id];
            if !self.meshes.contains_key(item.mesh.id) || !self.meshes[item.mesh.id].has_primitive(
                kind,
            ) {
                None
            } else {
                match self.batch_material(item, kind) {
                    None => None,
                    Some((material, props)) => Some(
                        DrawItem {
                            key: BatchKey { mesh_id: item.mesh.id, material },
                            material_props: props,
                            primitive_type: kind,
                            index_count: self.meshes[item.mesh.id].index_total(kind) as u32,
                            instance,
                        },
                    ),
                }
            }
        }
    }

    /// What is drawn of one instance: triangles, lines, points.
    pub open spec fn instance_items(self, instance: InstanceTransform) -> Seq<DrawItem> {
        opt_item(self.draw_item(instance, PrimitiveType::TriangleList)) + opt_item(
            self.draw_item(instance, PrimitiveType::LineList),
        ) + opt_item(self.draw_item(instance, PrimitiveType::PointList))
    }

    /// What is drawn of all instances, in order.
    pub open spec fn draw_items(self, instances: Seq<InstanceTransform>) -> Seq<DrawItem>
        decreases instances.len(),
    {
        if instances.len() == 0 {
            Seq::empty()
        } else {
            self.draw_items(instances.drop_last()) + self.instance_items(instances.last())
        }
    }

    /// Whether the number of indices of every mesh fits into 32 bits.
    pub open spec fn meshes_fit(self) -> bool {
        forall|k: u64, kind: PrimitiveType|
            self.meshes.contains_key(k) ==> #[trigger] self.meshes[k].index_total(kind) <= u32::MAX
    }
}

/// At most one item.
pub open spec fn opt_item(item: Option<DrawItem>) -> Seq<DrawItem> {
    match item {
        Some(i) => seq![i],
        None => Seq::empty(),
    }
}

/// The kind of an item's material agrees with its primitives.
pub proof fn material_kind_agrees(
    m: SceneModel,
    instance: InstanceTransform,
    kind: PrimitiveType,
)
    ensures
        m.draw_item(instance, kind) matches Some(item) ==> item.primitive_type == kind
            && item.key.material.shades() == kind,
{
}

/// Resolves the typed material and shader properties for one primitive kind of an
/// instance, or `None` when that kind has no assigned material (so it is not drawn).
fn resolve_batch_material(
    scene: &SceneData,
    instance: &Instance,
    primitive_type: PrimitiveType,
) -> (resolved: Option<(BatchMaterial, MaterialProperties)>)
    ensures
        resolved == scene@.batch_material(instance@, primitive_type),
{
    match primitive_type {
        PrimitiveType::TriangleList => match instance.face_material() {
            None => None,
            Some(id) => match scene.get_face_material(id) {
                None => None,
                Some(material) => Some((BatchMaterial::Face(id), material.properties())),
            },
        },
        PrimitiveType::LineList => match instance.line_material() {
            None => None,
            Some(id) => match scene.get_line_material(id) {
                None => None,
                Some(material) => Some((BatchMaterial::Line(id), material.properties())),
            },
        },
        PrimitiveType::PointList => match instance.point_material() {
            None => None,
            Some(id) => match scene.get_point_material(id) {
                None => None,
                Some(material) => Some((BatchMaterial::Point(id), material.properties())),
            },
        },
    }
}

/// What is drawn of one primitive kind of an instance.
fn make_item(scene: &SceneData, placed: InstanceTransform, kind: PrimitiveType) -> (item: Option<
    DrawItem,
>)
    requires
        scene@.meshes_fit(),
    ensures
        item == scene@.draw_item(placed, kind),
{
    let instance = match scene.get_instance(placed.instance_id) {
        None => {
            return None;
        },
        Some(instance) => instance,
    };
    let mesh = match scene.get_mesh(instance.mesh()) {
        None => {
            return None;
        },
        Some(mesh) => mesh,
    };
    if !mesh.has_primitive_type(kind) {
        return None;
    }
    match resolve_batch_material(scene, instance, kind) {
        None => None,
        Some((material, material_props)) => {
            proof {
                assert(scene@.meshes[instance@.mesh.id].index_total(kind) <= u32::MAX);
            }
            Some(
                DrawItem {
                    key: BatchKey { mesh_id: instance.mesh(), material },
                    material_props,
                    primitive_type: kind,
                    index_count: mesh.index_count(kind),
                    instance: placed,
                },
            )
        },
    }
}

/// Adds an item, if there is one.
fn add_opt_item(batches: &mut Vec<DrawBatch>, item: Option<DrawItem>, Ghost(items): Ghost<Seq<DrawItem>>)
    requires
        batch_views(old(batches)@) == grouped(items),
    ensures
        batch_views(final(batches)@) == grouped(items + opt_item(item)),
{
    match item {
        Some(i) => {
            add_item(batches, i);
            proof {
                let next = items + opt_item(item);
                assert(next.drop_last() =~= items);
                assert(next.last() == i);
            }
        },
        None => {
            proof {
                assert(items + opt_item(item) =~= items);
            }
        },
    }
}

/// Groups what is drawn of the given instances.
fn group_instances(scene: &SceneData, instances: &Vec<InstanceTransform>) -> (batches: Vec<
    DrawBatch,
>)
    requires
        scene@.meshes_fit(),
    ensures
        batch_views(batches@) == grouped(scene@.draw_items(instances@)),
{
    let mut batches: Vec<DrawBatch> = Vec::new();
    let mut i: usize = 0;
    proof {
        assert(instances@.take(0) =~= Seq::empty());
        assert(batch_views(batches@) =~= Seq::empty());
    }
    while i < instances.len()
        invariant
            i <= instances.len(),
            scene@.meshes_fit(),
            batch_views(batches@) == grouped(scene@.draw_items(instances@.take(i as int))),
        decreases instances.len() - i,
    {
        let placed = instances[i];
        let ghost items = scene@.draw_items(instances@.take(i as int));
        let triangles = make_item(scene, placed, PrimitiveType::TriangleList);
        add_opt_item(&mut batches, triangles, Ghost(items));
        let lines = make_item(scene, placed, PrimitiveType::LineList);
        add_opt_item(&mut batches, lines, Ghost(items + opt_item(triangles)));
        let points = make_item(scene, placed, PrimitiveType::PointList);
        add_opt_item(
            &mut batches,
            points,
            Ghost(items + opt_item(triangles) + opt_item(lines)),
        );
        proof {
            let next = instances@.take(i + 1);
            assert(next.drop_last() =~= instances@.take(i as int));
            assert(next.last() == placed);
            assert(items + opt_item(triangles) + opt_item(lines) + opt_item(points)
                =~= items + scene@.instance_items(placed));
        }
        i = i + 1;
    }
    proof {
        assert(instances@.take(instances.len() as int) =~= instances@);
    }
    batches
}

/// Whether batches stand in drawing order.
pub open spec fn in_drawing_order(batches: Seq<DrawBatchModel>) -> bool {
    forall|i: int, j: int|
        #![trigger batches[i], batches[j]]
        0 <= i < j < batches.len() ==> batches[i].key().before(batches[j].key())
}

/// Puts batches with distinct keys into drawing order.
fn sort_batches(batches: Vec<DrawBatch>) -> (sorted: Vec<DrawBatch>)
    requires
        keys_distinct(batch_views(batches@)),
    ensures
        in_drawing_order(batch_views(sorted@)),
        batch_views(sorted@).to_multiset() == batch_views(batches@).to_multiset(),
{
    let ghost given = batch_views(batches@);
    let mut rest = batches;
    let mut sorted: Vec<DrawBatch> = Vec::new();
    proof {
        broadcast use group_to_multiset_ensures;

        assert(batch_views(sorted@) =~= Seq::empty());
        lemma_multiset_commutative(batch_views(rest@), batch_views(sorted@));
        assert(batch_views(rest@) + batch_views(sorted@) =~= given);
    }
    while rest.len() > 0
        invariant
            in_drawing_order(batch_views(sorted@)),
            keys_distinct(batch_views(rest@)),
            (batch_views(rest@) + batch_views(sorted@)).to_multiset() == given.to_multiset(),
            forall|i: int, j: int|
                #![trigger batch_views(rest@)[i], batch_views(sorted@)[j]]
                0 <= i < rest.len() && 0 <= j < sorted.len() ==> batch_views(rest@)[i].key()
                    != batch_views(sorted@)[j].key(),
        decreases rest.len(),
    {
        let ghost old_rest = batch_views(rest@);
        let ghost old_sorted = batch_views(sorted@);
        match rest.pop() {
            None => {},
            Some(batch) => {
                let ghost b = batch@;
                let key = batch.key();
                proof {
                    assert(batch_views(rest@) =~= old_rest.drop_last());
                    assert(old_rest.last() == b);
                }
                let mut at: usize = 0;
                while at < sorted.len() && sorted[at].key().is_before(&key)
                    invariant
                        at <= sorted.len(),
                        old_sorted == batch_views(sorted@),
                        key == b.key(),
                        forall|j: int| 0 <= j < at ==> (#[trigger] old_sorted[j]).key().before(key),
                    decreases sorted.len() - at,
                {
                    proof {
                        assert(old_sorted[at as int] == sorted@[at as int]@);
                    }
                    at = at + 1;
                }
                sorted.insert(at, batch);
                proof {
                    let now = batch_views(sorted@);
                    assert(now =~= old_sorted.insert(at as int, b));
                    let short = batch_views(rest@);
                    if at < old_sorted.len() {
                        assert(old_sorted[at as int].key() != key) by {
                            assert(old_rest[old_rest.len() - 1].key() != old_sorted[at as int].key());
                        }
                        assert(!old_sorted[at as int].key().before(key));
                    }
                    assert forall|i: int, j: int|
                        #![trigger now[i], now[j]]
                        0 <= i < j < now.len() implies now[i].key().before(now[j].key()) by {
                        if j < at {
                            assert(old_sorted[i].key().before(old_sorted[j].key()));
                        } else if j == at {
                            assert(old_sorted[i].key().before(key));
                        } else if i == at {
                            assert(key.before(old_sorted[at as int].key()));
                            if j - 1 > at {
                                assert(old_sorted[at as int].key().before(old_sorted[j - 1].key()));
                            }
                        } else if i < at {
                            assert(old_sorted[i].key().before(old_sorted[j - 1].key()));
                        } else {
                            assert(old_sorted[i - 1].key().before(old_sorted[j - 1].key()));
                        }
                    }
                    assert forall|i: int, j: int|
                        #![trigger short[i], now[j]]
                        0 <= i < short.len() && 0 <= j < now.len() implies short[i].key()
                        != now[j].key() by {
                        assert(short[i] == old_rest[i]);
                        if j == at {
                            assert(old_rest[i].key() != old_rest[old_rest.len() - 1].key());
                        } else if j < at {
                            assert(old_rest[i].key() != old_sorted[j].key());
                        } else {
                            assert(old_rest[i].key() != old_sorted[j - 1].key());
                        }
                    }
                    assert(keys_distinct(short)) by {
                        assert forall|i: int, j: int|
                            #![trigger short[i], short[j]]
                            0 <= i < j < short.len() implies short[i].key() != short[j].key() by {
                            assert(old_rest[i].key() != old_rest[j].key());
                        }
                    }
                    lemma_multiset_commutative(short, now);
                    lemma_multiset_commutative(old_rest, old_sorted);
                    to_multiset_insert(old_sorted, at as int, b);
                    to_multiset_build(short, b);
                    assert(old_rest =~= short.push(b));
                    assert((short + now).to_multiset() =~= (old_rest + old_sorted).to_multiset());
                }
            },
        }
    }
    proof {
        assert(batch_views(rest@) + batch_views(sorted@) =~= batch_views(sorted@));
    }
    sorted
}

/// Whether batches are what is drawn of the given instances: grouped, and in drawing
/// order.
pub open spec fn is_batching(
    m: SceneModel,
    instances: Seq<InstanceTransform>,
    batches: Seq<DrawBatchModel>,
) -> bool {
    &&& in_drawing_order(batches)
    &&& batches.to_multiset() == grouped(m.draw_items(instances)).to_multiset()
}

/// Collects all instances grouped into batches by mesh, material, and primitive type.
///
/// This walks the scene tree, computes world transforms, and groups instances that
/// share the same mesh, material, and primitive type into batches. A single instance
/// may be in several batches, one for each primitive type of its mesh that it has a
/// material for. Batches are sorted to minimize state changes during rendering, with
/// all triangles before all lines before all points.
pub fn collect_draw_batches<
    F: Fn(Matrix4, Transform) -> Matrix4,
    N: Fn(Matrix4) -> Matrix3,
    L: Fn(Vector3) -> Scalar,
    U: Fn(Vector3) -> Vector3,
>(scene: &mut SceneData, math: &FrameMath<F, N, L, U>) -> (batches: Vec<DrawBatch>)
    requires
        acyclic(old(scene)@.nodes),
        old(scene)@.meshes_fit(),
        math.definite(),
    ensures
        is_batching(
            old(scene)@,
            old(scene)@.frame(math.model()).instances,
            batch_views(batches@),
        ),
        final(scene)@ == old(scene)@.with_nodes(old(scene)@.frame(math.model()).nodes),
        old(scene)@.sound() ==> final(scene)@.sound(),
{
    let ghost m = scene@;
    let data = collect_scene_frame_data(scene, math);
    proof {
        lemma_items_same(m, scene@, data.instance_transforms@);
        assert(scene@.meshes_fit());
    }
    let groups = group_instances(scene, &data.instance_transforms);
    proof {
        grouping_keeps_every_instance(m.draw_items(data.instance_transforms@));
    }
    sort_batches(groups)
}

/// What is drawn depends on the resources, not on the caches of nodes.
proof fn lemma_items_same(m: SceneModel, after: SceneModel, instances: Seq<InstanceTransform>)
    requires
        after == m.with_nodes(after.nodes),
    ensures
        after.draw_items(instances) == m.draw_items(instances),
    decreases instances.len(),
{
    if instances.len() > 0 {
        lemma_items_same(m, after, instances.drop_last());
        let i = instances.last();
        assert(after.draw_item(i, PrimitiveType::TriangleList) == m.draw_item(
            i,
            PrimitiveType::TriangleList,
        ));
        assert(after.draw_item(i, PrimitiveType::LineList) == m.draw_item(
            i,
            PrimitiveType::LineList,
        ));
        assert(after.draw_item(i, PrimitiveType::PointList) == m.draw_item(
            i,
            PrimitiveType::PointList,
        ));
    }
}

/// Partitions batches by a predicate on instances.
///
/// Splits each batch's instances based on the predicate. Returns two sets of batches:
/// those where the predicate returned `true` and those where it returned `false`.
///
/// Batches are preserved with their mesh, material and primitive type, and keep their
/// order, but may be split if instances within a batch have different predicate
/// results. Empty batches (after partitioning) are not part of the output.
pub fn partition_batches<P: Fn(InstanceTransform) -> bool>(
    batches: &Vec<DrawBatch>,
    predicate: &P,
) -> (parts: (Vec<DrawBatch>, Vec<DrawBatch>))
    requires
        accepts1(*predicate),
    ensures
        forall|test: spec_fn(InstanceTransform) -> bool| #[trigger]
            describes1(*predicate, test) ==> partitioned(
                all_items(batch_views(batches@)),
                test,
                batch_views(parts.0@),
                batch_views(parts.1@),
            ),
{
    let ghost views = batch_views(batches@);
    let mut matched: Vec<DrawBatch> = Vec::new();
    let mut unmatched: Vec<DrawBatch> = Vec::new();
    let mut i: usize = 0;
    proof {
        assert(views.take(0) =~= Seq::empty());
        assert(batch_views(matched@) =~= Seq::empty());
        assert(batch_views(unmatched@) =~= Seq::empty());
    }
    while i < batches.len()
        invariant
            i <= batches.len(),
            accepts1(*predicate),
            views == batch_views(batches@),
            forall|test: spec_fn(InstanceTransform) -> bool| #[trigger]
                describes1(*predicate, test) ==> partitioned(
                    all_items(views.take(i as int)),
                    test,
                    batch_views(matched@),
                    batch_views(unmatched@),
                ),
        decreases batches.len() - i,
    {
        let batch = &batches[i];
        let ghost view = batch@;
        let ghost front = all_items(views.take(i as int));
        let ghost items = batch_items(view);
        let mut j: usize = 0;
        proof {
            assert(views[i as int] == view);
            assert(front + items.take(0) =~= front);
        }
        while j < batch.instances.len()
            invariant
                j <= batch.instances.len(),
                accepts1(*predicate),
                view == batch@,
                items == batch_items(view),
                forall|test: spec_fn(InstanceTransform) -> bool| #[trigger]
                    describes1(*predicate, test) ==> partitioned(
                        front + items.take(j as int),
                        test,
                        batch_views(matched@),
                        batch_views(unmatched@),
                    ),
            decreases batch.instances.len() - j,
        {
            let instance = batch.instances[j];
            let item = DrawItem {
                key: batch.key(),
                material_props: batch.material_props,
                primitive_type: batch.primitive_type,
                index_count: batch.index_count,
                instance,
            };
            let ghost was_matched = batch_views(matched@);
            let ghost was_unmatched = batch_views(unmatched@);
            let matches = predicate(instance);
            if matches {
                add_item(&mut matched, item);
            } else {
                add_item(&mut unmatched, item);
            }
            proof {
                let before = front + items.take(j as int);
                let next = front + items.take(j + 1);
                assert(items[j as int] == item);
                assert(next.drop_last() =~= before);
                assert(next.last() == item);
                assert forall|test: spec_fn(InstanceTransform) -> bool| #[trigger] describes1(
                    *predicate,
                    test,
                ) implies partitioned(
                    next,
                    test,
                    batch_views(matched@),
                    batch_views(unmatched@),
                ) by {
                    assert(partitioned(before, test, was_matched, was_unmatched));
                    assert(matches == test(instance));
                    let a = kept(next, test);
                    let b = kept(next, negation(test));
                    if test(instance) {
                        assert(a.drop_last() =~= kept(before, test));
                    } else {
                        assert(b.drop_last() =~= kept(before, negation(test)));
                    }
                }
            }
            j = j + 1;
        }
        proof {
            let next = views.take(i + 1);
            assert(next.drop_last() =~= views.take(i as int));
            assert(next.last() == view);
            assert(items.take(items.len() as int) =~= items);
        }
        i = i + 1;
    }
    proof {
        assert(views.take(views.len() as int) =~= views);
    }
    (matched, unmatched)
}

/// Whether two lists of batches are the items that pass a test and those that do not,
/// each grouped.
pub open spec fn partitioned(
    items: Seq<DrawItem>,
    test: spec_fn(InstanceTransform) -> bool,
    matched: Seq<DrawBatchModel>,
    unmatched: Seq<DrawBatchModel>,
) -> bool {
    &&& matched == grouped(kept(items, test))
    &&& unmatched == grouped(kept(items, negation(test)))
}

/// The opposite of a test.
pub open spec fn negation(test: spec_fn(InstanceTransform) -> bool) -> spec_fn(
    InstanceTransform,
) -> bool {
    |i: InstanceTransform| !test(i)
}

/// Partitioning sends every item to exactly one side and keeps the order on each: the
/// two sides together have as many items as there were, and an item is on the side
/// that the test says.
pub proof fn partition_is_complete(
    items: Seq<DrawItem>,
    test: spec_fn(InstanceTransform) -> bool,
)
    ensures
        kept(items, test).len() + kept(items, negation(test)).len() == items.len(),
        forall|k: int|
            0 <= k < kept(items, test).len() ==> test((#[trigger] kept(items, test)[k]).instance),
        forall|k: int|
            0 <= k < kept(items, negation(test)).len() ==> !test(
                (#[trigger] kept(items, negation(test))[k]).instance,
            ),
        kept(items, test).to_multiset().add(kept(items, negation(test)).to_multiset())
            == items.to_multiset(),
    decreases items.len(),
{
    broadcast use group_to_multiset_ensures;

    let a = kept(items, test);
    let b = kept(items, negation(test));
    if items.len() == 0 {
        assert(a.to_multiset().add(b.to_multiset()) =~= items.to_multiset());
    } else {
        let front = items.drop_last();
        partition_is_complete(front, test);
        let fa = kept(front, test);
        let fb = kept(front, negation(test));
        assert(items =~= front.push(items.last()));
        to_multiset_build(front, items.last());
        if test(items.last().instance) {
            to_multiset_build(fa, items.last());
        } else {
            to_multiset_build(fb, items.last());
        }
        assert(a.to_multiset().add(b.to_multiset()) =~= items.to_multiset());
    }
}

} // verus!
