//! What one frame draws.

use super::batching::{
    all_items, batch_views, collect_draw_batches, grouped, is_batching, kept, negation,
    partition_batches, partitioned, DrawBatch, DrawBatchModel, DrawItem,
};
use super::draw_laws::{covers_range, highlighted_elements_are_drawn_whole, range_of};
use super::frame::{FrameArithmetic, FrameMath, InstanceTransform};
use super::transparency::{
    apply_screen_space_transforms, batch_distance, blended_batches, drawn_batch, far_to_near,
    opaque_batches, sort_batches_for_transparency,
};
use crate::common::{Matrix3, Matrix4, Point3, RgbaColor, Scalar, Transform, Vector3};
use crate::data::bounds::acyclic;
use crate::data::model::SceneModel;
use crate::data::SceneData;
use crate::geom_query::pick_query::PickView;
use crate::numeric::{accepts1, definite2, definite3, describes1, value2, value3};
use crate::resource::display::{DisplayBehavior, RenderLayer};
use crate::resource::handle::{MeshId, NodeId};
use crate::resource::mesh::{PrimitiveType, SubGeometryElement, SubGeometryKind, SubMeshRange};
use vstd::prelude::*;

verus! {

/// A draw call targeting a sub-range of a mesh's index buffer for a single instance.
///
/// Used to render individual faces or edges (e.g. for highlight outlines), but
/// applicable wherever only part of a mesh needs to be drawn.
#[derive(Debug, Clone, Copy, PartialEq, Eq, Structural)]
pub struct SubGeomBatch {
    pub mesh_id: MeshId,
    pub instance_transform: InstanceTransform,
    pub primitive_type: PrimitiveType,
    /// First raw index within the primitive's index buffer: the start of the range
    /// times the indices per primitive.
    pub first_index: u32,
    /// Number of raw indices to draw: the length of the range times the indices per
    /// primitive.
    pub index_count: u32,
}

/// How a highlighted tier is outlined.
#[derive(Debug, Clone, Copy, PartialEq, Eq, Structural)]
pub struct HighlightConfig {
    pub color: RgbaColor,
    pub width_pixels: Scalar,
}

/// The highlighted elements of one kind within one node.
#[derive(Debug)]
pub struct NodeElements {
    pub node: NodeId,
    pub indices: Vec<u32>,
}

/// What is highlighted in a frame.
#[derive(Debug)]
pub struct Highlight {
    /// Nothing is highlighted at all.
    pub is_empty: bool,
    /// Nodes outlined as a whole.
    pub outlined_nodes: Vec<NodeId>,
    /// The primary one of them.
    pub primary_outlined_node: Option<NodeId>,
    /// Highlighted faces, edges and point sets.
    pub faces: Vec<NodeElements>,
    pub edges: Vec<NodeElements>,
    pub points: Vec<NodeElements>,
    /// The primary one of them, whatever its kind.
    pub primary_sub_geometry: Option<(NodeId, SubGeometryElement)>,
    pub config: HighlightConfig,
    pub secondary_config: Option<HighlightConfig>,
}

/// One highlighted element of one node.
pub type Element = (NodeId, SubGeometryElement);

/// The highlighted elements of one kind within one node, in order.
pub open spec fn node_elements(kind: SubGeometryKind, of: NodeElements) -> Seq<Element> {
    of.indices@.map_values(|index: u32| (of.node, SubGeometryElement { kind, index }))
}

/// The highlighted elements of one kind, in order.
pub open spec fn kind_elements(kind: SubGeometryKind, of: Seq<NodeElements>) -> Seq<Element>
    decreases of.len(),
{
    if of.len() == 0 {
        Seq::empty()
    } else {
        kind_elements(kind, of.drop_last()) + node_elements(kind, of.last())
    }
}

impl Highlight {
    /// The highlighted elements: faces, edges, point sets.
    pub open spec fn elements(self) -> Seq<Element> {
        kind_elements(SubGeometryKind::Face, self.faces@) + kind_elements(
            SubGeometryKind::Edge,
            self.edges@,
        ) + kind_elements(SubGeometryKind::Point, self.points@)
    }

    /// Whether an instance belongs to the primary outlined node.
    pub open spec fn primary(self) -> spec_fn(InstanceTransform) -> bool {
        |i: InstanceTransform| self.primary_outlined_node == Some(i.node_id)
    }

    /// Whether an instance belongs to another outlined node.
    pub open spec fn secondary(self) -> spec_fn(InstanceTransform) -> bool {
        |i: InstanceTransform|
            self.outlined_nodes@.contains(i.node_id) && self.primary_outlined_node != Some(
                i.node_id,
            )
    }
}

/// The last of the items that belong to a node.
pub open spec fn item_of_node(items: Seq<DrawItem>, node: NodeId) -> Option<InstanceTransform>
    decreases items.len(),
{
    if items.len() == 0 {
        None
    } else if items.last().instance.node_id == node {
        Some(items.last().instance)
    } else {
        item_of_node(items.drop_last(), node)
    }
}

impl SceneModel {
    /// The draw call for one highlighted element. Nothing when its node is not drawn,
    /// or there is no such element.
    pub open spec fn sub_batch(self, items: Seq<DrawItem>, e: Element) -> Option<SubGeomBatch> {
        match item_of_node(items, e.0) {
            None => None,
            Some(placed) => if self.instances.contains_key(placed.instance_id)
                && self.meshes.contains_key(self.instances[placed.instance_id].mesh.id) {
                let mesh_id = self.instances[placed.instance_id].mesh.id;
                match self.meshes[mesh_id].topology {
                    None => None,
                    Some(topology) => {
                        let ranges = topology.ranges(e.1.kind);
                        if e.1.index < ranges.len() {
                            Some(range_batch(mesh_id, placed, e.1.kind, ranges[e.1.index as int]))
                        } else {
                            None
                        }
                    },
                }
            } else {
                None
            },
        }
    }

    /// The draw calls of the elements that are the primary one, or that are not.
    pub open spec fn sub_batches(
        self,
        items: Seq<DrawItem>,
        elements: Seq<Element>,
        primary: Option<Element>,
        want_primary: bool,
    ) -> Seq<SubGeomBatch>
        decreases elements.len(),
    {
        if elements.len() == 0 {
            Seq::empty()
        } else {
            let front = self.sub_batches(items, elements.drop_last(), primary, want_primary);
            match self.sub_batch(items, elements.last()) {
                Some(b) if (primary == Some(elements.last())) == want_primary => front.push(b),
                _ => front,
            }
        }
    }

    /// Whether the ranges of all meshes can be counted in 32-bit indices.
    pub open spec fn ranges_fit(self) -> bool {
        forall|k: u64, kind: SubGeometryKind, i: int|
            self.meshes.contains_key(k) && self.meshes[k].topology is Some && 0 <= i
                < self.meshes[k].topology->0.ranges(kind).len() ==> range_fits(
                #[trigger] self.meshes[k].topology->0.ranges(kind)[i],
                kind,
            )
    }
}

/// Whether a range can be counted in 32-bit indices.
pub open spec fn range_fits(range: SubMeshRange, kind: SubGeometryKind) -> bool {
    range.start * kind.primitive().stride() <= u32::MAX && range.count
        * kind.primitive().stride() <= u32::MAX
}

/// The draw call for a range of primitives.
pub open spec fn range_batch(
    mesh_id: MeshId,
    instance_transform: InstanceTransform,
    kind: SubGeometryKind,
    range: SubMeshRange,
) -> SubGeomBatch {
    SubGeomBatch {
        mesh_id,
        instance_transform,
        primitive_type: kind.primitive(),
        first_index: (range.start * kind.primitive().stride()) as u32,
        index_count: (range.count * kind.primitive().stride()) as u32,
    }
}

/// Frame-scoped collection of draw batches, sorted and partitioned for rendering.
#[derive(Debug)]
pub struct DrawData {
    batches: Vec<DrawBatch>,
    highlighted_batches: Vec<DrawBatch>,
    secondary_highlighted_batches: Vec<DrawBatch>,
    overlay_batches: Vec<DrawBatch>,
    highlight_sub_geom_batches: Vec<SubGeomBatch>,
    secondary_highlight_sub_geom_batches: Vec<SubGeomBatch>,
    highlight_config: Option<HighlightConfig>,
    secondary_highlight_config: Option<HighlightConfig>,
}

/// What a [`DrawData`] holds.
#[verifier::ext_equal]
pub struct DrawDataModel {
    /// All batches, sorted: opaque first, then transparent back-to-front.
    pub batches: Seq<DrawBatchModel>,
    /// The primary outlined node's instances.
    pub highlighted: Seq<DrawBatchModel>,
    /// The other outlined nodes' instances.
    pub secondary_highlighted: Seq<DrawBatchModel>,
    /// Batches of the overlay layer.
    pub overlay: Seq<DrawBatchModel>,
    /// Draw calls for the primary highlighted element.
    pub sub_geom: Seq<SubGeomBatch>,
    /// Draw calls for the other highlighted elements.
    pub secondary_sub_geom: Seq<SubGeomBatch>,
    pub config: Option<HighlightConfig>,
    pub secondary_config: Option<HighlightConfig>,
}

impl View for DrawData {
    type V = DrawDataModel;

    closed spec fn view(&self) -> DrawDataModel {
        DrawDataModel {
            batches: batch_views(self.batches@),
            highlighted: batch_views(self.highlighted_batches@),
            secondary_highlighted: batch_views(self.secondary_highlighted_batches@),
            overlay: batch_views(self.overlay_batches@),
            sub_geom: self.highlight_sub_geom_batches@,
            secondary_sub_geom: self.secondary_highlight_sub_geom_batches@,
            config: self.highlight_config,
            secondary_config: self.secondary_highlight_config,
        }
    }
}

/// The arithmetic that building draw data needs, as functions.
pub struct DrawMath<F, N, L, U, G, M, E> {
    pub frame: FrameMath<F, N, L, U>,
    /// Adds the translation of a transform to a sum.
    pub gather: G,
    /// How far the center of gathered translations is from the camera.
    pub measure: M,
    /// Where a screen-space instance is drawn.
    pub effective: E,
}

/// What the functions of a [`DrawMath`] compute.
pub struct DrawArithmetic {
    pub frame: FrameArithmetic,
    pub gather: spec_fn(Point3, Matrix4) -> Point3,
    pub measure: spec_fn(Point3, u64, Point3) -> Scalar,
    pub effective: spec_fn(DisplayBehavior, Matrix4, PickView) -> Matrix4,
}

impl<
    F: Fn(Matrix4, Transform) -> Matrix4,
    N: Fn(Matrix4) -> Matrix3,
    L: Fn(Vector3) -> Scalar,
    U: Fn(Vector3) -> Vector3,
    G: Fn(Point3, Matrix4) -> Point3,
    M: Fn(Point3, u64, Point3) -> Scalar,
    E: Fn(DisplayBehavior, Matrix4, PickView) -> Matrix4,
> DrawMath<F, N, L, U, G, M, E> {
    /// Every function accepts every argument and is a function of it.
    pub open spec fn definite(&self) -> bool {
        &&& self.frame.definite()
        &&& definite2(self.gather)
        &&& definite3(self.measure)
        &&& definite3(self.effective)
    }

    /// What the functions compute.
    pub open spec fn model(&self) -> DrawArithmetic {
        DrawArithmetic {
            frame: self.frame.model(),
            gather: value2(self.gather),
            measure: value3(self.measure),
            effective: value3(self.effective),
        }
    }
}

/// Whether an instance is on the overlay layer.
pub open spec fn on_overlay() -> spec_fn(InstanceTransform) -> bool {
    |i: InstanceTransform| i.display.layer == RenderLayer::Overlay
}

/// Collected batches as a view draws them: opaque first, blended from far to near,
/// screen-space instances where the view puts them.
pub open spec fn arranged(
    collected: Seq<DrawBatchModel>,
    view: PickView,
    math: DrawArithmetic,
) -> Seq<DrawBatchModel> {
    (opaque_batches(collected) + far_to_near(
        blended_batches(collected),
        |b: DrawBatchModel| batch_distance(b, view.camera.eye, math.gather, math.measure),
    )).map_values(
        |b: DrawBatchModel| drawn_batch(b, view, math.effective, math.frame.normal),
    )
}

/// The draw data of a frame, from the batches that were collected. The overlay layer
/// is kept apart; what is highlighted is drawn once more from the rest.
pub open spec fn draw_data(
    m: SceneModel,
    collected: Seq<DrawBatchModel>,
    view: PickView,
    highlight: Option<Highlight>,
    math: DrawArithmetic,
) -> DrawDataModel {
    let items = all_items(arranged(collected, view, math));
    let batches = grouped(kept(items, negation(on_overlay())));
    let overlay = grouped(kept(items, on_overlay()));
    let drawn = all_items(batches);
    match highlight {
        Some(h) if !h.is_empty => DrawDataModel {
            batches,
            highlighted: grouped(kept(drawn, h.primary())),
            secondary_highlighted: grouped(kept(drawn, h.secondary())),
            overlay,
            sub_geom: m.sub_batches(drawn, h.elements(), h.primary_sub_geometry, true),
            secondary_sub_geom: m.sub_batches(drawn, h.elements(), h.primary_sub_geometry, false),
            config: Some(h.config),
            secondary_config: h.secondary_config,
        },
        _ => DrawDataModel {
            batches,
            highlighted: Seq::empty(),
            secondary_highlighted: Seq::empty(),
            overlay,
            sub_geom: Seq::empty(),
            secondary_sub_geom: Seq::empty(),
            config: None,
            secondary_config: None,
        },
    }
}

/// Finds the last instance of a node among all batches.
fn find_node(batches: &Vec<DrawBatch>, node: NodeId) -> (found: Option<InstanceTransform>)
    ensures
        found == item_of_node(all_items(batch_views(batches@)), node),
{
    let ghost views = batch_views(batches@);
    let mut i: usize = batches.len();
    proof {
        assert(views.take(views.len() as int) =~= views);
    }
    while i > 0
        invariant
            i <= batches.len(),
            views == batch_views(batches@),
            item_of_node(all_items(views), node) == item_of_node(
                all_items(views.take(i as int)),
                node,
            ),
        decreases i,
    {
        let batch = &batches[i - 1];
        let ghost front = all_items(views.take(i - 1));
        let ghost items = super::batching::batch_items(batch@);
        let mut j: usize = batch.instances.len();
        proof {
            let now = views.take(i as int);
            assert(now.drop_last() =~= views.take(i - 1));
            assert(now.last() == batch@);
            assert(items.take(items.len() as int) =~= items);
        }
        while j > 0
            invariant
                j <= batch.instances.len(),
                items == super::batching::batch_items(batch@),
                item_of_node(all_items(views), node) == item_of_node(
                    front + items.take(j as int),
                    node,
                ),
                views == batch_views(batches@),
            decreases j,
        {
            let instance = batch.instances[j - 1];
            proof {
                let now = front + items.take(j as int);
                assert(now.last() == items[j - 1]);
                assert(now.drop_last() =~= front + items.take(j - 1));
            }
            if instance.node_id == node {
                return Some(instance);
            }
            j = j - 1;
        }
        proof {
            assert(front + items.take(0) =~= front);
        }
        i = i - 1;
    }
    proof {
        assert(views.take(0) =~= Seq::empty());
    }
    None
}

/// The draw call for one highlighted element.
fn make_sub_batch(
    scene: &SceneData,
    batches: &Vec<DrawBatch>,
    node: NodeId,
    kind: SubGeometryKind,
    index: u32,
) -> (found: Option<SubGeomBatch>)
    requires
        scene@.ranges_fit(),
    ensures
        found == scene@.sub_batch(
            all_items(batch_views(batches@)),
            (node, SubGeometryElement { kind, index }),
        ),
        found matches Some(b) ==> b.instance_transform.node_id == node && covers_range(
            b,
            kind,
            range_of(scene@, b.mesh_id, SubGeometryElement { kind, index }),
        ),
{
    proof {
        let of = SubGeometryElement { kind, index };
        let items = all_items(batch_views(batches@));
        if scene@.sub_batch(items, (node, of)) is Some {
            highlighted_elements_are_drawn_whole(scene@, items, node, of);
        }
    }
    let placed = match find_node(batches, node) {
        None => {
            return None;
        },
        Some(placed) => placed,
    };
    let mesh_id = match scene.get_instance(placed.instance_id) {
        None => {
            return None;
        },
        Some(instance) => instance.mesh(),
    };
    let mesh = match scene.get_mesh(mesh_id) {
        None => {
            return None;
        },
        Some(mesh) => mesh,
    };
    let topology = match mesh.topology() {
        None => {
            return None;
        },
        Some(topology) => topology,
    };
    let ranges = topology.ranges(kind);
    if (index as usize) < ranges.len() {
        let range = ranges[index as usize];
        let stride: u32 = kind.primitive_type().indices_per_primitive();
        proof {
            let m = scene@;
            assert(range_fits(m.meshes[mesh_id].topology->0.ranges(kind)[index as int], kind));
        }
        Some(
            SubGeomBatch {
                mesh_id,
                instance_transform: placed,
                primitive_type: kind.primitive_type(),
                first_index: range.start * stride,
                index_count: range.count * stride,
            },
        )
    } else {
        None
    }
}

/// Draw calls for highlighted elements, in two tiers.
struct SubGeomHighlights {
    primary: Vec<SubGeomBatch>,
    secondary: Vec<SubGeomBatch>,
}

/// Adds the draw calls for the elements of one kind.
fn collect_kind(
    scene: &SceneData,
    batches: &Vec<DrawBatch>,
    kind: SubGeometryKind,
    of: &Vec<NodeElements>,
    primary: Option<(NodeId, SubGeometryElement)>,
    out: &mut SubGeomHighlights,
    Ghost(done): Ghost<Seq<Element>>,
)
    requires
        scene@.ranges_fit(),
        tiers_of(scene@, all_items(batch_views(batches@)), done, primary, *old(out)),
    ensures
        tiers_of(
            scene@,
            all_items(batch_views(batches@)),
            done + kind_elements(kind, of@),
            primary,
            *final(out),
        ),
{
    let ghost items = all_items(batch_views(batches@));
    let mut i: usize = 0;
    proof {
        assert(of@.take(0) =~= Seq::empty());
        assert(done + kind_elements(kind, of@.take(0)) =~= done);
    }
    while i < of.len()
        invariant
            i <= of.len(),
            scene@.ranges_fit(),
            items == all_items(batch_views(batches@)),
            tiers_of(
                scene@,
                items,
                done + kind_elements(kind, of@.take(i as int)),
                primary,
                *out,
            ),
        decreases of.len() - i,
    {
        let entry = &of[i];
        let ghost front = done + kind_elements(kind, of@.take(i as int));
        let ghost all = node_elements(kind, *entry);
        let mut j: usize = 0;
        proof {
            assert(front + all.take(0) =~= front);
        }
        while j < entry.indices.len()
            invariant
                j <= entry.indices.len(),
                scene@.ranges_fit(),
                items == all_items(batch_views(batches@)),
                all == node_elements(kind, *entry),
                tiers_of(scene@, items, front + all.take(j as int), primary, *out),
            decreases entry.indices.len() - j,
        {
            let index: u32 = entry.indices[j];
            let element = SubGeometryElement { kind, index };
            proof {
                let next = front + all.take(j + 1);
                assert(next.drop_last() =~= front + all.take(j as int));
                assert(next.last() == (entry.node, element));
            }
            if let Some(batch) = make_sub_batch(scene, batches, entry.node, kind, index) {
                let is_primary = match primary {
                    Some((n, e)) => n == entry.node && e == element,
                    None => false,
                };
                if is_primary {
                    out.primary.push(batch);
                } else {
                    out.secondary.push(batch);
                }
            }
            j = j + 1;
        }
        proof {
            let next = of@.take(i + 1);
            assert(next.drop_last() =~= of@.take(i as int));
            assert(next.last() == *entry);
            assert(all.take(all.len() as int) =~= all);
            assert(front + all =~= done + kind_elements(kind, next));
        }
        i = i + 1;
    }
    proof {
        assert(of@.take(of.len() as int) =~= of@);
    }
}

/// Whether the tiers hold the draw calls for the given elements.
spec fn tiers_of(
    m: SceneModel,
    items: Seq<DrawItem>,
    elements: Seq<Element>,
    primary: Option<Element>,
    out: SubGeomHighlights,
) -> bool {
    &&& out.primary@ == m.sub_batches(items, elements, primary, true)
    &&& out.secondary@ == m.sub_batches(items, elements, primary, false)
}

/// Builds sub-geometry draw calls for all highlighted faces, edges, and point sets in
/// the current frame.
///
/// Looks up the topology of the instance's mesh and converts each highlighted index
/// into a [`SubGeomBatch`] targeting that element's index range. The single primary
/// element (whatever its kind) goes into the primary tier; everything else is
/// secondary.
fn collect_highlight_sub_geom_batches(
    batches: &Vec<DrawBatch>,
    scene: &SceneData,
    highlight: &Highlight,
) -> (out: SubGeomHighlights)
    requires
        scene@.ranges_fit(),
    ensures
        tiers_of(
            scene@,
            all_items(batch_views(batches@)),
            highlight.elements(),
            highlight.primary_sub_geometry,
            out,
        ),
{
    let mut out = SubGeomHighlights { primary: Vec::new(), secondary: Vec::new() };
    let primary = highlight.primary_sub_geometry;
    let ghost none = Seq::<Element>::empty();
    let ghost faces = kind_elements(SubGeometryKind::Face, highlight.faces@);
    let ghost edges = kind_elements(SubGeometryKind::Edge, highlight.edges@);
    collect_kind(
        scene,
        batches,
        SubGeometryKind::Face,
        &highlight.faces,
        primary,
        &mut out,
        Ghost(none),
    );
    proof {
        assert(none + faces =~= faces);
    }
    collect_kind(
        scene,
        batches,
        SubGeometryKind::Edge,
        &highlight.edges,
        primary,
        &mut out,
        Ghost(faces),
    );
    collect_kind(
        scene,
        batches,
        SubGeometryKind::Point,
        &highlight.points,
        primary,
        &mut out,
        Ghost(faces + edges),
    );
    out
}

/// The batches of instances that pass a test.
fn select_batches<P: Fn(InstanceTransform) -> bool>(
    batches: &Vec<DrawBatch>,
    predicate: &P,
    Ghost(test): Ghost<spec_fn(InstanceTransform) -> bool>,
) -> (selected: Vec<DrawBatch>)
    requires
        accepts1(*predicate),
        describes1(*predicate, test),
    ensures
        batch_views(selected@) == grouped(kept(all_items(batch_views(batches@)), test)),
{
    let (matched, unmatched) = partition_batches(batches, predicate);
    proof {
        assert(partitioned(
            all_items(batch_views(batches@)),
            test,
            batch_views(matched@),
            batch_views(unmatched@),
        ));
    }
    matched
}

/// Whether a list holds an id.
fn lists_node(ids: &Vec<NodeId>, id: NodeId) -> (yes: bool)
    ensures
        yes == ids@.contains(id),
{
    let mut i: usize = 0;
    while i < ids.len()
        invariant
            i <= ids.len(),
            forall|j: int| 0 <= j < i ==> ids@[j] != id,
        decreases ids.len() - i,
    {
        if ids[i] == id {
            return true;
        }
        i = i + 1;
    }
    false
}

impl DrawData {
    /// Build draw data for the current frame.
    ///
    /// - Walks the scene tree to collect instance transforms
    /// - Groups into batches by mesh, material and primitive
    /// - Sorts for transparency (opaque first, transparent back-to-front)
    /// - Resolves the camera-dependent placement of screen-space instances
    /// - Partitions highlighted instances if a non-empty highlight is provided
    pub fn new<
        F: Fn(Matrix4, Transform) -> Matrix4,
        N: Fn(Matrix4) -> Matrix3,
        L: Fn(Vector3) -> Scalar,
        U: Fn(Vector3) -> Vector3,
        G: Fn(Point3, Matrix4) -> Point3,
        M: Fn(Point3, u64, Point3) -> Scalar,
        E: Fn(DisplayBehavior, Matrix4, PickView) -> Matrix4,
    >(
        scene: &mut SceneData,
        view: PickView,
        highlight: Option<&Highlight>,
        math: &DrawMath<F, N, L, U, G, M, E>,
    ) -> (data: Self)
        requires
            acyclic(old(scene)@.nodes),
            old(scene)@.meshes_fit(),
            old(scene)@.ranges_fit(),
            math.definite(),
        ensures
            exists|collected: Seq<DrawBatchModel>| #[trigger]
                is_batching(
                    old(scene)@,
                    old(scene)@.frame(math.model().frame).instances,
                    collected,
                ) && data@ == draw_data(
                    old(scene)@,
                    collected,
                    view,
                    (match highlight {
                        Some(h) => Some(*h),
                        None => None,
                    }),
                    math.model(),
                ),
            final(scene)@ == old(scene)@.with_nodes(old(scene)@.frame(math.model().frame).nodes),
            old(scene)@.sound() ==> final(scene)@.sound(),
    {
        let ghost m = scene@;
        let ghost model = math.model();
        let mut all = collect_draw_batches(scene, &math.frame);
        let ghost collected = batch_views(all@);
        sort_batches_for_transparency(&mut all, view.camera.eye, &math.gather, &math.measure);
        let ghost sorted = batch_views(all@);
        apply_screen_space_transforms(&mut all, view, &math.effective, &math.frame.normal);
        proof {
            assert(scene@.ranges_fit()) by {
                assert(scene@.meshes == m.meshes);
            }
            assert(batch_views(all@) =~= arranged(collected, view, model));
        }
        let overlay_test = |i: InstanceTransform| -> (yes: bool)
            ensures
                yes == (on_overlay())(i),
            { i.display.layer == RenderLayer::Overlay };
        let (overlay_batches, batches) = partition_batches(&all, &overlay_test);
        proof {
            assert(describes1(overlay_test, on_overlay()));
        }
        let ghost drawn = all_items(batch_views(batches@));
        let active: Option<&Highlight> = match highlight {
            Some(h) => if h.is_empty {
                None
            } else {
                Some(h)
            },
            None => None,
        };
        match active {
            None => {
                let data = DrawData {
                    batches,
                    highlighted_batches: Vec::new(),
                    secondary_highlighted_batches: Vec::new(),
                    overlay_batches,
                    highlight_sub_geom_batches: Vec::new(),
                    secondary_highlight_sub_geom_batches: Vec::new(),
                    highlight_config: None,
                    secondary_highlight_config: None,
                };
                proof {
                    assert(data@ =~= draw_data(
                        m,
                        collected,
                        view,
                        (match highlight {
                            Some(h) => Some(*h),
                            None => None,
                        }),
                        model,
                    ));
                }
                data
            },
            Some(h) => {
                let primary_node = h.primary_outlined_node;
                let primary_test = |i: InstanceTransform| -> (yes: bool)
                    ensures
                        yes == (primary_node == Some(i.node_id)),
                    {
                        match primary_node {
                            Some(n) => n == i.node_id,
                            None => false,
                        }
                    };
                proof {
                    assert(describes1(primary_test, h.primary()));
                }
                let highlighted_batches = select_batches(
                    &batches,
                    &primary_test,
                    Ghost(h.primary()),
                );
                let outlined = &h.outlined_nodes;
                let secondary_test = |i: InstanceTransform| -> (yes: bool)
                    ensures
                        yes == (outlined@.contains(i.node_id) && primary_node != Some(i.node_id)),
                    {
                        lists_node(outlined, i.node_id) && !(match primary_node {
                            Some(n) => n == i.node_id,
                            None => false,
                        })
                    };
                proof {
                    assert(describes1(secondary_test, h.secondary()));
                }
                let secondary_highlighted_batches = select_batches(
                    &batches,
                    &secondary_test,
                    Ghost(h.secondary()),
                );
                let sub_geom = collect_highlight_sub_geom_batches(&batches, scene, h);
                proof {
                    lemma_sub_same(m, scene@, drawn, h.elements(), h.primary_sub_geometry, true);
                    lemma_sub_same(m, scene@, drawn, h.elements(), h.primary_sub_geometry, false);
                }
                let data = DrawData {
                    batches,
                    highlighted_batches,
                    secondary_highlighted_batches,
                    overlay_batches,
                    highlight_sub_geom_batches: sub_geom.primary,
                    secondary_highlight_sub_geom_batches: sub_geom.secondary,
                    highlight_config: Some(h.config),
                    secondary_highlight_config: h.secondary_config,
                };
                proof {
                    assert(data@ =~= draw_data(
                        m,
                        collected,
                        view,
                        (match highlight {
                            Some(h) => Some(*h),
                            None => None,
                        }),
                        model,
                    ));
                }
                data
            },
        }
    }

    /// All batches (opaque, transparent, selected, etc.), sorted for rendering.
    pub fn all_batches(&self) -> (batches: &Vec<DrawBatch>)
        ensures
            batch_views(batches@) == self@.batches,
    {
        &self.batches
    }

    /// Batches containing only the primary highlighted instance, for outline and mask
    /// rendering. Empty if no highlight is active.
    pub fn highlighted_batches(&self) -> (batches: &Vec<DrawBatch>)
        ensures
            batch_views(batches@) == self@.highlighted,
    {
        &self.highlighted_batches
    }

    /// Batches containing secondary (non-primary) highlighted instances. Empty if there
    /// is only one selection or no highlight is active.
    pub fn secondary_highlighted_batches(&self) -> (batches: &Vec<DrawBatch>)
        ensures
            batch_views(batches@) == self@.secondary_highlighted,
    {
        &self.secondary_highlighted_batches
    }

    /// Whether any instances or sub-geometry are highlighted (primary or secondary).
    pub fn has_highlights(&self) -> (yes: bool)
        ensures
            yes == (self@.highlighted.len() > 0 || self@.secondary_highlighted.len() > 0
                || self@.sub_geom.len() > 0 || self@.secondary_sub_geom.len() > 0),
    {
        self.has_node_highlights() || self.has_sub_geom_highlights()
    }

    /// Whether any whole-node outlines need to be drawn (primary or secondary).
    pub fn has_node_highlights(&self) -> (yes: bool)
        ensures
            yes == (self@.highlighted.len() > 0 || self@.secondary_highlighted.len() > 0),
    {
        self.highlighted_batches.len() > 0 || self.secondary_highlighted_batches.len() > 0
    }

    /// Whether any sub-geometry highlights need to be drawn (primary or secondary).
    pub fn has_sub_geom_highlights(&self) -> (yes: bool)
        ensures
            yes == (self@.sub_geom.len() > 0 || self@.secondary_sub_geom.len() > 0),
    {
        self.highlight_sub_geom_batches.len() > 0
            || self.secondary_highlight_sub_geom_batches.len() > 0
    }

    /// Sub-geometry draw calls for primary highlighted faces and edges.
    pub fn highlight_sub_geom_batches(&self) -> (batches: &Vec<SubGeomBatch>)
        ensures
            batches@ == self@.sub_geom,
    {
        &self.highlight_sub_geom_batches
    }

    /// Sub-geometry draw calls for secondary highlighted faces and edges.
    pub fn secondary_highlight_sub_geom_batches(&self) -> (batches: &Vec<SubGeomBatch>)
        ensures
            batches@ == self@.secondary_sub_geom,
    {
        &self.secondary_highlight_sub_geom_batches
    }

    /// Batches on the overlay layer, rendered in a separate overlay pass.
    pub fn overlay_batches(&self) -> (batches: &Vec<DrawBatch>)
        ensures
            batch_views(batches@) == self@.overlay,
    {
        &self.overlay_batches
    }

    /// Whether any overlay (always-on-top) batches exist.
    pub fn has_overlay(&self) -> (yes: bool)
        ensures
            yes == (self@.overlay.len() > 0),
    {
        self.overlay_batches.len() > 0
    }

    /// Outline configuration for the primary selection, or `None` if nothing is
    /// highlighted.
    pub fn highlight_config(&self) -> (config: Option<HighlightConfig>)
        ensures
            config == self@.config,
    {
        self.highlight_config
    }

    /// Outline configuration for secondary selections, or `None` if there are none.
    pub fn secondary_highlight_config(&self) -> (config: Option<HighlightConfig>)
        ensures
            config == self@.secondary_config,
    {
        self.secondary_highlight_config
    }
}

/// Highlights depend on the resources, not on the caches of nodes.
proof fn lemma_sub_same(
    m: SceneModel,
    after: SceneModel,
    items: Seq<DrawItem>,
    elements: Seq<Element>,
    primary: Option<Element>,
    want_primary: bool,
)
    requires
        after == m.with_nodes(after.nodes),
    ensures
        after.sub_batches(items, elements, primary, want_primary) == m.sub_batches(
            items,
            elements,
            primary,
            want_primary,
        ),
    decreases elements.len(),
{
    if elements.len() > 0 {
        lemma_sub_same(m, after, items, elements.drop_last(), primary, want_primary);
        assert(after.sub_batch(items, elements.last()) == m.sub_batch(items, elements.last()));
    }
}

/// Without an active highlight nothing is highlighted, and no outline is configured.
pub proof fn no_highlight_no_outline(
    m: SceneModel,
    collected: Seq<DrawBatchModel>,
    view: PickView,
    highlight: Option<Highlight>,
    math: DrawArithmetic,
)
    requires
        highlight matches Some(h) ==> h.is_empty,
    ensures
        draw_data(m, collected, view, highlight, math).highlighted.len() == 0,
        draw_data(m, collected, view, highlight, math).secondary_highlighted.len() == 0,
        draw_data(m, collected, view, highlight, math).sub_geom.len() == 0,
        draw_data(m, collected, view, highlight, math).secondary_sub_geom.len() == 0,
        draw_data(m, collected, view, highlight, math).config is None,
        draw_data(m, collected, view, highlight, math).secondary_config is None,
{
}

} // verus!
