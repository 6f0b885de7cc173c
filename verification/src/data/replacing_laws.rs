//! Changing what an instance or a material refers to, in place.
//!
//! A reference that was got for changing lets a caller put one handle in the place of
//! another. The handle that is put in must exist outside the scene; it moves in, and the one
//! it replaces moves out to the caller, who can release it.

use super::model::SceneModel;
use super::node_laws::lemma_same_presence;
use super::ownership::{
    face_refs, instance_refs, lemma_count_append, lemma_total_insert, line_refs, point_refs,
};
use crate::resource::handle::{count_core, GenericId, Handle, NodeId, ResourceKind};
use crate::resource::instance::InstanceParts;
use crate::resource::material::{opt_seq, FaceMaterialParts, LineMaterialParts, PointMaterialParts};
use vstd::prelude::*;

verus! {

impl SceneModel {
    /// After an instance was changed in place.
    pub open spec fn with_instance(self, id: GenericId, instance: InstanceParts) -> SceneModel {
        SceneModel { instances: self.instances.insert(id, instance), ..self }
    }

    /// After a face material was changed in place.
    pub open spec fn with_face(self, id: GenericId, material: FaceMaterialParts) -> SceneModel {
        SceneModel { face_materials: self.face_materials.insert(id, material), ..self }
    }

    /// After a line material was changed in place.
    pub open spec fn with_line(self, id: GenericId, material: LineMaterialParts) -> SceneModel {
        SceneModel { line_materials: self.line_materials.insert(id, material), ..self }
    }

    /// After a point material was changed in place.
    pub open spec fn with_point(self, id: GenericId, material: PointMaterialParts) -> SceneModel {
        SceneModel { point_materials: self.point_materials.insert(id, material), ..self }
    }
}

/// Whether a scene is sound, and differs from `m` in who holds handles only: those of `put`
/// moved in, those of `taken` moved out.
pub open spec fn exchanged(
    m: SceneModel,
    after: SceneModel,
    put: Seq<Handle>,
    taken: Seq<Handle>,
) -> bool {
    &&& after.sound()
    &&& after.ledger == m.ledger
    &&& forall|c: u64| #[trigger]
        after.outside(c) == m.outside(c) - count_core(put, c) + count_core(taken, c)
}

/// Whether one list of handles is another with those of `put` for those of `taken`.
pub open spec fn swapped(
    old_handles: Seq<Handle>,
    new_handles: Seq<Handle>,
    put: Seq<Handle>,
    taken: Seq<Handle>,
) -> bool {
    forall|c: u64| #[trigger]
        count_core(new_handles, c) + count_core(taken, c) == count_core(old_handles, c)
            + count_core(put, c)
}

proof fn lemma_exchanged(
    m: SceneModel,
    after: SceneModel,
    put: Seq<Handle>,
    taken: Seq<Handle>,
)
    requires
        m.sound(),
        m.holds_outside(put),
        after.wf(),
        after.ledger == m.ledger,
        after.nodes == m.nodes,
        after.roots == m.roots,
        forall|kind: ResourceKind, id: GenericId| #[trigger]
            after.present(kind, id) <==> m.present(kind, id),
        forall|c: u64| #[trigger]
            after.refs(c) + count_core(taken, c) == m.refs(c) + count_core(put, c),
    ensures
        exchanged(m, after, put, taken),
{
    assert(after.counted()) by {
        assert forall|c: u64| #[trigger] after.refs(c) <= after.ledger.strong(c) by {
            assert(m.refs(c) + count_core(put, c) <= m.ledger.strong(c));
        }
    }
    assert(after.tree_handles()) by {
        assert forall|i: int| 0 <= i < after.roots.len() implies after.names_node(
            #[trigger] after.roots[i],
        ) by {
            assert(m.names_node(m.roots[i]));
        }
        assert forall|k: NodeId, i: int|
            after.nodes.contains_key(k) && 0 <= i
                < after.nodes[k].children.len() implies after.names_node(
            #[trigger] after.nodes[k].children[i],
        ) by {
            assert(m.names_node(m.nodes[k].children[i]));
        }
    }
    lemma_same_presence(m, after);
    assert forall|c: u64| #[trigger] after.outside(c) == m.outside(c) - count_core(put, c)
        + count_core(taken, c) by {
        assert(after.refs(c) + count_core(taken, c) == m.refs(c) + count_core(put, c));
    }
}

/// An instance may be changed in place as long as every handle that is new to it exists
/// outside the scene: the scene stays sound, and what the instance no longer holds is
/// outside.
pub proof fn changing_an_instance_keeps_sound(
    m: SceneModel,
    id: GenericId,
    instance: InstanceParts,
    put: Seq<Handle>,
    taken: Seq<Handle>,
)
    requires
        m.sound(),
        m.instances.contains_key(id),
        m.holds_outside(put),
        swapped(m.instances[id].handles(), instance.handles(), put, taken),
    ensures
        exchanged(m, m.with_instance(id, instance), put, taken),
{
    let after = m.with_instance(id, instance);
    assert(after.instances.dom() =~= m.instances.dom());
    assert forall|c: u64| #[trigger] after.refs(c) + count_core(taken, c) == m.refs(c)
        + count_core(put, c) by {
        lemma_total_insert(m.instances, instance_refs(c), id, instance);
        assert(count_core(instance.handles(), c) + count_core(taken, c) == count_core(
            m.instances[id].handles(),
            c,
        ) + count_core(put, c));
    }
    lemma_exchanged(m, after, put, taken);
}

/// The same of a face material.
pub proof fn changing_a_face_material_keeps_sound(
    m: SceneModel,
    id: GenericId,
    material: FaceMaterialParts,
    put: Seq<Handle>,
    taken: Seq<Handle>,
)
    requires
        m.sound(),
        m.face_materials.contains_key(id),
        m.holds_outside(put),
        swapped(m.face_materials[id].handles(), material.handles(), put, taken),
    ensures
        exchanged(m, m.with_face(id, material), put, taken),
{
    let after = m.with_face(id, material);
    assert(after.face_materials.dom() =~= m.face_materials.dom());
    assert forall|c: u64| #[trigger] after.refs(c) + count_core(taken, c) == m.refs(c)
        + count_core(put, c) by {
        lemma_total_insert(m.face_materials, face_refs(c), id, material);
        assert(count_core(material.handles(), c) + count_core(taken, c) == count_core(
            m.face_materials[id].handles(),
            c,
        ) + count_core(put, c));
    }
    lemma_exchanged(m, after, put, taken);
}

/// The same of a line material.
pub proof fn changing_a_line_material_keeps_sound(
    m: SceneModel,
    id: GenericId,
    material: LineMaterialParts,
    put: Seq<Handle>,
    taken: Seq<Handle>,
)
    requires
        m.sound(),
        m.line_materials.contains_key(id),
        m.holds_outside(put),
        swapped(m.line_materials[id].handles(), material.handles(), put, taken),
    ensures
        exchanged(m, m.with_line(id, material), put, taken),
{
    let after = m.with_line(id, material);
    assert(after.line_materials.dom() =~= m.line_materials.dom());
    assert forall|c: u64| #[trigger] after.refs(c) + count_core(taken, c) == m.refs(c)
        + count_core(put, c) by {
        lemma_total_insert(m.line_materials, line_refs(c), id, material);
        assert(count_core(material.handles(), c) + count_core(taken, c) == count_core(
            m.line_materials[id].handles(),
            c,
        ) + count_core(put, c));
    }
    lemma_exchanged(m, after, put, taken);
}

/// The same of a point material.
pub proof fn changing_a_point_material_keeps_sound(
    m: SceneModel,
    id: GenericId,
    material: PointMaterialParts,
    put: Seq<Handle>,
    taken: Seq<Handle>,
)
    requires
        m.sound(),
        m.point_materials.contains_key(id),
        m.holds_outside(put),
        swapped(m.point_materials[id].handles(), material.handles(), put, taken),
    ensures
        exchanged(m, m.with_point(id, material), put, taken),
{
    let after = m.with_point(id, material);
    assert(after.point_materials.dom() =~= m.point_materials.dom());
    assert forall|c: u64| #[trigger] after.refs(c) + count_core(taken, c) == m.refs(c)
        + count_core(put, c) by {
        lemma_total_insert(m.point_materials, point_refs(c), id, material);
        assert(count_core(material.handles(), c) + count_core(taken, c) == count_core(
            m.point_materials[id].handles(),
            c,
        ) + count_core(put, c));
    }
    lemma_exchanged(m, after, put, taken);
}

/// How many of the handles that an instance owns count on a core, slot by slot.
proof fn lemma_instance_count(x: InstanceParts, c: u64)
    ensures
        count_core(x.handles(), c) == count_core(seq![x.mesh], c) + count_core(
            opt_seq(x.face_material),
            c,
        ) + count_core(opt_seq(x.line_material), c) + count_core(opt_seq(x.point_material), c),
{
    let a = seq![x.mesh];
    let b = opt_seq(x.face_material);
    let d = opt_seq(x.line_material);
    lemma_count_append(a, b, c);
    lemma_count_append(a + b, d, c);
    lemma_count_append(a + b + d, opt_seq(x.point_material), c);
}

/// How many of the handles that a face material owns count on a core, slot by slot.
proof fn lemma_face_count(x: FaceMaterialParts, c: u64)
    ensures
        count_core(x.handles(), c) == count_core(opt_seq(x.base_color_texture), c) + count_core(
            opt_seq(x.normal_texture),
            c,
        ) + count_core(opt_seq(x.metallic_roughness_texture), c),
{
    let a = opt_seq(x.base_color_texture);
    let b = opt_seq(x.normal_texture);
    lemma_count_append(a, b, c);
    lemma_count_append(a + b, opt_seq(x.metallic_roughness_texture), c);
}

/// Setting the mesh of a stored instance to one that exists outside the scene keeps the
/// scene sound, and hands the replaced handle to the caller.
pub proof fn set_mesh_keeps_sound(m: SceneModel, id: GenericId, mesh: Handle)
    requires
        m.sound(),
        m.instances.contains_key(id),
        m.holds_outside(seq![mesh]),
    ensures
        exchanged(
            m,
            m.with_instance(id, (InstanceParts { mesh, ..m.instances[id] })),
            seq![mesh],
            seq![m.instances[id].mesh],
        ),
{
    let x = m.instances[id];
    let y = InstanceParts { mesh, ..x };
    assert(swapped(x.handles(), y.handles(), seq![mesh], seq![x.mesh])) by {
        assert forall|c: u64| #[trigger] count_core(y.handles(), c) + count_core(seq![x.mesh], c)
            == count_core(x.handles(), c) + count_core(seq![mesh], c) by {
            lemma_instance_count(x, c);
            lemma_instance_count(y, c);
        }
    }
    changing_an_instance_keeps_sound(m, id, y, seq![mesh], seq![x.mesh]);
}

/// Setting or clearing a material of a stored instance keeps the scene sound, when the new
/// handle exists outside the scene, and hands the replaced handle to the caller.
pub proof fn set_material_keeps_sound(m: SceneModel, id: GenericId, material: Option<Handle>)
    requires
        m.sound(),
        m.instances.contains_key(id),
        m.holds_outside(opt_seq(material)),
    ensures
        exchanged(
            m,
            m.with_instance(id, (InstanceParts { face_material: material, ..m.instances[id] })),
            opt_seq(material),
            opt_seq(m.instances[id].face_material),
        ),
        exchanged(
            m,
            m.with_instance(id, (InstanceParts { line_material: material, ..m.instances[id] })),
            opt_seq(material),
            opt_seq(m.instances[id].line_material),
        ),
        exchanged(
            m,
            m.with_instance(id, (InstanceParts { point_material: material, ..m.instances[id] })),
            opt_seq(material),
            opt_seq(m.instances[id].point_material),
        ),
{
    let x = m.instances[id];
    let put = opt_seq(material);
    let face = InstanceParts { face_material: material, ..x };
    let line = InstanceParts { line_material: material, ..x };
    let point = InstanceParts { point_material: material, ..x };
    assert forall|c: u64| #[trigger] count_core(face.handles(), c) + count_core(
        opt_seq(x.face_material),
        c,
    ) == count_core(x.handles(), c) + count_core(put, c) by {
        lemma_instance_count(x, c);
        lemma_instance_count(face, c);
    }
    assert forall|c: u64| #[trigger] count_core(line.handles(), c) + count_core(
        opt_seq(x.line_material),
        c,
    ) == count_core(x.handles(), c) + count_core(put, c) by {
        lemma_instance_count(x, c);
        lemma_instance_count(line, c);
    }
    assert forall|c: u64| #[trigger] count_core(point.handles(), c) + count_core(
        opt_seq(x.point_material),
        c,
    ) == count_core(x.handles(), c) + count_core(put, c) by {
        lemma_instance_count(x, c);
        lemma_instance_count(point, c);
    }
    changing_an_instance_keeps_sound(m, id, face, put, opt_seq(x.face_material));
    changing_an_instance_keeps_sound(m, id, line, put, opt_seq(x.line_material));
    changing_an_instance_keeps_sound(m, id, point, put, opt_seq(x.point_material));
}

/// Setting or clearing a texture of a stored face material keeps the scene sound, when the
/// new handle exists outside the scene, and hands the replaced handle to the caller. The
/// material's generation does not matter to it.
pub proof fn set_face_texture_keeps_sound(
    m: SceneModel,
    id: GenericId,
    texture: Option<Handle>,
    generation: u64,
)
    requires
        m.sound(),
        m.face_materials.contains_key(id),
        m.holds_outside(opt_seq(texture)),
    ensures
        exchanged(
            m,
            m.with_face(
                id,
                (FaceMaterialParts { base_color_texture: texture, generation, ..m.face_materials[id] }),
            ),
            opt_seq(texture),
            opt_seq(m.face_materials[id].base_color_texture),
        ),
        exchanged(
            m,
            m.with_face(
                id,
                (FaceMaterialParts { normal_texture: texture, generation, ..m.face_materials[id] }),
            ),
            opt_seq(texture),
            opt_seq(m.face_materials[id].normal_texture),
        ),
        exchanged(
            m,
            m.with_face(
                id,
                (FaceMaterialParts {
                    metallic_roughness_texture: texture,
                    generation,
                    ..m.face_materials[id]
                }),
            ),
            opt_seq(texture),
            opt_seq(m.face_materials[id].metallic_roughness_texture),
        ),
{
    let x = m.face_materials[id];
    let put = opt_seq(texture);
    let color = FaceMaterialParts { base_color_texture: texture, generation, ..x };
    let normal = FaceMaterialParts { normal_texture: texture, generation, ..x };
    let rough = FaceMaterialParts { metallic_roughness_texture: texture, generation, ..x };
    assert forall|c: u64| #[trigger] count_core(color.handles(), c) + count_core(
        opt_seq(x.base_color_texture),
        c,
    ) == count_core(x.handles(), c) + count_core(put, c) by {
        lemma_face_count(x, c);
        lemma_face_count(color, c);
    }
    assert forall|c: u64| #[trigger] count_core(normal.handles(), c) + count_core(
        opt_seq(x.normal_texture),
        c,
    ) == count_core(x.handles(), c) + count_core(put, c) by {
        lemma_face_count(x, c);
        lemma_face_count(normal, c);
    }
    assert forall|c: u64| #[trigger] count_core(rough.handles(), c) + count_core(
        opt_seq(x.metallic_roughness_texture),
        c,
    ) == count_core(x.handles(), c) + count_core(put, c) by {
        lemma_face_count(x, c);
        lemma_face_count(rough, c);
    }
    changing_a_face_material_keeps_sound(m, id, color, put, opt_seq(x.base_color_texture));
    changing_a_face_material_keeps_sound(m, id, normal, put, opt_seq(x.normal_texture));
    changing_a_face_material_keeps_sound(m, id, rough, put, opt_seq(x.metallic_roughness_texture));
}

/// The same of a stored line material.
pub proof fn set_line_texture_keeps_sound(
    m: SceneModel,
    id: GenericId,
    texture: Option<Handle>,
    generation: u64,
)
    requires
        m.sound(),
        m.line_materials.contains_key(id),
        m.holds_outside(opt_seq(texture)),
    ensures
        exchanged(
            m,
            m.with_line(
                id,
                (LineMaterialParts { base_color_texture: texture, generation, ..m.line_materials[id] }),
            ),
            opt_seq(texture),
            opt_seq(m.line_materials[id].base_color_texture),
        ),
{
    let x = m.line_materials[id];
    let y = LineMaterialParts { base_color_texture: texture, generation, ..x };
    changing_a_line_material_keeps_sound(
        m,
        id,
        y,
        opt_seq(texture),
        opt_seq(x.base_color_texture),
    );
}

/// The same of a stored point material.
pub proof fn set_point_texture_keeps_sound(
    m: SceneModel,
    id: GenericId,
    texture: Option<Handle>,
    generation: u64,
)
    requires
        m.sound(),
        m.point_materials.contains_key(id),
        m.holds_outside(opt_seq(texture)),
    ensures
        exchanged(
            m,
            m.with_point(
                id,
                (PointMaterialParts { base_color_texture: texture, generation, ..m.point_materials[id] }),
            ),
            opt_seq(texture),
            opt_seq(m.point_materials[id].base_color_texture),
        ),
{
    let x = m.point_materials[id];
    let y = PointMaterialParts { base_color_texture: texture, generation, ..x };
    changing_a_point_material_keeps_sound(
        m,
        id,
        y,
        opt_seq(texture),
        opt_seq(x.base_color_texture),
    );
}

/// A change in place that leaves the handles of a resource alone keeps a scene sound, and
/// moves no handle: factors, colors, modes and flags are free.
pub proof fn other_changes_in_place_keep_sound(
    m: SceneModel,
    id: GenericId,
    instance: InstanceParts,
    face: FaceMaterialParts,
    line: LineMaterialParts,
    point: PointMaterialParts,
)
    requires
        m.sound(),
    ensures
        m.instances.contains_key(id) && instance.handles() == m.instances[id].handles()
            ==> exchanged(m, m.with_instance(id, instance), Seq::empty(), Seq::empty()),
        m.face_materials.contains_key(id) && face.handles() == m.face_materials[id].handles()
            ==> exchanged(m, m.with_face(id, face), Seq::empty(), Seq::empty()),
        m.line_materials.contains_key(id) && line.handles() == m.line_materials[id].handles()
            ==> exchanged(m, m.with_line(id, line), Seq::empty(), Seq::empty()),
        m.point_materials.contains_key(id) && point.handles() == m.point_materials[id].handles()
            ==> exchanged(m, m.with_point(id, point), Seq::empty(), Seq::empty()),
{
    let none = Seq::<Handle>::empty();
    assert(m.holds_outside(none)) by {
        assert forall|c: u64| #[trigger] m.refs(c) + count_core(none, c) <= m.ledger.strong(c) by {
            assert(m.refs(c) <= m.ledger.strong(c));
        }
    }
    if m.instances.contains_key(id) && instance.handles() == m.instances[id].handles() {
        changing_an_instance_keeps_sound(m, id, instance, none, none);
    }
    if m.face_materials.contains_key(id) && face.handles() == m.face_materials[id].handles() {
        changing_a_face_material_keeps_sound(m, id, face, none, none);
    }
    if m.line_materials.contains_key(id) && line.handles() == m.line_materials[id].handles() {
        changing_a_line_material_keeps_sound(m, id, line, none, none);
    }
    if m.point_materials.contains_key(id) && point.handles() == m.point_materials[id].handles() {
        changing_a_point_material_keeps_sound(m, id, point, none, none);
    }
}

} // verus!
