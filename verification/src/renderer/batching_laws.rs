//! What batches are for: every instance that can be drawn stands in the batch of its mesh
//! and material, once for each kind of primitive, and partitioning takes batches apart
//! without mixing them.

use crate::data::model::SceneModel;
use crate::renderer::batching::{
    all_items, batch_items, batch_position, grouped, grouping_keeps_every_instance,
    instances_with, is_batching, kept, keys_distinct, lemma_position, lemma_position_at, negation,
    opt_item, partitioned, with_item, BatchKey, BatchMaterial, DrawBatchModel, DrawItem,
};
use crate::renderer::frame::InstanceTransform;
use crate::resource::material::AlphaMode;
use crate::resource::mesh::PrimitiveType;
use vstd::prelude::*;
use vstd::seq_lib::group_to_multiset_ensures;

verus! {

/// The part of a batch whose instances pass a test.
pub open spec fn part_of(
    batch: DrawBatchModel,
    test: spec_fn(InstanceTransform) -> bool,
) -> DrawBatchModel {
    DrawBatchModel { instances: batch.instances.filter(test), ..batch }
}

/// The parts of batches whose instances pass a test, without those that have none.
pub open spec fn parts_of(
    batches: Seq<DrawBatchModel>,
    test: spec_fn(InstanceTransform) -> bool,
) -> Seq<DrawBatchModel> {
    batches.map_values(|b: DrawBatchModel| part_of(b, test)).filter(
        |b: DrawBatchModel| b.instances.len() > 0,
    )
}

proof fn lemma_kept_of_batch(batch: DrawBatchModel, test: spec_fn(InstanceTransform) -> bool)
    ensures
        kept(batch_items(batch), test) == batch_items(part_of(batch, test)),
    decreases batch.instances.len(),
{
    reveal(Seq::filter);
    let items = batch_items(batch);
    if batch.instances.len() > 0 {
        let less = DrawBatchModel { instances: batch.instances.drop_last(), ..batch };
        lemma_kept_of_batch(less, test);
        assert(items.drop_last() =~= batch_items(less));
        assert(items.last().instance == batch.instances.last());
        assert(kept(items, test) =~= batch_items(part_of(batch, test)));
    } else {
        assert(kept(items, test) =~= batch_items(part_of(batch, test)));
    }
}

proof fn lemma_kept_add(
    a: Seq<DrawItem>,
    b: Seq<DrawItem>,
    test: spec_fn(InstanceTransform) -> bool,
)
    ensures
        kept(a + b, test) == kept(a, test) + kept(b, test),
    decreases b.len(),
{
    if b.len() > 0 {
        lemma_kept_add(a, b.drop_last(), test);
        assert((a + b).drop_last() =~= a + b.drop_last());
        assert((a + b).last() == b.last());
        assert(kept(a + b, test) =~= kept(a, test) + kept(b, test));
    } else {
        assert(a + b =~= a);
        assert(kept(a + b, test) =~= kept(a, test) + kept(b, test));
    }
}

/// The items of a batch with a new key make that batch.
proof fn lemma_group_new(items: Seq<DrawItem>, b: DrawBatchModel)
    requires
        forall|i: int| 0 <= i < grouped(items).len() ==> (#[trigger] grouped(items)[i]).key()
            != b.key(),
    ensures
        grouped(items + batch_items(b)) == (if b.instances.len() == 0 {
            grouped(items)
        } else {
            grouped(items).push(b)
        }),
    decreases b.instances.len(),
{
    let was = grouped(items);
    if b.instances.len() == 0 {
        assert(items + batch_items(b) =~= items);
    } else {
        let less = DrawBatchModel { instances: b.instances.drop_last(), ..b };
        lemma_group_new(items, less);
        let all = items + batch_items(b);
        let item = all.last();
        assert(all.drop_last() =~= items + batch_items(less));
        assert(item.key == b.key() && item.instance == b.instances.last());
        if less.instances.len() == 0 {
            lemma_position_at(was, b.key(), was.len() as int);
            assert(item.alone().instances =~= b.instances);
            assert(item.alone() == b);
        } else {
            let grown = was.push(less);
            assert forall|j: int| 0 <= j < was.len() implies (#[trigger] grown[j]).key()
                != b.key() by {
                assert(grown[j] == was[j]);
            }
            lemma_position_at(grown, b.key(), was.len() as int);
            assert(less.instances.push(item.instance) =~= b.instances);
            assert(with_item(grown, item) =~= was.push(b));
        }
    }
}

/// Partitioning keeps batches as they are, mesh, material, primitives and all, and in
/// their order: each comes out with those of its instances that pass the test, in their
/// order, and a batch of which nothing is left does not come out.
pub proof fn partition_keeps_batches(
    batches: Seq<DrawBatchModel>,
    test: spec_fn(InstanceTransform) -> bool,
)
    requires
        keys_distinct(batches),
    ensures
        grouped(kept(all_items(batches), test)) == parts_of(batches, test),
        keys_distinct(parts_of(batches, test)),
    decreases batches.len(),
{
    reveal(Seq::filter);
    let some = |b: DrawBatchModel| b.instances.len() > 0;
    let part = |b: DrawBatchModel| part_of(b, test);
    let parts = batches.map_values(part);
    grouping_keeps_every_instance(kept(all_items(batches), test));
    if batches.len() == 0 {
        assert(parts.filter(some) =~= Seq::empty());
    } else {
        let front = batches.drop_last();
        let last = batches.last();
        assert(keys_distinct(front)) by {
            assert forall|i: int, j: int|
                #![trigger front[i], front[j]]
                0 <= i < j < front.len() implies front[i].key() != front[j].key() by {
                assert(front[i] == batches[i] && front[j] == batches[j]);
            }
        }
        partition_keeps_batches(front, test);
        assert(parts.drop_last() =~= front.map_values(part));
        assert(parts.last() == part(last));
        lemma_kept_add(all_items(front), batch_items(last), test);
        lemma_kept_of_batch(last, test);
        let before = kept(all_items(front), test);
        assert forall|i: int| 0 <= i < grouped(before).len() implies (
        #[trigger] grouped(before)[i]).key() != part(last).key() by {
            let was = front.map_values(part);
            assert(was.filter(some).contains(was.filter(some)[i]));
            was.lemma_filter_contains_rev(some, was.filter(some)[i]);
            let k = choose|k: int| 0 <= k < was.len() && was[k] == was.filter(some)[i];
            assert(batches[k].key() != batches[batches.len() - 1].key());
        }
        lemma_group_new(before, part(last));
    }
}

/// Whether an instance shows a mesh with a material: the mesh and the material are those
/// of the instance, both are in the scene, and the mesh has primitives of the kind that
/// the material is for.
pub open spec fn draws(m: SceneModel, placed: InstanceTransform, key: BatchKey) -> bool {
    let instance = m.instances[placed.instance_id];
    let lists = m.meshes[key.mesh_id].primitives;
    &&& m.instances.contains_key(placed.instance_id)
    &&& instance.mesh.id == key.mesh_id
    &&& m.meshes.contains_key(key.mesh_id)
    &&& match key.material {
        BatchMaterial::Face(id) => {
            &&& instance.face_material is Some && instance.face_material->0.id == id
            &&& m.face_materials.contains_key(id)
            &&& exists|i: int|
                0 <= i < lists.len() && (#[trigger] lists[i]).primitive_type
                    == PrimitiveType::TriangleList
        },
        BatchMaterial::Line(id) => {
            &&& instance.line_material is Some && instance.line_material->0.id == id
            &&& m.line_materials.contains_key(id)
            &&& exists|i: int|
                0 <= i < lists.len() && (#[trigger] lists[i]).primitive_type
                    == PrimitiveType::LineList
        },
        BatchMaterial::Point(id) => {
            &&& instance.point_material is Some && instance.point_material->0.id == id
            &&& m.point_materials.contains_key(id)
            &&& exists|i: int|
                0 <= i < lists.len() && (#[trigger] lists[i]).primitive_type
                    == PrimitiveType::PointList
        },
    }
}

/// Whether a batch is set up for its mesh and material: with the primitives that the
/// material is for, the properties of the material, and all indices of those primitives.
pub open spec fn set_up(m: SceneModel, b: DrawBatchModel) -> bool {
    &&& match b.material {
        BatchMaterial::Face(id) => {
            &&& b.primitive_type == PrimitiveType::TriangleList
            &&& b.material_props == m.face_materials[id].properties_spec()
        },
        BatchMaterial::Line(id) => {
            &&& b.primitive_type == PrimitiveType::LineList
            &&& b.material_props == m.line_materials[id].properties_spec()
        },
        BatchMaterial::Point(id) => {
            &&& b.primitive_type == PrimitiveType::PointList
            &&& b.material_props == m.point_materials[id].properties_spec()
        },
    }
    &&& b.index_count == m.meshes[b.mesh_id].index_total(b.primitive_type)
}

proof fn lemma_with_add(a: Seq<DrawItem>, b: Seq<DrawItem>, key: BatchKey)
    ensures
        instances_with(a + b, key) == instances_with(a, key) + instances_with(b, key),
    decreases b.len(),
{
    if b.len() > 0 {
        lemma_with_add(a, b.drop_last(), key);
        assert((a + b).drop_last() =~= a + b.drop_last());
        assert((a + b).last() == b.last());
        assert(instances_with(a + b, key) =~= instances_with(a, key) + instances_with(b, key));
    } else {
        assert(a + b =~= a);
        assert(instances_with(a + b, key) =~= instances_with(a, key) + instances_with(b, key));
    }
}

proof fn lemma_with_opt(item: Option<DrawItem>, key: BatchKey)
    ensures
        instances_with(opt_item(item), key) == (if item is Some && item->0.key == key {
            seq![item->0.instance]
        } else {
            Seq::empty()
        }),
{
    reveal_with_fuel(instances_with, 2);
    if item is Some {
        assert(opt_item(item).drop_last() =~= Seq::empty());
        assert(instances_with(Seq::empty(), key) =~= Seq::empty());
        assert(instances_with(opt_item(item), key) =~= (if item->0.key == key {
            seq![item->0.instance]
        } else {
            Seq::empty()
        }));
    }
}

proof fn lemma_with_instance(m: SceneModel, placed: InstanceTransform, key: BatchKey)
    ensures
        instances_with(m.instance_items(placed), key) == (if draws(m, placed, key) {
            seq![placed]
        } else {
            Seq::empty()
        }),
{
    let faces = m.draw_item(placed, PrimitiveType::TriangleList);
    let lines = m.draw_item(placed, PrimitiveType::LineList);
    let points = m.draw_item(placed, PrimitiveType::PointList);
    lemma_with_opt(faces, key);
    lemma_with_opt(lines, key);
    lemma_with_opt(points, key);
    lemma_with_add(opt_item(faces), opt_item(lines), key);
    lemma_with_add(opt_item(faces) + opt_item(lines), opt_item(points), key);
    assert(instances_with(m.instance_items(placed), key) =~= (if draws(m, placed, key) {
        seq![placed]
    } else {
        Seq::empty()
    }));
}

proof fn lemma_with_filter(m: SceneModel, instances: Seq<InstanceTransform>, key: BatchKey)
    ensures
        instances_with(m.draw_items(instances), key) == instances.filter(
            |i: InstanceTransform| draws(m, i, key),
        ),
    decreases instances.len(),
{
    reveal(Seq::filter);
    let test = |i: InstanceTransform| draws(m, i, key);
    if instances.len() > 0 {
        let front = instances.drop_last();
        lemma_with_filter(m, front, key);
        lemma_with_instance(m, instances.last(), key);
        lemma_with_add(m.draw_items(front), m.instance_items(instances.last()), key);
        assert(instances_with(m.draw_items(instances), key) =~= instances.filter(test));
    } else {
        assert(instances_with(m.draw_items(instances), key) =~= instances.filter(test));
    }
}

/// Every batch takes what its instances share from one of its items.
proof fn lemma_grouped_from(items: Seq<DrawItem>, i: int)
    requires
        0 <= i < grouped(items).len(),
    ensures
        exists|k: int|
            0 <= k < items.len() && (#[trigger] items[k]).key == grouped(items)[i].key()
                && items[k].material_props == grouped(items)[i].material_props
                && items[k].primitive_type == grouped(items)[i].primitive_type
                && items[k].index_count == grouped(items)[i].index_count,
    decreases items.len(),
{
    let front = items.drop_last();
    let was = grouped(front);
    lemma_position(was, items.last().key);
    if i < was.len() {
        lemma_grouped_from(front, i);
        let k = choose|k: int|
            0 <= k < front.len() && (#[trigger] front[k]).key == was[i].key()
                && front[k].material_props == was[i].material_props && front[k].primitive_type
                == was[i].primitive_type && front[k].index_count == was[i].index_count;
        assert(items[k] == front[k]);
    } else {
        assert(items[items.len() - 1] == items.last());
    }
}

proof fn lemma_item_set_up(m: SceneModel, instances: Seq<InstanceTransform>, k: int)
    requires
        m.meshes_fit(),
        0 <= k < m.draw_items(instances).len(),
    ensures
        set_up(m, m.draw_items(instances)[k].alone()),
    decreases instances.len(),
{
    let front = m.draw_items(instances.drop_last());
    if k < front.len() {
        lemma_item_set_up(m, instances.drop_last(), k);
    } else {
        let own = m.instance_items(instances.last());
        let faces = m.draw_item(instances.last(), PrimitiveType::TriangleList);
        let lines = m.draw_item(instances.last(), PrimitiveType::LineList);
        let points = m.draw_item(instances.last(), PrimitiveType::PointList);
        let item = own[k - front.len()];
        assert(m.draw_items(instances)[k] == item);
        assert(Some(item) == faces || Some(item) == lines || Some(item) == points);
        let mesh = m.meshes[item.key.mesh_id];
        assert(mesh.index_total(item.primitive_type) <= u32::MAX);
    }
}

/// The batches of a frame: each is set up for its mesh and material and holds exactly
/// those instances, in order, that show its mesh with its material. There is one for
/// every mesh and material that some instance shows, and no other.
pub proof fn batches_hold_what_is_shown(
    m: SceneModel,
    instances: Seq<InstanceTransform>,
    batches: Seq<DrawBatchModel>,
)
    requires
        m.meshes_fit(),
        is_batching(m, instances, batches),
    ensures
        forall|i: int|
            0 <= i < batches.len() ==> {
                let b = #[trigger] batches[i];
                &&& set_up(m, b)
                &&& b.instances.len() > 0
                &&& b.instances == instances.filter(
                    |placed: InstanceTransform|
                        draws(m, placed, BatchKey { mesh_id: b.mesh_id, material: b.material }),
                )
            },
        forall|k: int, key: BatchKey|
            0 <= k < instances.len() && #[trigger] draws(m, instances[k], key) ==> exists|i: int|
                0 <= i < batches.len() && (#[trigger] batches[i]).mesh_id == key.mesh_id
                    && batches[i].material == key.material,
        keys_distinct(batches),
{
    broadcast use group_to_multiset_ensures;

    let items = m.draw_items(instances);
    let groups = grouped(items);
    grouping_keeps_every_instance(items);
    assert forall|i: int| 0 <= i < batches.len() implies {
        let b = #[trigger] batches[i];
        &&& set_up(m, b)
        &&& b.instances.len() > 0
        &&& b.instances == instances.filter(
            |placed: InstanceTransform|
                draws(m, placed, BatchKey { mesh_id: b.mesh_id, material: b.material }),
        )
    } by {
        let b = batches[i];
        assert(batches.contains(b));
        assert(batches.to_multiset().count(b) > 0);
        assert(groups.contains(b));
        let g = choose|g: int| 0 <= g < groups.len() && groups[g] == b;
        lemma_grouped_from(items, g);
        let k = choose|k: int|
            0 <= k < items.len() && (#[trigger] items[k]).key == b.key()
                && items[k].material_props == b.material_props && items[k].primitive_type
                == b.primitive_type && items[k].index_count == b.index_count;
        lemma_item_set_up(m, instances, k);
        lemma_with_filter(m, instances, b.key());
    }
    assert forall|k: int, key: BatchKey|
        0 <= k < instances.len() && #[trigger] draws(m, instances[k], key) implies exists|i: int|
        0 <= i < batches.len() && (#[trigger] batches[i]).mesh_id == key.mesh_id
            && batches[i].material == key.material by {
        lemma_with_filter(m, instances, key);
        let test = |placed: InstanceTransform| draws(m, placed, key);
        assert(test(instances[k]));
        instances.lemma_filter_contains(test, k);
        assert(instances.filter(test).contains(instances[k]));
        assert(instances_with(items, key).len() > 0);
        lemma_some_item(items, key);
        let n = choose|n: int| 0 <= n < items.len() && (#[trigger] items[n]).key == key;
        lemma_position(groups, items[n].key);
        let g = batch_position(groups, key);
        assert(groups[g].key() == key);
        assert(groups.contains(groups[g]));
        assert(groups.to_multiset().count(groups[g]) > 0);
        assert(batches.contains(groups[g]));
        let i = choose|i: int| 0 <= i < batches.len() && batches[i] == groups[g];
        assert(batches[i].mesh_id == key.mesh_id && batches[i].material == key.material);
    }
    assert(keys_distinct(batches)) by {
        assert forall|i: int, j: int|
            #![trigger batches[i], batches[j]]
            0 <= i < j < batches.len() implies batches[i].key() != batches[j].key() by {
            assert(batches[i].key().before(batches[j].key()));
        }
    }
}

proof fn lemma_some_item(items: Seq<DrawItem>, key: BatchKey)
    requires
        instances_with(items, key).len() > 0,
    ensures
        exists|n: int| 0 <= n < items.len() && (#[trigger] items[n]).key == key,
    decreases items.len(),
{
    if items.len() > 0 {
        if items.last().key == key {
            assert(items[items.len() - 1].key == key);
        } else {
            lemma_some_item(items.drop_last(), key);
            let n = choose|n: int|
                0 <= n < items.drop_last().len() && (#[trigger] items.drop_last()[n]).key == key;
            assert(items[n].key == key);
        }
    }
}

/// All triangles are drawn before all lines and all lines before all points; within a
/// kind, what shares a material is drawn together.
pub proof fn triangles_come_before_lines_and_points(
    m: SceneModel,
    instances: Seq<InstanceTransform>,
    batches: Seq<DrawBatchModel>,
)
    requires
        is_batching(m, instances, batches),
    ensures
        forall|i: int, j: int|
            #![trigger batches[i], batches[j]]
            0 <= i < j < batches.len() ==> match (batches[i].material, batches[j].material) {
                (BatchMaterial::Face(a), BatchMaterial::Face(b)) => a < b || a == b
                    && batches[i].mesh_id < batches[j].mesh_id,
                (BatchMaterial::Line(a), BatchMaterial::Line(b)) => a < b || a == b
                    && batches[i].mesh_id < batches[j].mesh_id,
                (BatchMaterial::Point(a), BatchMaterial::Point(b)) => a < b || a == b
                    && batches[i].mesh_id < batches[j].mesh_id,
                (BatchMaterial::Face(_), _) => true,
                (BatchMaterial::Line(_), BatchMaterial::Point(_)) => true,
                _ => false,
            },
{
    assert forall|i: int, j: int|
        #![trigger batches[i], batches[j]]
        0 <= i < j < batches.len() implies match (batches[i].material, batches[j].material) {
        (BatchMaterial::Face(a), BatchMaterial::Face(b)) => a < b || a == b && batches[i].mesh_id
            < batches[j].mesh_id,
        (BatchMaterial::Line(a), BatchMaterial::Line(b)) => a < b || a == b && batches[i].mesh_id
            < batches[j].mesh_id,
        (BatchMaterial::Point(a), BatchMaterial::Point(b)) => a < b || a == b
            && batches[i].mesh_id < batches[j].mesh_id,
        (BatchMaterial::Face(_), _) => true,
        (BatchMaterial::Line(_), BatchMaterial::Point(_)) => true,
        _ => false,
    } by {
        assert(batches[i].key().before(batches[j].key()));
    }
}

/// Of two sides that batches are partitioned into, the first holds what passes the test and
/// the second what does not, batch by batch.
pub proof fn partitions_are_on_their_sides(
    batches: Seq<DrawBatchModel>,
    test: spec_fn(InstanceTransform) -> bool,
    matched: Seq<DrawBatchModel>,
    unmatched: Seq<DrawBatchModel>,
)
    requires
        keys_distinct(batches),
        partitioned(all_items(batches), test, matched, unmatched),
    ensures
        matched == parts_of(batches, test),
        unmatched == parts_of(batches, |i: InstanceTransform| !test(i)),
{
    let other = |i: InstanceTransform| !test(i);
    assert(negation(test) =~= other);
    partition_keeps_batches(batches, test);
    partition_keeps_batches(batches, other);
}

/// A batch is blended if and only if its material is: neither an opaque material makes it so
/// nor one that is cut out by its alpha.
pub proof fn only_blending_is_transparent(b: DrawBatchModel)
    ensures
        b.transparent() <==> b.material_props.alpha_mode == AlphaMode::Blend,
{
}

} // verus!
