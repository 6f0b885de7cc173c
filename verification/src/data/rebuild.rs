//! Rebuilding every stored handle as a canonical one.

use super::model::{lists_id, SceneModel};
use super::ownership::{
    face_refs, instance_refs, lemma_count_append, lemma_count_opt, lemma_mint_strong,
    lemma_total_empty, lemma_total_insert, lemma_total_remove, line_refs, node_refs, point_refs,
    total,
};
use super::rebind::{unbind, unbind_all, unbind_opt, unbind_payload};
use super::SceneData;
use crate::id_set::IdSet;
use crate::resource::handle::{count_core, GenericId, Handle, Ledger, LedgerModel, ResourceKind};
use crate::resource::instance::{opt_id, Instance, InstanceParts};
use crate::resource::material::{
    opt_seq, FaceMaterial, FaceMaterialParts, LineMaterial, LineMaterialParts, PointMaterial,
    PointMaterialParts,
};
use crate::resource::node::{Node, NodeModel, NodePayload};
use crate::resource::texture::copy_string;
use vstd::prelude::*;

verus! {

/// Whether a ledger records exactly one live core for each slot, and nothing waits
/// to be reaped.
pub open spec fn tidy(l: LedgerModel) -> bool {
    &&& l.wf()
    &&& l.dropped.len() == 0
    &&& forall|id: GenericId| #[trigger]
        l.slots.contains_key(id) ==> l.cores.contains_key(l.slots[id]) && l.cores[l.slots[id]].id
            == id
    &&& forall|c: u64| #[trigger]
        l.cores.contains_key(c) ==> l.slots.contains_key(l.cores[c].id) && l.slots[l.cores[c].id]
            == c
}

/// Whether a handle counts on the canonical core of its resource.
pub open spec fn canonical_in(l: LedgerModel, h: Handle) -> bool {
    l.slots.contains_key(h.id) && h.core == Some(l.slots[h.id])
}

/// Whether all handles count on canonical cores.
pub open spec fn all_canonical_in(l: LedgerModel, hs: Seq<Handle>) -> bool {
    forall|i: int| 0 <= i < hs.len() ==> canonical_in(l, #[trigger] hs[i])
}

/// Whether every live core is numbered `floor` or above.
pub open spec fn cores_from(l: LedgerModel, floor: u64) -> bool {
    l.clock >= floor && forall|c: u64| #[trigger] l.cores.contains_key(c) ==> c >= floor
}

/// Whether a ledger grew: slots and cores that were there are there still.
spec fn grown(a: LedgerModel, b: LedgerModel) -> bool {
    &&& forall|id: GenericId| #[trigger]
        a.slots.contains_key(id) ==> b.slots.contains_key(id) && b.slots[id] == a.slots[id]
    &&& forall|c: u64| #[trigger]
        a.cores.contains_key(c) ==> b.cores.contains_key(c) && b.cores[c].id == a.cores[c].id
            && b.cores[c].kind == a.cores[c].kind
}

/// Whether the cores that a ledger gained are for resources that `role` admits.
spec fn gained(
    a: LedgerModel,
    b: LedgerModel,
    role: spec_fn(ResourceKind, GenericId) -> bool,
) -> bool {
    forall|c: u64| #[trigger]
        b.cores.contains_key(c) && !a.cores.contains_key(c) ==> c >= a.clock && role(
            b.cores[c].kind,
            b.cores[c].id,
        )
}

/// What minting canonical handles `hs` does to a tidy ledger.
spec fn minted_all(
    a: LedgerModel,
    b: LedgerModel,
    hs: Seq<Handle>,
    role: spec_fn(ResourceKind, GenericId) -> bool,
) -> bool {
    &&& tidy(b)
    &&& grown(a, b)
    &&& gained(a, b, role)
    &&& all_canonical_in(b, hs)
    &&& b.clock == a.clock + hs.len()
    &&& forall|c: u64| #[trigger] b.strong(c) == a.strong(c) + count_core(hs, c)
}

/// Minting one list of handles after another.
proof fn lemma_minted_append(
    a: LedgerModel,
    b: LedgerModel,
    c: LedgerModel,
    xs: Seq<Handle>,
    ys: Seq<Handle>,
    role: spec_fn(ResourceKind, GenericId) -> bool,
)
    requires
        minted_all(a, b, xs, role),
        minted_all(b, c, ys, role),
    ensures
        minted_all(a, c, xs + ys, role),
{
    assert(grown(a, c)) by {
        assert forall|id: GenericId| #[trigger] a.slots.contains_key(id) implies c.slots.contains_key(
            id,
        ) && c.slots[id] == a.slots[id] by {
            assert(b.slots.contains_key(id));
        }
        assert forall|x: u64| #[trigger] a.cores.contains_key(x) implies c.cores.contains_key(x)
            && c.cores[x].id == a.cores[x].id && c.cores[x].kind == a.cores[x].kind by {
            assert(b.cores.contains_key(x));
        }
    }
    assert(gained(a, c, role)) by {
        assert forall|x: u64| #[trigger]
            c.cores.contains_key(x) && !a.cores.contains_key(x) implies x >= a.clock && role(
            c.cores[x].kind,
            c.cores[x].id,
        ) by {
            if b.cores.contains_key(x) {
                assert(role(b.cores[x].kind, b.cores[x].id));
            }
        }
    }
    assert(all_canonical_in(c, xs + ys)) by {
        assert forall|i: int| 0 <= i < (xs + ys).len() implies canonical_in(
            c,
            #[trigger] (xs + ys)[i],
        ) by {
            if i < xs.len() {
                assert(canonical_in(b, xs[i]));
            } else {
                assert(canonical_in(c, ys[i - xs.len()]));
            }
        }
    }
    assert forall|x: u64| #[trigger] c.strong(x) == a.strong(x) + count_core(xs + ys, x) by {
        lemma_count_append(xs, ys, x);
        assert(b.strong(x) == a.strong(x) + count_core(xs, x));
    }
}

/// Minting nothing.
proof fn lemma_minted_none(
    a: LedgerModel,
    role: spec_fn(ResourceKind, GenericId) -> bool,
)
    requires
        tidy(a),
    ensures
        minted_all(a, a, Seq::empty(), role),
{
    assert forall|c: u64| #[trigger] a.strong(c) == a.strong(c) + count_core(Seq::empty(), c) by {}
}

/// The canonical handle for `id`.
fn canon(
    ledger: &mut Ledger,
    id: GenericId,
    kind: ResourceKind,
    Ghost(role): Ghost<spec_fn(ResourceKind, GenericId) -> bool>,
) -> (handle: Handle)
    requires
        tidy(old(ledger)@),
        old(ledger)@.clock < u64::MAX,
        role(kind, id),
    ensures
        handle.id == id,
        minted_all(old(ledger)@, final(ledger)@, seq![handle], role),
{
    let ghost a = ledger@;
    let handle = ledger.mint(id, kind);
    proof {
        let b = ledger@;
        lemma_mint_strong(a, id, kind, 0);
        assert(!a.cores.contains_key(a.clock));
        assert(tidy(b)) by {
            assert forall|x: GenericId| #[trigger] b.slots.contains_key(x) implies
                b.cores.contains_key(b.slots[x]) && b.cores[b.slots[x]].id == x by {
                if x != id {
                    assert(a.slots.contains_key(x));
                } else if a.slots.contains_key(id) {
                    assert(a.slot_live(id));
                }
            }
            assert forall|c: u64| #[trigger] b.cores.contains_key(c) implies b.slots.contains_key(
                b.cores[c].id,
            ) && b.slots[b.cores[c].id] == c by {
                if a.cores.contains_key(c) {
                    assert(a.slots.contains_key(a.cores[c].id));
                    if a.cores[c].id == id {
                        assert(a.slot_live(id));
                    }
                }
            }
        }
        assert(grown(a, b)) by {
            assert forall|x: GenericId| #[trigger] a.slots.contains_key(x) implies
                b.slots.contains_key(x) && b.slots[x] == a.slots[x] by {
                if x == id {
                    assert(a.slot_live(id));
                }
            }
        }
        assert forall|c: u64| #[trigger] b.strong(c) == a.strong(c) + count_core(
            seq![handle],
            c,
        ) by {
            lemma_mint_strong(a, id, kind, c);
            lemma_count_opt(Some(handle), c);
            assert(opt_seq(Some(handle)) =~= seq![handle]);
        }
    }
    handle
}

/// The canonical handle for an optional one.
fn canon_opt(
    ledger: &mut Ledger,
    source: &Option<Handle>,
    kind: ResourceKind,
    Ghost(role): Ghost<spec_fn(ResourceKind, GenericId) -> bool>,
) -> (handle: Option<Handle>)
    requires
        tidy(old(ledger)@),
        old(ledger)@.clock + opt_seq(*source).len() <= u64::MAX,
        source matches Some(h) ==> role(kind, h.id),
    ensures
        unbind_opt(handle) == unbind_opt(*source),
        minted_all(old(ledger)@, final(ledger)@, opt_seq(handle), role),
{
    match source {
        Some(h) => {
            let new = canon(ledger, h.id, kind, Ghost(role));
            assert(opt_seq(Some(new)) =~= seq![new]);
            Some(new)
        },
        None => {
            proof {
                lemma_minted_none(ledger@, role);
            }
            None
        },
    }
}

/// The canonical handles for a list, in order.
fn canon_all(
    ledger: &mut Ledger,
    source: &Vec<Handle>,
    kind: ResourceKind,
    Ghost(role): Ghost<spec_fn(ResourceKind, GenericId) -> bool>,
) -> (handles: Vec<Handle>)
    requires
        tidy(old(ledger)@),
        old(ledger)@.clock + source.len() <= u64::MAX,
        forall|i: int| 0 <= i < source.len() ==> role(kind, (#[trigger] source@[i]).id),
    ensures
        unbind_all(handles@) == unbind_all(source@),
        handles.len() == source.len(),
        minted_all(old(ledger)@, final(ledger)@, handles@, role),
{
    let ghost a = ledger@;
    let mut handles: Vec<Handle> = Vec::new();
    let mut i: usize = 0;
    proof {
        lemma_minted_none(a, role);
        assert(handles@ =~= Seq::empty());
    }
    while i < source.len()
        invariant
            i <= source.len(),
            handles.len() == i,
            tidy(a),
            a.clock + source.len() <= u64::MAX,
            forall|j: int| 0 <= j < source.len() ==> role(kind, (#[trigger] source@[j]).id),
            forall|j: int| 0 <= j < i ==> (#[trigger] handles@[j]).id == source@[j].id,
            minted_all(a, ledger@, handles@, role),
        decreases source.len() - i,
    {
        let ghost b = ledger@;
        let ghost so_far = handles@;
        proof {
            assert(role(kind, source@[i as int].id));
        }
        let new = canon(ledger, source[i].id, kind, Ghost(role));
        handles.push(new);
        proof {
            lemma_minted_append(a, b, ledger@, so_far, seq![new], role);
            assert(handles@ =~= so_far + seq![new]);
        }
        i = i + 1;
    }
    proof {
        assert(unbind_all(handles@) =~= unbind_all(source@));
    }
    handles
}

/// The resources an instance refers to.
pub open spec fn instance_role(i: InstanceParts) -> spec_fn(ResourceKind, GenericId) -> bool {
    |kind: ResourceKind, id: GenericId|
        match kind {
            ResourceKind::Mesh => i.mesh.id == id,
            ResourceKind::FaceMaterial => opt_id(i.face_material) == Some(id),
            ResourceKind::LineMaterial => opt_id(i.line_material) == Some(id),
            ResourceKind::PointMaterial => opt_id(i.point_material) == Some(id),
            _ => false,
        }
}

/// The resources a face material refers to.
pub open spec fn face_role(m: FaceMaterialParts) -> spec_fn(ResourceKind, GenericId) -> bool {
    |kind: ResourceKind, id: GenericId| kind == ResourceKind::Texture && m.samples(id)
}

/// The resources a line material refers to.
pub open spec fn line_role(m: LineMaterialParts) -> spec_fn(ResourceKind, GenericId) -> bool {
    |kind: ResourceKind, id: GenericId|
        kind == ResourceKind::Texture && opt_id(m.base_color_texture) == Some(id)
}

/// The resources a point material refers to.
pub open spec fn point_role(m: PointMaterialParts) -> spec_fn(ResourceKind, GenericId) -> bool {
    |kind: ResourceKind, id: GenericId|
        kind == ResourceKind::Texture && opt_id(m.base_color_texture) == Some(id)
}

/// The resources a node refers to.
pub open spec fn node_role(n: NodeModel) -> spec_fn(ResourceKind, GenericId) -> bool {
    |kind: ResourceKind, id: GenericId|
        match kind {
            ResourceKind::Node => lists_id(n.children, id),
            ResourceKind::Instance => opt_id(n.payload.handle()) == Some(id),
            _ => false,
        }
}

/// An instance with canonical handles.
fn canon_instance(ledger: &mut Ledger, source: &InstanceParts) -> (new: InstanceParts)
    requires
        tidy(old(ledger)@),
        old(ledger)@.clock + source.handles().len() <= u64::MAX,
    ensures
        new.unbound() == source.unbound(),
        new.handles().len() == source.handles().len(),
        minted_all(old(ledger)@, final(ledger)@, new.handles(), instance_role(*source)),
{
    let ghost role = instance_role(*source);
    let ghost l0 = ledger@;
    let mesh = canon(ledger, source.mesh.id, ResourceKind::Mesh, Ghost(role));
    let ghost l1 = ledger@;
    let face = canon_opt(ledger, &source.face_material, ResourceKind::FaceMaterial, Ghost(role));
    let ghost l2 = ledger@;
    proof {
        lemma_minted_append(l0, l1, l2, seq![mesh], opt_seq(face), role);
    }
    let line = canon_opt(ledger, &source.line_material, ResourceKind::LineMaterial, Ghost(role));
    let ghost l3 = ledger@;
    proof {
        lemma_minted_append(l0, l2, l3, seq![mesh] + opt_seq(face), opt_seq(line), role);
    }
    let point = canon_opt(
        ledger,
        &source.point_material,
        ResourceKind::PointMaterial,
        Ghost(role),
    );
    proof {
        lemma_minted_append(
            l0,
            l3,
            ledger@,
            seq![mesh] + opt_seq(face) + opt_seq(line),
            opt_seq(point),
            role,
        );
    }
    InstanceParts {
        id: source.id,
        mesh,
        face_material: face,
        line_material: line,
        point_material: point,
    }
}

/// A face material with canonical handles.
fn canon_face(ledger: &mut Ledger, source: &FaceMaterialParts) -> (new: FaceMaterialParts)
    requires
        tidy(old(ledger)@),
        old(ledger)@.clock + source.handles().len() <= u64::MAX,
    ensures
        new.unbound() == source.unbound(),
        new.handles().len() == source.handles().len(),
        minted_all(old(ledger)@, final(ledger)@, new.handles(), face_role(*source)),
{
    let ghost role = face_role(*source);
    let ghost l0 = ledger@;
    let base = canon_opt(ledger, &source.base_color_texture, ResourceKind::Texture, Ghost(role));
    let ghost l1 = ledger@;
    let normal = canon_opt(ledger, &source.normal_texture, ResourceKind::Texture, Ghost(role));
    let ghost l2 = ledger@;
    proof {
        lemma_minted_append(l0, l1, l2, opt_seq(base), opt_seq(normal), role);
    }
    let rough = canon_opt(
        ledger,
        &source.metallic_roughness_texture,
        ResourceKind::Texture,
        Ghost(role),
    );
    proof {
        lemma_minted_append(
            l0,
            l2,
            ledger@,
            opt_seq(base) + opt_seq(normal),
            opt_seq(rough),
            role,
        );
    }
    FaceMaterialParts {
        id: source.id,
        generation: source.generation,
        base_color_factor: source.base_color_factor,
        metallic: source.metallic,
        roughness: source.roughness,
        normal_scale: source.normal_scale,
        alpha_cutoff: source.alpha_cutoff,
        alpha_mode: source.alpha_mode,
        flags: source.flags,
        base_color_texture: base,
        normal_texture: normal,
        metallic_roughness_texture: rough,
    }
}

/// A line material with canonical handles.
fn canon_line(ledger: &mut Ledger, source: &LineMaterialParts) -> (new: LineMaterialParts)
    requires
        tidy(old(ledger)@),
        old(ledger)@.clock + source.handles().len() <= u64::MAX,
    ensures
        new.unbound() == source.unbound(),
        new.handles().len() == source.handles().len(),
        minted_all(old(ledger)@, final(ledger)@, new.handles(), line_role(*source)),
{
    let base = canon_opt(
        ledger,
        &source.base_color_texture,
        ResourceKind::Texture,
        Ghost(line_role(*source)),
    );
    LineMaterialParts {
        id: source.id,
        generation: source.generation,
        color: source.color,
        alpha_mode: source.alpha_mode,
        base_color_texture: base,
    }
}

/// A point material with canonical handles.
fn canon_point(ledger: &mut Ledger, source: &PointMaterialParts) -> (new: PointMaterialParts)
    requires
        tidy(old(ledger)@),
        old(ledger)@.clock + source.handles().len() <= u64::MAX,
    ensures
        new.unbound() == source.unbound(),
        new.handles().len() == source.handles().len(),
        minted_all(old(ledger)@, final(ledger)@, new.handles(), point_role(*source)),
{
    let base = canon_opt(
        ledger,
        &source.base_color_texture,
        ResourceKind::Texture,
        Ghost(point_role(*source)),
    );
    PointMaterialParts {
        id: source.id,
        generation: source.generation,
        color: source.color,
        alpha_mode: source.alpha_mode,
        base_color_texture: base,
    }
}

/// A node with canonical handles. Its cached bounds and visibility are given up.
fn canon_node(ledger: &mut Ledger, source: &Node) -> (new: Node)
    requires
        tidy(old(ledger)@),
        old(ledger)@.clock + source@.handles().len() <= u64::MAX,
    ensures
        new@.unbound() == source@.unbound(),
        new@.bounds_cache is None,
        new@.visibility_cache is None,
        new@.handles().len() == source@.handles().len(),
        minted_all(old(ledger)@, final(ledger)@, new@.handles(), node_role(source@)),
{
    let ghost role = node_role(source@);
    let ghost l0 = ledger@;
    proof {
        assert forall|i: int| 0 <= i < source.children.len() implies role(
            ResourceKind::Node,
            (#[trigger] source.children@[i]).id,
        ) by {
            assert(lists_id(source.children@, source.children@[i].id));
        }
    }
    let children = canon_all(ledger, &source.children, ResourceKind::Node, Ghost(role));
    let ghost l1 = ledger@;
    let payload = match &source.payload {
        NodePayload::Instance(h) => {
            let new = canon(ledger, h.id, ResourceKind::Instance, Ghost(role));
            proof {
                assert(opt_seq(Some(new)) =~= seq![new]);
            }
            NodePayload::Instance(new)
        },
        NodePayload::Camera(projection) => NodePayload::Camera(*projection),
        NodePayload::Light(light) => NodePayload::Light(*light),
        NodePayload::Empty => NodePayload::Empty,
    };
    proof {
        if payload.handle() is None {
            lemma_minted_none(l1, role);
        }
        lemma_minted_append(l0, l1, ledger@, children@, opt_seq(payload.handle()), role);
    }
    let name = match &source.name {
        Some(s) => Some(copy_string(s)),
        None => None,
    };
    Node {
        id: source.id,
        name,
        parent: source.parent,
        children,
        transform: source.transform,
        flags: source.flags,
        visibility: source.visibility,
        display: source.display,
        payload,
        world_cache: source.world_cache,
        bounds_cache: None,
        visibility_cache: None,
    }
}

impl SceneModel {
    /// Whether some stored handle is for the given resource.
    pub open spec fn refers_to(self, kind: ResourceKind, id: GenericId) -> bool {
        ||| kind == ResourceKind::Node && lists_id(self.roots, id)
        ||| exists|k: u64| #[trigger]
            self.nodes.contains_key(k) && node_role(self.nodes[k])(kind, id)
        ||| exists|k: u64| #[trigger]
            self.instances.contains_key(k) && instance_role(self.instances[k])(kind, id)
        ||| exists|k: u64| #[trigger]
            self.face_materials.contains_key(k) && face_role(self.face_materials[k])(kind, id)
        ||| exists|k: u64| #[trigger]
            self.line_materials.contains_key(k) && line_role(self.line_materials[k])(kind, id)
        ||| exists|k: u64| #[trigger]
            self.point_materials.contains_key(k) && point_role(self.point_materials[k])(kind, id)
    }

    /// Every stored handle is canonical.
    pub open spec fn all_canonical(self) -> bool {
        &&& all_canonical_in(self.ledger, self.roots)
        &&& forall|k: u64| #[trigger]
            self.nodes.contains_key(k) ==> all_canonical_in(self.ledger, self.nodes[k].handles())
        &&& forall|k: u64| #[trigger]
            self.instances.contains_key(k) ==> all_canonical_in(
                self.ledger,
                self.instances[k].handles(),
            )
        &&& forall|k: u64| #[trigger]
            self.face_materials.contains_key(k) ==> all_canonical_in(
                self.ledger,
                self.face_materials[k].handles(),
            )
        &&& forall|k: u64| #[trigger]
            self.line_materials.contains_key(k) ==> all_canonical_in(
                self.ledger,
                self.line_materials[k].handles(),
            )
        &&& forall|k: u64| #[trigger]
            self.point_materials.contains_key(k) ==> all_canonical_in(
                self.ledger,
                self.point_materials[k].handles(),
            )
    }

    /// Ownership reflects the stored handles exactly: each is canonical and counted,
    /// nothing else is, and each core is for a resource that some handle is for.
    pub open spec fn rebuilt(self) -> bool {
        &&& tidy(self.ledger)
        &&& self.all_canonical()
        &&& forall|c: u64| #[trigger] self.ledger.strong(c) == self.refs(c)
        &&& forall|c: u64| #[trigger]
            self.ledger.cores.contains_key(c) ==> self.refers_to(
                self.ledger.cores[c].kind,
                self.ledger.cores[c].id,
            )
    }
}

/// Canonical handles stay canonical in a ledger that grows.
proof fn lemma_canonical_grows(a: LedgerModel, b: LedgerModel, hs: Seq<Handle>)
    requires
        grown(a, b),
        all_canonical_in(a, hs),
    ensures
        all_canonical_in(b, hs),
{
    assert forall|i: int| 0 <= i < hs.len() implies canonical_in(b, #[trigger] hs[i]) by {
        assert(canonical_in(a, hs[i]));
    }
}

/// The sum over part of a map, with one more of the map's values.
pub proof fn lemma_total_part<V>(
    part: Map<u64, V>,
    whole: Map<u64, V>,
    f: spec_fn(V) -> nat,
)
    requires
        part.dom().finite(),
        whole.dom().finite(),
        forall|k: u64| #[trigger]
            part.contains_key(k) ==> whole.contains_key(k) && f(part[k]) == f(whole[k]),
    ensures
        total(part, f) <= total(whole, f),
    decreases part.dom().len(),
{
    if part.dom().len() == 0 {
        assert(part =~= Map::empty());
        lemma_total_empty(f);
    } else {
        let k = part.dom().choose();
        assert(part.contains_key(k));
        lemma_total_remove(part, f, k);
        lemma_total_remove(whole, f, k);
        assert(part.remove(k).dom() =~= part.dom().remove(k));
        assert(whole.remove(k).dom() =~= whole.dom().remove(k));
        assert forall|x: u64| #[trigger] part.remove(k).contains_key(x) implies whole.remove(
            k,
        ).contains_key(x) && f(part.remove(k)[x]) == f(whole.remove(k)[x]) by {
            assert(part.contains_key(x));
        }
        lemma_total_part(part.remove(k), whole.remove(k), f);
    }
}

/// How many handles a node owns.
pub open spec fn node_len() -> spec_fn(NodeModel) -> nat {
    |n: NodeModel| n.handles().len()
}

/// How many handles an instance owns.
pub open spec fn instance_len() -> spec_fn(InstanceParts) -> nat {
    |i: InstanceParts| i.handles().len()
}

/// How many handles a face material owns.
pub open spec fn face_len() -> spec_fn(FaceMaterialParts) -> nat {
    |m: FaceMaterialParts| m.handles().len()
}

/// How many handles a line material owns.
pub open spec fn line_len() -> spec_fn(LineMaterialParts) -> nat {
    |m: LineMaterialParts| m.handles().len()
}

/// How many handles a point material owns.
pub open spec fn point_len() -> spec_fn(PointMaterialParts) -> nat {
    |m: PointMaterialParts| m.handles().len()
}

impl SceneModel {
    /// How many handles the scene stores.
    pub open spec fn handle_total(self) -> nat {
        self.roots.len() + total(self.nodes, node_len()) + total(self.instances, instance_len())
            + total(self.face_materials, face_len()) + total(self.line_materials, line_len())
            + total(self.point_materials, point_len())
    }
}

proof fn lemma_built_node(m: SceneModel, after: SceneModel, k: u64, item: NodeModel, source: NodeModel)
    requires
        m.rebuilt(),
        m.nodes.dom().finite(),
        !m.nodes.contains_key(k),
        after == (SceneModel { nodes: m.nodes.insert(k, item), ledger: after.ledger, ..m }),
        minted_all(m.ledger, after.ledger, item.handles(), node_role(source)),
        source.unbound() == item.unbound(),
    ensures
        after.rebuilt(),
{
    assert forall|c: u64| #[trigger] after.ledger.strong(c) == after.refs(c) by {
        lemma_total_insert(m.nodes, node_refs(c), k, item);
        assert(m.ledger.strong(c) == m.refs(c));
    }
    assert(after.all_canonical()) by {
        lemma_canonical_grows(m.ledger, after.ledger, m.roots);
        assert forall|x: u64| #[trigger] after.nodes.contains_key(x) implies all_canonical_in(
            after.ledger,
            after.nodes[x].handles(),
        ) by {
            if m.nodes.contains_key(x) {
                lemma_canonical_grows(m.ledger, after.ledger, m.nodes[x].handles());
            }
        }
        assert forall|x: u64| #[trigger] after.instances.contains_key(x) implies all_canonical_in(
            after.ledger,
            after.instances[x].handles(),
        ) by {
            if m.instances.contains_key(x) {
                lemma_canonical_grows(m.ledger, after.ledger, m.instances[x].handles());
            }
        }
        assert forall|x: u64| #[trigger] after.face_materials.contains_key(
            x,
        ) implies all_canonical_in(after.ledger, after.face_materials[x].handles()) by {
            if m.face_materials.contains_key(x) {
                lemma_canonical_grows(m.ledger, after.ledger, m.face_materials[x].handles());
            }
        }
        assert forall|x: u64| #[trigger] after.line_materials.contains_key(
            x,
        ) implies all_canonical_in(after.ledger, after.line_materials[x].handles()) by {
            if m.line_materials.contains_key(x) {
                lemma_canonical_grows(m.ledger, after.ledger, m.line_materials[x].handles());
            }
        }
        assert forall|x: u64| #[trigger] after.point_materials.contains_key(
            x,
        ) implies all_canonical_in(after.ledger, after.point_materials[x].handles()) by {
            if m.point_materials.contains_key(x) {
                lemma_canonical_grows(m.ledger, after.ledger, m.point_materials[x].handles());
            }
        }
    }
    lemma_unbound_role_node(source, item);
    assert forall|c: u64| #[trigger] after.ledger.cores.contains_key(c) implies after.refers_to(
        after.ledger.cores[c].kind,
        after.ledger.cores[c].id,
    ) by {
        let kind = after.ledger.cores[c].kind;
        let id = after.ledger.cores[c].id;
        if m.ledger.cores.contains_key(c) {
            assert(m.refers_to(kind, id));
            lemma_refers_grows_node(m, after, k, item, kind, id);
        } else {
            assert(node_role(source)(kind, id));
            assert(after.nodes.contains_key(k) && node_role(after.nodes[k])(kind, id));
        }
    }
}

proof fn lemma_refers_grows_node(
    m: SceneModel,
    after: SceneModel,
    k: u64,
    item: NodeModel,
    kind: ResourceKind,
    id: GenericId,
)
    requires
        !m.nodes.contains_key(k),
        after == (SceneModel { nodes: m.nodes.insert(k, item), ledger: after.ledger, ..m }),
        m.refers_to(kind, id),
    ensures
        after.refers_to(kind, id),
{
    if exists|x: u64| #[trigger] m.nodes.contains_key(x) && node_role(m.nodes[x])(kind, id) {
        let x = choose|x: u64| #[trigger]
            m.nodes.contains_key(x) && node_role(m.nodes[x])(kind, id);
        assert(after.nodes.contains_key(x) && node_role(after.nodes[x])(kind, id));
    }
    if exists|x: u64| #[trigger] m.instances.contains_key(x) && instance_role(m.instances[x])(kind, id) {
        let x = choose|x: u64| #[trigger]
            m.instances.contains_key(x) && instance_role(m.instances[x])(kind, id);
        assert(after.instances.contains_key(x) && instance_role(after.instances[x])(kind, id));
    }
    if exists|x: u64| #[trigger] m.face_materials.contains_key(x) && face_role(m.face_materials[x])(kind, id) {
        let x = choose|x: u64| #[trigger]
            m.face_materials.contains_key(x) && face_role(m.face_materials[x])(kind, id);
        assert(after.face_materials.contains_key(x) && face_role(after.face_materials[x])(kind, id));
    }
    if exists|x: u64| #[trigger] m.line_materials.contains_key(x) && line_role(m.line_materials[x])(kind, id) {
        let x = choose|x: u64| #[trigger]
            m.line_materials.contains_key(x) && line_role(m.line_materials[x])(kind, id);
        assert(after.line_materials.contains_key(x) && line_role(after.line_materials[x])(kind, id));
    }
    if exists|x: u64| #[trigger] m.point_materials.contains_key(x) && point_role(m.point_materials[x])(kind, id) {
        let x = choose|x: u64| #[trigger]
            m.point_materials.contains_key(x) && point_role(m.point_materials[x])(kind, id);
        assert(after.point_materials.contains_key(x) && point_role(after.point_materials[x])(kind, id));
    }
}

proof fn lemma_unbound_role_node(a: NodeModel, b: NodeModel)
    requires
        a.unbound() == b.unbound(),
    ensures
        forall|kind: ResourceKind, id: GenericId| #[trigger]
            node_role(a)(kind, id) ==> node_role(b)(kind, id),
{
    assert(unbind_all(a.children) == unbind_all(b.children));
    assert(unbind_payload(a.payload) == unbind_payload(b.payload));
    assert forall|kind: ResourceKind, id: GenericId| #[trigger] node_role(a)(
        kind,
        id,
    ) implies node_role(b)(kind, id) by {
        if kind == ResourceKind::Node {
            let i = choose|i: int| 0 <= i < a.children.len() && (#[trigger] a.children[i]).id == id;
            assert(unbind_all(a.children)[i] == unbind(a.children[i]));
            assert(unbind_all(b.children)[i] == unbind(b.children[i]));
            assert(a.children.len() == unbind_all(a.children).len());
            assert(b.children.len() == unbind_all(b.children).len());
            assert(b.children[i].id == id);
        }
    }
}

proof fn lemma_built_instance(m: SceneModel, after: SceneModel, k: u64, item: InstanceParts, source: InstanceParts)
    requires
        m.rebuilt(),
        m.instances.dom().finite(),
        !m.instances.contains_key(k),
        after == (SceneModel { instances: m.instances.insert(k, item), ledger: after.ledger, ..m }),
        minted_all(m.ledger, after.ledger, item.handles(), instance_role(source)),
        source.unbound() == item.unbound(),
    ensures
        after.rebuilt(),
{
    assert forall|c: u64| #[trigger] after.ledger.strong(c) == after.refs(c) by {
        lemma_total_insert(m.instances, instance_refs(c), k, item);
        assert(m.ledger.strong(c) == m.refs(c));
    }
    assert(after.all_canonical()) by {
        lemma_canonical_grows(m.ledger, after.ledger, m.roots);
        assert forall|x: u64| #[trigger] after.nodes.contains_key(x) implies all_canonical_in(
            after.ledger,
            after.nodes[x].handles(),
        ) by {
            if m.nodes.contains_key(x) {
                lemma_canonical_grows(m.ledger, after.ledger, m.nodes[x].handles());
            }
        }
        assert forall|x: u64| #[trigger] after.instances.contains_key(x) implies all_canonical_in(
            after.ledger,
            after.instances[x].handles(),
        ) by {
            if m.instances.contains_key(x) {
                lemma_canonical_grows(m.ledger, after.ledger, m.instances[x].handles());
            }
        }
        assert forall|x: u64| #[trigger] after.face_materials.contains_key(
            x,
        ) implies all_canonical_in(after.ledger, after.face_materials[x].handles()) by {
            if m.face_materials.contains_key(x) {
                lemma_canonical_grows(m.ledger, after.ledger, m.face_materials[x].handles());
            }
        }
        assert forall|x: u64| #[trigger] after.line_materials.contains_key(
            x,
        ) implies all_canonical_in(after.ledger, after.line_materials[x].handles()) by {
            if m.line_materials.contains_key(x) {
                lemma_canonical_grows(m.ledger, after.ledger, m.line_materials[x].handles());
            }
        }
        assert forall|x: u64| #[trigger] after.point_materials.contains_key(
            x,
        ) implies all_canonical_in(after.ledger, after.point_materials[x].handles()) by {
            if m.point_materials.contains_key(x) {
                lemma_canonical_grows(m.ledger, after.ledger, m.point_materials[x].handles());
            }
        }
    }
    lemma_unbound_role_instance(source, item);
    assert forall|c: u64| #[trigger] after.ledger.cores.contains_key(c) implies after.refers_to(
        after.ledger.cores[c].kind,
        after.ledger.cores[c].id,
    ) by {
        let kind = after.ledger.cores[c].kind;
        let id = after.ledger.cores[c].id;
        if m.ledger.cores.contains_key(c) {
            assert(m.refers_to(kind, id));
            lemma_refers_grows_instance(m, after, k, item, kind, id);
        } else {
            assert(instance_role(source)(kind, id));
            assert(after.instances.contains_key(k) && instance_role(after.instances[k])(kind, id));
        }
    }
}

proof fn lemma_refers_grows_instance(
    m: SceneModel,
    after: SceneModel,
    k: u64,
    item: InstanceParts,
    kind: ResourceKind,
    id: GenericId,
)
    requires
        !m.instances.contains_key(k),
        after == (SceneModel { instances: m.instances.insert(k, item), ledger: after.ledger, ..m }),
        m.refers_to(kind, id),
    ensures
        after.refers_to(kind, id),
{
    if exists|x: u64| #[trigger] m.nodes.contains_key(x) && node_role(m.nodes[x])(kind, id) {
        let x = choose|x: u64| #[trigger]
            m.nodes.contains_key(x) && node_role(m.nodes[x])(kind, id);
        assert(after.nodes.contains_key(x) && node_role(after.nodes[x])(kind, id));
    }
    if exists|x: u64| #[trigger] m.instances.contains_key(x) && instance_role(m.instances[x])(kind, id) {
        let x = choose|x: u64| #[trigger]
            m.instances.contains_key(x) && instance_role(m.instances[x])(kind, id);
        assert(after.instances.contains_key(x) && instance_role(after.instances[x])(kind, id));
    }
    if exists|x: u64| #[trigger] m.face_materials.contains_key(x) && face_role(m.face_materials[x])(kind, id) {
        let x = choose|x: u64| #[trigger]
            m.face_materials.contains_key(x) && face_role(m.face_materials[x])(kind, id);
        assert(after.face_materials.contains_key(x) && face_role(after.face_materials[x])(kind, id));
    }
    if exists|x: u64| #[trigger] m.line_materials.contains_key(x) && line_role(m.line_materials[x])(kind, id) {
        let x = choose|x: u64| #[trigger]
            m.line_materials.contains_key(x) && line_role(m.line_materials[x])(kind, id);
        assert(after.line_materials.contains_key(x) && line_role(after.line_materials[x])(kind, id));
    }
    if exists|x: u64| #[trigger] m.point_materials.contains_key(x) && point_role(m.point_materials[x])(kind, id) {
        let x = choose|x: u64| #[trigger]
            m.point_materials.contains_key(x) && point_role(m.point_materials[x])(kind, id);
        assert(after.point_materials.contains_key(x) && point_role(after.point_materials[x])(kind, id));
    }
}

proof fn lemma_unbound_role_instance(a: InstanceParts, b: InstanceParts)
    requires
        a.unbound() == b.unbound(),
    ensures
        forall|kind: ResourceKind, id: GenericId| #[trigger]
            instance_role(a)(kind, id) ==> instance_role(b)(kind, id),
{
}

proof fn lemma_built_face(m: SceneModel, after: SceneModel, k: u64, item: FaceMaterialParts, source: FaceMaterialParts)
    requires
        m.rebuilt(),
        m.face_materials.dom().finite(),
        !m.face_materials.contains_key(k),
        after == (SceneModel { face_materials: m.face_materials.insert(k, item), ledger: after.ledger, ..m }),
        minted_all(m.ledger, after.ledger, item.handles(), face_role(source)),
        source.unbound() == item.unbound(),
    ensures
        after.rebuilt(),
{
    assert forall|c: u64| #[trigger] after.ledger.strong(c) == after.refs(c) by {
        lemma_total_insert(m.face_materials, face_refs(c), k, item);
        assert(m.ledger.strong(c) == m.refs(c));
    }
    assert(after.all_canonical()) by {
        lemma_canonical_grows(m.ledger, after.ledger, m.roots);
        assert forall|x: u64| #[trigger] after.nodes.contains_key(x) implies all_canonical_in(
            after.ledger,
            after.nodes[x].handles(),
        ) by {
            if m.nodes.contains_key(x) {
                lemma_canonical_grows(m.ledger, after.ledger, m.nodes[x].handles());
            }
        }
        assert forall|x: u64| #[trigger] after.instances.contains_key(x) implies all_canonical_in(
            after.ledger,
            after.instances[x].handles(),
        ) by {
            if m.instances.contains_key(x) {
                lemma_canonical_grows(m.ledger, after.ledger, m.instances[x].handles());
            }
        }
        assert forall|x: u64| #[trigger] after.face_materials.contains_key(
            x,
        ) implies all_canonical_in(after.ledger, after.face_materials[x].handles()) by {
            if m.face_materials.contains_key(x) {
                lemma_canonical_grows(m.ledger, after.ledger, m.face_materials[x].handles());
            }
        }
        assert forall|x: u64| #[trigger] after.line_materials.contains_key(
            x,
        ) implies all_canonical_in(after.ledger, after.line_materials[x].handles()) by {
            if m.line_materials.contains_key(x) {
                lemma_canonical_grows(m.ledger, after.ledger, m.line_materials[x].handles());
            }
        }
        assert forall|x: u64| #[trigger] after.point_materials.contains_key(
            x,
        ) implies all_canonical_in(after.ledger, after.point_materials[x].handles()) by {
            if m.point_materials.contains_key(x) {
                lemma_canonical_grows(m.ledger, after.ledger, m.point_materials[x].handles());
            }
        }
    }
    lemma_unbound_role_face(source, item);
    assert forall|c: u64| #[trigger] after.ledger.cores.contains_key(c) implies after.refers_to(
        after.ledger.cores[c].kind,
        after.ledger.cores[c].id,
    ) by {
        let kind = after.ledger.cores[c].kind;
        let id = after.ledger.cores[c].id;
        if m.ledger.cores.contains_key(c) {
            assert(m.refers_to(kind, id));
            lemma_refers_grows_face(m, after, k, item, kind, id);
        } else {
            assert(face_role(source)(kind, id));
            assert(after.face_materials.contains_key(k) && face_role(after.face_materials[k])(kind, id));
        }
    }
}

proof fn lemma_refers_grows_face(
    m: SceneModel,
    after: SceneModel,
    k: u64,
    item: FaceMaterialParts,
    kind: ResourceKind,
    id: GenericId,
)
    requires
        !m.face_materials.contains_key(k),
        after == (SceneModel { face_materials: m.face_materials.insert(k, item), ledger: after.ledger, ..m }),
        m.refers_to(kind, id),
    ensures
        after.refers_to(kind, id),
{
    if exists|x: u64| #[trigger] m.nodes.contains_key(x) && node_role(m.nodes[x])(kind, id) {
        let x = choose|x: u64| #[trigger]
            m.nodes.contains_key(x) && node_role(m.nodes[x])(kind, id);
        assert(after.nodes.contains_key(x) && node_role(after.nodes[x])(kind, id));
    }
    if exists|x: u64| #[trigger] m.instances.contains_key(x) && instance_role(m.instances[x])(kind, id) {
        let x = choose|x: u64| #[trigger]
            m.instances.contains_key(x) && instance_role(m.instances[x])(kind, id);
        assert(after.instances.contains_key(x) && instance_role(after.instances[x])(kind, id));
    }
    if exists|x: u64| #[trigger] m.face_materials.contains_key(x) && face_role(m.face_materials[x])(kind, id) {
        let x = choose|x: u64| #[trigger]
            m.face_materials.contains_key(x) && face_role(m.face_materials[x])(kind, id);
        assert(after.face_materials.contains_key(x) && face_role(after.face_materials[x])(kind, id));
    }
    if exists|x: u64| #[trigger] m.line_materials.contains_key(x) && line_role(m.line_materials[x])(kind, id) {
        let x = choose|x: u64| #[trigger]
            m.line_materials.contains_key(x) && line_role(m.line_materials[x])(kind, id);
        assert(after.line_materials.contains_key(x) && line_role(after.line_materials[x])(kind, id));
    }
    if exists|x: u64| #[trigger] m.point_materials.contains_key(x) && point_role(m.point_materials[x])(kind, id) {
        let x = choose|x: u64| #[trigger]
            m.point_materials.contains_key(x) && point_role(m.point_materials[x])(kind, id);
        assert(after.point_materials.contains_key(x) && point_role(after.point_materials[x])(kind, id));
    }
}

proof fn lemma_unbound_role_face(a: FaceMaterialParts, b: FaceMaterialParts)
    requires
        a.unbound() == b.unbound(),
    ensures
        forall|kind: ResourceKind, id: GenericId| #[trigger]
            face_role(a)(kind, id) ==> face_role(b)(kind, id),
{
}

proof fn lemma_built_line(m: SceneModel, after: SceneModel, k: u64, item: LineMaterialParts, source: LineMaterialParts)
    requires
        m.rebuilt(),
        m.line_materials.dom().finite(),
        !m.line_materials.contains_key(k),
        after == (SceneModel { line_materials: m.line_materials.insert(k, item), ledger: after.ledger, ..m }),
        minted_all(m.ledger, after.ledger, item.handles(), line_role(source)),
        source.unbound() == item.unbound(),
    ensures
        after.rebuilt(),
{
    assert forall|c: u64| #[trigger] after.ledger.strong(c) == after.refs(c) by {
        lemma_total_insert(m.line_materials, line_refs(c), k, item);
        assert(m.ledger.strong(c) == m.refs(c));
    }
    assert(after.all_canonical()) by {
        lemma_canonical_grows(m.ledger, after.ledger, m.roots);
        assert forall|x: u64| #[trigger] after.nodes.contains_key(x) implies all_canonical_in(
            after.ledger,
            after.nodes[x].handles(),
        ) by {
            if m.nodes.contains_key(x) {
                lemma_canonical_grows(m.ledger, after.ledger, m.nodes[x].handles());
            }
        }
        assert forall|x: u64| #[trigger] after.instances.contains_key(x) implies all_canonical_in(
            after.ledger,
            after.instances[x].handles(),
        ) by {
            if m.instances.contains_key(x) {
                lemma_canonical_grows(m.ledger, after.ledger, m.instances[x].handles());
            }
        }
        assert forall|x: u64| #[trigger] after.face_materials.contains_key(
            x,
        ) implies all_canonical_in(after.ledger, after.face_materials[x].handles()) by {
            if m.face_materials.contains_key(x) {
                lemma_canonical_grows(m.ledger, after.ledger, m.face_materials[x].handles());
            }
        }
        assert forall|x: u64| #[trigger] after.line_materials.contains_key(
            x,
        ) implies all_canonical_in(after.ledger, after.line_materials[x].handles()) by {
            if m.line_materials.contains_key(x) {
                lemma_canonical_grows(m.ledger, after.ledger, m.line_materials[x].handles());
            }
        }
        assert forall|x: u64| #[trigger] after.point_materials.contains_key(
            x,
        ) implies all_canonical_in(after.ledger, after.point_materials[x].handles()) by {
            if m.point_materials.contains_key(x) {
                lemma_canonical_grows(m.ledger, after.ledger, m.point_materials[x].handles());
            }
        }
    }
    lemma_unbound_role_line(source, item);
    assert forall|c: u64| #[trigger] after.ledger.cores.contains_key(c) implies after.refers_to(
        after.ledger.cores[c].kind,
        after.ledger.cores[c].id,
    ) by {
        let kind = after.ledger.cores[c].kind;
        let id = after.ledger.cores[c].id;
        if m.ledger.cores.contains_key(c) {
            assert(m.refers_to(kind, id));
            lemma_refers_grows_line(m, after, k, item, kind, id);
        } else {
            assert(line_role(source)(kind, id));
            assert(after.line_materials.contains_key(k) && line_role(after.line_materials[k])(kind, id));
        }
    }
}

proof fn lemma_refers_grows_line(
    m: SceneModel,
    after: SceneModel,
    k: u64,
    item: LineMaterialParts,
    kind: ResourceKind,
    id: GenericId,
)
    requires
        !m.line_materials.contains_key(k),
        after == (SceneModel { line_materials: m.line_materials.insert(k, item), ledger: after.ledger, ..m }),
        m.refers_to(kind, id),
    ensures
        after.refers_to(kind, id),
{
    if exists|x: u64| #[trigger] m.nodes.contains_key(x) && node_role(m.nodes[x])(kind, id) {
        let x = choose|x: u64| #[trigger]
            m.nodes.contains_key(x) && node_role(m.nodes[x])(kind, id);
        assert(after.nodes.contains_key(x) && node_role(after.nodes[x])(kind, id));
    }
    if exists|x: u64| #[trigger] m.instances.contains_key(x) && instance_role(m.instances[x])(kind, id) {
        let x = choose|x: u64| #[trigger]
            m.instances.contains_key(x) && instance_role(m.instances[x])(kind, id);
        assert(after.instances.contains_key(x) && instance_role(after.instances[x])(kind, id));
    }
    if exists|x: u64| #[trigger] m.face_materials.contains_key(x) && face_role(m.face_materials[x])(kind, id) {
        let x = choose|x: u64| #[trigger]
            m.face_materials.contains_key(x) && face_role(m.face_materials[x])(kind, id);
        assert(after.face_materials.contains_key(x) && face_role(after.face_materials[x])(kind, id));
    }
    if exists|x: u64| #[trigger] m.line_materials.contains_key(x) && line_role(m.line_materials[x])(kind, id) {
        let x = choose|x: u64| #[trigger]
            m.line_materials.contains_key(x) && line_role(m.line_materials[x])(kind, id);
        assert(after.line_materials.contains_key(x) && line_role(after.line_materials[x])(kind, id));
    }
    if exists|x: u64| #[trigger] m.point_materials.contains_key(x) && point_role(m.point_materials[x])(kind, id) {
        let x = choose|x: u64| #[trigger]
            m.point_materials.contains_key(x) && point_role(m.point_materials[x])(kind, id);
        assert(after.point_materials.contains_key(x) && point_role(after.point_materials[x])(kind, id));
    }
}

proof fn lemma_unbound_role_line(a: LineMaterialParts, b: LineMaterialParts)
    requires
        a.unbound() == b.unbound(),
    ensures
        forall|kind: ResourceKind, id: GenericId| #[trigger]
            line_role(a)(kind, id) ==> line_role(b)(kind, id),
{
}

proof fn lemma_built_point(m: SceneModel, after: SceneModel, k: u64, item: PointMaterialParts, source: PointMaterialParts)
    requires
        m.rebuilt(),
        m.point_materials.dom().finite(),
        !m.point_materials.contains_key(k),
        after == (SceneModel { point_materials: m.point_materials.insert(k, item), ledger: after.ledger, ..m }),
        minted_all(m.ledger, after.ledger, item.handles(), point_role(source)),
        source.unbound() == item.unbound(),
    ensures
        after.rebuilt(),
{
    assert forall|c: u64| #[trigger] after.ledger.strong(c) == after.refs(c) by {
        lemma_total_insert(m.point_materials, point_refs(c), k, item);
        assert(m.ledger.strong(c) == m.refs(c));
    }
    assert(after.all_canonical()) by {
        lemma_canonical_grows(m.ledger, after.ledger, m.roots);
        assert forall|x: u64| #[trigger] after.nodes.contains_key(x) implies all_canonical_in(
            after.ledger,
            after.nodes[x].handles(),
        ) by {
            if m.nodes.contains_key(x) {
                lemma_canonical_grows(m.ledger, after.ledger, m.nodes[x].handles());
            }
        }
        assert forall|x: u64| #[trigger] after.instances.contains_key(x) implies all_canonical_in(
            after.ledger,
            after.instances[x].handles(),
        ) by {
            if m.instances.contains_key(x) {
                lemma_canonical_grows(m.ledger, after.ledger, m.instances[x].handles());
            }
        }
        assert forall|x: u64| #[trigger] after.face_materials.contains_key(
            x,
        ) implies all_canonical_in(after.ledger, after.face_materials[x].handles()) by {
            if m.face_materials.contains_key(x) {
                lemma_canonical_grows(m.ledger, after.ledger, m.face_materials[x].handles());
            }
        }
        assert forall|x: u64| #[trigger] after.line_materials.contains_key(
            x,
        ) implies all_canonical_in(after.ledger, after.line_materials[x].handles()) by {
            if m.line_materials.contains_key(x) {
                lemma_canonical_grows(m.ledger, after.ledger, m.line_materials[x].handles());
            }
        }
        assert forall|x: u64| #[trigger] after.point_materials.contains_key(
            x,
        ) implies all_canonical_in(after.ledger, after.point_materials[x].handles()) by {
            if m.point_materials.contains_key(x) {
                lemma_canonical_grows(m.ledger, after.ledger, m.point_materials[x].handles());
            }
        }
    }
    lemma_unbound_role_point(source, item);
    assert forall|c: u64| #[trigger] after.ledger.cores.contains_key(c) implies after.refers_to(
        after.ledger.cores[c].kind,
        after.ledger.cores[c].id,
    ) by {
        let kind = after.ledger.cores[c].kind;
        let id = after.ledger.cores[c].id;
        if m.ledger.cores.contains_key(c) {
            assert(m.refers_to(kind, id));
            lemma_refers_grows_point(m, after, k, item, kind, id);
        } else {
            assert(point_role(source)(kind, id));
            assert(after.point_materials.contains_key(k) && point_role(after.point_materials[k])(kind, id));
        }
    }
}

proof fn lemma_refers_grows_point(
    m: SceneModel,
    after: SceneModel,
    k: u64,
    item: PointMaterialParts,
    kind: ResourceKind,
    id: GenericId,
)
    requires
        !m.point_materials.contains_key(k),
        after == (SceneModel { point_materials: m.point_materials.insert(k, item), ledger: after.ledger, ..m }),
        m.refers_to(kind, id),
    ensures
        after.refers_to(kind, id),
{
    if exists|x: u64| #[trigger] m.nodes.contains_key(x) && node_role(m.nodes[x])(kind, id) {
        let x = choose|x: u64| #[trigger]
            m.nodes.contains_key(x) && node_role(m.nodes[x])(kind, id);
        assert(after.nodes.contains_key(x) && node_role(after.nodes[x])(kind, id));
    }
    if exists|x: u64| #[trigger] m.instances.contains_key(x) && instance_role(m.instances[x])(kind, id) {
        let x = choose|x: u64| #[trigger]
            m.instances.contains_key(x) && instance_role(m.instances[x])(kind, id);
        assert(after.instances.contains_key(x) && instance_role(after.instances[x])(kind, id));
    }
    if exists|x: u64| #[trigger] m.face_materials.contains_key(x) && face_role(m.face_materials[x])(kind, id) {
        let x = choose|x: u64| #[trigger]
            m.face_materials.contains_key(x) && face_role(m.face_materials[x])(kind, id);
        assert(after.face_materials.contains_key(x) && face_role(after.face_materials[x])(kind, id));
    }
    if exists|x: u64| #[trigger] m.line_materials.contains_key(x) && line_role(m.line_materials[x])(kind, id) {
        let x = choose|x: u64| #[trigger]
            m.line_materials.contains_key(x) && line_role(m.line_materials[x])(kind, id);
        assert(after.line_materials.contains_key(x) && line_role(after.line_materials[x])(kind, id));
    }
    if exists|x: u64| #[trigger] m.point_materials.contains_key(x) && point_role(m.point_materials[x])(kind, id) {
        let x = choose|x: u64| #[trigger]
            m.point_materials.contains_key(x) && point_role(m.point_materials[x])(kind, id);
        assert(after.point_materials.contains_key(x) && point_role(after.point_materials[x])(kind, id));
    }
}

proof fn lemma_unbound_role_point(a: PointMaterialParts, b: PointMaterialParts)
    requires
        a.unbound() == b.unbound(),
    ensures
        forall|kind: ResourceKind, id: GenericId| #[trigger]
            point_role(a)(kind, id) ==> point_role(b)(kind, id),
{
}

impl SceneData {
    /// Copies the marked nodes into `out`, with canonical handles.
    pub(super) fn rebuild_nodes(&self, out: &mut SceneData, live: &IdSet, Ghost(rest): Ghost<nat>)
        requires
            self@.nodes.dom().finite(),
            old(out)@.rebuilt(),
            old(out)@.nodes == Map::<u64, NodeModel>::empty(),
            old(out)@.ledger.clock + total(self@.nodes, node_len()) + rest <= u64::MAX,
        ensures
            final(out)@.rebuilt(),
            final(out)@ == (SceneModel {
                nodes: final(out)@.nodes,
                ledger: final(out)@.ledger,
                ..old(out)@
            }),
            final(out)@.nodes.dom() == self@.nodes.dom().intersect(live@),
            forall|k: u64| #[trigger]
                final(out)@.nodes.contains_key(k) ==> final(out)@.nodes[k].unbound()
                    == self@.nodes[k].unbound()&& final(out)@.nodes[k].bounds_cache is None && final(out)@.nodes[k].visibility_cache is None,
            final(out)@.ledger.clock + rest <= u64::MAX,
            forall|floor: u64| #[trigger]
                cores_from(old(out)@.ledger, floor) ==> cores_from(final(out)@.ledger, floor),
    {
        let ghost start = out@;
        let ghost whole = self@.nodes;
        let ids = self.nodes.keys();
        let mut i: usize = 0;
        proof {
            lemma_total_empty(node_len());
        }
        while i < ids.len()
            invariant
                i <= ids.len(),
                whole == self@.nodes,
                whole.dom().finite(),
                ids@.no_duplicates(),
                forall|id: u64| #[trigger] ids@.contains(id) <==> whole.contains_key(id),
                out@.rebuilt(),
                out@.nodes.dom().finite(),
                out@ == (SceneModel { nodes: out@.nodes, ledger: out@.ledger, ..start }),
                out@.ledger.clock == start.ledger.clock + total(out@.nodes, node_len()),
                forall|floor: u64| #[trigger]
                    cores_from(start.ledger, floor) ==> cores_from(out@.ledger, floor),
                start.ledger.clock + total(whole, node_len()) + rest <= u64::MAX,
                forall|k: u64| #[trigger]
                    out@.nodes.contains_key(k) <==> live@.contains(k) && exists|j: int|
                        0 <= j < i && ids@[j] == k,
                forall|k: u64| #[trigger]
                    out@.nodes.contains_key(k) ==> whole.contains_key(k) && out@.nodes[k].unbound()
                        == whole[k].unbound() && out@.nodes[k].handles().len()
                        == whole[k].handles().len() && out@.nodes[k].bounds_cache is None && out@.nodes[k].visibility_cache is None,
            decreases ids.len() - i,
        {
            let id: u64 = ids[i];
            let ghost before = out@;
            proof {
                assert(ids@.contains(id));
                assert(!before.nodes.contains_key(id)) by {
                    if before.nodes.contains_key(id) {
                        let j = choose|j: int| 0 <= j < i && ids@[j] == id;
                        assert(ids@[j] != ids@[i as int]);
                    }
                }
            }
            if live.contains(id) {
                if let Some(source) = self.nodes.get(id) {
                    proof {
                        let more = before.nodes.insert(id, source@);
                        lemma_total_insert(before.nodes, node_len(), id, source@);
                        assert forall|k: u64| #[trigger] more.contains_key(
                            k,
                        ) implies whole.contains_key(k) && node_len()(more[k]) == node_len()(
                            whole[k],
                        ) by {
                            if k != id {
                                assert(before.nodes.contains_key(k));
                            }
                        }
                        lemma_total_part(more, whole, node_len());
                    }
                    let new = canon_node(&mut out.ledger, source);
                    let ghost item = new@;
                    out.nodes.insert(id, new);
                    proof {
                        lemma_built_node(before, out@, id, item, source@);
                        lemma_total_insert(before.nodes, node_len(), id, item);
                    }
                }
            }
            proof {
                assert forall|k: u64| #[trigger] out@.nodes.contains_key(k) <==> live@.contains(k)
                    && exists|j: int| 0 <= j < i + 1 && ids@[j] == k by {
                    if before.nodes.contains_key(k) {
                        let j = choose|j: int| 0 <= j < i && ids@[j] == k;
                        assert(0 <= j < i + 1 && ids@[j] == k);
                    }
                    if k == id {
                        assert(ids@[i as int] == k);
                    }
                    if live@.contains(k) && exists|j: int| 0 <= j < i + 1 && ids@[j] == k {
                        let j = choose|j: int| 0 <= j < i + 1 && ids@[j] == k;
                        if j < i {
                            assert(before.nodes.contains_key(k));
                        }
                    }
                }
            }
            i = i + 1;
        }
        proof {
            assert(out@.nodes.dom() =~= whole.dom().intersect(live@)) by {
                assert forall|k: u64| out@.nodes.dom().contains(k) <==> whole.dom().intersect(
                    live@,
                ).contains(k) by {
                    assert(out@.nodes.contains_key(k) <==> live@.contains(k) && exists|j: int|
                        0 <= j < ids.len() && ids@[j] == k);
                    if whole.contains_key(k) {
                        assert(ids@.contains(k));
                    }
                }
            }
            lemma_total_part(out@.nodes, whole, node_len());
        }
    }

    /// Copies the marked instances into `out`, with canonical handles.
    pub(super) fn rebuild_instances(&self, out: &mut SceneData, live: &IdSet, Ghost(rest): Ghost<nat>)
        requires
            self@.instances.dom().finite(),
            old(out)@.rebuilt(),
            old(out)@.instances == Map::<u64, InstanceParts>::empty(),
            old(out)@.ledger.clock + total(self@.instances, instance_len()) + rest <= u64::MAX,
        ensures
            final(out)@.rebuilt(),
            final(out)@ == (SceneModel {
                instances: final(out)@.instances,
                ledger: final(out)@.ledger,
                ..old(out)@
            }),
            final(out)@.instances.dom() == self@.instances.dom().intersect(live@),
            forall|k: u64| #[trigger]
                final(out)@.instances.contains_key(k) ==> final(out)@.instances[k].unbound()
                    == self@.instances[k].unbound(),
            final(out)@.ledger.clock + rest <= u64::MAX,
            forall|floor: u64| #[trigger]
                cores_from(old(out)@.ledger, floor) ==> cores_from(final(out)@.ledger, floor),
    {
        let ghost start = out@;
        let ghost whole = self@.instances;
        let ids = self.instances.keys();
        let mut i: usize = 0;
        proof {
            lemma_total_empty(instance_len());
        }
        while i < ids.len()
            invariant
                i <= ids.len(),
                whole == self@.instances,
                whole.dom().finite(),
                ids@.no_duplicates(),
                forall|id: u64| #[trigger] ids@.contains(id) <==> whole.contains_key(id),
                out@.rebuilt(),
                out@.instances.dom().finite(),
                out@ == (SceneModel { instances: out@.instances, ledger: out@.ledger, ..start }),
                out@.ledger.clock == start.ledger.clock + total(out@.instances, instance_len()),
                forall|floor: u64| #[trigger]
                    cores_from(start.ledger, floor) ==> cores_from(out@.ledger, floor),
                start.ledger.clock + total(whole, instance_len()) + rest <= u64::MAX,
                forall|k: u64| #[trigger]
                    out@.instances.contains_key(k) <==> live@.contains(k) && exists|j: int|
                        0 <= j < i && ids@[j] == k,
                forall|k: u64| #[trigger]
                    out@.instances.contains_key(k) ==> whole.contains_key(k) && out@.instances[k].unbound()
                        == whole[k].unbound() && out@.instances[k].handles().len()
                        == whole[k].handles().len(),
            decreases ids.len() - i,
        {
            let id: u64 = ids[i];
            let ghost before = out@;
            proof {
                assert(ids@.contains(id));
                assert(!before.instances.contains_key(id)) by {
                    if before.instances.contains_key(id) {
                        let j = choose|j: int| 0 <= j < i && ids@[j] == id;
                        assert(ids@[j] != ids@[i as int]);
                    }
                }
            }
            if live.contains(id) {
                if let Some(source) = self.instances.get(id) {
                    proof {
                        let more = before.instances.insert(id, source@);
                        lemma_total_insert(before.instances, instance_len(), id, source@);
                        assert forall|k: u64| #[trigger] more.contains_key(
                            k,
                        ) implies whole.contains_key(k) && instance_len()(more[k]) == instance_len()(
                            whole[k],
                        ) by {
                            if k != id {
                                assert(before.instances.contains_key(k));
                            }
                        }
                        lemma_total_part(more, whole, instance_len());
                    }
                    let new = Instance::from_parts(canon_instance(&mut out.ledger, source.parts()));
                    let ghost item = new@;
                    out.instances.insert(id, new);
                    proof {
                        lemma_built_instance(before, out@, id, item, source@);
                        lemma_total_insert(before.instances, instance_len(), id, item);
                    }
                }
            }
            proof {
                assert forall|k: u64| #[trigger] out@.instances.contains_key(k) <==> live@.contains(k)
                    && exists|j: int| 0 <= j < i + 1 && ids@[j] == k by {
                    if before.instances.contains_key(k) {
                        let j = choose|j: int| 0 <= j < i && ids@[j] == k;
                        assert(0 <= j < i + 1 && ids@[j] == k);
                    }
                    if k == id {
                        assert(ids@[i as int] == k);
                    }
                    if live@.contains(k) && exists|j: int| 0 <= j < i + 1 && ids@[j] == k {
                        let j = choose|j: int| 0 <= j < i + 1 && ids@[j] == k;
                        if j < i {
                            assert(before.instances.contains_key(k));
                        }
                    }
                }
            }
            i = i + 1;
        }
        proof {
            assert(out@.instances.dom() =~= whole.dom().intersect(live@)) by {
                assert forall|k: u64| out@.instances.dom().contains(k) <==> whole.dom().intersect(
                    live@,
                ).contains(k) by {
                    assert(out@.instances.contains_key(k) <==> live@.contains(k) && exists|j: int|
                        0 <= j < ids.len() && ids@[j] == k);
                    if whole.contains_key(k) {
                        assert(ids@.contains(k));
                    }
                }
            }
            lemma_total_part(out@.instances, whole, instance_len());
        }
    }

    /// Copies the marked face materials into `out`, with canonical handles.
    pub(super) fn rebuild_face_materials(&self, out: &mut SceneData, live: &IdSet, Ghost(rest): Ghost<nat>)
        requires
            self@.face_materials.dom().finite(),
            old(out)@.rebuilt(),
            old(out)@.face_materials == Map::<u64, FaceMaterialParts>::empty(),
            old(out)@.ledger.clock + total(self@.face_materials, face_len()) + rest <= u64::MAX,
        ensures
            final(out)@.rebuilt(),
            final(out)@ == (SceneModel {
                face_materials: final(out)@.face_materials,
                ledger: final(out)@.ledger,
                ..old(out)@
            }),
            final(out)@.face_materials.dom() == self@.face_materials.dom().intersect(live@),
            forall|k: u64| #[trigger]
                final(out)@.face_materials.contains_key(k) ==> final(out)@.face_materials[k].unbound()
                    == self@.face_materials[k].unbound(),
            final(out)@.ledger.clock + rest <= u64::MAX,
            forall|floor: u64| #[trigger]
                cores_from(old(out)@.ledger, floor) ==> cores_from(final(out)@.ledger, floor),
    {
        let ghost start = out@;
        let ghost whole = self@.face_materials;
        let ids = self.face_materials.keys();
        let mut i: usize = 0;
        proof {
            lemma_total_empty(face_len());
        }
        while i < ids.len()
            invariant
                i <= ids.len(),
                whole == self@.face_materials,
                whole.dom().finite(),
                ids@.no_duplicates(),
                forall|id: u64| #[trigger] ids@.contains(id) <==> whole.contains_key(id),
                out@.rebuilt(),
                out@.face_materials.dom().finite(),
                out@ == (SceneModel { face_materials: out@.face_materials, ledger: out@.ledger, ..start }),
                out@.ledger.clock == start.ledger.clock + total(out@.face_materials, face_len()),
                forall|floor: u64| #[trigger]
                    cores_from(start.ledger, floor) ==> cores_from(out@.ledger, floor),
                start.ledger.clock + total(whole, face_len()) + rest <= u64::MAX,
                forall|k: u64| #[trigger]
                    out@.face_materials.contains_key(k) <==> live@.contains(k) && exists|j: int|
                        0 <= j < i && ids@[j] == k,
                forall|k: u64| #[trigger]
                    out@.face_materials.contains_key(k) ==> whole.contains_key(k) && out@.face_materials[k].unbound()
                        == whole[k].unbound() && out@.face_materials[k].handles().len()
                        == whole[k].handles().len(),
            decreases ids.len() - i,
        {
            let id: u64 = ids[i];
            let ghost before = out@;
            proof {
                assert(ids@.contains(id));
                assert(!before.face_materials.contains_key(id)) by {
                    if before.face_materials.contains_key(id) {
                        let j = choose|j: int| 0 <= j < i && ids@[j] == id;
                        assert(ids@[j] != ids@[i as int]);
                    }
                }
            }
            if live.contains(id) {
                if let Some(source) = self.face_materials.get(id) {
                    proof {
                        let more = before.face_materials.insert(id, source@);
                        lemma_total_insert(before.face_materials, face_len(), id, source@);
                        assert forall|k: u64| #[trigger] more.contains_key(
                            k,
                        ) implies whole.contains_key(k) && face_len()(more[k]) == face_len()(
                            whole[k],
                        ) by {
                            if k != id {
                                assert(before.face_materials.contains_key(k));
                            }
                        }
                        lemma_total_part(more, whole, face_len());
                    }
                    let new = FaceMaterial::from_parts(canon_face(&mut out.ledger, source.parts()));
                    let ghost item = new@;
                    out.face_materials.insert(id, new);
                    proof {
                        lemma_built_face(before, out@, id, item, source@);
                        lemma_total_insert(before.face_materials, face_len(), id, item);
                    }
                }
            }
            proof {
                assert forall|k: u64| #[trigger] out@.face_materials.contains_key(k) <==> live@.contains(k)
                    && exists|j: int| 0 <= j < i + 1 && ids@[j] == k by {
                    if before.face_materials.contains_key(k) {
                        let j = choose|j: int| 0 <= j < i && ids@[j] == k;
                        assert(0 <= j < i + 1 && ids@[j] == k);
                    }
                    if k == id {
                        assert(ids@[i as int] == k);
                    }
                    if live@.contains(k) && exists|j: int| 0 <= j < i + 1 && ids@[j] == k {
                        let j = choose|j: int| 0 <= j < i + 1 && ids@[j] == k;
                        if j < i {
                            assert(before.face_materials.contains_key(k));
                        }
                    }
                }
            }
            i = i + 1;
        }
        proof {
            assert(out@.face_materials.dom() =~= whole.dom().intersect(live@)) by {
                assert forall|k: u64| out@.face_materials.dom().contains(k) <==> whole.dom().intersect(
                    live@,
                ).contains(k) by {
                    assert(out@.face_materials.contains_key(k) <==> live@.contains(k) && exists|j: int|
                        0 <= j < ids.len() && ids@[j] == k);
                    if whole.contains_key(k) {
                        assert(ids@.contains(k));
                    }
                }
            }
            lemma_total_part(out@.face_materials, whole, face_len());
        }
    }

    /// Copies the marked line materials into `out`, with canonical handles.
    pub(super) fn rebuild_line_materials(&self, out: &mut SceneData, live: &IdSet, Ghost(rest): Ghost<nat>)
        requires
            self@.line_materials.dom().finite(),
            old(out)@.rebuilt(),
            old(out)@.line_materials == Map::<u64, LineMaterialParts>::empty(),
            old(out)@.ledger.clock + total(self@.line_materials, line_len()) + rest <= u64::MAX,
        ensures
            final(out)@.rebuilt(),
            final(out)@ == (SceneModel {
                line_materials: final(out)@.line_materials,
                ledger: final(out)@.ledger,
                ..old(out)@
            }),
            final(out)@.line_materials.dom() == self@.line_materials.dom().intersect(live@),
            forall|k: u64| #[trigger]
                final(out)@.line_materials.contains_key(k) ==> final(out)@.line_materials[k].unbound()
                    == self@.line_materials[k].unbound(),
            final(out)@.ledger.clock + rest <= u64::MAX,
            forall|floor: u64| #[trigger]
                cores_from(old(out)@.ledger, floor) ==> cores_from(final(out)@.ledger, floor),
    {
        let ghost start = out@;
        let ghost whole = self@.line_materials;
        let ids = self.line_materials.keys();
        let mut i: usize = 0;
        proof {
            lemma_total_empty(line_len());
        }
        while i < ids.len()
            invariant
                i <= ids.len(),
                whole == self@.line_materials,
                whole.dom().finite(),
                ids@.no_duplicates(),
                forall|id: u64| #[trigger] ids@.contains(id) <==> whole.contains_key(id),
                out@.rebuilt(),
                out@.line_materials.dom().finite(),
                out@ == (SceneModel { line_materials: out@.line_materials, ledger: out@.ledger, ..start }),
                out@.ledger.clock == start.ledger.clock + total(out@.line_materials, line_len()),
                forall|floor: u64| #[trigger]
                    cores_from(start.ledger, floor) ==> cores_from(out@.ledger, floor),
                start.ledger.clock + total(whole, line_len()) + rest <= u64::MAX,
                forall|k: u64| #[trigger]
                    out@.line_materials.contains_key(k) <==> live@.contains(k) && exists|j: int|
                        0 <= j < i && ids@[j] == k,
                forall|k: u64| #[trigger]
                    out@.line_materials.contains_key(k) ==> whole.contains_key(k) && out@.line_materials[k].unbound()
                        == whole[k].unbound() && out@.line_materials[k].handles().len()
                        == whole[k].handles().len(),
            decreases ids.len() - i,
        {
            let id: u64 = ids[i];
            let ghost before = out@;
            proof {
                assert(ids@.contains(id));
                assert(!before.line_materials.contains_key(id)) by {
                    if before.line_materials.contains_key(id) {
                        let j = choose|j: int| 0 <= j < i && ids@[j] == id;
                        assert(ids@[j] != ids@[i as int]);
                    }
                }
            }
            if live.contains(id) {
                if let Some(source) = self.line_materials.get(id) {
                    proof {
                        let more = before.line_materials.insert(id, source@);
                        lemma_total_insert(before.line_materials, line_len(), id, source@);
                        assert forall|k: u64| #[trigger] more.contains_key(
                            k,
                        ) implies whole.contains_key(k) && line_len()(more[k]) == line_len()(
                            whole[k],
                        ) by {
                            if k != id {
                                assert(before.line_materials.contains_key(k));
                            }
                        }
                        lemma_total_part(more, whole, line_len());
                    }
                    let new = LineMaterial::from_parts(canon_line(&mut out.ledger, source.parts()));
                    let ghost item = new@;
                    out.line_materials.insert(id, new);
                    proof {
                        lemma_built_line(before, out@, id, item, source@);
                        lemma_total_insert(before.line_materials, line_len(), id, item);
                    }
                }
            }
            proof {
                assert forall|k: u64| #[trigger] out@.line_materials.contains_key(k) <==> live@.contains(k)
                    && exists|j: int| 0 <= j < i + 1 && ids@[j] == k by {
                    if before.line_materials.contains_key(k) {
                        let j = choose|j: int| 0 <= j < i && ids@[j] == k;
                        assert(0 <= j < i + 1 && ids@[j] == k);
                    }
                    if k == id {
                        assert(ids@[i as int] == k);
                    }
                    if live@.contains(k) && exists|j: int| 0 <= j < i + 1 && ids@[j] == k {
                        let j = choose|j: int| 0 <= j < i + 1 && ids@[j] == k;
                        if j < i {
                            assert(before.line_materials.contains_key(k));
                        }
                    }
                }
            }
            i = i + 1;
        }
        proof {
            assert(out@.line_materials.dom() =~= whole.dom().intersect(live@)) by {
                assert forall|k: u64| out@.line_materials.dom().contains(k) <==> whole.dom().intersect(
                    live@,
                ).contains(k) by {
                    assert(out@.line_materials.contains_key(k) <==> live@.contains(k) && exists|j: int|
                        0 <= j < ids.len() && ids@[j] == k);
                    if whole.contains_key(k) {
                        assert(ids@.contains(k));
                    }
                }
            }
            lemma_total_part(out@.line_materials, whole, line_len());
        }
    }

    /// Copies the marked point materials into `out`, with canonical handles.
    pub(super) fn rebuild_point_materials(&self, out: &mut SceneData, live: &IdSet, Ghost(rest): Ghost<nat>)
        requires
            self@.point_materials.dom().finite(),
            old(out)@.rebuilt(),
            old(out)@.point_materials == Map::<u64, PointMaterialParts>::empty(),
            old(out)@.ledger.clock + total(self@.point_materials, point_len()) + rest <= u64::MAX,
        ensures
            final(out)@.rebuilt(),
            final(out)@ == (SceneModel {
                point_materials: final(out)@.point_materials,
                ledger: final(out)@.ledger,
                ..old(out)@
            }),
            final(out)@.point_materials.dom() == self@.point_materials.dom().intersect(live@),
            forall|k: u64| #[trigger]
                final(out)@.point_materials.contains_key(k) ==> final(out)@.point_materials[k].unbound()
                    == self@.point_materials[k].unbound(),
            final(out)@.ledger.clock + rest <= u64::MAX,
            forall|floor: u64| #[trigger]
                cores_from(old(out)@.ledger, floor) ==> cores_from(final(out)@.ledger, floor),
    {
        let ghost start = out@;
        let ghost whole = self@.point_materials;
        let ids = self.point_materials.keys();
        let mut i: usize = 0;
        proof {
            lemma_total_empty(point_len());
        }
        while i < ids.len()
            invariant
                i <= ids.len(),
                whole == self@.point_materials,
                whole.dom().finite(),
                ids@.no_duplicates(),
                forall|id: u64| #[trigger] ids@.contains(id) <==> whole.contains_key(id),
                out@.rebuilt(),
                out@.point_materials.dom().finite(),
                out@ == (SceneModel { point_materials: out@.point_materials, ledger: out@.ledger, ..start }),
                out@.ledger.clock == start.ledger.clock + total(out@.point_materials, point_len()),
                forall|floor: u64| #[trigger]
                    cores_from(start.ledger, floor) ==> cores_from(out@.ledger, floor),
                start.ledger.clock + total(whole, point_len()) + rest <= u64::MAX,
                forall|k: u64| #[trigger]
                    out@.point_materials.contains_key(k) <==> live@.contains(k) && exists|j: int|
                        0 <= j < i && ids@[j] == k,
                forall|k: u64| #[trigger]
                    out@.point_materials.contains_key(k) ==> whole.contains_key(k) && out@.point_materials[k].unbound()
                        == whole[k].unbound() && out@.point_materials[k].handles().len()
                        == whole[k].handles().len(),
            decreases ids.len() - i,
        {
            let id: u64 = ids[i];
            let ghost before = out@;
            proof {
                assert(ids@.contains(id));
                assert(!before.point_materials.contains_key(id)) by {
                    if before.point_materials.contains_key(id) {
                        let j = choose|j: int| 0 <= j < i && ids@[j] == id;
                        assert(ids@[j] != ids@[i as int]);
                    }
                }
            }
            if live.contains(id) {
                if let Some(source) = self.point_materials.get(id) {
                    proof {
                        let more = before.point_materials.insert(id, source@);
                        lemma_total_insert(before.point_materials, point_len(), id, source@);
                        assert forall|k: u64| #[trigger] more.contains_key(
                            k,
                        ) implies whole.contains_key(k) && point_len()(more[k]) == point_len()(
                            whole[k],
                        ) by {
                            if k != id {
                                assert(before.point_materials.contains_key(k));
                            }
                        }
                        lemma_total_part(more, whole, point_len());
                    }
                    let new = PointMaterial::from_parts(canon_point(&mut out.ledger, source.parts()));
                    let ghost item = new@;
                    out.point_materials.insert(id, new);
                    proof {
                        lemma_built_point(before, out@, id, item, source@);
                        lemma_total_insert(before.point_materials, point_len(), id, item);
                    }
                }
            }
            proof {
                assert forall|k: u64| #[trigger] out@.point_materials.contains_key(k) <==> live@.contains(k)
                    && exists|j: int| 0 <= j < i + 1 && ids@[j] == k by {
                    if before.point_materials.contains_key(k) {
                        let j = choose|j: int| 0 <= j < i && ids@[j] == k;
                        assert(0 <= j < i + 1 && ids@[j] == k);
                    }
                    if k == id {
                        assert(ids@[i as int] == k);
                    }
                    if live@.contains(k) && exists|j: int| 0 <= j < i + 1 && ids@[j] == k {
                        let j = choose|j: int| 0 <= j < i + 1 && ids@[j] == k;
                        if j < i {
                            assert(before.point_materials.contains_key(k));
                        }
                    }
                }
            }
            i = i + 1;
        }
        proof {
            assert(out@.point_materials.dom() =~= whole.dom().intersect(live@)) by {
                assert forall|k: u64| out@.point_materials.dom().contains(k) <==> whole.dom().intersect(
                    live@,
                ).contains(k) by {
                    assert(out@.point_materials.contains_key(k) <==> live@.contains(k) && exists|j: int|
                        0 <= j < ids.len() && ids@[j] == k);
                    if whole.contains_key(k) {
                        assert(ids@.contains(k));
                    }
                }
            }
            lemma_total_part(out@.point_materials, whole, point_len());
        }
    }

    /// Copies the roots into `out`, with canonical handles.
    pub(super) fn rebuild_roots(&self, out: &mut SceneData)
        requires
            old(out)@.rebuilt(),
            old(out)@.roots.len() == 0,
            old(out)@.ledger.clock + self@.roots.len() <= u64::MAX,
        ensures
            final(out)@.rebuilt(),
            final(out)@ == (SceneModel {
                roots: final(out)@.roots,
                ledger: final(out)@.ledger,
                ..old(out)@
            }),
            unbind_all(final(out)@.roots) == unbind_all(self@.roots),
            forall|floor: u64| #[trigger]
                cores_from(old(out)@.ledger, floor) ==> cores_from(final(out)@.ledger, floor),
    {
        let ghost before = out@;
        let ghost roots = self@.roots;
        let ghost role = |kind: ResourceKind, id: GenericId|
            kind == ResourceKind::Node && lists_id(roots, id);
        proof {
            assert forall|i: int| 0 <= i < roots.len() implies role(
                ResourceKind::Node,
                (#[trigger] roots[i]).id,
            ) by {
                assert(lists_id(roots, roots[i].id));
            }
        }
        let new = canon_all(&mut out.ledger, &self.root_nodes, ResourceKind::Node, Ghost(role));
        out.root_nodes = new;
        proof {
            let after = out@;
            assert forall|c: u64| #[trigger] after.ledger.strong(c) == after.refs(c) by {
                assert(before.ledger.strong(c) == before.refs(c));
                assert(before.roots =~= Seq::empty());
                assert(count_core(before.roots, c) == 0);
            }
            assert(after.all_canonical()) by {
                assert forall|x: u64| #[trigger] after.nodes.contains_key(
                    x,
                ) implies all_canonical_in(after.ledger, after.nodes[x].handles()) by {
                    lemma_canonical_grows(before.ledger, after.ledger, before.nodes[x].handles());
                }
                assert forall|x: u64| #[trigger] after.instances.contains_key(
                    x,
                ) implies all_canonical_in(after.ledger, after.instances[x].handles()) by {
                    lemma_canonical_grows(
                        before.ledger,
                        after.ledger,
                        before.instances[x].handles(),
                    );
                }
                assert forall|x: u64| #[trigger] after.face_materials.contains_key(
                    x,
                ) implies all_canonical_in(after.ledger, after.face_materials[x].handles()) by {
                    lemma_canonical_grows(
                        before.ledger,
                        after.ledger,
                        before.face_materials[x].handles(),
                    );
                }
                assert forall|x: u64| #[trigger] after.line_materials.contains_key(
                    x,
                ) implies all_canonical_in(after.ledger, after.line_materials[x].handles()) by {
                    lemma_canonical_grows(
                        before.ledger,
                        after.ledger,
                        before.line_materials[x].handles(),
                    );
                }
                assert forall|x: u64| #[trigger] after.point_materials.contains_key(
                    x,
                ) implies all_canonical_in(after.ledger, after.point_materials[x].handles()) by {
                    lemma_canonical_grows(
                        before.ledger,
                        after.ledger,
                        before.point_materials[x].handles(),
                    );
                }
            }
            assert forall|id: GenericId| lists_id(roots, id) implies lists_id(after.roots, id) by {
                let i = choose|i: int| 0 <= i < roots.len() && (#[trigger] roots[i]).id == id;
                assert(unbind_all(roots)[i] == unbind(roots[i]));
                assert(unbind_all(after.roots)[i] == unbind(after.roots[i]));
                assert(after.roots[i].id == id);
            }
            assert forall|c: u64| #[trigger] after.ledger.cores.contains_key(
                c,
            ) implies after.refers_to(after.ledger.cores[c].kind, after.ledger.cores[c].id) by {
                if before.ledger.cores.contains_key(c) {
                    assert(before.refers_to(
                        before.ledger.cores[c].kind,
                        before.ledger.cores[c].id,
                    ));
                } else {
                    assert(role(after.ledger.cores[c].kind, after.ledger.cores[c].id));
                }
            }
        }
    }
}

/// What is referred to depends on the owners of handles only.
pub proof fn lemma_refers_same(
    m: SceneModel,
    after: SceneModel,
    kind: ResourceKind,
    id: GenericId,
)
    requires
        after.nodes == m.nodes,
        after.roots == m.roots,
        after.instances == m.instances,
        after.face_materials == m.face_materials,
        after.line_materials == m.line_materials,
        after.point_materials == m.point_materials,
        m.refers_to(kind, id),
    ensures
        after.refers_to(kind, id),
{
    if exists|x: u64| #[trigger] m.nodes.contains_key(x) && node_role(m.nodes[x])(kind, id) {
        let x = choose|x: u64| #[trigger]
            m.nodes.contains_key(x) && node_role(m.nodes[x])(kind, id);
        assert(after.nodes.contains_key(x) && node_role(after.nodes[x])(kind, id));
    }
    if exists|x: u64| #[trigger] m.instances.contains_key(x) && instance_role(m.instances[x])(kind, id) {
        let x = choose|x: u64| #[trigger]
            m.instances.contains_key(x) && instance_role(m.instances[x])(kind, id);
        assert(after.instances.contains_key(x) && instance_role(after.instances[x])(kind, id));
    }
    if exists|x: u64| #[trigger] m.face_materials.contains_key(x) && face_role(m.face_materials[x])(kind, id) {
        let x = choose|x: u64| #[trigger]
            m.face_materials.contains_key(x) && face_role(m.face_materials[x])(kind, id);
        assert(after.face_materials.contains_key(x) && face_role(after.face_materials[x])(kind, id));
    }
    if exists|x: u64| #[trigger] m.line_materials.contains_key(x) && line_role(m.line_materials[x])(kind, id) {
        let x = choose|x: u64| #[trigger]
            m.line_materials.contains_key(x) && line_role(m.line_materials[x])(kind, id);
        assert(after.line_materials.contains_key(x) && line_role(after.line_materials[x])(kind, id));
    }
    if exists|x: u64| #[trigger] m.point_materials.contains_key(x) && point_role(m.point_materials[x])(kind, id) {
        let x = choose|x: u64| #[trigger]
            m.point_materials.contains_key(x) && point_role(m.point_materials[x])(kind, id);
        assert(after.point_materials.contains_key(x) && point_role(after.point_materials[x])(kind, id));
    }
}

} // verus!
