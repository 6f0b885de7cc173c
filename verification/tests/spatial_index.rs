use cgmath::{EuclideanSpace, InnerSpace};
use duck_scene::common::{Aabb, Point3, Scalar, Vector3};
use duck_scene::resource::mesh::{Mesh, MeshPrimitive, PrimitiveType, Segment, Triangle, Vertex};
use duck_scene::geom_query::bvh::{BoxMath, FlatBvh};
use duck_scene::geom_query::spatial_index::{MeshSpatialIndex, SegmentApproach, TriangleHit};

fn bits(x: f32) -> Scalar {
    x.to_bits()
}

fn float(x: Scalar) -> f32 {
    f32::from_bits(x)
}

fn point(x: f32, y: f32, z: f32) -> Point3 {
    Point3 { x: bits(x), y: bits(y), z: bits(z) }
}

fn vector(x: f32, y: f32, z: f32) -> Vector3 {
    Vector3 { x: bits(x), y: bits(y), z: bits(z) }
}

fn point_out(p: Point3) -> cgmath::Point3<f32> {
    cgmath::Point3::new(float(p.x), float(p.y), float(p.z))
}

fn point_in(p: cgmath::Point3<f32>) -> Point3 {
    point(p.x, p.y, p.z)
}

fn vector_out(v: Vector3) -> cgmath::Vector3<f32> {
    cgmath::Vector3::new(float(v.x), float(v.y), float(v.z))
}

fn vector_in(v: cgmath::Vector3<f32>) -> Vector3 {
    vector(v.x, v.y, v.z)
}

fn length(v: Vector3) -> Scalar {
    bits(vector_out(v).magnitude())
}

fn merge(a: Aabb, b: Aabb) -> Aabb {
    let low = |x: Scalar, y: Scalar| bits(float(x).min(float(y)));
    let high = |x: Scalar, y: Scalar| bits(float(x).max(float(y)));
    Aabb {
        min: Point3 {
            x: low(a.min.x, b.min.x),
            y: low(a.min.y, b.min.y),
            z: low(a.min.z, b.min.z),
        },
        max: Point3 {
            x: high(a.max.x, b.max.x),
            y: high(a.max.y, b.max.y),
            z: high(a.max.z, b.max.z),
        },
    }
}

fn center(b: Aabb) -> Point3 {
    point_in(point_out(b.min).midpoint(point_out(b.max)))
}

fn grown(b: Aabb, p: Point3) -> Aabb {
    merge(b, Aabb { min: p, max: p })
}

fn extent(b: Aabb) -> Vector3 {
    vector_in(point_out(b.max) - point_out(b.min))
}

fn distance(a: Point3, b: Point3) -> Scalar {
    bits((point_out(b) - point_out(a)).magnitude())
}

const EPSILON: f32 = 1e-6;

type V = cgmath::Vector3<f32>;

/// A deterministic generator, so that failures reproduce.
struct Rng(u32);

impl Rng {
    /// Uniform in [-1, 1).
    fn coord(&mut self) -> f32 {
        self.0 ^= self.0 << 13;
        self.0 ^= self.0 >> 17;
        self.0 ^= self.0 << 5;
        (self.0 >> 8) as f32 / (1 << 23) as f32 - 1.0
    }

    fn vertex(&mut self, center: [f32; 3], spread: f32) -> Vertex {
        Vertex {
            position: point(
                center[0] + self.coord() * spread,
                center[1] + self.coord() * spread,
                center[2] + self.coord() * spread,
            ),
            tex_coords: vector(0.0, 0.0, 0.0),
            normal: vector(0.0, 0.0, 0.0),
        }
    }

    fn ray(&mut self) -> Ray {
        let origin = V::new(self.coord() * 3.0, self.coord() * 3.0, self.coord() * 3.0);
        let target = V::new(self.coord(), self.coord(), self.coord());
        Ray { origin, direction: (target - origin).normalize() }
    }
}

#[derive(Clone, Copy)]
struct Ray {
    origin: V,
    direction: V,
}

fn at(p: Point3) -> V {
    point_out(p).to_vec()
}

impl Ray {
    fn entry(&self, bounds: Aabb) -> Option<Scalar> {
        let (lo, hi) = (at(bounds.min), at(bounds.max));
        let mut enter = 0.0f32;
        let mut leave = f32::INFINITY;
        for i in 0..3 {
            if self.direction[i] == 0.0 {
                if self.origin[i] < lo[i] || self.origin[i] > hi[i] {
                    return None;
                }
            } else {
                let a = (lo[i] - self.origin[i]) / self.direction[i];
                let b = (hi[i] - self.origin[i]) / self.direction[i];
                enter = enter.max(a.min(b));
                leave = leave.min(a.max(b));
            }
        }
        if enter <= leave { Some(bits(enter)) } else { None }
    }

    fn hit(&self, triangle: Triangle) -> Option<TriangleHit> {
        let (a, b, c) = (at(triangle.a), at(triangle.b), at(triangle.c));
        let (e1, e2) = (b - a, c - a);
        let p = self.direction.cross(e2);
        let det = e1.dot(p);
        if det.abs() < 1e-12 {
            return None;
        }
        let s = self.origin - a;
        let u = s.dot(p) / det;
        let q = s.cross(e1);
        let v = self.direction.dot(q) / det;
        let t = e2.dot(q) / det;
        if u < 0.0 || v < 0.0 || u + v > 1.0 || t < 0.0 {
            return None;
        }
        let hit = self.origin + self.direction * t;
        Some(TriangleHit {
            distance: bits(t),
            hit_point: point(hit.x, hit.y, hit.z),
            barycentric: vector(1.0 - u - v, u, v),
        })
    }

    /// How close the ray comes to a segment: the nearest of many samples.
    fn approach(&self, segment: Segment) -> Option<SegmentApproach<f32>> {
        let (a, b) = (at(segment.a), at(segment.b));
        let mut best: Option<SegmentApproach<f32>> = None;
        for i in 0..=64 {
            let p = a + (b - a) * (i as f32 / 64.0);
            let along = (p - self.origin).dot(self.direction).max(0.0);
            let distance = (self.origin + self.direction * along - p).magnitude();
            let nearer = match &best {
                Some(found) => distance < float(found.distance),
                None => true,
            };
            if nearer {
                best = Some(SegmentApproach { distance: bits(distance), detail: along });
            }
        }
        best
    }
}

fn minus(a: Scalar, b: Scalar) -> Scalar {
    bits(float(a) - float(b))
}

fn plus(a: Scalar, b: Scalar) -> Scalar {
    bits(float(a) + float(b))
}

fn around(points: &[Point3]) -> Aabb {
    let mut bounds = Aabb { min: points[0], max: points[0] };
    for p in points {
        bounds = grown(bounds, *p);
    }
    bounds
}

fn build(mesh: &Mesh) -> MeshSpatialIndex {
    MeshSpatialIndex::build(
        mesh,
        &|t: Triangle| around(&[t.a, t.b, t.c]),
        &|s: Segment| around(&[s.a, s.b]),
        &BoxMath { merge, center, expand: grown, size: extent },
    )
}

fn brute(mesh: &Mesh, ray: Ray) -> Vec<(u32, f32)> {
    let mut found = vec![];
    let mut k: usize = 0;
    while let Some(triangle) = mesh.triangle(k) {
        if let Some(hit) = ray.hit(triangle) {
            found.push((k as u32, float(hit.distance)));
        }
        k += 1;
    }
    found
}

/// Random small triangles and segments, split across two lists per kind, with a
/// zero-area triangle and a zero-length segment mixed in.
fn random_mesh(seed: u32, triangle_count: usize, segment_count: usize) -> Mesh {
    let mut rng = Rng(seed);
    let mut vertices = Vec::new();
    let mut triangles = Vec::new();
    let mut segments = Vec::new();

    for i in 0..triangle_count {
        let center = [rng.coord(), rng.coord(), rng.coord()];
        let base = vertices.len() as u32;
        let spread = if i == 0 { 0.0 } else { 0.3 };
        let v = rng.vertex(center, spread);
        vertices.push(v);
        vertices.push(if i == 0 { v } else { rng.vertex(center, spread) });
        vertices.push(if i == 0 { v } else { rng.vertex(center, spread) });
        triangles.extend([base, base + 1, base + 2]);
    }
    for i in 0..segment_count {
        let center = [rng.coord(), rng.coord(), rng.coord()];
        let base = vertices.len() as u32;
        let v = rng.vertex(center, 0.3);
        vertices.push(v);
        vertices.push(if i == 0 { v } else { rng.vertex(center, 0.3) });
        segments.extend([base, base + 1]);
    }

    let (tri_a, tri_b) = triangles.split_at(triangle_count / 2 * 3);
    let (seg_a, seg_b) = segments.split_at(segment_count / 2 * 2);
    let list = |primitive_type: PrimitiveType, indices: &[u32]| MeshPrimitive {
        primitive_type,
        indices: indices.to_vec(),
    };
    Mesh::from_raw(
        1,
        vertices,
        vec![
            list(PrimitiveType::TriangleList, tri_a),
            list(PrimitiveType::LineList, seg_a),
            list(PrimitiveType::TriangleList, tri_b),
            list(PrimitiveType::LineList, seg_b),
        ],
        None,
    )
}

#[test]
fn nearest_triangle_matches_brute_force() {
    for seed in 1..6 {
        let mesh = random_mesh(seed, 64, 0);
        let index = build(&mesh);
        let mut rng = Rng(seed * 1000 + 7);
        for _ in 0..50 {
            let ray = rng.ray();
            let bvh = index.nearest_triangle(
                &mesh,
                &|b: Aabb| ray.entry(b),
                &|t: Triangle| ray.hit(t),
            );
            let brute = brute(&mesh, ray)
                .into_iter()
                .min_by(|a, b| a.1.total_cmp(&b.1));
            match (&bvh, &brute) {
                (None, None) => {}
                (Some(a), Some(b)) => {
                    assert!(
                        (float(a.distance) - b.1).abs() <= EPSILON,
                        "seed {seed}: bvh {a:?} vs brute {b:?}"
                    );
                }
                _ => panic!("seed {seed}: bvh {bvh:?} vs brute {brute:?}"),
            }
        }
    }
}

#[test]
fn all_triangle_hits_match_brute_force() {
    for seed in 1..6 {
        let mesh = random_mesh(seed, 64, 0);
        let index = build(&mesh);
        let mut rng = Rng(seed * 1000 + 13);
        for _ in 0..50 {
            let ray = rng.ray();
            let mut hits = Vec::new();
            index.all_triangle_hits(
                &mesh,
                &|b: Aabb| ray.entry(b),
                &|t: Triangle| ray.hit(t),
                &minus,
                &plus,
                &mut hits,
            );
            let mut bvh: Vec<u32> = hits.into_iter().map(|h| h.triangle_index).collect();
            bvh.sort_unstable();
            let mut brute: Vec<u32> = brute(&mesh, ray).into_iter().map(|h| h.0).collect();
            brute.sort_unstable();
            assert_eq!(bvh, brute, "seed {seed}");
        }
    }
}

#[test]
fn segments_within_match_brute_force() {
    for seed in 1..6 {
        let mesh = random_mesh(seed, 0, 64);
        let index = build(&mesh);
        let mut rng = Rng(seed * 1000 + 29);
        for tolerance in [0.05f32, 0.3] {
            for _ in 0..25 {
                let ray = rng.ray();
                let found = index.for_each_segment_within(
                    &mesh,
                    bits(tolerance),
                    &|b: Aabb| ray.entry(b),
                    &|s: Segment| ray.approach(s),
                    &minus,
                    &plus,
                );
                for (_, approach) in &found {
                    assert!(float(approach.distance) <= tolerance);
                }
                let mut bvh: Vec<u32> = found.into_iter().map(|f| f.0).collect();
                bvh.sort_unstable();
                let mut brute: Vec<u32> = vec![];
                let mut k: usize = 0;
                while let Some(segment) = mesh.segment(k) {
                    let near = ray.approach(segment).unwrap();
                    if float(near.distance) <= tolerance {
                        brute.push(k as u32);
                    }
                    k += 1;
                }
                assert_eq!(k, 64);
                assert_eq!(bvh, brute, "seed {seed} tolerance {tolerance}");
            }
        }
    }
}

#[test]
fn empty_and_single_kind_meshes() {
    let ray = Ray { origin: V::new(0.0, 0.0, -5.0), direction: V::new(0.0, 0.0, 1.0) };
    let nearest = |mesh: &Mesh| {
        build(mesh).nearest_triangle(mesh, &|b: Aabb| ray.entry(b), &|t: Triangle| ray.hit(t))
    };
    let within = |mesh: &Mesh| {
        build(mesh).for_each_segment_within(
            mesh,
            bits(1.0),
            &|b: Aabb| ray.entry(b),
            &|s: Segment| ray.approach(s),
            &minus,
            &plus,
        )
    };

    let empty = Mesh::from_raw(1, vec![], vec![], None);
    assert!(nearest(&empty).is_none());
    assert!(within(&empty).is_empty(), "no segments");

    let tri_only = random_mesh(3, 16, 0);
    assert!(within(&tri_only).is_empty(), "no segments");

    let seg_only = random_mesh(4, 0, 16);
    assert!(nearest(&seg_only).is_none());
}

#[test]
fn a_hierarchy_holds_each_box_once() {
    let boxes: Vec<Aabb> = (0..37)
        .map(|i| {
            let x = ((i * 17) % 37) as f32;
            Aabb { min: point(x, 0.0, 0.0), max: point(x + 0.5, 1.0, 1.0) }
        })
        .collect();
    let bvh = FlatBvh::build(&boxes, &BoxMath { merge, center, expand: grown, size: extent });
    let mut prims = bvh.prims.clone();
    assert_ne!(prims, (0..37).collect::<Vec<u32>>());
    prims.sort_unstable();
    assert_eq!(prims, (0..37).collect::<Vec<u32>>());
    assert_eq!(bvh.nodes[0].aabb, Aabb { min: point(0.0, 0.0, 0.0), max: point(36.5, 1.0, 1.0) });
    for node in &bvh.nodes {
        if node.count > 0 {
            for i in node.index..node.index + node.count {
                let b = boxes[bvh.prims[i as usize] as usize];
                assert_eq!(merge(node.aabb, b), node.aabb);
            }
        }
    }
}

#[test]
fn the_median_splits_the_longest_axis() {
    let boxes: Vec<Aabb> = (0..10)
        .map(|i| {
            let x = (9 - i) as f32;
            Aabb { min: point(x, 0.0, 0.0), max: point(x, 0.0, 0.0) }
        })
        .collect();
    let bvh = FlatBvh::build(&boxes, &BoxMath { merge, center, expand: grown, size: extent });
    assert_eq!(bvh.nodes[0].count, 0);
    assert_eq!(bvh.nodes[1].aabb.max, point(4.0, 0.0, 0.0));
    let right = bvh.nodes[0].index as usize;
    assert_eq!(bvh.nodes[right].aabb.min, point(5.0, 0.0, 0.0));
}

#[test]
fn mesh_cache_invalidates_on_mutation() {
    let vertex = |x: f32| Vertex {
        position: point(x, 0.0, 5.0),
        tex_coords: vector(0.0, 0.0, 0.0),
        normal: vector(0.0, 0.0, 0.0),
    };
    let mut mesh = Mesh::from_raw(
        1,
        vec![vertex(-1.0), vertex(1.0), {
            let mut v = vertex(0.0);
            v.position.y = bits(1.0);
            v
        }],
        vec![MeshPrimitive {
            primitive_type: PrimitiveType::TriangleList,
            indices: vec![0, 1, 2],
        }],
        None,
    );
    let ray = Ray { origin: V::new(0.0, 0.3, 0.0), direction: V::new(0.0, 0.0, 1.0) };
    let wrapped = std::cell::Cell::new(0);
    let index = |mesh: &mut Mesh| {
        mesh.index_primitives(
            &|t: Triangle| {
                wrapped.set(wrapped.get() + 1);
                around(&[t.a, t.b, t.c])
            },
            &|s: Segment| around(&[s.a, s.b]),
            &BoxMath { merge, center, expand: grown, size: extent },
        );
    };
    let nearest = |mesh: &Mesh| {
        let index = mesh.spatial_index().unwrap();
        index.nearest_triangle(mesh, &|b: Aabb| ray.entry(b), &|t: Triangle| ray.hit(t))
    };

    assert!(mesh.spatial_index().is_none());
    index(&mut mesh);
    assert!(nearest(&mesh).is_some());

    // Asking again reuses the index that is kept.
    index(&mut mesh);
    index(&mut mesh);
    assert_eq!(wrapped.get(), 1);

    // Move the triangle out of the ray's path; the stale index would still hit.
    let moved: Vec<Vertex> = mesh
        .vertices()
        .iter()
        .map(|v| {
            let x = bits(float(v.position.x) + 100.0);
            Vertex { position: Point3 { x, ..v.position }, ..*v }
        })
        .collect();
    mesh.set_vertices(moved, None);
    assert_eq!(mesh.generation(), 2);
    assert!(mesh.spatial_index().is_none());
    index(&mut mesh);
    assert_eq!(wrapped.get(), 2);
    assert!(nearest(&mesh).is_none());

    // A copy holds the same and keeps no index yet.
    assert!(mesh.copy().spatial_index().is_none());
    assert_eq!((mesh.copy().id(), mesh.copy().vertices().len()), (1, 3));
    assert_eq!(mesh.copy().primitives()[0].indices, vec![0, 1, 2]);
}
