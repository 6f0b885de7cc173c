//! The stock rendering workflows.
//!
//! Each is an ordered list of passes, not a type of its own, so that a caller can start
//! from one and adjust it rather than rebuild it.

use super::pass::flat_color::{FlatColorPass, FlatColorPassDesc};
use super::pass::ids::{
    PassId, FACES, LINES_AND_POINTS, OCCLUDED_LINES, OUTLINE_COMPOSITE, OUTLINE_MASK, OVERLAY,
    SILHOUETTE, SOLID, SUB_GEOM_HIGHLIGHT, VISIBLE_LINES,
};
use super::pass::main_pass::{MainPass, OverlayPass, PrimitiveFilter};
use super::pass::outline_pass::{OutlineCompositePass, OutlineMaskPass};
use super::pass::silhouette::SilhouetteEdgesPass;
use super::pipeline::{DepthBias, DepthTest, Face};
use crate::common::{RgbaColor, ONE, ZERO};
use crate::resource::mesh::PrimitiveType;
use vstd::prelude::*;

verus! {

/// A built-in pass.
pub enum StockPass {
    Main(MainPass),
    OutlineMask(OutlineMaskPass),
    OutlineComposite(OutlineCompositePass),
    Overlay(OverlayPass),
    /// Tints highlighted faces, edges and points.
    SubGeomHighlight,
    FlatColor(FlatColorPass),
    Silhouette(SilhouetteEdgesPass),
}

/// A named, ordered list of passes, each under its id.
pub struct SceneWorkflow {
    pub name: &'static str,
    pub passes: Vec<(PassId, StockPass)>,
}

impl SceneWorkflow {
    /// The ids of the passes, in the order in which they run.
    pub open spec fn ids(&self) -> Seq<Seq<char>> {
        Seq::new(self.passes@.len(), |i: int| self.passes@[i].0@)
    }

    /// The pass at a place.
    pub open spec fn pass(&self, i: int) -> StockPass {
        self.passes@[i].1
    }
}

/// The ids of the shaded workflow.
pub open spec fn shaded_ids() -> Seq<Seq<char>> {
    seq![
        FACES@,
        OUTLINE_MASK@,
        LINES_AND_POINTS@,
        OUTLINE_COMPOSITE@,
        OVERLAY@,
        SUB_GEOM_HIGHLIGHT@,
    ]
}

/// The ids of the hidden-line workflow.
pub open spec fn hidden_line_ids() -> Seq<Seq<char>> {
    seq![SOLID@, SILHOUETTE@, OCCLUDED_LINES@, VISIBLE_LINES@]
}

/// The default shaded rendering workflow, for targets with this number of samples per
/// pixel.
///
/// Scene faces, the highlight outline mask, scene lines and points, the outline
/// composite, overlay (always-on-top) geometry, and highlights of faces, edges and
/// points.
///
/// The order carries two constraints worth preserving when editing it: the outline mask
/// sits between the two geometry passes, so that it depth-tests against faces only, and
/// the composite runs after lines and points, so that nothing cuts the outline band.
pub fn shaded(samples: u32) -> (workflow: SceneWorkflow)
    ensures
        workflow.name@ == "Shaded"@,
        workflow.ids() == shaded_ids(),
        workflow.pass(0) matches StockPass::Main(p) && p.filter() == PrimitiveFilter::Faces
            && p.clears(),
        workflow.pass(1) matches StockPass::OutlineMask(p) && p.samples() == samples,
        workflow.pass(2) matches StockPass::Main(p) && p.filter()
            == PrimitiveFilter::LinesAndPoints && !p.clears(),
        workflow.pass(3) matches StockPass::OutlineComposite(p) && p.samples() == samples
            && !p.bound(),
        workflow.pass(4) is Overlay,
        workflow.pass(5) is SubGeomHighlight,
{
    let mut passes: Vec<(PassId, StockPass)> = Vec::new();
    passes.push((FACES, StockPass::Main(MainPass::faces())));
    // Between the two geometry passes: the mask depth-tests against faces only.
    passes.push((OUTLINE_MASK, StockPass::OutlineMask(OutlineMaskPass::new(samples))));
    passes.push((LINES_AND_POINTS, StockPass::Main(MainPass::lines_and_points())));
    // After lines and points, so that nothing cuts the outline band.
    passes.push(
        (OUTLINE_COMPOSITE, StockPass::OutlineComposite(OutlineCompositePass::new(samples))),
    );
    passes.push((OVERLAY, StockPass::Overlay(OverlayPass::new())));
    // On top of the node outlines.
    passes.push((SUB_GEOM_HIGHLIGHT, StockPass::SubGeomHighlight));
    let workflow = SceneWorkflow { name: "Shaded", passes };
    proof {
        assert(workflow.ids() =~= shaded_ids());
    }
    workflow
}

/// Colors of the hidden-line workflow.
#[derive(Clone, Copy, PartialEq, Eq, Debug, Structural)]
pub struct HiddenLineConfig {
    /// Background and face color (also used as the clear color).
    pub face_color: RgbaColor,
    /// Color of lines that are visible (in front of solid geometry).
    pub visible_line_color: RgbaColor,
    /// Color of lines that are occluded (behind solid geometry).
    pub hidden_line_color: RgbaColor,
}

/// The bit pattern of `0.6`.
pub const HIDDEN_LINE_GRAY: u32 = 0x3f19_999a;

impl Default for HiddenLineConfig {
    fn default() -> (config: Self)
        ensures
            config.face_color == (RgbaColor { r: ONE, g: ONE, b: ONE, a: ONE }),
            config.visible_line_color == (RgbaColor { r: ZERO, g: ZERO, b: ZERO, a: ONE }),
            config.hidden_line_color == (RgbaColor {
                r: HIDDEN_LINE_GRAY,
                g: HIDDEN_LINE_GRAY,
                b: HIDDEN_LINE_GRAY,
                a: ONE,
            }),
    {
        HiddenLineConfig {
            face_color: RgbaColor::white(),
            visible_line_color: RgbaColor::black(),
            hidden_line_color: RgbaColor {
                r: HIDDEN_LINE_GRAY,
                g: HIDDEN_LINE_GRAY,
                b: HIDDEN_LINE_GRAY,
                a: ONE,
            },
        }
    }
}

/// The bit pattern of `2.0`.
pub const SOLID_SLOPE: u32 = 0x4000_0000;

/// Whether a pass fills the faces: it clears, writes depth, and pushes faces slightly
/// away so that edges in the same plane pass the depth test.
pub open spec fn fills_faces(desc: FlatColorPassDesc, color: RgbaColor) -> bool {
    &&& desc.label@ == "Hidden Line Solid"@
    &&& desc.cull_mode == Some(Face::Back)
    &&& desc.depth_compare == DepthTest::Less
    &&& desc.depth_write
    &&& desc.depth_bias == (DepthBias { constant: 2, slope_scale: SOLID_SLOPE, clamp: ZERO })
    &&& desc.clear_color == Some(color)
    &&& desc.primitive_filter == PrimitiveType::TriangleList
    &&& desc.color == color
}

/// Whether a pass draws the lines that pass a depth test, over what is there.
pub open spec fn draws_lines(
    desc: FlatColorPassDesc,
    label: Seq<char>,
    test: DepthTest,
    color: RgbaColor,
) -> bool {
    &&& desc.label@ == label
    &&& desc.cull_mode is None
    &&& desc.depth_compare == test
    &&& !desc.depth_write
    &&& desc.depth_bias == (DepthBias { constant: 0, slope_scale: ZERO, clamp: ZERO })
    &&& desc.clear_color is None
    &&& desc.primitive_filter == PrimitiveType::LineList
    &&& desc.color == color
}

fn line_pass(samples: u32, label: &'static str, test: DepthTest, color: RgbaColor) -> (pass:
    FlatColorPass)
    ensures
        draws_lines(pass.desc(), label@, test, color),
        pass.samples() == samples,
{
    FlatColorPass::new(
        samples,
        FlatColorPassDesc {
            label,
            cull_mode: None,
            depth_compare: test,
            depth_write: false,
            depth_bias: DepthBias { constant: 0, slope_scale: ZERO, clamp: ZERO },
            clear_color: None,
            primitive_filter: PrimitiveType::LineList,
            color,
        },
    )
}

/// The hidden-line rendering workflow, for targets with this number of samples per pixel.
///
/// Renders scene geometry as solid faces with silhouette edges detected from the depth
/// buffer, plus explicit lines in two flat colors: one for occluded lines and one for
/// visible lines. `samples_depth` says whether the adapter can sample depth textures,
/// which the silhouette needs.
///
/// `config` seeds the colors; they can be changed later without rebuilding the workflow,
/// since each line pass is addressed by its id.
pub fn hidden_line(samples: u32, samples_depth: bool, config: HiddenLineConfig) -> (workflow:
    SceneWorkflow)
    ensures
        workflow.name@ == "Hidden Line"@,
        workflow.ids() == hidden_line_ids(),
        workflow.pass(0) matches StockPass::FlatColor(p) && fills_faces(
            p.desc(),
            config.face_color,
        ) && p.samples() == samples,
        workflow.pass(1) matches StockPass::Silhouette(p) && p.samples() == samples
            && p.available() == samples_depth && !p.bound(),
        workflow.pass(2) matches StockPass::FlatColor(p) && draws_lines(
            p.desc(),
            "Hidden Line Occluded"@,
            DepthTest::Greater,
            config.hidden_line_color,
        ) && p.samples() == samples,
        workflow.pass(3) matches StockPass::FlatColor(p) && draws_lines(
            p.desc(),
            "Hidden Line Visible"@,
            DepthTest::LessEqual,
            config.visible_line_color,
        ) && p.samples() == samples,
{
    let solid = FlatColorPass::new(
        samples,
        FlatColorPassDesc {
            label: "Hidden Line Solid",
            cull_mode: Some(Face::Back),
            depth_compare: DepthTest::Less,
            depth_write: true,
            depth_bias: DepthBias { constant: 2, slope_scale: SOLID_SLOPE, clamp: ZERO },
            clear_color: Some(config.face_color),
            primitive_filter: PrimitiveType::TriangleList,
            color: config.face_color,
        },
    );
    let silhouette = SilhouetteEdgesPass::new(samples, samples_depth);
    let occluded = line_pass(
        samples,
        "Hidden Line Occluded",
        DepthTest::Greater,
        config.hidden_line_color,
    );
    let visible = line_pass(
        samples,
        "Hidden Line Visible",
        DepthTest::LessEqual,
        config.visible_line_color,
    );
    let mut passes: Vec<(PassId, StockPass)> = Vec::new();
    passes.push((SOLID, StockPass::FlatColor(solid)));
    passes.push((SILHOUETTE, StockPass::Silhouette(silhouette)));
    passes.push((OCCLUDED_LINES, StockPass::FlatColor(occluded)));
    passes.push((VISIBLE_LINES, StockPass::FlatColor(visible)));
    let workflow = SceneWorkflow { name: "Hidden Line", passes };
    proof {
        assert(workflow.ids() =~= hidden_line_ids());
    }
    workflow
}

/// The ids of a stock workflow are different from one another, so each addresses one
/// pass.
pub proof fn stock_ids_are_distinct()
    ensures
        shaded_ids().no_duplicates(),
        hidden_line_ids().no_duplicates(),
{
    reveal_strlit("faces");
    reveal_strlit("outline_mask");
    reveal_strlit("lines_and_points");
    reveal_strlit("outline_composite");
    reveal_strlit("overlay");
    reveal_strlit("sub_geom_highlight");
    reveal_strlit("solid");
    reveal_strlit("silhouette");
    reveal_strlit("occluded_lines");
    reveal_strlit("visible_lines");
    assert(FACES@.len() == 5);
    assert(OUTLINE_MASK@.len() == 12);
    assert(LINES_AND_POINTS@.len() == 16);
    assert(OUTLINE_COMPOSITE@.len() == 17);
    assert(OVERLAY@.len() == 7);
    assert(SUB_GEOM_HIGHLIGHT@.len() == 18);
    assert(SOLID@.len() == 5);
    assert(SILHOUETTE@.len() == 10);
    assert(OCCLUDED_LINES@.len() == 14);
    assert(VISIBLE_LINES@.len() == 13);
}

/// In the shaded workflow the outline mask comes after the faces and before lines and
/// points, and the composite after lines and points.
pub proof fn outlines_are_in_place(workflow: SceneWorkflow, mask: int, composite: int)
    requires
        workflow.ids() == shaded_ids(),
        0 <= mask < workflow.ids().len(),
        0 <= composite < workflow.ids().len(),
        workflow.ids()[mask] == OUTLINE_MASK@,
        workflow.ids()[composite] == OUTLINE_COMPOSITE@,
    ensures
        exists|faces: int, lines: int|
            #![trigger workflow.ids()[faces], workflow.ids()[lines]]
            0 <= faces < mask < lines < composite && workflow.ids()[faces] == FACES@
                && workflow.ids()[lines] == LINES_AND_POINTS@,
{
    stock_ids_are_distinct();
    assert(shaded_ids()[1] == OUTLINE_MASK@);
    assert(shaded_ids()[3] == OUTLINE_COMPOSITE@);
    assert(mask == 1 && composite == 3);
    assert(workflow.ids()[0] == FACES@ && workflow.ids()[2] == LINES_AND_POINTS@);
}

/// What fills the faces of the hidden-line workflow starts the frame in the color of the
/// faces and leaves their depth behind, pushed away, for lines to be tested against; and what
/// draws lines draws over it, only lines, and leaves the depth as it is, so that the visible
/// and the occluded ones are told apart by the test alone.
pub proof fn lines_are_told_apart_by_the_faces(
    solid: FlatColorPassDesc,
    face_color: RgbaColor,
    lines: FlatColorPassDesc,
    label: Seq<char>,
    test: DepthTest,
    color: RgbaColor,
)
    requires
        fills_faces(solid, face_color),
        draws_lines(lines, label, test, color),
    ensures
        solid.primitive_filter == PrimitiveType::TriangleList,
        solid.clear_color == Some(face_color),
        solid.color == face_color,
        solid.depth_write,
        solid.depth_compare == DepthTest::Less,
        solid.cull_mode == Some(Face::Back),
        solid.depth_bias.constant > 0,
        solid.depth_bias.slope_scale == 0x4000_0000,
        lines.primitive_filter == PrimitiveType::LineList,
        lines.clear_color is None,
        lines.color == color,
        !lines.depth_write,
        lines.depth_compare == test,
        lines.cull_mode is None,
        lines.depth_bias.constant == 0,
        lines.depth_bias.slope_scale == 0,
{
}

} // verus!
