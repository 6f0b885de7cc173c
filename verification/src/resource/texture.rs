//! Textures and environment maps.

use super::handle::{EnvironmentMapId, ResourceKind, SceneResource, Sealed, TextureId};
use crate::common::{Scalar, ONE};
use crate::initial_generation;
use vstd::prelude::*;

verus! {

/// A copy of a string.
pub fn copy_string(source: &String) -> (copy: String)
    ensures
        copy@ == source@,
{
    source.clone()
}

/// A copy of a list of bytes.
pub fn copy_bytes(source: &Vec<u8>) -> (copy: Vec<u8>)
    ensures
        copy@ == source@,
{
    let mut copy: Vec<u8> = Vec::new();
    let mut i: usize = 0;
    while i < source.len()
        invariant
            i <= source.len(),
            copy@ == source@.take(i as int),
        decreases source.len() - i,
    {
        copy.push(source[i]);
        i = i + 1;
        assert(source@.take(i as int) =~= source@.take(i - 1).push(source@[i - 1]));
    }
    assert(source@.take(i as int) =~= source@);
    copy
}

/// Where a texture's pixels come from.
#[derive(Debug)]
pub enum TextureSource {
    /// Pixels in memory, four bytes each, row by row.
    Rgba { width: u32, height: u32, pixels: Vec<u8> },
    /// An image file, loaded when first needed.
    Path(String),
}

/// What a [`TextureSource`] holds.
#[verifier::ext_equal]
pub enum TextureSourceModel {
    Rgba { width: u32, height: u32, pixels: Seq<u8> },
    Path(Seq<char>),
}

impl View for TextureSource {
    type V = TextureSourceModel;

    open spec fn view(&self) -> TextureSourceModel {
        match self {
            TextureSource::Rgba { width, height, pixels } => TextureSourceModel::Rgba {
                width: *width,
                height: *height,
                pixels: pixels@,
            },
            TextureSource::Path(path) => TextureSourceModel::Path(path@),
        }
    }
}

/// An image that materials sample.
#[derive(Debug)]
pub struct Texture {
    id: TextureId,
    /// Grows with every change, so that mirrored copies know when to follow.
    generation: u64,
    source: TextureSource,
}

/// What a [`Texture`] holds.
#[verifier::ext_equal]
pub struct TextureModel {
    pub id: TextureId,
    pub generation: u64,
    pub source: TextureSourceModel,
}

impl View for Texture {
    type V = TextureModel;

    closed spec fn view(&self) -> TextureModel {
        TextureModel { id: self.id, generation: self.generation, source: self.source@ }
    }
}

impl Sealed for Texture {

}

impl SceneResource for Texture {
    open spec fn kind_spec() -> ResourceKind {
        ResourceKind::Texture
    }

    fn kind() -> (kind: ResourceKind) {
        ResourceKind::Texture
    }
}

impl Texture {
    /// A texture of pixels in memory.
    pub fn from_rgba(id: TextureId, width: u32, height: u32, pixels: Vec<u8>) -> (texture: Self)
        ensures
            texture@ == (TextureModel {
                id,
                generation: 1,
                source: TextureSourceModel::Rgba { width, height, pixels: pixels@ },
            }),
    {
        Texture {
            id,
            generation: initial_generation(),
            source: TextureSource::Rgba { width, height, pixels },
        }
    }

    /// A texture that is loaded from a file when first needed.
    pub fn from_path(id: TextureId, path: String) -> (texture: Self)
        ensures
            texture@ == (TextureModel {
                id,
                generation: 1,
                source: TextureSourceModel::Path(path@),
            }),
    {
        Texture { id, generation: initial_generation(), source: TextureSource::Path(path) }
    }

    /// The id of this texture.
    pub fn id(&self) -> (id: TextureId)
        ensures
            id == self@.id,
    {
        self.id
    }

    /// Where the pixels come from.
    pub fn source(&self) -> (source: &TextureSource)
        ensures
            source@ == self@.source,
    {
        &self.source
    }

    /// Replaces the pixels, and counts the change.
    pub fn set_source(&mut self, source: TextureSource)
        requires
            old(self)@.generation < u64::MAX,
        ensures
            final(self)@ == (TextureModel {
                source: source@,
                generation: (old(self)@.generation + 1) as u64,
                ..old(self)@
            }),
    {
        self.source = source;
        self.generation = self.generation + 1;
    }

    /// Counts changes to this texture.
    pub fn generation(&self) -> (generation: u64)
        ensures
            generation == self@.generation,
    {
        self.generation
    }

    /// A copy of this texture, under the same id.
    pub fn copy(&self) -> (copy: Self)
        ensures
            copy@ == self@,
    {
        let source = match &self.source {
            TextureSource::Rgba { width, height, pixels } => TextureSource::Rgba {
                width: *width,
                height: *height,
                pixels: copy_bytes(pixels),
            },
            TextureSource::Path(path) => TextureSource::Path(copy_string(path)),
        };
        Texture { id: self.id, generation: self.generation, source }
    }
}

/// Where an environment map's radiance comes from.
#[derive(Debug)]
pub enum EnvironmentSource {
    /// An equirectangular high-dynamic-range file, loaded when first rendered.
    HdrPath(String),
    /// The contents of such a file.
    HdrData(Vec<u8>),
}

/// What an [`EnvironmentSource`] holds.
#[verifier::ext_equal]
pub enum EnvironmentSourceModel {
    HdrPath(Seq<char>),
    HdrData(Seq<u8>),
}

impl View for EnvironmentSource {
    type V = EnvironmentSourceModel;

    open spec fn view(&self) -> EnvironmentSourceModel {
        match self {
            EnvironmentSource::HdrPath(path) => EnvironmentSourceModel::HdrPath(path@),
            EnvironmentSource::HdrData(data) => EnvironmentSourceModel::HdrData(data@),
        }
    }
}

/// Image-based lighting. Carries an id but is not reference-counted.
#[derive(Debug)]
pub struct EnvironmentMap {
    id: EnvironmentMapId,
    /// Grows with every change, so that what was made of the map knows when to follow.
    generation: u64,
    source: EnvironmentSource,
    intensity: Scalar,
}

/// What an [`EnvironmentMap`] holds.
#[verifier::ext_equal]
pub struct EnvironmentMapModel {
    pub id: EnvironmentMapId,
    pub generation: u64,
    pub source: EnvironmentSourceModel,
    pub intensity: Scalar,
}

impl View for EnvironmentMap {
    type V = EnvironmentMapModel;

    closed spec fn view(&self) -> EnvironmentMapModel {
        EnvironmentMapModel {
            id: self.id,
            generation: self.generation,
            source: self.source@,
            intensity: self.intensity,
        }
    }
}

impl EnvironmentMap {
    /// An environment map that is loaded from a file when first rendered.
    pub fn from_hdr_path(id: EnvironmentMapId, path: String) -> (map: Self)
        ensures
            map@ == (EnvironmentMapModel {
                id,
                generation: 1,
                source: EnvironmentSourceModel::HdrPath(path@),
                intensity: ONE,
            }),
    {
        EnvironmentMap {
            id,
            generation: initial_generation(),
            source: EnvironmentSource::HdrPath(path),
            intensity: ONE,
        }
    }

    /// An environment map from the contents of such a file.
    pub fn from_hdr_data(id: EnvironmentMapId, data: Vec<u8>) -> (map: Self)
        ensures
            map@ == (EnvironmentMapModel {
                id,
                generation: 1,
                source: EnvironmentSourceModel::HdrData(data@),
                intensity: ONE,
            }),
    {
        EnvironmentMap {
            id,
            generation: initial_generation(),
            source: EnvironmentSource::HdrData(data),
            intensity: ONE,
        }
    }

    /// The id of this map.
    pub fn id(&self) -> (id: EnvironmentMapId)
        ensures
            id == self@.id,
    {
        self.id
    }

    /// Counts changes to this map.
    pub fn generation(&self) -> (generation: u64)
        ensures
            generation == self@.generation,
    {
        self.generation
    }

    /// Where the radiance comes from.
    pub fn source(&self) -> (source: &EnvironmentSource)
        ensures
            source@ == self@.source,
    {
        &self.source
    }

    /// The intensity multiplier.
    pub fn intensity(&self) -> (intensity: Scalar)
        ensures
            intensity == self@.intensity,
    {
        self.intensity
    }

    /// Sets the intensity multiplier, and counts the change.
    pub fn set_intensity(&mut self, intensity: Scalar)
        requires
            old(self)@.generation < u64::MAX,
        ensures
            final(self)@ == (EnvironmentMapModel {
                intensity,
                generation: (old(self)@.generation + 1) as u64,
                ..old(self)@
            }),
    {
        self.intensity = intensity;
        self.generation = self.generation + 1;
    }

    /// A copy of this map, under the same id.
    pub fn copy(&self) -> (copy: Self)
        ensures
            copy@ == self@,
    {
        let source = match &self.source {
            EnvironmentSource::HdrPath(path) => EnvironmentSource::HdrPath(copy_string(path)),
            EnvironmentSource::HdrData(data) => EnvironmentSource::HdrData(copy_bytes(data)),
        };
        EnvironmentMap {
            id: self.id,
            generation: self.generation,
            source,
            intensity: self.intensity,
        }
    }
}

} // verus!
