//! Materials as scene files write them.
use vstd::prelude::*;

use crate::float::{F32, Vec3};
use crate::images::ImageCache;
use crate::mesh::{Material, Vec4, ONE_BITS};

verus! {

/// A material of a scene file. Textures name images by their numbers.
#[derive(Clone, Copy, PartialEq, Eq, Debug)]
pub struct MaterialSource {
    pub base_color: Vec4,
    pub metallic: F32,
    pub roughness: F32,
    pub emissive: Vec3,
    pub base_color_image: Option<usize>,
    pub metallic_roughness_image: Option<usize>,
    /// The normal map and how strong it is.
    pub normal: Option<(usize, F32)>,
}

pub open spec fn image_use(image: Option<usize>) -> Seq<usize> {
    match image {
        Some(i) => seq![i],
        None => seq![],
    }
}

/// The images of a material, in the order in which they are read.
pub open spec fn images_of(m: MaterialSource) -> Seq<usize> {
    image_use(m.base_color_image) + image_use(m.metallic_roughness_image) + image_use(
        match m.normal {
            Some((i, _)) => Some(i),
            None => None,
        },
    )
}

/// The images that a material needs.
pub fn material_images(m: &MaterialSource) -> (r: Vec<usize>)
    ensures
        r@ == images_of(*m),
{
    let mut r: Vec<usize> = Vec::new();
    if let Some(i) = m.base_color_image {
        r.push(i);
    }
    if let Some(i) = m.metallic_roughness_image {
        r.push(i);
    }
    if let Some((i, _)) = m.normal {
        r.push(i);
    }
    assert(r@ =~= images_of(*m));
    r
}

/// The texture of an image, if it was read and has one.
pub open spec fn texture_of(images: ImageCache, image: Option<usize>) -> Option<usize> {
    match image {
        Some(i) => match images.known(i) {
            Some(t) => t,
            None => None,
        },
        None => None,
    }
}

fn texture(images: &ImageCache, image: Option<usize>) -> (r: Option<usize>)
    ensures
        r == texture_of(*images, image),
{
    match image {
        Some(i) => match images.get(i) {
            Some(t) => t,
            None => None,
        },
        None => None,
    }
}

/// A material with the textures of its images. An image without a texture
/// leaves the factors to speak for themselves.
pub fn read_material(m: &MaterialSource, images: &ImageCache) -> (r: Material)
    ensures
        r.base_color == m.base_color,
        r.metallic == m.metallic,
        r.roughness == m.roughness,
        r.emissive == m.emissive,
        r.base_color_texture == texture_of(*images, m.base_color_image),
        r.metallic_roughness_texture == texture_of(*images, m.metallic_roughness_image),
        match m.normal {
            Some((i, scale)) => r.normal_texture == texture_of(*images, Some(i)) && r.normal_scale
                == scale,
            None => r.normal_texture is None && r.normal_scale == (F32 { bits: ONE_BITS }),
        },
        r.base_color_texture is Some <==> (m.base_color_image matches Some(i) && images.known(
            i,
        ) matches Some(Some(_))),
        m.base_color_image matches Some(i) ==> (images.known(i) matches Some(t)
            ==> r.base_color_texture == t),
        m.metallic_roughness_image matches Some(i) ==> (images.known(i) matches Some(t)
            ==> r.metallic_roughness_texture == t),
        m.normal matches Some((i, _)) ==> (images.known(i) matches Some(t) ==> r.normal_texture
            == t),
        m.metallic_roughness_image is None ==> r.metallic_roughness_texture is None,
        m.normal is None ==> r.normal_scale.bits == 0x3f80_0000,
{
    let (normal_texture, normal_scale) = match m.normal {
        Some((i, scale)) => (texture(images, Some(i)), scale),
        None => (None, F32 { bits: ONE_BITS }),
    };
    Material {
        base_color: m.base_color,
        metallic: m.metallic,
        roughness: m.roughness,
        emissive: m.emissive,
        normal_scale,
        base_color_texture: texture(images, m.base_color_image),
        normal_texture,
        metallic_roughness_texture: texture(images, m.metallic_roughness_image),
    }
}

/// A material needs the images that it names and no others: that of its base
/// colour first, its normal map last.
pub proof fn law_materials_need_the_images_they_name(m: MaterialSource, i: usize)
    ensures
        images_of(m).contains(i) <==> m.base_color_image == Some(i) || m.metallic_roughness_image
            == Some(i) || (m.normal matches Some((n, _)) && n == i),
        images_of(m).len() == (if m.base_color_image is Some {
            1int
        } else {
            0
        }) + (if m.metallic_roughness_image is Some {
            1int
        } else {
            0
        }) + (if m.normal is Some {
            1int
        } else {
            0
        }),
        m.base_color_image matches Some(b) ==> images_of(m).first() == b,
        m.normal matches Some((n, _)) ==> images_of(m).last() == n,
{
    let all = images_of(m);
    let (a, b) = (image_use(m.base_color_image), image_use(m.metallic_roughness_image));
    if m.base_color_image == Some(i) {
        assert(all[0] == i);
    }
    if m.metallic_roughness_image == Some(i) {
        assert(all[a.len() as int] == i);
    }
    if let Some((n, _)) = m.normal {
        assert(all[(a + b).len() as int] == n);
    }
}

} // verus!
