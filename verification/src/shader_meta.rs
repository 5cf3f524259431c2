//! Plain descriptions of shader interfaces and mesh vertex layouts.

use vstd::prelude::*;

verus! {

/// The shaders the renderer knows of.
pub enum ShaderTypes {
    WorldShader,
}

/// The scalar layout of one uniform.
#[derive(Clone)]
pub enum UniformDataType {
    Vec3,
    Vec4,
    Mat3,
    Mat4,
}

impl UniformDataType {
    /// The size of the uniform in bytes: four bytes per scalar.
    pub fn size(&self) -> (r: usize)
        ensures
            r == match *self {
                UniformDataType::Vec3 => 12int,
                UniformDataType::Vec4 => 16int,
                UniformDataType::Mat3 => 36int,
                UniformDataType::Mat4 => 64int,
            },
    {
        match self {
            Self::Vec3 => 12,
            Self::Vec4 => 16,
            Self::Mat3 => 36,
            Self::Mat4 => 64,
        }
    }
}

/// Description of one vertex item of a mesh.
#[derive(Clone, Debug)]
pub struct ItemDesc {
    pub number_components: usize,
    pub size_component: usize,
    pub name: String,
}

impl ItemDesc {
    /// The default vertex layout of a model: a three-component position, a
    /// two-component texture coordinate and a three-component normal, each
    /// component four bytes.
    pub fn default_model() -> (r: Vec<ItemDesc>)
        ensures
            r@.len() == 3,
            r@[0].number_components == 3 && r@[0].size_component == 4 && r@[0].name@
                == "position"@,
            r@[1].number_components == 2 && r@[1].size_component == 4 && r@[1].name@ == "uv"@,
            r@[2].number_components == 3 && r@[2].size_component == 4 && r@[2].name@
                == "normal"@,
    {
        vec![
            ItemDesc { number_components: 3, size_component: 4, name: "position".to_owned() },
            ItemDesc { number_components: 2, size_component: 4, name: "uv".to_owned() },
            ItemDesc { number_components: 3, size_component: 4, name: "normal".to_owned() },
        ]
    }
}

/// A named vertex attribute and its float count.
pub struct Attribute {
    pub size: usize,
    pub name: &'static str,
}

/// The source text and interface of one shader.
pub struct ShaderText {
    pub fragment_shader: &'static str,
    pub vertex_shader: &'static str,
    pub uniforms: Vec<&'static str>,
    pub attributes: Vec<Attribute>,
    pub name: &'static str,
}

/// A vertex attribute as the runtime resolved it.
#[derive(Clone, Debug)]
pub struct RuntimeAttribute {
    pub location: Option<i32>,
    pub size: usize,
}

/// Reads a little-endian `u32` vector out of raw bytes.
pub fn get_vec(data: &[u8]) -> (r: Vec<u32>)
    requires
        data@.len() % 4 == 0,
    ensures
        r@.len() == data@.len() / 4,
        forall|i: int|
            0 <= i < r@.len() ==> #[trigger] r@[i] == data@[4 * i] + data@[4 * i + 1] * 256
                + data@[4 * i + 2] * 65536 + data@[4 * i + 3] * 16777216,
{
    let mut out: Vec<u32> = Vec::new();
    let n = data.len() / 4;
    for i in 0..n
        invariant
            n == data@.len() / 4,
            data@.len() % 4 == 0,
            data@.len() <= usize::MAX,
            out@.len() == i,
            forall|j: int|
                0 <= j < i ==> #[trigger] out@[j] == data@[4 * j] + data@[4 * j + 1] * 256
                    + data@[4 * j + 2] * 65536 + data@[4 * j + 3] * 16777216,
    {
        proof {
            vstd::arithmetic::div_mod::lemma_fundamental_div_mod(data@.len() as int, 4);
            assert(4 * i + 3 < data@.len());
        }
        let b0 = data[4 * i] as u32;
        let b1 = data[4 * i + 1] as u32;
        let b2 = data[4 * i + 2] as u32;
        let b3 = data[4 * i + 3] as u32;
        out.push(b0 + b1 * 256 + b2 * 65536 + b3 * 16777216);
    }
    out
}

} // verus!
