//! Data types of shader inputs and uniforms, and their sizes.
use vstd::prelude::*;

verus! {

/// Precision of the scalar parts of a shader data type.
#[derive(Debug, Clone, Copy, PartialEq, Eq, Structural)]
pub enum Precision {
    P64,
    P32,
    P16,
    P8,
}

/// Shape of a shader data type.
#[derive(Debug, Clone, Copy, PartialEq, Eq, Structural)]
pub enum DataType {
    NoType,
    Float,
    Float2,
    Float3,
    Float4,
    Int,
    Int2,
    Int3,
    Int4,
    Mat3,
    Mat4,
    Bool,
}

/// Possible uniform data types.
#[derive(Debug, Clone, Copy, PartialEq, Eq, Structural)]
pub struct ShaderDataType {
    pub precision: Precision,
    pub data_type: DataType,
}

/// Number of scalar components of a data type.
pub open spec fn component_count(d: DataType) -> nat {
    match d {
        DataType::NoType => 0,
        DataType::Float | DataType::Int | DataType::Bool => 1,
        DataType::Float2 | DataType::Int2 => 2,
        DataType::Float3 | DataType::Int3 => 3,
        DataType::Float4 | DataType::Int4 => 4,
        DataType::Mat3 => 9,
        DataType::Mat4 => 16,
    }
}

/// Bytes taken by one scalar of the given precision.
pub open spec fn precision_bytes(p: Precision) -> nat {
    match p {
        Precision::P64 => 8,
        Precision::P32 => 4,
        Precision::P16 => 2,
        Precision::P8 => 1,
    }
}

/// The type/precision pairs that have a size: float vectors in 32 or 16 bits,
/// integer vectors in 32, 16 or 8 bits, matrices in 32 bits, booleans in 8
/// bits, and the empty type in any precision.
pub open spec fn is_supported(t: ShaderDataType) -> bool {
    match t.data_type {
        DataType::NoType => true,
        DataType::Float | DataType::Float2 | DataType::Float3 | DataType::Float4 => t.precision
            == Precision::P32 || t.precision == Precision::P16,
        DataType::Int | DataType::Int2 | DataType::Int3 | DataType::Int4 => t.precision
            != Precision::P64,
        DataType::Mat3 | DataType::Mat4 => t.precision == Precision::P32,
        DataType::Bool => t.precision == Precision::P8,
    }
}

/// Size in bytes of a supported data type.
pub open spec fn data_type_size(t: ShaderDataType) -> nat {
    component_count(t.data_type) * precision_bytes(t.precision)
}

impl ShaderDataType {
    pub fn new(precision: Precision, data_type: DataType) -> (r: Self)
        ensures
            r.precision == precision,
            r.data_type == data_type,
    {
        ShaderDataType { precision, data_type }
    }

    /// Whether this type/precision pair has a size.
    pub fn is_supported(&self) -> (r: bool)
        ensures
            r == is_supported(*self),
    {
        match self.data_type {
            DataType::NoType => true,
            DataType::Float | DataType::Float2 | DataType::Float3 | DataType::Float4 => {
                match self.precision {
                    Precision::P32 | Precision::P16 => true,
                    _ => false,
                }
            },
            DataType::Int | DataType::Int2 | DataType::Int3 | DataType::Int4 => {
                match self.precision {
                    Precision::P64 => false,
                    _ => true,
                }
            },
            DataType::Mat3 | DataType::Mat4 => {
                match self.precision {
                    Precision::P32 => true,
                    _ => false,
                }
            },
            DataType::Bool => {
                match self.precision {
                    Precision::P8 => true,
                    _ => false,
                }
            },
        }
    }

    /// Size in bytes for this data type.
    pub fn get_size(&self) -> (r: u32)
        requires
            is_supported(*self),
        ensures
            r == data_type_size(*self),
    {
        match (self.data_type, self.precision) {
            (DataType::NoType, _) => 0,
            (DataType::Float, Precision::P32) | (DataType::Int, Precision::P32) => 4,
            (DataType::Float2, Precision::P32) | (DataType::Int2, Precision::P32) => 2 * 4,
            (DataType::Float3, Precision::P32) | (DataType::Int3, Precision::P32) => 3 * 4,
            (DataType::Float4, Precision::P32) | (DataType::Int4, Precision::P32) => 4 * 4,
            (DataType::Float, Precision::P16) | (DataType::Int, Precision::P16) => 2,
            (DataType::Float2, Precision::P16) | (DataType::Int2, Precision::P16) => 2 * 2,
            (DataType::Float3, Precision::P16) | (DataType::Int3, Precision::P16) => 3 * 2,
            (DataType::Float4, Precision::P16) | (DataType::Int4, Precision::P16) => 4 * 2,
            (DataType::Int, Precision::P8) => 1,
            (DataType::Int2, Precision::P8) => 2 * 1,
            (DataType::Int3, Precision::P8) => 3 * 1,
            (DataType::Int4, Precision::P8) => 4 * 1,
            (DataType::Mat3, Precision::P32) => 3 * 3 * 4,
            (DataType::Mat4, Precision::P32) => 4 * 4 * 4,
            (DataType::Bool, Precision::P8) => 1,
            _ => unreached(),
        }
    }
}

/// Errors produced while building or using shaders.
#[derive(Debug)]
pub enum ShaderError {
    /// Could not compile this shader
    CompilationError(String),
    /// Colliding name of the uniform, and already registered type
    UniformAlreadyExists { uniform_name: String, prev_type: ShaderDataType },
    /// Trying to assign data to a uniform with the wrong data type
    InvalidTypeForUniform {
        uniform_name: String,
        expected_type: ShaderDataType,
        given_type: ShaderDataType,
    },
}

/// Source of a shader: compiled binary or source code.
pub enum ShaderSrc<'a> {
    Binary(&'a [u8]),
    Code(&'a str),
}

} // verus!
