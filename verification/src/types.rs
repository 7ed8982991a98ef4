//! The uniform variable entity and its type table.
//!
//! A container's uniform table is a sequence of [`Variable`] records.  Each
//! record carries a name, a scope (only `UNIFORM` exists), one of six
//! supported GLSL types with a fixed numeric id and a fixed default-data
//! arity, an optional array length, and a block of raw 32-bit default words.

use vstd::prelude::*;

use crate::errors::KshError;
use crate::strutil::str_eq;

verus! {

/// The scope of a variable.  The format defines only one.
#[allow(non_camel_case_types)]
#[derive(Clone, Copy, Debug, PartialEq, Eq, Structural)]
pub enum VariableScope {
    UNIFORM,
}

impl VariableScope {
    /// Reads a scope from its numeric id; only 0 names a scope.
    pub fn from_u32(value: u32) -> (r: Result<VariableScope, String>)
        ensures
            r is Ok <==> value == 0,
            r is Ok ==> r->Ok_0 == VariableScope::UNIFORM,
    {
        match value {
            0u32 => Ok(VariableScope::UNIFORM),
            _ => Err(String::from_str("invalid scope id")),
        }
    }
}

/// The six variable types the format supports.
#[derive(Clone, Copy, Debug, PartialEq, Eq, Structural)]
pub enum VariableType {
    Float,
    Vec2,
    Vec3,
    Vec4,
    Mat4,
    Sampler2D,
}

impl VariableType {
    /// The fixed numeric id of this type in the binary layout.
    pub open spec fn spec_id(self) -> u32 {
        match self {
            VariableType::Float => 0,
            VariableType::Vec2 => 2,
            VariableType::Vec3 => 3,
            VariableType::Vec4 => 4,
            VariableType::Mat4 => 20,
            VariableType::Sampler2D => 43,
        }
    }

    /// The fixed number of default-data words of a scalar of this type.
    pub open spec fn spec_arity(self) -> usize {
        match self {
            VariableType::Float => 1,
            VariableType::Vec2 => 2,
            VariableType::Vec3 => 3,
            VariableType::Vec4 => 4,
            VariableType::Mat4 => 16,
            VariableType::Sampler2D => 0,
        }
    }

    /// The GLSL name of this type.
    pub open spec fn spec_name(self) -> Seq<char> {
        match self {
            VariableType::Float => "float"@,
            VariableType::Vec2 => "vec2"@,
            VariableType::Vec3 => "vec3"@,
            VariableType::Vec4 => "vec4"@,
            VariableType::Mat4 => "mat4"@,
            VariableType::Sampler2D => "sampler2D"@,
        }
    }

    /// True when `value` is one of the six type ids.
    pub open spec fn spec_valid_id(value: u32) -> bool {
        value == 0 || value == 2 || value == 3 || value == 4 || value == 20 || value == 43
    }

    /// The type a numeric id denotes; meaningful only for the six valid ids.
    pub open spec fn spec_ty_of_id(value: u32) -> VariableType {
        if value == 0 {
            VariableType::Float
        } else if value == 2 {
            VariableType::Vec2
        } else if value == 3 {
            VariableType::Vec3
        } else if value == 4 {
            VariableType::Vec4
        } else if value == 20 {
            VariableType::Mat4
        } else {
            VariableType::Sampler2D
        }
    }

    /// The type a GLSL name denotes, when it is one of the six.
    pub open spec fn spec_from_name(n: Seq<char>) -> Option<VariableType> {
        if n == "float"@ {
            Some(VariableType::Float)
        } else if n == "vec2"@ {
            Some(VariableType::Vec2)
        } else if n == "vec3"@ {
            Some(VariableType::Vec3)
        } else if n == "vec4"@ {
            Some(VariableType::Vec4)
        } else if n == "mat4"@ {
            Some(VariableType::Mat4)
        } else if n == "sampler2D"@ {
            Some(VariableType::Sampler2D)
        } else {
            None
        }
    }

    /// How many 32-bit default words a scalar of this type carries.
    pub fn default_data_length(&self) -> (r: usize)
        ensures
            r == self.spec_arity(),
    {
        match self {
            VariableType::Float => 1,
            VariableType::Vec2 => 2,
            VariableType::Vec3 => 3,
            VariableType::Vec4 => 4,
            VariableType::Mat4 => 16,
            VariableType::Sampler2D => 0,
        }
    }

    /// The numeric id of this type.
    pub fn id(&self) -> (r: u32)
        ensures
            r == self.spec_id(),
    {
        match self {
            VariableType::Float => 0,
            VariableType::Vec2 => 2,
            VariableType::Vec3 => 3,
            VariableType::Vec4 => 4,
            VariableType::Mat4 => 20,
            VariableType::Sampler2D => 43,
        }
    }

    /// The GLSL name of this type.
    pub fn name(&self) -> (r: &'static str)
        ensures
            r@ == self.spec_name(),
    {
        match self {
            VariableType::Float => "float",
            VariableType::Vec2 => "vec2",
            VariableType::Vec3 => "vec3",
            VariableType::Vec4 => "vec4",
            VariableType::Mat4 => "mat4",
            VariableType::Sampler2D => "sampler2D",
        }
    }

    /// Reads a type from its numeric id; exactly the six ids succeed.
    pub fn from_id(value: u32) -> (r: Result<VariableType, String>)
        ensures
            r is Ok <==> Self::spec_valid_id(value),
            r is Ok ==> r->Ok_0.spec_id() == value && r->Ok_0 == Self::spec_ty_of_id(value),
    {
        match value {
            0u32 => Ok(VariableType::Float),
            2u32 => Ok(VariableType::Vec2),
            3u32 => Ok(VariableType::Vec3),
            4u32 => Ok(VariableType::Vec4),
            20u32 => Ok(VariableType::Mat4),
            43u32 => Ok(VariableType::Sampler2D),
            _ => Err(String::from_str("invalid type id")),
        }
    }

    /// Reads a type from its GLSL name; exactly the six names succeed.
    pub fn from_name(value: &str) -> (r: Result<VariableType, String>)
        ensures
            r is Ok <==> Self::spec_from_name(value@) is Some,
            r is Ok ==> Some(r->Ok_0) == Self::spec_from_name(value@),
    {
        if str_eq(value, "float") {
            Ok(VariableType::Float)
        } else if str_eq(value, "vec2") {
            Ok(VariableType::Vec2)
        } else if str_eq(value, "vec3") {
            Ok(VariableType::Vec3)
        } else if str_eq(value, "vec4") {
            Ok(VariableType::Vec4)
        } else if str_eq(value, "mat4") {
            Ok(VariableType::Mat4)
        } else if str_eq(value, "sampler2D") {
            Ok(VariableType::Sampler2D)
        } else {
            Err(String::from_str("invalid type name"))
        }
    }
}

/// The mathematical value of one uniform record.
pub struct VarView {
    pub name: Seq<char>,
    pub ty: VariableType,
    pub default_data: Seq<u32>,
    pub scope: VariableScope,
    pub array_length: Option<u32>,
}

impl View for Variable {
    type V = VarView;

    open spec fn view(&self) -> VarView {
        VarView {
            name: self.name@,
            ty: self.ty,
            default_data: self.default_data@,
            scope: self.scope,
            array_length: self.array_length,
        }
    }
}

/// The views of a sequence of records.
pub open spec fn views_of(s: Seq<Variable>) -> Seq<VarView> {
    s.map_values(|v: Variable| v@)
}

/// One record of the uniform table.
#[derive(Clone, Debug, PartialEq)]
pub struct Variable {
    /// The variable's name, unique within a uniform table.
    pub name: String,
    /// The variable's type.
    pub ty: VariableType,
    /// The raw 32-bit default words read from a container.  The encoder
    /// never consults them: it always emits zero words.
    pub default_data: Vec<u32>,
    /// The variable's scope.
    pub scope: VariableScope,
    /// `None` for a scalar; `Some(n)` with `n > 1` read from a container.
    /// The analyzer records any explicit constant dimension as given.
    pub array_length: Option<u32>,
}

impl Variable {
    /// A fresh record: empty name, `Float`, no defaults, scalar.
    pub fn new() -> (r: Variable)
        ensures
            r.name@ == Seq::<char>::empty(),
            r.ty == VariableType::Float,
            r.default_data@ == Seq::<u32>::empty(),
            r.scope == VariableScope::UNIFORM,
            r.array_length is None,
    {
        Variable {
            name: String::new(),
            ty: VariableType::Float,
            default_data: Vec::new(),
            scope: VariableScope::UNIFORM,
            array_length: None,
        }
    }

    /// Sets the scope from its numeric id; fails on any id but 0 and then
    /// leaves the record unchanged.
    pub fn set_scope(&mut self, value: u32) -> (r: Result<(), KshError>)
        ensures
            r is Ok <==> value == 0,
            r is Ok ==> *final(self) == (Variable { scope: VariableScope::UNIFORM, ..*old(self) }),
            r is Err ==> *final(self) == *old(self) && r->Err_0 == KshError::InvalidValue,
    {
        self.scope = match value {
            0u32 => VariableScope::UNIFORM,
            _ => {
                return Err(KshError::InvalidValue);
            },
        };
        Ok(())
    }

    /// Sets the type from its numeric id; fails on an unknown id and then
    /// leaves the record unchanged.
    pub fn set_type(&mut self, value: u32) -> (r: Result<(), KshError>)
        ensures
            r is Ok <==> VariableType::spec_valid_id(value),
            r is Ok ==> *final(self) == (Variable { ty: final(self).ty, ..*old(self) })
                && final(self).ty == VariableType::spec_ty_of_id(value)
                && final(self).ty.spec_id() == value,
            r is Err ==> *final(self) == *old(self) && r->Err_0 == KshError::InvalidValue,
    {
        self.ty = match value {
            0u32 => VariableType::Float,
            2u32 => VariableType::Vec2,
            3u32 => VariableType::Vec3,
            4u32 => VariableType::Vec4,
            20u32 => VariableType::Mat4,
            43u32 => VariableType::Sampler2D,
            _ => {
                return Err(KshError::InvalidValue);
            },
        };
        Ok(())
    }

    /// The numeric id of this record's type.
    pub fn get_type_id(&self) -> (r: u32)
        ensures
            r == self.ty.spec_id(),
    {
        self.ty.id()
    }

    /// How many 32-bit default words a scalar of this record's type carries.
    pub fn default_data_length(&self) -> (r: usize)
        ensures
            r == self.ty.spec_arity(),
    {
        self.ty.default_data_length()
    }

    /// A copy of this record with the same mathematical value.
    pub fn duplicate(&self) -> (r: Variable)
        ensures
            r@ == self@,
    {
        Variable {
            name: self.name.clone(),
            ty: self.ty,
            default_data: copy_words(&self.default_data),
            scope: self.scope,
            array_length: self.array_length,
        }
    }
}

/// A copy of a vector of words, element for element.
fn copy_words(v: &Vec<u32>) -> (r: Vec<u32>)
    ensures
        r@ == v@,
{
    let mut out: Vec<u32> = Vec::new();
    let n = v.len();
    let mut i: usize = 0;
    while i < n
        invariant
            n == v@.len(),
            i <= n,
            out@ =~= v@.subrange(0, i as int),
        decreases n - i,
    {
        out.push(v[i]);
        i = i + 1;
    }
    proof {
        assert(out@ =~= v@);
    }
    out
}

} // verus!
