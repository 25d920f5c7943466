use vstd::prelude::*;
use std::collections::BTreeMap;
use std::rc::Rc;

verus! {

#[derive(Debug, Clone, Copy, PartialEq, Eq, Structural, Hash)]
pub enum Sign {
    Signed,
    Unsigned,
}

#[derive(Debug, Clone, Copy, PartialEq, Eq, Structural, Hash)]
pub enum NumericType {
    Short(Sign),
    Int(Sign),
    Long(Sign),
    LongLong(Sign),
    Float,
    Double,
    LongDouble,
}

#[derive(Debug, Clone, Copy, PartialEq, Eq, Structural, Hash)]
pub enum StorageClass {
    Auto,
    Register,
    Static,
    Extern,
    Typedef,
}

#[derive(Debug, Clone, Copy, PartialEq, Eq, Structural, Hash, Default)]
pub struct TypeQualifiers {
    pub is_const: bool,
    pub is_volatile: bool,
    pub is_restrict: bool,
}

impl TypeQualifiers {
    pub fn none() -> (r: TypeQualifiers)
        ensures
            !r.is_const && !r.is_volatile && !r.is_restrict,
    {
        TypeQualifiers { is_const: false, is_volatile: false, is_restrict: false }
    }

    pub fn const_qualified() -> (r: TypeQualifiers)
        ensures
            r.is_const && !r.is_volatile && !r.is_restrict,
    {
        TypeQualifiers { is_const: true, is_volatile: false, is_restrict: false }
    }

    pub fn cv_qualified() -> (r: TypeQualifiers)
        ensures
            r.is_const && r.is_volatile && !r.is_restrict,
    {
        TypeQualifiers { is_const: true, is_volatile: true, is_restrict: false }
    }
}

/// A C type.
#[derive(Debug)]
pub enum Type {
    Void,
    Char(Sign),
    Number(NumericType),
    Pointer { pointee: Rc<Type>, qualifiers: TypeQualifiers },
    Array { element_type: Rc<Type>, count: Option<usize> },
    Function { return_type: Rc<Type>, params: Vec<Parameter>, is_variadic: bool },
    Struct { name: Option<String>, fields: Option<Vec<StructField>> },
    Union { name: Option<String>, fields: Option<Vec<StructField>> },
    Enum { name: Option<String>, variants: Option<BTreeMap<String, i64>> },
    Typedef { name: String, resolved: Rc<Type> },
    Qualified { base: Rc<Type>, qualifiers: TypeQualifiers },
}

/// A parameter of a function type.
#[derive(Debug)]
pub struct Parameter {
    pub name: Option<String>,
    pub param_type: Rc<Type>,
}

/// A field of a struct or union type.
#[derive(Debug)]
pub struct StructField {
    pub name: String,
    pub field_type: Rc<Type>,
    pub bit_field: Option<usize>,
}

/// `t` with every outer qualifier removed.
pub open spec fn stripped(t: Type) -> Type
    decreases t,
{
    match t {
        Type::Qualified { base, .. } => stripped(*base),
        _ => t,
    }
}

/// `t` with every outer typedef and qualifier looked through.
pub open spec fn resolved(t: Type) -> Type
    decreases t,
{
    match t {
        Type::Typedef { resolved: target, .. } => resolved(*target),
        Type::Qualified { base, .. } => resolved(*base),
        _ => t,
    }
}

impl Type {
    pub fn is_pointer(&self) -> (r: bool)
        ensures
            r == self is Pointer,
    {
        match self {
            Type::Pointer { .. } => true,
            _ => false,
        }
    }

    pub fn is_function(&self) -> (r: bool)
        ensures
            r == self is Function,
    {
        match self {
            Type::Function { .. } => true,
            _ => false,
        }
    }

    pub fn is_void(&self) -> (r: bool)
        ensures
            r == self is Void,
    {
        match self {
            Type::Void => true,
            _ => false,
        }
    }

    pub fn strip_qualifiers(&self) -> (r: &Type)
        ensures
            *r == stripped(*self),
        decreases self,
    {
        match self {
            Type::Qualified { base, .. } => base.strip_qualifiers(),
            _ => self,
        }
    }

    /// The qualifiers of a qualified or pointer type; none for any other.
    pub fn get_qualifiers(&self) -> (r: TypeQualifiers)
        ensures
            r == match *self {
                Type::Qualified { qualifiers, .. } => qualifiers,
                Type::Pointer { qualifiers, .. } => qualifiers,
                _ => TypeQualifiers { is_const: false, is_volatile: false, is_restrict: false },
            },
    {
        match self {
            Type::Qualified { qualifiers, .. } => *qualifiers,
            Type::Pointer { qualifiers, .. } => *qualifiers,
            _ => TypeQualifiers::none(),
        }
    }

    pub fn resolve_typedef(&self) -> (r: &Type)
        ensures
            *r == resolved(*self),
        decreases self,
    {
        match self {
            Type::Typedef { resolved, .. } => resolved.resolve_typedef(),
            Type::Qualified { base, .. } => base.resolve_typedef(),
            _ => self,
        }
    }

    pub fn signed_int() -> (r: Rc<Type>)
        ensures
            *r == Type::Number(NumericType::Int(Sign::Signed)),
    {
        Rc::new(Type::Number(NumericType::Int(Sign::Signed)))
    }

    pub fn unsigned_int() -> (r: Rc<Type>)
        ensures
            *r == Type::Number(NumericType::Int(Sign::Unsigned)),
    {
        Rc::new(Type::Number(NumericType::Int(Sign::Unsigned)))
    }

    pub fn void() -> (r: Rc<Type>)
        ensures
            *r == Type::Void,
    {
        Rc::new(Type::Void)
    }

    pub fn pointer_to(pointee: Rc<Type>, qualifiers: &TypeQualifiers) -> (r: Rc<Type>)
        ensures
            *r == (Type::Pointer { pointee, qualifiers: *qualifiers }),
    {
        Rc::new(Type::Pointer { pointee, qualifiers: *qualifiers })
    }

    pub fn const_pointer_to(pointee: Rc<Type>) -> (r: Rc<Type>)
        ensures
            *r == (Type::Pointer { pointee, qualifiers: TypeQualifiers { is_const: true, is_volatile: false, is_restrict: false } }),
    {
        Self::pointer_to(pointee, &TypeQualifiers::const_qualified())
    }
}

} // verus!
