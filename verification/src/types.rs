//! Static types as written in annotations, and the coarse runtime kind of a
//! value that diagnostics name.

use vstd::prelude::*;
use vstd::string::*;

verus! {

/// A type of the language.
#[derive(Debug)]
pub enum Type {
    Null,
    Bool,
    Number,
    String,
    Array(Box<Type>),
    Dict(Box<Type>),
    Function(Vec<Type>, Box<Type>),
}

/// The coarse runtime kind of a value, used only in diagnostics.
#[derive(Debug, Clone, Copy, PartialEq, Eq, Structural)]
pub enum Erasure {
    Null,
    Bool,
    Number,
    String,
    Array,
    Dict,
    Function,
}

impl Erasure {
    /// The name of the kind as diagnostics print it.
    pub open spec fn name(self) -> Seq<char> {
        match self {
            Erasure::Null => "Null"@,
            Erasure::Bool => "Bool"@,
            Erasure::Number => "Number"@,
            Erasure::String => "String"@,
            Erasure::Array => "Array"@,
            Erasure::Dict => "Dict"@,
            Erasure::Function => "Function"@,
        }
    }

    /// The name of the kind as a static string.
    pub fn as_str(&self) -> (r: &'static str)
        ensures
            r@ == self.name(),
    {
        match self {
            Erasure::Null => "Null",
            Erasure::Bool => "Bool",
            Erasure::Number => "Number",
            Erasure::String => "String",
            Erasure::Array => "Array",
            Erasure::Dict => "Dict",
            Erasure::Function => "Function",
        }
    }

    /// The name of the kind.
    pub fn to_string(&self) -> (r: String)
        ensures
            r@ == self.name(),
    {
        String::from_str(self.as_str())
    }
}

/// The text of the first `n` types of a parameter list, separated by `", "`.
pub open spec fn type_list_text(types: Seq<Type>, n: nat) -> Seq<char>
    recommends
        n <= types.len(),
    decreases types, n,
{
    if n == 0 || n > types.len() {
        Seq::empty()
    } else if n == 1 {
        type_text(types[0])
    } else {
        type_list_text(types, (n - 1) as nat) + ", "@ + type_text(types[n - 1])
    }
}

/// The text of a type: `Null`, `Bool`, `Number`, `String`, `Array[T]`,
/// `Dict[T]`, and `(P, Q) => R` for a function.
pub open spec fn type_text(t: Type) -> Seq<char>
    decreases t,
{
    match t {
        Type::Null => "Null"@,
        Type::Bool => "Bool"@,
        Type::Number => "Number"@,
        Type::String => "String"@,
        Type::Array(item) => "Array["@ + type_text(*item) + "]"@,
        Type::Dict(item) => "Dict["@ + type_text(*item) + "]"@,
        Type::Function(params, ret) => "("@ + type_list_text(params@, params@.len()) + ") => "@
            + type_text(*ret),
    }
}

impl Type {
    /// The text of the type.
    pub fn to_string(&self) -> (r: String)
        ensures
            r@ == type_text(*self),
        decreases *self,
    {
        match self {
            Type::Null => String::from_str("Null"),
            Type::Bool => String::from_str("Bool"),
            Type::Number => String::from_str("Number"),
            Type::String => String::from_str("String"),
            Type::Array(item) => {
                let mut out = String::from_str("Array[");
                let inner = item.to_string();
                out.append(inner.as_str());
                out.append("]");
                out
            },
            Type::Dict(item) => {
                let mut out = String::from_str("Dict[");
                let inner = item.to_string();
                out.append(inner.as_str());
                out.append("]");
                out
            },
            Type::Function(params, ret) => {
                let mut out = String::from_str("(");
                let mut i: usize = 0;
                while i < params.len()
                    invariant
                        i <= params.len(),
                        out@ == "("@ + type_list_text(params@, i as nat),
                        decreases_to!(*self => *params),
                    decreases params.len() - i,
                {
                    if i > 0 {
                        out.append(", ");
                    }
                    assert(decreases_to!(*params => params[i as int]));
                    let inner = params[i].to_string();
                    out.append(inner.as_str());
                    i = i + 1;
                }
                out.append(") => ");
                let inner = ret.to_string();
                out.append(inner.as_str());
                out
            },
        }
    }
}

} // verus!
