//! The functions that every interpreter knows from the start.

use vstd::prelude::*;
use vstd::string::*;

verus! {

/// A builtin function. Each takes one argument.
#[derive(Debug, Clone, Copy, PartialEq, Eq, Structural)]
pub enum BuiltinFunction {
    Sqrt,
    Abs,
    Sin,
    Cos,
    Tan,
    Atan,
}

impl BuiltinFunction {
    /// The name under which the function is bound and shown.
    pub open spec fn name(self) -> Seq<char> {
        match self {
            BuiltinFunction::Sqrt => "sqrt"@,
            BuiltinFunction::Abs => "abs"@,
            BuiltinFunction::Sin => "sin"@,
            BuiltinFunction::Cos => "cos"@,
            BuiltinFunction::Tan => "tan"@,
            BuiltinFunction::Atan => "atan"@,
        }
    }

    /// Every builtin function, in the order of declaration.
    pub open spec fn every() -> Seq<BuiltinFunction> {
        seq![
            BuiltinFunction::Sqrt,
            BuiltinFunction::Abs,
            BuiltinFunction::Sin,
            BuiltinFunction::Cos,
            BuiltinFunction::Tan,
            BuiltinFunction::Atan,
        ]
    }

    /// The name of the function, in lower case.
    pub fn as_str(&self) -> (r: &'static str)
        ensures
            r@ == self.name(),
    {
        match self {
            BuiltinFunction::Sqrt => "sqrt",
            BuiltinFunction::Abs => "abs",
            BuiltinFunction::Sin => "sin",
            BuiltinFunction::Cos => "cos",
            BuiltinFunction::Tan => "tan",
            BuiltinFunction::Atan => "atan",
        }
    }

    /// The name of the function, in lower case.
    pub fn to_string(&self) -> (r: String)
        ensures
            r@ == self.name(),
    {
        String::from_str(self.as_str())
    }

    /// Every builtin function, in the order of declaration.
    pub fn all() -> (r: Vec<BuiltinFunction>)
        ensures
            r@ == Self::every(),
    {
        let mut r = Vec::new();
        r.push(BuiltinFunction::Sqrt);
        r.push(BuiltinFunction::Abs);
        r.push(BuiltinFunction::Sin);
        r.push(BuiltinFunction::Cos);
        r.push(BuiltinFunction::Tan);
        r.push(BuiltinFunction::Atan);
        assert(r@ =~= Self::every());
        r
    }
}

} // verus!
