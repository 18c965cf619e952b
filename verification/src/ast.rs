//! The template as the front-end parser delivers it: an output-row type name,
//! the raw query string, and an ordered list of compile-time binding
//! declarations. Patterns and branch expressions are opaque token text to this
//! pipeline; it only stores and forwards them.

use vstd::prelude::*;

verus! {

// ---------------------------------------------------------------------------
// Mathematical model
// ---------------------------------------------------------------------------

/// Model of one element of a parenthesized tuple arm value.
#[verifier::ext_equal]
pub enum SpecTupleElem {
    StringLiteral(Seq<char>),
    Other,
}

/// Model of the value expression of one match arm.
#[verifier::ext_equal]
pub enum SpecArmValue {
    StringLiteral(Seq<char>),
    Tuple(Seq<SpecTupleElem>),
    Other,
}

/// Model of one arm of a binding declaration.
#[verifier::ext_equal]
pub struct SpecParsedArm {
    pub pattern: Seq<char>,
    pub value: SpecArmValue,
}

/// Model of one compile-time binding declaration.
#[verifier::ext_equal]
pub struct SpecBindingDeclaration {
    pub names: Seq<Seq<char>>,
    pub expression: Seq<char>,
    pub arms: Seq<SpecParsedArm>,
}

/// Model of a whole parsed template.
#[verifier::ext_equal]
pub struct SpecParsedConditionalQueryAs {
    pub output_type: Seq<char>,
    pub query_string: Seq<char>,
    pub compile_time_bindings: Seq<SpecBindingDeclaration>,
}

// ---------------------------------------------------------------------------
// Executable representation
// ---------------------------------------------------------------------------

/// One element of a parenthesized tuple arm value. The analyzer accepts only
/// string literals; any other expression shape is reported as an error.
#[derive(Debug)]
pub enum TupleElem {
    /// A string literal, carried by value.
    StringLiteral(Vec<char>),
    /// Any other expression shape.
    Other,
}

/// The value expression of one match arm.
#[derive(Debug)]
pub enum ArmValue {
    /// A bare string literal: one binding value.
    StringLiteral(Vec<char>),
    /// A parenthesized tuple: one binding value per element, in order.
    Tuple(Vec<TupleElem>),
    /// Any other expression shape.
    Other,
}

/// One arm of a binding declaration's match expression: `pattern => value`.
#[derive(Debug)]
pub struct ParsedArm {
    /// Opaque pattern text; this pipeline never inspects it.
    pub pattern: Vec<char>,
    pub value: ArmValue,
}

/// One compile-time binding declaration, `#name = match expr { .. }` or
/// `#(a, b) = match expr { .. }`.
#[derive(Debug)]
pub struct BindingDeclaration {
    /// The bound names; one for the single-name form, several for the tuple
    /// form. Never empty as delivered by the front end.
    pub names: Vec<Vec<char>>,
    /// Opaque text of the expression matched upon.
    pub expression: Vec<char>,
    pub arms: Vec<ParsedArm>,
}

/// The whole template as the front-end parser delivers it.
#[derive(Debug)]
pub struct ParsedConditionalQueryAs {
    /// The output-row type name handed through to the back-end emitter.
    pub output_type: Vec<char>,
    /// The raw template string.
    pub query_string: Vec<char>,
    /// All compile-time binding declarations, in source order.
    pub compile_time_bindings: Vec<BindingDeclaration>,
}

// ---------------------------------------------------------------------------
// Views
// ---------------------------------------------------------------------------

impl DeepView for TupleElem {
    type V = SpecTupleElem;

    open spec fn deep_view(&self) -> SpecTupleElem {
        match self {
            TupleElem::StringLiteral(s) => SpecTupleElem::StringLiteral(s@),
            TupleElem::Other => SpecTupleElem::Other,
        }
    }
}

impl DeepView for ArmValue {
    type V = SpecArmValue;

    open spec fn deep_view(&self) -> SpecArmValue {
        match self {
            ArmValue::StringLiteral(s) => SpecArmValue::StringLiteral(s@),
            ArmValue::Tuple(elems) => SpecArmValue::Tuple(elems.deep_view()),
            ArmValue::Other => SpecArmValue::Other,
        }
    }
}

impl DeepView for ParsedArm {
    type V = SpecParsedArm;

    open spec fn deep_view(&self) -> SpecParsedArm {
        SpecParsedArm { pattern: self.pattern@, value: self.value.deep_view() }
    }
}

impl DeepView for BindingDeclaration {
    type V = SpecBindingDeclaration;

    open spec fn deep_view(&self) -> SpecBindingDeclaration {
        SpecBindingDeclaration {
            names: self.names.deep_view(),
            expression: self.expression@,
            arms: self.arms.deep_view(),
        }
    }
}

impl DeepView for ParsedConditionalQueryAs {
    type V = SpecParsedConditionalQueryAs;

    open spec fn deep_view(&self) -> SpecParsedConditionalQueryAs {
        SpecParsedConditionalQueryAs {
            output_type: self.output_type@,
            query_string: self.query_string@,
            compile_time_bindings: self.compile_time_bindings.deep_view(),
        }
    }
}

} // verus!
