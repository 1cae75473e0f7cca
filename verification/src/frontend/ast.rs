//! The syntax tree.
use vstd::prelude::*;
use crate::frontend::lexer::Span;

verus! {

/// A literal value.
#[derive(Debug, PartialEq)]
pub enum Literal {
    Int(i64),
    /// A magnitude in base 256, the low byte first, without a leading zero byte.
    BigInt { negative: bool, digits: Vec<u8> },
    /// The bits of a double.
    Float(u64),
    Char(char),
    Str(String),
    Symbol(String),
    Array(Vec<Literal>),
    ByteArray(Vec<u8>),
    Nil,
    True,
    False,
}

/// An expression or a statement.
#[derive(Debug, PartialEq)]
pub enum Expr {
    SelfRef(Span),
    Var { name: String, span: Span },
    Lit { value: Literal, span: Span },
    Assign { name: String, value: Box<Expr>, span: Span },
    Send { receiver: Box<Expr>, selector: String, args: Vec<Expr>, is_super: bool, span: Span },
    Cascade { receiver: Box<Expr>, segments: Vec<Expr>, span: Span },
    /// The innermost receiver inside each segment of a cascade.
    CascadeRcvr(Span),
    /// A brace array: its elements are evaluated in order, into a fresh array each time.
    DynArray { elems: Vec<Expr>, span: Span },
    Block(Box<BlockNode>),
    /// In statement position only.
    Return { value: Box<Expr>, span: Span },
}

impl Expr {
    pub open spec fn spec_span(&self) -> Span {
        match *self {
            Expr::SelfRef(s) => s,
            Expr::Var { span, .. } => span,
            Expr::Lit { span, .. } => span,
            Expr::Assign { span, .. } => span,
            Expr::Send { span, .. } => span,
            Expr::Cascade { span, .. } => span,
            Expr::CascadeRcvr(s) => s,
            Expr::DynArray { span, .. } => span,
            Expr::Block(b) => b.span,
            Expr::Return { span, .. } => span,
        }
    }

    /// Where the expression stands.
    #[verifier::when_used_as_spec(spec_span)]
    pub fn span(&self) -> (r: Span)
        ensures
            r == self.spec_span(),
    {
        match self {
            Expr::SelfRef(s) => *s,
            Expr::Var { span, .. } => *span,
            Expr::Lit { span, .. } => *span,
            Expr::Assign { span, .. } => *span,
            Expr::Send { span, .. } => *span,
            Expr::Cascade { span, .. } => *span,
            Expr::CascadeRcvr(s) => *s,
            Expr::DynArray { span, .. } => *span,
            Expr::Block(b) => b.span,
            Expr::Return { span, .. } => *span,
        }
    }
}

/// A block.
#[derive(Debug, PartialEq)]
pub struct BlockNode {
    pub params: Vec<String>,
    pub temps: Vec<String>,
    pub body: Vec<Expr>,
    pub span: Span,
    /// Filled in by capture analysis.
    pub scope_id: u32,
}

/// A type annotation: the text between the angle brackets.
#[derive(Clone, Debug, PartialEq)]
pub struct TypeAnnotation {
    pub text: String,
    pub span: Span,
}

/// A method's annotations, parallel to its parameters and temporaries.
#[derive(Clone, Debug, PartialEq)]
pub struct MethodSignature {
    pub param_types: Vec<Option<TypeAnnotation>>,
    pub return_type: Option<TypeAnnotation>,
    pub temp_types: Vec<Option<TypeAnnotation>>,
}

impl Default for MethodSignature {
    fn default() -> (r: MethodSignature)
        ensures
            r.param_types@.len() == 0,
            r.return_type is None,
            r.temp_types@.len() == 0,
    {
        MethodSignature { param_types: Vec::new(), return_type: None, temp_types: Vec::new() }
    }
}

/// A method.
#[derive(Debug, PartialEq)]
pub struct MethodNode {
    pub pattern_selector: String,
    pub params: Vec<String>,
    pub primitive: Option<u16>,
    /// A foreign function; never together with a primitive.
    pub ffi: Option<FfiPragma>,
    pub temps: Vec<String>,
    pub body: Vec<Expr>,
    pub class_side: bool,
    pub span: Span,
    pub type_sig: MethodSignature,
}

/// A foreign function. Shapes of results and arguments stand as written.
#[derive(Clone, Debug, PartialEq)]
pub enum FfiPragma {
    Function { name: String, library: Option<String>, ret: String, args: Vec<String> },
    Selector { selector: String, class: String, class_side: bool, ret: String, args: Vec<String> },
}

/// What an indexable class holds.
#[derive(Clone, Copy, Debug, PartialEq, Eq, Structural)]
pub enum Indexable {
    Oops,
    Bytes,
}

/// A class definition.
#[derive(Debug, PartialEq)]
pub struct ClassDefNode {
    pub superclass: String,
    pub name: String,
    pub indexable: Option<Indexable>,
    pub inst_vars: Vec<String>,
    /// Parallel to `inst_vars`.
    pub inst_var_types: Vec<Option<TypeAnnotation>>,
    pub class_vars: Vec<String>,
    pub methods: Vec<MethodNode>,
    pub span: Span,
}

/// An item of a file.
#[derive(Debug, PartialEq)]
pub enum TopItem {
    ClassDef(ClassDefNode),
    /// A statement that is executed at once.
    DoIt(Expr),
}

} // verus!
