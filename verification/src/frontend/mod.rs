//! The source compiler: tokens, syntax tree, capture analysis and code generation.
use vstd::prelude::*;
use crate::frontend::lexer::{LexError, Span};
use crate::text::push_dec;
#[allow(unused_imports)]
use crate::text::dec_text;

pub mod arrays;
pub mod ast;
pub mod boot_timing;
pub mod capture;
pub mod codegen;
pub mod control;
pub mod entry;
pub mod flow;
pub mod lexer;
pub mod reading;
pub mod selectors;
pub mod values;

verus! {

/// A failure anywhere in the compiler.
#[derive(Clone, Debug)]
pub struct CompileError {
    /// The file, once a caller has named it.
    pub path: Option<String>,
    pub span: Span,
    pub msg: String,
    /// The input ended too early.
    pub eof: bool,
}

impl CompileError {
    /// The error, in a file.
    pub fn with_path(self, path: String) -> (r: CompileError)
        ensures
            r.path == Some(path),
            r.span == self.span,
            r.msg == self.msg,
            r.eof == self.eof,
    {
        CompileError { path: Some(path), span: self.span, msg: self.msg, eof: self.eof }
    }

    /// The name of the file, or a stand-in.
    pub open spec fn file(&self) -> Seq<char> {
        match self.path {
            Some(p) => p@,
            None => "<input>"@,
        }
    }

    /// The error as it is reported: file, line, column and message.
    pub fn report(&self) -> (r: String)
        ensures
            r@ == self.file() + ":"@ + dec_text(self.span.line as nat) + ":"@ + dec_text(self.span.col as nat)
                + ": error: "@ + self.msg@,
    {
        let mut s: String = String::new();
        match &self.path {
            Some(p) => {
                s.append(p.as_str());
            },
            None => {
                s.append("<input>");
            },
        }
        assert(s@ =~= self.file());
        s.append(":");
        push_dec(&mut s, self.span.line as u64);
        s.append(":");
        push_dec(&mut s, self.span.col as u64);
        s.append(": error: ");
        s.append(self.msg.as_str());
        s
    }
}

impl From<LexError> for CompileError {
    fn from(e: LexError) -> (r: CompileError) {
        CompileError { path: None, span: e.span, msg: e.msg, eof: e.eof }
    }
}

impl vstd::std_specs::convert::FromSpecImpl<LexError> for CompileError {
    open spec fn obeys_from_spec() -> bool {
        true
    }

    open spec fn from_spec(e: LexError) -> CompileError {
        CompileError { path: None, span: e.span, msg: e.msg, eof: e.eof }
    }
}

} // verus!
