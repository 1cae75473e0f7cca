//! What the interpreter observed at a send site, and the methods it found there.
use vstd::prelude::*;
use crate::bytecode::Instr;
use crate::oops::{KlassOop, MethodOop};

verus! {

/// One decoded instruction with its size in bytes.
#[derive(Clone, Copy, Debug, PartialEq, Eq, Structural)]
pub struct Decoded {
    pub instr: Instr,
    pub len: u32,
}

/// A method as the inliner reads it.
#[derive(Clone, Debug)]
pub struct Method {
    pub oop: MethodOop,
    /// The primitive's number; zero for none.
    pub primitive: i64,
    pub argc: usize,
    pub has_ctx: bool,
    pub is_block: bool,
    pub code: Vec<Decoded>,
    /// The selector of each send site.
    pub selectors: Vec<String>,
    /// Whether the entry block ends in a return.
    pub entry_returns: bool,
}

/// The bytes of the first `k` instructions.
pub open spec fn bytes_of(code: Seq<Decoded>, k: int) -> nat
    decreases k,
{
    if k <= 0 {
        0
    } else {
        bytes_of(code, k - 1) + code[k - 1].len as nat
    }
}

impl Method {
    /// The size of the code in bytes.
    pub open spec fn spec_bytecode_len(&self) -> nat {
        bytes_of(self.code@, self.code@.len() as int)
    }

    /// The size of the code in bytes.
    pub fn bytecode_len(&self) -> (r: u32)
        requires
            self.spec_bytecode_len() <= u32::MAX,
        ensures
            r == self.spec_bytecode_len(),
    {
        let mut n: u32 = 0;
        let mut i: usize = 0;
        while i < self.code.len()
            invariant
                i <= self.code@.len(),
                n == bytes_of(self.code@, i as int),
                self.spec_bytecode_len() <= u32::MAX,
            decreases self.code@.len() - i,
        {
            proof {
                lemma_bytes(self.code@, i + 1, self.code@.len() as int);
            }
            n += self.code[i].len;
            i += 1;
        }
        n
    }
}

proof fn lemma_bytes(code: Seq<Decoded>, i: int, k: int)
    requires
        0 <= i <= k,
    ensures
        bytes_of(code, i) <= bytes_of(code, k),
    decreases k - i,
{
    if i < k {
        lemma_bytes(code, i, k - 1);
    }
}

/// One receiver class seen at a site.
#[derive(Clone, Debug)]
pub struct FeedbackCase {
    pub klass: KlassOop,
    pub method: Method,
    pub count: Option<u32>,
}

/// What was seen at a site. The cases stand with the most frequent first.
#[derive(Clone, Debug)]
pub enum SiteFeedback {
    Untaken,
    Mono { klass: KlassOop, method: Method },
    Poly { cases: Vec<FeedbackCase> },
    Mega,
}

} // verus!
