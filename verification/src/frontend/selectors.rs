//! Which sends are dissolved into control flow, by their selectors and their blocks.
use vstd::prelude::*;
#[allow(unused_imports)]
use crate::frontend::ast::{BlockNode, Expr};
#[allow(unused_imports)]
use crate::frontend::capture::{
    control_of, literal_block, positions, send_positions, used_nested_in, BlockPos, Control,
};

verus! {

/// A number that tells the selectors apart: their length, their first and their third character.
spec fn key(s: Seq<char>) -> int {
    s.len() + 32 * (s[0] as int) + 4096 * (s[2] as int)
}

/// The selectors of control flow, one by one; any other selector is sent.
pub proof fn law_control_flow_selectors(s: Seq<char>)
    ensures
        control_of("ifTrue:"@) == Some(Control::IfTrue),
        control_of("ifFalse:"@) == Some(Control::IfFalse),
        control_of("and:"@) == Some(Control::And),
        control_of("or:"@) == Some(Control::Or),
        control_of("ifTrue:ifFalse:"@) == Some(Control::IfTrueIfFalse),
        control_of("ifFalse:ifTrue:"@) == Some(Control::IfFalseIfTrue),
        control_of("whileTrue:"@) == Some(Control::WhileTrueDo),
        control_of("whileFalse:"@) == Some(Control::WhileFalseDo),
        control_of("whileTrue"@) == Some(Control::WhileTrue),
        control_of("whileFalse"@) == Some(Control::WhileFalse),
        control_of("timesRepeat:"@) == Some(Control::TimesRepeat),
        control_of("ifNil:"@) == Some(Control::IfNil),
        control_of("ifNotNil:"@) == Some(Control::IfNotNil),
        control_of("ifNil:ifNotNil:"@) == Some(Control::IfNilIfNotNil),
        control_of("ifNotNil:ifNil:"@) == Some(Control::IfNotNilIfNil),
        control_of("repeat"@) == Some(Control::Repeat),
        control_of("to:do:"@) == Some(Control::ToDo),
        control_of(s) is Some ==> s == "ifTrue:"@ || s == "ifFalse:"@ || s == "and:"@ || s == "or:"@ || s == "ifTrue:ifFalse:"@ || s == "ifFalse:ifTrue:"@ || s == "whileTrue:"@ || s == "whileFalse:"@ || s == "whileTrue"@ || s == "whileFalse"@ || s == "timesRepeat:"@ || s == "ifNil:"@ || s == "ifNotNil:"@ || s == "ifNil:ifNotNil:"@ || s == "ifNotNil:ifNil:"@ || s == "repeat"@ || s == "to:do:"@,
{
    reveal_strlit("ifTrue:");
    assert(key("ifTrue:"@) == 347431);
    reveal_strlit("ifFalse:");
    assert(key("ifFalse:"@) == 290088);
    reveal_strlit("and:");
    assert(key("and:"@) == 412708);
    reveal_strlit("or:");
    assert(key("or:"@) == 241123);
    reveal_strlit("ifTrue:ifFalse:");
    assert(key("ifTrue:ifFalse:"@) == 347439);
    reveal_strlit("ifFalse:ifTrue:");
    assert(key("ifFalse:ifTrue:"@) == 290095);
    reveal_strlit("whileTrue:");
    assert(key("whileTrue:"@) == 433898);
    reveal_strlit("whileFalse:");
    assert(key("whileFalse:"@) == 433899);
    reveal_strlit("whileTrue");
    assert(key("whileTrue"@) == 433897);
    reveal_strlit("whileFalse");
    assert(key("whileFalse"@) == 433898);
    reveal_strlit("timesRepeat:");
    assert(key("timesRepeat:"@) == 450188);
    reveal_strlit("ifNil:");
    assert(key("ifNil:"@) == 322854);
    reveal_strlit("ifNotNil:");
    assert(key("ifNotNil:"@) == 322857);
    reveal_strlit("ifNil:ifNotNil:");
    assert(key("ifNil:ifNotNil:"@) == 322863);
    reveal_strlit("ifNotNil:ifNil:");
    assert(key("ifNotNil:ifNil:"@) == 322863);
    reveal_strlit("repeat");
    assert(key("repeat"@) == 462406);
    reveal_strlit("to:do:");
    assert(key("to:do:"@) == 241286);
    assert("whileTrue:"@[5] == 'T' && "whileFalse"@[5] == 'F');
    assert("ifNil:ifNotNil:"@[3] == 'i' && "ifNotNil:ifNil:"@[3] == 'o');
}

/// A send is dissolved exactly where its blocks are written at the send, and take as many parameters as
/// the construct passes: none, but for the value that is not nil, which a block may take, and the
/// counter of a loop over a range, which its block does take. That loop stays a send where a block
/// nested in it uses the counter. A send to super is never dissolved.
pub proof fn law_dissolved_sends(receiver: Expr, args: Seq<Expr>, s: Seq<char>)
    ensures
        send_positions(s, receiver, args, true) is None,
        send_positions(s, receiver, args, false) is Some ==> control_of(s) is Some,
        ({
            let plain = |e: Expr| e matches Expr::Block(b) && b.params@.len() == 0;
            let taking = |e: Expr| e matches Expr::Block(b) && b.params@.len() <= 1;
            &&& positions("ifTrue:"@, receiver, args) == if args.len() == 1 && plain(args[0]) {
                Some(seq![BlockPos::Arg(0)])
            } else {
                None
            }
            &&& positions("ifFalse:"@, receiver, args) == if args.len() == 1 && plain(args[0]) {
                Some(seq![BlockPos::Arg(0)])
            } else {
                None
            }
            &&& positions("and:"@, receiver, args) == if args.len() == 1 && plain(args[0]) {
                Some(seq![BlockPos::Arg(0)])
            } else {
                None
            }
            &&& positions("or:"@, receiver, args) == if args.len() == 1 && plain(args[0]) {
                Some(seq![BlockPos::Arg(0)])
            } else {
                None
            }
            &&& positions("ifTrue:ifFalse:"@, receiver, args) == if args.len() == 2 && plain(args[0]) && plain(args[1]) {
                Some(seq![BlockPos::Arg(0), BlockPos::Arg(1)])
            } else {
                None
            }
            &&& positions("ifFalse:ifTrue:"@, receiver, args) == if args.len() == 2 && plain(args[0]) && plain(args[1]) {
                Some(seq![BlockPos::Arg(0), BlockPos::Arg(1)])
            } else {
                None
            }
            &&& positions("whileTrue:"@, receiver, args) == if args.len() == 1 && plain(receiver) && plain(args[0]) {
                Some(seq![BlockPos::Receiver, BlockPos::Arg(0)])
            } else {
                None
            }
            &&& positions("whileFalse:"@, receiver, args) == if args.len() == 1 && plain(receiver) && plain(args[0]) {
                Some(seq![BlockPos::Receiver, BlockPos::Arg(0)])
            } else {
                None
            }
            &&& positions("whileTrue"@, receiver, args) == if args.len() == 0 && plain(receiver) {
                Some(seq![BlockPos::Receiver])
            } else {
                None
            }
            &&& positions("whileFalse"@, receiver, args) == if args.len() == 0 && plain(receiver) {
                Some(seq![BlockPos::Receiver])
            } else {
                None
            }
            &&& positions("timesRepeat:"@, receiver, args) == if args.len() == 1 && plain(args[0]) {
                Some(seq![BlockPos::Arg(0)])
            } else {
                None
            }
            &&& positions("ifNil:"@, receiver, args) == if args.len() == 1 && plain(args[0]) {
                Some(seq![BlockPos::Arg(0)])
            } else {
                None
            }
            &&& positions("ifNotNil:"@, receiver, args) == if args.len() == 1 && taking(args[0]) {
                Some(seq![BlockPos::Arg(0)])
            } else {
                None
            }
            &&& positions("ifNil:ifNotNil:"@, receiver, args) == if args.len() == 2 && plain(args[0]) && taking(args[1]) {
                Some(seq![BlockPos::Arg(0), BlockPos::Arg(1)])
            } else {
                None
            }
            &&& positions("ifNotNil:ifNil:"@, receiver, args) == if args.len() == 2 && taking(args[0]) && plain(args[1]) {
                Some(seq![BlockPos::Arg(0), BlockPos::Arg(1)])
            } else {
                None
            }
            &&& positions("repeat"@, receiver, args) == if args.len() == 0 && plain(receiver) {
                Some(seq![BlockPos::Receiver])
            } else {
                None
            }
            &&& positions("to:do:"@, receiver, args) == if args.len() == 2 && (args[1] matches Expr::Block(b) && b.params@.len() == 1 && !used_nested_in(b.body@, b.params@[0]@, false, b.body@.len() as int)) {
                Some(seq![BlockPos::Arg(1)])
            } else {
                None
            }
        }),
{
    law_control_flow_selectors(s);
}

} // verus!
