//! Where the time of a start goes.
use vstd::prelude::*;

verus! {

/// The nanoseconds of each phase, and how often some of them ran. Times of methods are part of those
/// of class definitions.
#[derive(Clone, Copy, Debug, PartialEq, Eq, Structural)]
pub struct BootTimes {
    /// Nothing is counted unless it is.
    pub enabled: bool,
    pub primordial_ns: u64,
    pub parse_ns: u64,
    pub classdef_ns: u64,
    pub method_ns: u64,
    pub doit_ns: u64,
    pub classes: u64,
    pub methods: u64,
    pub doits: u64,
}

/// A sum as a counter keeps it.
pub open spec fn counted(n: int) -> u64 {
    (n % 0x1_0000_0000_0000_0000) as u64
}

/// Times that are all zero.
pub open spec fn zeroed(t: BootTimes) -> BootTimes {
    BootTimes {
        enabled: t.enabled,
        primordial_ns: 0,
        parse_ns: 0,
        classdef_ns: 0,
        method_ns: 0,
        doit_ns: 0,
        classes: 0,
        methods: 0,
        doits: 0,
    }
}

/// Times at the start of a program.
pub fn start(enabled: bool) -> (t: BootTimes)
    ensures
        t == zeroed(t),
        t.enabled == enabled,
{
    BootTimes {
        enabled,
        primordial_ns: 0,
        parse_ns: 0,
        classdef_ns: 0,
        method_ns: 0,
        doit_ns: 0,
        classes: 0,
        methods: 0,
        doits: 0,
    }
}

/// Whether anything is counted.
pub fn enabled(t: &BootTimes) -> (r: bool)
    ensures
        r == t.enabled,
{
    t.enabled
}

/// Making the machine took so long.
pub fn primordial(t: &mut BootTimes, ns: u64)
    ensures
        *final(t) == (if old(t).enabled {
            BootTimes { primordial_ns: counted(old(t).primordial_ns + ns), ..*old(t) }
        } else {
            *old(t)
        }),
{
    if t.enabled {
        t.primordial_ns = t.primordial_ns.wrapping_add(ns);
    }
}

/// Parsing took so long.
pub fn parse(t: &mut BootTimes, ns: u64)
    ensures
        *final(t) == (if old(t).enabled {
            BootTimes { parse_ns: counted(old(t).parse_ns + ns), ..*old(t) }
        } else {
            *old(t)
        }),
{
    if t.enabled {
        t.parse_ns = t.parse_ns.wrapping_add(ns);
    }
}

/// A class definition took so long.
pub fn classdef(t: &mut BootTimes, ns: u64)
    ensures
        *final(t) == (if old(t).enabled {
            BootTimes {
                classdef_ns: counted(old(t).classdef_ns + ns),
                classes: counted(old(t).classes + 1),
                ..*old(t)
            }
        } else {
            *old(t)
        }),
{
    if t.enabled {
        t.classdef_ns = t.classdef_ns.wrapping_add(ns);
        t.classes = t.classes.wrapping_add(1);
    }
}

/// Compiling a method took so long.
pub fn method(t: &mut BootTimes, ns: u64)
    ensures
        *final(t) == (if old(t).enabled {
            BootTimes {
                method_ns: counted(old(t).method_ns + ns),
                methods: counted(old(t).methods + 1),
                ..*old(t)
            }
        } else {
            *old(t)
        }),
{
    if t.enabled {
        t.method_ns = t.method_ns.wrapping_add(ns);
        t.methods = t.methods.wrapping_add(1);
    }
}

/// Compiling and running a statement took so long.
pub fn doit(t: &mut BootTimes, ns: u64)
    ensures
        *final(t) == (if old(t).enabled {
            BootTimes { doit_ns: counted(old(t).doit_ns + ns), doits: counted(old(t).doits + 1), ..*old(t) }
        } else {
            *old(t)
        }),
{
    if t.enabled {
        t.doit_ns = t.doit_ns.wrapping_add(ns);
        t.doits = t.doits.wrapping_add(1);
    }
}

/// The breakdown of a start.
#[derive(Clone, Copy, Debug, PartialEq, Eq, Structural)]
pub struct BootReport {
    pub total_ns: u64,
    pub primordial_ns: u64,
    pub parse_ns: u64,
    /// Class definitions without their methods.
    pub shape_ns: u64,
    pub methods_ns: u64,
    pub doits_ns: u64,
    /// The rest of the whole.
    pub other_ns: u64,
    pub classes: u64,
    pub methods: u64,
    pub doits: u64,
}

/// A difference that does not go below zero.
pub open spec fn less(a: int, b: int) -> int {
    if a >= b {
        a - b
    } else {
        0
    }
}

/// The breakdown of the start that took `world_ns` beside making the machine. The counters go back to
/// zero for the next one.
pub fn report(t: &mut BootTimes, world_ns: u64) -> (r: Option<BootReport>)
    requires
        old(t).primordial_ns + world_ns <= u64::MAX,
        old(t).parse_ns + old(t).classdef_ns + old(t).doit_ns <= u64::MAX,
    ensures
        *final(t) == (if old(t).enabled {
            zeroed(*old(t))
        } else {
            *old(t)
        }),
        r is Some <==> old(t).enabled,
        r matches Some(b) ==> {
            &&& b.total_ns == old(t).primordial_ns + world_ns
            &&& b.primordial_ns == old(t).primordial_ns
            &&& b.parse_ns == old(t).parse_ns
            &&& b.shape_ns == less(old(t).classdef_ns as int, old(t).method_ns as int)
            &&& b.methods_ns == old(t).method_ns
            &&& b.doits_ns == old(t).doit_ns
            &&& b.other_ns == less(world_ns as int, old(t).parse_ns + old(t).classdef_ns + old(t).doit_ns)
            &&& b.classes == old(t).classes
            &&& b.methods == old(t).methods
            &&& b.doits == old(t).doits
        },
{
    if !t.enabled {
        return None;
    }
    let was: BootTimes = *t;
    *t = start(was.enabled);
    let seen: u64 = was.parse_ns + was.classdef_ns + was.doit_ns;
    Some(
        BootReport {
            total_ns: was.primordial_ns + world_ns,
            primordial_ns: was.primordial_ns,
            parse_ns: was.parse_ns,
            shape_ns: if was.classdef_ns >= was.method_ns {
                was.classdef_ns - was.method_ns
            } else {
                0
            },
            methods_ns: was.method_ns,
            doits_ns: was.doit_ns,
            other_ns: if world_ns >= seen {
                world_ns - seen
            } else {
                0
            },
            classes: was.classes,
            methods: was.methods,
            doits: was.doits,
        },
    )
}

/// The phases of a breakdown make up its total, where methods took no longer than the class
/// definitions they are part of, nor the phases longer than the whole.
pub proof fn law_phases_make_up_the_total(t: BootTimes, world_ns: u64, b: BootReport)
    requires
        b.total_ns == t.primordial_ns + world_ns,
        b.primordial_ns == t.primordial_ns,
        b.parse_ns == t.parse_ns,
        b.shape_ns == less(t.classdef_ns as int, t.method_ns as int),
        b.methods_ns == t.method_ns,
        b.doits_ns == t.doit_ns,
        b.other_ns == less(world_ns as int, t.parse_ns + t.classdef_ns + t.doit_ns),
        t.method_ns <= t.classdef_ns,
        t.parse_ns + t.classdef_ns + t.doit_ns <= world_ns,
    ensures
        b.primordial_ns + b.parse_ns + b.shape_ns + b.methods_ns + b.doits_ns + b.other_ns == b.total_ns,
{
}

} // verus!
