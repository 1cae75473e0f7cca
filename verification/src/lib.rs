//! A virtual machine for a language in the Smalltalk family: its source compiler, the code generator
//! of its native compiler, and the parts of its interpreter and memory that they meet.
use vstd::prelude::*;

pub mod bundle;
pub mod bytecode;
pub mod codecache;
pub mod compiler;
pub mod frontend;
pub mod interpreter;
pub mod memory;
pub mod oops;
pub mod text;

verus! {

/// The architectures that are told apart.
#[derive(Clone, Copy, Debug, PartialEq, Eq, Structural)]
pub enum TargetArch {
    Aarch64,
    X86_64,
    Other,
}

/// The systems that are told apart.
#[derive(Clone, Copy, Debug, PartialEq, Eq, Structural)]
pub enum TargetOs {
    Macos,
    Windows,
    Other,
}

/// What a program was built for.
#[derive(Clone, Copy, Debug, PartialEq, Eq, Structural)]
pub struct BuildTarget {
    pub arch: TargetArch,
    pub os: TargetOs,
}

/// The name of the architecture.
pub open spec fn arch_name(t: BuildTarget) -> Seq<char> {
    match t.arch {
        TargetArch::Aarch64 => "aarch64"@,
        TargetArch::X86_64 => "x86_64"@,
        TargetArch::Other => "other"@,
    }
}

/// The name of the system.
pub open spec fn os_name(t: BuildTarget) -> Seq<char> {
    match t.os {
        TargetOs::Macos => "macos"@,
        TargetOs::Windows => "windows"@,
        TargetOs::Other => "other"@,
    }
}

/// The architecture that the program was built for.
pub fn host_arch(t: BuildTarget) -> (r: &'static str)
    ensures
        r@ == arch_name(t),
{
    match t.arch {
        TargetArch::Aarch64 => "aarch64",
        TargetArch::X86_64 => "x86_64",
        TargetArch::Other => "other",
    }
}

/// The system that the program was built for.
pub fn host_os(t: BuildTarget) -> (r: &'static str)
    ensures
        r@ == os_name(t),
{
    match t.os {
        TargetOs::Macos => "macos",
        TargetOs::Windows => "windows",
        TargetOs::Other => "other",
    }
}

/// A program that would run translated: for Windows, by its system's name, and not for ARM.
pub open spec fn foreign(t: BuildTarget) -> bool {
    os_name(t) == "windows"@ && arch_name(t) != "aarch64"@
}

/// The names tell the targets apart: a program is refused if and only if it was built for Windows
/// and not for ARM. On any other system every architecture passes.
pub proof fn law_foreign_host(t: BuildTarget)
    ensures
        foreign(t) <==> t.os is Windows && !(t.arch is Aarch64),
{
    reveal_strlit("aarch64");
    reveal_strlit("x86_64");
    reveal_strlit("other");
    reveal_strlit("macos");
    reveal_strlit("windows");
    assert("x86_64"@[0] != "aarch64"@[0]);
    assert("other"@[0] != "aarch64"@[0]);
    assert("other"@[0] != "windows"@[0]);
    assert("macos"@[0] != "windows"@[0]);
}

/// What is said of a program that would run translated.
pub open spec fn foreign_text(t: BuildTarget) -> Seq<char> {
    "macvm: this is a "@ + arch_name(t)
        + " build on Windows. On a Windows-on-ARM64 host it runs under the x64 translation layer, so every timing it produces measures emulation (MIGRATION.md §6 risk table). Build with --target aarch64-pc-windows-msvc."@
}

/// Refuses a program for Windows that was not built for ARM: its timings would be the translator's.
pub fn assert_native_host(t: BuildTarget) -> (r: Result<(), String>)
    ensures
        match r {
            Ok(_) => !foreign(t),
            Err(m) => foreign(t) && m@ == foreign_text(t),
        },
{
    proof {
        law_foreign_host(t);
    }
    if t.os == TargetOs::Windows && t.arch != TargetArch::Aarch64 {
        let mut m: String = String::new();
        m.append("macvm: this is a ");
        m.append(host_arch(t));
        m.append(
            " build on Windows. On a Windows-on-ARM64 host it runs under the x64 translation layer, so every timing it produces measures emulation (MIGRATION.md §6 risk table). Build with --target aarch64-pc-windows-msvc.",
        );
        assert(m@ =~= foreign_text(t));
        return Err(m);
    }
    Ok(())
}

} // verus!
