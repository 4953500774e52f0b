//! The script modules that are built into the tool.

use vstd::prelude::*;
use crate::text::same_str;

verus! {

/// A built-in script module.
#[derive(Clone, Copy, Debug, PartialEq, Eq, Structural)]
pub enum Module {
    Core,
    Cargo,
    Cpp,
    Docker,
    Fs,
    Git,
    Java,
    Php,
    Table,
}

/// The built-in module of the given name, if there is one.
pub open spec fn module_named(name: Seq<char>) -> Option<Module> {
    if name == "core"@ {
        Some(Module::Core)
    } else if name == "cargo"@ {
        Some(Module::Cargo)
    } else if name == "cpp"@ {
        Some(Module::Cpp)
    } else if name == "docker"@ {
        Some(Module::Docker)
    } else if name == "fs"@ {
        Some(Module::Fs)
    } else if name == "git"@ {
        Some(Module::Git)
    } else if name == "java"@ {
        Some(Module::Java)
    } else if name == "php"@ {
        Some(Module::Php)
    } else if name == "table"@ {
        Some(Module::Table)
    } else {
        None
    }
}

/// The name of the file that holds the source of a module.
pub open spec fn file_of(module: Module) -> Seq<char> {
    match module {
        Module::Core => "core.lua"@,
        Module::Cargo => "cargo.lua"@,
        Module::Cpp => "cpp.lua"@,
        Module::Docker => "docker.lua"@,
        Module::Fs => "fs.lua"@,
        Module::Git => "git.lua"@,
        Module::Java => "java.lua"@,
        Module::Php => "php.lua"@,
        Module::Table => "table.lua"@,
    }
}

impl Module {
    /// The name of the file that holds the source of the module.
    pub fn file_name(&self) -> (r: &'static str)
        ensures
            r@ == file_of(*self),
    {
        match self {
            Module::Core => "core.lua",
            Module::Cargo => "cargo.lua",
            Module::Cpp => "cpp.lua",
            Module::Docker => "docker.lua",
            Module::Fs => "fs.lua",
            Module::Git => "git.lua",
            Module::Java => "java.lua",
            Module::Php => "php.lua",
            Module::Table => "table.lua",
        }
    }
}

/// Fetches a built-in module by its name; `None` where no module of that
/// name is built in.
pub fn fetch(name: &str) -> (r: Option<Module>)
    ensures
        r == module_named(name@),
{
    if same_str(name, "core") {
        Some(Module::Core)
    } else if same_str(name, "cargo") {
        Some(Module::Cargo)
    } else if same_str(name, "cpp") {
        Some(Module::Cpp)
    } else if same_str(name, "docker") {
        Some(Module::Docker)
    } else if same_str(name, "fs") {
        Some(Module::Fs)
    } else if same_str(name, "git") {
        Some(Module::Git)
    } else if same_str(name, "java") {
        Some(Module::Java)
    } else if same_str(name, "php") {
        Some(Module::Php)
    } else if same_str(name, "table") {
        Some(Module::Table)
    } else {
        None
    }
}

} // verus!
