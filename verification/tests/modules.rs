use rote::modules::{fetch, Module};

#[test]
fn fetch_finds_each_built_in_module() {
    assert_eq!(fetch("core"), Some(Module::Core));
    assert_eq!(fetch("cargo"), Some(Module::Cargo));
    assert_eq!(fetch("cpp"), Some(Module::Cpp));
    assert_eq!(fetch("docker"), Some(Module::Docker));
    assert_eq!(fetch("fs"), Some(Module::Fs));
    assert_eq!(fetch("git"), Some(Module::Git));
    assert_eq!(fetch("java"), Some(Module::Java));
    assert_eq!(fetch("php"), Some(Module::Php));
    assert_eq!(fetch("table"), Some(Module::Table));
}

#[test]
fn fetch_knows_no_other_module() {
    assert_eq!(fetch(""), None);
    assert_eq!(fetch("Core"), None);
    assert_eq!(fetch("core.lua"), None);
    assert_eq!(fetch("python"), None);
}

#[test]
fn module_file_names() {
    assert_eq!(Module::Core.file_name(), "core.lua");
    assert_eq!(Module::Table.file_name(), "table.lua");
}
