use std::cell::RefCell;
use std::rc::Rc;

use serde_json::Value;
use tool_registry::{LoadStep, ToolRegistry, ToolSpec};

type Log = Rc<RefCell<Vec<String>>>;

/// Stands for a loaded tool: records its own drop.
struct FakeTool {
    marker: u32,
    log: Log,
}

impl Drop for FakeTool {
    fn drop(&mut self) {
        self.log.borrow_mut().push(format!("tool {}", self.marker));
    }
}

/// Stands for an open library handle: records its own drop.
struct FakeLibrary {
    label: String,
    log: Log,
}

impl Drop for FakeLibrary {
    fn drop(&mut self) {
        self.log.borrow_mut().push(format!("library {}", self.label));
    }
}

fn spec(name: &str) -> ToolSpec {
    ToolSpec::function(
        name.to_string(),
        format!("the {} tool", name),
        Value::String(format!("{} parameters", name)),
    )
}

/// Runs one load the way the directory scan does, with `marker` for the new tool.
fn load(
    reg: &mut ToolRegistry<FakeTool, FakeLibrary>,
    log: &Log,
    path: &str,
    modified: i128,
    name: &str,
    marker: u32,
) -> LoadStep {
    let step = reg.prepare_load(path, modified);
    if step != LoadStep::UpToDate {
        log.borrow_mut().push(format!("open {}", path));
        let tool = FakeTool { marker, log: log.clone() };
        let library = FakeLibrary { label: format!("{}@{}", path, modified), log: log.clone() };
        reg.register(path.to_string(), modified, spec(name), tool, library);
    }
    step
}

fn marker_of(reg: &ToolRegistry<FakeTool, FakeLibrary>, name: &str) -> Option<u32> {
    reg.get_tool(name).map(|t| t.marker)
}

#[test]
fn loading_unchanged_file_twice_is_noop() {
    let log: Log = Rc::new(RefCell::new(Vec::new()));
    let mut reg = ToolRegistry::new();
    assert_eq!(load(&mut reg, &log, "/p/a.so", 10, "alpha", 1), LoadStep::Fresh);
    assert_eq!(load(&mut reg, &log, "/p/a.so", 10, "alpha", 2), LoadStep::UpToDate);
    assert_eq!(marker_of(&reg, "alpha"), Some(1));
    assert_eq!(*log.borrow(), vec!["open /p/a.so".to_string()]);
    assert_eq!(reg.tools_specs().len(), 1);
}

#[test]
fn older_modification_time_is_up_to_date() {
    let log: Log = Rc::new(RefCell::new(Vec::new()));
    let mut reg = ToolRegistry::new();
    load(&mut reg, &log, "/p/a.so", 10, "alpha", 1);
    assert_eq!(load(&mut reg, &log, "/p/a.so", 9, "alpha", 2), LoadStep::UpToDate);
    assert_eq!(marker_of(&reg, "alpha"), Some(1));
}

#[test]
fn newer_file_releases_old_handle_before_opening() {
    let log: Log = Rc::new(RefCell::new(Vec::new()));
    let mut reg = ToolRegistry::new();
    load(&mut reg, &log, "/p/a.so", 10, "alpha", 1);
    assert_eq!(load(&mut reg, &log, "/p/a.so", 11, "alpha", 2), LoadStep::Reloaded);
    let expected: Vec<String> = vec![
        "open /p/a.so".to_string(),
        "tool 1".to_string(),
        "library /p/a.so@10".to_string(),
        "open /p/a.so".to_string(),
    ];
    assert_eq!(*log.borrow(), expected);
    assert_eq!(marker_of(&reg, "alpha"), Some(2));
}

#[test]
fn distinct_loads_give_one_spec_each() {
    let log: Log = Rc::new(RefCell::new(Vec::new()));
    let mut reg = ToolRegistry::new();
    load(&mut reg, &log, "/p/a.so", 1, "alpha", 1);
    load(&mut reg, &log, "/p/b.so", 1, "beta", 2);
    load(&mut reg, &log, "/p/c.so", 1, "gamma", 3);
    let specs = reg.tools_specs();
    assert_eq!(specs.len(), 3);
    let mut names: Vec<String> = specs.iter().map(|s| s.name.clone()).collect();
    names.sort();
    assert_eq!(names, vec!["alpha".to_string(), "beta".to_string(), "gamma".to_string()]);
    for s in &specs {
        assert_eq!(s.kind, "function");
        assert_eq!(s.description, format!("the {} tool", s.name));
        assert_eq!(s.parameters, Value::String(format!("{} parameters", s.name)));
    }
}

#[test]
fn get_tool_on_unregistered_name_is_none() {
    let log: Log = Rc::new(RefCell::new(Vec::new()));
    let mut reg: ToolRegistry<FakeTool, FakeLibrary> = ToolRegistry::new();
    assert!(reg.get_tool("alpha").is_none());
    load(&mut reg, &log, "/p/a.so", 1, "alpha", 1);
    assert!(reg.get_tool("beta").is_none());
    assert!(reg.get_tool("alph").is_none());
    assert!(reg.get_tool("alpha").is_some());
}

#[test]
fn unloaded_path_loads_fresh() {
    let log: Log = Rc::new(RefCell::new(Vec::new()));
    let mut reg = ToolRegistry::new();
    load(&mut reg, &log, "/p/a.so", 10, "alpha", 1);
    assert!(reg.unload_library("/p/a.so"));
    assert!(reg.get_tool("alpha").is_none());
    assert_eq!(reg.tools_specs().len(), 0);
    assert_eq!(load(&mut reg, &log, "/p/a.so", 5, "alpha", 2), LoadStep::Fresh);
    assert_eq!(marker_of(&reg, "alpha"), Some(2));
}

#[test]
fn unload_of_unknown_path_changes_nothing() {
    let log: Log = Rc::new(RefCell::new(Vec::new()));
    let mut reg = ToolRegistry::new();
    load(&mut reg, &log, "/p/a.so", 10, "alpha", 1);
    assert!(!reg.unload_library("/p/b.so"));
    assert_eq!(marker_of(&reg, "alpha"), Some(1));
    assert_eq!(reg.tools_specs().len(), 1);
}

#[test]
fn unload_drops_tool_before_library() {
    let log: Log = Rc::new(RefCell::new(Vec::new()));
    let mut reg = ToolRegistry::new();
    load(&mut reg, &log, "/p/a.so", 10, "alpha", 7);
    reg.unload_library("/p/a.so");
    let expected: Vec<String> = vec![
        "open /p/a.so".to_string(),
        "tool 7".to_string(),
        "library /p/a.so@10".to_string(),
    ];
    assert_eq!(*log.borrow(), expected);
}

#[test]
fn reload_keeps_unrelated_tools() {
    let log: Log = Rc::new(RefCell::new(Vec::new()));
    let mut reg = ToolRegistry::new();
    load(&mut reg, &log, "/d/toolA.so", 1, "alpha", 1);
    load(&mut reg, &log, "/d/toolB.so", 1, "beta", 2);
    assert_eq!(marker_of(&reg, "alpha"), Some(1));
    assert_eq!(marker_of(&reg, "beta"), Some(2));
    assert_eq!(reg.tools_specs().len(), 2);
    assert_eq!(load(&mut reg, &log, "/d/toolA.so", 2, "alpha", 3), LoadStep::Reloaded);
    assert_eq!(load(&mut reg, &log, "/d/toolB.so", 1, "beta", 4), LoadStep::UpToDate);
    assert_eq!(marker_of(&reg, "alpha"), Some(3));
    assert_eq!(marker_of(&reg, "beta"), Some(2));
    assert_eq!(reg.tools_specs().len(), 2);
}

#[test]
fn name_collision_unloads_previous_owner() {
    let log: Log = Rc::new(RefCell::new(Vec::new()));
    let mut reg = ToolRegistry::new();
    load(&mut reg, &log, "/p/a.so", 1, "alpha", 1);
    load(&mut reg, &log, "/p/b.so", 1, "alpha", 2);
    assert_eq!(marker_of(&reg, "alpha"), Some(2));
    assert_eq!(reg.tools_specs().len(), 1);
    assert!(log.borrow().contains(&"library /p/a.so@1".to_string()));
    assert!(!reg.unload_library("/p/a.so"));
    assert_eq!(load(&mut reg, &log, "/p/a.so", 1, "alpha", 3), LoadStep::Fresh);
    assert_eq!(marker_of(&reg, "alpha"), Some(3));
    assert_eq!(reg.tools_specs().len(), 1);
}

#[test]
fn spec_of_function_has_discriminator() {
    let s = ToolSpec::function("alpha".to_string(), "d".to_string(), Value::Null);
    assert_eq!(s.kind, "function");
    assert_eq!(s.name, "alpha");
    assert_eq!(s.description, "d");
    assert_eq!(s.parameters, Value::Null);
}
