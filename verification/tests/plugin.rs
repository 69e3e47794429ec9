use minikv::plugin::{
    LogLevel, LoggingHookPlugin, PluginDependency, PluginInfo, PluginLogger, PluginRegistry,
    PluginState, PluginType, PluginVersion,
};
use minikv::Error;

#[test]
fn test_plugin_version_compatibility() {
    let v1 = PluginVersion::new(1, 0, 0);
    let v2 = PluginVersion::new(1, 2, 0);
    let v3 = PluginVersion::new(2, 0, 0);

    assert!(v1.is_compatible(&v2));
    assert!(!v1.is_compatible(&v3));
}

#[test]
fn plugin_version_text() {
    assert_eq!(PluginVersion::new(1, 20, 3).to_text(), "1.20.3");
}

#[test]
fn plugin_registry_lifecycle() {
    let mut registry = PluginRegistry::new();
    let plugin = LoggingHookPlugin::new();
    assert!(registry.check_register(&plugin.info).is_ok());
    registry.add(plugin.info.clone(), 0);

    let plugins = registry.list_plugins();
    assert_eq!(plugins.len(), 1);
    assert_eq!(plugins[0].0.id, "builtin.logging-hook");
    assert_eq!(plugins[0].1, PluginState::Initialized);

    assert_eq!(registry.enable_step("builtin.logging-hook").unwrap(), true);
    registry.set_state("builtin.logging-hook", PluginState::Enabled);
    assert_eq!(registry.get_state("builtin.logging-hook"), Some(PluginState::Enabled));
    assert_eq!(registry.enable_step("builtin.logging-hook").unwrap(), false);

    assert_eq!(registry.disable_step("builtin.logging-hook").unwrap(), true);
    registry.set_state("builtin.logging-hook", PluginState::Disabled);
    assert_eq!(registry.get_state("builtin.logging-hook"), Some(PluginState::Disabled));
    assert_eq!(registry.disable_step("builtin.logging-hook").unwrap(), false);

    let removed = registry.remove("builtin.logging-hook").unwrap();
    assert_eq!(removed.info.name, "Logging Hook");
    assert!(registry.get_info("builtin.logging-hook").is_none());
    assert!(registry.load_order().is_empty());
}

fn info_with_dep(id: &str, dep: &str, optional: bool) -> PluginInfo {
    let mut info = LoggingHookPlugin::new().info;
    info.id = id.to_string();
    info.plugin_type = PluginType::General;
    info.dependencies.push(PluginDependency {
        plugin_id: dep.to_string(),
        min_version: PluginVersion::new(1, 0, 0),
        optional,
    });
    info
}

#[test]
fn plugin_registry_refusals() {
    let mut registry = PluginRegistry::new();
    let hook = LoggingHookPlugin::new().info;
    registry.add(hook.clone(), 0);
    match registry.check_register(&hook) {
        Err(Error::Other(m)) => assert_eq!(m, "Plugin builtin.logging-hook is already registered"),
        other => panic!("unexpected {:?}", other),
    }
    match registry.check_register(&info_with_dep("p2", "missing", false)) {
        Err(Error::Other(m)) => assert_eq!(m, "Plugin p2 requires missing which is not loaded"),
        other => panic!("unexpected {:?}", other),
    }
    assert!(registry.check_register(&info_with_dep("p3", "missing", true)).is_ok());
    assert!(registry.check_register(&info_with_dep("p4", "builtin.logging-hook", false)).is_ok());
    match registry.enable_step("ghost") {
        Err(Error::Other(m)) => assert_eq!(m, "Plugin ghost not found"),
        other => panic!("unexpected {:?}", other),
    }
}

#[test]
fn plugin_remove_keeps_other_order() {
    let mut registry = PluginRegistry::new();
    registry.add(info_with_dep("a", "x", true), 1);
    registry.add(info_with_dep("b", "x", true), 2);
    registry.add(info_with_dep("c", "x", true), 3);
    registry.remove("b");
    assert_eq!(registry.load_order(), vec!["a".to_string(), "c".to_string()]);
}

#[test]
fn plugin_logger_lines() {
    let logger = PluginLogger::new("plugin");
    let line = logger.warn("careful");
    assert_eq!(line.level, LogLevel::Warn);
    assert_eq!(line.text, "[plugin] careful");
    assert_eq!(logger.info("hi").text, "[plugin] hi");
}

#[test]
fn plugin_logging_hook_metadata() {
    let info = LoggingHookPlugin::new().info;
    assert_eq!(info.id, "builtin.logging-hook");
    assert_eq!(info.version, PluginVersion::new(1, 0, 0));
    assert_eq!(info.required_version, PluginVersion::new(0, 8, 0));
    assert_eq!(info.license.as_deref(), Some("MIT"));
    assert_eq!(info.plugin_type, PluginType::Hook);
}
