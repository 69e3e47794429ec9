//! Plugin system for extending minikv with custom storage, auth, and hooks.
//!
//! The plugins themselves are user code run elsewhere; this module holds
//! their metadata and the registry that decides their lifecycle: whether a
//! plugin may be registered, whether enabling or disabling it calls into the
//! plugin, and what state it is in afterwards.

use vstd::prelude::*;
use crate::error::Error;
use crate::strmap::StrMap;
use crate::text::{concat2, decimal, u64_to_decimal};

verus! {

/// Plugin version following semver
#[derive(Debug, Clone, Copy, PartialEq, Eq, Structural)]
pub struct PluginVersion {
    pub major: u32,
    pub minor: u32,
    pub patch: u32,
}

impl PluginVersion {
    /// The version `major.minor.patch`.
    pub fn new(major: u32, minor: u32, patch: u32) -> (r: Self)
        ensures
            r == (PluginVersion { major, minor, patch }),
    {
        Self { major, minor, patch }
    }

    /// Whether the two versions are compatible: their major versions match.
    pub fn is_compatible(&self, other: &PluginVersion) -> (r: bool)
        ensures
            r == (self.major == other.major),
    {
        self.major == other.major
    }

    /// The version as `major.minor.patch`.
    pub fn to_text(&self) -> (r: String)
        ensures
            r@ == decimal(self.major as nat) + seq!['.'] + decimal(self.minor as nat) + seq!['.']
                + decimal(self.patch as nat),
    {
        let mut s = u64_to_decimal(self.major as u64);
        proof {
            reveal_strlit(".");
        }
        s.append(".");
        let minor = u64_to_decimal(self.minor as u64);
        s.append(minor.as_str());
        s.append(".");
        let patch = u64_to_decimal(self.patch as u64);
        s.append(patch.as_str());
        s
    }
}

/// Plugin type classification
#[derive(Debug, Clone, Copy, PartialEq, Eq, Structural)]
pub enum PluginType {
    /// Storage backend plugin
    Storage,
    /// Authentication provider plugin
    Auth,
    /// Event hook plugin
    Hook,
    /// Middleware plugin
    Middleware,
    /// Custom endpoint plugin
    Endpoint,
    /// General-purpose plugin
    General,
}

/// Plugin dependency specification
#[derive(Debug)]
pub struct PluginDependency {
    /// Plugin ID
    pub plugin_id: String,
    /// Minimum required version
    pub min_version: PluginVersion,
    /// Optional dependency
    pub optional: bool,
}

impl Clone for PluginDependency {
    fn clone(&self) -> (r: Self)
        ensures
            r.plugin_id@ == self.plugin_id@,
            r.min_version == self.min_version,
            r.optional == self.optional,
    {
        PluginDependency {
            plugin_id: self.plugin_id.clone(),
            min_version: self.min_version,
            optional: self.optional,
        }
    }
}

/// Plugin metadata
#[derive(Debug)]
pub struct PluginInfo {
    /// Unique plugin ID
    pub id: String,
    /// Human-readable name
    pub name: String,
    /// Plugin description
    pub description: String,
    /// Plugin version
    pub version: PluginVersion,
    /// Plugin author
    pub author: String,
    /// Plugin homepage/repository
    pub homepage: Option<String>,
    /// Plugin license
    pub license: Option<String>,
    /// Plugin type
    pub plugin_type: PluginType,
    /// Required minikv version
    pub required_version: PluginVersion,
    /// Dependencies on other plugins
    pub dependencies: Vec<PluginDependency>,
}

/// The abstract value of a plugin's metadata.
pub struct PluginInfoView {
    pub id: Seq<char>,
    pub name: Seq<char>,
    pub description: Seq<char>,
    pub version: PluginVersion,
    pub author: Seq<char>,
    pub homepage: Option<Seq<char>>,
    pub license: Option<Seq<char>>,
    pub plugin_type: PluginType,
    pub required_version: PluginVersion,
    /// Each dependency's plugin ID, minimum version and whether it is optional
    pub dependencies: Seq<(Seq<char>, PluginVersion, bool)>,
}

/// The abstract value of an optional string.
pub open spec fn opt_str(s: Option<String>) -> Option<Seq<char>> {
    match s {
        Some(x) => Some(x@),
        None => None,
    }
}

impl View for PluginInfo {
    type V = PluginInfoView;

    open spec fn view(&self) -> PluginInfoView {
        PluginInfoView {
            id: self.id@,
            name: self.name@,
            description: self.description@,
            version: self.version,
            author: self.author@,
            homepage: opt_str(self.homepage),
            license: opt_str(self.license),
            plugin_type: self.plugin_type,
            required_version: self.required_version,
            dependencies: self.dependencies@.map_values(
                |d: PluginDependency| (d.plugin_id@, d.min_version, d.optional),
            ),
        }
    }
}

fn clone_opt(s: &Option<String>) -> (r: Option<String>)
    ensures
        opt_str(r) == opt_str(*s),
{
    match s {
        Some(x) => Some(x.clone()),
        None => None,
    }
}

impl Clone for PluginInfo {
    fn clone(&self) -> (r: Self)
        ensures
            r@ == self@,
    {
        let mut deps: Vec<PluginDependency> = Vec::new();
        let mut i: usize = 0;
        while i < self.dependencies.len()
            invariant
                i <= self.dependencies@.len(),
                deps@.len() == i,
                forall|j: int|
                    0 <= j < i ==> (#[trigger] deps@[j]).plugin_id@ == self.dependencies@[j].plugin_id@
                        && deps@[j].min_version == self.dependencies@[j].min_version
                        && deps@[j].optional == self.dependencies@[j].optional,
            decreases self.dependencies@.len() - i,
        {
            deps.push(self.dependencies[i].clone());
            i = i + 1;
        }
        let r = PluginInfo {
            id: self.id.clone(),
            name: self.name.clone(),
            description: self.description.clone(),
            version: self.version,
            author: self.author.clone(),
            homepage: clone_opt(&self.homepage),
            license: clone_opt(&self.license),
            plugin_type: self.plugin_type,
            required_version: self.required_version,
            dependencies: deps,
        };
        assert(r@.dependencies =~= self@.dependencies);
        r
    }
}

/// Plugin state
#[derive(Debug, Clone, Copy, PartialEq, Eq, Structural)]
pub enum PluginState {
    /// Plugin is loaded but not initialized
    Loaded,
    /// Plugin is initialized but not enabled
    Initialized,
    /// Plugin is enabled and ready
    Enabled,
    /// Plugin is disabled
    Disabled,
    /// Plugin encountered an error
    Error,
}

/// The severity of a log line.
#[derive(Debug, Clone, Copy, PartialEq, Eq, Structural)]
pub enum LogLevel {
    Info,
    Warn,
    Error,
    Debug,
}

/// A log line to emit.
pub struct LogLine {
    pub level: LogLevel,
    pub text: String,
}

/// A logger that marks each line with its prefix.
pub struct PluginLogger {
    prefix: String,
}

/// `[prefix] message`.
pub open spec fn log_text(prefix: Seq<char>, message: Seq<char>) -> Seq<char> {
    seq!['['] + prefix + seq![']', ' '] + message
}

impl PluginLogger {
    /// The logger's prefix.
    pub closed spec fn prefix_view(&self) -> Seq<char> {
        self.prefix@
    }

    /// A logger with prefix `prefix`.
    pub fn new(prefix: &str) -> (r: Self)
        ensures
            r.prefix_view() == prefix@,
    {
        Self { prefix: prefix.to_owned() }
    }

    fn line(&self, level: LogLevel, message: &str) -> (r: LogLine)
        ensures
            r.level == level,
            r.text@ == log_text(self.prefix_view(), message@),
    {
        proof {
            reveal_strlit("[");
            reveal_strlit("] ");
        }
        let mut text = "[".to_owned();
        text.append(self.prefix.as_str());
        text.append("] ");
        text.append(message);
        LogLine { level, text }
    }

    /// The line that logs `message` as information.
    pub fn info(&self, message: &str) -> (r: LogLine)
        ensures
            r.level == LogLevel::Info,
            r.text@ == log_text(self.prefix_view(), message@),
    {
        self.line(LogLevel::Info, message)
    }

    /// The line that logs `message` as a warning.
    pub fn warn(&self, message: &str) -> (r: LogLine)
        ensures
            r.level == LogLevel::Warn,
            r.text@ == log_text(self.prefix_view(), message@),
    {
        self.line(LogLevel::Warn, message)
    }

    /// The line that logs `message` as an error.
    pub fn error(&self, message: &str) -> (r: LogLine)
        ensures
            r.level == LogLevel::Error,
            r.text@ == log_text(self.prefix_view(), message@),
    {
        self.line(LogLevel::Error, message)
    }

    /// The line that logs `message` for debugging.
    pub fn debug(&self, message: &str) -> (r: LogLine)
        ensures
            r.level == LogLevel::Debug,
            r.text@ == log_text(self.prefix_view(), message@),
    {
        self.line(LogLevel::Debug, message)
    }
}

/// Storage statistics
#[derive(Debug, Clone, Copy, PartialEq, Eq, Structural)]
pub struct StorageStats {
    pub total_keys: u64,
    pub total_bytes: u64,
    pub read_ops: u64,
    pub write_ops: u64,
    pub delete_ops: u64,
}

impl Default for StorageStats {
    fn default() -> (r: Self)
        ensures
            r == (StorageStats {
                total_keys: 0,
                total_bytes: 0,
                read_ops: 0,
                write_ops: 0,
                delete_ops: 0,
            }),
    {
        StorageStats { total_keys: 0, total_bytes: 0, read_ops: 0, write_ops: 0, delete_ops: 0 }
    }
}

/// Authentication credentials
#[derive(Debug, Clone)]
pub enum AuthCredentials {
    /// API key authentication
    ApiKey(String),
    /// Username/password
    Basic { username: String, password: String },
    /// Bearer token
    Bearer(String),
    /// Custom credentials
    Custom(StrMap<String>),
}

/// Authenticated identity
#[derive(Debug, Clone)]
pub struct AuthIdentity {
    /// User/service ID
    pub id: String,
    /// Tenant ID
    pub tenant: Option<String>,
    /// Roles
    pub roles: Vec<String>,
    /// Additional claims
    pub claims: StrMap<String>,
}

/// Authentication result
#[derive(Debug, Clone)]
pub struct AuthResult {
    /// Whether authentication succeeded
    pub authenticated: bool,
    /// Authenticated identity (if successful)
    pub identity: Option<AuthIdentity>,
    /// Error message (if failed)
    pub error: Option<String>,
    /// Generated token (if applicable)
    pub token: Option<String>,
}

/// The metadata of the built-in logging hook.
pub open spec fn logging_hook_info(i: PluginInfoView) -> bool {
    &&& i.id == "builtin.logging-hook"@
    &&& i.name == "Logging Hook"@
    &&& i.description == "Logs all data operations"@
    &&& i.version == PluginVersion { major: 1, minor: 0, patch: 0 }
    &&& i.author == "minikv"@
    &&& i.homepage is None
    &&& i.license == Some("MIT"@)
    &&& i.plugin_type == PluginType::Hook
    &&& i.required_version == PluginVersion { major: 0, minor: 8, patch: 0 }
    &&& i.dependencies.len() == 0
}

/// The built-in hook that logs every data operation.
pub struct LoggingHookPlugin {
    pub info: PluginInfo,
}

impl LoggingHookPlugin {
    /// The logging hook with its metadata.
    pub fn new() -> (r: Self)
        ensures
            logging_hook_info(r.info@),
    {
        let r = Self {
            info: PluginInfo {
                id: "builtin.logging-hook".to_owned(),
                name: "Logging Hook".to_owned(),
                description: "Logs all data operations".to_owned(),
                version: PluginVersion::new(1, 0, 0),
                author: "minikv".to_owned(),
                homepage: None,
                license: Some("MIT".to_owned()),
                plugin_type: PluginType::Hook,
                required_version: PluginVersion::new(0, 8, 0),
                dependencies: Vec::new(),
            },
        };
        assert(r.info@.dependencies =~= Seq::<(Seq<char>, PluginVersion, bool)>::empty());
        r
    }
}

impl Default for LoggingHookPlugin {
    fn default() -> (r: Self)
        ensures
            logging_hook_info(r.info@),
    {
        Self::new()
    }
}

/// What the registry knows of a registered plugin.
pub struct PluginEntry {
    pub info: PluginInfo,
    pub state: PluginState,
    /// Load time, in nanoseconds since the epoch
    pub loaded_at: i64,
    /// Error message (if in error state)
    pub error: Option<String>,
}

/// The abstract value of a registry entry.
pub struct PluginEntryView {
    pub info: PluginInfoView,
    pub state: PluginState,
    pub loaded_at: i64,
    pub error: Option<Seq<char>>,
}

impl View for PluginEntry {
    type V = PluginEntryView;

    open spec fn view(&self) -> PluginEntryView {
        PluginEntryView {
            info: self.info@,
            state: self.state,
            loaded_at: self.loaded_at,
            error: opt_str(self.error),
        }
    }
}

/// The first required dependency of `deps` (from position `from` on) that is
/// not among `loaded`.
pub open spec fn missing_dependency(
    deps: Seq<(Seq<char>, PluginVersion, bool)>,
    loaded: Set<Seq<char>>,
    from: int,
) -> Option<Seq<char>>
    decreases deps.len() - from,
{
    if from < 0 || from >= deps.len() {
        None
    } else if !deps[from].2 && !loaded.contains(deps[from].0) {
        Some(deps[from].0)
    } else {
        missing_dependency(deps, loaded, from + 1)
    }
}

/// A plugin's dependencies are all met exactly when every required one, at
/// any position of the list, is loaded; when one is not, the dependency named
/// is a required, unloaded one, and every required dependency before it is
/// loaded.
pub proof fn lemma_missing_dependency(
    deps: Seq<(Seq<char>, PluginVersion, bool)>,
    loaded: Set<Seq<char>>,
    from: int,
)
    requires
        0 <= from <= deps.len(),
    ensures
        missing_dependency(deps, loaded, from) is None <==> forall|i: int|
            from <= i < deps.len() ==> #[trigger] deps[i].2 || loaded.contains(deps[i].0),
        missing_dependency(deps, loaded, from) matches Some(d) ==> exists|i: int|
            #![trigger deps[i]]
            from <= i < deps.len() && deps[i].0 == d && !deps[i].2 && !loaded.contains(d) && (
            forall|k: int| from <= k < i ==> #[trigger] deps[k].2 || loaded.contains(deps[k].0)),
    decreases deps.len() - from,
{
    if from < deps.len() {
        lemma_missing_dependency(deps, loaded, from + 1);
        if !deps[from].2 && !loaded.contains(deps[from].0) {
            assert(deps[from].0 == deps[from].0);
        } else {
            if let Some(d) = missing_dependency(deps, loaded, from) {
                let i = choose|i: int|
                    #![trigger deps[i]]
                    from + 1 <= i < deps.len() && deps[i].0 == d && !deps[i].2 && !loaded.contains(
                        d,
                    ) && (forall|k: int|
                        from + 1 <= k < i ==> #[trigger] deps[k].2 || loaded.contains(deps[k].0));
                assert(forall|k: int| from <= k < i ==> #[trigger] deps[k].2 || loaded.contains(deps[k].0));
            }
        }
    }
}

/// The registered plugins: their metadata and lifecycle state, and the
/// order in which they were registered.
pub struct PluginRegistry {
    plugins: StrMap<PluginEntry>,
    load_order: Vec<String>,
}

impl PluginRegistry {
    /// The registered plugins, by ID.
    pub closed spec fn plugins_view(&self) -> Map<Seq<char>, PluginEntryView> {
        Map::new(|k: Seq<char>| self.plugins@.contains_key(k), |k: Seq<char>| self.plugins@[k]@)
    }

    /// The IDs in the order the plugins were registered.
    pub closed spec fn order_view(&self) -> Seq<Seq<char>> {
        self.load_order@.map_values(|s: String| s@)
    }

    /// The IDs in the registry's own order (the order `list_plugins` follows).
    pub closed spec fn id_seq(&self) -> Seq<Seq<char>> {
        self.plugins.key_seq()
    }

    /// No plugin registered.
    pub fn new() -> (r: Self)
        ensures
            r.plugins_view() == Map::<Seq<char>, PluginEntryView>::empty(),
            r.order_view() == Seq::<Seq<char>>::empty(),
            r.id_seq() == Seq::<Seq<char>>::empty(),
    {
        let r = Self { plugins: StrMap::new(), load_order: Vec::new() };
        assert(r.plugins_view() =~= Map::<Seq<char>, PluginEntryView>::empty());
        assert(r.order_view() =~= Seq::<Seq<char>>::empty());
        r
    }

    /// Whether a plugin with `info` may be registered: not if its ID is
    /// taken, nor if a required dependency is not registered (the first such
    /// one is named).
    pub fn check_register(&self, info: &PluginInfo) -> (r: Result<(), Error>)
        ensures
            self.plugins_view().contains_key(info.id@) ==> (r matches Err(Error::Other(m)) && m@
                == "Plugin "@ + info.id@ + " is already registered"@),
            !self.plugins_view().contains_key(info.id@) ==> match missing_dependency(
                info@.dependencies,
                self.plugins_view().dom(),
                0,
            ) {
                Some(d) => r matches Err(Error::Other(m)) && m@ == "Plugin "@ + info.id@
                    + " requires "@ + d + " which is not loaded"@,
                None => r is Ok,
            },
    {
        if self.plugins.contains_key(info.id.as_str()) {
            let mut m = "Plugin ".to_owned();
            m.append(info.id.as_str());
            m.append(" is already registered");
            return Err(Error::Other(m));
        }
        let ghost deps = info@.dependencies;
        let ghost loaded = self.plugins_view().dom();
        let mut i: usize = 0;
        while i < info.dependencies.len()
            invariant
                deps == info@.dependencies,
                loaded == self.plugins_view().dom(),
                !self.plugins_view().contains_key(info.id@),
                i <= deps.len(),
                missing_dependency(deps, loaded, 0) == missing_dependency(deps, loaded, i as int),
            decreases deps.len() - i,
        {
            let dep = &info.dependencies[i];
            if !dep.optional && !self.plugins.contains_key(dep.plugin_id.as_str()) {
                let mut m = "Plugin ".to_owned();
                m.append(info.id.as_str());
                m.append(" requires ");
                m.append(dep.plugin_id.as_str());
                m.append(" which is not loaded");
                return Err(Error::Other(m));
            }
            i = i + 1;
        }
        Ok(())
    }

    /// Adds a plugin whose registration was allowed and whose initialization
    /// succeeded: it is `Initialized`, loaded at `loaded_at`, last in order.
    pub fn add(&mut self, info: PluginInfo, loaded_at: i64)
        requires
            !old(self).plugins_view().contains_key(info.id@),
        ensures
            final(self).plugins_view() == old(self).plugins_view().insert(
                info.id@,
                PluginEntryView {
                    info: info@,
                    state: PluginState::Initialized,
                    loaded_at,
                    error: None,
                },
            ),
            final(self).order_view() == old(self).order_view().push(info.id@),
            final(self).id_seq() == old(self).id_seq().push(info.id@),
    {
        let id = info.id.clone();
        let ghost iv = info@;
        let entry = PluginEntry { info, state: PluginState::Initialized, loaded_at, error: None };
        self.plugins.insert(id.clone(), entry);
        let ghost before = self.load_order@;
        self.load_order.push(id);
        proof {
            assert(self.plugins_view() =~= old(self).plugins_view().insert(
                iv.id,
                PluginEntryView {
                    info: iv,
                    state: PluginState::Initialized,
                    loaded_at,
                    error: None,
                },
            ));
            assert(self.order_view() =~= old(self).order_view().push(iv.id));
        }
    }

    /// Whether enabling `plugin_id` calls into the plugin: an error if it is
    /// not registered, `false` if it is already enabled, else `true` (the
    /// caller then runs the plugin's enable step and marks it `Enabled`).
    pub fn enable_step(&self, plugin_id: &str) -> (r: Result<bool, Error>)
        ensures
            !self.plugins_view().contains_key(plugin_id@) ==> (r matches Err(Error::Other(m)) && m@
                == "Plugin "@ + plugin_id@ + " not found"@),
            self.plugins_view().contains_key(plugin_id@) ==> r == Ok::<bool, Error>(
                self.plugins_view()[plugin_id@].state != PluginState::Enabled,
            ),
    {
        match self.plugins.get(plugin_id) {
            Some(e) => Ok(e.state != PluginState::Enabled),
            None => Err(not_found(plugin_id)),
        }
    }

    /// Whether disabling `plugin_id` calls into the plugin: an error if it is
    /// not registered, `true` only if it is enabled (the caller then runs the
    /// plugin's disable step and marks it `Disabled`).
    pub fn disable_step(&self, plugin_id: &str) -> (r: Result<bool, Error>)
        ensures
            !self.plugins_view().contains_key(plugin_id@) ==> (r matches Err(Error::Other(m)) && m@
                == "Plugin "@ + plugin_id@ + " not found"@),
            self.plugins_view().contains_key(plugin_id@) ==> r == Ok::<bool, Error>(
                self.plugins_view()[plugin_id@].state == PluginState::Enabled,
            ),
    {
        match self.plugins.get(plugin_id) {
            Some(e) => Ok(e.state == PluginState::Enabled),
            None => Err(not_found(plugin_id)),
        }
    }

    /// Puts `plugin_id`, if registered, in `state`.
    pub fn set_state(&mut self, plugin_id: &str, state: PluginState)
        ensures
            old(self).plugins_view().contains_key(plugin_id@) ==> final(self).plugins_view()
                == old(self).plugins_view().insert(
                plugin_id@,
                PluginEntryView { state, ..old(self).plugins_view()[plugin_id@] },
            ),
            !old(self).plugins_view().contains_key(plugin_id@) ==> final(self).plugins_view()
                == old(self).plugins_view(),
            final(self).order_view() == old(self).order_view(),
            final(self).id_seq() == old(self).id_seq(),
    {
        match self.plugins.find(plugin_id) {
            Some(i) => {
                proof {
                    use_type_invariant(&self.plugins);
                    self.plugins.lemma_view();
                }
                let mut e = self.plugins.replace_value_at(i, placeholder_entry());
                e.state = state;
                self.plugins.set_value_at(i, e);
                proof {
                    assert(self.plugins_view() =~= old(self).plugins_view().insert(
                        plugin_id@,
                        PluginEntryView { state, ..old(self).plugins_view()[plugin_id@] },
                    ));
                }
            },
            None => {
                assert(self.plugins_view() =~= old(self).plugins_view());
            },
        }
    }

    /// Removes `plugin_id` and hands back its entry, if it was registered;
    /// it also leaves the registration order.
    pub fn remove(&mut self, plugin_id: &str) -> (r: Option<PluginEntry>)
        ensures
            final(self).plugins_view() == old(self).plugins_view().remove(plugin_id@),
            match r {
                Some(e) => old(self).plugins_view().contains_key(plugin_id@) && e@ == old(
                    self,
                ).plugins_view()[plugin_id@],
                None => !old(self).plugins_view().contains_key(plugin_id@),
            },
            final(self).order_view() == old(self).order_view().filter(
                |id: Seq<char>| id != plugin_id@,
            ),
    {
        let r = self.plugins.remove(plugin_id);
        proof {
            assert(self.plugins_view() =~= old(self).plugins_view().remove(plugin_id@));
        }
        let ghost pred = |id: Seq<char>| id != plugin_id@;
        let ghost old_order = self.order_view();
        let mut kept: Vec<String> = Vec::new();
        let mut i: usize = 0;
        while i < self.load_order.len()
            invariant
                pred == (|id: Seq<char>| id != plugin_id@),
                old_order == self.load_order@.map_values(|s: String| s@),
                i <= self.load_order@.len(),
                kept@.map_values(|s: String| s@) == old_order.take(i as int).filter(pred),
            decreases self.load_order@.len() - i,
        {
            let id = &self.load_order[i];
            proof {
                assert(old_order.take(i as int + 1) =~= old_order.take(i as int).push(id@));
                old_order.take(i as int).lemma_filter_push(id@, pred);
            }
            if !id_equals(id.as_str(), plugin_id) {
                let ghost before = kept@;
                kept.push(id.clone());
                assert(kept@.map_values(|s: String| s@) =~= before.map_values(|s: String| s@).push(id@));
            }
            i = i + 1;
        }
        proof {
            assert(old_order.take(i as int) =~= old_order);
        }
        self.load_order = kept;
        r
    }

    /// The metadata of `plugin_id`, if registered.
    pub fn get_info(&self, plugin_id: &str) -> (r: Option<PluginInfo>)
        ensures
            match r {
                Some(i) => self.plugins_view().contains_key(plugin_id@) && i@
                    == self.plugins_view()[plugin_id@].info,
                None => !self.plugins_view().contains_key(plugin_id@),
            },
    {
        match self.plugins.get(plugin_id) {
            Some(e) => Some(e.info.clone()),
            None => None,
        }
    }

    /// The state of `plugin_id`, if registered.
    pub fn get_state(&self, plugin_id: &str) -> (r: Option<PluginState>)
        ensures
            match r {
                Some(s) => self.plugins_view().contains_key(plugin_id@) && s
                    == self.plugins_view()[plugin_id@].state,
                None => !self.plugins_view().contains_key(plugin_id@),
            },
    {
        match self.plugins.get(plugin_id) {
            Some(e) => Some(e.state),
            None => None,
        }
    }

    /// The metadata and state of every registered plugin, in the registry's order.
    pub fn list_plugins(&self) -> (r: Vec<(PluginInfo, PluginState)>)
        ensures
            r@.len() == self.id_seq().len(),
            forall|j: int|
                0 <= j < r@.len() ==> (#[trigger] r@[j]).0@ == self.plugins_view()[self.id_seq()[j]].info
                    && r@[j].1 == self.plugins_view()[self.id_seq()[j]].state,
    {
        proof {
            use_type_invariant(&self.plugins);
            self.plugins.lemma_view();
        }
        let n = self.plugins.len();
        let mut out: Vec<(PluginInfo, PluginState)> = Vec::new();
        let mut i: usize = 0;
        while i < n
            invariant
                n == self.id_seq().len(),
                n == self.plugins.key_seq().len(),
                forall|j: int|
                    0 <= j < n ==> #[trigger] self.plugins@[self.plugins.key_seq()[j]]
                        == self.plugins.value_seq()[j],
                self.plugins@.dom() == self.plugins.key_seq().to_set(),
                i <= n,
                out@.len() == i,
                forall|j: int|
                    0 <= j < i ==> (#[trigger] out@[j]).0@ == self.plugins_view()[self.id_seq()[j]].info
                        && out@[j].1 == self.plugins_view()[self.id_seq()[j]].state,
            decreases n - i,
        {
            let e = self.plugins.value_at(i);
            proof {
                let k = self.plugins.key_seq()[i as int];
                assert(self.plugins.key_seq().contains(k));
                assert(self.plugins_view()[k] == self.plugins@[k]@);
            }
            out.push((e.info.clone(), e.state));
            i = i + 1;
        }
        out
    }

    /// The IDs in registration order.
    pub fn load_order(&self) -> (r: Vec<String>)
        ensures
            r@.map_values(|s: String| s@) == self.order_view(),
    {
        let mut out: Vec<String> = Vec::new();
        let mut i: usize = 0;
        while i < self.load_order.len()
            invariant
                i <= self.load_order@.len(),
                out@.len() == i,
                forall|j: int| 0 <= j < i ==> (#[trigger] out@[j])@ == self.load_order@[j]@,
            decreases self.load_order@.len() - i,
        {
            out.push(self.load_order[i].clone());
            i = i + 1;
        }
        assert(out@.map_values(|s: String| s@) =~= self.load_order@.map_values(|s: String| s@));
        out
    }
}

fn not_found(plugin_id: &str) -> (r: Error)
    ensures
        r matches Error::Other(m) && m@ == "Plugin "@ + plugin_id@ + " not found"@,
{
    let mut m = "Plugin ".to_owned();
    m.append(plugin_id);
    m.append(" not found");
    Error::Other(m)
}

fn id_equals(a: &str, b: &str) -> (r: bool)
    ensures
        r == (a@ == b@),
{
    let x = a.to_owned();
    let y = b.to_owned();
    x == y
}

/// An entry that stands in while the real one is being updated: an empty,
/// loaded plugin of version 0.0.0 with no dependency, loaded at time zero.
fn placeholder_entry() -> (r: PluginEntry)
    ensures
        r.info.id@ == Seq::<char>::empty(),
        r.info.name@ == Seq::<char>::empty(),
        r.info.version == (PluginVersion { major: 0, minor: 0, patch: 0 }),
        r.info.plugin_type == PluginType::General,
        r.info.dependencies@.len() == 0,
        r.state == PluginState::Loaded,
        r.loaded_at == 0,
        r.error.is_none(),
{
    PluginEntry {
        info: PluginInfo {
            id: String::new(),
            name: String::new(),
            description: String::new(),
            version: PluginVersion::new(0, 0, 0),
            author: String::new(),
            homepage: None,
            license: None,
            plugin_type: PluginType::General,
            required_version: PluginVersion::new(0, 0, 0),
            dependencies: Vec::new(),
        },
        state: PluginState::Loaded,
        loaded_at: 0,
        error: None,
    }
}

} // verus!
