//! Deployment descriptions and feature flags of migrated applications.
use crate::migrate::site_model::escaped;
use crate::migrate::transpile::rust_escape;
use crate::strings::chars_of;
use vstd::prelude::*;
use vstd::string::*;

verus! {

/// A platform that a migrated application ships to.
#[derive(Debug, Clone, Copy, PartialEq, Eq)]
pub enum TargetPlatform {
    LinuxX86_64,
    Wasm32,
}

/// The name of a platform.
pub open spec fn target_name(t: TargetPlatform) -> Seq<char> {
    match t {
        TargetPlatform::LinuxX86_64 => "linux-x86_64"@,
        TargetPlatform::Wasm32 => "wasm32"@,
    }
}

/// The cargo triple of a platform.
pub open spec fn target_triple(t: TargetPlatform) -> Seq<char> {
    match t {
        TargetPlatform::LinuxX86_64 => "x86_64-unknown-linux-gnu"@,
        TargetPlatform::Wasm32 => "wasm32-wasip2"@,
    }
}

impl TargetPlatform {
    /// The name of the platform.
    pub fn name(self) -> (s: &'static str)
        ensures
            s@ == target_name(self),
    {
        match self {
            TargetPlatform::LinuxX86_64 => "linux-x86_64",
            TargetPlatform::Wasm32 => "wasm32",
        }
    }

    /// The cargo triple of the platform.
    pub fn triple(self) -> (s: &'static str)
        ensures
            s@ == target_triple(self),
    {
        match self {
            TargetPlatform::LinuxX86_64 => "x86_64-unknown-linux-gnu",
            TargetPlatform::Wasm32 => "wasm32-wasip2",
        }
    }
}

/// What to deploy, and where.
#[derive(Debug, Clone, PartialEq, Eq)]
pub struct DeployConfig {
    pub app_name: String,
    pub version: String,
    pub targets: Vec<TargetPlatform>,
}

/// A switch that generated code can ask for.
#[derive(Debug, Clone, PartialEq, Eq)]
pub struct FeatureFlag {
    pub name: String,
    pub enabled: bool,
    pub description: String,
}

/// The mathematical form of a feature flag.
pub struct FlagView {
    pub name: Seq<char>,
    pub enabled: bool,
    pub description: Seq<char>,
}

impl DeepView for FeatureFlag {
    type V = FlagView;

    open spec fn deep_view(&self) -> FlagView {
        FlagView {
            name: self.name@,
            enabled: self.enabled,
            description: self.description@,
        }
    }
}

/// The tables of the targets.
pub open spec fn target_tables(ts: Seq<TargetPlatform>) -> Seq<char>
    decreases ts.len(),
{
    if ts.len() == 0 {
        Seq::empty()
    } else {
        target_tables(ts.drop_last()) + ("\n[[target]]\nname = \""@ + target_name(ts.last())
            + "\"\ntriple = \""@ + target_triple(ts.last()) + "\"\n"@)
    }
}

/// A deployment document: nothing without targets, else a package table and a table per target.
pub open spec fn deploy_document(
    name: Seq<char>,
    version: Seq<char>,
    ts: Seq<TargetPlatform>,
) -> Seq<char> {
    if ts.len() == 0 {
        Seq::empty()
    } else {
        "[package]\nname = \""@ + escaped(name) + "\"\nversion = \""@ + escaped(version) + "\"\n"@
            + target_tables(ts)
    }
}

/// Generate the deployment document of an application; it is empty when no targets are selected.
pub fn generate_deploy_config(config: &DeployConfig) -> (s: String)
    ensures
        s@ == deploy_document(config.app_name@, config.version@, config.targets@),
{
    if config.targets.len() == 0 {
        return String::new();
    }
    let mut s = String::from_str("[package]\nname = \"");
    s.append(&rust_escape(&config.app_name));
    s.append("\"\nversion = \"");
    s.append(&rust_escape(&config.version));
    s.append("\"\n");
    let ghost head = s@;
    let mut i: usize = 0;
    assert(config.targets@.take(0) =~= Seq::<TargetPlatform>::empty());
    assert(s@ =~= head + target_tables(config.targets@.take(0)));
    while i < config.targets.len()
        invariant
            0 <= i <= config.targets@.len(),
            s@ == head + target_tables(config.targets@.take(i as int)),
        decreases config.targets@.len() - i,
    {
        assert(config.targets@.take(i + 1).drop_last() =~= config.targets@.take(i as int));
        s.append("\n[[target]]\nname = \"");
        s.append(config.targets[i].name());
        s.append("\"\ntriple = \"");
        s.append(config.targets[i].triple());
        s.append("\"\n");
        assert(s@ =~= head + target_tables(config.targets@.take(i + 1)));
        i = i + 1;
    }
    assert(config.targets@.take(config.targets@.len() as int) =~= config.targets@);
    s
}

/// The character of a constant's name that stands for one of a flag's name.
pub open spec fn const_char(c: char) -> char {
    if 'a' <= c <= 'z' {
        (c as u8 - 32) as char
    } else if 'A' <= c <= 'Z' || '0' <= c <= '9' {
        c
    } else {
        '_'
    }
}

/// The name of the constant of a flag.
pub open spec fn const_name(name: Seq<char>) -> Seq<char> {
    name.map_values(|c: char| const_char(c)) + "_ENABLED"@
}

fn to_const_name(name: &str) -> (s: String)
    ensures
        s@ == const_name(name@),
{
    let v = chars_of(name);
    let mut s = String::new();
    let mut i: usize = 0;
    let ghost f = |c: char| const_char(c);
    assert(v@.take(0).map_values(f) =~= Seq::<char>::empty());
    while i < v.len()
        invariant
            0 <= i <= v@.len(),
            f == (|c: char| const_char(c)),
            s@ == v@.take(i as int).map_values(f),
        decreases v@.len() - i,
    {
        let c: char = v[i];
        let d: char = if 'a' <= c && c <= 'z' {
            ((c as u8) - 32) as char
        } else if ('A' <= c && c <= 'Z') || ('0' <= c && c <= '9') {
            c
        } else {
            '_'
        };
        s.push(d);
        assert(v@.take(i + 1).map_values(f) =~= v@.take(i as int).map_values(f).push(d));
        i = i + 1;
    }
    assert(v@.take(v@.len() as int) =~= v@);
    s.append("_ENABLED");
    s
}

/// How a switch is written.
pub open spec fn bool_text(b: bool) -> Seq<char> {
    if b {
        "true"@
    } else {
        "false"@
    }
}

/// The constants of the flags.
pub open spec fn flag_constants(fs: Seq<FlagView>) -> Seq<char>
    decreases fs.len(),
{
    if fs.len() == 0 {
        Seq::empty()
    } else {
        let f = fs.last();
        flag_constants(fs.drop_last()) + ("    /// "@ + f.description + "\n    pub const "@
            + const_name(f.name) + ": bool = "@ + bool_text(f.enabled) + ";\n"@)
    }
}

/// The arms that look a flag up by name.
pub open spec fn flag_arms(fs: Seq<FlagView>) -> Seq<char>
    decreases fs.len(),
{
    if fs.len() == 0 {
        Seq::empty()
    } else {
        let f = fs.last();
        flag_arms(fs.drop_last()) + ("            \""@ + escaped(f.name) + "\" => "@ + const_name(
            f.name,
        ) + ",\n"@)
    }
}

/// A module with a constant per flag and a function that looks a flag up by name.
pub open spec fn flags_module(fs: Seq<FlagView>) -> Seq<char> {
    "pub mod features {\n"@ + flag_constants(fs)
        + "\n    pub fn is_enabled(name: &str) -> bool {\n        match name {\n"@ + flag_arms(fs)
        + "            _ => false,\n        }\n    }\n}\n"@
}

/// Generate the feature-flag module of an application.
pub fn generate_feature_flags(flags: &Vec<FeatureFlag>) -> (s: String)
    ensures
        s@ == flags_module(flags.deep_view()),
{
    let ghost all = flags.deep_view();
    let mut s = String::from_str("pub mod features {\n");
    let ghost head = s@;
    let mut i: usize = 0;
    assert(all.take(0) =~= Seq::<FlagView>::empty());
    assert(s@ =~= head + flag_constants(all.take(0)));
    while i < flags.len()
        invariant
            0 <= i <= flags@.len(),
            all == flags.deep_view(),
            s@ == head + flag_constants(all.take(i as int)),
        decreases flags@.len() - i,
    {
        assert(all.take(i + 1).drop_last() =~= all.take(i as int));
        assert(all.take(i + 1).last() == flags@[i as int].deep_view());
        s.append("    /// ");
        s.append(&flags[i].description);
        s.append("\n    pub const ");
        s.append(&to_const_name(&flags[i].name));
        s.append(": bool = ");
        s.append(
            if flags[i].enabled {
                "true"
            } else {
                "false"
            },
        );
        s.append(";\n");
        assert(s@ =~= head + flag_constants(all.take(i + 1)));
        i = i + 1;
    }
    assert(all.take(all.len() as int) =~= all);
    s.append("\n    pub fn is_enabled(name: &str) -> bool {\n        match name {\n");
    let ghost mid = s@;
    let mut j: usize = 0;
    assert(s@ =~= mid + flag_arms(all.take(0)));
    while j < flags.len()
        invariant
            0 <= j <= flags@.len(),
            all == flags.deep_view(),
            s@ == mid + flag_arms(all.take(j as int)),
        decreases flags@.len() - j,
    {
        assert(all.take(j + 1).drop_last() =~= all.take(j as int));
        assert(all.take(j + 1).last() == flags@[j as int].deep_view());
        s.append("            \"");
        s.append(&rust_escape(&flags[j].name));
        s.append("\" => ");
        s.append(&to_const_name(&flags[j].name));
        s.append(",\n");
        assert(s@ =~= mid + flag_arms(all.take(j + 1)));
        j = j + 1;
    }
    s.append("            _ => false,\n        }\n    }\n}\n");
    assert(s@ =~= flags_module(all));
    s
}

} // verus!
