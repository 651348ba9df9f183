use crate::models::{names_of, TargetInfo};
use vstd::prelude::*;
use vstd::string::*;

verus! {

/// The target rules in force, in priority order.
#[derive(Clone, Debug)]
pub struct Config {
    pub targets: Vec<TargetInfo>,
}

/// One target rule as plain sequences: name, markers, artifact names.
pub open spec fn target_view(t: TargetInfo) -> (Seq<char>, Seq<Seq<char>>, Seq<Seq<char>>) {
    (t.name@, names_of(t.markers@), names_of(t.artifacts@))
}

/// The built-in rules: Rust, Python and Node projects.
pub open spec fn default_targets() -> Seq<(Seq<char>, Seq<Seq<char>>, Seq<Seq<char>>)> {
    seq![
        ("Rust"@, seq!["Cargo.toml"@], seq!["target"@]),
        (
            "Python"@,
            seq!["pyproject.toml"@, "requirements.txt"@, "ext:py"@],
            seq![".venv"@, "__pycache__"@, "dist"@],
        ),
        ("Node"@, seq!["package.json"@], seq!["node_modules"@, "dist"@]),
    ]
}

fn strings1(a: &str) -> (r: Vec<String>)
    ensures
        names_of(r@) == seq![a@],
{
    let r = vec![String::from_str(a)];
    assert(names_of(r@) =~= seq![a@]);
    r
}

fn strings2(a: &str, b: &str) -> (r: Vec<String>)
    ensures
        names_of(r@) == seq![a@, b@],
{
    let r = vec![String::from_str(a), String::from_str(b)];
    assert(names_of(r@) =~= seq![a@, b@]);
    r
}

fn strings3(a: &str, b: &str, c: &str) -> (r: Vec<String>)
    ensures
        names_of(r@) == seq![a@, b@, c@],
{
    let r = vec![String::from_str(a), String::from_str(b), String::from_str(c)];
    assert(names_of(r@) =~= seq![a@, b@, c@]);
    r
}

/// The built-in target rules.
pub fn get_targets() -> (r: Vec<TargetInfo>)
    ensures
        r@.map_values(|t: TargetInfo| target_view(t)) == default_targets(),
{
    let r = vec![
        TargetInfo {
            name: String::from_str("Rust"),
            markers: strings1("Cargo.toml"),
            artifacts: strings1("target"),
        },
        TargetInfo {
            name: String::from_str("Python"),
            markers: strings3("pyproject.toml", "requirements.txt", "ext:py"),
            artifacts: strings3(".venv", "__pycache__", "dist"),
        },
        TargetInfo {
            name: String::from_str("Node"),
            markers: strings1("package.json"),
            artifacts: strings2("node_modules", "dist"),
        },
    ];
    assert(r@.map_values(|t: TargetInfo| target_view(t)) =~= default_targets());
    r
}

impl Config {
    /// The configuration made of the built-in rules.
    pub fn builtin() -> (r: Config)
        ensures
            r.targets@.map_values(|t: TargetInfo| target_view(t)) == default_targets(),
    {
        Config { targets: get_targets() }
    }
}

} // verus!
