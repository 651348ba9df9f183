use vaporz::config::{get_targets, Config};
use vaporz::models::TargetInfo;
use vaporz::scanner::{scan_walk, ScanDecision, Scanner, WalkEntry};

fn entry(depth: usize, name: &str, is_dir: bool) -> WalkEntry {
    WalkEntry { depth, name: name.to_string(), is_dir, is_symlink: false }
}

fn names(v: &[&str]) -> Vec<String> {
    v.iter().map(|s| s.to_string()).collect()
}

/// Scans a walk held in memory; returns the names reported.
fn run(targets: Vec<TargetInfo>, walk: Vec<(WalkEntry, Vec<String>)>) -> Vec<String> {
    let (entries, listings): (Vec<WalkEntry>, Vec<Vec<String>>) = walk.into_iter().unzip();
    let flags = scan_walk(targets, &entries, &listings);
    assert_eq!(flags.len(), entries.len());
    entries
        .iter()
        .zip(flags)
        .filter(|(_, reported)| *reported)
        .map(|(e, _)| e.name.clone())
        .collect()
}

#[test]
fn rust_project_target_is_reported_once() {
    let walk = vec![
        (entry(0, "ws", true), names(&["proj"])),
        (entry(1, "proj", true), names(&["Cargo.toml", "target"])),
        (entry(2, "Cargo.toml", false), vec![]),
        (entry(2, "target", true), vec![]),
    ];
    assert_eq!(run(get_targets(), walk), vec!["target".to_string()]);
}

#[test]
fn no_marker_means_no_entries() {
    let walk = vec![
        (entry(0, "ws", true), names(&["proj"])),
        (entry(1, "proj", true), names(&["pkg.json", "node_modules"])),
        (entry(2, "pkg.json", false), vec![]),
        (entry(2, "node_modules", true), names(&[])),
    ];
    assert!(run(get_targets(), walk).is_empty());
}

#[test]
fn artifact_contents_are_not_scanned() {
    let walk = vec![
        (entry(0, "proj", true), names(&["package.json", "node_modules"])),
        (entry(1, "package.json", false), vec![]),
        (entry(1, "node_modules", true), names(&["dep"])),
        (entry(2, "dep", true), names(&["package.json", "node_modules"])),
        (entry(3, "node_modules", true), vec![]),
        (entry(1, "src", true), names(&["dist"])),
        (entry(2, "dist", true), vec![]),
    ];
    assert_eq!(
        run(get_targets(), walk),
        vec!["node_modules".to_string(), "dist".to_string()]
    );
}

#[test]
fn nested_root_is_not_retested() {
    let targets = get_targets();
    let mut scanner = Scanner::new(targets);
    let root = entry(1, "app", true);
    assert!(scanner.tests_markers(&root));
    assert_eq!(scanner.visit(&root, &names(&["Cargo.toml"])), ScanDecision::Continue);
    assert_eq!(scanner.project, Some((1, 0)));
    let inner = entry(2, "web", true);
    assert!(!scanner.tests_markers(&inner));
    assert_eq!(scanner.visit(&inner, &names(&["package.json"])), ScanDecision::Continue);
    assert_eq!(scanner.project, Some((1, 0)));
    // node_modules is not a Rust artifact
    assert_eq!(scanner.visit(&entry(3, "node_modules", true), &vec![]), ScanDecision::Continue);
    assert_eq!(scanner.visit(&entry(2, "target", true), &vec![]), ScanDecision::Emit);
    // leaving the project: a sibling is tested again
    let sibling = entry(1, "site", true);
    assert!(scanner.tests_markers(&sibling));
    assert_eq!(scanner.visit(&sibling, &names(&["package.json"])), ScanDecision::Continue);
    assert_eq!(scanner.project, Some((1, 2)));
}

#[test]
fn hidden_directories_are_skipped() {
    let mut scanner = Scanner::new(get_targets());
    let hidden = entry(1, ".git", true);
    assert!(!scanner.tests_markers(&hidden));
    assert_eq!(scanner.visit(&hidden, &names(&["Cargo.toml"])), ScanDecision::SkipDir);
    assert_eq!(scanner.project, None);
}

#[test]
fn symlinks_and_files_are_passed_over() {
    let mut scanner = Scanner::new(get_targets());
    let link = WalkEntry { depth: 1, name: "link".to_string(), is_dir: true, is_symlink: true };
    assert!(!scanner.tests_markers(&link));
    assert_eq!(scanner.visit(&link, &names(&["Cargo.toml"])), ScanDecision::Continue);
    assert_eq!(scanner.project, None);
    let file = entry(1, "Cargo.toml", false);
    assert_eq!(scanner.visit(&file, &vec![]), ScanDecision::Continue);
    assert_eq!(scanner.project, None);
}

#[test]
fn extension_marker_rules() {
    let targets = get_targets();
    let python = &targets[1];
    assert!(python.is_project_root(&names(&["main.py"])));
    assert!(python.is_project_root(&names(&["a.tar.py"])));
    assert!(!python.is_project_root(&names(&[".py"])));
    assert!(!python.is_project_root(&names(&["main.pyc", "py"])));
    assert!(python.is_project_root(&names(&["requirements.txt"])));
    assert!(!python.is_project_root(&names(&[])));
}

#[test]
fn first_matching_target_wins() {
    let scanner = Scanner::new(get_targets());
    assert_eq!(scanner.find_target(&names(&["package.json", "setup.py"])), Some(1));
    assert_eq!(scanner.find_target(&names(&["package.json"])), Some(2));
    assert_eq!(scanner.find_target(&names(&["README.md"])), None);
}

#[test]
fn builtin_targets() {
    let t = get_targets();
    assert_eq!(t.len(), 3);
    assert_eq!(t[0].name, "Rust");
    assert_eq!(t[0].markers, names(&["Cargo.toml"]));
    assert_eq!(t[0].artifacts, names(&["target"]));
    assert_eq!(t[1].markers, names(&["pyproject.toml", "requirements.txt", "ext:py"]));
    assert_eq!(t[1].artifacts, names(&[".venv", "__pycache__", "dist"]));
    assert_eq!(t[2].name, "Node");
    assert_eq!(t[2].artifacts, names(&["node_modules", "dist"]));
    assert!(t[2].is_artifact(&"dist".to_string()));
    assert!(!t[2].is_artifact(&"target".to_string()));
    let c = Config::builtin();
    assert_eq!(c.targets.len(), 3);
    assert_eq!(c.targets[1].name, "Python");
}

#[test]
fn hidden_and_nested_projects_in_a_walk() {
    let walk = vec![
        (entry(0, "ws", true), names(&[".cache", "a"])),
        (entry(1, ".cache", true), names(&["Cargo.toml", "target"])),
        (entry(2, "target", true), vec![]),
        (entry(1, "a", true), names(&["Cargo.toml", "web", "target"])),
        (entry(2, "web", true), names(&["package.json", "node_modules", "target"])),
        (entry(3, "node_modules", true), vec![]),
        (entry(3, "target", true), vec![]),
        (entry(2, "target", true), names(&["debug"])),
        (entry(3, "debug", true), vec![]),
    ];
    assert_eq!(run(get_targets(), walk), vec!["target".to_string(), "target".to_string()]);
}

#[test]
fn empty_walk_reports_nothing() {
    assert!(scan_walk(get_targets(), &vec![], &vec![]).is_empty());
}
