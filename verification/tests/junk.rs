use kosu::junk::{
    any_with_extension, dir_size, disk_usage, marker_probe, match_junk, FileStat, JunkPattern,
    JunkStep, MarkerProbe, StatEntry,
};
use kosu::patterns::patterns;

fn verdict(all: &[JunkPattern], name: &str, holds: &[&str]) -> Option<&'static str> {
    let mut answered = None;
    loop {
        match match_junk(all, name.as_bytes(), answered) {
            JunkStep::Junk(ecosystem) => return Some(ecosystem),
            JunkStep::NotJunk => return None,
            JunkStep::Ask(index, marker) => answered = Some((index, holds.contains(&marker))),
        }
    }
}

#[test]
fn plain_names_are_junk_at_once() {
    let all = patterns();
    assert_eq!(verdict(&all, "node_modules", &[]), Some("Node"));
    assert_eq!(verdict(&all, "__pycache__", &[]), Some("Python"));
    assert_eq!(verdict(&all, ".turbo", &[]), Some("Turborepo"));
    assert_eq!(verdict(&all, "DiagnosticReports", &[]), Some("macOS (diagnostics)"));
    assert_eq!(verdict(&all, "src", &[]), None);
    assert_eq!(verdict(&all, "Node_Modules", &[]), None);
    assert_eq!(verdict(&all, "", &[]), None);
}

#[test]
fn ambiguous_names_need_their_marker() {
    let all = patterns();
    for name in ["target", "build", "vendor", "bin", "obj", "deps", "Code", "go"] {
        assert_eq!(verdict(&all, name, &[]), None, "{}", name);
    }
    assert!(verdict(&all, "target", &["Cargo.toml"]).is_some());
    assert!(verdict(&all, "target", &["pom.xml"]).is_some());
    assert_ne!(
        verdict(&all, "target", &["Cargo.toml"]),
        verdict(&all, "target", &["pom.xml"])
    );
    assert!(verdict(&all, "vendor", &["composer.json"]).is_some());
    assert!(verdict(&all, "bin", &["*.csproj"]).is_some());
    assert!(verdict(&all, "venv", &["pyvenv.cfg"]).is_some());
    assert!(verdict(&all, "Pods", &["Podfile"]).is_some());
}

#[test]
fn the_first_pattern_that_applies_decides() {
    let all = patterns();
    let both = verdict(&all, "target", &["Cargo.toml", "pom.xml", "build.sbt"]);
    let mut first = None;
    for p in all.iter() {
        if p.dir_name == "target" && first.is_none() {
            first = Some(p.ecosystem);
        }
    }
    assert_eq!(both, first);
}

#[test]
fn there_are_ninety_nine_patterns() {
    let all = patterns();
    assert_eq!(all.len(), 99);
    assert_eq!(all[0].dir_name, "node_modules");
    assert_eq!(all[0].ecosystem, "Node");
    assert!(all[0].marker.is_none());
    assert_eq!(all[98].dir_name, "DiagnosticReports");
}

#[test]
fn markers_are_probed_by_path_or_extension() {
    match marker_probe(b"/p", "Cargo.toml") {
        MarkerProbe::Path(path) => assert_eq!(path, b"/p/Cargo.toml".to_vec()),
        MarkerProbe::Extension(_) => panic!("not an extension"),
    }
    match marker_probe(b"/p", "*.csproj") {
        MarkerProbe::Extension(ext) => assert_eq!(ext, b"csproj".to_vec()),
        MarkerProbe::Path(_) => panic!("not a path"),
    }
}

#[test]
fn extensions_of_listed_names() {
    let names = vec![b"a.txt".to_vec(), b".csproj".to_vec(), b"App.csproj".to_vec()];
    assert!(any_with_extension(&names, b"csproj"));
    assert!(any_with_extension(&names, b"txt"));
    assert!(!any_with_extension(&names, b"fsproj"));
    assert!(!any_with_extension(&names[1..2], b"csproj"));
}

fn stat(is_file: bool, is_dir: bool, blocks: Option<u64>, len: u64) -> Option<FileStat> {
    Some(FileStat { is_file, is_dir, blocks, len })
}

#[test]
fn disk_usage_counts_blocks() {
    // A sparse file: long, but hardly on disk.
    assert_eq!(disk_usage(&stat(true, false, Some(8), 1 << 40).unwrap()), 4096);
    assert_eq!(disk_usage(&stat(true, false, None, 123).unwrap()), 123);
}

#[test]
fn a_directory_tree_is_sized_dir_by_dir() {
    let mut walk = dir_size(b"/r");
    assert_eq!(walk.total(), 0);
    let first = walk.next_dir().unwrap();
    assert_eq!(first, b"/r".to_vec());
    walk.dir_size_inner(
        &first,
        &[
            StatEntry { name: b"f".to_vec(), stat: stat(true, false, Some(2), 9) },
            StatEntry { name: b"d".to_vec(), stat: stat(false, true, Some(2), 9) },
            StatEntry { name: b"l".to_vec(), stat: stat(false, false, Some(2), 9) },
            StatEntry { name: b"gone".to_vec(), stat: None },
            StatEntry { name: b"e".to_vec(), stat: stat(false, true, Some(2), 9) },
        ],
    );
    assert_eq!(walk.total(), 1024);
    let next = walk.next_dir().unwrap();
    assert_eq!(next, b"/r/e".to_vec());
    walk.dir_size_inner(
        &next,
        &[StatEntry { name: b"g".to_vec(), stat: stat(true, false, Some(1), 1) }],
    );
    assert_eq!(walk.next_dir().unwrap(), b"/r/d".to_vec());
    assert!(walk.next_dir().is_none());
    assert_eq!(walk.total(), 1536);
}

#[test]
fn the_order_of_patterns_does_not_matter() {
    let all = patterns();
    let mut reversed = patterns();
    reversed.reverse();
    for p in all.iter() {
        let held: Vec<&str> = p.marker.into_iter().collect();
        assert!(verdict(&all, p.dir_name, &held).is_some());
        assert_eq!(
            verdict(&all, p.dir_name, &held).is_some(),
            verdict(&reversed, p.dir_name, &held).is_some()
        );
        assert_eq!(
            verdict(&all, p.dir_name, &[]).is_some(),
            verdict(&reversed, p.dir_name, &[]).is_some()
        );
    }
}
