use cargo_add::doc::Value;
use cargo_add::errors::ErrorKind;
use cargo_add::locate::{CargoFile, DirPath, SearchStep, search_step};
use cargo_add::manifest::{Dependency, Manifest};

fn dep(name: &str, version: &str) -> Dependency {
    (String::from(name), Value::Str(String::from(version)))
}

#[test]
fn parse_minimal_package() {
    let m = Manifest::from_str("[package]\nname = \"x\"\n").unwrap();
    assert!(m.data.index_of("package").is_some());
    assert!(m.data.index_of("dependencies").is_none());
}

#[test]
fn add_dep_and_render() {
    let mut m = Manifest::from_str("[package]\nname = \"x\"\n").unwrap();
    let deps = vec![dep("serde", "1.0")];
    m.add_deps("dependencies", &deps).unwrap();
    let text = m.render().unwrap();
    assert_eq!(text, "[package]\nname = \"x\"\n[dependencies]\nserde = \"1.0\"\n");
}

#[test]
fn search_empty_tree_is_structural() {
    // No manifest anywhere from a nested directory up to the root.
    let mut dir = DirPath {
        components: vec![String::from("home"), String::from("user"), String::from("proj")],
    };
    let mut steps = 0;
    loop {
        match search_step(&dir, false) {
            SearchStep::Found => panic!("nothing to find"),
            SearchStep::Ascend(p) => {
                dir = p;
                steps += 1;
            }
            SearchStep::Fail(e) => {
                assert_eq!(e.kind, ErrorKind::NotFound);
                break;
            }
        }
    }
    assert_eq!(steps, 3);
}

#[test]
fn search_finds_nearest_ancestor() {
    // Manifest two levels up: the search ascends twice, then finds it.
    let d0 = DirPath {
        components: vec![String::from("a"), String::from("b"), String::from("c")],
    };
    let d1 = match search_step(&d0, false) {
        SearchStep::Ascend(p) => p,
        _ => panic!("expected ascent"),
    };
    assert_eq!(d1.components, vec![String::from("a"), String::from("b")]);
    let d2 = match search_step(&d1, false) {
        SearchStep::Ascend(p) => p,
        _ => panic!("expected ascent"),
    };
    assert_eq!(d2.components, vec![String::from("a")]);
    assert!(matches!(search_step(&d2, true), SearchStep::Found));
}

#[test]
fn search_finds_at_start() {
    let d = DirPath { components: vec![String::from("proj")] };
    assert!(matches!(search_step(&d, true), SearchStep::Found));
}

#[test]
fn filenames() {
    assert_eq!(CargoFile::Config.filename(), "Cargo.toml");
    assert_eq!(CargoFile::Lock.filename(), "Cargo.lock");
}

#[test]
fn round_trip_preserves_data() {
    let text = "[package]\nname = \"demo\"\nversion = \"0.1.0\"\nauthors = [\"a\", \"b\"]\n[dependencies]\nserde = { version = \"1.0\", features = [\"derive\"] }\ncount = 42\nneg = -7\nflag = true\noff = false\nratio = 1.5\nwhen = 1979-05-27T07:32:00Z\n";
    let m = Manifest::from_str(text).unwrap();
    let out = m.render().unwrap();
    assert_eq!(out, text);
    // A second pass is identical: rendering reached a fixed point.
    let m2 = Manifest::from_str(&out).unwrap();
    assert_eq!(m2.render().unwrap(), out);
}

#[test]
fn render_puts_primary_first() {
    let m = Manifest::from_str("[dependencies]\na = 1\n[package]\nname = \"x\"\n").unwrap();
    let out = m.render().unwrap();
    assert_eq!(out, "[package]\nname = \"x\"\n[dependencies]\na = 1\n");
}

#[test]
fn render_accepts_project_header() {
    let m = Manifest::from_str("[lib]\nname = \"l\"\n[project]\nname = \"x\"\n").unwrap();
    let out = m.render().unwrap();
    assert_eq!(out, "[project]\nname = \"x\"\n[lib]\nname = \"l\"\n");
}

#[test]
fn render_without_primary_is_refused() {
    let m = Manifest::from_str("[dependencies]\na = 1\n").unwrap();
    let e = m.render().unwrap_err();
    assert_eq!(e.kind, ErrorKind::MissingPrimarySection);
}

#[test]
fn render_with_scalar_section_is_refused() {
    let m = Manifest::from_str("top = 1\n[package]\nname = \"x\"\n").unwrap();
    let e = m.render().unwrap_err();
    assert_eq!(e.kind, ErrorKind::TypeConflict);
}

#[test]
fn string_escapes_round_trip() {
    let text = "[package]\ns = \"a\\nb\\\"c\\\\d\\te\\rf\"\n";
    let m = Manifest::from_str(text).unwrap();
    assert_eq!(m.render().unwrap(), text);
}

#[test]
fn integer_extremes_round_trip() {
    let text = "[package]\nhi = 9223372036854775807\nlo = -9223372036854775808\nzero = 0\n";
    let m = Manifest::from_str(text).unwrap();
    assert_eq!(m.render().unwrap(), text);
}

#[test]
fn integer_overflow_is_parse_error() {
    assert!(Manifest::from_str("[package]\nn = 9223372036854775808\n").is_err());
    assert!(Manifest::from_str("[package]\nn = -9223372036854775809\n").is_err());
}

#[test]
fn comments_and_blanks_are_dropped() {
    let text = "# top comment\n\n[package]  # section\n\nname = \"x\"  # value\n\n";
    let m = Manifest::from_str(text).unwrap();
    assert_eq!(m.render().unwrap(), "[package]\nname = \"x\"\n");
}

#[test]
fn arrays_and_inline_tables() {
    let text = "[package]\na = [1, 2, 3]\nb = []\nc = [[1], [2, 3]]\nt = { x = 1, y = \"z\" }\ne = {  }\n";
    let m = Manifest::from_str(text).unwrap();
    assert_eq!(
        m.render().unwrap(),
        "[package]\na = [1, 2, 3]\nb = []\nc = [[1], [2, 3]]\nt = { x = 1, y = \"z\" }\ne = {}\n"
    );
}

#[test]
fn trailing_comma_is_accepted() {
    let m = Manifest::from_str("[package]\na = [1, 2,]\n").unwrap();
    assert_eq!(m.render().unwrap(), "[package]\na = [1, 2]\n");
}

#[test]
fn parse_errors() {
    assert!(Manifest::from_str("[").is_err());
    assert!(Manifest::from_str("[]\n").is_err());
    assert!(Manifest::from_str("a = \n").is_err());
    assert!(Manifest::from_str("a\n").is_err());
    assert!(Manifest::from_str("a = \"unterminated\n").is_err());
    assert!(Manifest::from_str("a = \"bad\\qescape\"\n").is_err());
    assert!(Manifest::from_str("a = [1, \n").is_err());
    assert!(Manifest::from_str("a = nonsense\n").is_err());
    assert!(Manifest::from_str("a = 1 b = 2\n").is_err());
}

#[test]
fn duplicate_keys_are_parse_errors() {
    assert!(Manifest::from_str("a = 1\na = 2\n").is_err());
    assert!(Manifest::from_str("[package]\na = 1\na = 2\n").is_err());
    assert!(Manifest::from_str("[package]\n[package]\n").is_err());
    assert!(Manifest::from_str("t = { x = 1, x = 2 }\n").is_err());
}

#[test]
fn add_deps_is_idempotent() {
    let mut once = Manifest::from_str("[package]\nname = \"x\"\n").unwrap();
    let mut twice = Manifest::from_str("[package]\nname = \"x\"\n").unwrap();
    let d = vec![dep("serde", "1.0")];
    let dd = vec![dep("serde", "1.0"), dep("serde", "1.0")];
    once.add_deps("dependencies", &d).unwrap();
    twice.add_deps("dependencies", &dd).unwrap();
    assert_eq!(once.render().unwrap(), twice.render().unwrap());
    // A second identical call changes nothing either.
    twice.add_deps("dependencies", &d).unwrap();
    assert_eq!(once.render().unwrap(), twice.render().unwrap());
}

#[test]
fn add_deps_overwrites_same_name() {
    let mut m = Manifest::from_str("[package]\nname = \"x\"\n").unwrap();
    m.add_deps("dependencies", &vec![dep("serde", "1.0")]).unwrap();
    m.add_deps("dependencies", &vec![dep("serde", "2.0")]).unwrap();
    assert_eq!(
        m.render().unwrap(),
        "[package]\nname = \"x\"\n[dependencies]\nserde = \"2.0\"\n"
    );
}

#[test]
fn add_deps_accumulates() {
    let mut m = Manifest::from_str("[package]\nname = \"x\"\n").unwrap();
    m.add_deps("dependencies", &vec![dep("a", "1"), dep("b", "2")]).unwrap();
    m.add_deps("dev-dependencies", &vec![dep("c", "3")]).unwrap();
    assert_eq!(
        m.render().unwrap(),
        "[package]\nname = \"x\"\n[dependencies]\na = \"1\"\nb = \"2\"\n[dev-dependencies]\nc = \"3\"\n"
    );
}

#[test]
fn insert_into_conflicting_table_fails() {
    let mut m = Manifest::from_str("deps = 1\n[package]\nname = \"x\"\n").unwrap();
    let d = dep("serde", "1.0");
    let e = m.insert_into_table("deps", &d).unwrap_err();
    assert_eq!(e.kind, ErrorKind::TypeConflict);
}

#[test]
fn add_deps_fails_fast_and_keeps_prior_state() {
    let mut m = Manifest::from_str("deps = 1\n[package]\nname = \"x\"\n").unwrap();
    let list = vec![dep("a", "1"), dep("b", "2"), dep("c", "3")];
    let e = m.add_deps("deps", &list).unwrap_err();
    assert_eq!(e.kind, ErrorKind::TypeConflict);
    // The conflicting value refused the very first insertion, so the model
    // still holds the scalar and both original entries, untouched.
    assert_eq!(m.data.entries.len(), 2);
    assert!(matches!(m.data.entries[0].1, Value::Int(1)));
}

#[test]
fn error_description_is_stable() {
    let e = cargo_add::errors::ManifestError::new(ErrorKind::NotFound);
    assert_eq!(
        e.description(),
        "Your Cargo.toml is either missing or incorrectly structured."
    );
}

#[test]
fn deep_clone_equals_original() {
    let m = Manifest::from_str("[package]\na = [1, \"s\", { x = true }]\n").unwrap();
    let copy = cargo_add::manifest::Manifest { data: m.data.deep_clone() };
    assert_eq!(m.render().unwrap(), copy.render().unwrap());
}
