use sendme::path::{
    canonicalized_path_to_string, components_of, get_export_path, join_segments, split_name,
    validate_path_component, InvalidPath, PathComponent,
};
use std::path::{Component, Path};

fn std_components(path: &str) -> Vec<PathComponent> {
    Path::new(path)
        .components()
        .map(|c| match c {
            Component::Prefix(_) => PathComponent::Prefix,
            Component::RootDir => PathComponent::RootDir,
            Component::CurDir => PathComponent::CurDir,
            Component::ParentDir => PathComponent::ParentDir,
            Component::Normal(x) => match x.to_str() {
                Some(s) => PathComponent::Normal(s.to_string()),
                None => PathComponent::Undecodable,
            },
        })
        .collect()
}

fn shape(cs: &[PathComponent]) -> Vec<String> {
    cs.iter()
        .map(|c| match c {
            PathComponent::Prefix => "<prefix>".to_string(),
            PathComponent::RootDir => "<root>".to_string(),
            PathComponent::CurDir => "<.>".to_string(),
            PathComponent::ParentDir => "<..>".to_string(),
            PathComponent::Normal(s) => s.clone(),
            PathComponent::Undecodable => "<undecodable>".to_string(),
        })
        .collect()
}

fn components(path: &str) -> Vec<PathComponent> {
    components_of(path)
}

fn name_of(path: &str) -> Result<String, InvalidPath> {
    canonicalized_path_to_string(&components(path), true)
}

#[test]
fn relative_paths_are_accepted() {
    assert_eq!(name_of("a"), Ok("a".to_string()));
    assert_eq!(name_of("a/b"), Ok("a/b".to_string()));
    assert_eq!(name_of("a/b/c.txt"), Ok("a/b/c.txt".to_string()));
}

#[test]
fn unsafe_paths_are_rejected() {
    assert_eq!(name_of("../x"), Err(InvalidPath::Traversal));
    assert_eq!(name_of("a/../b"), Err(InvalidPath::Traversal));
    assert_eq!(name_of("/abs"), Err(InvalidPath::Root));
    assert_eq!(name_of("a\\b"), Err(InvalidPath::Separator));
    assert_eq!(name_of("a/b/../../../etc"), Err(InvalidPath::Traversal));
    assert_eq!(name_of("./a"), Err(InvalidPath::Traversal));
    assert_eq!(name_of("a/./b"), Err(InvalidPath::Traversal));
    assert_eq!(name_of("a/."), Err(InvalidPath::Traversal));
    assert_eq!(name_of("a//b"), Err(InvalidPath::Empty));
    assert_eq!(name_of("//a"), Err(InvalidPath::Root));
}

#[test]
fn absolute_path_is_accepted_when_allowed() {
    let got = canonicalized_path_to_string(&components("/abs/dir"), false);
    assert_eq!(got, Ok("/abs/dir".to_string()));
    let root = canonicalized_path_to_string(&components("/"), false);
    assert_eq!(root, Ok("/".to_string()));
}

#[test]
fn empty_path_is_refused() {
    assert_eq!(canonicalized_path_to_string(&Vec::new(), true), Err(InvalidPath::Empty));
    assert_eq!(canonicalized_path_to_string(&Vec::new(), false), Err(InvalidPath::Empty));
    assert_eq!(name_of(""), Err(InvalidPath::Empty));
}

#[test]
fn first_fault_is_reported() {
    let cs = vec![
        PathComponent::Normal("a".to_string()),
        PathComponent::Undecodable,
        PathComponent::ParentDir,
    ];
    assert_eq!(canonicalized_path_to_string(&cs, true), Err(InvalidPath::Undecodable));
    let cs = vec![PathComponent::Prefix, PathComponent::RootDir];
    assert_eq!(canonicalized_path_to_string(&cs, false), Err(InvalidPath::Prefix));
    let cs = vec![PathComponent::Normal("a".to_string()), PathComponent::RootDir];
    assert_eq!(canonicalized_path_to_string(&cs, false), Err(InvalidPath::Root));
    let cs = vec![PathComponent::Normal(String::new())];
    assert_eq!(canonicalized_path_to_string(&cs, true), Err(InvalidPath::Empty));
    let cs = vec![PathComponent::Normal("a/b".to_string())];
    assert_eq!(canonicalized_path_to_string(&cs, true), Err(InvalidPath::Separator));
}

#[test]
fn component_rules() {
    assert_eq!(validate_path_component("a"), Ok(()));
    assert_eq!(validate_path_component("c.txt"), Ok(()));
    assert_eq!(validate_path_component("..."), Ok(()));
    assert_eq!(validate_path_component(".a"), Ok(()));
    assert_eq!(validate_path_component("caf\u{e9}"), Ok(()));
    assert_eq!(validate_path_component(""), Err(InvalidPath::Empty));
    assert_eq!(validate_path_component("."), Err(InvalidPath::Traversal));
    assert_eq!(validate_path_component(".."), Err(InvalidPath::Traversal));
    assert_eq!(validate_path_component("a/b"), Err(InvalidPath::Separator));
    assert_eq!(validate_path_component("a\\b"), Err(InvalidPath::Separator));
    assert_eq!(validate_path_component("/"), Err(InvalidPath::Separator));
}

#[test]
fn export_path_accepts_safe_names() {
    assert_eq!(get_export_path("/dest", "a"), Ok("/dest/a".to_string()));
    assert_eq!(get_export_path("/dest", "a/b"), Ok("/dest/a/b".to_string()));
    assert_eq!(get_export_path("/dest", "a/b/c.txt"), Ok("/dest/a/b/c.txt".to_string()));
    assert_eq!(get_export_path("/", "a/b"), Ok("/a/b".to_string()));
    assert_eq!(get_export_path("", "a/b"), Ok("a/b".to_string()));
    assert_eq!(get_export_path("dest/", "a"), Ok("dest/a".to_string()));
}

#[test]
fn export_path_rejects_unsafe_names() {
    assert_eq!(get_export_path("/dest", "../x"), Err(InvalidPath::Traversal));
    assert_eq!(get_export_path("/dest", "a/../b"), Err(InvalidPath::Traversal));
    assert_eq!(get_export_path("/dest", "/abs"), Err(InvalidPath::Empty));
    assert_eq!(get_export_path("/dest", "a\\b"), Err(InvalidPath::Separator));
    assert_eq!(get_export_path("/dest", "a/b/../../../etc"), Err(InvalidPath::Traversal));
    assert_eq!(get_export_path("/dest", ""), Err(InvalidPath::Empty));
    assert_eq!(get_export_path("/dest", "a//b"), Err(InvalidPath::Empty));
    assert_eq!(get_export_path("/dest", "a/"), Err(InvalidPath::Empty));
    assert_eq!(get_export_path("/dest", "a/./b"), Err(InvalidPath::Traversal));
}

#[test]
fn export_path_matches_std_push() {
    let mut expected = Path::new("/dest/dir").to_path_buf();
    for part in ["x", "y", "z.bin"] {
        expected.push(part);
    }
    let got = get_export_path("/dest/dir", "x/y/z.bin").unwrap();
    assert_eq!(Path::new(&got), expected.as_path());
}

#[test]
fn split_and_join_are_inverse() {
    let parts = split_name("a/b/c.txt");
    assert_eq!(parts, vec!["a".to_string(), "b".to_string(), "c.txt".to_string()]);
    assert_eq!(join_segments(&parts), "a/b/c.txt");
    assert_eq!(split_name(""), vec![String::new()]);
    assert_eq!(split_name("/"), vec![String::new(), String::new()]);
    assert_eq!(split_name("a//b"), vec!["a".to_string(), String::new(), "b".to_string()]);
    assert_eq!(join_segments(&Vec::new()), "");
    assert_eq!(join_segments(&vec!["x".to_string()]), "x");
}

#[test]
fn distinct_paths_have_distinct_names() {
    let paths = ["d/a", "d/b", "d/a/b", "d/ab", "da/b"];
    for (i, p) in paths.iter().enumerate() {
        for (j, q) in paths.iter().enumerate() {
            if i != j {
                assert_ne!(name_of(p).unwrap(), name_of(q).unwrap());
            }
        }
    }
}

#[test]
fn names_round_trip_below_a_root() {
    let name = name_of("dir/sub/file.txt").unwrap();
    assert_eq!(get_export_path("/out", &name), Ok("/out/dir/sub/file.txt".to_string()));
}

#[test]
fn components_are_read_from_text() {
    assert_eq!(shape(&components_of("a/b/c.txt")), vec!["a", "b", "c.txt"]);
    assert_eq!(shape(&components_of("/abs/dir")), vec!["<root>", "abs", "dir"]);
    assert_eq!(shape(&components_of("/")), vec!["<root>"]);
    assert_eq!(shape(&components_of("")), vec![""]);
    assert_eq!(shape(&components_of("a/")), vec!["a"]);
    assert_eq!(shape(&components_of("a//b")), vec!["a", "", "b"]);
    assert_eq!(shape(&components_of("a/./b")), vec!["a", "<.>", "b"]);
    assert_eq!(shape(&components_of("./a")), vec!["<.>", "a"]);
    assert_eq!(shape(&components_of(".")), vec!["<.>"]);
    assert_eq!(shape(&components_of("..")), vec!["<..>"]);
    assert_eq!(shape(&components_of("../x/..")), vec!["<..>", "x", "<..>"]);
    assert_eq!(shape(&components_of("...")), vec!["..."]);
    assert_eq!(shape(&components_of("a\\b")), vec!["a\\b"]);
    assert_eq!(shape(&components_of("//a")), vec!["<root>", "", "a"]);
}

#[test]
fn tidy_paths_are_read_as_std_reads_them() {
    for path in ["a", "a/b", "a/b/c.txt", "/abs/dir", "/", "../x", "a/../b", "./a", "a/"] {
        assert_eq!(shape(&components_of(path)), shape(&std_components(path)), "{}", path);
    }
}

#[test]
fn a_trailing_separator_is_overlooked() {
    assert_eq!(name_of("dir/file/"), Ok("dir/file".to_string()));
}
