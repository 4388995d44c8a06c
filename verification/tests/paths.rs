use washi::paths::{find_rootmost, has_parent, is_minified_output, PathComponent};

fn rel(parts: &[&str]) -> Vec<PathComponent> {
    parts.iter().map(|p| PathComponent::Normal(p.to_string())).collect()
}

fn abs(parts: &[&str]) -> Vec<PathComponent> {
    let mut v = vec![PathComponent::RootDir];
    v.extend(rel(parts));
    v
}

#[test]
fn rootmost_of_nothing_is_none() {
    assert_eq!(find_rootmost(&vec![]), None);
}

#[test]
fn rootmost_is_the_shared_folder() {
    let files = vec![rel(&["src", "a", "x.wgsl"]), rel(&["src", "b", "y.wgsl"])];
    assert_eq!(find_rootmost(&files), Some(rel(&["src"])));
    let nested = vec![
        rel(&["shaders", "post", "blur.wgsl"]),
        rel(&["shaders", "main.wgsl"]),
        rel(&["shaders", "post", "fx", "glow.wgsl"]),
    ];
    assert_eq!(find_rootmost(&nested), Some(rel(&["shaders"])));
    let same = vec![abs(&["home", "a.wgsl"]), abs(&["home", "b.wgsl"])];
    assert_eq!(find_rootmost(&same), Some(abs(&["home"])));
}

#[test]
fn rootmost_of_unrelated_folders_is_empty() {
    let files = vec![rel(&["shaders", "main.wgsl"]), rel(&["extra", "fx.wgsl"])];
    assert_eq!(find_rootmost(&files), Some(vec![]));
}

#[test]
fn rootmost_of_one_file_is_its_directory() {
    assert_eq!(find_rootmost(&vec![abs(&["home", "a.wgsl"])]), Some(abs(&["home"])));
    // a bare file name has the empty path as parent
    assert_eq!(find_rootmost(&vec![rel(&["a.wgsl"])]), Some(vec![]));
}

#[test]
fn rootmost_skips_paths_without_parent() {
    let files = vec![vec![PathComponent::RootDir], rel(&["x", "y.wgsl"])];
    assert_eq!(find_rootmost(&files), Some(rel(&["x"])));
}

#[test]
fn parents_of_special_components() {
    assert!(has_parent(&rel(&["a"])));
    assert!(has_parent(&vec![PathComponent::CurDir]));
    assert!(has_parent(&vec![PathComponent::ParentDir, PathComponent::ParentDir]));
    assert!(!has_parent(&vec![]));
    assert!(!has_parent(&vec![PathComponent::RootDir]));
    assert!(!has_parent(&vec![PathComponent::Prefix("C:".to_string())]));
    assert_eq!(
        find_rootmost(&vec![vec![PathComponent::CurDir, PathComponent::Normal("a".to_string())]]),
        Some(vec![PathComponent::CurDir])
    );
}


#[test]
fn minified_outputs_are_recognised() {
    assert!(is_minified_output("shaders/blur.min.wgsl"));
    assert!(is_minified_output(".min."));
    assert!(is_minified_output("a.min.b/c.wgsl"));
    assert!(!is_minified_output("shaders/blur.wgsl"));
    assert!(!is_minified_output("shaders/admin.wgsl"));
    assert!(!is_minified_output("x.min"));
    assert!(!is_minified_output(""));
}
