use ze_engine::filesystem::path::{ParseError, Path};
use ze_engine::filesystem::{first_dispatch, matching_mount_point, next_dispatch, Dispatch, Error, IterDirFlagBits};

#[test]
fn parse() {
    let path = Path::parse("//assets/textures/texture.png?mip=0").unwrap();
    assert!(path.mount_point().is_none());
    assert_eq!(path.path(), "assets/textures/texture.png");
    assert_eq!(path.query().unwrap(), "mip=0");

    let path = Path::parse("/mntpnt/assets/textures/texture.png").unwrap();
    assert_eq!(path.mount_point(), Some("mntpnt".to_string()));
    assert_eq!(path.path(), "assets/textures/texture.png");
    assert!(path.query().is_none());

    assert_eq!(
        Path::parse("mntpnt/assets/textures/texture.png"),
        Err(ParseError::InvalidMountPoint)
    );

    assert_eq!(Path::parse("/mntpnt"), Err(ParseError::InvalidMountPoint));
}

#[test]
fn from_mount_point_and_path() {
    let path = Path::from_mount_point_and_path("mnt", "assets/textures/texture.png");
    assert_eq!(path.mount_point(), Some("mnt".to_string()));
    assert_eq!(path.path(), "assets/textures/texture.png");
}

#[test]
fn path_push() {
    let mut path = Path::from_mount_point_and_path("mnt", "assets/textures?mip=0");
    path.push("texture.png");

    assert_eq!(path.mount_point(), Some("mnt".to_string()));
    assert_eq!(path.path(), "assets/textures/texture.png");
    assert_eq!(path.query().unwrap(), "mip=0");
}

#[test]
fn join_leaves_the_path_unchanged() {
    let path = Path::from_mount_point_and_path("mnt", "assets");
    let joined = path.join("texture.png");
    assert_eq!(path.path(), "assets");
    assert_eq!(joined.path(), "assets/texture.png");
    assert_eq!(joined.mount_point(), Some("mnt".to_string()));
}

#[test]
fn set_path_keeps_the_mount_point() {
    let mut path = Path::from_mount_point_and_path("mnt", "assets/a.png");
    path.set_path("shaders/b.hlsl");
    assert_eq!(path.mount_point(), Some("mnt".to_string()));
    assert_eq!(path.path(), "shaders/b.hlsl");
    assert_eq!(path.as_str(), "/mnt/shaders/b.hlsl");
}

#[test]
fn path_segments_split_on_separators() {
    let path = Path::parse("/mnt/assets/textures/texture.png").unwrap();
    assert_eq!(
        path.path_segments(),
        vec!["assets".to_string(), "textures".to_string(), "texture.png".to_string()]
    );
}

#[test]
fn as_str_gives_back_the_parsed_text() {
    let path = Path::parse("/mnt/a/b?x=1").unwrap();
    assert_eq!(path.as_str(), "/mnt/a/b?x=1");
    assert_eq!(path.query().unwrap(), "x=1");
}

#[test]
fn the_first_mount_point_of_the_alias_serves_the_path() {
    let aliases = vec!["assets".to_string(), "shaders".to_string(), "assets".to_string()];
    let path = Path::parse("/assets/a.png").unwrap();
    assert_eq!(matching_mount_point(&aliases, &path), Some(0));
    let path = Path::parse("/shaders/b.hlsl").unwrap();
    assert_eq!(matching_mount_point(&aliases, &path), Some(1));
    let path = Path::parse("/cache/c").unwrap();
    assert_eq!(matching_mount_point(&aliases, &path), None);
    let path = Path::parse("//a.png").unwrap();
    assert_eq!(matching_mount_point(&aliases, &path), None);
    assert_eq!(IterDirFlagBits::Recursive.bits(), 1);
}

#[test]
fn inputs_that_cannot_be_parsed_are_told() {
    assert!(Path::parse_would_panic("/m/"));
    assert!(Path::parse_would_panic("/a?b/c"));
    assert!(!Path::parse_would_panic("/m/a"));
    assert!(!Path::parse_would_panic("m"));
    assert!(!Path::parse_would_panic("/m"));
}

#[test]
fn push_after_a_trailing_separator() {
    let mut path = Path::parse("/m/path/to/").unwrap();
    path.push("new_file.txt");
    assert_eq!(path.path(), "path/to/new_file.txt");
}

#[test]
fn join_after_a_trailing_separator() {
    let path = Path::parse("/m/path/to/").unwrap();
    let path = path.join("new_file.txt");
    assert_eq!(path.path(), "path/to/new_file.txt");
}

#[test]
fn set_path_replaces_the_location() {
    let mut path = Path::parse("/m/path/to/file.txt").unwrap();
    path.set_path("path/to/file2.txt");
    assert_eq!(path.path(), "path/to/file2.txt");
}

#[test]
fn trailing_separator_before_a_query() {
    let path = Path::parse("/m/a/?q=1").unwrap();
    assert_eq!(path.mount_point(), Some("m".to_string()));
    assert_eq!(path.path(), "a");
    assert_eq!(path.query(), Some("q=1".to_string()));
    assert_eq!(path.as_str(), "/m/a?q=1");
}

#[test]
fn edits_keep_the_mount_point() {
    let mut path = Path::parse("/mnt/a/b").unwrap();
    path.push("c");
    assert_eq!(path.mount_point(), Some("mnt".to_string()));
    path.set_path("x/y");
    assert_eq!(path.mount_point(), Some("mnt".to_string()));
    let none = Path::parse("//a/b?q").unwrap();
    assert!(none.mount_point().is_none());
    assert!(none.as_str().starts_with("//"));
    assert!(none.join("z").mount_point().is_none());
}

#[test]
fn dispatch_falls_back_while_not_found() {
    assert_eq!(first_dispatch(Some(2), 3), Dispatch::Try(2));
    assert_eq!(first_dispatch(None, 3), Dispatch::Try(0));
    assert_eq!(first_dispatch(None, 0), Dispatch::Fail(Error::NotFound));
    assert_eq!(next_dispatch(true, 2, 3, Error::NotFound), Dispatch::Fail(Error::NotFound));
    assert_eq!(next_dispatch(false, 0, 3, Error::NotFound), Dispatch::Try(1));
    assert_eq!(next_dispatch(false, 1, 3, Error::PermissionDenied), Dispatch::Fail(Error::PermissionDenied));
    assert_eq!(next_dispatch(false, 2, 3, Error::NotFound), Dispatch::Fail(Error::NotFound));
}
