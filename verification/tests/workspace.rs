use nodian::{FileNode, Workspace, WsError};

fn path(s: &str) -> Vec<String> {
    nodian::parse_path(s).expect("test path must parse")
}

fn setup() -> Workspace {
    let mut ws = Workspace::new();
    ws.create_folder(&path("/home/u/nodian")).unwrap();
    ws
}

fn child_paths(n: &FileNode) -> Vec<Vec<String>> {
    n.children.iter().map(|c| c.path.clone()).collect()
}

#[test]
fn snapshot_of_directory_is_dir() {
    let ws = setup();
    let n = ws.snapshot(&path("/home/u/nodian")).unwrap();
    assert!(n.is_dir);
    assert_eq!(n.name, "nodian");
    assert_eq!(n.path, path("/home/u/nodian"));
}

#[test]
fn snapshot_root_forcing_on_file() {
    let mut ws = setup();
    ws.write_file(&path("/home/u/nodian/a.md"), String::from("x"))
        .unwrap();
    // even a file is rendered as a directory at the snapshot root
    let n = ws.snapshot(&path("/home/u/nodian/a.md")).unwrap();
    assert!(n.is_dir);
    assert!(n.children.is_empty());
}

#[test]
fn snapshot_of_missing_path_is_path_not_found() {
    let ws = setup();
    let e = ws.snapshot(&path("/nowhere")).unwrap_err();
    assert!(e.is_path_not_found());
}

#[test]
fn snapshot_children_count_and_prefix() {
    let mut ws = setup();
    ws.write_file(&path("/home/u/nodian/a.md"), String::from("a"))
        .unwrap();
    ws.write_file(&path("/home/u/nodian/b.md"), String::from("b"))
        .unwrap();
    ws.create_folder(&path("/home/u/nodian/sub")).unwrap();
    ws.write_file(&path("/home/u/nodian/sub/deep.md"), String::from("d"))
        .unwrap();
    let n = ws.snapshot(&path("/home/u/nodian")).unwrap();
    // exactly the three direct children, each path extending the parent's
    assert_eq!(n.children.len(), 3);
    let d = path("/home/u/nodian");
    for c in &n.children {
        assert_eq!(&c.path[..d.len()], &d[..]);
        assert_eq!(c.path.len(), d.len() + 1);
    }
    let mut names: Vec<String> = n.children.iter().map(|c| c.name.clone()).collect();
    names.sort();
    assert_eq!(names, vec!["a.md", "b.md", "sub"]);
}

#[test]
fn create_folder_is_idempotent() {
    let mut ws = setup();
    assert!(ws.create_folder(&path("/home/u/nodian/notes")).is_ok());
    assert!(ws.create_folder(&path("/home/u/nodian/notes")).is_ok());
    let n = ws.snapshot(&path("/home/u/nodian")).unwrap();
    let target = path("/home/u/nodian/notes");
    let found: Vec<&FileNode> = n.children.iter().filter(|c| c.path == target).collect();
    // exactly one directory stands at the path
    assert_eq!(found.len(), 1);
    assert!(found[0].is_dir);
}

#[test]
fn write_then_read_round_trip() {
    let mut ws = setup();
    let p = path("/home/u/nodian/note.md");
    let content = "# Title\n\nsome text, with unicode: ü é 日本語";
    ws.write_file(&p, String::from(content)).unwrap();
    assert_eq!(ws.read_file(&p).unwrap(), content);
    // a second write overwrites the whole content
    ws.write_file(&p, String::from("replaced")).unwrap();
    assert_eq!(ws.read_file(&p).unwrap(), "replaced");
}

#[test]
fn create_file_truncates_and_needs_parent() {
    let mut ws = setup();
    let p = path("/home/u/nodian/f.md");
    ws.write_file(&p, String::from("old")).unwrap();
    ws.create_file(&p).unwrap();
    assert_eq!(ws.read_file(&p).unwrap(), "");
    let orphan = path("/home/u/nodian/missing/f.md");
    let e = ws.create_file(&orphan).unwrap_err();
    assert!(matches!(e, WsError::IoError(_)));
}

#[test]
fn read_errors() {
    let ws = setup();
    let e = ws.read_file(&path("/home/u/nodian/none.md")).unwrap_err();
    assert!(e.is_path_not_found());
    let e = ws.read_file(&path("/home/u/nodian")).unwrap_err();
    assert!(matches!(e, WsError::IoError(_)));
}

#[test]
fn delete_directory_removes_it_from_parent_snapshot() {
    let mut ws = setup();
    ws.create_folder(&path("/home/u/nodian/drafts")).unwrap();
    ws.write_file(&path("/home/u/nodian/drafts/one.md"), String::from("1"))
        .unwrap();
    ws.write_file(&path("/home/u/nodian/drafts/two.md"), String::from("2"))
        .unwrap();
    ws.write_file(&path("/home/u/nodian/drafts/three.md"), String::from("3"))
        .unwrap();
    ws.delete_item(&path("/home/u/nodian/drafts")).unwrap();
    let n = ws.snapshot(&path("/home/u/nodian")).unwrap();
    assert!(!child_paths(&n).contains(&path("/home/u/nodian/drafts")));
    assert!(ws
        .read_file(&path("/home/u/nodian/drafts/one.md"))
        .unwrap_err()
        .is_path_not_found());
}

#[test]
fn delete_errors() {
    let mut ws = setup();
    let e = ws.delete_item(&path("/home/u/nodian/none")).unwrap_err();
    assert!(e.is_path_not_found());
    let e = ws.delete_item(&path("/")).unwrap_err();
    assert!(matches!(e, WsError::IoError(_)));
}

#[test]
fn rename_file_moves_content() {
    let mut ws = setup();
    ws.create_folder(&path("/root")).unwrap();
    ws.write_file(&path("/root/a.md"), String::from("kept content"))
        .unwrap();
    ws.rename_item(&path("/root/a.md"), &path("/root/b.md"))
        .unwrap();
    let e = ws.read_file(&path("/root/a.md")).unwrap_err();
    assert!(e.is_path_not_found());
    assert_eq!(ws.read_file(&path("/root/b.md")).unwrap(), "kept content");
}

#[test]
fn rename_directory_moves_subtree() {
    let mut ws = setup();
    ws.create_folder(&path("/home/u/nodian/old")).unwrap();
    ws.write_file(&path("/home/u/nodian/old/x.md"), String::from("x"))
        .unwrap();
    ws.rename_item(&path("/home/u/nodian/old"), &path("/home/u/nodian/new"))
        .unwrap();
    assert_eq!(
        ws.read_file(&path("/home/u/nodian/new/x.md")).unwrap(),
        "x"
    );
    assert!(ws
        .read_file(&path("/home/u/nodian/old/x.md"))
        .unwrap_err()
        .is_path_not_found());
}

#[test]
fn rename_errors() {
    let mut ws = setup();
    ws.write_file(&path("/home/u/nodian/a.md"), String::from("a"))
        .unwrap();
    ws.write_file(&path("/home/u/nodian/b.md"), String::from("b"))
        .unwrap();
    let e = ws
        .rename_item(&path("/home/u/nodian/none.md"), &path("/home/u/nodian/c.md"))
        .unwrap_err();
    assert!(e.is_path_not_found());
    // onto an existing target
    let e = ws
        .rename_item(&path("/home/u/nodian/a.md"), &path("/home/u/nodian/b.md"))
        .unwrap_err();
    assert!(matches!(e, WsError::IoError(_)));
    // into the moved subtree
    ws.create_folder(&path("/home/u/nodian/d")).unwrap();
    let e = ws
        .rename_item(&path("/home/u/nodian/d"), &path("/home/u/nodian/d/e"))
        .unwrap_err();
    assert!(matches!(e, WsError::IoError(_)));
}

#[test]
fn resolve_root_creates_then_reuses() {
    let mut ws = Workspace::new();
    ws.create_folder(&path("/home/u")).unwrap();
    let home = path("/home/u");
    let r1 = nodian::resolve_root(&mut ws, Some(&home)).unwrap();
    assert_eq!(r1, path("/home/u/nodian"));
    let first = ws.snapshot(&path("/")).unwrap();
    let r2 = nodian::resolve_root(&mut ws, Some(&home)).unwrap();
    assert_eq!(r2, r1);
    // the second resolution recreated nothing
    let second = ws.snapshot(&path("/")).unwrap();
    assert_eq!(child_paths(&first), child_paths(&second));
    // degraded default: no home directory falls back to the filesystem root
    let r3 = nodian::resolve_root(&mut ws, None).unwrap();
    assert_eq!(r3, path("/nodian"));
}

#[test]
fn os_root_path_ends_in_workspace_folder() {
    let p = nodian::os_root_path();
    assert!(!p.is_empty());
    assert_eq!(p.last().unwrap(), "nodian");
}

#[test]
fn contains_and_is_dir_report_entry_kind() {
    let mut ws = setup();
    ws.write_file(&path("/home/u/nodian/n.md"), String::from("n"))
        .unwrap();
    assert!(ws.contains(&path("/home/u/nodian")));
    assert!(ws.is_dir(&path("/home/u/nodian")));
    assert!(ws.contains(&path("/home/u/nodian/n.md")));
    assert!(!ws.is_dir(&path("/home/u/nodian/n.md")));
    assert!(!ws.contains(&path("/home/u/elsewhere")));
}

#[test]
fn parse_path_accepts_and_rejects() {
    assert_eq!(nodian::parse_path("/").unwrap(), Vec::<String>::new());
    assert_eq!(nodian::parse_path("/a/bc").unwrap(), vec!["a", "bc"]);
    assert!(nodian::parse_path("").is_none());
    assert!(nodian::parse_path("a/b").is_none());
    assert!(nodian::parse_path("/a/").is_none());
    assert!(nodian::parse_path("/a//b").is_none());
}
