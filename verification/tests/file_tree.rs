use babygit::file_tree::{FileTree, FileTreeNode, TreeError};

fn child<'a>(nodes: &'a [FileTreeNode], name: &str) -> &'a FileTreeNode {
    nodes.iter().find(|n| n.name == name).expect("node missing")
}

#[test]
fn new_tree_is_empty() {
    let t = FileTree::new(77, "/home/me/proj");
    assert_eq!(t.project_id, 77);
    assert_eq!(t.root_dir, "/home/me/proj");
    assert!(t.children.is_empty());
    assert!(!t.is_ready());
}

#[test]
fn builds_nested_tree() {
    let mut t = FileTree::new(1, "/root");
    t.queue_file(1, "a").unwrap();
    t.queue_file(2, "a/b").unwrap();
    t.queue_file(3, "a/b/c.txt").unwrap();
    t.queue_file(4, "top.txt").unwrap();
    assert_eq!(t.build(), Ok(()));
    assert!(t.is_ready());
    assert_eq!(t.children.len(), 2);
    let a = child(&t.children, "a");
    assert_eq!(a.id, 1);
    assert_eq!(a.path, vec!["a".to_string()]);
    let b = child(&a.children, "b");
    assert_eq!(b.id, 2);
    assert_eq!(b.path, vec!["a".to_string(), "b".to_string()]);
    let c = child(&b.children, "c.txt");
    assert_eq!(c.id, 3);
    assert_eq!(c.path, vec!["a".to_string(), "b".to_string(), "c.txt".to_string()]);
    assert!(c.children.is_empty());
    assert_eq!(child(&t.children, "top.txt").id, 4);
}

#[test]
fn places_by_id_not_queue_order() {
    let mut t = FileTree::new(1, "/root");
    t.queue_file(30, "dir/sub/file").unwrap();
    t.queue_file(20, "dir/sub").unwrap();
    t.queue_file(10, "dir").unwrap();
    assert_eq!(t.build(), Ok(()));
    let f = child(&child(&child(&t.children, "dir").children, "sub").children, "file");
    assert_eq!(f.id, 30);
}

#[test]
fn missing_parent_stops_build() {
    let mut t = FileTree::new(1, "/root");
    t.queue_file(1, "a").unwrap();
    t.queue_file(2, "x/y").unwrap();
    t.queue_file(3, "b").unwrap();
    assert_eq!(t.build(), Err(TreeError::ParentMissing("x/y".to_string())));
    assert!(!t.is_ready());
    // the file before the refused one is placed, the one after is not
    assert_eq!(t.children.len(), 1);
    assert_eq!(t.children[0].name, "a");
    assert_eq!(t.queue_file(4, "c"), Ok(()));
}

#[test]
fn absolute_paths_under_root() {
    let mut t = FileTree::new(1, "/home/me/proj");
    t.queue_file(1, "/home/me/proj/src").unwrap();
    t.queue_file(2, "/home/me/proj/src/main.rs").unwrap();
    assert_eq!(t.build(), Ok(()));
    let src = child(&t.children, "src");
    assert_eq!(child(&src.children, "main.rs").id, 2);
}

#[test]
fn absolute_path_outside_root() {
    let mut t = FileTree::new(1, "/home/me/proj");
    t.queue_file(1, "/elsewhere/file").unwrap();
    assert_eq!(t.build(), Err(TreeError::OutsideRoot));
    let mut u = FileTree::new(1, "/home/me/proj");
    u.queue_file(1, "/home/me/project2/file").unwrap();
    assert_eq!(u.build(), Err(TreeError::OutsideRoot));
}

#[test]
fn duplicate_at_top_refused() {
    let mut t = FileTree::new(1, "/r");
    t.queue_file(1, "a").unwrap();
    t.queue_file(2, "a/").unwrap();
    assert_eq!(t.build(), Err(TreeError::AlreadyExists));
    assert_eq!(t.children.len(), 1);
    assert_eq!(t.children[0].id, 1);
}

#[test]
fn deeper_duplicate_replaces() {
    let mut t = FileTree::new(1, "/r");
    t.queue_file(1, "a").unwrap();
    t.queue_file(2, "a/b").unwrap();
    t.queue_file(3, "a/b/c").unwrap();
    t.queue_file(4, "a/b").unwrap();
    assert_eq!(t.build(), Ok(()));
    let a = child(&t.children, "a");
    assert_eq!(a.children.len(), 1);
    let b = child(&a.children, "b");
    assert_eq!(b.id, 4);
    assert!(b.children.is_empty());
}

#[test]
fn component_not_normal() {
    let mut t = FileTree::new(1, "/r");
    t.queue_file(1, "./x/y").unwrap();
    assert_eq!(t.build(), Err(TreeError::NotNormal));
    let mut u = FileTree::new(1, "/r");
    u.queue_file(1, "a").unwrap();
    u.queue_file(2, "a/../b/c").unwrap();
    assert_eq!(u.build(), Err(TreeError::NotNormal));
}

#[test]
fn separators_are_normalized() {
    let mut t = FileTree::new(1, "/r");
    t.queue_file(1, "a").unwrap();
    t.queue_file(2, "a//b/./").unwrap();
    assert_eq!(t.build(), Ok(()));
    let b = child(&child(&t.children, "a").children, "b");
    assert_eq!(b.id, 2);
    assert_eq!(b.path, vec!["a".to_string(), "b".to_string()]);
}

#[test]
fn queue_closed_after_build() {
    let mut t = FileTree::new(1, "/r");
    t.queue_file(1, "a").unwrap();
    t.build().unwrap();
    assert_eq!(t.queue_file(2, "b"), Err(TreeError::QueueClosed));
    assert_eq!(t.children.len(), 1);
}

#[test]
fn try_build_refuses_unplaceable() {
    let mut t = FileTree::new(1, "/r");
    t.queue_file(1, "a").unwrap();
    t.queue_file(2, "a/..").unwrap();
    assert_eq!(t.try_build(), None);
    assert!(t.children.is_empty());
    assert!(!t.is_ready());

    let mut u = FileTree::new(1, "/r");
    u.queue_file(1, "..").unwrap();
    assert_eq!(u.try_build(), None);

    let mut v = FileTree::new(1, "/r");
    v.queue_file(1, "/r").unwrap();
    assert_eq!(v.try_build(), None);
}

#[test]
fn try_build_like_build() {
    let mut t = FileTree::new(1, "/r");
    t.queue_file(2, "d/f").unwrap();
    t.queue_file(1, "d").unwrap();
    assert_eq!(t.try_build(), Some(Ok(())));
    assert!(t.is_ready());
    assert_eq!(child(&child(&t.children, "d").children, "f").id, 2);

    let mut u = FileTree::new(1, "/r");
    u.queue_file(1, "x/y").unwrap();
    assert_eq!(u.try_build(), Some(Err(TreeError::ParentMissing("x/y".to_string()))));
    assert!(!u.is_ready());
}

#[test]
fn missing_dir_with_bad_name_is_refused_not_malformed() {
    // "a/.." has no name to place, but its directory is missing: refused first
    let mut t = FileTree::new(1, "/r");
    t.queue_file(1, "a/..").unwrap();
    assert_eq!(t.try_build(), Some(Err(TreeError::ParentMissing("a/..".to_string()))));
}

#[test]
fn missing_parent_names_the_file() {
    let mut t = FileTree::new(0, "/p");
    t.queue_file(1, "a/b").unwrap();
    let e = t.build().unwrap_err();
    assert_eq!(e.message(), "Parent directory of file a/b doesn't exist in the file tree");
    assert!(t.children.is_empty());

    let mut u = FileTree::new(0, "/p");
    u.queue_file(1, "/p/a/b").unwrap();
    let e = u.build().unwrap_err();
    assert_eq!(e, TreeError::ParentMissing("a/b".to_string()));
    assert_eq!(e.message(), "Parent directory of file a/b doesn't exist in the file tree");

    let mut w = FileTree::new(0, "/p");
    w.queue_file(1, "a").unwrap();
    w.queue_file(2, "a/b/c").unwrap();
    let e = w.build().unwrap_err();
    assert_eq!(e.message(), "Parent directory of file a/b/c doesn't exist in the file tree");
    assert_eq!(w.children.len(), 1);
    assert!(w.children[0].children.is_empty());
}

#[test]
fn tree_error_messages() {
    assert_eq!(
        TreeError::QueueClosed.message(),
        "Cannot queue files after the file tree has been built"
    );
    assert_eq!(
        TreeError::AlreadyExists.message(),
        "This path already exists in the file tree"
    );
    assert_eq!(TreeError::NotNormal.message(), "File's path component was not normal");
    assert_eq!(TreeError::OutsideRoot.message(), "prefix not found");
    assert_eq!(
        TreeError::ParentMissing("x/y".to_string()).message(),
        "Parent directory of file x/y doesn't exist in the file tree"
    );
}

#[test]
fn second_build_refused() {
    let mut t = FileTree::new(1, "/r");
    t.queue_file(2, "a/b").unwrap();
    t.queue_file(1, "a").unwrap();
    assert_eq!(t.build(), Ok(()));
    let e = t.build().unwrap_err();
    assert_eq!(e, TreeError::AlreadyExists);
    assert_eq!(e.message(), "This path already exists in the file tree");
    assert!(t.is_ready());
    let a = child(&t.children, "a");
    assert_eq!(a.id, 1);
    assert_eq!(child(&a.children, "b").id, 2);
}

#[test]
fn queue_order_does_not_matter() {
    let files = [(3u128, "d/e/f"), (1, "d"), (2, "d/e"), (4, "g")];
    let mut t1 = FileTree::new(1, "/r");
    for (id, p) in files.iter() {
        t1.queue_file(*id, p).unwrap();
    }
    let mut t2 = FileTree::new(1, "/r");
    for (id, p) in files.iter().rev() {
        t2.queue_file(*id, p).unwrap();
    }
    assert_eq!(t1.build(), t2.build());
    assert_eq!(t1.is_ready(), t2.is_ready());
    let f1 = child(&child(&child(&t1.children, "d").children, "e").children, "f").id;
    let f2 = child(&child(&child(&t2.children, "d").children, "e").children, "f").id;
    assert_eq!(f1, f2);
    assert_eq!(child(&t1.children, "g").id, child(&t2.children, "g").id);
}

#[test]
fn ready_only_after_successful_build() {
    let mut t = FileTree::new(1, "/r");
    assert!(!t.is_ready());
    t.queue_file(2, "x/y").unwrap();
    assert!(!t.is_ready());
    assert!(t.build().is_err());
    assert!(!t.is_ready());
    t.queue_file(1, "x").unwrap();
    assert!(!t.is_ready());
    assert_eq!(t.build(), Ok(()));
    assert!(t.is_ready());
    assert!(t.build().is_err());
    assert!(t.is_ready());
}

#[test]
fn absolute_path_placed_as_relative() {
    let mut t1 = FileTree::new(1, "/r");
    t1.queue_file(1, "/r/a").unwrap();
    t1.queue_file(2, "/r/a/b").unwrap();
    let mut t2 = FileTree::new(1, "/r");
    t2.queue_file(1, "a").unwrap();
    t2.queue_file(2, "a/b").unwrap();
    assert_eq!(t1.build(), t2.build());
    assert_eq!(
        child(&child(&t1.children, "a").children, "b").id,
        child(&child(&t2.children, "a").children, "b").id
    );
    // "./a" joined under the root is placed as "a"; alone it is refused
    let mut t3 = FileTree::new(1, "/r");
    t3.queue_file(1, "/r/./a").unwrap();
    assert_eq!(t3.build(), Ok(()));
    let mut t4 = FileTree::new(1, "/r");
    t4.queue_file(1, "./a").unwrap();
    assert_eq!(t4.build(), Err(TreeError::NotNormal));
}
