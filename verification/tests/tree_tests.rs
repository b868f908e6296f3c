use stau::error::IoKind;
use stau::path::TreePath;
use stau::file_tree::{Change, FileTree};
use stau::tree::Kind;

fn p(text: &str) -> TreePath {
    TreePath::parse(text)
}

fn listing(fs: &FileTree) -> Vec<(String, Kind)> {
    (0..fs.count())
        .map(|i| (fs.path_at(i).render(), fs.kind_at(i)))
        .collect()
}

fn entry(path: &str, kind: Kind) -> (String, Kind) {
    (path.to_string(), kind)
}

#[test]
fn a_new_tree_holds_the_root_alone() {
    let fs = FileTree::new();
    assert_eq!(fs.count(), 0);
    assert_eq!(fs.kind(&TreePath::root()), Some(Kind::Dir));
    assert!(fs.resolves(&TreePath::root()));
    assert!(fs.is_dir(&TreePath::root()));
    assert!(!fs.is_file(&TreePath::root()));
    assert_eq!(fs.kind(&p("/a")), None);
    assert!(!fs.resolves(&p("/a")));
    assert_eq!(fs.read_file(&p("/a")), None);
    assert_eq!(fs.read_link(&p("/a")), None);
}

#[test]
fn directories_are_made_all_the_way_down() {
    let mut fs = FileTree::new();
    assert_eq!(fs.create_dir_all(&p("/a/b/c")), Ok(()));
    assert_eq!(
        listing(&fs),
        vec![
            entry("/a", Kind::Dir),
            entry("/a/b", Kind::Dir),
            entry("/a/b/c", Kind::Dir)
        ]
    );
    // Making them again changes nothing, and so does making the root.
    assert_eq!(fs.create_dir_all(&p("/a/b")), Ok(()));
    assert_eq!(fs.create_dir_all(&TreePath::root()), Ok(()));
    assert_eq!(fs.count(), 3);
    assert_eq!(fs.create_dir_all(&p("/a/x/y")), Ok(()));
    assert_eq!(
        listing(&fs),
        vec![
            entry("/a", Kind::Dir),
            entry("/a/b", Kind::Dir),
            entry("/a/b/c", Kind::Dir),
            entry("/a/x", Kind::Dir),
            entry("/a/x/y", Kind::Dir),
        ]
    );
}

#[test]
fn a_file_or_a_link_in_the_way_refuses_the_directories() {
    let mut fs = FileTree::new();
    fs.create_dir_all(&p("/a")).unwrap();
    fs.create_file(&p("/a/file"), vec![1]).unwrap();
    fs.make_link(&p("/a"), &p("/a/link")).unwrap();
    let before = listing(&fs);
    fs.take_changes();

    assert_eq!(
        fs.create_dir_all(&p("/a/file/x/y")),
        Err(IoKind::NotADirectory)
    );
    assert_eq!(fs.create_dir_all(&p("/a/file")), Err(IoKind::NotADirectory));
    assert_eq!(fs.create_dir_all(&p("/a/link/x")), Err(IoKind::NotADirectory));
    assert_eq!(listing(&fs), before);
    assert!(fs.take_changes().is_empty());
}

#[test]
fn files_are_made_where_nothing_stands_in_a_directory_that_is_there() {
    let mut fs = FileTree::new();
    fs.create_dir_all(&p("/a")).unwrap();
    assert_eq!(fs.create_file(&p("/a/f"), b"one".to_vec()), Ok(()));
    assert_eq!(fs.read_file(&p("/a/f")), Some(b"one".to_vec()));
    assert_eq!(fs.kind(&p("/a/f")), Some(Kind::File));
    assert!(fs.is_file(&p("/a/f")));

    assert_eq!(
        fs.create_file(&p("/a/f"), b"two".to_vec()),
        Err(IoKind::AlreadyExists)
    );
    assert_eq!(fs.create_file(&p("/a"), vec![]), Err(IoKind::AlreadyExists));
    assert_eq!(
        fs.create_file(&TreePath::root(), vec![]),
        Err(IoKind::AlreadyExists)
    );
    assert_eq!(fs.create_file(&p("/b/f"), vec![]), Err(IoKind::NotFound));
    assert_eq!(
        fs.create_file(&p("/a/f/g"), vec![]),
        Err(IoKind::NotADirectory)
    );
    assert_eq!(fs.read_file(&p("/a/f")), Some(b"one".to_vec()));
    assert_eq!(fs.create_file(&p("/top"), vec![]), Ok(()));
}

#[test]
fn links_store_a_path_and_are_followed_at_the_end_only() {
    let mut fs = FileTree::new();
    fs.create_dir_all(&p("/real/dir")).unwrap();
    fs.create_file(&p("/real/dir/file"), b"x".to_vec()).unwrap();
    assert_eq!(fs.make_link(&p("/real/dir/file"), &p("/to_file")), Ok(()));
    assert_eq!(fs.make_link(&p("/real/dir"), &p("/to_dir")), Ok(()));
    assert_eq!(fs.make_link(&p("/to_file"), &p("/to_link")), Ok(()));
    assert_eq!(fs.make_link(&p("/nowhere"), &p("/dangling")), Ok(()));

    assert_eq!(fs.kind(&p("/to_file")), Some(Kind::Link));
    assert_eq!(fs.read_link(&p("/to_file")), Some(p("/real/dir/file")));
    assert_eq!(fs.read_link(&p("/real/dir/file")), None);
    assert_eq!(fs.read_file(&p("/to_file")), None);
    assert!(fs.is_file(&p("/to_file")));
    assert!(fs.is_file(&p("/to_link")));
    assert!(fs.is_dir(&p("/to_dir")));
    assert!(!fs.is_file(&p("/to_dir")));
    assert!(fs.resolves(&p("/to_dir")));
    assert!(!fs.resolves(&p("/dangling")));
    assert!(!fs.is_dir(&p("/dangling")));
    // A path that runs through a link names nothing.
    assert_eq!(fs.kind(&p("/to_dir/file")), None);
    assert!(!fs.resolves(&p("/to_dir/file")));

    assert_eq!(
        fs.make_link(&p("/x"), &p("/to_file")),
        Err(IoKind::AlreadyExists)
    );
    assert_eq!(fs.make_link(&p("/x"), &p("/no/dir")), Err(IoKind::NotFound));
    assert_eq!(
        fs.make_link(&p("/x"), &p("/to_dir/inside")),
        Err(IoKind::NotADirectory)
    );
}

#[test]
fn links_in_a_ring_lead_nowhere() {
    let mut fs = FileTree::new();
    fs.make_link(&p("/b"), &p("/a")).unwrap();
    fs.make_link(&p("/a"), &p("/b")).unwrap();
    fs.make_link(&p("/self"), &p("/self")).unwrap();
    assert!(!fs.resolves(&p("/a")));
    assert!(!fs.resolves(&p("/self")));
    assert!(!fs.is_file(&p("/b")));
}

#[test]
fn forty_links_in_a_row_are_followed_and_no_more() {
    let mut fs = FileTree::new();
    fs.create_file(&p("/l0"), vec![]).unwrap();
    for i in 1..=41 {
        fs.make_link(&p(&format!("/l{}", i - 1)), &p(&format!("/l{}", i)))
            .unwrap();
    }
    assert!(fs.resolves(&p("/l1")));
    assert!(fs.resolves(&p("/l40")));
    assert!(fs.is_file(&p("/l40")));
    assert!(!fs.resolves(&p("/l41")));
}

#[test]
fn files_and_links_are_removed_one_by_one() {
    let mut fs = FileTree::new();
    fs.create_dir_all(&p("/d")).unwrap();
    fs.create_file(&p("/d/f"), vec![]).unwrap();
    fs.make_link(&p("/d/f"), &p("/d/l")).unwrap();

    assert_eq!(fs.remove_file(&p("/d/missing")), Err(IoKind::NotFound));
    assert_eq!(fs.remove_file(&p("/d")), Err(IoKind::IsADirectory));
    assert_eq!(
        fs.remove_file(&TreePath::root()),
        Err(IoKind::IsADirectory)
    );
    assert_eq!(fs.remove_file(&p("/d/l")), Ok(()));
    assert_eq!(fs.kind(&p("/d/f")), Some(Kind::File));
    assert_eq!(fs.remove_file(&p("/d/f")), Ok(()));
    assert_eq!(listing(&fs), vec![entry("/d", Kind::Dir)]);
}

#[test]
fn a_directory_is_removed_with_all_that_it_holds() {
    let mut fs = FileTree::new();
    fs.create_dir_all(&p("/a/b/c")).unwrap();
    fs.create_dir_all(&p("/a/bb")).unwrap();
    fs.create_dir_all(&p("/ab")).unwrap();
    fs.create_file(&p("/a/b/f"), vec![]).unwrap();
    fs.create_file(&p("/a/b/c/g"), vec![]).unwrap();
    fs.create_file(&p("/a/f"), vec![]).unwrap();

    assert_eq!(fs.remove_dir_all(&p("/a/f")), Err(IoKind::NotADirectory));
    assert_eq!(fs.remove_dir_all(&p("/a/none")), Err(IoKind::NotFound));
    assert_eq!(fs.remove_dir_all(&p("/a/b")), Ok(()));
    assert_eq!(
        listing(&fs),
        vec![
            entry("/a", Kind::Dir),
            entry("/a/bb", Kind::Dir),
            entry("/a/f", Kind::File),
            entry("/ab", Kind::Dir),
        ]
    );
    assert_eq!(fs.remove_dir_all(&TreePath::root()), Ok(()));
    assert_eq!(fs.count(), 0);
    assert_eq!(fs.kind(&TreePath::root()), Some(Kind::Dir));
}

#[test]
fn a_file_is_copied_to_a_free_place() {
    let mut fs = FileTree::new();
    fs.create_dir_all(&p("/a")).unwrap();
    fs.create_file(&p("/a/f"), b"bytes".to_vec()).unwrap();
    fs.make_link(&p("/a/f"), &p("/a/l")).unwrap();

    assert_eq!(fs.copy_file(&p("/a/f"), &p("/a/g")), Ok(()));
    assert_eq!(fs.read_file(&p("/a/g")), Some(b"bytes".to_vec()));
    assert_eq!(fs.read_file(&p("/a/f")), Some(b"bytes".to_vec()));

    assert_eq!(fs.copy_file(&p("/a/none"), &p("/a/h")), Err(IoKind::NotFound));
    assert_eq!(fs.copy_file(&p("/a"), &p("/a/h")), Err(IoKind::InvalidInput));
    assert_eq!(fs.copy_file(&p("/a/l"), &p("/a/h")), Err(IoKind::InvalidInput));
    assert_eq!(
        fs.copy_file(&p("/a/f"), &p("/a/g")),
        Err(IoKind::AlreadyExists)
    );
    assert_eq!(fs.copy_file(&p("/a/f"), &p("/b/g")), Err(IoKind::NotFound));
    assert_eq!(fs.kind(&p("/a/h")), None);
}

#[test]
fn a_move_takes_along_all_that_lies_under_the_path() {
    let mut fs = FileTree::new();
    fs.create_dir_all(&p("/from/sub/deep")).unwrap();
    fs.create_dir_all(&p("/to")).unwrap();
    fs.create_file(&p("/from/f"), b"1".to_vec()).unwrap();
    fs.create_file(&p("/from/sub/deep/g"), b"2".to_vec()).unwrap();
    fs.make_link(&p("/from/f"), &p("/from/sub/l")).unwrap();
    fs.create_file(&p("/fromage"), vec![]).unwrap();

    assert_eq!(fs.rename(&p("/from"), &p("/to/here")), Ok(()));
    assert_eq!(
        listing(&fs),
        vec![
            entry("/fromage", Kind::File),
            entry("/to", Kind::Dir),
            entry("/to/here", Kind::Dir),
            entry("/to/here/f", Kind::File),
            entry("/to/here/sub", Kind::Dir),
            entry("/to/here/sub/deep", Kind::Dir),
            entry("/to/here/sub/deep/g", Kind::File),
            entry("/to/here/sub/l", Kind::Link),
        ]
    );
    assert_eq!(fs.read_file(&p("/to/here/sub/deep/g")), Some(b"2".to_vec()));
    // A link keeps the path that it stores.
    assert_eq!(fs.read_link(&p("/to/here/sub/l")), Some(p("/from/f")));
}

#[test]
fn a_move_is_refused_where_it_makes_no_sense() {
    let mut fs = FileTree::new();
    fs.create_dir_all(&p("/a/b")).unwrap();
    fs.create_file(&p("/f"), vec![]).unwrap();
    let before = listing(&fs);

    assert_eq!(
        fs.rename(&TreePath::root(), &p("/x")),
        Err(IoKind::InvalidInput)
    );
    assert_eq!(fs.rename(&p("/a"), &p("/a/b/c")), Err(IoKind::InvalidInput));
    assert_eq!(fs.rename(&p("/a"), &p("/a")), Err(IoKind::InvalidInput));
    assert_eq!(fs.rename(&p("/none"), &p("/x")), Err(IoKind::NotFound));
    assert_eq!(fs.rename(&p("/a/b"), &p("/f")), Err(IoKind::AlreadyExists));
    assert_eq!(fs.rename(&p("/a/b"), &p("/a")), Err(IoKind::AlreadyExists));
    assert_eq!(fs.rename(&p("/f"), &p("/none/f")), Err(IoKind::NotFound));
    assert_eq!(fs.rename(&p("/a"), &p("/f/a")), Err(IoKind::NotADirectory));
    assert_eq!(listing(&fs), before);

    assert_eq!(fs.rename(&p("/f"), &p("/a/b/f")), Ok(()));
    assert_eq!(fs.kind(&p("/f")), None);
    assert_eq!(fs.kind(&p("/a/b/f")), Some(Kind::File));
}

#[test]
fn why_a_place_is_not_free() {
    let mut fs = FileTree::new();
    fs.create_dir_all(&p("/d")).unwrap();
    fs.create_file(&p("/d/f"), vec![]).unwrap();
    assert_eq!(fs.blocker(&p("/d/new")), None);
    assert_eq!(fs.blocker(&p("/new")), None);
    assert_eq!(fs.blocker(&p("/d/f")), Some(IoKind::AlreadyExists));
    assert_eq!(fs.blocker(&TreePath::root()), Some(IoKind::AlreadyExists));
    assert_eq!(fs.blocker(&p("/x/new")), Some(IoKind::NotFound));
    assert_eq!(fs.blocker(&p("/d/f/new")), Some(IoKind::NotADirectory));
}

#[test]
fn changes_are_listed_in_order_and_refusals_are_not() {
    let mut fs = FileTree::new();
    fs.create_dir_all(&p("/a/b")).unwrap();
    fs.create_file(&p("/a/f"), b"x".to_vec()).unwrap();
    assert!(fs.create_file(&p("/a/f"), vec![]).is_err());
    fs.make_link(&p("/a/f"), &p("/a/l")).unwrap();
    fs.copy_file(&p("/a/f"), &p("/a/b/g")).unwrap();
    assert!(fs.remove_file(&p("/none")).is_err());
    fs.rename(&p("/a/b"), &p("/c")).unwrap();
    fs.remove_file(&p("/a/l")).unwrap();
    fs.remove_dir_all(&p("/c")).unwrap();

    let changes = fs.take_changes();
    assert_eq!(
        changes,
        vec![
            Change::MakeDirs(p("/a/b")),
            Change::CreateFile {
                path: p("/a/f"),
                content: b"x".to_vec()
            },
            Change::MakeLink {
                link: p("/a/l"),
                points_to: p("/a/f")
            },
            Change::CopyFile {
                from: p("/a/f"),
                to: p("/a/b/g")
            },
            Change::Move {
                from: p("/a/b"),
                to: p("/c")
            },
            Change::RemoveFile(p("/a/l")),
            Change::RemoveTree(p("/c")),
        ]
    );
    assert!(fs.take_changes().is_empty());
    assert_eq!(
        listing(&fs),
        vec![entry("/a", Kind::Dir), entry("/a/f", Kind::File)]
    );

    // Made anew from the list, a tree is the same tree.
    let mut again = FileTree::new();
    for change in &changes {
        let done = match change {
            Change::MakeDirs(path) => again.create_dir_all(path),
            Change::CreateFile { path, content } => again.create_file(path, content.clone()),
            Change::MakeLink { link, points_to } => again.make_link(points_to, link),
            Change::RemoveFile(path) => again.remove_file(path),
            Change::RemoveTree(path) => again.remove_dir_all(path),
            Change::CopyFile { from, to } => again.copy_file(from, to),
            Change::Move { from, to } => again.rename(from, to),
        };
        assert_eq!(done, Ok(()));
    }
    assert_eq!(listing(&again), listing(&fs));
}

#[test]
fn the_listing_is_in_the_order_of_a_walk_however_the_tree_was_made() {
    let mut fs = FileTree::new();
    for dir in ["/z", "/a/c", "/a-b", "/a/b", "/a.d", "/B"] {
        fs.create_dir_all(&p(dir)).unwrap();
    }
    assert_eq!(
        listing(&fs).into_iter().map(|e| e.0).collect::<Vec<_>>(),
        vec!["/B", "/a", "/a/b", "/a/c", "/a-b", "/a.d", "/z"]
    );
}
