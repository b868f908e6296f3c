use stau::order::{rank_bytes, rank_names, Rank};
use stau::path::TreePath;
use stau::text::{decimal_text, signed_decimal_text};

fn names(path: &TreePath) -> Vec<String> {
    (0..path.len()).map(|i| path.name(i).to_string()).collect()
}

#[test]
fn text_is_read_name_by_name() {
    assert_eq!(
        names(&TreePath::parse("/home/user/.vimrc")),
        vec!["home", "user", ".vimrc"]
    );
    assert_eq!(names(&TreePath::parse("a/b")), vec!["a", "b"]);
    assert_eq!(names(&TreePath::parse("/")), Vec::<String>::new());
    assert_eq!(names(&TreePath::parse("")), Vec::<String>::new());
    assert_eq!(names(&TreePath::parse("///")), Vec::<String>::new());
    assert_eq!(TreePath::parse("/"), TreePath::root());
}

#[test]
fn empty_names_and_dots_are_dropped() {
    assert_eq!(
        TreePath::parse("/a//b/./c/"),
        TreePath::parse("a/b/c")
    );
    assert_eq!(names(&TreePath::parse("./a/.")), vec!["a"]);
    assert_eq!(names(&TreePath::parse(".")), Vec::<String>::new());
    assert_eq!(
        names(&TreePath::parse("/a/../.b/..c/d.")),
        vec!["a", "..", ".b", "..c", "d."]
    );
    assert_eq!(
        names(&TreePath::parse("/héllo/wörld/日本語")),
        vec!["héllo", "wörld", "日本語"]
    );
}

#[test]
fn a_path_is_written_with_a_separator_before_each_name() {
    assert_eq!(TreePath::root().render(), "/");
    assert_eq!(TreePath::parse("a").render(), "/a");
    assert_eq!(
        TreePath::parse("home//user/./.vimrc/").render(),
        "/home/user/.vimrc"
    );
    let path = TreePath::parse("/tmp/日本語/x y");
    assert_eq!(TreePath::parse(&path.render()), path);
}

#[test]
fn parents_names_and_joins() {
    let path = TreePath::parse("/a/b/c");
    assert_eq!(path.len(), 3);
    assert!(!path.is_root());
    assert!(TreePath::root().is_root());
    assert_eq!(path.file_name(), Some("c"));
    assert_eq!(TreePath::root().file_name(), None);
    assert_eq!(path.parent(), Some(TreePath::parse("/a/b")));
    assert_eq!(TreePath::parse("/a").parent(), Some(TreePath::root()));
    assert_eq!(TreePath::root().parent(), None);
    assert_eq!(path.first_names(0), TreePath::root());
    assert_eq!(path.first_names(2), TreePath::parse("/a/b"));
    assert_eq!(path.first_names(3), path);
    assert_eq!(
        path.join(&TreePath::parse("d/e")),
        TreePath::parse("/a/b/c/d/e")
    );
    assert_eq!(path.join(&TreePath::root()), path);
    assert_eq!(path.join_text("/d//e/"), TreePath::parse("/a/b/c/d/e"));
    assert_eq!(path.clone(), path);
}

#[test]
fn prefixes_are_taken_name_by_name() {
    let path = TreePath::parse("/home/user/.config/nvim");
    assert!(path.starts_with(&TreePath::parse("/home/user")));
    assert!(path.starts_with(&TreePath::root()));
    assert!(path.starts_with(&path));
    assert!(!path.starts_with(&TreePath::parse("/home/use")));
    assert!(!path.starts_with(&TreePath::parse("/home/user/.config/nvim/init.lua")));
    assert!(!TreePath::parse("/home/username").starts_with(&TreePath::parse("/home/user")));

    assert_eq!(
        path.strip_prefix(&TreePath::parse("/home/user")),
        Some(TreePath::parse(".config/nvim"))
    );
    assert_eq!(path.strip_prefix(&path), Some(TreePath::root()));
    assert_eq!(path.strip_prefix(&TreePath::root()), Some(path.clone()));
    assert_eq!(path.strip_prefix(&TreePath::parse("/home/other")), None);
    assert_eq!(path.strip_prefix(&TreePath::parse("/home/use")), None);

    assert!(path.same_as(&TreePath::parse("home/user/.config/nvim/")));
    assert!(!path.same_as(&TreePath::parse("/home/user/.config")));
    assert!(!path.same_as(&TreePath::parse("/home/user/.config/nvi")));
}

#[test]
fn paths_are_ranked_in_the_order_of_a_walk() {
    let rank = |a: &str, b: &str| TreePath::parse(a).rank(&TreePath::parse(b));
    assert_eq!(rank("/a", "/a"), Rank::Same);
    assert_eq!(rank("/a", "/b"), Rank::Before);
    assert_eq!(rank("/b", "/a"), Rank::After);
    // A directory comes before what it holds.
    assert_eq!(rank("/a", "/a/b"), Rank::Before);
    assert_eq!(rank("/a/b", "/a"), Rank::After);
    assert_eq!(rank("/", "/a"), Rank::Before);
    // What a directory holds comes before its later siblings, whatever the
    // characters: `/` does not take part in the order.
    assert_eq!(rank("/.vim/colors", "/.vim-x"), Rank::Before);
    assert_eq!(rank("/.vim/colors", "/.vimrc"), Rank::Before);
    assert_eq!(rank("/a/z", "/a!"), Rank::Before);
    assert_eq!(rank("/a!", "/a/z"), Rank::After);
    assert_eq!(rank("/Z", "/a"), Rank::Before);
    assert_eq!(rank("/a/b/c", "/a/b/d"), Rank::Before);
    assert_eq!(rank("/a/c", "/a/b/d"), Rank::After);
}

#[test]
fn names_are_ranked_by_their_bytes() {
    assert_eq!(rank_names("", ""), Rank::Same);
    assert_eq!(rank_names("", "a"), Rank::Before);
    assert_eq!(rank_names("a", ""), Rank::After);
    assert_eq!(rank_names("abc", "abd"), Rank::Before);
    assert_eq!(rank_names("abc", "ab"), Rank::After);
    assert_eq!(rank_names("Z", "a"), Rank::Before);
    assert_eq!(rank_names("z", "é"), Rank::Before);
    assert_eq!(rank_names("é", "日"), Rank::Before);
    assert_eq!(rank_names("日本", "日本"), Rank::Same);
    assert_eq!(rank_bytes(&[1, 2, 3], &[1, 2, 3]), Rank::Same);
    assert_eq!(rank_bytes(&[1, 2], &[1, 2, 0]), Rank::Before);
    assert_eq!(rank_bytes(&[255], &[1, 2, 0]), Rank::After);
    assert_eq!(rank_bytes(&[], &[]), Rank::Same);
}

#[test]
fn numbers_are_written_in_decimal() {
    assert_eq!(decimal_text(0), "0");
    assert_eq!(decimal_text(7), "7");
    assert_eq!(decimal_text(10), "10");
    assert_eq!(decimal_text(1234567890), "1234567890");
    assert_eq!(decimal_text(u32::MAX), "4294967295");
    assert_eq!(signed_decimal_text(0), "0");
    assert_eq!(signed_decimal_text(-1), "-1");
    assert_eq!(signed_decimal_text(255), "255");
    assert_eq!(signed_decimal_text(i32::MAX), "2147483647");
    assert_eq!(signed_decimal_text(i32::MIN), "-2147483648");
    assert_eq!(signed_decimal_text(-1000), "-1000");
}
