use git_multi_index::multi_index::paths::{
    check_file_names, components_of, file_name_of, sort_paths, sorted_file_names, Component,
};
use std::path::Path;

fn p(s: &str) -> Vec<u8> {
    s.as_bytes().to_vec()
}

#[test]
fn file_name_is_the_last_component() {
    assert_eq!(file_name_of(&p("a/b/pack-1.idx")), Some(p("pack-1.idx")));
    assert_eq!(file_name_of(&p("pack-1.idx")), Some(p("pack-1.idx")));
    assert_eq!(file_name_of(&p("/pack-1.idx")), Some(p("pack-1.idx")));
    assert_eq!(file_name_of(&p("a/...")), Some(p("...")));
    assert_eq!(file_name_of(&p("a/.b")), Some(p(".b")));
}

#[test]
fn separators_and_dots_at_the_end_do_not_count() {
    assert_eq!(file_name_of(&p("a/")), Some(p("a")));
    assert_eq!(file_name_of(&p("a//")), Some(p("a")));
    assert_eq!(file_name_of(&p("a/.")), Some(p("a")));
    assert_eq!(file_name_of(&p("a/b/./")), Some(p("b")));
    assert_eq!(file_name_of(&p("a//b")), Some(p("b")));
}

#[test]
fn paths_without_a_file_name() {
    assert_eq!(file_name_of(&p("")), None);
    assert_eq!(file_name_of(&p("/")), None);
    assert_eq!(file_name_of(&p("a/..")), None);
    assert_eq!(file_name_of(&p("..")), None);
    assert_eq!(file_name_of(&p(".")), None);
    assert_eq!(file_name_of(&p("./")), None);
    assert_eq!(file_name_of(&p("/.")), None);
}

fn kinds(path: &str) -> Vec<String> {
    components_of(path.as_bytes())
        .into_iter()
        .map(|c| match c {
            Component::RootDir => "/".to_string(),
            Component::CurDir => ".".to_string(),
            Component::ParentDir => "..".to_string(),
            Component::Normal(name) => format!("<{}>", String::from_utf8(name).expect("text")),
        })
        .collect()
}

#[test]
fn components_of_paths() {
    assert_eq!(kinds("a/b"), vec!["<a>", "<b>"]);
    assert_eq!(kinds("/a//b/"), vec!["/", "<a>", "<b>"]);
    assert_eq!(kinds("./a/./b/."), vec![".", "<a>", "<b>"]);
    assert_eq!(kinds("/./a"), vec!["/", "<a>"]);
    assert_eq!(kinds("../a/.."), vec!["..", "<a>", ".."]);
    assert_eq!(kinds("..."), vec!["<...>"]);
    assert_eq!(kinds("//"), vec!["/"]);
    assert_eq!(kinds(""), Vec::<String>::new());
    assert_eq!(kinds("."), vec!["."]);
}

#[test]
fn paths_are_sorted_by_their_components() {
    let paths = vec![p("z/c.idx"), p("a/b.idx"), p("a/a.idx"), p("a.idx")];
    assert_eq!(sort_paths(&paths), vec![2, 1, 3, 0]);
    let paths = vec![p("a-b"), p("a/b")];
    assert_eq!(sort_paths(&paths), vec![1, 0]);
}

#[test]
fn equal_paths_keep_their_order() {
    let paths = vec![p("b"), p("a"), p("b"), p("a")];
    assert_eq!(sort_paths(&paths), vec![1, 3, 0, 2]);
    let paths = vec![p("a//b"), p("a/b/"), p("a/./b"), p("a/b")];
    assert_eq!(sort_paths(&paths), vec![0, 1, 2, 3]);
}

#[test]
fn a_prefix_sorts_first() {
    let paths = vec![p("ab"), p("a"), p(""), p("abc")];
    assert_eq!(sort_paths(&paths), vec![2, 1, 0, 3]);
    let paths = vec![p("a/b/c"), p("a/b"), p("a")];
    assert_eq!(sort_paths(&paths), vec![2, 1, 0]);
}

#[test]
fn the_order_and_the_names_are_those_of_the_standard_library() {
    let texts = [
        "a/b", "a-b", "a", "a/", "a//b", "./a", "/a", "", ".", "..", "a/..", "a/./b", "b", "/", "//a/",
        "a.b", "a/b/c", "a b", "A", "../a", "./", "/.", "a/.", "...", "packs/pack-2.idx",
        "packs/pack-10.idx", "packs-old/pack-1.idx", "packs/sub/pack-0.idx", "\u{e4}", "/..",
    ];
    let paths: Vec<Vec<u8>> = texts.iter().map(|t| p(t)).collect();
    let mut expected: Vec<usize> = (0..texts.len()).collect();
    expected.sort_by(|i, j| Path::new(texts[*i]).cmp(Path::new(texts[*j])));
    assert_eq!(sort_paths(&paths), expected);
    for (text, path) in texts.iter().zip(paths.iter()) {
        let name = Path::new(text).file_name().map(|n| p(n.to_str().expect("text")));
        assert_eq!(file_name_of(path), name, "{}", text);
    }
}

#[test]
fn no_paths_give_no_order() {
    let paths: Vec<Vec<u8>> = Vec::new();
    assert_eq!(sort_paths(&paths), Vec::<usize>::new());
}

#[test]
fn file_names_follow_the_order() {
    let paths = vec![p("x/pack-b.idx"), p("x/pack-a.idx"), p("pack-c.idx")];
    let order = sort_paths(&paths);
    assert_eq!(order, vec![2, 1, 0]);
    assert_eq!(
        sorted_file_names(&paths, &order),
        vec![p("pack-c.idx"), p("pack-a.idx"), p("pack-b.idx")]
    );
}

#[test]
fn file_names_are_checked() {
    assert!(check_file_names(&vec![p("a/b"), p("c")]));
    assert!(check_file_names(&vec![p("a/b"), p("c/")]));
    assert!(!check_file_names(&vec![p("a/b"), p("c/..")]));
    assert!(check_file_names(&Vec::new()));
}
