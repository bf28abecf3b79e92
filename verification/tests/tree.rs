use faust::tree::{sort_children, Child, FileTree};

fn child(path: &str, name: &str, is_dir: bool) -> Child {
    Child { path: path.to_owned(), name: name.to_owned(), is_dir }
}

fn names(tree: &mut FileTree) -> Vec<(String, usize)> {
    loop {
        match tree.rows() {
            Ok(rows) => return rows.iter().map(|r| (r.name.clone(), r.depth)).collect(),
            Err(dir) => panic!("no listing for {dir}"),
        }
    }
}

#[test]
fn listings_put_folders_first_then_names_in_any_case() {
    let sorted = sort_children(&vec![
        child("/v/b.md", "b.md", false),
        child("/v/Zed", "Zed", true),
        child("/v/A.md", "A.md", false),
        child("/v/alpha", "alpha", true),
    ]);
    let order: Vec<&str> = sorted.iter().map(|c| c.name.as_str()).collect();
    assert_eq!(order, ["alpha", "Zed", "A.md", "b.md"]);
}

#[test]
fn the_tree_asks_for_the_listings_it_needs() {
    let mut tree = FileTree::new("/v".to_owned());
    assert_eq!(tree.rows().err(), Some("/v".to_owned()));
    tree.supply("/v", vec![child("/v/n.md", "n.md", false), child("/v/d", "d", true)]);
    assert_eq!(names(&mut tree), [("d".to_owned(), 0), ("n.md".to_owned(), 0)]);

    tree.toggle("/v/d");
    assert_eq!(tree.rows().err(), Some("/v/d".to_owned()));
    tree.supply("/v/d", vec![child("/v/d/x.md", "x.md", false)]);
    assert_eq!(names(&mut tree), [("d".to_owned(), 0), ("x.md".to_owned(), 1), ("n.md".to_owned(), 0)]);

    // Collapsing drops the listing; expanding again asks for it again.
    tree.toggle("/v/d");
    assert_eq!(names(&mut tree).len(), 2);
    tree.toggle("/v/d");
    assert_eq!(tree.rows().err(), Some("/v/d".to_owned()));
}

#[test]
fn revealing_expands_every_folder_above() {
    let mut tree = FileTree::new("/v".to_owned());
    tree.supply("/v", vec![child("/v/a", "a", true)]);
    tree.supply("/v/a", vec![child("/v/a/b", "b", true)]);
    tree.supply("/v/a/b", vec![child("/v/a/b/n.md", "n.md", false)]);
    tree.reveal_path("/v/a/b/n.md");
    assert_eq!(
        names(&mut tree),
        [("a".to_owned(), 0), ("b".to_owned(), 1), ("n.md".to_owned(), 2)]
    );
    // Paths outside the vault expand nothing.
    let mut other = FileTree::new("/v".to_owned());
    other.supply("/v", vec![child("/v/a", "a", true)]);
    other.reveal_path("/w/a/n.md");
    assert_eq!(names(&mut other), [("a".to_owned(), 0)]);
}

#[test]
fn invalidating_drops_the_listings_around_a_path() {
    let mut tree = FileTree::new("/v".to_owned());
    tree.supply("/v", vec![child("/v/n.md", "n.md", false)]);
    assert_eq!(names(&mut tree).len(), 1);
    tree.invalidate("/v/n.md");
    assert_eq!(tree.rows().err(), Some("/v".to_owned()));
}

#[test]
fn folders_are_matched_by_their_components() {
    let mut tree = FileTree::new("/v".to_owned());
    tree.supply("/v/", vec![child("/v/a", "a", true)]);
    tree.toggle("/v/a/");
    tree.supply("/v//a", vec![child("/v/a/x.md", "x.md", false)]);
    assert_eq!(names(&mut tree), [("a".to_owned(), 0), ("x.md".to_owned(), 1)]);
    tree.toggle("/v/./a");
    assert_eq!(names(&mut tree), [("a".to_owned(), 0)]);
}
