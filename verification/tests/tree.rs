use bevytor::assets::AssetType;
use bevytor::directory::{AssetDirectory, TreeEntry};
use bevytor::editor::EditorStateLabel;
use bevytor::loader::{load_assets_system, WalkEntry};

fn load(root: &mut AssetDirectory, entries: Vec<WalkEntry>) -> Vec<WalkEntry> {
    let mut state = EditorStateLabel::InitializingAssets;
    let refused = load_assets_system(root, entries, &mut state);
    assert_eq!(state, EditorStateLabel::PostInitializingAssets);
    refused
}

fn dir(path: &str) -> AssetDirectory {
    AssetDirectory::new(path.to_string())
}

fn walk_dir(path: &str) -> WalkEntry {
    WalkEntry { path: path.to_string(), is_dir: true, bevy_handle: 0, egui_texture_id: 0 }
}

fn walk_file(path: &str, handle: u64) -> WalkEntry {
    WalkEntry { path: path.to_string(), is_dir: false, bevy_handle: handle, egui_texture_id: handle + 100 }
}

fn sample_tree() -> AssetDirectory {
    let mut root = dir("root");
    assert!(root.try_insert("root/a", true, 0, 0));
    assert!(root.try_insert("root/b", true, 0, 0));
    assert!(root.try_insert("root/a/x", true, 0, 0));
    assert!(root.try_insert("root/a/y", true, 0, 0));
    assert!(root.try_insert("root/b/z", true, 0, 0));
    root
}

fn preorder(dir: &AssetDirectory, out: &mut Vec<String>) {
    out.push(dir.get_path());
    for child in dir.children_directories.iter() {
        preorder(child, out);
    }
}

#[test]
fn new_directory_is_named_by_its_last_segment() {
    let d = dir("game/assets");
    assert_eq!(d.get_name(), "assets");
    assert_eq!(d.get_path(), "game/assets");
    assert!(d.children_directories.is_empty());
    assert!(d.assets.is_empty());
}

#[test]
fn directory_goes_below_its_parent() {
    let mut root = dir("root");
    assert!(root.try_insert_directory(dir("root/a")).is_ok());
    assert!(root.try_insert_directory(dir("root/a/b")).is_ok());
    assert_eq!(root.children_directories.len(), 1);
    assert_eq!(root.children_directories[0].get_path(), "root/a");
    assert_eq!(root.children_directories[0].children_directories.len(), 1);
    assert_eq!(root.children_directories[0].children_directories[0].get_path(), "root/a/b");
    assert_eq!(root.children_directories[0].children_directories[0].get_name(), "b");
}

#[test]
fn directory_without_parent_in_tree_comes_back() {
    let mut root = dir("root");
    let back = root.try_insert_directory(dir("root/a/b")).expect_err("no parent in the tree");
    assert_eq!(back.get_path(), "root/a/b");
    assert!(root.children_directories.is_empty());
    let back = root.try_insert_directory(dir("elsewhere")).expect_err("no parent at all");
    assert_eq!(back.get_path(), "elsewhere");
    let back = root.try_insert_directory(dir("root")).expect_err("the root itself");
    assert_eq!(back.get_path(), "root");
    assert!(root.children_directories.is_empty());
}

#[test]
fn asset_goes_into_the_directory_of_its_path() {
    let mut root = sample_tree();
    let asset = AssetType::try_create("root/a/y/leaf.png", 1, 2).expect("an image");
    assert!(root.try_insert_asset(asset).is_ok());
    let y = root.find_by_path("root/a/y").expect("root/a/y");
    assert_eq!(y.assets.len(), 1);
    assert_eq!(y.assets[0].get_path(), "root/a/y/leaf.png");
    assert_eq!(root.assets.len(), 0);
}

#[test]
fn asset_without_directory_comes_back() {
    let mut root = sample_tree();
    let asset = AssetType::try_create("root/c/leaf.png", 1, 2).expect("an image");
    let back = root.try_insert_asset(asset).expect_err("no such directory");
    assert_eq!(back.get_path(), "root/c/leaf.png");
}

#[test]
fn entries_keep_their_order_of_insertion() {
    let root = sample_tree();
    let mut paths = Vec::new();
    preorder(&root, &mut paths);
    assert_eq!(paths, vec!["root", "root/a", "root/a/x", "root/a/y", "root/b", "root/b/z"]);
}

#[test]
fn try_insert_refuses_unsupported_files_and_orphans() {
    let mut root = sample_tree();
    assert!(!root.try_insert("root/a/readme.txt", false, 0, 0));
    assert!(!root.try_insert("root/missing/leaf.png", false, 0, 0));
    assert!(!root.try_insert("root/missing/dir", true, 0, 0));
    assert!(!root.try_insert("root", true, 0, 0));
    let mut paths = Vec::new();
    preorder(&root, &mut paths);
    assert_eq!(paths.len(), 6);
    assert!(root.try_insert("root/b/z/level.ron", false, 0, 0));
    assert_eq!(root.find_by_path("root/b/z").expect("root/b/z").assets.len(), 1);
}

#[test]
fn try_insert_entry_hands_back_what_it_cannot_place() {
    let mut root = dir("root");
    match root.try_insert_entry(TreeEntry::Directory(dir("other/a"))) {
        Err(TreeEntry::Directory(back)) => assert_eq!(back.get_path(), "other/a"),
        _ => panic!("expected the directory back"),
    }
    assert!(root.try_insert_entry(TreeEntry::Directory(dir("root/a"))).is_ok());
}

#[test]
fn place_puts_the_entry_where_told() {
    let mut root = sample_tree();
    let parent = "root/b".to_string();
    assert!(root.place(&parent, TreeEntry::Directory(dir("anything"))).is_ok());
    let b = root.find_by_path("root/b").expect("root/b");
    assert_eq!(b.children_directories.len(), 2);
    assert_eq!(b.children_directories[1].get_path(), "anything");
    let missing = "root/none".to_string();
    assert!(root.place(&missing, TreeEntry::Directory(dir("anything"))).is_err());
}

#[test]
fn find_by_path_finds_every_inserted_directory_and_nothing_else() {
    let root = sample_tree();
    for path in ["root", "root/a", "root/a/x", "root/a/y", "root/b", "root/b/z"] {
        let found = root.find_by_path(path).expect(path);
        assert_eq!(found.get_path(), path);
    }
    for path in ["", "roo", "root/", "root/c", "root/a/x/", "root/a/z", "a"] {
        assert!(root.find_by_path(path).is_none());
    }
}

#[test]
fn find_by_path_returns_the_subtree() {
    let root = sample_tree();
    let a = root.find_by_path("root/a").expect("root/a");
    assert_eq!(a.get_name(), "a");
    assert_eq!(a.children_directories.len(), 2);
}

#[test]
fn find_by_predicate_searches_parents_first_then_children_in_order() {
    let root = sample_tree();
    let first_leaf = root
        .find_by_predicate(&|d: &AssetDirectory| d.children_directories.is_empty())
        .expect("a leaf");
    assert_eq!(first_leaf.get_path(), "root/a/x");
    let with_two = root
        .find_by_predicate(&|d: &AssetDirectory| d.children_directories.len() == 2)
        .expect("a directory with two children");
    assert_eq!(with_two.get_path(), "root");
    let named_z = root
        .find_by_predicate(&|d: &AssetDirectory| d.get_name() == "z")
        .expect("z");
    assert_eq!(named_z.get_path(), "root/b/z");
    assert!(root.find_by_predicate(&|d: &AssetDirectory| d.get_name() == "nope").is_none());
}

#[test]
fn find_by_predicate_mut_looks_one_level_deep() {
    let mut root = sample_tree();
    {
        let b = root
            .find_by_predicate_mut(|d: &AssetDirectory| d.get_name() == "b")
            .expect("root/b");
        b.name = "renamed".to_string();
    }
    assert_eq!(root.children_directories[1].get_name(), "renamed");
    assert!(root.find_by_predicate_mut(|d: &AssetDirectory| d.get_name() == "x").is_none());
    let me = root
        .find_by_predicate_mut(|d: &AssetDirectory| d.get_name() == "root")
        .expect("the root");
    assert_eq!(me.get_path(), "root");
}

#[test]
fn directories_are_equal_when_their_paths_are() {
    let mut a = dir("root/a");
    let b = dir("root/a");
    assert!(a.try_insert("root/a/x", true, 0, 0));
    assert!(a == b);
    assert!(a != dir("root/b"));
}

#[test]
fn out_of_order_entries_still_land_in_the_tree() {
    let mut root = dir("root");
    let entries = vec![walk_file("root/a/b/leaf.png", 5), walk_dir("root/a"), walk_dir("root/a/b")];
    let refused = load(&mut root, entries);
    assert!(refused.is_empty());
    let b = root.find_by_path("root/a/b").expect("root/a/b");
    assert_eq!(b.assets.len(), 1);
    assert_eq!(b.assets[0].get_name(), "leaf.png");
    assert_eq!(b.assets[0].get_path(), "root/a/b/leaf.png");
    match &b.assets[0] {
        AssetType::Image(image) => {
            assert_eq!(image.bevy_handle, 5);
            assert_eq!(image.egui_texture_id, 105);
        }
        AssetType::Scene(_) => panic!("expected an image"),
    }
    assert_eq!(root.children_directories.len(), 1);
    assert_eq!(root.children_directories[0].get_path(), "root/a");
}

#[test]
fn single_pass_in_arrival_order_drops_early_entries() {
    let mut root = dir("root");
    assert!(!root.try_insert("root/a/b/leaf.png", false, 5, 105));
    assert!(root.try_insert("root/a", true, 0, 0));
    assert!(root.try_insert("root/a/b", true, 0, 0));
    assert!(root.find_by_path("root/a/b").expect("root/a/b").assets.is_empty());
}

#[test]
fn offer_all_is_one_pass() {
    let mut root = dir("root");
    let entries = vec![walk_dir("root/a/b"), walk_dir("root/a"), walk_file("root/a/note.txt", 0)];
    let refused = root.offer_all(&entries);
    let refused_paths: Vec<&str> = refused.iter().map(|e| e.path.as_str()).collect();
    assert_eq!(refused_paths, vec!["root/a/b", "root/a/note.txt"]);
    assert!(root.find_by_path("root/a").is_some());
    assert!(root.find_by_path("root/a/b").is_none());
}

#[test]
fn load_assets_refuses_the_root_itself_orphans_and_unsupported_files() {
    let mut root = dir("root");
    let entries = vec![
        walk_dir("root"),
        walk_dir("root/deep/er"),
        walk_file("root/readme.md", 0),
        walk_dir("root/a"),
        walk_file("root/a/level.ron", 0),
        walk_dir("elsewhere/x"),
    ];
    let refused = load(&mut root, entries);
    let refused_paths: Vec<&str> = refused.iter().map(|e| e.path.as_str()).collect();
    assert_eq!(refused_paths, vec!["root", "root/deep/er", "root/readme.md", "elsewhere/x"]);
    assert_eq!(root.children_directories.len(), 1);
    assert_eq!(root.children_directories[0].assets.len(), 1);
}

#[test]
fn listing_with_unique_paths_gives_one_node_per_directory() {
    let listing = ["root/b/z", "root/a/x", "root/b", "root/a", "root/a/y", "root/a/y/deep"];
    let mut root = dir("root");
    let refused = load(&mut root, listing.iter().map(|p| walk_dir(p)).collect());
    assert!(refused.is_empty());
    let mut paths = Vec::new();
    preorder(&root, &mut paths);
    assert_eq!(paths.len(), listing.len() + 1);
    for path in listing {
        assert_eq!(paths.iter().filter(|p| p.as_str() == path).count(), 1);
        assert_eq!(root.find_by_path(path).expect(path).get_path(), path);
    }
    assert!(root.find_by_path("root/c").is_none());
    assert!(root.find_by_path("root/a/y/deep/er").is_none());
}

#[test]
fn cloned_walk_entry_is_the_same_entry() {
    let entry = walk_file("root/a.png", 3);
    let copy = entry.clone();
    assert_eq!(copy.path, "root/a.png");
    assert!(!copy.is_dir);
    assert_eq!(copy.bevy_handle, 3);
    assert_eq!(copy.egui_texture_id, 103);
}

#[test]
fn of_two_directories_with_one_path_the_first_is_found_and_filled() {
    let mut root = dir("root");
    assert!(root.try_insert("root/a", true, 0, 0));
    assert!(root.try_insert("root/a", true, 0, 0));
    assert_eq!(root.children_directories.len(), 2);
    assert!(root.try_insert("root/a/x", true, 0, 0));
    assert!(root.try_insert("root/a/pic.png", false, 1, 2));
    assert_eq!(root.children_directories[0].children_directories.len(), 1);
    assert_eq!(root.children_directories[0].assets.len(), 1);
    assert!(root.children_directories[1].children_directories.is_empty());
    assert!(root.children_directories[1].assets.is_empty());
    let found = root.find_by_path("root/a").expect("root/a");
    assert_eq!(found.children_directories.len(), 1);
}

#[test]
fn entry_goes_to_the_end_of_what_its_directory_holds() {
    let mut root = sample_tree();
    assert!(root.try_insert("root/a/w", true, 0, 0));
    let a = root.find_by_path("root/a").expect("root/a");
    let names: Vec<String> = a.children_directories.iter().map(|d| d.get_name()).collect();
    assert_eq!(names, vec!["x", "y", "w"]);
    assert!(root.try_insert("root/a/one.png", false, 1, 1));
    assert!(root.try_insert("root/a/two.ron", false, 0, 0));
    let a = root.find_by_path("root/a").expect("root/a");
    let assets: Vec<String> = a.assets.iter().map(|asset| asset.get_name()).collect();
    assert_eq!(assets, vec!["one.png", "two.ron"]);
}

#[test]
fn trees_match_when_shape_and_paths_are_the_same() {
    let a = sample_tree();
    let mut b = sample_tree();
    assert!(a.paths_match(&b));
    assert!(b.paths_match(&a));
    assert!(b.try_insert("root/b/z/level.ron", false, 0, 0));
    assert!(a.paths_match(&b));
    assert!(b.try_insert("root/b/extra", true, 0, 0));
    assert!(!a.paths_match(&b));
    assert!(!b.paths_match(&a));
    assert!(a == b);
}

#[test]
fn trees_with_other_paths_or_another_order_do_not_match() {
    let mut a = dir("root");
    let mut b = dir("root");
    assert!(a.try_insert("root/x", true, 0, 0));
    assert!(a.try_insert("root/y", true, 0, 0));
    assert!(b.try_insert("root/y", true, 0, 0));
    assert!(b.try_insert("root/x", true, 0, 0));
    assert!(!a.paths_match(&b));
    assert!(!dir("root").paths_match(&dir("other")));
    assert!(dir("root").paths_match(&dir("root")));
}
