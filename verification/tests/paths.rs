use bevytor::assets::{AssetDescriptor, AssetKind, AssetType};
use bevytor::path::{extension, file_name, find_last, parent};

#[test]
fn find_last_gives_the_last_occurrence() {
    assert_eq!(find_last("root/a/b", '/'), Some(6));
    assert_eq!(find_last("/", '/'), Some(0));
    assert_eq!(find_last("root", '/'), None);
    assert_eq!(find_last("", '/'), None);
}

#[test]
fn find_last_counts_characters_not_bytes() {
    assert_eq!(find_last("héé/ü", '/'), Some(3));
}

#[test]
fn parent_is_what_precedes_the_last_separator() {
    assert_eq!(parent("root/a/b/leaf.png"), Some("root/a/b".to_string()));
    assert_eq!(parent("root/a"), Some("root".to_string()));
    assert_eq!(parent("/root"), Some("".to_string()));
    assert_eq!(parent("root/"), Some("root".to_string()));
}

#[test]
fn path_without_separator_has_no_parent() {
    assert_eq!(parent("root"), None);
    assert_eq!(parent(""), None);
}

#[test]
fn file_name_is_the_last_segment() {
    assert_eq!(file_name("root/a/b/leaf.png"), "leaf.png");
    assert_eq!(file_name("root"), "root");
    assert_eq!(file_name("root/"), "");
    assert_eq!(file_name(""), "");
}

#[test]
fn extension_follows_the_last_dot_of_the_file_name() {
    assert_eq!(extension("root/a/leaf.png"), Some("png".to_string()));
    assert_eq!(extension("root/a/new_scene.scn.ron"), Some("ron".to_string()));
    assert_eq!(extension("root/a/leaf."), Some("".to_string()));
}

#[test]
fn extension_is_absent_without_a_dot_inside_the_name() {
    assert_eq!(extension("root/a/leaf"), None);
    assert_eq!(extension("root/a/.hidden"), None);
    assert_eq!(extension("root.d/leaf"), None);
    assert_eq!(extension(""), None);
}

#[test]
fn images_and_scenes_are_told_by_extension() {
    assert_eq!(AssetKind::of_path("root/a.png"), Some(AssetKind::Image));
    assert_eq!(AssetKind::of_path("root/a.hdr"), Some(AssetKind::Image));
    assert_eq!(AssetKind::of_path("root/a.ron"), Some(AssetKind::Scene));
    assert_eq!(AssetKind::of_path("root/level.scn.ron"), Some(AssetKind::Scene));
}

#[test]
fn other_files_are_of_no_kind() {
    assert_eq!(AssetKind::of_path("root/a.txt"), None);
    assert_eq!(AssetKind::of_path("root/a.PNG"), None);
    assert_eq!(AssetKind::of_path("root/png"), None);
    assert_eq!(AssetKind::of_path("root/.png"), None);
    assert_eq!(AssetKind::of_path("root/a.pngx"), None);
}

#[test]
fn try_create_makes_an_image_with_its_handles() {
    let asset = AssetType::try_create("root/a/leaf.png", 7, 9).expect("an image");
    assert_eq!(asset.kind(), AssetKind::Image);
    assert_eq!(asset.get_name(), "leaf.png");
    assert_eq!(asset.get_path(), "root/a/leaf.png");
    match asset {
        AssetType::Image(image) => {
            assert_eq!(image.bevy_handle, 7);
            assert_eq!(image.egui_texture_id, 9);
            assert_eq!(image.get_name(), "leaf.png");
            assert_eq!(image.get_path(), "root/a/leaf.png");
        }
        AssetType::Scene(_) => panic!("expected an image"),
    }
}

#[test]
fn try_create_makes_a_scene() {
    let asset = AssetType::try_create("root/level.ron", 7, 9).expect("a scene");
    assert_eq!(asset.kind(), AssetKind::Scene);
    match asset {
        AssetType::Scene(scene) => {
            assert_eq!(scene.get_name(), "level.ron");
            assert_eq!(scene.get_path(), "root/level.ron");
        }
        AssetType::Image(_) => panic!("expected a scene"),
    }
}

#[test]
fn try_create_refuses_unsupported_files() {
    assert!(AssetType::try_create("root/readme.md", 0, 0).is_none());
    assert!(AssetType::try_create("root/noextension", 0, 0).is_none());
}

#[test]
fn clone_of_an_asset_keeps_everything() {
    let asset = AssetType::try_create("root/a/leaf.hdr", 3, 4).expect("an image");
    let copy = asset.clone();
    assert_eq!(copy.get_name(), "leaf.hdr");
    assert_eq!(copy.get_path(), "root/a/leaf.hdr");
    match copy {
        AssetType::Image(image) => {
            assert_eq!(image.bevy_handle, 3);
            assert_eq!(image.egui_texture_id, 4);
        }
        AssetType::Scene(_) => panic!("expected an image"),
    }
}
