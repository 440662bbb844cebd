use kvstore::meta::{get_meta_file, meta_extension};

#[test]
fn file_keeps_its_extension() {
    assert_eq!(get_meta_file("Assets/player.png", false), Some("Assets/player.png.meta".to_string()));
}

#[test]
fn directory_gets_meta_extension() {
    assert_eq!(get_meta_file("Assets/Sprites", true), Some("Assets/Sprites.meta".to_string()));
}

#[test]
fn file_without_extension_has_none() {
    assert_eq!(get_meta_file("Assets/README", false), None);
}

#[test]
fn meta_extension_appends() {
    assert_eq!(meta_extension("txt"), "txt.meta".to_string());
    assert_eq!(meta_extension(""), ".meta".to_string());
}
