use samanthi::task::keyboard::{init_memory_fs, join_paths, MemoryFile, MemoryFs};
use samanthi::vga_buffer::{str_eq, Color, ColorCode};

#[test]
fn colors_parse_from_their_names() {
    assert_eq!(Color::from_string("red"), Some(Color::Red));
    assert_eq!(Color::from_string("black"), Some(Color::Black));
    assert_eq!(Color::from_string("yellow"), Some(Color::Yellow));
    assert_eq!(Color::from_string("magenta"), Some(Color::Magenta));
    assert_eq!(Color::from_string("chartreuse"), None);
    assert_eq!(Color::from_string(""), None);
    assert_eq!(Color::from_string("Red"), None);
}

#[test]
fn color_codes_pack_background_high() {
    assert_eq!(ColorCode::new(Color::Yellow, Color::Black).value, 0x0E);
    assert_eq!(ColorCode::new(Color::White, Color::Blue).value, 0x1F);
    assert_eq!(ColorCode::new(Color::Black, Color::Black).value, 0x00);
}

#[test]
fn string_equality_is_by_characters() {
    assert!(str_eq("abc", "abc"));
    assert!(!str_eq("abc", "abd"));
    assert!(!str_eq("abc", "ab"));
    assert!(str_eq("", ""));
}

#[test]
fn paths_join_with_one_separator() {
    let mut out = String::new();
    join_paths("/", "wallpaper", &mut out);
    assert_eq!(out, "/wallpaper");
    join_paths("/a", "b", &mut out);
    assert_eq!(out, "/a/b");
    join_paths("/a/", "b", &mut out);
    assert_eq!(out, "/a/b");
    join_paths("/a", "/x", &mut out);
    assert_eq!(out, "/x");
    join_paths("/a", "b/", &mut out);
    assert_eq!(out, "/a/b");
}

#[test]
fn memory_fs_serves_the_boot_assets() {
    let fs = init_memory_fs(b"wall", b"one", b"two", b"car");
    assert_eq!(fs.get("/wallpaper").expect("present").as_ref(), b"wall");
    assert_eq!(fs.get("/anime").expect("present").as_ref(), b"one");
    assert_eq!(fs.get("/anime2").expect("present").as_ref(), b"two");
    assert_eq!(fs.get("/car").expect("present").as_ref(), b"car");
    assert!(fs.get("/missing").is_none());
}

#[test]
fn memory_fs_insert_shadows_older_entries() {
    let mut fs = MemoryFs::new();
    fs.insert(String::from("/note"), MemoryFile::Dynamic(b"old".to_vec()));
    fs.insert(String::from("/note"), MemoryFile::Dynamic(b"new".to_vec()));
    assert_eq!(fs.get("/note").expect("present").as_ref(), b"new");
}
