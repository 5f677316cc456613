use luna_nspire::text::{gnu_basename, has_ext, lowercase_ends_with, names_bitmap, str_equal};

#[test]
fn file_names() {
    assert_eq!(gnu_basename("script.py"), "script.py");
    assert_eq!(gnu_basename("/a/b/script.py"), "script.py");
    assert_eq!(gnu_basename("a/"), "");
    assert_eq!(gnu_basename("/"), "");
    assert_eq!(gnu_basename(""), "");
    assert_eq!(gnu_basename("dir\u{e9}/na\u{ef}ve.py"), "na\u{ef}ve.py");
}

#[test]
fn extensions_in_any_case() {
    assert!(has_ext("Problem1.xml", ".xml"));
    assert!(has_ext("a.XmL", ".xml"));
    assert!(has_ext("a.lua", ".LUA"));
    assert!(!has_ext("a.lua", ".xml"));
}

#[test]
fn an_extension_alone_is_none() {
    assert!(!has_ext(".xml", ".xml"));
    assert!(!has_ext("-", ".lua"));
    assert!(!has_ext("", ".lua"));
}

#[test]
fn endings_in_any_case() {
    assert!(lowercase_ends_with("IMAGE.BMP", ".bmp"));
    assert!(lowercase_ends_with(".bmp", ".bmp"));
    assert!(!lowercase_ends_with("bmp", ".bmp"));
    assert!(!lowercase_ends_with("a.bmp.txt", ".bmp"));
    // The ending itself is taken as it is.
    assert!(!lowercase_ends_with("a.BMP", ".BMP"));
}

#[test]
fn endings_outside_ascii() {
    assert!(lowercase_ends_with("\u{c9}T\u{c9}.BMP", "t\u{e9}.bmp"));
    assert!(!lowercase_ends_with("\u{c9}T\u{c9}.BMP", "T\u{c9}.BMP"));
}

#[test]
fn equal_texts() {
    assert!(str_equal("-", "-"));
    assert!(!str_equal("-", "--"));
    assert!(!str_equal("a", "b"));
    assert!(str_equal("", ""));
}

#[test]
fn names_of_bitmaps() {
    assert!(names_bitmap("image.bmp"));
    assert!(names_bitmap("d\u{e9}/IMAGE.BmP"));
    assert!(names_bitmap(".bmp"));
    assert!(!names_bitmap("bmp"));
    assert!(!names_bitmap("a.bmp.txt"));
    assert!(!names_bitmap("a.bm\u{fe}"));
}

#[test]
fn a_path_has_the_extension_of_its_file_name() {
    for path in ["dir/a.xml", "d.lua/p.XML", "x/.xml", "a.xml/"] {
        if has_ext(gnu_basename(path), ".xml") {
            assert!(has_ext(path, ".xml"));
        }
    }
    assert!(has_ext("x/.xml", ".xml") && !has_ext(gnu_basename("x/.xml"), ".xml"));
}
