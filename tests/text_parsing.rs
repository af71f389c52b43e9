use freedesktop_icon::{
    base_directory_candidates, data_dirs_from, dir_from, join_path, parse_u32, parse_u8, split_list,
    DEFAULT_DATA_DIRS,
};

#[test]
fn split_list_separates_at_each_comma() {
    assert_eq!(split_list("hicolor,Adwaita", ','), vec!["hicolor".to_string(), "Adwaita".to_string()]);
    assert_eq!(split_list("a,,b,", ','), vec!["a".to_string(), "".to_string(), "b".to_string(), "".to_string()]);
    assert_eq!(split_list("one", ','), vec!["one".to_string()]);
}

#[test]
fn split_list_of_empty_text_is_empty() {
    assert!(split_list("", ',').is_empty());
}

#[test]
fn parse_u32_reads_decimal_numbers() {
    assert_eq!(parse_u32("48"), Some(48));
    assert_eq!(parse_u32("+7"), Some(7));
    assert_eq!(parse_u32("007"), Some(7));
    assert_eq!(parse_u32("4294967295"), Some(u32::MAX));
}

#[test]
fn parse_u32_rejects_what_str_parse_rejects() {
    for s in ["", "+", "-1", "12a", " 1", "4294967296", "99999999999999999999"] {
        assert_eq!(parse_u32(s), None, "{}", s);
        assert_eq!(parse_u32(s), s.parse::<u32>().ok(), "{}", s);
    }
}

#[test]
fn parse_u8_bounds() {
    assert_eq!(parse_u8("2"), Some(2));
    assert_eq!(parse_u8("255"), Some(255));
    assert_eq!(parse_u8("256"), None);
    assert_eq!(parse_u8("x"), None);
}

#[test]
fn join_path_follows_pathbuf_push() {
    assert_eq!(join_path("/usr/share", "icons"), "/usr/share/icons");
    assert_eq!(join_path("/usr/share/", "icons"), "/usr/share/icons");
    assert_eq!(join_path("", "icons"), "icons");
    assert_eq!(join_path("/usr/share", "/opt"), "/opt");
    for (a, b) in [("/usr/share", "icons"), ("/x/", "y"), ("", "z"), ("/a", "/b")] {
        let mut p = std::path::PathBuf::from(a);
        p.push(b);
        assert_eq!(join_path(a, b), p.to_str().unwrap());
    }
}

#[test]
fn data_dirs_default_and_split() {
    assert_eq!(data_dirs_from(None), vec!["/usr/local/share".to_string(), "/usr/share".to_string()]);
    assert_eq!(DEFAULT_DATA_DIRS, "/usr/local/share:/usr/share");
    assert_eq!(data_dirs_from(Some("/a:/b:/c")), vec!["/a".to_string(), "/b".to_string(), "/c".to_string()]);
    assert_eq!(data_dirs_from(Some("")), vec!["".to_string()]);
}

#[test]
fn base_dir_from_variable_or_home() {
    assert_eq!(dir_from(Some("/x/cache"), "/home/u", ".cache"), "/x/cache");
    assert_eq!(dir_from(None, "/home/u", ".cache"), "/home/u/.cache");
    assert_eq!(dir_from(None, "/home/u", ".local/share"), "/home/u/.local/share");
}

#[test]
fn base_directory_candidates_in_order() {
    assert_eq!(
        base_directory_candidates(Some("/a:/b"), Some("/h")),
        vec!["/a".to_string(), "/b".to_string(), "/h".to_string()]
    );
    assert_eq!(base_directory_candidates(None, Some("/h")), vec!["/h".to_string()]);
    assert!(base_directory_candidates(None, None).is_empty());
}
