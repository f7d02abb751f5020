use escpos_assets::names::{chars_eq, file_stem, storage_name, variant_name};

fn chars(s: &str) -> Vec<char> {
    s.chars().collect()
}

#[test]
fn stem_strips_directory_and_extension() {
    assert_eq!(file_stem(&chars("icons/start.png")), chars("start"));
    assert_eq!(file_stem(&chars("a/b/c/logo.jpeg")), chars("logo"));
}

#[test]
fn stem_keeps_hidden_file_name() {
    assert_eq!(file_stem(&chars(".gitignore")), chars(".gitignore"));
    assert_eq!(file_stem(&chars("dir/.hidden")), chars(".hidden"));
}

#[test]
fn stem_takes_last_dot_only() {
    assert_eq!(file_stem(&chars("a.b.c")), chars("a.b"));
    assert_eq!(file_stem(&chars("x/archive.tar.gz")), chars("archive.tar"));
}

#[test]
fn stem_without_extension_or_directory() {
    assert_eq!(file_stem(&chars("noext")), chars("noext"));
    assert_eq!(file_stem(&chars("trailing.")), chars("trailing"));
}

#[test]
fn variant_name_is_upper_camel() {
    assert_eq!(variant_name(&chars("icons/start-icon.png")), chars("StartIcon"));
    assert_eq!(variant_name(&chars("a_2.png")), chars("A2"));
    assert_eq!(variant_name(&chars("foo.png")), chars("Foo"));
}

#[test]
fn storage_name_is_shouty_snake() {
    assert_eq!(storage_name(&chars("icons/start-icon.png")), chars("START_ICON"));
    assert_eq!(storage_name(&chars("a_2.png")), chars("A_2"));
}

#[test]
fn chars_eq_compares_contents() {
    assert!(chars_eq(&chars("Start"), &chars("Start")));
    assert!(!chars_eq(&chars("Start"), &chars("start")));
    assert!(!chars_eq(&chars("Start"), &chars("Star")));
    assert!(chars_eq(&chars(""), &chars("")));
}
