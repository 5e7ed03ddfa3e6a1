use gemini_browser::paths::bookmarks_path;

fn s(x: &str) -> Option<String> {
    Some(x.to_string())
}

#[test]
fn bookmarks_beside_the_program() {
    assert_eq!(bookmarks_path(s("/opt/gemini"), s("/home/ann")), "/opt/gemini/bookmarks.bin");
    assert_eq!(bookmarks_path(s("/opt/gemini/"), None), "/opt/gemini/bookmarks.bin");
}

#[test]
fn bookmarks_in_home_when_installed_under_usr_bin() {
    assert_eq!(bookmarks_path(s("/usr/bin"), s("/home/ann")), "/home/ann/.gemini_bookmarks.bin");
    assert_eq!(bookmarks_path(s("/usr/bin/tools"), s("/home/ann/")), "/home/ann/.gemini_bookmarks.bin");
    assert_eq!(bookmarks_path(s("//usr/./bin/"), s("/root")), "/root/.gemini_bookmarks.bin");
}

#[test]
fn usr_bin_without_home_stays_beside_the_program() {
    assert_eq!(bookmarks_path(s("/usr/bin"), None), "/usr/bin/bookmarks.bin");
}

#[test]
fn usr_bin_is_matched_by_whole_components() {
    assert_eq!(bookmarks_path(s("/usr/binaries"), s("/home/ann")), "/usr/binaries/bookmarks.bin");
    assert_eq!(bookmarks_path(s("/usr"), s("/home/ann")), "/usr/bookmarks.bin");
    assert_eq!(bookmarks_path(s("usr/bin"), s("/home/ann")), "usr/bin/bookmarks.bin");
    assert_eq!(bookmarks_path(s("/opt/usr/bin"), s("/home/ann")), "/opt/usr/bin/bookmarks.bin");
}

#[test]
fn unknown_program_directory_is_the_current_one() {
    assert_eq!(bookmarks_path(None, s("/home/ann")), "./bookmarks.bin");
    assert_eq!(bookmarks_path(None, None), "./bookmarks.bin");
}

#[test]
fn empty_home_gives_a_relative_file() {
    assert_eq!(bookmarks_path(s("/usr/bin"), s("")), ".gemini_bookmarks.bin");
}

#[test]
fn paths_agree_with_std_path() {
    for dir in ["/usr/bin", "/usr/bin/x", "/usr//bin", "/usr/binx", "/usr", "/", "usr/bin", "/./usr/bin"] {
        let home = "/home/ann";
        let expected = {
            let p = std::path::PathBuf::from(dir);
            if p.starts_with("/usr/bin") {
                std::path::PathBuf::from(home).join(".gemini_bookmarks.bin")
            } else {
                p.join("bookmarks.bin")
            }
        };
        assert_eq!(
            bookmarks_path(s(dir), s(home)),
            expected.to_string_lossy(),
            "directory {}",
            dir
        );
    }
}
