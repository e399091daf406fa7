//! Paths: their normal form, containment, and the user's directories.

use mcp_toolkit::components::{components, is_absolute, Component, Platform, PrefixKind};
use mcp_toolkit::paths::{
    cache_dir, case_insensitive_filesystem, config_dir, home_dir, is_within, is_within_with,
    join_path, normalize, resolve_for_comparison, show_path, ssh_dir, strip_verbatim,
    UserVariables,
};

fn none() -> UserVariables {
    UserVariables {
        home: None,
        userprofile: None,
        homedrive: None,
        homepath: None,
        localappdata: None,
        appdata: None,
        xdg_cache_home: None,
        xdg_config_home: None,
    }
}

fn set(value: &str) -> Option<String> {
    Some(value.to_string())
}

fn path(value: &str) -> Option<Vec<u8>> {
    Some(value.as_bytes().to_vec())
}

fn within(path: &str, root: &str, case_insensitive: bool) -> bool {
    is_within_with(path.as_bytes(), root.as_bytes(), case_insensitive, Platform::Unix)
}

fn normal(path: &str, platform: Platform) -> String {
    String::from_utf8(normalize(path.as_bytes(), platform)).unwrap()
}

fn joined(base: &str, name: &str, platform: Platform) -> String {
    String::from_utf8(join_path(base.as_bytes(), name.as_bytes(), platform)).unwrap()
}

#[test]
fn normalisation_collapses_dot_segments() {
    assert_eq!(normalize(b"/a/b/../c/./d", Platform::Unix), b"/a/c/d");
    assert_eq!(normalize(b"/a/../..", Platform::Unix), b"/");
}

#[test]
fn a_path_inside_a_root_is_within_it() {
    assert!(within("/data/sub/f.txt", "/data", false));
    assert!(within("/data", "/data", false));
}

#[test]
fn a_sibling_with_a_shared_textual_prefix_is_not_within() {
    assert!(!within("/data-private/x", "/data", false));
    assert!(!within("/database/x", "/data", false));
}

#[test]
fn a_path_outside_the_root_is_rejected() {
    assert!(!within("/etc/passwd", "/data", false));
    assert!(!within("/", "/data", false));
}

#[test]
fn case_sensitivity_follows_the_platform_rule() {
    assert!(!within("/Data/File.txt", "/data", false));
    assert!(within("/Data/File.txt", "/data", true));
}

#[test]
fn windows_verbatim_prefixes_are_stripped_before_comparison() {
    assert!(is_within_with(br"\\?\C:\work\file.txt", br"C:\work", true, Platform::Windows));
    assert!(is_within_with(br"\\?\C:\Work\f.txt", br"c:\work", true, Platform::Windows));
}

#[test]
fn verbatim_unc_paths_are_stripped_to_their_network_form() {
    for platform in [Platform::Windows, Platform::MacOs, Platform::Unix] {
        assert_eq!(
            strip_verbatim(br"\\?\UNC\server\share", platform),
            br"\\server\share"
        );
        assert_eq!(strip_verbatim(br"\\?\C:\x", platform), br"C:\x");
        assert_eq!(strip_verbatim(b"/usr/bin", platform), b"/usr/bin");
    }
}

#[test]
fn home_prefers_home_then_userprofile() {
    let variables = UserVariables { home: set("/home/tester"), ..none() };
    assert_eq!(home_dir(&variables), path("/home/tester"));

    let variables = UserVariables { userprofile: set(r"C:\Users\tester"), ..none() };
    assert_eq!(home_dir(&variables), path(r"C:\Users\tester"));
}

#[test]
fn a_blank_home_is_not_mistaken_for_a_real_one() {
    let variables = UserVariables { home: set("   "), ..none() };
    assert_eq!(home_dir(&variables), None);
}

#[test]
fn the_ssh_directory_hangs_off_the_home_directory() {
    let variables = UserVariables { home: set("/home/tester"), ..none() };
    assert_eq!(ssh_dir(&variables, Platform::Unix), path("/home/tester/.ssh"));
}

#[test]
fn cache_and_config_follow_xdg_on_linux() {
    let variables = UserVariables {
        home: set("/home/tester"),
        xdg_cache_home: set("/custom/cache"),
        ..none()
    };
    assert_eq!(cache_dir(&variables, Platform::Unix), path("/custom/cache"));
    assert_eq!(config_dir(&variables, Platform::Unix), path("/home/tester/.config"));
}

#[test]
fn resolution_falls_back_to_lexical_normalisation_for_absent_paths() {
    let missing = b"/definitely/not/here/../there";
    assert_eq!(resolve_for_comparison(missing, None, Platform::Unix), b"/definitely/not/there");
}

#[test]
fn resolution_takes_what_the_system_found() {
    let found = Some(br"\\?\C:\real".to_vec());
    assert_eq!(resolve_for_comparison(br"C:\link", found, Platform::Windows), br"C:\real");
    let found = Some(b"/private/tmp/x".to_vec());
    assert_eq!(resolve_for_comparison(b"/tmp/x", found, Platform::MacOs), b"/private/tmp/x");
}

#[test]
fn the_drive_and_path_of_a_home_are_put_together() {
    let variables = UserVariables {
        home: set(" "),
        homedrive: set("C:"),
        homepath: set(r"\Users\tester"),
        ..none()
    };
    assert_eq!(home_dir(&variables), path(r"C:\Users\tester"));
    let variables = UserVariables { homedrive: set("C:"), ..none() };
    assert_eq!(home_dir(&variables), None);
}

#[test]
fn cache_and_config_follow_the_platform() {
    let variables = UserVariables {
        home: set("/Users/t"),
        localappdata: set(r"C:\L"),
        appdata: set(r"C:\R"),
        ..none()
    };
    assert_eq!(cache_dir(&variables, Platform::MacOs), path("/Users/t/Library/Caches"));
    assert_eq!(
        config_dir(&variables, Platform::MacOs),
        path("/Users/t/Library/Application Support")
    );
    assert_eq!(cache_dir(&variables, Platform::Windows), path(r"C:\L"));
    assert_eq!(config_dir(&variables, Platform::Windows), path(r"C:\R"));
    assert_eq!(cache_dir(&variables, Platform::Unix), path("/Users/t/.cache"));
    assert_eq!(cache_dir(&none(), Platform::Unix), None);
    assert_eq!(config_dir(&none(), Platform::MacOs), None);
    assert_eq!(ssh_dir(&none(), Platform::Unix), None);
}

#[test]
fn only_windows_and_macos_ignore_case() {
    assert!(case_insensitive_filesystem(Platform::Windows));
    assert!(case_insensitive_filesystem(Platform::MacOs));
    assert!(!case_insensitive_filesystem(Platform::Unix));
    assert!(is_within(b"/Data/x", b"/data", Platform::MacOs));
    assert!(!is_within(b"/Data/x", b"/data", Platform::Unix));
}

#[test]
fn case_is_ignored_beyond_ascii() {
    assert!(within("/\u{c9}t\u{e9}/x", "/\u{e9}t\u{c9}", true));
    assert!(!within("/\u{c9}t\u{e9}/x", "/\u{e9}t\u{c9}", false));
}

#[test]
fn names_that_are_no_text_are_compared_with_replacements() {
    assert!(is_within_with(b"/a\xff/x", b"/a\xff", true, Platform::Unix));
    assert!(is_within_with(b"/A\xff/x", b"/a\xfe", true, Platform::Unix));
    assert!(!is_within_with(b"/a\xff/x", b"/a\xfe", false, Platform::Unix));
}

#[test]
fn normal_paths_stay_as_they_are() {
    for text in ["/", "/a", "/a/b/c", "a/b", ""] {
        assert_eq!(normal(text, Platform::Unix), text);
    }
    assert_eq!(normal("/a//b/", Platform::Unix), "/a/b");
    assert_eq!(normal("../a", Platform::Unix), "a");
    assert_eq!(normal("/../../a", Platform::Unix), "/a");
    assert_eq!(normal("./a/./b/..", Platform::Unix), "a");
}

#[test]
fn windows_paths_are_collapsed_behind_their_prefix() {
    assert_eq!(normal(r"C:\a\..\..\b", Platform::Windows), r"C:\b");
    assert_eq!(normal(r"\\server\share\a\..\b", Platform::Windows), r"\\server\share\b");
    assert_eq!(normal(r"C:/a/./b", Platform::Windows), r"C:\a\b");
}

#[test]
fn what_is_inside_an_inner_directory_is_inside_the_outer_one() {
    assert!(within("/a/b/c", "/a/b", false));
    assert!(within("/a/b", "/a", false));
    assert!(within("/a/b/c", "/a", false));
}

#[test]
fn a_name_is_joined_behind_its_directory() {
    assert_eq!(joined("/a", "b", Platform::Unix), "/a/b");
    assert_eq!(joined("/a/", "b", Platform::Unix), "/a/b");
    assert_eq!(joined("", "b", Platform::Unix), "b");
    assert_eq!(joined("/a", "/b", Platform::Unix), "/b");
    assert_eq!(joined(r"C:\a", "b", Platform::Windows), r"C:\a\b");
    assert_eq!(joined("C:", "b", Platform::Windows), "C:b");
    assert_eq!(joined(r"C:\a", r"\b", Platform::Windows), r"C:\b");
    assert_eq!(joined(r"C:\a", r"D:\b", Platform::Windows), r"D:\b");
    assert!(is_within_with(b"/a/b", b"/a", false, Platform::Unix));
}

#[test]
fn a_path_is_absolute_by_the_rules_of_its_platform() {
    assert!(is_absolute(b"/x", Platform::Unix));
    assert!(!is_absolute(b"x", Platform::Unix));
    assert!(is_absolute(br"C:\x", Platform::Windows));
    assert!(!is_absolute(b"C:x", Platform::Windows));
    assert!(!is_absolute(b"/x", Platform::Windows));
    assert!(is_absolute(br"\\server\share", Platform::Windows));
    assert!(!is_absolute(br"C:\x", Platform::Unix));
}

#[test]
fn a_path_is_read_into_its_components() {
    let parts = components(b"/a/./../b", Platform::Unix);
    assert_eq!(parts.len(), 4);
    assert!(matches!(parts[0], Component::RootDir));
    assert!(matches!(&parts[1], Component::Normal(name) if name == b"a"));
    assert!(matches!(parts[2], Component::ParentDir));
    assert!(matches!(&parts[3], Component::Normal(name) if name == b"b"));

    let parts = components(br"\\?\C:\a/b", Platform::Windows);
    assert_eq!(parts.len(), 3);
    assert!(matches!(
        &parts[0],
        Component::Prefix { parsed, .. } if parsed.kind == PrefixKind::VerbatimDisk
    ));
    assert!(matches!(&parts[2], Component::Normal(name) if name == b"a/b"));
}

/// Every text of up to `length` characters out of a few.
fn texts(alphabet: &[char], length: usize) -> Vec<String> {
    let mut all = vec![String::new()];
    let mut last = all.clone();
    for _ in 0..length {
        let mut next = Vec::new();
        for text in &last {
            for c in alphabet {
                next.push(format!("{text}{c}"));
            }
        }
        all.extend(next.clone());
        last = next;
    }
    all
}

#[test]
fn unix_paths_are_read_as_the_standard_library_reads_them() {
    if std::path::MAIN_SEPARATOR != '/' {
        return;
    }
    for text in texts(&['/', '.', 'a', '\\'], 6) {
        let expected: Vec<String> = std::path::Path::new(&text)
            .components()
            .map(|c| c.as_os_str().to_str().unwrap().to_string())
            .collect();
        let actual: Vec<String> = components(text.as_bytes(), Platform::Unix)
            .iter()
            .map(|c| String::from_utf8(c.bytes(Platform::Unix)).unwrap())
            .collect();
        assert_eq!(actual, expected, "{text:?}");
        assert_eq!(
            is_absolute(text.as_bytes(), Platform::Unix),
            std::path::Path::new(&text).is_absolute(),
            "{text:?}"
        );
    }
}

#[test]
fn unix_paths_are_normalised_as_pushing_and_popping_would() {
    if std::path::MAIN_SEPARATOR != '/' {
        return;
    }
    for text in texts(&['/', '.', 'a'], 7) {
        let mut expected = std::path::PathBuf::new();
        for component in std::path::Path::new(&text).components() {
            match component {
                std::path::Component::ParentDir => {
                    expected.pop();
                }
                std::path::Component::CurDir => {}
                other => expected.push(other),
            }
        }
        assert_eq!(normal(&text, Platform::Unix), expected.to_str().unwrap(), "{text:?}");
        let once = normal(&text, Platform::Unix);
        assert_eq!(normal(&once, Platform::Unix), once);
    }
}

#[test]
fn unix_paths_are_joined_as_the_standard_library_joins_them() {
    if std::path::MAIN_SEPARATOR != '/' {
        return;
    }
    for base in texts(&['/', 'a', '\\'], 3) {
        for name in texts(&['/', 'a', '.'], 3) {
            let expected = std::path::Path::new(&base).join(&name);
            assert_eq!(joined(&base, &name, Platform::Unix), expected.to_str().unwrap());
        }
    }
}

#[test]
fn no_dots_are_left_of_an_absolute_windows_path() {
    for text in texts(&['\\', '/', '.', 'a'], 5) {
        let path = format!(r"C:\{text}");
        let out = normalize(path.as_bytes(), Platform::Windows);
        let parts = components(&out, Platform::Windows);
        assert!(is_absolute(&out, Platform::Windows), "{path}");
        assert!(
            !parts.iter().any(|p| matches!(p, Component::ParentDir | Component::CurDir)),
            "{path}"
        );
        assert_eq!(normalize(&out, Platform::Windows), out);
    }
}

#[test]
fn one_verbatim_prefix_is_stripped() {
    assert_eq!(strip_verbatim(br"\\?\\\?\x", Platform::Windows), br"\\?\x");
    assert_eq!(strip_verbatim(br"\\?\UNC\?\C:\x", Platform::Windows), br"\\?\C:\x");
    assert_eq!(strip_verbatim(b"\\\\?\\a\xffb", Platform::Unix), "a\u{fffd}b".as_bytes());
    assert_eq!(strip_verbatim(br"\\?\UNC", Platform::Windows), b"UNC");
    assert!(!is_within_with(br"\\?\\\?\C:\x", br"C:\x", false, Platform::Windows));
}

#[test]
fn resolving_leaves_no_verbatim_prefix() {
    assert_eq!(resolve_for_comparison(br"\\?\\\?\x", None, Platform::Unix), b"x");
    let found = Some(br"\\?\\\?\C:\x".to_vec());
    assert_eq!(resolve_for_comparison(b"y", found, Platform::Windows), br"C:\x");
    let found = Some(br"\\?\UNC\?\C:\x".to_vec());
    assert_eq!(resolve_for_comparison(b"y", found, Platform::Windows), br"C:\x");
}

#[test]
fn a_lone_surrogate_reads_as_one_replacement() {
    let surrogate: &[u8] = b"a\xed\xa0\x80b";
    assert_eq!(show_path(surrogate, Platform::Windows), "a\u{fffd}b");
    assert_eq!(show_path(surrogate, Platform::Unix), "a\u{fffd}\u{fffd}\u{fffd}b");
    assert_eq!(show_path(b"\xed\x9f\xbf", Platform::Windows), "\u{d7ff}");
    assert_eq!(show_path(b"\xed\xbf\xbf\xed\xa0", Platform::Windows), "\u{fffd}\u{fffd}\u{fffd}");
    assert_eq!(
        strip_verbatim(b"\\\\?\\C:\\\xed\xb0\x80", Platform::Windows),
        "C:\\\u{fffd}".as_bytes()
    );
    assert!(is_within_with(b"C:\\A\xed\xa0\x80", "c:\\a\u{fffd}".as_bytes(), true, Platform::Windows));
    assert!(!is_within_with(
        b"C:\\A\xed\xa0\x80",
        "c:\\a\u{fffd}\u{fffd}\u{fffd}".as_bytes(),
        true,
        Platform::Windows
    ));
}

#[test]
fn a_name_that_is_a_path_takes_over() {
    assert_eq!(normal(r"a\..\C:y", Platform::Windows), "C:y");
    assert_eq!(normal(r"C:\x\D:y\..\z", Platform::Windows), "D:z");
    assert_eq!(normal(r"\\?\x\D:/y", Platform::Windows), r"D:\y");
    for path in [r"a\..\C:y", r"C:\x\D:y\..\z", r"\\?\x\D:/y"] {
        let once = normal(path, Platform::Windows);
        assert_eq!(normal(&once, Platform::Windows), once);
    }
    assert!(!is_absolute(normal(r"C:\D:y", Platform::Windows).as_bytes(), Platform::Windows));
    assert!(is_absolute(normal(r"\\?\x\D:/y", Platform::Windows).as_bytes(), Platform::Windows));
}

#[test]
fn a_name_joined_to_a_verbatim_directory_stays_inside() {
    for base in [
        r"\\?\C:\t",
        r"\\?\C:",
        r"\\?\C:/t",
        r"\\?\C:\a/b\\.\c\",
        r"\\?\UNC\server\share",
        r"\\?\dir",
        r"\\?\",
    ] {
        let path = joined(base, "out.txt", Platform::Windows);
        assert!(
            is_within_with(path.as_bytes(), base.as_bytes(), false, Platform::Windows),
            "{base}"
        );
        let path = joined(base, "out.txt", Platform::Unix);
        assert!(is_within_with(path.as_bytes(), base.as_bytes(), false, Platform::Unix), "{base}");
    }
    assert_eq!(joined(r"\\?\C:\t", "out.txt", Platform::Windows), r"\\?\C:\t\out.txt");
    let path = joined(r"\\?\UNC", "out.txt", Platform::Windows);
    assert!(!is_within_with(path.as_bytes(), br"\\?\UNC", false, Platform::Windows));
}

#[test]
fn blank_parts_of_a_home_count_as_absent() {
    let variables = UserVariables {
        home: set("   "),
        homedrive: set(" "),
        homepath: set(" "),
        ..none()
    };
    assert_eq!(home_dir(&variables), None);
    let variables = UserVariables { homedrive: set("C:"), homepath: set("\t"), ..none() };
    assert_eq!(home_dir(&variables), None);
}

#[test]
fn no_dots_are_left_of_a_verbatim_path() {
    for text in texts(&['\\', '.', 'a'], 5) {
        for start in [r"\\?\C:\", r"\\?\UNC\server\share\"] {
            let path = format!("{start}{text}");
            let out = normalize(path.as_bytes(), Platform::Windows);
            let parts = components(&out, Platform::Windows);
            assert!(
                !parts.iter().any(|p| matches!(p, Component::ParentDir | Component::CurDir)),
                "{path}"
            );
            assert_eq!(normalize(&out, Platform::Windows), out, "{path}");

            let plain = resolve_for_comparison(path.as_bytes(), None, Platform::Windows);
            let parts = components(&plain, Platform::Windows);
            assert!(is_absolute(&plain, Platform::Windows), "{path}");
            assert!(
                !parts.iter().any(|p| matches!(p, Component::ParentDir | Component::CurDir)),
                "{path}"
            );
        }
    }
    assert_eq!(normal(r"\\?\C:\x\a/../b", Platform::Windows), r"\\?\C:\x\b");
    assert_eq!(resolve_for_comparison(br"\\?\C:\x\..\y", None, Platform::Windows), br"C:\y");
}

#[test]
fn a_path_without_dots_is_read_as_before() {
    let path: &[u8] = br"C:/a\\b/";
    let out = normalize(path, Platform::Windows);
    assert_eq!(out, br"C:\a\b");
    let before = components(path, Platform::Windows);
    let after = components(&out, Platform::Windows);
    assert_eq!(before.len(), after.len());
    assert!(before.iter().zip(&after).all(|(a, b)| a.same(b)));
}

#[test]
fn two_paths_inside_each_other_are_the_same() {
    assert!(within("/a//b/", "/a/b", false) && within("/a/b", "/a//b/", false));
    assert!(within("/a/b/c", "/a/b", false) && !within("/a/b", "/a/b/c", false));
    let windows = |a: &[u8], b: &[u8], ci| is_within_with(a, b, ci, Platform::Windows);
    assert!(windows(br"\\s\x\a", br"//s/x/a", false) && windows(br"//s/x/a", br"\\s\x\a", false));
    // A chain through another spelling and another case does not close.
    assert!(windows(b"//s/x", br"\\s\x", true) && windows(br"\\s\x", br"\\S\X", true));
    assert!(!windows(b"//s/x", br"\\S\X", true));
}
