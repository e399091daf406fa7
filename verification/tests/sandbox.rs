//! Confinement to permitted directories.

use mcp_toolkit::components::Platform;
use mcp_toolkit::sandbox::{Root, Sandbox, DEFAULT_MAX_FILE_BYTES};
use mcp_toolkit::{ToolFailure, ToolResult};

const ROOT: &str = "/tmp/root";

/// A root that exists under its own path.
fn existing(path: &str) -> Root {
    Root { path: path.as_bytes().to_vec(), canonical: Some(path.as_bytes().to_vec()) }
}

fn rooted(max_file_bytes: u64) -> Sandbox {
    Sandbox::new(vec![existing(ROOT)], max_file_bytes, Platform::Unix)
}

/// Resolves a path that the system finds at `found`, if it does.
fn resolve(sandbox: &Sandbox, raw: &str, found: Option<&str>) -> ToolResult<Vec<u8>> {
    sandbox.resolve(raw, found.map(|f| f.as_bytes().to_vec()), Platform::Unix)
}

#[test]
fn an_empty_root_set_permits_any_absolute_path() {
    let sandbox = Sandbox::unrestricted(1 << 20);
    assert!(resolve(&sandbox, "/etc/hostname", Some("/etc/hostname")).is_ok());
}

#[test]
fn relative_and_empty_paths_are_refused() {
    let sandbox = Sandbox::unrestricted(1 << 20);
    assert!(resolve(&sandbox, "relative/file", None).is_err());
    assert!(resolve(&sandbox, "   ", None).is_err());
}

#[test]
fn paths_inside_a_root_resolve_and_others_are_denied() {
    let sandbox = rooted(1 << 20);
    assert!(resolve(&sandbox, "/tmp/root/f.txt", Some("/tmp/root/f.txt")).is_ok());
    assert!(matches!(
        resolve(&sandbox, "/etc/passwd", Some("/etc/passwd")),
        Err(ToolFailure::Denied(_))
    ));
}

#[test]
fn the_denial_names_the_permitted_directories() {
    let sandbox = rooted(1 << 20);
    let err = resolve(&sandbox, "/etc/passwd", Some("/etc/passwd")).unwrap_err().message();
    assert!(err.contains(ROOT), "{err}");
}

#[test]
fn dot_dot_cannot_escape_a_root() {
    let sandbox = rooted(1 << 20);
    let escape = format!("{}/../../../../etc/passwd", ROOT);
    assert!(matches!(resolve(&sandbox, &escape, None), Err(ToolFailure::Denied(_))));
    assert!(matches!(
        resolve(&sandbox, &escape, Some("/etc/passwd")),
        Err(ToolFailure::Denied(_))
    ));
}

#[test]
fn a_symlink_leaving_the_root_is_denied() {
    let sandbox = rooted(1 << 20);
    assert!(matches!(
        resolve(&sandbox, "/tmp/root/escape", Some("/etc/passwd")),
        Err(ToolFailure::Denied(_))
    ));
}

#[test]
fn a_file_that_does_not_exist_yet_may_still_be_created_inside_a_root() {
    let sandbox = rooted(1 << 20);
    assert!(resolve(&sandbox, "/tmp/root/new.txt", None).is_ok());
}

#[test]
fn a_sibling_directory_sharing_a_prefix_is_not_inside_the_root() {
    let data = Root { path: b"/data".to_vec(), canonical: None };
    let sandbox = Sandbox::new(vec![data], 1 << 20, Platform::Unix);
    assert!(matches!(
        resolve(&sandbox, "/data-private/x", None),
        Err(ToolFailure::Denied(_))
    ));
}

#[test]
fn the_size_ceiling_is_enforced() {
    let path = b"/tmp/root/big";
    let tight = rooted(1024);
    assert!(matches!(tight.check_size(path, Ok(4096), Platform::Unix), Err(ToolFailure::Denied(_))));

    let roomy = rooted(1 << 20);
    assert_eq!(roomy.check_size(path, Ok(4096), Platform::Unix).unwrap(), 4096);
}

#[test]
fn sizing_a_missing_file_reports_the_stat_failure() {
    let missing = Err("No such file or directory (os error 2)".to_string());
    assert!(Sandbox::unrestricted(1 << 20).check_size(b"/nope/x", missing, Platform::Unix).is_err());
}

#[test]
fn every_refusal_says_why() {
    let sandbox = Sandbox::new(
        vec![existing(ROOT), existing("/srv")],
        10,
        Platform::Unix,
    );
    assert_eq!(
        resolve(&sandbox, " ", None).unwrap_err().message(),
        "path must not be empty"
    );
    assert_eq!(
        resolve(&sandbox, "a\"b", None).unwrap_err().message(),
        "path \"a\\\"b\" must be absolute; the server has no meaningful working directory"
    );
    assert_eq!(
        resolve(&sandbox, "/etc/passwd", None).unwrap_err().message(),
        "path \"/etc/passwd\" is outside the permitted directories (/tmp/root, /srv)"
    );
    assert_eq!(
        sandbox.check_size(b"/srv/x", Ok(11), Platform::Unix).unwrap_err().message(),
        "/srv/x is 11 bytes, over the 10 byte limit; raise the size limit to proceed"
    );
    assert_eq!(
        sandbox
            .check_size(b"/srv/\xff", Err("gone".to_string()), Platform::Unix)
            .unwrap_err()
            .message(),
        "could not stat /srv/\u{fffd}: gone"
    );
    assert_eq!(
        sandbox
            .check_size(b"C:\\\xed\xa0\x80", Err("gone".to_string()), Platform::Windows)
            .unwrap_err()
            .message(),
        "could not stat C:\\\u{fffd}: gone"
    );
    assert_eq!(sandbox.check_size(b"/srv/x", Ok(10), Platform::Unix).unwrap(), 10);
}

#[test]
fn a_symlinked_root_matches_what_is_resolved_through_it() {
    let linked = Root {
        path: b"/tmp/work".to_vec(),
        canonical: Some(b"/private/tmp/work".to_vec()),
    };
    let sandbox = Sandbox::new(vec![linked], 1 << 20, Platform::MacOs);
    assert_eq!(sandbox.roots(), [b"/private/tmp/work".to_vec()]);
    let found = sandbox.resolve(
        "/tmp/work/f",
        Some(b"/private/tmp/work/f".to_vec()),
        Platform::MacOs,
    );
    assert_eq!(found.unwrap(), b"/private/tmp/work/f");
}

#[test]
fn a_path_that_is_given_out_has_no_dots() {
    let sandbox = rooted(1 << 20);
    let given = resolve(&sandbox, "/tmp/./root/sub/../new", None).unwrap();
    assert_eq!(given, b"/tmp/root/new");
}

#[test]
fn the_default_is_unrestricted_under_the_default_ceiling() {
    let sandbox = Sandbox::default();
    assert!(sandbox.roots().is_empty());
    assert_eq!(sandbox.max_file_bytes(), DEFAULT_MAX_FILE_BYTES);
    assert_eq!(DEFAULT_MAX_FILE_BYTES, 67108864);
    let copy = rooted(7).clone();
    assert_eq!(copy.roots(), [ROOT.as_bytes().to_vec()]);
    assert_eq!(copy.max_file_bytes(), 7);
}

#[test]
fn windows_roots_hold_against_dots_and_other_drives() {
    let root = Root { path: br"C:\work".to_vec(), canonical: Some(br"\\?\C:\work".to_vec()) };
    let sandbox = Sandbox::new(vec![root], 1 << 20, Platform::Windows);
    let inside = sandbox.resolve(r"C:/Work/sub\..\new.txt", None, Platform::Windows);
    assert_eq!(inside.unwrap(), br"C:\Work\new.txt");
    for outside in [r"C:\work\..\x", r"D:\work\x", r"\\server\share\work", r"C:\work-private\x"] {
        assert!(matches!(
            sandbox.resolve(outside, None, Platform::Windows),
            Err(ToolFailure::Denied(_))
        ));
    }
    assert!(matches!(
        sandbox.resolve(r"C:work", None, Platform::Windows),
        Err(ToolFailure::InvalidArguments(_))
    ));
}
