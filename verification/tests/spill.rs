//! Output that is too large to return inline.

use mcp_toolkit::components::Platform;
use mcp_toolkit::paths::is_within_with;
use mcp_toolkit::spill::{sanitize, Captured, Sink, SpillDir, SpillFile, Spilled, Step};

/// The files of a directory that lives in memory.
struct Disk {
    files: Vec<(Vec<u8>, Vec<u8>)>,
    clock: u128,
}

impl Disk {
    fn new() -> Disk {
        Disk { files: Vec::new(), clock: 0 }
    }

    fn contents(&self, path: &[u8]) -> &[u8] {
        &self.files.iter().find(|(name, _)| name == path).unwrap().1
    }

    /// Takes in a chunk and writes what has to be written.
    fn push(&mut self, sink: &mut Sink, chunk: &[u8]) {
        match sink.push(chunk) {
            Step::Done => {}
            Step::Open { from } => {
                self.clock += 1;
                let path = sink.file_path(self.clock, Platform::Unix);
                let mut contents = sink.head().to_vec();
                sink.opened(Ok(path.clone()));
                contents.extend_from_slice(&chunk[from..]);
                self.files.push((path, contents));
                sink.wrote(Ok(()));
            }
            Step::Write { from } => {
                let last = self.files.len() - 1;
                self.files[last].1.extend_from_slice(&chunk[from..]);
                sink.wrote(Ok(()));
            }
        }
    }

    /// Finishes a stream and removes what is too old.
    fn finish(&mut self, sink: Sink, dir: &SpillDir) -> Captured {
        let captured = sink.finish();
        if captured.spilled.is_some() {
            let listed = self
                .files
                .iter()
                .enumerate()
                .map(|(i, (path, _))| SpillFile { modified: i as i128, path: path.clone() })
                .collect();
            let removed = dir.prune(listed);
            self.files.retain(|(path, _)| !removed.contains(path));
        }
        captured
    }
}

fn dir() -> (Disk, SpillDir) {
    (Disk::new(), SpillDir::new(b"/tmp/x/spill".to_vec(), 4))
}

#[test]
fn small_output_stays_inline_and_never_touches_disk() {
    let (mut disk, spill) = dir();
    let mut sink = spill.sink("stdout", 1024);
    disk.push(&mut sink, b"hello");
    let captured = disk.finish(sink, &spill);

    assert_eq!(captured.head, "hello");
    assert!(!captured.truncated);
    assert!(captured.spilled.is_none());
    assert!(captured.notice(Platform::Unix).is_none());
    assert!(disk.files.is_empty(), "nothing should have been written");
}

#[test]
fn large_output_is_preserved_in_full_on_disk() {
    let (mut disk, spill) = dir();
    let mut sink = spill.sink("stdout", 10);
    disk.push(&mut sink, b"0123456789ABCDEFGHIJ");
    let captured = disk.finish(sink, &spill);

    assert_eq!(captured.head, "0123456789", "only the head is returned inline");
    assert!(captured.truncated);
    assert_eq!(captured.total_bytes, 20);

    let spilled = captured.spilled.expect("large output must be preserved");
    assert_eq!(disk.contents(&spilled.path), b"0123456789ABCDEFGHIJ");
    assert_eq!(spilled.total_bytes, 20);
}

#[test]
fn the_notice_points_at_the_file_and_discourages_re_running() {
    let (mut disk, spill) = dir();
    let mut sink = spill.sink("stdout", 4);
    disk.push(&mut sink, b"abcdefgh");
    let captured = disk.finish(sink, &spill);

    let notice = captured.notice(Platform::Unix).unwrap();
    assert!(notice.contains("complete output is at"), "{notice}");
    assert!(notice.contains("rather than running this again"), "{notice}");
    assert!(captured.text_with_notice(Platform::Unix).starts_with("abcd"));
}

#[test]
fn output_arriving_in_many_chunks_is_reassembled() {
    let (mut disk, spill) = dir();
    let mut sink = spill.sink("stdout", 5);
    for chunk in ["aaa", "bbb", "ccc", "ddd"] {
        disk.push(&mut sink, chunk.as_bytes());
    }
    let captured = disk.finish(sink, &spill);

    assert_eq!(captured.head, "aaabb");
    let spilled = captured.spilled.unwrap();
    assert_eq!(disk.contents(&spilled.path), b"aaabbbcccddd");
}

#[test]
fn output_exactly_at_the_limit_is_not_treated_as_truncated() {
    let (mut disk, spill) = dir();
    let mut sink = spill.sink("stdout", 5);
    disk.push(&mut sink, b"12345");
    let captured = disk.finish(sink, &spill);

    assert!(!captured.truncated);
    assert!(captured.spilled.is_none());
}

#[test]
fn old_spill_files_are_pruned() {
    let (mut disk, spill) = dir();
    for _ in 0..7 {
        let mut sink = spill.sink("stdout", 2);
        disk.push(&mut sink, b"aaaaaaaa");
        disk.finish(sink, &spill);
    }
    assert_eq!(disk.files.len(), 4, "a long-running server must not fill the disk");
}

#[test]
fn a_failed_spill_degrades_to_truncation_rather_than_failing_the_call() {
    let spill = SpillDir::new(b"/proc/version/cannot-create-here".to_vec(), 4);
    let mut sink = spill.sink("stdout", 4);
    assert_eq!(sink.push(b"abcdefgh"), Step::Open { from: 4 });
    sink.opened(Err("Not a directory (os error 20)".to_string()));
    let captured = sink.finish();

    assert_eq!(captured.head, "abcd", "partial output beats none");
    assert!(captured.spilled.is_none());
    assert!(captured.spill_error.is_some());
    assert!(captured.notice(Platform::Unix).unwrap().contains("could not be saved"));
}

#[test]
fn a_hostile_label_cannot_escape_the_directory() {
    assert_eq!(sanitize("../../etc/passwd"), "------etc-passwd");
    assert_eq!(sanitize("std/out"), "std-out");
    assert_eq!(sanitize(""), "output");
}

#[test]
fn empty_output_produces_nothing() {
    let (mut disk, spill) = dir();
    let captured = disk.finish(spill.sink("stdout", 16), &spill);
    assert!(captured.head.is_empty());
    assert!(!captured.truncated);
    assert!(captured.spilled.is_none());
}

#[test]
fn a_later_write_that_fails_is_not_offered_as_complete_output() {
    let (mut disk, spill) = dir();
    let mut sink = spill.sink("stdout", 4);
    disk.push(&mut sink, b"abcdef");
    assert_eq!(sink.push(b"gh"), Step::Write { from: 0 });
    sink.wrote(Err("No space left on device (os error 28)".to_string()));
    assert_eq!(sink.push(b"ij"), Step::Done);
    let captured = sink.finish();

    assert_eq!(captured.spilled, None);
    assert_eq!(captured.total_bytes, 10);
    assert_eq!(
        captured.notice(Platform::Unix).unwrap(),
        "[output truncated at 4 of 10 bytes; the rest could not be saved \
         (No space left on device (os error 28))]"
    );
}

#[test]
fn the_notices_say_how_much_is_shown() {
    let captured = Captured {
        head: "h\u{e9}".to_string(),
        total_bytes: 9,
        truncated: true,
        spilled: Some(Spilled { path: b"/s/f.txt".to_vec(), total_bytes: 9 }),
        spill_error: None,
    };
    assert_eq!(
        captured.text_with_notice(Platform::Unix),
        "h\u{e9}\n[showing the first 3 of 9 bytes. The complete output is at /s/f.txt \u{2014} read \
         or search that file rather than running this again.]"
    );
    let odd = Captured {
        spilled: Some(Spilled { path: b"C:\\\xed\xa0\x80.txt".to_vec(), total_bytes: 9 }),
        ..captured.clone()
    };
    assert!(odd.notice(Platform::Windows).unwrap().contains(" at C:\\\u{fffd}.txt \u{2014} "));
    let bare = Captured { spilled: None, ..captured.clone() };
    assert_eq!(bare.notice(Platform::Unix).unwrap(), "[output truncated at 3 bytes]");
    let whole = Captured { truncated: false, ..bare };
    assert_eq!(whole.text_with_notice(Platform::Unix), "h\u{e9}");
}

#[test]
fn bytes_that_are_no_text_are_replaced_inline() {
    let (mut disk, spill) = dir();
    let mut sink = spill.sink("stdout", 5);
    disk.push(&mut sink, b"a\xffb");
    assert_eq!(disk.finish(sink, &spill).head, "a\u{fffd}b");

    let mut sink = spill.sink("stdout", 3);
    disk.push(&mut sink, b"a\xffbc");
    let captured = disk.finish(sink, &spill);
    assert_eq!(captured.head, "a?b");
    assert_eq!(disk.contents(&captured.spilled.unwrap().path), b"a\xffbc");
}

#[test]
fn the_head_is_never_longer_than_the_limit() {
    let (mut disk, spill) = dir();
    let mut sink = spill.sink("stdout", 1);
    disk.push(&mut sink, b"\xc3\xa9");
    let captured = disk.finish(sink, &spill);
    assert_eq!(captured.head, "?");
    assert!(captured.notice(Platform::Unix).unwrap().starts_with("[showing the first 1 of 2 bytes."));

    let mut sink = spill.sink("stdout", 4);
    disk.push(&mut sink, b"\xff\xff\xff\xff");
    let captured = disk.finish(sink, &spill);
    assert_eq!(captured.head, "????");
    assert!(!captured.truncated);

    for limit in 0..8 {
        let mut sink = spill.sink("stdout", limit);
        disk.push(&mut sink, "h\u{e9}\u{20ac}!".as_bytes());
        assert!(disk.finish(sink, &spill).head.len() <= limit);
    }
}

#[test]
fn a_spill_file_lies_in_its_directory() {
    let spill = SpillDir::new(b"/tmp/spill".to_vec(), 4);
    let sink = spill.sink("../../etc/passwd", 4);
    let path = sink.file_path(340282366920938463463374607431768211455, Platform::Unix);
    assert_eq!(
        path,
        b"/tmp/spill/------etc-passwd-340282366920938463463374607431768211455.txt"
    );
    assert!(is_within_with(&path, spill.root(), false, Platform::Unix));
    assert_eq!(sink.dir().root(), b"/tmp/spill");
}

#[test]
fn a_server_spills_under_the_temp_directory() {
    let spill = SpillDir::for_server("hex", b"/tmp", Platform::Unix);
    assert_eq!(spill.root(), b"/tmp/hex-mcp-output");
    let listed: Vec<SpillFile> =
        (0..40).map(|i| SpillFile { modified: i, path: vec![i as u8] }).collect();
    assert_eq!(spill.clone().prune(listed).len(), 8);
}

#[test]
fn the_oldest_files_go_first_and_one_always_stays() {
    let spill = SpillDir::new(b"/s".to_vec(), 0);
    let file = |modified: i128, name: &str| SpillFile { modified, path: name.as_bytes().to_vec() };
    let listed = vec![file(5, "e"), file(1, "a"), file(3, "c"), file(1, "b")];
    let removed = spill.prune(listed);
    assert_eq!(removed, [b"a".to_vec(), b"b".to_vec(), b"c".to_vec()]);
    assert!(spill.prune(vec![file(0, "x")]).is_empty());
    assert!(spill.prune(Vec::new()).is_empty());
}

#[test]
fn a_clean_label_stays_as_it_is() {
    assert_eq!(sanitize("std_out-2"), "std_out-2");
    assert_eq!(sanitize(&sanitize("a b/\u{e9}")), "a-b--");
}

#[test]
fn a_spill_file_lies_in_its_directory_on_windows_too() {
    let spill = SpillDir::new(br"C:\Temp\spill".to_vec(), 4);
    let path = spill.sink(r"D:\x", 4).file_path(7, Platform::Windows);
    assert_eq!(path, br"C:\Temp\spill\D--x-7.txt");
    assert!(is_within_with(&path, spill.root(), false, Platform::Windows));
}
