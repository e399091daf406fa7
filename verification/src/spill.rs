//! Preserving output too large to return inline.
//!
//! Capping a tool's output protects the caller's context window and the
//! server's memory, but discarding the excess is hostile: the only way to see
//! the rest is to run the command again, and the command may be expensive,
//! non-deterministic, or destructive.
//!
//! So the excess is written to a file and the caller is told where. Memory
//! stays bounded because only the head is retained, and everything else goes
//! straight to disk as it arrives. A [`Sink`] decides what has to be written and
//! when; whoever drives it does the writing and reports how it went.

use vstd::prelude::*;
use vstd::string::StringExecFns;
use vstd::utf8::*;

use crate::components;
use crate::components::{copy_bytes, Platform};
use crate::paths;
use crate::paths::{join_path, show_path};
use crate::text;
use crate::text::{chars_of, decimal_text, from_utf8_lossy, narrow};

verus! {

/// Where captured output is kept, and how much of it.
#[derive(Debug)]
pub struct SpillDir {
    root: Vec<u8>,
    /// How many spill files to keep. Older ones are removed, so a long-running
    /// server does not slowly fill the disk with forgotten output.
    retain: usize,
}

/// A file in the directory: when it was last modified, and its path.
#[derive(Debug)]
pub struct SpillFile {
    pub modified: i128,
    pub path: Vec<u8>,
}

/// Output that did not fit inline.
#[derive(Debug, PartialEq, Eq)]
pub struct Spilled {
    pub path: Vec<u8>,
    pub total_bytes: u64,
}

impl Clone for Spilled {
    fn clone(&self) -> (copy: Spilled)
        ensures
            copy.path@ == self.path@,
            copy.total_bytes == self.total_bytes,
    {
        Spilled { path: copy_bytes(self.path.as_slice()), total_bytes: self.total_bytes }
    }
}

/// How far the spilling of a stream has come.
#[derive(Debug, Clone, Copy, PartialEq, Eq, Structural)]
pub enum Phase {
    /// Everything fits inline so far.
    Inline,
    /// The file is to be created and the head written to it.
    Opening,
    /// The file holds what came before; the rest is to be appended.
    Writing,
    /// The file holds the whole stream.
    Saved,
    /// Saving failed, and what does not fit inline is lost.
    Lost,
}

/// What has to be done after a chunk was taken in.
#[derive(Debug, Clone, Copy, PartialEq, Eq, Structural)]
pub enum Step {
    Done,
    /// Create the file, write the head to it, and then the chunk from here on.
    Open { from: usize },
    /// Append the chunk from here on to the file.
    Write { from: usize },
}

/// Accumulates one output stream, keeping the head in memory and the whole
/// thing on disk once it grows past the limit.
pub struct Sink {
    dir: SpillDir,
    label: String,
    head_limit: usize,
    head: Vec<u8>,
    total: u64,
    phase: Phase,
    path: Option<Vec<u8>>,
    /// Why spilling failed, if it did. A failed spill must not fail the tool
    /// call: partial output beats none.
    failed: Option<String>,
    stream: Ghost<Seq<u8>>,
    saved: Ghost<Seq<u8>>,
}

/// What a sink has taken in and what became of it.
pub struct Capture {
    /// Where the file goes, and how it is called.
    pub root: Seq<u8>,
    pub label: Seq<char>,
    /// How much is kept inline.
    pub limit: nat,
    /// Everything that was taken in.
    pub stream: Seq<u8>,
    /// What the file holds, every write having been done as it was reported.
    pub saved: Seq<u8>,
    pub phase: Phase,
    /// The file, once it is there.
    pub file: Option<Seq<u8>>,
    /// Why saving failed, if it did.
    pub error: Option<Seq<char>>,
}

/// The first bytes of a stream, at most `limit`.
pub open spec fn head_of(stream: Seq<u8>, limit: nat) -> Seq<u8> {
    if stream.len() <= limit {
        stream
    } else {
        stream.take(limit as int)
    }
}

/// The text that shows bytes inline in at most `limit` bytes. What is no text is
/// replaced by U+FFFD where there is room for that, else by `?`.
pub open spec fn shown_text(bytes: Seq<u8>, limit: nat) -> Seq<char> {
    let text = text::utf8_lossy(bytes);
    if encode_utf8(text).len() <= limit {
        text
    } else {
        text::narrowed(text)
    }
}

impl Capture {
    /// What is kept inline.
    pub open spec fn head(self) -> Seq<u8> {
        head_of(self.stream, self.limit)
    }

    /// Whether the stream is longer than what is kept inline.
    pub open spec fn overflows(self) -> bool {
        self.stream.len() > self.limit
    }

    /// Whether nothing is left to be done or reported.
    pub open spec fn settled(self) -> bool {
        self.phase == Phase::Inline || self.phase == Phase::Saved || self.phase == Phase::Lost
    }

    /// What holds in each phase.
    pub open spec fn valid(self) -> bool {
        match self.phase {
            Phase::Inline => {
                &&& !self.overflows()
                &&& self.file is None
                &&& self.error is None
                &&& self.saved.len() == 0
            },
            Phase::Opening => {
                &&& self.overflows()
                &&& self.file is None
                &&& self.error is None
                &&& self.saved.len() == 0
            },
            Phase::Writing => {
                &&& self.overflows()
                &&& self.file is Some
                &&& self.error is None
                &&& self.saved.is_prefix_of(self.stream)
            },
            Phase::Saved => {
                &&& self.overflows()
                &&& self.file is Some
                &&& self.error is None
                &&& self.saved == self.stream
            },
            Phase::Lost => {
                &&& self.overflows()
                &&& self.file is None
                &&& self.error is Some
            },
        }
    }
}

/// Whether a character may stand in a file's name.
pub open spec fn name_char(c: char) -> bool {
    ||| '0' <= c <= '9'
    ||| 'A' <= c <= 'Z'
    ||| 'a' <= c <= 'z'
    ||| c == '-'
    ||| c == '_'
}

/// A label that can stand in a file's name.
pub open spec fn sanitized(label: Seq<char>) -> Seq<char> {
    if label.len() == 0 {
        "output"@
    } else {
        Seq::new(
            label.len(),
            |i: int|
                if name_char(label[i]) {
                    label[i]
                } else {
                    '-'
                },
        )
    }
}

/// Keeps a caller-supplied label from escaping the spill directory.
pub fn sanitize(label: &str) -> (cleaned: String)
    ensures
        cleaned@ == sanitized(label@),
{
    let chars = chars_of(label);
    if chars.len() == 0 {
        return "output".to_owned();
    }
    let mut cleaned = String::new();
    for i in 0..chars.len()
        invariant
            chars@ == label@,
            chars@.len() > 0,
            cleaned@ == sanitized(label@).take(i as int),
    {
        let c: char = chars[i];
        let kept = if ('0' <= c && c <= '9') || ('A' <= c && c <= 'Z') || ('a' <= c && c <= 'z')
            || c == '-' || c == '_' {
            c
        } else {
            '-'
        };
        cleaned.push(kept);
        assert(cleaned@ =~= sanitized(label@).take(i + 1));
    }
    assert(sanitized(label@).take(chars@.len() as int) =~= sanitized(label@));
    cleaned
}

/// The name of a spill file.
pub open spec fn file_name(label: Seq<char>, stamp: u128) -> Seq<char> {
    label + "-"@ + text::decimal(stamp as nat) + ".txt"@
}

/// The oldest of some files: the first of those with the earliest time.
pub open spec fn oldest(files: Seq<SpillFile>) -> int
    decreases files.len(),
{
    if files.len() <= 1 {
        0
    } else {
        let before = oldest(files.drop_last());
        if files.last().modified < files[before].modified {
            files.len() - 1
        } else {
            before
        }
    }
}

/// The `count` oldest files, oldest first.
pub open spec fn oldest_files(files: Seq<SpillFile>, count: int) -> Seq<SpillFile>
    decreases count,
{
    if count <= 0 || files.len() == 0 {
        Seq::empty()
    } else {
        let at = oldest(files);
        seq![files[at]] + oldest_files(files.remove(at), count - 1)
    }
}

/// The files without the `count` oldest.
pub open spec fn newer_files(files: Seq<SpillFile>, count: int) -> Seq<SpillFile>
    decreases count,
{
    if count <= 0 || files.len() == 0 {
        files
    } else {
        newer_files(files.remove(oldest(files)), count - 1)
    }
}

/// Where files are.
pub open spec fn file_paths(files: Seq<SpillFile>) -> Seq<Seq<u8>> {
    Seq::new(files.len(), |i: int| files[i].path@)
}

/// The oldest of some files is one of them, none is older, and none before it is
/// as old.
pub proof fn lemma_oldest(files: Seq<SpillFile>)
    requires
        files.len() > 0,
    ensures
        0 <= oldest(files) < files.len(),
        forall|i: int|
            0 <= i < files.len() ==> files[oldest(files)].modified <= (
            #[trigger] files[i]).modified,
        forall|i: int|
            0 <= i < oldest(files) ==> files[oldest(files)].modified < (
            #[trigger] files[i]).modified,
    decreases files.len(),
{
    if files.len() > 1 {
        let rest = files.drop_last();
        lemma_oldest(rest);
        assert forall|i: int| 0 <= i < files.len() implies files[oldest(files)].modified <= (
        #[trigger] files[i]).modified by {
            if i < rest.len() {
                assert(rest[i] == files[i]);
            }
        }
        assert forall|i: int| 0 <= i < oldest(files) implies files[oldest(files)].modified < (
        #[trigger] files[i]).modified by {
            assert(rest[i] == files[i]);
        }
    }
}

impl SpillDir {
    /// The directory.
    pub closed spec fn place(self) -> Seq<u8> {
        self.root@
    }

    /// How many files are kept.
    pub closed spec fn kept(self) -> usize {
        self.retain
    }

    pub fn new(root: Vec<u8>, retain: usize) -> (dir: SpillDir)
        ensures
            dir.place() == root@,
            dir.kept() == (if retain > 1 {
                retain
            } else {
                1
            }),
    {
        let retain: usize = if retain > 1 {
            retain
        } else {
            1
        };
        SpillDir { root, retain }
    }

    /// The default location: a per-server directory under the system temp dir.
    pub fn for_server(server: &str, temp_dir: &[u8], platform: Platform) -> (dir: SpillDir)
        ensures
            dir.place() == paths::joined_path(
                temp_dir@,
                encode_utf8(server@ + "-mcp-output"@),
                platform,
            ),
            dir.kept() == 32,
    {
        let mut name = server.to_owned();
        name.append("-mcp-output");
        SpillDir::new(join_path(temp_dir, name.as_str().as_bytes(), platform), 32)
    }

    pub fn root(&self) -> (root: &[u8])
        ensures
            root@ == self.place(),
    {
        self.root.as_slice()
    }

    /// Opens a sink for one stream. The file is created lazily, so output that
    /// fits inline never touches the disk.
    pub fn sink(&self, label: &str, head_limit: usize) -> (sink: Sink)
        ensures
            sink.well_formed(),
            sink@ == (Capture {
                root: self.place(),
                label: sanitized(label@),
                limit: head_limit as nat,
                stream: Seq::empty(),
                saved: Seq::empty(),
                phase: Phase::Inline,
                file: None,
                error: None,
            }),
            sink.kept() == self.kept(),
    {
        let sink = Sink {
            dir: self.clone(),
            label: sanitize(label),
            head_limit,
            head: Vec::new(),
            total: 0,
            phase: Phase::Inline,
            path: None,
            failed: None,
            stream: Ghost(Seq::empty()),
            saved: Ghost(Seq::empty()),
        };
        assert(sink.head@ =~= sink@.head());
        sink
    }

    /// Which of the files in the directory to remove: all but the newest ones
    /// that are kept, oldest first. Of files of one age the first are removed
    /// first.
    pub fn prune(&self, files: Vec<SpillFile>) -> (removed: Vec<Vec<u8>>)
        ensures
            paths::path_list(removed@) == file_paths(
                oldest_files(files@, files@.len() - self.kept()),
            ),
    {
        let ghost all = files@;
        let mut files = files;
        let mut removed: Vec<Vec<u8>> = Vec::new();
        while files.len() > self.retain
            invariant
                paths::path_list(removed@) + file_paths(
                    oldest_files(files@, files@.len() - self.kept()),
                ) == file_paths(oldest_files(all, all.len() - self.kept())),
            decreases files@.len(),
        {
            let ghost before = files@;
            let ghost gone = removed@;
            let at = find_oldest(files.as_slice());
            let file = files.remove(at);
            removed.push(file.path);
            proof {
                let count = before.len() - self.kept();
                assert(paths::path_list(removed@) + file_paths(oldest_files(files@, count - 1))
                    =~= paths::path_list(gone) + file_paths(oldest_files(before, count)));
            }
        }
        assert(paths::path_list(removed@) =~= file_paths(oldest_files(all, all.len() - self.kept())));
        removed
    }
}

impl Clone for SpillDir {
    fn clone(&self) -> (copy: SpillDir)
        ensures
            copy.place() == self.place(),
            copy.kept() == self.kept(),
    {
        SpillDir { root: copy_bytes(self.root.as_slice()), retain: self.retain }
    }
}

fn find_oldest(files: &[SpillFile]) -> (at: usize)
    requires
        files@.len() > 0,
    ensures
        at == oldest(files@),
        at < files@.len(),
{
    let mut at: usize = 0;
    assert(files@.take(1).len() == 1);
    for i in 1..files.len()
        invariant
            files@.len() > 0,
            at < i,
            i <= files@.len(),
            at == oldest(files@.take(i as int)),
    {
        proof {
            lemma_oldest(files@.take(i as int));
            assert(files@.take(i + 1).drop_last() =~= files@.take(i as int));
            assert(files@.take(i + 1)[at as int] == files@[at as int]);
        }
        if files[i].modified < files[at].modified {
            at = i;
        }
    }
    assert(files@.take(files@.len() as int) =~= files@);
    at
}

impl View for Sink {
    type V = Capture;

    closed spec fn view(&self) -> Capture {
        Capture {
            root: self.dir.place(),
            label: self.label@,
            limit: self.head_limit as nat,
            stream: self.stream@,
            saved: self.saved@,
            phase: self.phase,
            file: paths::found_path(self.path),
            error: match self.failed {
                Some(error) => Some(error@),
                None => None,
            },
        }
    }
}

impl Sink {
    /// What every sink keeps.
    pub closed spec fn well_formed(self) -> bool {
        &&& self@.valid()
        &&& self.head@ == self@.head()
        &&& self.total == self@.stream.len()
    }

    /// How many files its directory keeps.
    pub closed spec fn kept(self) -> usize {
        self.dir.kept()
    }

    /// A well-formed sink is in a valid state.
    pub proof fn lemma_well_formed(self)
        requires
            self.well_formed(),
        ensures
            self@.valid(),
            self@.stream.len() <= u64::MAX,
    {
    }

    /// Adds a chunk, and says what has to be written. Never fails the caller: a
    /// disk problem degrades to ordinary truncation.
    pub fn push(&mut self, chunk: &[u8]) -> (step: Step)
        requires
            old(self).well_formed(),
            old(self)@.settled(),
            old(self)@.stream.len() + chunk@.len() <= u64::MAX,
        ensures
            final(self).well_formed(),
            final(self).kept() == old(self).kept(),
            ({
                let before = old(self)@;
                let after = Capture { stream: before.stream + chunk@, ..before };
                match step {
                    Step::Done => {
                        &&& !after.overflows() || before.phase == Phase::Lost
                        &&& final(self)@ == after
                    },
                    Step::Open { from } => {
                        &&& after.overflows()
                        &&& before.phase == Phase::Inline
                        &&& final(self)@ == (Capture { phase: Phase::Opening, ..after })
                        &&& from <= chunk@.len()
                        &&& after.head() + chunk@.skip(from as int) == after.stream
                    },
                    Step::Write { from } => {
                        &&& after.overflows()
                        &&& before.phase == Phase::Saved
                        &&& final(self)@ == (Capture { phase: Phase::Writing, ..after })
                        &&& from <= chunk@.len()
                        &&& before.saved + chunk@.skip(from as int) == after.stream
                    },
                }
            }),
    {
        let ghost before = self@;
        let ghost after = Capture { stream: before.stream + chunk@, ..before };
        self.total = self.total + chunk.len() as u64;
        let room: usize = if self.head.len() < self.head_limit {
            self.head_limit - self.head.len()
        } else {
            0
        };
        let taken: usize = if room < chunk.len() {
            room
        } else {
            chunk.len()
        };
        let ghost head_before = self.head@;
        components::append_bytes(&mut self.head, slice_until(chunk, taken));
        self.stream = Ghost(self.stream@ + chunk@);
        proof {
            assert(self.head@ =~= after.head());
            assert(self@ == after);
        }
        if self.total <= self.head_limit as u64 {
            return Step::Done;
        }
        match self.phase {
            Phase::Inline => {
                self.phase = Phase::Opening;
                assert(self.head@.len() == self.head_limit);
                let from: usize = taken;
                assert(after.head() + chunk@.skip(from as int) =~= after.stream);
                Step::Open { from }
            },
            Phase::Saved => {
                self.phase = Phase::Writing;
                assert(before.saved + chunk@.skip(0) =~= after.stream);
                assert(before.saved.is_prefix_of(after.stream));
                Step::Write { from: 0 }
            },
            _ => Step::Done,
        }
    }

    /// Takes in how creating the file and writing the head to it went.
    pub fn opened(&mut self, outcome: Result<Vec<u8>, String>)
        requires
            old(self).well_formed(),
            old(self)@.phase == Phase::Opening,
        ensures
            final(self).well_formed(),
            final(self).kept() == old(self).kept(),
            match outcome {
                Ok(path) => final(self)@ == (Capture {
                    phase: Phase::Writing,
                    file: Some(path@),
                    saved: old(self)@.head(),
                    ..old(self)@
                }),
                Err(error) => final(self)@ == (Capture {
                    phase: Phase::Lost,
                    error: Some(error@),
                    ..old(self)@
                }),
            },
    {
        match outcome {
            Ok(path) => {
                self.path = Some(path);
                self.phase = Phase::Writing;
                self.saved = Ghost(self@.head());
                assert(self@.head().is_prefix_of(self@.stream));
            },
            Err(error) => {
                self.failed = Some(error);
                self.phase = Phase::Lost;
            },
        }
    }

    /// Takes in how writing the chunk to the file went. A file that does not
    /// hold the whole stream is not offered as if it did.
    pub fn wrote(&mut self, outcome: Result<(), String>)
        requires
            old(self).well_formed(),
            old(self)@.phase == Phase::Writing,
        ensures
            final(self).well_formed(),
            final(self).kept() == old(self).kept(),
            match outcome {
                Ok(_) => final(self)@ == (Capture {
                    phase: Phase::Saved,
                    saved: old(self)@.stream,
                    ..old(self)@
                }),
                Err(error) => final(self)@ == (Capture {
                    phase: Phase::Lost,
                    file: None,
                    error: Some(error@),
                    ..old(self)@
                }),
            },
    {
        match outcome {
            Ok(_) => {
                self.phase = Phase::Saved;
                self.saved = Ghost(self@.stream);
            },
            Err(error) => {
                self.path = None;
                self.failed = Some(error);
                self.phase = Phase::Lost;
            },
        }
    }

    /// The bytes kept so far.
    pub fn head(&self) -> (head: &[u8])
        requires
            self.well_formed(),
        ensures
            head@ == self@.head(),
    {
        self.head.as_slice()
    }

    /// The directory that the file goes to.
    pub fn dir(&self) -> (dir: &SpillDir)
        ensures
            dir.place() == self@.root,
            dir.kept() == self.kept(),
    {
        &self.dir
    }

    /// The file to create, given a time that no earlier file has.
    pub fn file_path(&self, stamp: u128, platform: Platform) -> (path: Vec<u8>)
        ensures
            path@ == paths::joined_path(
                self@.root,
                encode_utf8(file_name(self@.label, stamp)),
                platform,
            ),
    {
        let mut name = self.label.clone();
        name.append("-");
        name.append(decimal_text(stamp).as_str());
        name.append(".txt");
        join_path(self.dir.root(), name.as_str().as_bytes(), platform)
    }

    /// Finishes the stream, returning what to show inline and where the rest is.
    pub fn finish(self) -> (captured: Captured)
        requires
            self.well_formed(),
            self@.settled(),
        ensures
            captured.head@ == shown_text(self@.head(), self@.limit),
            encode_utf8(captured.head@).len() <= self@.limit,
            valid_utf8(self@.head()) ==> captured.head@ == decode_utf8(self@.head())
                && encode_utf8(captured.head@) == self@.head(),
            captured.total_bytes == self@.stream.len(),
            captured.truncated == self@.overflows(),
            match self@.file {
                Some(path) => captured.spilled matches Some(spilled) && spilled.path@ == path
                    && spilled.total_bytes == self@.stream.len() && self@.saved == self@.stream,
                None => captured.spilled is None,
            },
            match self@.error {
                Some(error) => captured.spill_error matches Some(said) && said@ == error,
                None => captured.spill_error is None,
            },
            captured.truncated == (captured.spilled is Some || captured.spill_error is Some),
            !(captured.spilled is Some && captured.spill_error is Some),
    {
        let spilled = match self.path {
            Some(path) => Some(Spilled { path, total_bytes: self.total }),
            None => None,
        };
        let lossy = from_utf8_lossy(self.head.as_slice());
        proof {
            if valid_utf8(self@.head()) {
                decode_utf8_encode_utf8(self@.head());
            }
        }
        let head = if lossy.as_str().as_bytes().len() <= self.head_limit {
            lossy
        } else {
            narrow(lossy.as_str())
        };
        Captured {
            head,
            total_bytes: self.total,
            truncated: self.total > self.head_limit as u64,
            spilled,
            spill_error: self.failed,
        }
    }
}

fn slice_until(bytes: &[u8], end: usize) -> (part: &[u8])
    requires
        end <= bytes@.len(),
    ensures
        part@ == bytes@.take(end as int),
{
    let part = vstd::slice::slice_subrange(bytes, 0, end);
    assert(part@ =~= bytes@.take(end as int));
    part
}

/// The result of capturing one stream.
#[derive(Debug, PartialEq, Eq)]
pub struct Captured {
    /// The first bytes of the stream, at most as many as the limit, safe to return
    /// inline.
    pub head: String,
    pub total_bytes: u64,
    pub truncated: bool,
    /// Where the complete output was written, when it did not fit.
    pub spilled: Option<Spilled>,
    /// Set when spilling was attempted and failed.
    pub spill_error: Option<String>,
}

impl Clone for Captured {
    fn clone(&self) -> (copy: Captured)
        ensures
            copy.head@ == self.head@,
            copy.total_bytes == self.total_bytes,
            copy.truncated == self.truncated,
            match self.spilled {
                Some(spill) => copy.spilled matches Some(other) && other.path@ == spill.path@
                    && other.total_bytes == spill.total_bytes,
                None => copy.spilled is None,
            },
            match self.spill_error {
                Some(error) => copy.spill_error matches Some(other) && other@ == error@,
                None => copy.spill_error is None,
            },
    {
        Captured {
            head: self.head.clone(),
            total_bytes: self.total_bytes,
            truncated: self.truncated,
            spilled: match &self.spilled {
                Some(spill) => Some(spill.clone()),
                None => None,
            },
            spill_error: match &self.spill_error {
                Some(error) => Some(error.clone()),
                None => None,
            },
        }
    }
}

impl Captured {
    /// How many bytes are shown inline.
    pub open spec fn shown(self) -> Seq<char> {
        text::decimal(encode_utf8(self.head@).len())
    }

    /// What the notice says, where something was left out.
    pub open spec fn notice_text(self, platform: Platform) -> Option<Seq<char>> {
        if !self.truncated {
            None
        } else {
            Some(
                match (self.spilled, self.spill_error) {
                    (Some(spill), _) => "[showing the first "@ + self.shown() + " of "@
                        + text::decimal(spill.total_bytes as nat)
                        + " bytes. The complete output is at "@ + paths::path_text(
                        spill.path@,
                        platform,
                    )
                        + " \u{2014} read or search that file rather than running this again.]"@,
                    (None, Some(error)) => "[output truncated at "@ + self.shown() + " of "@
                        + text::decimal(self.total_bytes as nat)
                        + " bytes; the rest could not be saved ("@ + error@ + ")]"@,
                    (None, None) => "[output truncated at "@ + self.shown() + " bytes]"@,
                },
            )
        }
    }

    /// A note telling the caller how to reach the rest, or `None` when nothing
    /// was lost.
    pub fn notice(&self, platform: Platform) -> (notice: Option<String>)
        ensures
            notice is Some == self.notice_text(platform) is Some,
            notice is Some ==> notice->0@ == self.notice_text(platform)->0,
    {
        if !self.truncated {
            return None;
        }
        let shown = decimal_text(self.head.as_str().as_bytes().len() as u128);
        match &self.spilled {
            Some(spill) => {
                let mut text = "[showing the first ".to_owned();
                text.append(shown.as_str());
                text.append(" of ");
                text.append(decimal_text(spill.total_bytes as u128).as_str());
                text.append(" bytes. The complete output is at ");
                text.append(show_path(spill.path.as_slice(), platform).as_str());
                text.append(
                    " \u{2014} read or search that file rather than running this again.]",
                );
                Some(text)
            },
            None => match &self.spill_error {
                Some(error) => {
                    let mut text = "[output truncated at ".to_owned();
                    text.append(shown.as_str());
                    text.append(" of ");
                    text.append(decimal_text(self.total_bytes as u128).as_str());
                    text.append(" bytes; the rest could not be saved (");
                    text.append(error.as_str());
                    text.append(")]");
                    Some(text)
                },
                None => {
                    let mut text = "[output truncated at ".to_owned();
                    text.append(shown.as_str());
                    text.append(" bytes]");
                    Some(text)
                },
            },
        }
    }

    /// The inline text with the notice appended.
    pub fn text_with_notice(&self, platform: Platform) -> (text: String)
        ensures
            text@ == (match self.notice_text(platform) {
                Some(notice) => self.head@ + "\n"@ + notice,
                None => self.head@,
            }),
    {
        match self.notice(platform) {
            Some(notice) => {
                let mut text = self.head.clone();
                text.append("\n");
                text.append(notice.as_str());
                text
            },
            None => self.head.clone(),
        }
    }
}

} // verus!
