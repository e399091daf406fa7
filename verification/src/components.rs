//! The components of a path, on each platform.
//!
//! A path is the sequence of bytes that the system holds for it. Which bytes
//! separate its components and what it can start with is a matter of the
//! platform, which every function here takes as an argument, so that each
//! platform's rules can be had on any host.

use vstd::prelude::*;
use vstd::slice::slice_subrange;

verus! {

/// The platforms whose path conventions differ.
#[derive(Debug, Clone, Copy, PartialEq, Eq, Structural)]
pub enum Platform {
    Windows,
    MacOs,
    Unix,
}

/// What a Windows path can start with.
#[derive(Debug, Clone, Copy, PartialEq, Eq, Structural)]
pub enum PrefixKind {
    /// `\\?\name`
    Verbatim,
    /// `\\?\UNC\server\share`
    VerbatimUnc,
    /// `\\?\C:`
    VerbatimDisk,
    /// `\\.\name`
    DeviceNs,
    /// `\\server\share`
    Unc,
    /// `C:`
    Disk,
}

/// The prefix of a Windows path: its kind, the names it holds (a server and a
/// share, one name, or a drive letter in upper case), and how many bytes it
/// takes.
#[derive(Debug)]
pub struct Prefix {
    pub kind: PrefixKind,
    pub first: Vec<u8>,
    pub second: Vec<u8>,
    pub len: usize,
}

/// One component of a path.
#[derive(Debug)]
pub enum Component {
    /// A Windows prefix, as it is written and as it is understood.
    Prefix { raw: Vec<u8>, parsed: Prefix },
    RootDir,
    CurDir,
    ParentDir,
    Normal(Vec<u8>),
}

/// What a prefix holds.
pub struct Start {
    pub kind: PrefixKind,
    pub first: Seq<u8>,
    pub second: Seq<u8>,
    pub len: int,
}

/// What a component holds.
pub enum Part {
    Prefix { raw: Seq<u8>, parsed: Start },
    RootDir,
    CurDir,
    ParentDir,
    Normal(Seq<u8>),
}

impl View for Prefix {
    type V = Start;

    open spec fn view(&self) -> Start {
        Start {
            kind: self.kind,
            first: self.first@,
            second: self.second@,
            len: self.len as int,
        }
    }
}

impl View for Component {
    type V = Part;

    open spec fn view(&self) -> Part {
        match *self {
            Component::Prefix { raw, parsed } => Part::Prefix { raw: raw@, parsed: parsed@ },
            Component::RootDir => Part::RootDir,
            Component::CurDir => Part::CurDir,
            Component::ParentDir => Part::ParentDir,
            Component::Normal(name) => Part::Normal(name@),
        }
    }
}

/// What a list of components holds.
pub open spec fn parts_of(components: Seq<Component>) -> Seq<Part> {
    Seq::new(components.len(), |i: int| components[i]@)
}

pub const SLASH: u8 = 47;

pub const BACKSLASH: u8 = 92;

pub const COLON: u8 = 58;

pub const DOT: u8 = 46;

pub const QUESTION: u8 = 63;

/// Whether a byte separates components. A verbatim Windows path is separated by
/// backslashes alone.
pub open spec fn separates(platform: Platform, verbatim: bool, byte: u8) -> bool {
    if platform == Platform::Windows {
        byte == BACKSLASH || (byte == SLASH && !verbatim)
    } else {
        byte == SLASH
    }
}

fn is_separator(platform: Platform, verbatim: bool, byte: u8) -> (yes: bool)
    ensures
        yes == separates(platform, verbatim, byte),
{
    match platform {
        Platform::Windows => byte == BACKSLASH || (byte == SLASH && !verbatim),
        _ => byte == SLASH,
    }
}

/// The separator that a platform writes.
pub open spec fn main_separator(platform: Platform) -> u8 {
    if platform == Platform::Windows {
        BACKSLASH
    } else {
        SLASH
    }
}

fn separator_of(platform: Platform) -> (byte: u8)
    ensures
        byte == main_separator(platform),
{
    match platform {
        Platform::Windows => BACKSLASH,
        _ => SLASH,
    }
}

/// Whether `pattern` stands at `at`, a slash counting as a backslash.
pub open spec fn stands_at(path: Seq<u8>, at: int, pattern: Seq<u8>) -> bool {
    &&& at + pattern.len() <= path.len()
    &&& forall|i: int|
        0 <= i < pattern.len() ==> (#[trigger] pattern[i]) == (if path[at + i] == SLASH {
            BACKSLASH
        } else {
            path[at + i]
        })
}

/// Whether `byte` is a drive letter.
pub open spec fn drive_letter(byte: u8) -> bool {
    65 <= byte <= 90 || 97 <= byte <= 122
}

/// A drive letter in upper case.
pub open spec fn upper_letter(byte: u8) -> u8 {
    if 97 <= byte <= 122 {
        (byte - 32) as u8
    } else {
        byte
    }
}

/// Whether a drive such as `C:` stands at `at`.
pub open spec fn drive_at(path: Seq<u8>, at: int) -> bool {
    at + 2 <= path.len() && drive_letter(path[at]) && path[at + 1] == COLON
}

/// The end of the name that starts at `from`: the next separator, or the end of
/// the path.
pub open spec fn name_end(path: Seq<u8>, from: int, verbatim: bool) -> int
    decreases path.len() - from,
{
    if from >= path.len() || separates(Platform::Windows, verbatim, path[from]) {
        from
    } else {
        name_end(path, from + 1, verbatim)
    }
}

/// A server and a share, separated by a separator. The share may be missing.
pub open spec fn server_and_share(
    path: Seq<u8>,
    from: int,
    verbatim: bool,
) -> (Seq<u8>, Seq<u8>) {
    let end = name_end(path, from, verbatim);
    (
        path.subrange(from, end),
        if end < path.len() {
            path.subrange(end + 1, name_end(path, end + 1, verbatim))
        } else {
            Seq::empty()
        },
    )
}

/// The prefix of a Windows path.
pub open spec fn windows_prefix(path: Seq<u8>) -> Option<Start> {
    if stands_at(path, 0, seq![BACKSLASH, BACKSLASH]) {
        if stands_at(path, 2, seq![QUESTION, BACKSLASH]) && path[0] != SLASH && path[1] != SLASH
            && path[3] != SLASH {
            if stands_at(path, 4, seq![85u8, 78u8, 67u8, BACKSLASH]) {
                let (server, share) = server_and_share(path, 8, true);
                Some(
                    Start {
                        kind: PrefixKind::VerbatimUnc,
                        first: server,
                        second: share,
                        len: 8 + server.len() + (if share.len() > 0 {
                            1 + share.len() as int
                        } else {
                            0
                        }),
                    },
                )
            } else if drive_at(path, 4) && (path.len() == 6 || separates(
                Platform::Windows,
                false,
                path[6],
            )) {
                Some(
                    Start {
                        kind: PrefixKind::VerbatimDisk,
                        first: seq![upper_letter(path[4])],
                        second: Seq::empty(),
                        len: 6,
                    },
                )
            } else {
                let end = name_end(path, 4, true);
                Some(
                    Start {
                        kind: PrefixKind::Verbatim,
                        first: path.subrange(4, end),
                        second: Seq::empty(),
                        len: end,
                    },
                )
            }
        } else if stands_at(path, 2, seq![DOT, BACKSLASH]) {
            let end = name_end(path, 4, false);
            Some(
                Start {
                    kind: PrefixKind::DeviceNs,
                    first: path.subrange(4, end),
                    second: Seq::empty(),
                    len: end,
                },
            )
        } else {
            let (server, share) = server_and_share(path, 2, false);
            if server.len() > 0 && share.len() > 0 {
                Some(
                    Start {
                        kind: PrefixKind::Unc,
                        first: server,
                        second: share,
                        len: 3 + server.len() + share.len() as int,
                    },
                )
            } else {
                None
            }
        }
    } else if drive_at(path, 0) {
        Some(
            Start {
                kind: PrefixKind::Disk,
                first: seq![upper_letter(path[0])],
                second: Seq::empty(),
                len: 2,
            },
        )
    } else {
        None
    }
}

/// The prefix of a path.
pub open spec fn prefix_of(path: Seq<u8>, platform: Platform) -> Option<Start> {
    if platform == Platform::Windows {
        windows_prefix(path)
    } else {
        None
    }
}

/// Whether a kind of prefix makes the path verbatim.
pub open spec fn is_verbatim(kind: PrefixKind) -> bool {
    kind == PrefixKind::Verbatim || kind == PrefixKind::VerbatimUnc || kind
        == PrefixKind::VerbatimDisk
}

/// The end of the name never lies past the end of the path.
pub proof fn lemma_name_end(path: Seq<u8>, from: int, verbatim: bool)
    requires
        0 <= from <= path.len(),
    ensures
        from <= name_end(path, from, verbatim) <= path.len(),
        name_end(path, from, verbatim) < path.len() ==> separates(
            Platform::Windows,
            verbatim,
            path[name_end(path, from, verbatim)],
        ),
        forall|i: int|
            from <= i < name_end(path, from, verbatim) ==> !separates(
                Platform::Windows,
                verbatim,
                #[trigger] path[i],
            ),
    decreases path.len() - from,
{
    if from < path.len() && !separates(Platform::Windows, verbatim, path[from]) {
        lemma_name_end(path, from + 1, verbatim);
    }
}

/// A prefix is part of the path.
pub proof fn lemma_prefix_len(path: Seq<u8>)
    ensures
        windows_prefix(path) matches Some(start) ==> 2 <= start.len <= path.len(),
{
    if stands_at(path, 0, seq![BACKSLASH, BACKSLASH]) {
        assert(path.len() >= 2);
        if stands_at(path, 2, seq![QUESTION, BACKSLASH]) {
            assert(path.len() >= 4);
            lemma_name_end(path, 4, true);
            if stands_at(path, 4, seq![85u8, 78u8, 67u8, BACKSLASH]) {
                assert(path.len() >= 8);
                lemma_name_end(path, 8, true);
                let end = name_end(path, 8, true);
                if end < path.len() {
                    lemma_name_end(path, end + 1, true);
                }
            }
        }
        if stands_at(path, 2, seq![DOT, BACKSLASH]) {
            lemma_name_end(path, 4, false);
        }
        lemma_name_end(path, 2, false);
        let end = name_end(path, 2, false);
        if end < path.len() {
            lemma_name_end(path, end + 1, false);
        }
    }
}

/// Whether a byte sequence starts with `pattern` at `at`, a slash counting as a
/// backslash.
fn has_at(path: &[u8], at: usize, pattern: &[u8]) -> (yes: bool)
    requires
        at <= path@.len(),
    ensures
        yes == stands_at(path@, at as int, pattern@),
{
    if pattern.len() > path.len() - at {
        return false;
    }
    for i in 0..pattern.len()
        invariant
            at + pattern.len() <= path.len(),
            forall|j: int|
                0 <= j < i ==> (#[trigger] pattern@[j]) == (if path@[at + j] == SLASH {
                    BACKSLASH
                } else {
                    path@[at + j]
                }),
    {
        let byte: u8 = path[at + i];
        let plain: u8 = if byte == SLASH {
            BACKSLASH
        } else {
            byte
        };
        if pattern[i] != plain {
            assert(pattern@[i as int] != plain);
            return false;
        }
    }
    true
}

fn find_name_end(path: &[u8], from: usize, verbatim: bool) -> (end: usize)
    requires
        from <= path@.len(),
    ensures
        end == name_end(path@, from as int, verbatim),
        from <= end <= path@.len(),
{
    let mut end: usize = from;
    while end < path.len() && !is_separator(Platform::Windows, verbatim, path[end])
        invariant
            from <= end <= path@.len(),
            name_end(path@, from as int, verbatim) == name_end(path@, end as int, verbatim),
        decreases path@.len() - end,
    {
        end = end + 1;
    }
    end
}

fn is_drive_at(path: &[u8], at: usize) -> (yes: bool)
    requires
        at <= path@.len(),
    ensures
        yes == drive_at(path@, at as int),
{
    if path.len() - at < 2 {
        return false;
    }
    let letter: u8 = path[at];
    ((65 <= letter && letter <= 90) || (97 <= letter && letter <= 122)) && path[at + 1] == COLON
}

fn drive_of(letter: u8) -> (first: Vec<u8>)
    ensures
        first@ == seq![upper_letter(letter)],
{
    let upper: u8 = if 97 <= letter && letter <= 122 {
        letter - 32
    } else {
        letter
    };
    let mut first: Vec<u8> = Vec::new();
    first.push(upper);
    first
}

/// The bytes of a part of a path.
pub fn bytes_between(path: &[u8], from: usize, to: usize) -> (bytes: Vec<u8>)
    requires
        from <= to <= path@.len(),
    ensures
        bytes@ == path@.subrange(from as int, to as int),
{
    let mut bytes: Vec<u8> = Vec::new();
    for i in from..to
        invariant
            from <= to <= path@.len(),
            bytes@ == path@.subrange(from as int, i as int),
    {
        bytes.push(path[i]);
        assert(bytes@ =~= path@.subrange(from as int, i + 1));
    }
    bytes
}

fn find_server_and_share(path: &[u8], from: usize, verbatim: bool) -> (names: (Vec<u8>, Vec<u8>))
    requires
        from <= path@.len(),
    ensures
        names.0@ == server_and_share(path@, from as int, verbatim).0,
        names.1@ == server_and_share(path@, from as int, verbatim).1,
        from + names.0@.len() <= path.len(),
        names.1@.len() > 0 ==> from + names.0@.len() + 1 + names.1@.len() <= path.len(),
{
    let end = find_name_end(path, from, verbatim);
    let server = bytes_between(path, from, end);
    let share = if end < path.len() {
        let last = find_name_end(path, end + 1, verbatim);
        bytes_between(path, end + 1, last)
    } else {
        Vec::new()
    };
    (server, share)
}

/// Reads the prefix of a Windows path.
fn parse_prefix(path: &[u8]) -> (prefix: Option<Prefix>)
    ensures
        prefix is Some == windows_prefix(path@) is Some,
        prefix is Some ==> prefix->0@ == windows_prefix(path@)->0,
        prefix is Some ==> 2 <= prefix->0.len <= path@.len(),
{
    proof {
        lemma_prefix_len(path@);
    }
    if has_at(path, 0, &[BACKSLASH, BACKSLASH]) {
        assert([BACKSLASH, BACKSLASH]@ =~= seq![BACKSLASH, BACKSLASH]);
        if has_at(path, 2, &[QUESTION, BACKSLASH]) && path[0] != SLASH && path[1] != SLASH
            && path[3] != SLASH {
            assert([QUESTION, BACKSLASH]@ =~= seq![QUESTION, BACKSLASH]);
            if has_at(path, 4, &[85u8, 78u8, 67u8, BACKSLASH]) {
                assert([85u8, 78u8, 67u8, BACKSLASH]@ =~= seq![85u8, 78u8, 67u8, BACKSLASH]);
                let (first, second) = find_server_and_share(path, 8, true);
                let len: usize = 8 + first.len() + (if second.len() > 0 {
                    1 + second.len()
                } else {
                    0
                });
                Some(Prefix { kind: PrefixKind::VerbatimUnc, first, second, len })
            } else {
                assert([85u8, 78u8, 67u8, BACKSLASH]@ =~= seq![85u8, 78u8, 67u8, BACKSLASH]);
                if is_drive_at(path, 4) && (path.len() == 6 || is_separator(
                    Platform::Windows,
                    false,
                    path[6],
                )) {
                    Some(
                        Prefix {
                            kind: PrefixKind::VerbatimDisk,
                            first: drive_of(path[4]),
                            second: Vec::new(),
                            len: 6,
                        },
                    )
                } else {
                    let end = find_name_end(path, 4, true);
                    Some(
                        Prefix {
                            kind: PrefixKind::Verbatim,
                            first: bytes_between(path, 4, end),
                            second: Vec::new(),
                            len: end,
                        },
                    )
                }
            }
        } else {
            assert([QUESTION, BACKSLASH]@ =~= seq![QUESTION, BACKSLASH]);
            if has_at(path, 2, &[DOT, BACKSLASH]) {
                assert([DOT, BACKSLASH]@ =~= seq![DOT, BACKSLASH]);
                let end = find_name_end(path, 4, false);
                Some(
                    Prefix {
                        kind: PrefixKind::DeviceNs,
                        first: bytes_between(path, 4, end),
                        second: Vec::new(),
                        len: end,
                    },
                )
            } else {
                assert([DOT, BACKSLASH]@ =~= seq![DOT, BACKSLASH]);
                let (first, second) = find_server_and_share(path, 2, false);
                if first.len() > 0 && second.len() > 0 {
                    let len: usize = 3 + first.len() + second.len();
                    Some(Prefix { kind: PrefixKind::Unc, first, second, len })
                } else {
                    None
                }
            }
        }
    } else {
        assert([BACKSLASH, BACKSLASH]@ =~= seq![BACKSLASH, BACKSLASH]);
        if is_drive_at(path, 0) {
            Some(
                Prefix {
                    kind: PrefixKind::Disk,
                    first: drive_of(path[0]),
                    second: Vec::new(),
                    len: 2,
                },
            )
        } else {
            None
        }
    }
}

/// The text cut at its separators.
pub open spec fn segments(text: Seq<u8>, platform: Platform, verbatim: bool) -> Seq<Seq<u8>>
    decreases text.len(),
{
    if text.len() == 0 {
        seq![Seq::empty()]
    } else {
        let before = segments(text.drop_last(), platform, verbatim);
        if separates(platform, verbatim, text.last()) {
            before.push(Seq::empty())
        } else {
            before.drop_last().push(before.last().push(text.last()))
        }
    }
}

/// The component that a segment stands for. An empty segment stands for none,
/// and neither does `.`, except in a verbatim path.
pub open spec fn segment_part(segment: Seq<u8>, verbatim: bool) -> Option<Part> {
    if segment.len() == 0 {
        None
    } else if segment == seq![DOT] {
        if verbatim {
            Some(Part::CurDir)
        } else {
            None
        }
    } else if segment == seq![DOT, DOT] {
        Some(Part::ParentDir)
    } else {
        Some(Part::Normal(segment))
    }
}

/// The components that some segments stand for.
pub open spec fn segment_parts(cut: Seq<Seq<u8>>, verbatim: bool) -> Seq<Part>
    decreases cut.len(),
{
    if cut.len() == 0 {
        Seq::empty()
    } else {
        match segment_part(cut.last(), verbatim) {
            Some(part) => segment_parts(cut.drop_last(), verbatim).push(part),
            None => segment_parts(cut.drop_last(), verbatim),
        }
    }
}

/// Whether what follows the prefix starts with a separator.
pub open spec fn rooted(rest: Seq<u8>, platform: Platform) -> bool {
    rest.len() > 0 && separates(platform, false, rest[0])
}

/// Whether a path starts with the component `.`.
pub open spec fn starts_here(rest: Seq<u8>, platform: Platform) -> bool {
    rest.len() > 0 && rest[0] == DOT && (rest.len() == 1 || separates(platform, false, rest[1]))
}

/// What stands between the prefix and the rest of the path: the root, a leading
/// `.`, or nothing.
pub open spec fn start_parts(
    prefix: Option<Start>,
    rest: Seq<u8>,
    platform: Platform,
) -> Seq<Part> {
    if rooted(rest, platform) {
        seq![Part::RootDir]
    } else {
        match prefix {
            Some(start) => if start.kind != PrefixKind::Disk && !is_verbatim(start.kind) {
                seq![Part::RootDir]
            } else {
                Seq::empty()
            },
            None => if starts_here(rest, platform) {
                seq![Part::CurDir]
            } else {
                Seq::empty()
            },
        }
    }
}

/// What follows the prefix and the root.
pub open spec fn body_parts(rest: Seq<u8>, platform: Platform, verbatim: bool) -> Seq<Part> {
    segment_parts(
        segments(
            if rooted(rest, platform) {
                rest.skip(1)
            } else {
                rest
            },
            platform,
            verbatim,
        ),
        verbatim,
    )
}

/// The components of a path: its prefix, its root, and its names. Repeated and
/// trailing separators count once, and `.` counts at the start alone.
pub open spec fn components_of(path: Seq<u8>, platform: Platform) -> Seq<Part> {
    match prefix_of(path, platform) {
        Some(start) => {
            let rest = path.skip(start.len);
            seq![Part::Prefix { raw: path.take(start.len), parsed: start }] + start_parts(
                Some(start),
                rest,
                platform,
            ) + body_parts(rest, platform, is_verbatim(start.kind))
        },
        None => start_parts(None, path, platform) + body_parts(path, platform, false),
    }
}

/// Whether a path says where it starts: it has a root, and on Windows a prefix
/// too.
pub open spec fn absolute(path: Seq<u8>, platform: Platform) -> bool {
    if platform == Platform::Windows {
        match windows_prefix(path) {
            Some(start) => start.kind != PrefixKind::Disk || rooted(path.skip(start.len), platform),
            None => false,
        }
    } else {
        rooted(path, platform)
    }
}

/// There is always a last segment.
pub proof fn lemma_segments_nonempty(text: Seq<u8>, platform: Platform, verbatim: bool)
    ensures
        segments(text, platform, verbatim).len() > 0,
    decreases text.len(),
{
    if text.len() > 0 {
        lemma_segments_nonempty(text.drop_last(), platform, verbatim);
    }
}

fn kind_is_verbatim(kind: PrefixKind) -> (yes: bool)
    ensures
        yes == is_verbatim(kind),
{
    match kind {
        PrefixKind::Verbatim => true,
        PrefixKind::VerbatimUnc => true,
        PrefixKind::VerbatimDisk => true,
        _ => false,
    }
}

fn end_segment(out: &mut Vec<Component>, segment: Vec<u8>, verbatim: bool)
    ensures
        parts_of(final(out)@) == (match segment_part(segment@, verbatim) {
            Some(part) => parts_of(old(out)@).push(part),
            None => parts_of(old(out)@),
        }),
{
    let ghost before = out@;
    if segment.len() == 0 {
        return;
    }
    if segment.len() == 1 && segment[0] == DOT {
        assert(segment@ =~= seq![DOT]);
        if verbatim {
            out.push(Component::CurDir);
            assert(parts_of(out@) =~= parts_of(before).push(Part::CurDir));
        }
        return;
    }
    assert(segment@ != seq![DOT]) by {
        if segment@ == seq![DOT] {
            assert(segment@[0] == DOT);
        }
    }
    if segment.len() == 2 && segment[0] == DOT && segment[1] == DOT {
        assert(segment@ =~= seq![DOT, DOT]);
        out.push(Component::ParentDir);
        assert(parts_of(out@) =~= parts_of(before).push(Part::ParentDir));
        return;
    }
    assert(segment@ != seq![DOT, DOT]) by {
        if segment@ == seq![DOT, DOT] {
            assert(segment@[0] == DOT && segment@[1] == DOT);
        }
    }
    let ghost name = segment@;
    out.push(Component::Normal(segment));
    assert(parts_of(out@) =~= parts_of(before).push(Part::Normal(name)));
}

fn add_body(out: &mut Vec<Component>, text: &[u8], platform: Platform, verbatim: bool)
    ensures
        parts_of(final(out)@) == parts_of(old(out)@) + segment_parts(
            segments(text@, platform, verbatim),
            verbatim,
        ),
{
    let ghost before = parts_of(out@);
    let mut segment: Vec<u8> = Vec::new();
    proof {
        let cut = segments(text@.take(0), platform, verbatim);
        assert(cut == seq![Seq::<u8>::empty()]);
        assert(cut.drop_last() =~= Seq::<Seq<u8>>::empty());
        assert(before =~= before + segment_parts(cut.drop_last(), verbatim));
        assert(segment@ =~= cut.last());
    }
    for i in 0..text.len()
        invariant
            parts_of(out@) == before + segment_parts(
                segments(text@.take(i as int), platform, verbatim).drop_last(),
                verbatim,
            ),
            segment@ == segments(text@.take(i as int), platform, verbatim).last(),
    {
        let ghost cut = segments(text@.take(i as int), platform, verbatim);
        let ghost more = segments(text@.take(i + 1), platform, verbatim);
        proof {
            lemma_segments_nonempty(text@.take(i as int), platform, verbatim);
            assert(text@.take(i + 1).drop_last() =~= text@.take(i as int));
            assert(text@.take(i + 1).last() == text@[i as int]);
        }
        let byte: u8 = text[i];
        if is_separator(platform, verbatim, byte) {
            end_segment(out, segment, verbatim);
            segment = Vec::new();
            proof {
                assert(more.drop_last() =~= cut);
                assert(segment@ =~= more.last());
                assert(parts_of(out@) =~= before + segment_parts(cut, verbatim));
            }
        } else {
            segment.push(byte);
            assert(more.drop_last() =~= cut.drop_last());
        }
    }
    proof {
        lemma_segments_nonempty(text@, platform, verbatim);
        assert(text@.take(text@.len() as int) =~= text@);
    }
    let ghost cut = segments(text@, platform, verbatim);
    end_segment(out, segment, verbatim);
    assert(parts_of(out@) =~= before + segment_parts(cut, verbatim));
}

/// The components of a path.
pub fn components(path: &[u8], platform: Platform) -> (parts: Vec<Component>)
    ensures
        parts_of(parts@) == components_of(path@, platform),
{
    let prefix = match platform {
        Platform::Windows => parse_prefix(path),
        _ => None,
    };
    let mut out: Vec<Component> = Vec::new();
    assert(parts_of(out@) =~= Seq::<Part>::empty());
    match prefix {
        Some(prefix) => {
            let len = prefix.len;
            let kind = prefix.kind;
            let ghost start = prefix@;
            let raw = bytes_between(path, 0, len);
            assert(raw@ =~= path@.take(len as int));
            out.push(Component::Prefix { raw, parsed: prefix });
            assert(parts_of(out@) =~= seq![
                Part::Prefix { raw: path@.take(len as int), parsed: start },
            ]);
            let rest = slice_subrange(path, len, path.len());
            assert(rest@ =~= path@.skip(len as int));
            let verbatim = kind_is_verbatim(kind);
            let root = rest.len() > 0 && is_separator(platform, false, rest[0]);
            let implied = match kind {
                PrefixKind::Disk => false,
                _ => !verbatim,
            };
            let ghost before = parts_of(out@);
            if root || implied {
                out.push(Component::RootDir);
                assert(parts_of(out@) =~= before + seq![Part::RootDir]);
            } else {
                assert(before =~= before + Seq::<Part>::empty());
            }
            if root {
                let body = slice_subrange(rest, 1, rest.len());
                assert(body@ =~= rest@.skip(1));
                add_body(&mut out, body, platform, verbatim);
            } else {
                add_body(&mut out, rest, platform, verbatim);
            }
        },
        None => {
            let root = path.len() > 0 && is_separator(platform, false, path[0]);
            if root {
                out.push(Component::RootDir);
                assert(parts_of(out@) =~= seq![Part::RootDir]);
                let body = slice_subrange(path, 1, path.len());
                assert(body@ =~= path@.skip(1));
                add_body(&mut out, body, platform, false);
            } else {
                if path.len() > 0 && path[0] == DOT && (path.len() == 1 || is_separator(
                    platform,
                    false,
                    path[1],
                )) {
                    out.push(Component::CurDir);
                    assert(parts_of(out@) =~= seq![Part::CurDir]);
                }
                add_body(&mut out, path, platform, false);
            }
        },
    }
    out
}

/// Whether a path says where it starts.
pub fn is_absolute(path: &[u8], platform: Platform) -> (yes: bool)
    ensures
        yes == absolute(path@, platform),
{
    match platform {
        Platform::Windows => match parse_prefix(path) {
            Some(prefix) => match prefix.kind {
                PrefixKind::Disk => path.len() > prefix.len && is_separator(
                    platform,
                    false,
                    path[prefix.len],
                ),
                _ => true,
            },
            None => false,
        },
        _ => path.len() > 0 && is_separator(platform, false, path[0]),
    }
}

/// The bytes of a path, once more.
pub fn copy_bytes(path: &[u8]) -> (copy: Vec<u8>)
    ensures
        copy@ == path@,
{
    let copy = bytes_between(path, 0, path.len());
    assert(copy@ =~= path@);
    copy
}

impl Clone for Prefix {
    fn clone(&self) -> (copy: Prefix)
        ensures
            copy@ == self@,
    {
        Prefix {
            kind: self.kind,
            first: copy_bytes(self.first.as_slice()),
            second: copy_bytes(self.second.as_slice()),
            len: self.len,
        }
    }
}

impl Clone for Component {
    fn clone(&self) -> (copy: Component)
        ensures
            copy@ == self@,
    {
        match self {
            Component::Prefix { raw, parsed } => Component::Prefix {
                raw: copy_bytes(raw.as_slice()),
                parsed: parsed.clone(),
            },
            Component::RootDir => Component::RootDir,
            Component::CurDir => Component::CurDir,
            Component::ParentDir => Component::ParentDir,
            Component::Normal(name) => Component::Normal(copy_bytes(name.as_slice())),
        }
    }
}

/// Whether two byte sequences are the same.
pub fn same_bytes(a: &[u8], b: &[u8]) -> (same: bool)
    ensures
        same == (a@ == b@),
{
    if a.len() != b.len() {
        return false;
    }
    for i in 0..a.len()
        invariant
            a@.len() == b@.len(),
            forall|j: int| 0 <= j < i ==> a@[j] == b@[j],
    {
        if a[i] != b[i] {
            return false;
        }
    }
    assert(a@ =~= b@);
    true
}

/// Whether two components are the same. Two prefixes are if they mean the same.
pub open spec fn same_part(a: Part, b: Part) -> bool {
    match (a, b) {
        (Part::Prefix { parsed: m, .. }, Part::Prefix { parsed: n, .. }) => m.kind == n.kind
            && m.first == n.first && m.second == n.second,
        _ => a == b,
    }
}

impl Component {
    /// Whether two components are the same.
    pub fn same(&self, other: &Component) -> (same: bool)
        ensures
            same == same_part(self@, other@),
    {
        match (self, other) {
            (Component::Prefix { parsed: m, .. }, Component::Prefix { parsed: n, .. }) => m.kind
                == n.kind && same_bytes(m.first.as_slice(), n.first.as_slice()) && same_bytes(
                m.second.as_slice(),
                n.second.as_slice(),
            ),
            (Component::RootDir, Component::RootDir) => true,
            (Component::CurDir, Component::CurDir) => true,
            (Component::ParentDir, Component::ParentDir) => true,
            (Component::Normal(m), Component::Normal(n)) => same_bytes(
                m.as_slice(),
                n.as_slice(),
            ),
            _ => false,
        }
    }
}

/// How a component is written.
pub open spec fn part_bytes(part: Part, platform: Platform) -> Seq<u8> {
    match part {
        Part::Prefix { raw, .. } => raw,
        Part::RootDir => seq![main_separator(platform)],
        Part::CurDir => seq![DOT],
        Part::ParentDir => seq![DOT, DOT],
        Part::Normal(name) => name,
    }
}

/// Whether a separator has to follow a component before the next one.
pub open spec fn needs_separator(part: Part) -> bool {
    match part {
        Part::Prefix { parsed, .. } => parsed.kind != PrefixKind::Disk,
        Part::RootDir => false,
        _ => true,
    }
}

/// The path that some components make up.
pub open spec fn written(parts: Seq<Part>, platform: Platform) -> Seq<u8>
    decreases parts.len(),
{
    if parts.len() == 0 {
        Seq::empty()
    } else if parts.len() >= 2 && needs_separator(parts[parts.len() - 2]) && !(
    parts.last() is RootDir) {
        written(parts.drop_last(), platform).push(main_separator(platform)) + part_bytes(
            parts.last(),
            platform,
        )
    } else {
        written(parts.drop_last(), platform) + part_bytes(parts.last(), platform)
    }
}

impl Component {
    /// How the component is written.
    pub fn bytes(&self, platform: Platform) -> (bytes: Vec<u8>)
        ensures
            bytes@ == part_bytes(self@, platform),
    {
        match self {
            Component::Prefix { raw, .. } => copy_bytes(raw.as_slice()),
            Component::RootDir => {
                let mut bytes: Vec<u8> = Vec::new();
                bytes.push(separator_of(platform));
                assert(bytes@ =~= part_bytes(self@, platform));
                bytes
            },
            Component::CurDir => {
                let mut bytes: Vec<u8> = Vec::new();
                bytes.push(DOT);
                assert(bytes@ =~= part_bytes(self@, platform));
                bytes
            },
            Component::ParentDir => {
                let mut bytes: Vec<u8> = Vec::new();
                bytes.push(DOT);
                bytes.push(DOT);
                assert(bytes@ =~= part_bytes(self@, platform));
                bytes
            },
            Component::Normal(name) => copy_bytes(name.as_slice()),
        }
    }

    fn wants_separator(&self) -> (yes: bool)
        ensures
            yes == needs_separator(self@),
    {
        match self {
            Component::Prefix { parsed, .. } => match parsed.kind {
                PrefixKind::Disk => false,
                _ => true,
            },
            Component::RootDir => false,
            _ => true,
        }
    }
}

/// Appends bytes to a path.
pub fn append_bytes(path: &mut Vec<u8>, more: &[u8])
    ensures
        final(path)@ == old(path)@ + more@,
{
    let ghost before = path@;
    for i in 0..more.len()
        invariant
            path@ == before + more@.take(i as int),
    {
        path.push(more[i]);
        assert(path@ =~= before + more@.take(i + 1));
    }
    assert(more@.take(more@.len() as int) =~= more@);
}

/// Writes components as a path.
pub fn write_components(parts: &[Component], platform: Platform) -> (path: Vec<u8>)
    ensures
        path@ == written(parts_of(parts@), platform),
{
    let ghost all = parts_of(parts@);
    let mut path: Vec<u8> = Vec::new();
    assert(path@ =~= written(all.take(0), platform));
    for i in 0..parts.len()
        invariant
            all == parts_of(parts@),
            path@ == written(all.take(i as int), platform),
    {
        proof {
            assert(all.take(i + 1).drop_last() =~= all.take(i as int));
            assert(all.take(i + 1).last() == parts@[i as int]@);
            if i > 0 {
                assert(all.take(i + 1)[i - 1] == parts@[i - 1]@);
            }
        }
        let is_root = match &parts[i] {
            Component::RootDir => true,
            _ => false,
        };
        if i > 0 && parts[i - 1].wants_separator() && !is_root {
            path.push(separator_of(platform));
        }
        append_bytes(&mut path, parts[i].bytes(platform).as_slice());
    }
    assert(all.take(all.len() as int) =~= all);
    path
}

/// The kind and the length of the prefix of a Windows path.
pub fn windows_prefix_len(path: &[u8]) -> (prefix: Option<(PrefixKind, usize)>)
    ensures
        prefix is Some == windows_prefix(path@) is Some,
        prefix matches Some((kind, len)) ==> kind == windows_prefix(path@)->0.kind && len
            == windows_prefix(path@)->0.len && len <= path@.len(),
{
    match parse_prefix(path) {
        Some(prefix) => Some((prefix.kind, prefix.len)),
        None => None,
    }
}

} // verus!
