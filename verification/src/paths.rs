//! Path handling that behaves the same on Linux, macOS and Windows.
//!
//! Every server in the family confines callers to a set of roots. Three things
//! are easy to get wrong off Linux:
//!
//! * **Windows verbatim prefixes.** Canonicalising yields `\\?\C:\dir`. A
//!   configured root that does not yet exist keeps its plain `C:\dir` form, so a
//!   prefixed path would be compared against an unprefixed root and the sandbox
//!   would deny everything.
//! * **Case-insensitive filesystems.** Windows and macOS-by-default treat
//!   `C:\Work` and `c:\work` as the same directory; a byte-wise comparison does
//!   not, so a correctly configured root would reject its own files.
//! * **`HOME` is not universal.** Windows sets `USERPROFILE`. Reading only
//!   `HOME` there would yield a *relative* fallback, which silently writes into
//!   the working directory.

use vstd::prelude::*;
use vstd::string::StringExecFns;
use vstd::utf8::*;

use crate::components;
use crate::components::{
    append_bytes, bytes_between, components, copy_bytes, is_absolute, write_components, Component,
    Part, Platform, PrefixKind, BACKSLASH, QUESTION, SLASH,
};
use crate::text;
use crate::text::{from_utf8_lossy, same_text, to_lowercase, trim};

verus! {

/// Whether this platform's filesystem compares paths case-insensitively.
pub open spec fn ignores_case(platform: Platform) -> bool {
    platform == Platform::Windows || platform == Platform::MacOs
}

/// Whether this platform's filesystem compares paths case-insensitively.
///
/// macOS can be formatted case-sensitively, but the default is not.
pub fn case_insensitive_filesystem(platform: Platform) -> (yes: bool)
    ensures
        yes == ignores_case(platform),
{
    match platform {
        Platform::Windows => true,
        Platform::MacOs => true,
        Platform::Unix => false,
    }
}

/// Components without the last one, unless that is a root or a prefix.
pub open spec fn popped(out: Seq<Part>) -> Seq<Part> {
    if out.len() > 0 && !(out.last() is RootDir) && !(out.last() is Prefix) {
        out.drop_last()
    } else {
        out
    }
}

/// The root, behind the prefix that some components start with.
pub open spec fn at_root(out: Seq<Part>) -> Seq<Part> {
    if out.len() > 0 && out[0] is Prefix {
        seq![out[0], Part::RootDir]
    } else {
        seq![Part::RootDir]
    }
}

/// Whether some components start with a verbatim prefix.
pub open spec fn starts_verbatim(out: Seq<Part>) -> bool {
    out.len() > 0 && (out[0] matches Part::Prefix { parsed, .. } && components::is_verbatim(
        parsed.kind,
    ))
}

/// Further components behind a verbatim path, where `.` and `..` have to be
/// resolved at once.
pub open spec fn verbatim_extended(out: Seq<Part>, more: Seq<Part>) -> Seq<Part>
    decreases more.len(),
{
    if more.len() == 0 {
        out
    } else {
        let before = verbatim_extended(out, more.drop_last());
        match more.last() {
            Part::RootDir => (if before.len() > 1 {
                before.take(1)
            } else {
                before
            }).push(Part::RootDir),
            Part::CurDir => before,
            Part::ParentDir => if before.len() > 0 && before.last() is Normal {
                before.drop_last()
            } else {
                before
            },
            part => before.push(part),
        }
    }
}

/// Components with one more taken in: `.` is dropped and `..` takes the last one
/// away, never a root. On Windows a name that reads as a path of its own is
/// taken as that path.
pub open spec fn taken_in(out: Seq<Part>, part: Part, platform: Platform) -> Seq<Part> {
    match part {
        Part::Prefix { .. } => seq![part],
        Part::RootDir => at_root(out),
        Part::CurDir => out,
        Part::ParentDir => popped(out),
        Part::Normal(name) => if platform == Platform::Windows && components::windows_prefix(
            name,
        ) is Some {
            components::components_of(name, platform)
        } else if platform == Platform::Windows && starts_verbatim(out) {
            verbatim_extended(out, components::components_of(name, platform))
        } else {
            out.push(part)
        },
    }
}

/// Components with `.` and `..` collapsed.
pub open spec fn collapsed(parts: Seq<Part>, platform: Platform) -> Seq<Part>
    decreases parts.len(),
{
    if parts.len() == 0 {
        Seq::empty()
    } else {
        taken_in(collapsed(parts.drop_last(), platform), parts.last(), platform)
    }
}

/// A path with `.` and `..` collapsed.
pub open spec fn normalized(path: Seq<u8>, platform: Platform) -> Seq<u8> {
    components::written(
        collapsed(components::components_of(path, platform), platform),
        platform,
    )
}

fn pop(out: &mut Vec<Component>)
    ensures
        components::parts_of(final(out)@) == popped(components::parts_of(old(out)@)),
{
    let ghost before = out@;
    if out.len() > 0 {
        let keep = match &out[out.len() - 1] {
            Component::RootDir => true,
            Component::Prefix { .. } => true,
            _ => false,
        };
        if !keep {
            out.pop();
            assert(components::parts_of(out@) =~= components::parts_of(before).drop_last());
        }
    }
}

fn push(out: &mut Vec<Component>, part: Component)
    ensures
        components::parts_of(final(out)@) == components::parts_of(old(out)@).push(part@),
{
    let ghost before = out@;
    out.push(part);
    assert(components::parts_of(out@) =~= components::parts_of(before).push(part@));
}

fn go_to_root(out: &mut Vec<Component>)
    ensures
        components::parts_of(final(out)@) == at_root(components::parts_of(old(out)@)),
{
    let has_prefix = out.len() > 0 && (match &out[0] {
        Component::Prefix { .. } => true,
        _ => false,
    });
    let ghost before = components::parts_of(out@);
    if has_prefix {
        out.truncate(1);
    } else {
        out.truncate(0);
    }
    out.push(Component::RootDir);
    assert(components::parts_of(out@) =~= at_root(before));
}

fn is_verbatim_path(out: &Vec<Component>) -> (yes: bool)
    ensures
        yes == starts_verbatim(components::parts_of(out@)),
{
    out.len() > 0 && (match &out[0] {
        Component::Prefix { parsed, .. } => match parsed.kind {
            PrefixKind::Verbatim => true,
            PrefixKind::VerbatimUnc => true,
            PrefixKind::VerbatimDisk => true,
            _ => false,
        },
        _ => false,
    })
}

fn extend_verbatim(out: &mut Vec<Component>, more: &[Component])
    ensures
        components::parts_of(final(out)@) == verbatim_extended(
            components::parts_of(old(out)@),
            components::parts_of(more@),
        ),
{
    let ghost start = components::parts_of(out@);
    let ghost all = components::parts_of(more@);
    for i in 0..more.len()
        invariant
            all == components::parts_of(more@),
            components::parts_of(out@) == verbatim_extended(start, all.take(i as int)),
    {
        let ghost before = components::parts_of(out@);
        proof {
            assert(all.take(i + 1).drop_last() =~= all.take(i as int));
            assert(all.take(i + 1).last() == more@[i as int]@);
        }
        match &more[i] {
            Component::RootDir => {
                out.truncate(1);
                assert(components::parts_of(out@) =~= (if before.len() > 1 {
                    before.take(1)
                } else {
                    before
                }));
                push(out, Component::RootDir);
            },
            Component::CurDir => {},
            Component::ParentDir => {
                let named = out.len() > 0 && (match &out[out.len() - 1] {
                    Component::Normal(_) => true,
                    _ => false,
                });
                if named {
                    out.pop();
                    assert(components::parts_of(out@) =~= before.drop_last());
                }
            },
            part => {
                push(out, part.clone());
            },
        }
    }
    assert(all.take(all.len() as int) =~= all);
}

/// Collapses `.` and `..` in a list of components.
fn collapse(parts: &[Component], platform: Platform) -> (out: Vec<Component>)
    ensures
        components::parts_of(out@) == collapsed(components::parts_of(parts@), platform),
{
    let ghost all = components::parts_of(parts@);
    let mut out: Vec<Component> = Vec::new();
    assert(components::parts_of(out@) =~= collapsed(all.take(0), platform));
    for i in 0..parts.len()
        invariant
            all == components::parts_of(parts@),
            components::parts_of(out@) == collapsed(all.take(i as int), platform),
    {
        proof {
            assert(all.take(i + 1).drop_last() =~= all.take(i as int));
            assert(all.take(i + 1).last() == parts@[i as int]@);
        }
        match &parts[i] {
            Component::Prefix { .. } => {
                out.truncate(0);
                out.push(parts[i].clone());
                assert(components::parts_of(out@) =~= seq![parts@[i as int]@]);
            },
            Component::RootDir => {
                go_to_root(&mut out);
            },
            Component::CurDir => {},
            Component::ParentDir => {
                pop(&mut out);
            },
            Component::Normal(name) => {
                match platform {
                    Platform::Windows => {
                        if has_prefix(name.as_slice()) {
                            out = components(name.as_slice(), platform);
                        } else if is_verbatim_path(&out) {
                            extend_verbatim(
                                &mut out,
                                components(name.as_slice(), platform).as_slice(),
                            );
                        } else {
                            push(&mut out, parts[i].clone());
                        }
                    },
                    _ => {
                        push(&mut out, parts[i].clone());
                    },
                }
            },
        }
    }
    assert(all.take(all.len() as int) =~= all);
    out
}

/// Whether a Windows path starts with a prefix.
fn has_prefix(path: &[u8]) -> (yes: bool)
    ensures
        yes == components::windows_prefix(path@) is Some,
{
    components::windows_prefix_len(path).is_some()
}

/// Collapses `.` and `..` without touching the filesystem.
///
/// Used when a path does not exist yet: creating a new file inside a root must
/// still be possible, so the system cannot be asked.
pub fn normalize(path: &[u8], platform: Platform) -> (normal: Vec<u8>)
    ensures
        normal@ == normalized(path@, platform),
{
    let parts = components(path, platform);
    let out = collapse(parts.as_slice(), platform);
    write_components(out.as_slice(), platform)
}

/// `\\?\`, which makes a Windows path verbatim.
pub open spec fn verbatim_mark() -> Seq<u8> {
    seq![BACKSLASH, BACKSLASH, QUESTION, BACKSLASH]
}

/// `\\?\UNC\`, which makes a Windows network path verbatim.
pub open spec fn verbatim_unc_mark() -> Seq<u8> {
    seq![BACKSLASH, BACKSLASH, QUESTION, BACKSLASH, 85u8, 78u8, 67u8, BACKSLASH]
}

/// Whether a surrogate stands at the head of some bytes, written as any other
/// code point is: the names of a Windows filesystem may hold one by itself.
pub open spec fn starts_with_surrogate(bytes: Seq<u8>) -> bool {
    &&& bytes.len() >= 3
    &&& bytes[0] == 0xED
    &&& 0xA0 <= bytes[1] <= 0xBF
    &&& 0x80 <= bytes[2] <= 0xBF
}

/// Bytes with the replacement character, U+FFFD, for each surrogate.
pub open spec fn without_surrogates(bytes: Seq<u8>) -> Seq<u8>
    decreases bytes.len(),
{
    if bytes.len() == 0 {
        bytes
    } else if starts_with_surrogate(bytes) {
        seq![0xEFu8, 0xBF, 0xBD] + without_surrogates(bytes.skip(3))
    } else {
        seq![bytes[0]] + without_surrogates(bytes.skip(1))
    }
}

/// How a path reads as text: what is no text is replaced, on Windows each
/// surrogate by one replacement character.
pub open spec fn path_text(path: Seq<u8>, platform: Platform) -> Seq<char> {
    text::utf8_lossy(
        if platform == Platform::Windows {
            without_surrogates(path)
        } else {
            path
        },
    )
}

/// One step over what no surrogate starts.
proof fn lemma_no_surrogate(bytes: Seq<u8>, width: int)
    requires
        0 <= width <= bytes.len(),
        forall|i: int| 0 <= i < width ==> !starts_with_surrogate(#[trigger] bytes.skip(i)),
    ensures
        without_surrogates(bytes) == bytes.take(width) + without_surrogates(bytes.skip(width)),
    decreases width,
{
    if width == 0 {
        assert(bytes.skip(0) =~= bytes);
        assert(bytes.take(0) + without_surrogates(bytes) =~= without_surrogates(bytes));
    } else {
        let rest = bytes.skip(1);
        assert(bytes.skip(0) =~= bytes);
        assert(!starts_with_surrogate(bytes.skip(0)));
        assert forall|i: int| 0 <= i < width - 1 implies !starts_with_surrogate(
            #[trigger] rest.skip(i),
        ) by {
            assert(rest.skip(i) =~= bytes.skip(i + 1));
        }
        lemma_no_surrogate(rest, width - 1);
        assert(rest.skip(width - 1) =~= bytes.skip(width));
        assert(seq![bytes[0]] + (rest.take(width - 1) + without_surrogates(bytes.skip(width)))
            =~= bytes.take(width) + without_surrogates(bytes.skip(width)));
    }
}

/// Text in front of other bytes is passed over: it holds no surrogate, and none
/// starts in it.
pub proof fn lemma_text_is_passed_over(text: Seq<u8>, tail: Seq<u8>)
    requires
        valid_utf8(text),
    ensures
        without_surrogates(text + tail) == text + without_surrogates(tail),
    decreases text.len(),
{
    if text.len() == 0 {
        assert(text + tail =~= tail);
        assert(text + without_surrogates(tail) =~= without_surrogates(tail));
    } else {
        let bytes = text + tail;
        let width = length_of_first_scalar(text);
        let first = text[0];
        assert(pop_first_scalar(text) =~= text.skip(width));
        assert forall|i: int| 0 <= i < width implies !starts_with_surrogate(
            #[trigger] bytes.skip(i),
        ) by {
            utf8_byte_ranges_bitwise(text[i]);
            utf8_byte_ranges_bitwise(first);
            let here = bytes.skip(i);
            assert(here[0] == text[i]);
            if i == 0 && width == 3 {
                let second = text[1];
                let third = text[2];
                let point = codepoint_width_3(first, second, third);
                assert(first == 0xED && 0xA0 <= second && second <= 0xBF ==> 0xD800 <= ((
                (first & 0x0Fu8) as u32) << 12u32 | ((second & 0x3Fu8) as u32) << 6u32 | (third & 0x3Fu8) as u32)
                    && (((first & 0x0Fu8) as u32) << 12u32 | ((second & 0x3Fu8) as u32) << 6u32 | (third & 0x3Fu8) as u32) <= 0xDFFF)
                    by (bit_vector);
                assert(here[1] == second);
            }
        }
        lemma_no_surrogate(bytes, width);
        let rest = text.skip(width);
        lemma_text_is_passed_over(rest, tail);
        assert(bytes.skip(width) =~= rest + tail);
        assert(bytes.take(width) =~= text.take(width));
        assert(text.take(width) + (rest + without_surrogates(tail)) =~= text + without_surrogates(
            tail,
        ));
    }
}

/// Text holds no surrogate.
pub proof fn lemma_text_has_no_surrogate(bytes: Seq<u8>)
    requires
        valid_utf8(bytes),
    ensures
        without_surrogates(bytes) == bytes,
{
    let nothing = Seq::<u8>::empty();
    lemma_text_is_passed_over(bytes, nothing);
    assert(bytes + nothing =~= bytes);
    assert(bytes + without_surrogates(nothing) =~= bytes);
}

fn replace_surrogates(bytes: &[u8]) -> (clean: Vec<u8>)
    ensures
        clean@ == without_surrogates(bytes@),
{
    let mut clean: Vec<u8> = Vec::new();
    let mut i: usize = 0;
    proof {
        assert(bytes@.skip(0) =~= bytes@);
        assert(clean@ + without_surrogates(bytes@) =~= without_surrogates(bytes@));
    }
    while i < bytes.len()
        invariant
            i <= bytes@.len(),
            clean@ + without_surrogates(bytes@.skip(i as int)) == without_surrogates(bytes@),
        decreases bytes@.len() - i,
    {
        let ghost before = clean@;
        let ghost rest = bytes@.skip(i as int);
        if bytes.len() - i >= 3 && bytes[i] == 0xED && bytes[i + 1] >= 0xA0 && bytes[i + 1] <= 0xBF
            && bytes[i + 2] >= 0x80 && bytes[i + 2] <= 0xBF {
            clean.push(0xEF);
            clean.push(0xBF);
            clean.push(0xBD);
            i = i + 3;
            proof {
                assert(rest.skip(3) =~= bytes@.skip(i as int));
                assert(clean@ + without_surrogates(rest.skip(3)) =~= before + (
                seq![0xEFu8, 0xBF, 0xBD] + without_surrogates(rest.skip(3))));
            }
        } else {
            clean.push(bytes[i]);
            i = i + 1;
            proof {
                assert(rest.skip(1) =~= bytes@.skip(i as int));
                assert(clean@ + without_surrogates(rest.skip(1)) =~= before + (seq![rest[0]]
                    + without_surrogates(rest.skip(1))));
            }
        }
    }
    proof {
        assert(bytes@.skip(i as int) =~= Seq::<u8>::empty());
        assert(clean@ + without_surrogates(Seq::<u8>::empty()) =~= clean@);
    }
    clean
}

/// How a path reads as text.
pub fn show_path(path: &[u8], platform: Platform) -> (shown: String)
    ensures
        shown@ == path_text(path@, platform),
        valid_utf8(path@) ==> shown@ == decode_utf8(path@),
        platform == Platform::Windows && valid_utf8(without_surrogates(path@)) ==> shown@
            == decode_utf8(without_surrogates(path@)),
{
    proof {
        if valid_utf8(path@) {
            lemma_text_has_no_surrogate(path@);
        }
    }
    match platform {
        Platform::Windows => from_utf8_lossy(replace_surrogates(path).as_slice()),
        Platform::MacOs => from_utf8_lossy(path),
        Platform::Unix => from_utf8_lossy(path),
    }
}

/// The bytes of a path as text reads it.
pub open spec fn reencoded(path: Seq<u8>, platform: Platform) -> Seq<u8> {
    encode_utf8(path_text(path, platform))
}

/// A path without the one mark at its head that makes it verbatim.
pub open spec fn once_unmarked(path: Seq<u8>) -> Seq<u8> {
    if verbatim_unc_mark().is_prefix_of(path) {
        seq![BACKSLASH, BACKSLASH] + path.skip(8)
    } else if verbatim_mark().is_prefix_of(path) {
        path.skip(4)
    } else {
        path
    }
}

/// A path without the marks that make it verbatim, however many there are.
pub open spec fn unmarked(path: Seq<u8>) -> Seq<u8>
    decreases path.len(),
{
    if verbatim_mark().is_prefix_of(path) {
        unmarked(once_unmarked(path))
    } else {
        path
    }
}

/// A path without its verbatim prefix. One that has none stays as it is; of
/// another what is no text is replaced.
pub open spec fn stripped(path: Seq<u8>, platform: Platform) -> Seq<u8> {
    if !verbatim_mark().is_prefix_of(path) {
        path
    } else if valid_utf8(path) {
        once_unmarked(path)
    } else {
        once_unmarked(reencoded(path, platform))
    }
}

/// A path free of verbatim prefixes. One that has none stays as it is; of
/// another what is no text is replaced.
pub open spec fn bared(path: Seq<u8>, platform: Platform) -> Seq<u8> {
    if !verbatim_mark().is_prefix_of(path) {
        path
    } else if valid_utf8(path) {
        unmarked(path)
    } else {
        unmarked(reencoded(path, platform))
    }
}

/// No mark is left, and where none was nothing changes.
pub proof fn lemma_unmarked(path: Seq<u8>)
    ensures
        !verbatim_mark().is_prefix_of(unmarked(path)),
        !verbatim_mark().is_prefix_of(path) ==> unmarked(path) == path,
    decreases path.len(),
{
    if verbatim_mark().is_prefix_of(path) {
        lemma_unmarked(once_unmarked(path));
    }
}

/// What a path resolves to carries no verbatim prefix, so resolving or
/// stripping it again changes nothing.
pub proof fn resolving_leaves_no_verbatim_prefix(
    path: Seq<u8>,
    canonical: Option<Seq<u8>>,
    platform: Platform,
)
    ensures
        !verbatim_mark().is_prefix_of(resolved(path, canonical, platform)),
        bared(resolved(path, canonical, platform), platform) == resolved(path, canonical, platform),
        stripped(resolved(path, canonical, platform), platform) == resolved(
            path,
            canonical,
            platform,
        ),
{
    let system = match canonical {
        Some(known) => known,
        None => normalized(path, platform),
    };
    lemma_unmarked(system);
    lemma_unmarked(reencoded(system, platform));
}

fn starts_with(path: &[u8], mark: &[u8]) -> (yes: bool)
    ensures
        yes == mark@.is_prefix_of(path@),
{
    if mark.len() > path.len() {
        return false;
    }
    for i in 0..mark.len()
        invariant
            mark@.len() <= path@.len(),
            forall|j: int| 0 <= j < i ==> mark@[j] == path@[j],
    {
        if mark[i] != path[i] {
            return false;
        }
    }
    true
}

fn is_marked(path: &[u8]) -> (yes: bool)
    ensures
        yes == verbatim_mark().is_prefix_of(path@),
{
    let mark: [u8; 4] = [BACKSLASH, BACKSLASH, QUESTION, BACKSLASH];
    assert(mark@ =~= verbatim_mark());
    starts_with(path, &mark)
}

fn cut_mark(path: &[u8]) -> (plain: Vec<u8>)
    ensures
        plain@ == once_unmarked(path@),
{
    let unc_mark: [u8; 8] = [BACKSLASH, BACKSLASH, QUESTION, BACKSLASH, 85, 78, 67, BACKSLASH];
    assert(unc_mark@ =~= verbatim_unc_mark());
    if starts_with(path, &unc_mark) {
        let mut network: Vec<u8> = Vec::new();
        network.push(BACKSLASH);
        network.push(BACKSLASH);
        append_bytes(&mut network, bytes_between(path, 8, path.len()).as_slice());
        assert(network@ =~= seq![BACKSLASH, BACKSLASH] + path@.skip(8));
        network
    } else if is_marked(path) {
        let plain = bytes_between(path, 4, path.len());
        assert(plain@ =~= path@.skip(4));
        plain
    } else {
        copy_bytes(path)
    }
}

fn cut_marks(path: &[u8]) -> (plain: Vec<u8>)
    ensures
        plain@ == unmarked(path@),
{
    let mut plain = copy_bytes(path);
    while is_marked(plain.as_slice())
        invariant
            unmarked(plain@) == unmarked(path@),
        decreases plain@.len(),
    {
        plain = cut_mark(plain.as_slice());
    }
    plain
}

/// The bytes of a path as text reads it: those of text stay.
fn reencode(path: &[u8], platform: Platform) -> (bytes: Vec<u8>)
    ensures
        bytes@ == if valid_utf8(path@) {
            path@
        } else {
            reencoded(path@, platform)
        },
{
    let shown = show_path(path, platform);
    proof {
        if valid_utf8(path@) {
            decode_utf8_encode_utf8(path@);
        }
    }
    copy_bytes(shown.as_str().as_bytes())
}

/// Removes Windows' `\\?\` verbatim prefix so canonicalised and literal paths
/// can be compared. A path without it stays as it is.
#[must_use]
pub fn strip_verbatim(path: &[u8], platform: Platform) -> (plain: Vec<u8>)
    ensures
        plain@ == stripped(path@, platform),
{
    if !is_marked(path) {
        return copy_bytes(path);
    }
    cut_mark(reencode(path, platform).as_slice())
}

fn strip_all(path: &[u8], platform: Platform) -> (plain: Vec<u8>)
    ensures
        plain@ == bared(path@, platform),
        !verbatim_mark().is_prefix_of(plain@),
{
    proof {
        lemma_unmarked(path@);
        lemma_unmarked(reencoded(path@, platform));
    }
    if !is_marked(path) {
        return copy_bytes(path);
    }
    cut_marks(reencode(path, platform).as_slice())
}

/// What a path resolves to: its canonical form where the system has one, else
/// its normal form, and either free of verbatim prefixes.
pub open spec fn resolved(
    path: Seq<u8>,
    canonical: Option<Seq<u8>>,
    platform: Platform,
) -> Seq<u8> {
    bared(
        match canonical {
            Some(known) => known,
            None => normalized(path, platform),
        },
        platform,
    )
}

/// The path that may have been found.
pub open spec fn found_path(path: Option<Vec<u8>>) -> Option<Seq<u8>> {
    match path {
        Some(bytes) => Some(bytes@),
        None => None,
    }
}

/// Resolves a path for comparison: `canonical` is what the system makes of it,
/// if it exists; normalised lexically when it does not, and always free of
/// verbatim prefixes.
pub fn resolve_for_comparison(
    path: &[u8],
    canonical: Option<Vec<u8>>,
    platform: Platform,
) -> (plain: Vec<u8>)
    ensures
        plain@ == resolved(path@, found_path(canonical), platform),
        !verbatim_mark().is_prefix_of(plain@),
{
    match canonical {
        Some(known) => strip_all(known.as_slice(), platform),
        None => strip_all(normalize(path, platform).as_slice(), platform),
    }
}

/// How a component reads when case does not matter.
pub open spec fn folded(part: Part, platform: Platform) -> Seq<char> {
    text::lowercase(path_text(components::part_bytes(part, platform), platform))
}

/// Whether two components match under a case rule.
pub open spec fn parts_match(
    a: Part,
    b: Part,
    case_insensitive: bool,
    platform: Platform,
) -> bool {
    components::same_part(a, b) || (case_insensitive && folded(a, platform) == folded(b, platform))
}

/// Whether the components of a path start with those of a root.
pub open spec fn parts_within(
    path: Seq<Part>,
    root: Seq<Part>,
    case_insensitive: bool,
    platform: Platform,
) -> bool {
    &&& root.len() <= path.len()
    &&& forall|i: int|
        0 <= i < root.len() ==> parts_match(
            #[trigger] root[i],
            path[i],
            case_insensitive,
            platform,
        )
}

/// Whether a path lies inside a root.
pub open spec fn within(
    path: Seq<u8>,
    root: Seq<u8>,
    case_insensitive: bool,
    platform: Platform,
) -> bool {
    parts_within(
        components::components_of(stripped(path, platform), platform),
        components::components_of(stripped(root, platform), platform),
        case_insensitive,
        platform,
    )
}

fn components_match(
    a: &Component,
    b: &Component,
    case_insensitive: bool,
    platform: Platform,
) -> (yes: bool)
    ensures
        yes == parts_match(a@, b@, case_insensitive, platform),
{
    if a.same(b) {
        return true;
    }
    if !case_insensitive {
        return false;
    }
    let left = to_lowercase(show_path(a.bytes(platform).as_slice(), platform).as_str());
    let right = to_lowercase(show_path(b.bytes(platform).as_slice(), platform).as_str());
    same_text(left.as_str(), right.as_str())
}

/// The comparison with the case rule supplied explicitly, so both behaviours
/// are testable on any host.
///
/// Component-wise, never textual: a textual prefix test would let
/// `/data-private` pass as inside `/data`.
pub fn is_within_with(
    path: &[u8],
    root: &[u8],
    case_insensitive: bool,
    platform: Platform,
) -> (yes: bool)
    ensures
        yes == within(path@, root@, case_insensitive, platform),
{
    let path_parts = components(strip_verbatim(path, platform).as_slice(), platform);
    let root_parts = components(strip_verbatim(root, platform).as_slice(), platform);
    let ghost inside = components::parts_of(path_parts@);
    let ghost outer = components::parts_of(root_parts@);
    if root_parts.len() > path_parts.len() {
        return false;
    }
    for i in 0..root_parts.len()
        invariant
            root_parts@.len() <= path_parts@.len(),
            inside == components::parts_of(path_parts@),
            outer == components::parts_of(root_parts@),
            inside == components::components_of(stripped(path@, platform), platform),
            outer == components::components_of(stripped(root@, platform), platform),
            forall|j: int|
                0 <= j < i ==> parts_match(
                    #[trigger] outer[j],
                    inside[j],
                    case_insensitive,
                    platform,
                ),
    {
        if !components_match(&root_parts[i], &path_parts[i], case_insensitive, platform) {
            assert(!parts_match(outer[i as int], inside[i as int], case_insensitive, platform));
            return false;
        }
    }
    true
}

/// Whether `path` lies inside `root`, using the platform's comparison rules.
pub fn is_within(path: &[u8], root: &[u8], platform: Platform) -> (yes: bool)
    ensures
        yes == within(path@, root@, ignores_case(platform), platform),
{
    is_within_with(path, root, case_insensitive_filesystem(platform), platform)
}

/// The paths that a list holds.
pub open spec fn path_list(paths: Seq<Vec<u8>>) -> Seq<Seq<u8>> {
    Seq::new(paths.len(), |i: int| paths[i]@)
}

/// A path with another one joined to it: what is relative is put behind the
/// base, what says where it starts replaces it.
pub open spec fn joined_path(base: Seq<u8>, name: Seq<u8>, platform: Platform) -> Seq<u8> {
    let separator = components::main_separator(platform);
    if platform == Platform::Windows {
        let prefix = components::windows_prefix(base);
        if components::windows_prefix(name) is Some {
            name
        } else if prefix is Some && components::is_verbatim(prefix->0.kind) && name.len() > 0 {
            components::written(
                verbatim_extended(
                    components::components_of(base, platform),
                    components::components_of(name, platform),
                ),
                platform,
            )
        } else if components::rooted(name, platform) {
            match prefix {
                Some(start) => base.take(start.len) + name,
                None => name,
            }
        } else if base.len() == 0 || components::separates(platform, false, base.last()) || (
        prefix is Some && prefix->0.kind == PrefixKind::Disk && base.len() == 2) {
            base + name
        } else {
            base.push(separator) + name
        }
    } else if components::rooted(name, platform) {
        name
    } else if base.len() == 0 || base.last() == SLASH {
        base + name
    } else {
        base.push(separator) + name
    }
}

/// Joins a path to another.
pub fn join_path(base: &[u8], name: &[u8], platform: Platform) -> (path: Vec<u8>)
    ensures
        path@ == joined_path(base@, name@, platform),
{
    let mut path = copy_bytes(base);
    match platform {
        Platform::Windows => {
            let prefix = components::windows_prefix_len(base);
            if has_prefix(name) {
                return copy_bytes(name);
            }
            let verbatim = match prefix {
                Some((PrefixKind::Verbatim, _)) => true,
                Some((PrefixKind::VerbatimUnc, _)) => true,
                Some((PrefixKind::VerbatimDisk, _)) => true,
                _ => false,
            };
            if verbatim && name.len() > 0 {
                let mut parts = components(base, platform);
                extend_verbatim(&mut parts, components(name, platform).as_slice());
                return write_components(parts.as_slice(), platform);
            }
            if name.len() > 0 && (name[0] == SLASH || name[0] == BACKSLASH) {
                match prefix {
                    Some((_, len)) => {
                        path.truncate(len);
                        assert(path@ =~= base@.take(len as int));
                    },
                    None => {
                        path.truncate(0);
                        assert(Seq::<u8>::empty() + name@ =~= name@);
                    },
                }
            } else {
                let bare_disk = match prefix {
                    Some((PrefixKind::Disk, _)) => base.len() == 2,
                    _ => false,
                };
                if base.len() > 0 && base[base.len() - 1] != SLASH && base[base.len() - 1]
                    != BACKSLASH && !bare_disk {
                    path.push(BACKSLASH);
                }
            }
        },
        _ => {
            if name.len() > 0 && name[0] == SLASH {
                return copy_bytes(name);
            }
            if base.len() > 0 && base[base.len() - 1] != SLASH {
                path.push(SLASH);
            }
        },
    }
    append_bytes(&mut path, name);
    path
}

/// The environment variables that say where a user's directories are, as far as
/// they are set to text.
#[derive(Debug)]
pub struct UserVariables {
    pub home: Option<String>,
    pub userprofile: Option<String>,
    pub homedrive: Option<String>,
    pub homepath: Option<String>,
    pub localappdata: Option<String>,
    pub appdata: Option<String>,
    pub xdg_cache_home: Option<String>,
    pub xdg_config_home: Option<String>,
}

/// The path that a variable holds, if it is set and not empty.
pub open spec fn nonempty(variable: Option<String>) -> Option<Seq<u8>> {
    match variable {
        Some(value) => if value@.len() > 0 {
            Some(encode_utf8(value@))
        } else {
            None
        },
        None => None,
    }
}

/// The path that a variable holds, if it is set and not blank.
pub open spec fn nonblank(variable: Option<String>) -> Option<Seq<u8>> {
    match variable {
        Some(value) => if text::trimmed(value@).len() > 0 {
            Some(encode_utf8(value@))
        } else {
            None
        },
        None => None,
    }
}

/// The user's home directory: `HOME`, else `USERPROFILE`, else `HOMEDRIVE` and
/// `HOMEPATH` together. A blank variable counts as absent.
pub open spec fn home_of(variables: UserVariables) -> Option<Seq<u8>> {
    match nonblank(variables.home) {
        Some(path) => Some(path),
        None => match nonblank(variables.userprofile) {
            Some(path) => Some(path),
            None => match (variables.homedrive, variables.homepath) {
                (Some(drive), Some(path)) => if text::trimmed(drive@).len() > 0 && text::trimmed(
                    path@,
                ).len() > 0 {
                    Some(encode_utf8(drive@ + path@))
                } else {
                    None
                },
                _ => None,
            },
        },
    }
}

fn if_nonempty(variable: &Option<String>) -> (path: Option<Vec<u8>>)
    ensures
        found_path(path) == nonempty(*variable),
{
    match variable {
        Some(value) => if value.as_str().is_empty() {
            None
        } else {
            Some(copy_bytes(value.as_str().as_bytes()))
        },
        None => None,
    }
}

fn if_nonblank(variable: &Option<String>) -> (path: Option<Vec<u8>>)
    ensures
        found_path(path) == nonblank(*variable),
{
    match variable {
        Some(value) => if trim(value.as_str()).is_empty() {
            None
        } else {
            Some(copy_bytes(value.as_str().as_bytes()))
        },
        None => None,
    }
}

/// The user's home directory.
///
/// `HOME` first, then `USERPROFILE` for Windows, which also splits it across two
/// variables. `None` rather than a relative fallback: writing into the working
/// directory because an environment variable was missing is worse than failing
/// loudly.
pub fn home_dir(variables: &UserVariables) -> (path: Option<Vec<u8>>)
    ensures
        found_path(path) == home_of(*variables),
{
    let home = if_nonblank(&variables.home);
    if home.is_some() {
        return home;
    }
    let profile = if_nonblank(&variables.userprofile);
    if profile.is_some() {
        return profile;
    }
    match (&variables.homedrive, &variables.homepath) {
        (Some(drive), Some(path)) => {
            if !trim(drive.as_str()).is_empty() && !trim(path.as_str()).is_empty() {
                let mut whole = drive.clone();
                whole.append(path.as_str());
                Some(copy_bytes(whole.as_str().as_bytes()))
            } else {
                None
            }
        },
        _ => None,
    }
}

/// A directory below the home directory, if there is one.
pub open spec fn below_home(
    variables: UserVariables,
    name: Seq<char>,
    platform: Platform,
) -> Option<Seq<u8>> {
    match home_of(variables) {
        Some(home) => Some(joined_path(home, encode_utf8(name), platform)),
        None => None,
    }
}

/// A directory two levels below the home directory, if there is one.
pub open spec fn two_below_home(
    variables: UserVariables,
    outer: Seq<char>,
    inner: Seq<char>,
    platform: Platform,
) -> Option<Seq<u8>> {
    match below_home(variables, outer, platform) {
        Some(path) => Some(joined_path(path, encode_utf8(inner), platform)),
        None => None,
    }
}

fn under_home(variables: &UserVariables, name: &str, platform: Platform) -> (path: Option<Vec<u8>>)
    ensures
        found_path(path) == below_home(*variables, name@, platform),
{
    match home_dir(variables) {
        Some(home) => Some(join_path(home.as_slice(), name.as_bytes(), platform)),
        None => None,
    }
}

fn two_under_home(
    variables: &UserVariables,
    outer: &str,
    inner: &str,
    platform: Platform,
) -> (path: Option<Vec<u8>>)
    ensures
        found_path(path) == two_below_home(*variables, outer@, inner@, platform),
{
    match under_home(variables, outer, platform) {
        Some(path) => Some(join_path(path.as_slice(), inner.as_bytes(), platform)),
        None => None,
    }
}

/// The one, or else the other.
pub open spec fn or_else(first: Option<Seq<u8>>, second: Option<Seq<u8>>) -> Option<Seq<u8>> {
    match first {
        Some(path) => Some(path),
        None => second,
    }
}

/// The per-user cache directory, following each platform's convention.
pub fn cache_dir(variables: &UserVariables, platform: Platform) -> (path: Option<Vec<u8>>)
    ensures
        found_path(path) == (match platform {
            Platform::Windows => or_else(
                nonempty(variables.localappdata),
                two_below_home(*variables, "AppData"@, "Local"@, platform),
            ),
            Platform::MacOs => two_below_home(*variables, "Library"@, "Caches"@, platform),
            Platform::Unix => or_else(
                nonempty(variables.xdg_cache_home),
                below_home(*variables, ".cache"@, platform),
            ),
        }),
{
    match platform {
        Platform::Windows => {
            let local = if_nonempty(&variables.localappdata);
            if local.is_some() {
                return local;
            }
            two_under_home(variables, "AppData", "Local", platform)
        },
        Platform::MacOs => two_under_home(variables, "Library", "Caches", platform),
        Platform::Unix => {
            let xdg = if_nonempty(&variables.xdg_cache_home);
            if xdg.is_some() {
                return xdg;
            }
            under_home(variables, ".cache", platform)
        },
    }
}

/// The per-user configuration directory.
pub fn config_dir(variables: &UserVariables, platform: Platform) -> (path: Option<Vec<u8>>)
    ensures
        found_path(path) == (match platform {
            Platform::Windows => or_else(
                nonempty(variables.appdata),
                two_below_home(*variables, "AppData"@, "Roaming"@, platform),
            ),
            Platform::MacOs => two_below_home(
                *variables,
                "Library"@,
                "Application Support"@,
                platform,
            ),
            Platform::Unix => or_else(
                nonempty(variables.xdg_config_home),
                below_home(*variables, ".config"@, platform),
            ),
        }),
{
    match platform {
        Platform::Windows => {
            let roaming = if_nonempty(&variables.appdata);
            if roaming.is_some() {
                return roaming;
            }
            two_under_home(variables, "AppData", "Roaming", platform)
        },
        Platform::MacOs => two_under_home(variables, "Library", "Application Support", platform),
        Platform::Unix => {
            let xdg = if_nonempty(&variables.xdg_config_home);
            if xdg.is_some() {
                return xdg;
            }
            under_home(variables, ".config", platform)
        },
    }
}

/// The user's `.ssh` directory, which is `~/.ssh` on every platform OpenSSH
/// supports, Windows included.
pub fn ssh_dir(variables: &UserVariables, platform: Platform) -> (path: Option<Vec<u8>>)
    ensures
        found_path(path) == below_home(*variables, ".ssh"@, platform),
{
    under_home(variables, ".ssh", platform)
}

} // verus!
