//! What holds of every path: being inside a root is a matter of components, and
//! collapsing leaves no `..` behind.

use vstd::prelude::*;
use vstd::utf8::*;

use crate::components;
use crate::components::{
    Part, Platform, PrefixKind, Start, BACKSLASH, DOT, QUESTION, SLASH,
};
use crate::paths;

verus! {

/// A path lies inside itself.
pub proof fn a_path_is_within_itself(path: Seq<u8>, case_insensitive: bool, platform: Platform)
    ensures
        paths::within(path, path, case_insensitive, platform),
{
}

/// What lies inside a root under the stricter case rule lies inside it under the
/// laxer one.
pub proof fn ignoring_case_only_widens(path: Seq<u8>, root: Seq<u8>, platform: Platform)
    requires
        paths::within(path, root, false, platform),
    ensures
        paths::within(path, root, true, platform),
{
    let inside = components::components_of(paths::stripped(path, platform), platform);
    let outer = components::components_of(paths::stripped(root, platform), platform);
    assert forall|i: int| 0 <= i < outer.len() implies paths::parts_match(
        #[trigger] outer[i],
        inside[i],
        true,
        platform,
    ) by {
        assert(paths::parts_match(outer[i], inside[i], false, platform));
    }
}

/// Whether three components that match in turn do so in one way: all are the
/// same, or all read the same when case does not matter. Only prefixes can be the
/// same under two spellings, written with other separators.
pub open spec fn match_alike(a: Part, b: Part, c: Part, platform: Platform) -> bool {
    ||| components::same_part(a, b) && components::same_part(b, c)
    ||| paths::folded(a, platform) == paths::folded(b, platform) && paths::folded(b, platform)
        == paths::folded(c, platform)
}

/// What lies inside a directory that lies inside a root lies inside the root.
/// (With case ignored on Windows, a prefix can be the same as a second one under
/// another spelling, and that one the same as a third but for case: the first
/// and the third then do not match.)
pub proof fn within_is_transitive(
    path: Seq<u8>,
    directory: Seq<u8>,
    root: Seq<u8>,
    case_insensitive: bool,
    platform: Platform,
)
    requires
        paths::within(path, directory, case_insensitive, platform),
        paths::within(directory, root, case_insensitive, platform),
        case_insensitive && platform == Platform::Windows ==> ({
            let inner = components::components_of(paths::stripped(path, platform), platform);
            let middle = components::components_of(paths::stripped(directory, platform), platform);
            let outer = components::components_of(paths::stripped(root, platform), platform);
            outer.len() > 0 ==> match_alike(outer[0], middle[0], inner[0], platform)
        }),
    ensures
        paths::within(path, root, case_insensitive, platform),
{
    let inner = components::components_of(paths::stripped(path, platform), platform);
    let middle = components::components_of(paths::stripped(directory, platform), platform);
    let outer = components::components_of(paths::stripped(root, platform), platform);
    lemma_read(paths::stripped(path, platform), platform);
    lemma_read(paths::stripped(directory, platform), platform);
    lemma_read(paths::stripped(root, platform), platform);
    assert forall|i: int| 0 <= i < outer.len() implies paths::parts_match(
        #[trigger] outer[i],
        inner[i],
        case_insensitive,
        platform,
    ) by {
        assert(paths::parts_match(outer[i], middle[i], case_insensitive, platform));
        assert(paths::parts_match(middle[i], inner[i], case_insensitive, platform));
        assert(outer[i] is Prefix ==> i == 0);
        assert(middle[i] is Prefix ==> i == 0);
        assert(inner[i] is Prefix ==> i == 0);
    }
}

/// Two paths that lie inside each other, case kept, are one and the same: they
/// have the same components.
pub proof fn containment_both_ways_is_equality(a: Seq<u8>, b: Seq<u8>, platform: Platform)
    requires
        paths::within(a, b, false, platform),
        paths::within(b, a, false, platform),
    ensures
        ({
            let left = components::components_of(paths::stripped(a, platform), platform);
            let right = components::components_of(paths::stripped(b, platform), platform);
            &&& left.len() == right.len()
            &&& forall|i: int|
                0 <= i < left.len() ==> components::same_part(#[trigger] left[i], right[i])
            &&& platform != Platform::Windows ==> left == right
        }),
{
    let left = components::components_of(paths::stripped(a, platform), platform);
    let right = components::components_of(paths::stripped(b, platform), platform);
    assert forall|i: int| 0 <= i < left.len() implies components::same_part(
        #[trigger] left[i],
        right[i],
    ) by {
        assert(paths::parts_match(left[i], right[i], false, platform));
    }
    if platform != Platform::Windows {
        lemma_read(paths::stripped(a, platform), platform);
        assert forall|i: int| 0 <= i < left.len() implies left[i] == right[i] by {
            assert(components::same_part(left[i], right[i]));
        }
        assert(left =~= right);
    }
}

/// A path inside a root has the root's components first: a name that merely
/// starts with the root's last name does not count.
pub proof fn containment_is_by_components(
    path: Seq<u8>,
    root: Seq<u8>,
    platform: Platform,
    i: int,
)
    requires
        paths::within(path, root, false, platform),
        0 <= i < components::components_of(paths::stripped(root, platform), platform).len(),
    ensures
        i < components::components_of(paths::stripped(path, platform), platform).len(),
        components::same_part(
            components::components_of(paths::stripped(root, platform), platform)[i],
            components::components_of(paths::stripped(path, platform), platform)[i],
        ),
{
    let outer = components::components_of(paths::stripped(root, platform), platform);
    let inner = components::components_of(paths::stripped(path, platform), platform);
    assert(paths::parts_match(outer[i], inner[i], false, platform));
}

/// A name that is one component of a path wherever it stands: it has a byte, no
/// separator, is neither `.` nor `..`, and on Windows names no drive.
pub open spec fn plain_name(name: Seq<u8>, platform: Platform) -> bool {
    &&& name.len() > 0
    &&& forall|i: int| 0 <= i < name.len() ==> !components::separates(platform, false, name[i])
    &&& name != seq![DOT]
    &&& name != seq![DOT, DOT]
    &&& platform == Platform::Windows ==> !components::drive_at(name, 0)
}

/// Whether a prefix is read off its own bytes.
pub open spec fn plain_prefix(raw: Seq<u8>, parsed: Start, platform: Platform) -> bool {
    &&& platform == Platform::Windows
    &&& components::windows_prefix(raw) == Some(parsed)
    &&& parsed.len == raw.len()
}

/// Components without `.` and `..`: a prefix and a root at most in front, then
/// plain names.
pub open spec fn clean(parts: Seq<Part>, platform: Platform) -> bool {
    forall|i: int|
        0 <= i < parts.len() ==> match #[trigger] parts[i] {
            Part::Normal(name) => plain_name(name, platform),
            Part::RootDir => i == 0 || (i == 1 && parts[0] is Prefix),
            Part::Prefix { raw, parsed } => i == 0 && plain_prefix(raw, parsed, platform),
            _ => false,
        }
}

/// Whether a name that a Windows path holds is none that is read as a path of its
/// own: it has no prefix, and of the names in it (in a verbatim path a name can
/// hold slashes) none starts with a drive.
pub open spec fn names_no_path(name: Seq<u8>) -> bool {
    &&& components::windows_prefix(name) is None
    &&& forall|i: int|
        0 <= i < components::components_of(name, Platform::Windows).len() ==> (
        #[trigger] components::components_of(name, Platform::Windows)[i] matches Part::Normal(
            piece,
        ) ==> !components::drive_at(piece, 0))
}

/// Whether no Windows rule makes a name of the path something else: none is read
/// as a path of its own, and none is taken for a share that the prefix lacks, as
/// in `\\?\UNC\server\\name`.
pub open spec fn ordinary(path: Seq<u8>, platform: Platform) -> bool {
    let parts = components::components_of(path, platform);
    platform == Platform::Windows ==> {
        &&& forall|i: int|
            0 <= i < parts.len() ==> (#[trigger] parts[i] matches Part::Normal(name)
                ==> names_no_path(name))
        &&& (components::windows_prefix(path) matches Some(start) && start.kind
            == PrefixKind::VerbatimUnc && start.second.len() == 0) ==> paths::collapsed(
            parts,
            platform,
        ).len() <= 2
    }
}

/// Whether a path is verbatim.
pub open spec fn verbatim(path: Seq<u8>, platform: Platform) -> bool {
    components::prefix_of(path, platform) matches Some(start) && components::is_verbatim(
        start.kind,
    )
}

/// Whether what collapsing leaves of a path are clean components. (On Windows a
/// name can be read as a path of its own, which may hold a `..` again, as `D:..`
/// in `C:\D:..`; and behind a verbatim network prefix that lacks a share a name
/// would be taken for one, as in `\\?\UNC\server\\name`.)
pub open spec fn settles(path: Seq<u8>, platform: Platform) -> bool {
    let out = paths::collapsed(components::components_of(path, platform), platform);
    &&& clean(out, platform)
    &&& out.len() > 2 ==> !(out[0] matches Part::Prefix { parsed, .. } && parsed.kind
        == PrefixKind::VerbatimUnc && parsed.second.len() == 0)
}

/// Whether the last of some names that is read as a path of its own, where one
/// is, is absolute.
pub open spec fn ends_absolute(parts: Seq<Part>, platform: Platform) -> bool
    decreases parts.len(),
{
    if parts.len() == 0 {
        true
    } else {
        match parts.last() {
            Part::Normal(name) => if components::prefix_of(name, platform) is Some {
                components::absolute(name, platform)
            } else {
                ends_absolute(parts.drop_last(), platform)
            },
            _ => ends_absolute(parts.drop_last(), platform),
        }
    }
}

/// Whether a root follows a prefix that implies one.
spec fn root_implied(parts: Seq<Part>) -> bool {
    parts.len() > 0 ==> (parts[0] matches Part::Prefix { parsed, .. } ==> parsed.kind
        == PrefixKind::Disk || (parts.len() > 1 && parts[1] is RootDir) || (parts.len() == 1
        && components::is_verbatim(parsed.kind)))
}

/// A name without a separator and without a drive has no prefix.
pub proof fn lemma_name_has_no_prefix(name: Seq<u8>)
    requires
        plain_name(name, Platform::Windows),
    ensures
        components::windows_prefix(name) is None,
{
    let double = seq![BACKSLASH, BACKSLASH];
    if components::stands_at(name, 0, double) {
        assert(double[0] == BACKSLASH);
        assert(components::separates(Platform::Windows, false, name[0]));
    }
}

/// The end of a name depends on nothing behind it.
proof fn lemma_name_end_same(path: Seq<u8>, other: Seq<u8>, from: int, to: int, verbatim: bool)
    requires
        0 <= from <= to <= path.len(),
        to <= other.len(),
        to == components::name_end(path, from, verbatim),
        forall|i: int| from <= i < to ==> path[i] == other[i],
        to == other.len() || components::separates(Platform::Windows, verbatim, other[to]),
    ensures
        components::name_end(other, from, verbatim) == to,
    decreases to - from,
{
    components::lemma_name_end(path, from, verbatim);
    if from < to {
        assert(!components::separates(Platform::Windows, verbatim, path[from]));
        assert(components::name_end(path, from + 1, verbatim) == to);
        lemma_name_end_same(path, other, from + 1, to, verbatim);
    }
}

/// A prefix that does not make the path verbatim stays what it is, whatever
/// stands behind the separator that ends it.
#[verifier::rlimit(40)]
proof fn lemma_prefix_stays(path: Seq<u8>, other: Seq<u8>)
    requires
        components::windows_prefix(path) matches Some(start) && !components::is_verbatim(
            start.kind,
        ) && path.take(start.len).is_prefix_of(other) && (start.kind == PrefixKind::Disk
            || start.len == other.len() || components::separates(
            Platform::Windows,
            false,
            other[start.len],
        )),
    ensures
        components::windows_prefix(other) == components::windows_prefix(path),
{
    let start = components::windows_prefix(path)->0;
    components::lemma_prefix_len(path);
    let kept = path.take(start.len);
    assert forall|i: int| 0 <= i < start.len implies path[i] == other[i] by {
        assert(kept[i] == other[i]);
    }
    let double = seq![BACKSLASH, BACKSLASH];
    let query = seq![QUESTION, BACKSLASH];
    let device = seq![DOT, BACKSLASH];
    assert(double[0] == BACKSLASH && double[1] == BACKSLASH);
    assert(query[0] == QUESTION && query[1] == BACKSLASH);
    assert(device[0] == DOT && device[1] == BACKSLASH);
    if components::stands_at(path, 0, double) {
        assert(components::stands_at(other, 0, double));
        if start.kind == PrefixKind::DeviceNs {
            components::lemma_name_end(path, 4, false);
            assert(path[2] == other[2] && path[3] == other[3]);
            assert(components::stands_at(path, 2, device));
            assert(path[2] == DOT);
            assert(components::stands_at(other, 2, device));
            assert(other[2] != QUESTION);
            assert(!components::stands_at(other, 2, query));
            lemma_name_end_same(path, other, 4, start.len, false);
            assert(other.subrange(4, start.len) =~= path.subrange(4, start.len));
        } else {
            assert(start.kind == PrefixKind::Unc);
            let end = components::name_end(path, 2, false);
            components::lemma_name_end(path, 2, false);
            components::lemma_name_end(path, end + 1, false);
            let last = components::name_end(path, end + 1, false);
            assert(last == start.len);
            assert(path[end] == other[end]);
            lemma_name_end_same(path, other, 2, end, false);
            lemma_name_end_same(path, other, end + 1, last, false);
            assert(other.subrange(2, end) =~= path.subrange(2, end));
            assert(other.subrange(end + 1, last) =~= path.subrange(end + 1, last));
            assert(start.len >= 5);
            assert(path[2] == other[2] && path[3] == other[3]);
            assert(components::stands_at(path, 2, device) == components::stands_at(
                other,
                2,
                device,
            ));
            assert(components::stands_at(path, 2, query) == components::stands_at(
                other,
                2,
                query,
            ));
        }
    } else {
        assert(components::drive_at(path, 0));
        assert(path[0] == other[0] && path[1] == other[1]);
        assert(!components::stands_at(other, 0, double));
    }
}

/// A verbatim prefix stays what it is, whatever stands behind the backslash that
/// ends it, as long as it lacks no share.
#[verifier::rlimit(40)]
proof fn lemma_verbatim_stays(path: Seq<u8>, other: Seq<u8>)
    requires
        components::windows_prefix(path) matches Some(start) && components::is_verbatim(
            start.kind,
        ) && path.take(start.len).is_prefix_of(other) && (start.len == other.len() || (start.len
            < path.len() && other[start.len] == BACKSLASH)) && (start.kind
            == PrefixKind::VerbatimUnc && start.second.len() == 0 ==> other.len() <= start.len
            + 1),
    ensures
        components::windows_prefix(other) == components::windows_prefix(path),
{
    let start = components::windows_prefix(path)->0;
    components::lemma_prefix_len(path);
    let kept = path.take(start.len);
    assert forall|i: int| 0 <= i < start.len implies path[i] == other[i] by {
        assert(kept[i] == other[i]);
    }
    let double = seq![BACKSLASH, BACKSLASH];
    let query = seq![QUESTION, BACKSLASH];
    let network = seq![85u8, 78u8, 67u8, BACKSLASH];
    assert(double[0] == BACKSLASH && double[1] == BACKSLASH);
    assert(query[0] == QUESTION && query[1] == BACKSLASH);
    assert(network[0] == 85 && network[1] == 78 && network[2] == 67 && network[3] == BACKSLASH);
    components::lemma_name_end(path, 4, true);
    assert(start.len >= 4);
    assert(components::stands_at(other, 0, double));
    assert(components::stands_at(other, 2, query));
    assert(other[0] != SLASH && other[1] != SLASH && other[3] != SLASH);
    if start.kind == PrefixKind::VerbatimUnc {
        components::lemma_name_end(path, 8, true);
        assert(components::stands_at(path, 4, network));
        assert(start.len >= 8);
        assert(components::stands_at(other, 4, network));
        let end = components::name_end(path, 8, true);
        if end < path.len() {
            components::lemma_name_end(path, end + 1, true);
        }
        if start.second.len() > 0 {
            let last = components::name_end(path, end + 1, true);
            assert(path[end] == other[end]);
            lemma_name_end_same(path, other, 8, end, true);
            lemma_name_end_same(path, other, end + 1, last, true);
            assert(other.subrange(8, end) =~= path.subrange(8, end));
            assert(other.subrange(end + 1, last) =~= path.subrange(end + 1, last));
        } else {
            assert(start.len == end);
            lemma_name_end_same(path, other, 8, end, true);
            assert(other.subrange(8, end) =~= path.subrange(8, end));
            if end < other.len() {
                assert(components::name_end(other, end + 1, true) == end + 1);
                assert(other.subrange(end + 1, end + 1) =~= Seq::<u8>::empty());
            }
            assert(components::server_and_share(other, 8, true).1 =~= start.second);
        }
        assert(components::server_and_share(other, 8, true).0 =~= start.first);
        assert(components::server_and_share(other, 8, true).1 =~= start.second);
        assert(components::windows_prefix(other)->0 == start);
    } else {
        assert(!components::stands_at(path, 4, network));
        assert(!components::stands_at(other, 4, network)) by {
            if components::stands_at(other, 4, network) {
                assert(network[0] == 85 && other[4] == 85);
                assert(network[1] == 78 && other[5] == 78);
                assert(network[2] == 67 && other[6] == 67);
                assert(other[7] == BACKSLASH || other[7] == SLASH);
                assert(start.len >= 7);
                if start.len == 7 {
                    assert(path[7] == BACKSLASH);
                }
                assert(path[4] == 85 && path[5] == 78 && path[6] == 67);
                assert(path[7] == BACKSLASH || path[7] == SLASH);
                assert(components::stands_at(path, 4, network));
            }
        }
        if start.kind == PrefixKind::VerbatimDisk {
            assert(path[4] == other[4] && path[5] == other[5]);
            assert(components::drive_at(other, 4));
            assert(components::windows_prefix(other)->0 == start);
        } else {
            assert(start.kind == PrefixKind::Verbatim);
            lemma_name_end_same(path, other, 4, start.len, true);
            assert(other.subrange(4, start.len) =~= path.subrange(4, start.len));
            assert(!(components::drive_at(other, 4) && (other.len() == 6
                || components::separates(Platform::Windows, false, other[6])))) by {
                if components::drive_at(other, 4) {
                    assert(start.len >= 6) by {
                        if start.len < 6 {
                            assert(other[start.len] == BACKSLASH);
                        }
                    }
                    assert(components::drive_at(path, 4));
                    if start.len == 6 && path.len() > 6 {
                        assert(components::separates(Platform::Windows, true, path[6]));
                    }
                    if start.len > 6 {
                        assert(path[6] == other[6]);
                    }
                }
            }
        }
    }
}

/// No segment holds a separator.
proof fn lemma_segments_plain(text: Seq<u8>, platform: Platform)
    ensures
        forall|i: int, j: int|
            #![trigger components::segments(text, platform, false)[i][j]]
            0 <= i < components::segments(text, platform, false).len() && 0 <= j
                < components::segments(text, platform, false)[i].len() ==> !components::separates(
                platform,
                false,
                components::segments(text, platform, false)[i][j],
            ),
        components::segments(text, platform, false).len() > 0,
    decreases text.len(),
{
    if text.len() > 0 {
        lemma_segments_plain(text.drop_last(), platform);
        let before = components::segments(text.drop_last(), platform, false);
        let after = components::segments(text, platform, false);
        assert forall|i: int, j: int|
            #![trigger after[i][j]]
            0 <= i < after.len() && 0 <= j < after[i].len() implies !components::separates(
            platform,
            false,
            after[i][j],
        ) by {
            if components::separates(platform, false, text.last()) {
                if i < before.len() {
                    assert(after[i][j] == before[i][j]);
                }
            } else if i < before.len() - 1 {
                assert(after[i][j] == before[i][j]);
            } else if j < before.last().len() {
                assert(after[i][j] == before[i][j]);
            }
        }
    } else {
        let only = components::segments(text, platform, false);
        assert(only[0].len() == 0);
    }
}

/// What the components of segments are.
proof fn lemma_segment_parts_plain(cut: Seq<Seq<u8>>, platform: Platform)
    requires
        forall|i: int, j: int|
            #![trigger cut[i][j]]
            0 <= i < cut.len() && 0 <= j < cut[i].len() ==> !components::separates(
                platform,
                false,
                cut[i][j],
            ),
    ensures
        forall|i: int|
            0 <= i < components::segment_parts(cut, false).len() ==> match #[trigger] components::segment_parts(
                cut,
                false,
            )[i] {
                Part::Normal(name) => plain_name(name, platform) || (platform == Platform::Windows
                    && components::drive_at(name, 0)),
                Part::ParentDir => true,
                _ => false,
            },
    decreases cut.len(),
{
    if cut.len() > 0 {
        let rest = cut.drop_last();
        assert forall|i: int, j: int|
            #![trigger rest[i][j]]
            0 <= i < rest.len() && 0 <= j < rest[i].len() implies !components::separates(
            platform,
            false,
            rest[i][j],
        ) by {
            assert(cut[i][j] == rest[i][j]);
        }
        lemma_segment_parts_plain(rest, platform);
        let last = cut.last();
        assert forall|j: int| 0 <= j < last.len() implies !components::separates(
            platform,
            false,
            last[j],
        ) by {
            assert(cut[cut.len() - 1][j] == last[j]);
        }
    }
}

/// Where the components of a path can stand.
pub proof fn lemma_read(path: Seq<u8>, platform: Platform)
    ensures
        forall|i: int|
            0 <= i < components::components_of(path, platform).len() ==> match #[trigger] components::components_of(
                path,
                platform,
            )[i] {
                Part::RootDir => i == 0 || (i == 1 && components::components_of(
                    path,
                    platform,
                )[0] is Prefix),
                Part::Prefix { raw, parsed } => i == 0 && components::prefix_of(path, platform)
                    == Some(parsed) && raw == path.take(parsed.len),
                _ => true,
            },
        components::prefix_of(path, platform) is None ==> (components::components_of(
            path,
            platform,
        ).len() > 0 && components::components_of(path, platform)[0] is RootDir
            <==> components::rooted(path, platform)),
{
    let all = components::components_of(path, platform);
    match components::prefix_of(path, platform) {
        Some(start) => {
            let rest = path.skip(start.len);
            let first = seq![Part::Prefix { raw: path.take(start.len), parsed: start }];
            let root = components::start_parts(Some(start), rest, platform);
            let body = components::body_parts(
                rest,
                platform,
                components::is_verbatim(start.kind),
            );
            lemma_body_names(rest, platform, components::is_verbatim(start.kind));
            assert(all == first + root + body);
            assert(all[0] == first[0]);
            assert forall|i: int| 1 <= i < all.len() implies !(all[i] is Prefix) && (
            all[i] is RootDir ==> i == 1) by {
                if i < 1 + root.len() {
                    assert(all[i] == root[i - 1]);
                } else {
                    assert(all[i] == body[i - 1 - root.len()]);
                }
            }
        },
        None => {
            let root = components::start_parts(None, path, platform);
            let body = components::body_parts(path, platform, false);
            lemma_body_names(path, platform, false);
            assert(all == root + body);
            assert forall|i: int| 0 <= i < all.len() implies !(all[i] is Prefix) && (
            all[i] is RootDir ==> i == 0) by {
                if i < root.len() {
                    assert(all[i] == root[i]);
                } else {
                    assert(all[i] == body[i - root.len()]);
                }
            }
            if root.len() == 0 && all.len() > 0 {
                assert(all[0] == body[0]);
            }
        },
    }
}

/// What follows the prefix and the root are names and dots.
pub proof fn lemma_body_names(rest: Seq<u8>, platform: Platform, verbatim: bool)
    ensures
        forall|i: int|
            0 <= i < components::body_parts(rest, platform, verbatim).len() ==> !(
            #[trigger] components::body_parts(rest, platform, verbatim)[i] is Prefix) && !(
            components::body_parts(rest, platform, verbatim)[i] is RootDir),
{
    lemma_segment_parts_names(
        components::segments(
            if components::rooted(rest, platform) {
                rest.skip(1)
            } else {
                rest
            },
            platform,
            verbatim,
        ),
        verbatim,
    );
}

proof fn lemma_segment_parts_names(cut: Seq<Seq<u8>>, verbatim: bool)
    ensures
        forall|i: int|
            0 <= i < components::segment_parts(cut, verbatim).len() ==> !(
            #[trigger] components::segment_parts(cut, verbatim)[i] is Prefix) && !(
            components::segment_parts(cut, verbatim)[i] is RootDir),
    decreases cut.len(),
{
    if cut.len() > 0 {
        lemma_segment_parts_names(cut.drop_last(), verbatim);
    }
}

/// The components of an ordinary path that is not verbatim: plain names and dots
/// behind a prefix and a root.
#[verifier::rlimit(40)]
proof fn lemma_ordinary_parts(path: Seq<u8>, platform: Platform)
    requires
        ordinary(path, platform),
        !verbatim(path, platform),
    ensures
        forall|i: int|
            0 <= i < components::components_of(path, platform).len() ==> match #[trigger] components::components_of(
                path,
                platform,
            )[i] {
                Part::Normal(name) => plain_name(name, platform),
                Part::Prefix { raw, parsed } => i == 0 && plain_prefix(raw, parsed, platform),
                _ => true,
            },
{
    let all = components::components_of(path, platform);
    let prefix = components::prefix_of(path, platform);
    lemma_read(path, platform);
    let rest = match prefix {
        Some(start) => path.skip(start.len),
        None => path,
    };
    let text = if components::rooted(rest, platform) {
        rest.skip(1)
    } else {
        rest
    };
    let root = components::start_parts(prefix, rest, platform);
    let body = components::body_parts(rest, platform, false);
    lemma_segments_plain(text, platform);
    lemma_segment_parts_plain(components::segments(text, platform, false), platform);
    let offset = match prefix {
        Some(_) => 1 + root.len(),
        None => root.len(),
    };
    assert forall|i: int| 0 <= i < all.len() implies match #[trigger] all[i] {
        Part::Normal(name) => plain_name(name, platform),
        Part::Prefix { raw, parsed } => i == 0 && plain_prefix(raw, parsed, platform),
        _ => true,
    } by {
        match all[i] {
            Part::Normal(name) => {
                assert(i >= offset) by {
                    if i < offset {
                        if prefix is Some && i > 0 {
                            assert(all[i] == root[i - 1]);
                        } else if prefix is None {
                            assert(all[i] == root[i]);
                        }
                    }
                }
                assert(all[i] == body[i - offset]);
            },
            Part::Prefix { raw, parsed } => {
                components::lemma_prefix_len(path);
                assert(raw.take(parsed.len) =~= raw);
                lemma_prefix_stays(path, raw);
            },
            _ => {},
        }
    }
}

/// Collapsing keeps the prefix in front, and leaves plain names behind it.
#[verifier::rlimit(40)]
proof fn lemma_collapsed_clean(parts: Seq<Part>, platform: Platform)
    requires
        forall|i: int|
            0 <= i < parts.len() ==> match #[trigger] parts[i] {
                Part::Normal(name) => plain_name(name, platform),
                Part::Prefix { raw, parsed } => i == 0 && plain_prefix(raw, parsed, platform),
                _ => true,
            },
        !paths::starts_verbatim(parts),
    ensures
        clean(paths::collapsed(parts, platform), platform),
        parts.len() > 0 && parts[0] is Prefix ==> paths::collapsed(parts, platform).len() > 0
            && paths::collapsed(parts, platform)[0] == parts[0],
    decreases parts.len(),
{
    let after = paths::collapsed(parts, platform);
    if parts.len() > 0 {
        let rest = parts.drop_last();
        assert forall|i: int| 0 <= i < rest.len() implies match #[trigger] rest[i] {
            Part::Normal(name) => plain_name(name, platform),
            Part::Prefix { raw, parsed } => i == 0 && plain_prefix(raw, parsed, platform),
            _ => true,
        } by {
            assert(rest[i] == parts[i]);
        }
        assert(!paths::starts_verbatim(rest)) by {
            if rest.len() > 0 {
                assert(rest[0] == parts[0]);
            }
        }
        lemma_collapsed_clean(rest, platform);
        let before = paths::collapsed(rest, platform);
        let last = parts[parts.len() - 1];
        assert(after == paths::taken_in(before, last, platform));
        if rest.len() > 0 {
            assert(rest[0] == parts[0]);
        }
        if rest.len() > 1 {
            assert(rest[1] == parts[1]);
        }
        if rest.len() == 0 {
            assert(before =~= Seq::<Part>::empty());
        } else if !(parts[0] is Prefix) {
            lemma_no_prefix_made(rest, platform);
        }
        assert(!paths::starts_verbatim(before));
        match last {
            Part::Prefix { raw, parsed } => {
                assert(parts.len() == 1);
                assert(after =~= seq![last]);
            },
            Part::RootDir => {
                assert(after == paths::at_root(before));
                if before.len() > 0 {
                    assert(match before[0] {
                        Part::Prefix { raw, parsed } => plain_prefix(raw, parsed, platform),
                        _ => true,
                    });
                }
            },
            Part::Normal(name) => {
                if platform == Platform::Windows {
                    lemma_name_has_no_prefix(name);
                }
                assert(after =~= before.push(last));
                assert forall|i: int| 0 <= i < before.len() implies after[i] == before[i] by {}
            },
            Part::ParentDir => {
                assert(after == paths::popped(before));
                assert forall|i: int| 0 <= i < after.len() implies after[i] == before[i] by {}
            },
            Part::CurDir => {},
        }
        assert forall|i: int| 0 <= i < after.len() implies match #[trigger] after[i] {
            Part::Normal(name) => plain_name(name, platform),
            Part::RootDir => i == 0 || (i == 1 && after[0] is Prefix),
            Part::Prefix { raw, parsed } => i == 0 && plain_prefix(raw, parsed, platform),
            _ => false,
        } by {
            match last {
                Part::Normal(_) => {
                    if i < before.len() {
                        assert(after[i] == before[i]);
                        if before.len() > 0 {
                            assert(after[0] == before[0]);
                        }
                    }
                },
                Part::ParentDir => {
                    assert(after[i] == before[i]);
                    assert(after[0] == before[0]);
                },
                Part::CurDir => {
                    assert(after[i] == before[i]);
                },
                _ => {},
            }
        }
    }
}

/// Appending bytes that hold no separator makes the last segment longer.
pub proof fn lemma_segments_append(text: Seq<u8>, name: Seq<u8>, platform: Platform, verbatim: bool)
    requires
        forall|i: int|
            0 <= i < name.len() ==> !components::separates(platform, verbatim, name[i]),
    ensures
        components::segments(text + name, platform, verbatim) == components::segments(
            text,
            platform,
            verbatim,
        ).drop_last().push(components::segments(text, platform, verbatim).last() + name),
    decreases name.len(),
{
    let before = components::segments(text, platform, verbatim);
    components::lemma_segments_nonempty(text, platform, verbatim);
    if name.len() == 0 {
        assert(text + name =~= text);
        assert(before.last() + name =~= before.last());
        assert(before.drop_last().push(before.last()) =~= before);
    } else {
        let less = name.drop_last();
        lemma_segments_append(text, less, platform, verbatim);
        assert((text + name).drop_last() =~= text + less);
        assert((text + name).last() == name[name.len() - 1]);
        let middle = components::segments(text + less, platform, verbatim);
        assert(middle.drop_last() =~= before.drop_last());
        assert(middle.last() == before.last() + less);
        assert((before.last() + less).push(name.last()) =~= before.last() + name);
    }
}

/// Behind a separator, or at the start, a plain name is one more component.
pub proof fn lemma_name_added(rest: Seq<u8>, name: Seq<u8>, platform: Platform, verbatim: bool)
    requires
        plain_name(name, platform),
        rest.len() == 0 || components::separates(platform, verbatim, rest.last()),
    ensures
        components::rooted(rest + name, platform) == components::rooted(rest, platform),
        components::body_parts(rest + name, platform, verbatim) == components::body_parts(
            rest,
            platform,
            verbatim,
        ).push(Part::Normal(name)),
{
    let all = rest + name;
    let is_root = components::rooted(rest, platform);
    let text = if is_root {
        rest.skip(1)
    } else {
        rest
    };
    if rest.len() == 0 {
        assert(all =~= name);
    } else {
        assert(all[0] == rest[0]);
    }
    let whole = if is_root {
        all.skip(1)
    } else {
        all
    };
    assert(whole =~= text + name);
    lemma_segments_append(text, name, platform, verbatim);
    components::lemma_segments_nonempty(text, platform, verbatim);
    let cut = components::segments(text, platform, verbatim);
    assert(cut.last().len() == 0);
    assert(cut.last() + name =~= name);
    let more = components::segments(whole, platform, verbatim);
    assert(more == cut.drop_last().push(name));
    assert(more.drop_last() =~= cut.drop_last());
}

/// A trailing separator changes no component.
pub proof fn lemma_separator_added(rest: Seq<u8>, platform: Platform, verbatim: bool)
    requires
        rest.len() > 0,
        !components::separates(platform, false, rest.last()),
    ensures
        components::rooted(rest.push(components::main_separator(platform)), platform)
            == components::rooted(rest, platform),
        components::body_parts(
            rest.push(components::main_separator(platform)),
            platform,
            verbatim,
        ) == components::body_parts(rest, platform, verbatim),
{
    let all = rest.push(components::main_separator(platform));
    let is_root = components::rooted(rest, platform);
    assert(all[0] == rest[0]);
    let text = if is_root {
        rest.skip(1)
    } else {
        rest
    };
    let whole = if is_root {
        all.skip(1)
    } else {
        all
    };
    assert(whole =~= text.push(components::main_separator(platform)));
    assert(whole.drop_last() =~= text);
    let cut = components::segments(text, platform, verbatim);
    let more = components::segments(whole, platform, verbatim);
    assert(more == cut.push(Seq::empty()));
    assert(more.drop_last() =~= cut);
    assert(components::segment_parts(more, verbatim) == components::segment_parts(cut, verbatim));
}

/// The body of nothing, and of a lone root, is empty.
pub proof fn lemma_no_body(rest: Seq<u8>, platform: Platform, verbatim: bool)
    requires
        rest.len() == 0 || (rest.len() == 1 && components::separates(platform, false, rest[0])),
    ensures
        components::body_parts(rest, platform, verbatim) == Seq::<Part>::empty(),
{
    let text = if components::rooted(rest, platform) {
        rest.skip(1)
    } else {
        rest
    };
    assert(text.len() == 0);
    assert(components::segments(text, platform, verbatim) =~= seq![Seq::<u8>::empty()]);
    reveal_with_fuel(components::segment_parts, 2);
    assert(components::body_parts(rest, platform, verbatim) =~= Seq::<Part>::empty());
}

/// How many components stand in front of the names.
spec fn lead(parts: Seq<Part>) -> int {
    if parts.len() == 0 || parts[0] is Normal {
        0
    } else if parts.len() > 1 && parts[1] is RootDir {
        2
    } else {
        1
    }
}

/// What clean components, written as a path, give behind their prefix.
spec fn reads_back(parts: Seq<Part>, platform: Platform) -> bool {
    let path = components::written(parts, platform);
    let raw = raw_prefix(parts);
    let rest = path.skip(raw.len() as int);
    let k = lead(parts);
    &&& raw.is_prefix_of(path)
    &&& k <= parts.len()
    &&& components::rooted(rest, platform) == (k > 0 && parts[k - 1] is RootDir)
    &&& components::body_parts(rest, platform, paths::starts_verbatim(parts)) == parts.skip(k)
    &&& parts.len() > k ==> rest.len() > 0 && !components::separates(platform, false, rest.last())
    &&& parts.len() == k ==> rest.len() == (if components::rooted(rest, platform) {
        1int
    } else {
        0
    })
}

/// The bytes of the prefix that some components start with.
spec fn raw_prefix(parts: Seq<Part>) -> Seq<u8> {
    if parts.len() > 0 && parts[0] is Prefix {
        parts[0]->raw
    } else {
        Seq::empty()
    }
}

/// Clean components, written as a path behind their prefix, are read back as
/// they were: the prefix and the root alone.
proof fn lemma_written_lead(parts: Seq<Part>, platform: Platform)
    requires
        clean(parts, platform),
        parts.len() == 0 || !(parts.last() is Normal),
    ensures
        reads_back(parts, platform),
{
    let path = components::written(parts, platform);
    let separator = components::main_separator(platform);
    let raw = raw_prefix(parts);
    let rest = path.skip(raw.len() as int);
    if parts.len() == 0 {
        lemma_no_body(rest, platform, paths::starts_verbatim(parts));
        assert(parts.skip(0) =~= Seq::<Part>::empty());
    } else {
        let fewer = parts.drop_last();
        let before = components::written(fewer, platform);
        match parts[parts.len() - 1] {
            Part::Prefix { raw: bytes, parsed } => {
                assert(parts.len() == 1);
                assert(before =~= Seq::<u8>::empty());
                assert(path =~= bytes);
                assert(rest =~= Seq::<u8>::empty());
                lemma_no_body(rest, platform, paths::starts_verbatim(parts));
                assert(parts.skip(1) =~= Seq::<Part>::empty());
            },
            Part::RootDir => {
                if parts.len() == 1 {
                    assert(before =~= Seq::<u8>::empty());
                    assert(path =~= seq![separator]);
                    assert(rest =~= path);
                    assert(parts.skip(1) =~= Seq::<Part>::empty());
                } else {
                    assert(parts.len() == 2);
                    assert(fewer[0] == parts[0]);
                    assert(fewer.drop_last() =~= Seq::<Part>::empty());
                    assert(components::written(fewer.drop_last(), platform) =~= Seq::<u8>::empty());
                    assert(before =~= raw);
                    assert(path =~= raw + seq![separator]);
                    assert(rest =~= seq![separator]);
                    assert(parts.skip(2) =~= Seq::<Part>::empty());
                }
                lemma_no_body(rest, platform, paths::starts_verbatim(parts));
            },
            _ => {
                assert(false);
            },
        }
    }
}

/// Components without the last one are as clean.
proof fn lemma_fewer_clean(parts: Seq<Part>, platform: Platform)
    requires
        clean(parts, platform),
        parts.len() > 0,
    ensures
        clean(parts.drop_last(), platform),
        parts.len() > 1 ==> parts.drop_last()[0] == parts[0],
        parts.len() > 2 ==> parts.drop_last()[1] == parts[1],
        parts.last() is Normal && root_implied(parts) ==> root_implied(parts.drop_last()),
{
    let fewer = parts.drop_last();
    assert forall|i: int| 0 <= i < fewer.len() implies match #[trigger] fewer[i] {
        Part::Normal(name) => plain_name(name, platform),
        Part::RootDir => i == 0 || (i == 1 && fewer[0] is Prefix),
        Part::Prefix { raw, parsed } => i == 0 && plain_prefix(raw, parsed, platform),
        _ => false,
    } by {
        assert(fewer[i] == parts[i]);
        assert(fewer[0] == parts[0]);
    }
}

/// Clean components, written as a path behind their prefix, are read back as
/// they were.
proof fn lemma_written_body(parts: Seq<Part>, platform: Platform)
    requires
        clean(parts, platform),
        root_implied(parts),
    ensures
        reads_back(parts, platform),
    decreases parts.len(),
{
    if parts.len() == 0 || !(parts.last() is Normal) {
        lemma_written_lead(parts, platform);
    } else {
        let fewer = parts.drop_last();
        lemma_fewer_clean(parts, platform);
        lemma_written_body(fewer, platform);
        lemma_written_step(parts, platform);
    }
}

/// One more name behind components that are read back is read back too.
#[verifier::rlimit(40)]
proof fn lemma_written_step(parts: Seq<Part>, platform: Platform)
    requires
        clean(parts, platform),
        root_implied(parts),
        parts.len() > 0,
        parts.last() is Normal,
        reads_back(parts.drop_last(), platform),
    ensures
        reads_back(parts, platform),
{
    let fewer = parts.drop_last();
    let last = parts[parts.len() - 1];
    let name = last->Normal_0;
    let separator = components::main_separator(platform);
    let path = components::written(parts, platform);
    let before = components::written(fewer, platform);
    let raw = raw_prefix(parts);
    let rest = path.skip(raw.len() as int);
    let less = before.skip(raw.len() as int);
    let k = lead(parts);
    lemma_fewer_clean(parts, platform);
    assert(plain_name(name, platform));
    assert(raw_prefix(fewer) == raw);
    assert(paths::starts_verbatim(fewer) == paths::starts_verbatim(parts));
    assert(lead(fewer) == k);
    assert(parts.skip(k) =~= fewer.skip(k).push(last));
    if fewer.len() > k {
        assert(parts[parts.len() - 2] == fewer[fewer.len() - 1]);
        assert(fewer[fewer.len() - 1] is Normal);
        assert(path =~= before.push(separator) + name);
        assert(rest =~= less.push(separator) + name);
        lemma_separator_added(less, platform, paths::starts_verbatim(parts));
        lemma_name_added(less.push(separator), name, platform, paths::starts_verbatim(parts));
    } else {
        if fewer.len() > 0 {
            assert(parts[parts.len() - 2] == fewer[fewer.len() - 1]);
            assert(!components::needs_separator(parts[parts.len() - 2]));
        }
        assert(path =~= before + name);
        assert(rest =~= less + name);
        lemma_name_added(less, name, platform, paths::starts_verbatim(parts));
    }
    assert(rest.last() == name[name.len() - 1]);
}

/// The first byte of a path that starts with a plain name.
proof fn lemma_first_name(parts: Seq<Part>, platform: Platform)
    requires
        parts.len() > 0,
        parts[0] is Normal,
    ensures
        ({
            let path = components::written(parts, platform);
            let name = parts[0]->Normal_0;
            &&& name.is_prefix_of(path)
            &&& parts.len() == 1 ==> path == name
            &&& parts.len() > 1 && !(parts[1] is RootDir) ==> path.len() > name.len()
                && path[name.len() as int] == components::main_separator(platform)
        }),
    decreases parts.len(),
{
    let path = components::written(parts, platform);
    let name = parts[0]->Normal_0;
    let fewer = parts.drop_last();
    if parts.len() == 1 {
        assert(components::written(fewer, platform) =~= Seq::<u8>::empty());
        assert(path =~= name);
    } else {
        assert(fewer[0] == parts[0]);
        lemma_first_name(fewer, platform);
        let before = components::written(fewer, platform);
        assert(before.is_prefix_of(path));
        if parts.len() == 2 {
            assert(parts[parts.len() - 2] == parts[0]);
        } else {
            assert(fewer[1] == parts[1]);
            if !(parts[1] is RootDir) {
                assert(path[name.len() as int] == before[name.len() as int]);
            }
        }
    }
}

/// Clean components, written as a path, are read back as they were.
#[verifier::rlimit(40)]
proof fn lemma_written_clean(parts: Seq<Part>, platform: Platform)
    requires
        clean(parts, platform),
        root_implied(parts),
        paths::starts_verbatim(parts) ==> components::prefix_of(components::written(parts, platform), platform)
            == Some(parts[0]->parsed),
    ensures
        components::components_of(components::written(parts, platform), platform) == parts,
        components::prefix_of(components::written(parts, platform), platform) == (if parts.len()
            > 0 && parts[0] is Prefix {
            Some(parts[0]->parsed)
        } else {
            None
        }),
{
    let path = components::written(parts, platform);
    lemma_written_body(parts, platform);
    let k = lead(parts);
    if parts.len() > 0 && parts[0] is Prefix {
        let raw = parts[0]->raw;
        let parsed = parts[0]->parsed;
        assert(plain_prefix(raw, parsed, platform));
        assert(raw.take(parsed.len) =~= raw);
        let rest = path.skip(raw.len() as int);
        if !paths::starts_verbatim(parts) {
            assert(parsed.kind == PrefixKind::Disk || parsed.len == path.len()
                || components::separates(platform, false, path[parsed.len])) by {
                if parsed.kind != PrefixKind::Disk {
                    assert(k == 2);
                    assert(components::rooted(rest, platform));
                    assert(rest[0] == path[parsed.len]);
                }
            }
            lemma_prefix_stays(raw, path);
        }
        assert(path.take(parsed.len) =~= raw);
        assert(components::components_of(path, platform) =~= parts);
    } else {
        assert(path.skip(0) =~= path);
        assert(components::prefix_of(path, platform) is None && !(k == 0
            && components::starts_here(path, platform))) by {
            if parts.len() > 0 && parts[0] is Normal {
                let name = parts[0]->Normal_0;
                lemma_first_name(parts, platform);
                if parts.len() > 1 {
                    assert(!(parts[1] is RootDir));
                }
                assert(path[0] == name[0]);
                assert(!components::separates(platform, false, path[0]));
                if name.len() > 1 {
                    assert(path[1] == name[1]);
                }
                if components::starts_here(path, platform) {
                    assert(name =~= seq![DOT]);
                }
                if platform == Platform::Windows {
                    lemma_name_has_no_prefix(name);
                    lemma_no_double(path);
                }
            } else if parts.len() > 0 {
                if platform == Platform::Windows {
                    lemma_root_then_name(parts, platform);
                    lemma_no_double(path);
                }
            }
        }
        assert(components::components_of(path, platform) =~= parts);
    }
}

/// A path that does not start with two separators and names no drive has no
/// prefix.
proof fn lemma_no_double(path: Seq<u8>)
    requires
        !components::drive_at(path, 0),
        path.len() < 2 || !components::separates(Platform::Windows, false, path[0])
            || !components::separates(Platform::Windows, false, path[1]),
    ensures
        components::windows_prefix(path) is None,
{
    let double = seq![BACKSLASH, BACKSLASH];
    if components::stands_at(path, 0, double) {
        assert(double[0] == BACKSLASH && double[1] == BACKSLASH);
        assert(components::separates(Platform::Windows, false, path[0]));
        assert(components::separates(Platform::Windows, false, path[1]));
    }
}

/// Behind the root stands a name or nothing.
proof fn lemma_root_then_name(parts: Seq<Part>, platform: Platform)
    requires
        clean(parts, platform),
        parts.len() > 0,
        parts[0] is RootDir,
    ensures
        ({
            let path = components::written(parts, platform);
            &&& path.len() > 0
            &&& path[0] == components::main_separator(platform)
            &&& path.len() > 1 ==> !components::separates(platform, false, path[1])
            &&& parts.len() > 1 ==> path.len() > 1
        }),
    decreases parts.len(),
{
    let path = components::written(parts, platform);
    let fewer = parts.drop_last();
    if parts.len() == 1 {
        assert(components::written(fewer, platform) =~= Seq::<u8>::empty());
        assert(path =~= seq![components::main_separator(platform)]);
    } else {
        lemma_fewer_clean(parts, platform);
        lemma_root_then_name(fewer, platform);
        let before = components::written(fewer, platform);
        let last = parts[parts.len() - 1];
        assert(last is Normal);
        let name = last->Normal_0;
        assert(plain_name(name, platform));
        if parts.len() == 2 {
            assert(parts[parts.len() - 2] is RootDir);
            assert(components::written(fewer.drop_last(), platform) =~= Seq::<u8>::empty());
            assert(before =~= seq![components::main_separator(platform)]);
            assert(path =~= before + name);
            assert(path[1] == name[0]);
        } else {
            assert(path[0] == before[0]);
            assert(path[1] == before[1]);
        }
    }
}

/// The one component of a plain name.
pub proof fn lemma_single_name(name: Seq<u8>)
    requires
        plain_name(name, Platform::Windows),
    ensures
        components::components_of(name, Platform::Windows) == seq![Part::Normal(name)],
{
    lemma_name_has_no_prefix(name);
    let nothing = Seq::<u8>::empty();
    assert(nothing + name =~= name);
    lemma_no_body(nothing, Platform::Windows, false);
    lemma_name_added(nothing, name, Platform::Windows, false);
    if components::starts_here(name, Platform::Windows) {
        assert(name =~= seq![DOT]);
    }
    assert(components::components_of(name, Platform::Windows) =~= seq![Part::Normal(name)]);
}

/// The components of a name in a verbatim path that is not read as a path of its
/// own.
proof fn lemma_pieces(name: Seq<u8>)
    requires
        names_no_path(name),
    ensures
        forall|i: int|
            0 <= i < components::components_of(name, Platform::Windows).len() ==> match #[trigger] components::components_of(
                name,
                Platform::Windows,
            )[i] {
                Part::Normal(piece) => plain_name(piece, Platform::Windows),
                Part::Prefix { .. } => false,
                _ => true,
            },
{
    let all = components::components_of(name, Platform::Windows);
    lemma_read(name, Platform::Windows);
    let text = if components::rooted(name, Platform::Windows) {
        name.skip(1)
    } else {
        name
    };
    lemma_segments_plain(text, Platform::Windows);
    lemma_segment_parts_plain(
        components::segments(text, Platform::Windows, false),
        Platform::Windows,
    );
    let root = components::start_parts(None, name, Platform::Windows);
    let body = components::body_parts(name, Platform::Windows, false);
    assert forall|i: int| 0 <= i < all.len() implies match #[trigger] all[i] {
        Part::Normal(piece) => plain_name(piece, Platform::Windows),
        Part::Prefix { .. } => false,
        _ => true,
    } by {
        if i >= root.len() {
            assert(all[i] == body[i - root.len()]);
        }
    }
}

/// Components behind a verbatim prefix and its root.
spec fn verbatim_clean(out: Seq<Part>) -> bool {
    &&& clean(out, Platform::Windows)
    &&& out.len() > 1
    &&& paths::starts_verbatim(out)
    &&& out[1] is RootDir
}

/// Further components behind a verbatim path leave plain names.
proof fn lemma_extended_clean(out: Seq<Part>, more: Seq<Part>)
    requires
        verbatim_clean(out),
        forall|i: int|
            0 <= i < more.len() ==> match #[trigger] more[i] {
                Part::Normal(piece) => plain_name(piece, Platform::Windows),
                Part::Prefix { .. } => false,
                _ => true,
            },
    ensures
        verbatim_clean(paths::verbatim_extended(out, more)),
        paths::verbatim_extended(out, more)[0] == out[0],
    decreases more.len(),
{
    if more.len() > 0 {
        let rest = more.drop_last();
        assert forall|i: int| 0 <= i < rest.len() implies match #[trigger] rest[i] {
            Part::Normal(piece) => plain_name(piece, Platform::Windows),
            Part::Prefix { .. } => false,
            _ => true,
        } by {
            assert(rest[i] == more[i]);
        }
        lemma_extended_clean(out, rest);
        let before = paths::verbatim_extended(out, rest);
        let after = paths::verbatim_extended(out, more);
        let last = more[more.len() - 1];
        lemma_one_more(before, last, after);
    }
}

/// One more component behind a verbatim path.
proof fn lemma_one_more(before: Seq<Part>, last: Part, after: Seq<Part>)
    requires
        verbatim_clean(before),
        match last {
            Part::RootDir => after == before.take(1).push(Part::RootDir),
            Part::Normal(piece) => plain_name(piece, Platform::Windows) && after == before.push(
                last,
            ),
            Part::CurDir => after == before,
            Part::ParentDir => after == before || (before.last() is Normal && after
                == before.drop_last()),
            Part::Prefix { .. } => false,
        },
    ensures
        verbatim_clean(after),
        after[0] == before[0],
{
    assert(before[0] is Prefix && before[1] is RootDir);
    if last is ParentDir && after != before {
        assert(before.len() > 2);
    }
    assert(after[0] == before[0]);
    assert(after[1] is RootDir);
    assert forall|i: int| 0 <= i < after.len() implies match #[trigger] after[i] {
        Part::Normal(name) => plain_name(name, Platform::Windows),
        Part::RootDir => i == 0 || (i == 1 && after[0] is Prefix),
        Part::Prefix { raw, parsed } => i == 0 && plain_prefix(raw, parsed, Platform::Windows),
        _ => false,
    } by {
        if i < before.len() && !(last is RootDir) {
            assert(after[i] == before[i]);
        }
    }
}

/// The components of a verbatim path that is ordinary.
proof fn lemma_verbatim_parts(path: Seq<u8>)
    requires
        ordinary(path, Platform::Windows),
        verbatim(path, Platform::Windows),
    ensures
        ({
            let parts = components::components_of(path, Platform::Windows);
            let start = components::windows_prefix(path)->0;
            &&& parts.len() > 0
            &&& parts[0] == (Part::Prefix { raw: path.take(start.len), parsed: start })
            &&& plain_prefix(path.take(start.len), start, Platform::Windows)
            &&& parts.len() > 1 ==> parts[1] is RootDir && start.len < path.len()
            &&& forall|i: int|
                2 <= i < parts.len() ==> match #[trigger] parts[i] {
                    Part::Normal(name) => names_no_path(name),
                    Part::CurDir => true,
                    Part::ParentDir => true,
                    _ => false,
                }
        }),
{
    let parts = components::components_of(path, Platform::Windows);
    let start = components::windows_prefix(path)->0;
    components::lemma_prefix_len(path);
    lemma_read(path, Platform::Windows);
    let raw = path.take(start.len);
    assert(raw.is_prefix_of(raw));
    lemma_verbatim_stays(path, raw);
    let rest = path.skip(start.len);
    let root = components::start_parts(Some(start), rest, Platform::Windows);
    let body = components::body_parts(rest, Platform::Windows, true);
    let first = seq![Part::Prefix { raw, parsed: start }];
    assert(parts == first + root + body);
    lemma_verbatim_rest(path);
    if rest.len() == 0 {
        lemma_no_body(rest, Platform::Windows, true);
        assert(root.len() == 0);
        assert(parts.len() == 1);
    } else {
        assert(rest[0] == path[start.len]);
        assert(root =~= seq![Part::RootDir]);
        assert(parts[1] == root[0]);
    }
}

/// Behind a verbatim prefix stands a separator or nothing.
pub proof fn lemma_verbatim_rest(path: Seq<u8>)
    requires
        verbatim(path, Platform::Windows),
    ensures
        ({
            let start = components::windows_prefix(path)->0;
            start.len < path.len() ==> components::separates(
                Platform::Windows,
                false,
                path[start.len],
            )
        }),
{
    components::lemma_prefix_len(path);
    components::lemma_name_end(path, 4, true);
    let network = seq![85u8, 78u8, 67u8, BACKSLASH];
    if components::stands_at(path, 4, network) {
        components::lemma_name_end(path, 8, true);
        let end = components::name_end(path, 8, true);
        if end < path.len() {
            components::lemma_name_end(path, end + 1, true);
        }
    }
}

/// What collapsing leaves of a verbatim path.
proof fn lemma_verbatim_collapsed(parts: Seq<Part>)
    requires
        clean(parts.take(1), Platform::Windows),
        paths::starts_verbatim(parts),
        parts.len() > 1 ==> parts[1] is RootDir,
        forall|i: int|
            2 <= i < parts.len() ==> match #[trigger] parts[i] {
                Part::Normal(name) => names_no_path(name),
                Part::CurDir => true,
                Part::ParentDir => true,
                _ => false,
            },
    ensures
        parts.len() == 1 ==> paths::collapsed(parts, Platform::Windows) == parts,
        parts.len() > 1 ==> verbatim_clean(paths::collapsed(parts, Platform::Windows))
            && paths::collapsed(parts, Platform::Windows)[0] == parts[0],
    decreases parts.len(),
{
    let rest = parts.drop_last();
    let before = paths::collapsed(rest, Platform::Windows);
    let after = paths::collapsed(parts, Platform::Windows);
    let last = parts[parts.len() - 1];
    assert(parts.take(1)[0] == parts[0]);
    if parts.len() == 1 {
        assert(after =~= parts);
    } else {
        assert(rest.take(1) =~= parts.take(1));
        assert(rest[0] == parts[0]);
        lemma_verbatim_collapsed(rest);
        if parts.len() == 2 {
            assert(before =~= seq![parts[0]]);
            assert(after =~= seq![parts[0], Part::RootDir]);
            assert(clean(after, Platform::Windows));
        } else {
            match last {
                Part::Normal(name) => {
                    lemma_pieces(name);
                    lemma_extended_clean(
                        before,
                        components::components_of(name, Platform::Windows),
                    );
                },
                _ => {
                    lemma_one_more(before, last, after);
                },
            }
        }
    }
}

/// Behind a prefix that implies a root there is one.
proof fn lemma_root_implied(path: Seq<u8>, platform: Platform)
    ensures
        root_implied(components::components_of(path, platform)),
{
    let parts = components::components_of(path, platform);
    match components::prefix_of(path, platform) {
        Some(start) => {
            let rest = path.skip(start.len);
            let root = components::start_parts(Some(start), rest, platform);
            components::lemma_prefix_len(path);
            if components::is_verbatim(start.kind) {
                lemma_verbatim_rest(path);
                if rest.len() == 0 {
                    lemma_no_body(rest, platform, true);
                    assert(parts.len() == 1);
                } else {
                    assert(rest[0] == path[start.len]);
                    assert(parts[1] == root[0]);
                }
            } else if start.kind != PrefixKind::Disk {
                assert(parts[1] == root[0]);
            }
        },
        None => {
            lemma_read(path, platform);
        },
    }
}

/// No name of a Windows path holds a backslash, so none is a verbatim path.
proof fn lemma_names_flat(path: Seq<u8>)
    ensures
        forall|i: int|
            0 <= i < components::components_of(path, Platform::Windows).len() ==> (
            #[trigger] components::components_of(path, Platform::Windows)[i] matches Part::Normal(
                name,
            ) ==> !verbatim(name, Platform::Windows)),
{
    let platform = Platform::Windows;
    let prefix = components::windows_prefix(path);
    let parts = components::components_of(path, platform);
    let inside = prefix is Some && components::is_verbatim(prefix->0.kind);
    let rest = match prefix {
        Some(start) => path.skip(start.len),
        None => path,
    };
    let text = if components::rooted(rest, platform) {
        rest.skip(1)
    } else {
        rest
    };
    let cut = components::segments(text, platform, inside);
    let root = components::start_parts(prefix, rest, platform);
    let body = components::body_parts(rest, platform, inside);
    if inside {
        lemma_verbatim_segments(text);
        lemma_verbatim_segment_parts(cut);
    } else {
        lemma_segments_plain(text, platform);
        lemma_segment_parts_plain(cut, platform);
        lemma_segment_parts_flat(cut);
    }
    let offset = match prefix {
        Some(_) => 1 + root.len(),
        None => root.len(),
    };
    assert forall|i: int| 0 <= i < parts.len() implies (#[trigger] parts[i] matches Part::Normal(
        name,
    ) ==> !verbatim(name, platform)) by {
        if parts[i] is Normal {
            let name = parts[i]->Normal_0;
            assert(i >= offset) by {
                if i < offset {
                    if prefix is Some && i > 0 {
                        assert(parts[i] == root[i - 1]);
                    } else if prefix is None {
                        assert(parts[i] == root[i]);
                    }
                }
            }
            assert(parts[i] == body[i - offset]);
            lemma_verbatim_mark(name);
            assert(paths::verbatim_mark()[0] == BACKSLASH);
        }
    }
}

/// A name without a separator holds no backslash.
proof fn lemma_segment_parts_flat(cut: Seq<Seq<u8>>)
    requires
        forall|i: int, j: int|
            #![trigger cut[i][j]]
            0 <= i < cut.len() && 0 <= j < cut[i].len() ==> !components::separates(
                Platform::Windows,
                false,
                cut[i][j],
            ),
    ensures
        forall|i: int|
            0 <= i < components::segment_parts(cut, false).len() ==> (
            #[trigger] components::segment_parts(cut, false)[i] matches Part::Normal(name)
                ==> name.len() > 0 && name[0] != BACKSLASH),
    decreases cut.len(),
{
    if cut.len() > 0 {
        let rest = cut.drop_last();
        assert forall|i: int, j: int|
            #![trigger rest[i][j]]
            0 <= i < rest.len() && 0 <= j < rest[i].len() implies !components::separates(
            Platform::Windows,
            false,
            rest[i][j],
        ) by {
            assert(cut[i][j] == rest[i][j]);
        }
        lemma_segment_parts_flat(rest);
        if cut.last().len() > 0 {
            assert(cut[cut.len() - 1][0] == cut.last()[0]);
        }
    }
}

/// Where the components of a path can stand, what its prefix implies, and that no
/// name is verbatim.
spec fn well_read(parts: Seq<Part>, platform: Platform) -> bool {
    &&& root_implied(parts)
    &&& forall|i: int|
        0 <= i < parts.len() ==> match #[trigger] parts[i] {
            Part::RootDir => i == 0 || (i == 1 && parts[0] is Prefix),
            Part::Prefix { .. } => i == 0 && platform == Platform::Windows,
            Part::Normal(name) => !verbatim(name, platform),
            _ => true,
        }
}

proof fn lemma_well_read(path: Seq<u8>, platform: Platform)
    ensures
        well_read(components::components_of(path, platform), platform),
{
    lemma_read(path, platform);
    lemma_root_implied(path, platform);
    if platform == Platform::Windows {
        lemma_names_flat(path);
    }
}

/// Components without the last one, where that is a name or a dot.
proof fn lemma_fewer_read(parts: Seq<Part>, platform: Platform)
    requires
        well_read(parts, platform),
        parts.len() > 0,
        !(parts.last() is RootDir),
    ensures
        well_read(parts.drop_last(), platform),
        parts.len() > 1 ==> parts.drop_last()[0] == parts[0],
        parts.len() > 2 ==> parts.drop_last()[1] == parts[1],
{
    let rest = parts.drop_last();
    assert(parts.last() == parts[parts.len() - 1]);
    assert forall|i: int| 0 <= i < rest.len() implies match #[trigger] rest[i] {
        Part::RootDir => i == 0 || (i == 1 && rest[0] is Prefix),
        Part::Prefix { .. } => i == 0 && platform == Platform::Windows,
        Part::Normal(name) => !verbatim(name, platform),
        _ => true,
    } by {
        assert(rest[i] == parts[i]);
        assert(rest[0] == parts[0]);
    }
}

/// Further components leave the prefix and the root of a verbatim path alone.
proof fn lemma_extended_front(out: Seq<Part>, more: Seq<Part>)
    requires
        out.len() > 0,
        out[0] is Prefix,
        forall|i: int| 0 <= i < more.len() ==> !(#[trigger] more[i] is Prefix),
    ensures
        ({
            let after = paths::verbatim_extended(out, more);
            &&& after.len() > 0
            &&& after[0] == out[0]
            &&& out.len() > 1 && out[1] is RootDir ==> after.len() > 1 && after[1] is RootDir
        }),
    decreases more.len(),
{
    if more.len() > 0 {
        let rest = more.drop_last();
        assert forall|i: int| 0 <= i < rest.len() implies !(#[trigger] rest[i] is Prefix) by {
            assert(rest[i] == more[i]);
        }
        lemma_extended_front(out, rest);
        assert(!(more[more.len() - 1] is Prefix));
    }
}

/// What stands in front after collapsing: a prefix still has the root that it
/// implies, and a verbatim one is the path's own, with no name behind it that is
/// read as a path of its own.
#[verifier::rlimit(40)]
proof fn lemma_collapsed_front(parts: Seq<Part>, platform: Platform)
    requires
        well_read(parts, platform),
    ensures
        ({
            let out = paths::collapsed(parts, platform);
            &&& root_implied(out)
            &&& out.len() > 0 && out[0] is Prefix ==> platform == Platform::Windows
            &&& paths::starts_verbatim(out) ==> {
                &&& parts.len() > 0
                &&& out[0] == parts[0]
                &&& parts.len() == 1 ==> out == parts
                &&& parts.len() > 1 ==> out.len() > 1 && out[1] is RootDir
                &&& forall|i: int|
                    0 <= i < parts.len() ==> (#[trigger] parts[i] matches Part::Normal(name)
                        ==> components::windows_prefix(name) is None)
            }
        }),
    decreases parts.len(),
{
    let out = paths::collapsed(parts, platform);
    if parts.len() > 0 {
        let rest = parts.drop_last();
        let last = parts[parts.len() - 1];
        let before = paths::collapsed(rest, platform);
        assert(out == paths::taken_in(before, last, platform));
        if rest.len() > 0 {
            assert(rest[0] == parts[0]);
        }
        match last {
            Part::Prefix { .. } => {
                assert(out =~= parts);
            },
            Part::RootDir => {
                if parts.len() == 1 {
                    assert(before =~= Seq::<Part>::empty());
                    assert(out =~= seq![Part::RootDir]);
                } else {
                    assert(rest =~= seq![parts[0]]);
                    assert(rest.drop_last() =~= Seq::<Part>::empty());
                    assert(before =~= rest);
                    assert(out =~= seq![parts[0], Part::RootDir]);
                }
            },
            _ => {
                lemma_fewer_read(parts, platform);
                lemma_collapsed_front(rest, platform);
                if last is Normal {
                    lemma_name_taken(before, last->Normal_0, platform);
                }
                if paths::starts_verbatim(out) {
                    assert(paths::starts_verbatim(before));
                    assert(rest.len() > 1) by {
                        if rest.len() == 1 {
                            assert(parts[0] is Prefix);
                            assert(parts.len() == 2);
                        }
                    }
                    assert(before.len() > 1 && before[1] is RootDir);
                    assert forall|i: int| 0 <= i < parts.len() implies (
                    #[trigger] parts[i] matches Part::Normal(name) ==> components::windows_prefix(
                        name,
                    ) is None) by {
                        if i < rest.len() {
                            assert(rest[i] == parts[i]);
                        }
                    }
                }
            },
        }
    } else {
        assert(out =~= Seq::<Part>::empty());
    }
}

/// What one more name does to the front.
proof fn lemma_name_taken(before: Seq<Part>, name: Seq<u8>, platform: Platform)
    requires
        root_implied(before),
        !verbatim(name, platform),
        paths::starts_verbatim(before) ==> before.len() > 1,
        before.len() > 0 && before[0] is Prefix ==> platform == Platform::Windows,
    ensures
        ({
            let after = paths::taken_in(before, Part::Normal(name), platform);
            &&& root_implied(after)
            &&& after.len() > 0 && after[0] is Prefix ==> platform == Platform::Windows
            &&& paths::starts_verbatim(after) ==> {
                &&& paths::starts_verbatim(before)
                &&& components::windows_prefix(name) is None
                &&& after[0] == before[0]
                &&& after.len() > 1
                &&& after[1] is RootDir
            }
        }),
{
    let after = paths::taken_in(before, Part::Normal(name), platform);
    let more = components::components_of(name, platform);
    lemma_root_implied(name, platform);
    lemma_read(name, platform);
    if platform == Platform::Windows && components::windows_prefix(name) is Some {
        assert(more[0] is Prefix);
        assert(!paths::starts_verbatim(more));
    } else if paths::starts_verbatim(before) {
        assert forall|i: int| 0 <= i < more.len() implies !(#[trigger] more[i] is Prefix) by {}
        lemma_extended_front(before, more);
    } else {
        assert(after =~= before.push(Part::Normal(name)));
        if before.len() > 0 {
            assert(after[0] == before[0]);
        }
        if before.len() > 1 {
            assert(after[1] == before[1]);
        }
    }
}

/// What collapsing leaves of a path that settles is read back as it was written.
#[verifier::rlimit(40)]
proof fn lemma_settled(path: Seq<u8>, platform: Platform)
    requires
        settles(path, platform),
    ensures
        ({
            let out = paths::collapsed(components::components_of(path, platform), platform);
            let normal = paths::normalized(path, platform);
            &&& root_implied(out)
            &&& components::components_of(normal, platform) == out
            &&& components::prefix_of(normal, platform) == (if out.len() > 0 && out[0] is Prefix {
                Some(out[0]->parsed)
            } else {
                None
            })
        }),
{
    let parts = components::components_of(path, platform);
    let out = paths::collapsed(parts, platform);
    lemma_well_read(path, platform);
    lemma_collapsed_front(parts, platform);
    if paths::starts_verbatim(out) {
        assert(plain_prefix(out[0]->raw, out[0]->parsed, platform));
        lemma_read(path, platform);
        let start = components::windows_prefix(path)->0;
        components::lemma_prefix_len(path);
        assert(components::prefix_of(path, platform) == Some(out[0]->parsed));
        let raw = path.take(start.len);
        let normal = components::written(out, platform);
        lemma_written_body(out, platform);
        if out.len() == 1 {
            assert(normal.skip(raw.len() as int).len() == 0);
        } else {
            assert(parts.len() > 1);
            assert(out[1] is RootDir);
            lemma_root_written(out);
            assert(start.len < path.len()) by {
                if start.len == path.len() {
                    let rest = path.skip(start.len);
                    assert(rest =~= Seq::<u8>::empty());
                    lemma_no_body(rest, platform, true);
                    assert(components::start_parts(Some(start), rest, platform) =~= Seq::<
                        Part,
                    >::empty());
                    assert(parts.len() == 1);
                }
            }
        }
        lemma_verbatim_stays(path, normal);
    }
    lemma_written_clean(out, platform);
}

/// A path whose names are all just names settles, with the prefix that it had;
/// off Windows that is every path.
#[verifier::rlimit(40)]
pub proof fn an_ordinary_path_settles(path: Seq<u8>, platform: Platform)
    requires
        ordinary(path, platform),
    ensures
        settles(path, platform),
        components::prefix_of(paths::normalized(path, platform), platform)
            == components::prefix_of(path, platform),
        ends_absolute(components::components_of(path, platform), platform),
{
    let parts = components::components_of(path, platform);
    let out = paths::collapsed(parts, platform);
    lemma_read(path, platform);
    if verbatim(path, platform) {
        lemma_verbatim_parts(path);
        assert(clean(parts.take(1), platform)) by {
            assert(parts.take(1)[0] == parts[0]);
        }
        lemma_verbatim_collapsed(parts);
        if parts.len() == 1 {
            assert(out =~= parts.take(1));
        }
    } else {
        lemma_ordinary_parts(path, platform);
        if parts.len() > 0 && parts[0] is Prefix {
            assert(components::prefix_of(path, platform) == Some(parts[0]->parsed));
        }
        lemma_collapsed_clean(parts, platform);
        if parts.len() == 0 || !(parts[0] is Prefix) {
            lemma_no_prefix_made(parts, platform);
        }
    }
    lemma_settled(path, platform);
    lemma_names_only(parts, platform);
}

/// Where no name is read as a path of its own, none is the last.
proof fn lemma_names_only(parts: Seq<Part>, platform: Platform)
    requires
        platform == Platform::Windows ==> forall|i: int|
            0 <= i < parts.len() ==> (#[trigger] parts[i] matches Part::Normal(name)
                ==> components::windows_prefix(name) is None),
    ensures
        ends_absolute(parts, platform),
    decreases parts.len(),
{
    if parts.len() > 0 {
        let rest = parts.drop_last();
        assert(parts.last() == parts[parts.len() - 1]);
        assert(platform == Platform::Windows ==> forall|i: int|
            0 <= i < rest.len() ==> (#[trigger] rest[i] matches Part::Normal(name)
                ==> components::windows_prefix(name) is None)) by {
            if platform == Platform::Windows {
                assert forall|i: int| 0 <= i < rest.len() implies (
                #[trigger] rest[i] matches Part::Normal(name) ==> components::windows_prefix(
                    name,
                ) is None) by {
                    assert(rest[i] == parts[i]);
                }
            }
        }
        lemma_names_only(rest, platform);
    }
}

/// The root behind a prefix is written as a backslash, and alone it is all that
/// stands there.
proof fn lemma_root_written(parts: Seq<Part>)
    requires
        verbatim_clean(parts),
    ensures
        ({
            let path = components::written(parts, Platform::Windows);
            let raw = raw_prefix(parts);
            &&& path.len() > raw.len()
            &&& path[raw.len() as int] == BACKSLASH
            &&& parts.len() == 2 ==> path.len() == raw.len() + 1
        }),
    decreases parts.len(),
{
    let path = components::written(parts, Platform::Windows);
    let fewer = parts.drop_last();
    let before = components::written(fewer, Platform::Windows);
    let raw = raw_prefix(parts);
    assert(fewer[0] == parts[0]);
    if parts.len() == 2 {
        assert(components::written(fewer.drop_last(), Platform::Windows) =~= Seq::<u8>::empty());
        assert(before =~= raw);
        assert(path =~= raw + seq![BACKSLASH]);
    } else {
        lemma_fewer_clean(parts, Platform::Windows);
        lemma_root_written(fewer);
        assert(path[raw.len() as int] == before[raw.len() as int]);
    }
}

/// Collapsing leaves no `.` and no `..`: the components of the result are those
/// that collapsing left, a prefix and a root at most in front, then plain names.
pub proof fn normalizing_leaves_no_dots(path: Seq<u8>, platform: Platform)
    requires
        settles(path, platform),
    ensures
        clean(components::components_of(paths::normalized(path, platform), platform), platform),
        components::components_of(paths::normalized(path, platform), platform)
            == paths::collapsed(components::components_of(path, platform), platform),
{
    lemma_settled(path, platform);
}

/// Whether components start where an absolute path does.
spec fn fixed(parts: Seq<Part>, platform: Platform) -> bool {
    parts.len() > 0 && match parts[0] {
        Part::Prefix { parsed, .. } => parsed.kind != PrefixKind::Disk || (parts.len() > 1
            && parts[1] is RootDir),
        Part::RootDir => platform != Platform::Windows,
        _ => false,
    }
}

/// The components of an absolute path start where it does.
proof fn lemma_fixed(path: Seq<u8>, platform: Platform)
    requires
        components::absolute(path, platform),
    ensures
        fixed(components::components_of(path, platform), platform),
{
    let parts = components::components_of(path, platform);
    lemma_read(path, platform);
    match components::prefix_of(path, platform) {
        Some(start) => {
            let rest = path.skip(start.len);
            let root = components::start_parts(Some(start), rest, platform);
            if start.kind == PrefixKind::Disk {
                assert(parts[1] == root[0]);
            }
        },
        None => {},
    }
}

/// Collapsing keeps where an absolute path starts, or starts where the last name
/// does that is a path of its own.
proof fn lemma_collapsed_fixed(parts: Seq<Part>, platform: Platform)
    requires
        well_read(parts, platform),
        fixed(parts, platform),
        ends_absolute(parts, platform),
    ensures
        fixed(paths::collapsed(parts, platform), platform),
    decreases parts.len(),
{
    let rest = parts.drop_last();
    let last = parts[parts.len() - 1];
    let before = paths::collapsed(rest, platform);
    let out = paths::collapsed(parts, platform);
    if rest.len() > 0 {
        assert(rest[0] == parts[0]);
    }
    match last {
        Part::Prefix { .. } => {
            assert(out =~= parts);
        },
        Part::RootDir => {
            if parts.len() == 1 {
                assert(before =~= Seq::<Part>::empty());
                assert(out =~= seq![Part::RootDir]);
            } else {
                assert(rest =~= seq![parts[0]]);
                assert(rest.drop_last() =~= Seq::<Part>::empty());
                assert(before =~= rest);
                assert(out =~= seq![parts[0], Part::RootDir]);
            }
        },
        _ => {
            assert(parts.len() > 1);
            if last is Normal && components::prefix_of(last->Normal_0, platform) is Some {
                lemma_fixed(last->Normal_0, platform);
            } else {
                lemma_fewer_read(parts, platform);
                lemma_collapsed_fixed(rest, platform);
                if last is Normal {
                    let more = components::components_of(last->Normal_0, platform);
                    lemma_read(last->Normal_0, platform);
                    if platform == Platform::Windows && paths::starts_verbatim(before) {
                        lemma_extended_front(before, more);
                    } else {
                        assert(out =~= before.push(last));
                        assert(out[0] == before[0]);
                    }
                }
            }
        },
    }
}

/// What components that start with a prefix or a root are written as.
proof fn lemma_front_written(parts: Seq<Part>, platform: Platform)
    requires
        parts.len() > 0,
    ensures
        components::part_bytes(parts[0], platform).is_prefix_of(
            components::written(parts, platform),
        ),
        parts.len() > 1 && parts[1] is RootDir ==> components::part_bytes(parts[0], platform).push(
            components::main_separator(platform),
        ).is_prefix_of(components::written(parts, platform)),
    decreases parts.len(),
{
    let path = components::written(parts, platform);
    let fewer = parts.drop_last();
    let before = components::written(fewer, platform);
    let first = components::part_bytes(parts[0], platform);
    if parts.len() == 1 {
        assert(before =~= Seq::<u8>::empty());
        assert(path =~= first);
    } else {
        assert(fewer[0] == parts[0]);
        lemma_front_written(fewer, platform);
        assert(before.is_prefix_of(path));
        if parts.len() == 2 {
            assert(fewer.drop_last() =~= Seq::<Part>::empty());
            assert(components::written(fewer.drop_last(), platform) =~= Seq::<u8>::empty());
            assert(before =~= first);
            if parts[1] is RootDir {
                assert(parts.last() == parts[1]);
                assert(path =~= first.push(components::main_separator(platform)));
            }
        } else {
            assert(fewer[1] == parts[1]);
        }
    }
}

/// Collapsing an absolute path gives an absolute path. (On Windows a name that is
/// read as a path of its own, as `D:y` in `C:\D:y`, has to be absolute too.)
#[verifier::rlimit(40)]
pub proof fn normalizing_keeps_a_path_absolute(path: Seq<u8>, platform: Platform)
    requires
        components::absolute(path, platform),
        ends_absolute(components::components_of(path, platform), platform),
    ensures
        components::absolute(paths::normalized(path, platform), platform),
{
    let parts = components::components_of(path, platform);
    let out = paths::collapsed(parts, platform);
    let normal = paths::normalized(path, platform);
    lemma_well_read(path, platform);
    lemma_fixed(path, platform);
    lemma_collapsed_fixed(parts, platform);
    lemma_collapsed_front(parts, platform);
    lemma_front_written(out, platform);
    let first = components::part_bytes(out[0], platform);
    let separator = components::main_separator(platform);
    if platform == Platform::Windows {
        let parsed = out[0]->parsed;
        lemma_prefix_kept(path);
        lemma_verbatim_mark(first);
        lemma_verbatim_mark(normal);
        if components::is_verbatim(parsed.kind) {
            assert forall|i: int| 0 <= i < 4 implies paths::verbatim_mark()[i] == normal[i] by {
                assert(paths::verbatim_mark()[i] == first[i]);
                assert(first[i] == normal[i]);
            }
            assert(paths::verbatim_mark().is_prefix_of(normal));
        } else {
            assert(out.len() > 1 && out[1] is RootDir);
            assert(first.take(parsed.len) =~= first);
            assert(first.push(separator)[parsed.len] == normal[parsed.len]);
            lemma_prefix_stays(first, normal);
            assert(normal.skip(parsed.len)[0] == normal[parsed.len]);
        }
    } else {
        assert(first[0] == normal[0]);
    }
}

/// The prefix in front of what collapsing leaves is read off its own bytes.
proof fn lemma_prefix_kept(path: Seq<u8>)
    ensures
        ({
            let out = paths::collapsed(
                components::components_of(path, Platform::Windows),
                Platform::Windows,
            );
            out.len() > 0 ==> (out[0] matches Part::Prefix { raw, parsed } ==> plain_prefix(
                raw,
                parsed,
                Platform::Windows,
            ))
        }),
{
    lemma_well_read(path, Platform::Windows);
    lemma_own_prefix(path);
    lemma_prefix_left(components::components_of(path, Platform::Windows));
}

/// The prefix of a path is read off its own bytes.
pub proof fn lemma_own_prefix(path: Seq<u8>)
    ensures
        ({
            let parts = components::components_of(path, Platform::Windows);
            parts.len() > 0 ==> (parts[0] matches Part::Prefix { raw, parsed } ==> plain_prefix(
                raw,
                parsed,
                Platform::Windows,
            ))
        }),
{
    lemma_read(path, Platform::Windows);
    match components::windows_prefix(path) {
        Some(start) => {
            components::lemma_prefix_len(path);
            let raw = path.take(start.len);
            assert(raw.take(start.len) =~= raw);
            if components::is_verbatim(start.kind) {
                lemma_verbatim_stays(path, raw);
            } else {
                lemma_prefix_stays(path, raw);
            }
        },
        None => {},
    }
}

proof fn lemma_prefix_left(parts: Seq<Part>)
    requires
        well_read(parts, Platform::Windows),
        parts.len() > 0 ==> (parts[0] matches Part::Prefix { raw, parsed } ==> plain_prefix(
            raw,
            parsed,
            Platform::Windows,
        )),
    ensures
        ({
            let out = paths::collapsed(parts, Platform::Windows);
            out.len() > 0 ==> (out[0] matches Part::Prefix { raw, parsed } ==> plain_prefix(
                raw,
                parsed,
                Platform::Windows,
            ))
        }),
    decreases parts.len(),
{
    let platform = Platform::Windows;
    let out = paths::collapsed(parts, platform);
    if parts.len() > 0 {
        let rest = parts.drop_last();
        let last = parts[parts.len() - 1];
        let before = paths::collapsed(rest, platform);
        if rest.len() > 0 {
            assert(rest[0] == parts[0]);
        }
        match last {
            Part::Prefix { .. } => {
                assert(out =~= parts);
            },
            Part::RootDir => {
                if parts.len() == 1 {
                    assert(before =~= Seq::<Part>::empty());
                } else {
                    assert(rest =~= seq![parts[0]]);
                    assert(rest.drop_last() =~= Seq::<Part>::empty());
                    assert(before =~= rest);
                }
            },
            _ => {
                lemma_fewer_read(parts, platform);
                lemma_prefix_left(rest);
                if last is Normal {
                    let name = last->Normal_0;
                    let more = components::components_of(name, platform);
                    lemma_own_prefix(name);
                    lemma_read(name, platform);
                    if components::windows_prefix(name) is None {
                        if paths::starts_verbatim(before) {
                            lemma_extended_front(before, more);
                        } else if before.len() > 0 {
                            assert(out[0] == before[0]);
                        }
                    }
                }
            },
        }
    }
}

/// A path without `.` and `..` keeps its components. (In a verbatim Windows path
/// a name that holds a slash is taken apart.)
pub proof fn a_path_without_dots_keeps_its_components(path: Seq<u8>, platform: Platform)
    requires
        ordinary(path, platform),
        forall|i: int|
            0 <= i < components::components_of(path, platform).len() ==> match #[trigger] components::components_of(
                path,
                platform,
            )[i] {
                Part::CurDir => false,
                Part::ParentDir => false,
                Part::Normal(name) => verbatim(path, platform) ==> !name.contains(SLASH),
                _ => true,
            },
    ensures
        components::components_of(paths::normalized(path, platform), platform)
            == components::components_of(path, platform),
{
    let parts = components::components_of(path, platform);
    lemma_read(path, platform);
    lemma_root_implied(path, platform);
    an_ordinary_path_settles(path, platform);
    lemma_settled(path, platform);
    assert forall|i: int| 0 <= i < parts.len() implies match #[trigger] parts[i] {
        Part::Normal(name) => plain_name(name, platform),
        Part::RootDir => i == 0 || (i == 1 && parts[0] is Prefix),
        Part::Prefix { raw, parsed } => i == 0 && plain_prefix(raw, parsed, platform),
        _ => false,
    } by {
        if verbatim(path, platform) {
            lemma_verbatim_parts(path);
            match parts[i] {
                Part::Normal(name) => {
                    lemma_verbatim_name(path, i);
                },
                _ => {},
            }
        } else {
            lemma_ordinary_parts(path, platform);
        }
    }
    lemma_collapsed_same(parts, platform);
}

/// A name of a verbatim path that holds no slash and is not read as a path of its
/// own is plain.
proof fn lemma_verbatim_name(path: Seq<u8>, at: int)
    requires
        ordinary(path, Platform::Windows),
        verbatim(path, Platform::Windows),
        0 <= at < components::components_of(path, Platform::Windows).len(),
        components::components_of(path, Platform::Windows)[at] matches Part::Normal(name)
            && !name.contains(SLASH),
    ensures
        plain_name(
            components::components_of(path, Platform::Windows)[at]->Normal_0,
            Platform::Windows,
        ),
{
    let parts = components::components_of(path, Platform::Windows);
    let name = parts[at]->Normal_0;
    let start = components::windows_prefix(path)->0;
    let rest = path.skip(start.len);
    let root = components::start_parts(Some(start), rest, Platform::Windows);
    let body = components::body_parts(rest, Platform::Windows, true);
    lemma_verbatim_parts(path);
    let text = if components::rooted(rest, Platform::Windows) {
        rest.skip(1)
    } else {
        rest
    };
    let cut = components::segments(text, Platform::Windows, true);
    lemma_verbatim_segments(text);
    lemma_verbatim_segment_parts(cut);
    assert(root.len() <= 1);
    assert(at >= 1 + root.len()) by {
        if at == 1 && root.len() == 1 {
            assert(parts[1] == root[0]);
        }
    }
    assert(parts[at] == body[at - 1 - root.len()]);
    assert(names_no_path(name));
    assert forall|i: int| 0 <= i < name.len() implies !components::separates(
        Platform::Windows,
        false,
        name[i],
    ) by {
        assert(name[i] != SLASH) by {
            if name[i] == SLASH {
                assert(name.contains(SLASH));
            }
        }
    }
    if components::drive_at(name, 0) {
        let double = seq![BACKSLASH, BACKSLASH];
        if components::stands_at(name, 0, double) {
            assert(double[0] == BACKSLASH);
        }
    }
}

/// No segment of a verbatim path holds a backslash.
proof fn lemma_verbatim_segments(text: Seq<u8>)
    ensures
        forall|i: int, j: int|
            #![trigger components::segments(text, Platform::Windows, true)[i][j]]
            0 <= i < components::segments(text, Platform::Windows, true).len() && 0 <= j
                < components::segments(text, Platform::Windows, true)[i].len()
                ==> components::segments(text, Platform::Windows, true)[i][j] != BACKSLASH,
        components::segments(text, Platform::Windows, true).len() > 0,
    decreases text.len(),
{
    if text.len() > 0 {
        lemma_verbatim_segments(text.drop_last());
        let before = components::segments(text.drop_last(), Platform::Windows, true);
        let after = components::segments(text, Platform::Windows, true);
        assert forall|i: int, j: int|
            #![trigger after[i][j]]
            0 <= i < after.len() && 0 <= j < after[i].len() implies after[i][j] != BACKSLASH by {
            if text.last() == BACKSLASH {
                if i < before.len() {
                    assert(after[i][j] == before[i][j]);
                }
            } else if i < before.len() - 1 {
                assert(after[i][j] == before[i][j]);
            } else if j < before.last().len() {
                assert(after[i][j] == before[i][j]);
            }
        }
    } else {
        let only = components::segments(text, Platform::Windows, true);
        assert(only[0].len() == 0);
    }
}

/// No name of a verbatim path holds a backslash, and none is `.` or `..`.
proof fn lemma_verbatim_segment_parts(cut: Seq<Seq<u8>>)
    requires
        forall|i: int, j: int|
            #![trigger cut[i][j]]
            0 <= i < cut.len() && 0 <= j < cut[i].len() ==> cut[i][j] != BACKSLASH,
    ensures
        forall|i: int|
            0 <= i < components::segment_parts(cut, true).len() ==> match #[trigger] components::segment_parts(
                cut,
                true,
            )[i] {
                Part::Normal(name) => {
                    &&& name.len() > 0
                    &&& forall|j: int| 0 <= j < name.len() ==> name[j] != BACKSLASH
                    &&& name != seq![DOT]
                    &&& name != seq![DOT, DOT]
                },
                _ => true,
            },
    decreases cut.len(),
{
    if cut.len() > 0 {
        let rest = cut.drop_last();
        assert forall|i: int, j: int|
            #![trigger rest[i][j]]
            0 <= i < rest.len() && 0 <= j < rest[i].len() implies rest[i][j] != BACKSLASH by {
            assert(cut[i][j] == rest[i][j]);
        }
        lemma_verbatim_segment_parts(rest);
        let last = cut.last();
        assert forall|j: int| 0 <= j < last.len() implies last[j] != BACKSLASH by {
            assert(cut[cut.len() - 1][j] == last[j]);
        }
    }
}

/// Collapsing makes no prefix where there was none.
proof fn lemma_no_prefix_made(parts: Seq<Part>, platform: Platform)
    requires
        forall|i: int|
            0 <= i < parts.len() ==> match #[trigger] parts[i] {
                Part::Normal(name) => plain_name(name, platform),
                Part::Prefix { .. } => false,
                _ => true,
            },
    ensures
        paths::collapsed(parts, platform).len() > 0 ==> !(paths::collapsed(
            parts,
            platform,
        )[0] is Prefix),
    decreases parts.len(),
{
    if parts.len() > 0 {
        let rest = parts.drop_last();
        assert forall|i: int| 0 <= i < rest.len() implies match #[trigger] rest[i] {
            Part::Normal(name) => plain_name(name, platform),
            Part::Prefix { .. } => false,
            _ => true,
        } by {
            assert(rest[i] == parts[i]);
        }
        lemma_no_prefix_made(rest, platform);
        let before = paths::collapsed(rest, platform);
        let after = paths::collapsed(parts, platform);
        match parts[parts.len() - 1] {
            Part::Normal(name) => {
                if platform == Platform::Windows {
                    lemma_name_has_no_prefix(name);
                }
                if before.len() > 0 {
                    assert(after[0] == before[0]);
                }
            },
            Part::ParentDir => {
                if after.len() > 0 {
                    assert(after[0] == before[0]);
                }
            },
            _ => {},
        }
    }
}

/// What is normal stays as it is.
pub proof fn normalizing_twice_changes_nothing(path: Seq<u8>, platform: Platform)
    requires
        settles(path, platform),
    ensures
        paths::normalized(paths::normalized(path, platform), platform) == paths::normalized(
            path,
            platform,
        ),
{
    lemma_settled(path, platform);
    lemma_collapsed_same(
        paths::collapsed(components::components_of(path, platform), platform),
        platform,
    );
}

proof fn lemma_collapsed_same(parts: Seq<Part>, platform: Platform)
    requires
        clean(parts, platform),
        root_implied(parts),
    ensures
        paths::collapsed(parts, platform) == parts,
    decreases parts.len(),
{
    if parts.len() > 0 {
        let rest = parts.drop_last();
        lemma_fewer_clean(parts, platform);
        let last = parts[parts.len() - 1];
        if rest.len() > 0 {
            assert(rest[0] == parts[0]);
        }
        lemma_collapsed_lead(parts, platform);
        if last is Normal {
            let name = last->Normal_0;
            lemma_collapsed_same(rest, platform);
            if platform == Platform::Windows {
                lemma_name_has_no_prefix(name);
                lemma_single_name(name);
                let more = seq![last];
                assert(more.drop_last() =~= Seq::<Part>::empty());
                reveal_with_fuel(paths::verbatim_extended, 2);
                assert(paths::verbatim_extended(rest, more) =~= rest.push(last));
            }
            assert(paths::collapsed(parts, platform) =~= parts);
        }
    } else {
        assert(paths::collapsed(parts, platform) =~= parts);
    }
}

/// A prefix and a root alone stay as they are.
proof fn lemma_collapsed_lead(parts: Seq<Part>, platform: Platform)
    requires
        clean(parts, platform),
        parts.len() > 0,
    ensures
        !(parts.last() is Normal) ==> paths::collapsed(parts, platform) == parts,
{
    let rest = parts.drop_last();
    let last = parts[parts.len() - 1];
    match last {
        Part::Prefix { .. } => {
            assert(parts =~= seq![last]);
        },
        Part::RootDir => {
            if parts.len() == 1 {
                assert(paths::collapsed(rest, platform) =~= Seq::<Part>::empty());
            } else {
                assert(rest =~= seq![parts[0]]);
                assert(rest.drop_last() =~= Seq::<Part>::empty());
                assert(rest.last() == parts[0]);
                assert(paths::collapsed(rest, platform) =~= rest);
            }
            assert(paths::collapsed(parts, platform) =~= parts);
        },
        _ => {},
    }
}

/// The mark of a verbatim path and a verbatim prefix come together.
pub proof fn lemma_verbatim_mark(path: Seq<u8>)
    ensures
        paths::verbatim_mark().is_prefix_of(path) <==> (components::windows_prefix(path)
            matches Some(start) && components::is_verbatim(start.kind)),
        paths::verbatim_unc_mark().is_prefix_of(path) ==> paths::verbatim_mark().is_prefix_of(
            path,
        ),
{
    let mark = paths::verbatim_mark();
    let double = seq![BACKSLASH, BACKSLASH];
    let query = seq![QUESTION, BACKSLASH];
    let device = seq![DOT, BACKSLASH];
    assert(double[0] == BACKSLASH && double[1] == BACKSLASH);
    assert(query[0] == QUESTION && query[1] == BACKSLASH);
    assert(device[0] == DOT);
    assert(mark[0] == BACKSLASH && mark[1] == BACKSLASH && mark[2] == QUESTION && mark[3]
        == BACKSLASH);
    if mark.is_prefix_of(path) {
        assert(path[0] == mark[0] && path[1] == mark[1] && path[2] == mark[2] && path[3]
            == mark[3]);
        assert(components::stands_at(path, 0, double));
        assert(components::stands_at(path, 2, query));
    }
    if components::stands_at(path, 0, double) && components::stands_at(path, 2, query) && path[0]
        != SLASH && path[1] != SLASH && path[3] != SLASH {
        assert(double[0] == path[0] && double[1] == path[1]);
        assert(query[0] == path[2] && query[1] == path[3]);
        assert(mark.is_prefix_of(path));
    }
    if paths::verbatim_unc_mark().is_prefix_of(path) {
        assert(mark =~= paths::verbatim_unc_mark().take(4));
        assert(path[0] == paths::verbatim_unc_mark()[0]);
        assert(path[1] == paths::verbatim_unc_mark()[1]);
        assert(path[2] == paths::verbatim_unc_mark()[2]);
        assert(path[3] == paths::verbatim_unc_mark()[3]);
    }
}

/// Valid text cut at an ASCII byte leaves valid text on both sides.
proof fn lemma_ascii_cut(bytes: Seq<u8>, at: int)
    requires
        valid_utf8(bytes),
        0 <= at < bytes.len(),
        bytes[at] < 128,
    ensures
        valid_utf8(bytes.take(at)),
        valid_utf8(bytes.skip(at)),
        valid_utf8(bytes.skip(at + 1)),
{
    is_char_boundary_iff_not_is_continuation_byte(bytes, at);
    valid_utf8_split(bytes, at);
    let rest = bytes.subrange(at, bytes.len() as int);
    assert(bytes.take(at) =~= bytes.subrange(0, at));
    assert(bytes.skip(at) =~= rest);
    assert(rest[0] == bytes[at]);
    assert(is_leading_byte_width_1(rest[0]));
    assert(pop_first_scalar(rest) =~= bytes.skip(at + 1));
}

/// One ASCII byte is valid text.
pub proof fn lemma_ascii_valid(byte: u8)
    requires
        byte < 128,
    ensures
        valid_utf8(seq![byte]),
{
    let one = seq![byte as char];
    assert(is_ascii_chars(one));
    is_ascii_chars_encode_utf8(one);
    encode_utf8_valid_utf8(one);
    assert(encode_utf8(one) =~= seq![byte]);
}

/// Where the last separator stands, or -1.
pub open spec fn last_separator(text: Seq<u8>, platform: Platform, verbatim: bool) -> int
    decreases text.len(),
{
    if text.len() == 0 {
        -1
    } else if components::separates(platform, verbatim, text.last()) {
        text.len() - 1
    } else {
        last_separator(text.drop_last(), platform, verbatim)
    }
}

pub proof fn lemma_last_separator(text: Seq<u8>, platform: Platform, verbatim: bool)
    ensures
        ({
            let at = last_separator(text, platform, verbatim);
            &&& -1 <= at < text.len()
            &&& at >= 0 ==> components::separates(platform, verbatim, text[at])
            &&& forall|i: int|
                at < i < text.len() ==> !components::separates(
                    platform,
                    verbatim,
                    #[trigger] text[i],
                )
        }),
    decreases text.len(),
{
    if text.len() > 0 && !components::separates(platform, verbatim, text.last()) {
        let less = text.drop_last();
        lemma_last_separator(less, platform, verbatim);
        let at = last_separator(text, platform, verbatim);
        assert(at >= 0 ==> less[at] == text[at]);
        assert forall|i: int| at < i < text.len() implies !components::separates(
            platform,
            verbatim,
            #[trigger] text[i],
        ) by {
            if i < less.len() {
                assert(less[i] == text[i]);
            }
        }
    }
}

/// The segments of valid text are valid text.
proof fn lemma_segments_valid(text: Seq<u8>, platform: Platform, verbatim: bool)
    requires
        valid_utf8(text),
    ensures
        forall|i: int|
            0 <= i < components::segments(text, platform, verbatim).len() ==> valid_utf8(
                #[trigger] components::segments(text, platform, verbatim)[i],
            ),
    decreases text.len(),
{
    let at = last_separator(text, platform, verbatim);
    lemma_last_separator(text, platform, verbatim);
    let cut = components::segments(text, platform, verbatim);
    if at < 0 {
        let nothing = Seq::<u8>::empty();
        assert(nothing + text =~= text);
        assert(components::segments(nothing, platform, verbatim) =~= seq![nothing]);
        lemma_segments_append(nothing, text, platform, verbatim);
        assert(cut =~= seq![text]);
    } else {
        lemma_ascii_cut(text, at);
        let before = text.take(at);
        let name = text.skip(at + 1);
        lemma_segments_valid(before, platform, verbatim);
        let upto = before.push(text[at]);
        assert(upto.drop_last() =~= before);
        assert(text =~= upto + name);
        lemma_segments_append(upto, name, platform, verbatim);
        assert(Seq::<u8>::empty() + name =~= name);
        assert(cut =~= components::segments(before, platform, verbatim).push(name));
    }
}

/// Whether every component is written as valid text.
pub open spec fn valid_parts(parts: Seq<Part>, platform: Platform) -> bool {
    forall|i: int|
        0 <= i < parts.len() ==> valid_utf8(components::part_bytes(#[trigger] parts[i], platform))
}

proof fn lemma_segment_parts_valid(cut: Seq<Seq<u8>>, verbatim: bool, platform: Platform)
    requires
        forall|i: int| 0 <= i < cut.len() ==> valid_utf8(#[trigger] cut[i]),
    ensures
        valid_parts(components::segment_parts(cut, verbatim), platform),
    decreases cut.len(),
{
    if cut.len() > 0 {
        let rest = cut.drop_last();
        assert forall|i: int| 0 <= i < rest.len() implies valid_utf8(#[trigger] rest[i]) by {
            assert(rest[i] == cut[i]);
        }
        lemma_segment_parts_valid(rest, verbatim, platform);
        let before = components::segment_parts(rest, verbatim);
        let after = components::segment_parts(cut, verbatim);
        assert(valid_utf8(cut[cut.len() - 1]));
        assert forall|i: int| 0 <= i < after.len() implies valid_utf8(
            components::part_bytes(#[trigger] after[i], platform),
        ) by {
            if i < before.len() {
                assert(after[i] == before[i]);
            }
        }
    }
}

/// The components of valid text, verbatim or without a prefix, are valid text.
pub proof fn lemma_parts_valid(path: Seq<u8>)
    requires
        valid_utf8(path),
        components::windows_prefix(path) is None || verbatim(path, Platform::Windows),
    ensures
        valid_parts(components::components_of(path, Platform::Windows), Platform::Windows),
{
    let platform = Platform::Windows;
    let prefix = components::windows_prefix(path);
    let parts = components::components_of(path, platform);
    lemma_ascii_valid(BACKSLASH);
    lemma_ascii_valid(DOT);
    components::lemma_prefix_len(path);
    let from = match prefix {
        Some(start) => start.len,
        None => 0,
    };
    let rest = path.skip(from);
    if prefix is Some {
        lemma_verbatim_rest(path);
        if from < path.len() {
            lemma_ascii_cut(path, from);
        } else {
            assert(path.take(from) =~= path);
            assert(rest =~= Seq::<u8>::empty());
        }
    } else {
        assert(rest =~= path);
    }
    let text = if components::rooted(rest, platform) {
        rest.skip(1)
    } else {
        rest
    };
    if components::rooted(rest, platform) {
        lemma_ascii_cut(rest, 0);
    }
    let inside = prefix is Some;
    lemma_segments_valid(text, platform, inside);
    lemma_segment_parts_valid(
        components::segments(text, platform, inside),
        inside,
        platform,
    );
    let root = components::start_parts(prefix, rest, platform);
    let body = components::body_parts(rest, platform, inside);
    let offset = if inside {
        1 + root.len()
    } else {
        root.len()
    };
    assert forall|i: int| 0 <= i < parts.len() implies valid_utf8(
        components::part_bytes(#[trigger] parts[i], platform),
    ) by {
        if i >= offset {
            assert(parts[i] == body[i - offset]);
        } else if inside && i > 0 {
            assert(parts[i] == root[i - 1]);
        } else if !inside {
            assert(parts[i] == root[i]);
        }
    }
}

proof fn lemma_extended_valid(out: Seq<Part>, more: Seq<Part>)
    requires
        valid_parts(out, Platform::Windows),
        valid_parts(more, Platform::Windows),
    ensures
        valid_parts(paths::verbatim_extended(out, more), Platform::Windows),
    decreases more.len(),
{
    if more.len() > 0 {
        let rest = more.drop_last();
        assert forall|i: int| 0 <= i < rest.len() implies valid_utf8(
            components::part_bytes(#[trigger] rest[i], Platform::Windows),
        ) by {
            assert(rest[i] == more[i]);
        }
        lemma_extended_valid(out, rest);
        lemma_ascii_valid(BACKSLASH);
        let before = paths::verbatim_extended(out, rest);
        let after = paths::verbatim_extended(out, more);
        let last = more[more.len() - 1];
        assert(valid_utf8(components::part_bytes(last, Platform::Windows)));
        assert forall|i: int| 0 <= i < after.len() implies valid_utf8(
            components::part_bytes(#[trigger] after[i], Platform::Windows),
        ) by {
            if i < before.len() && after[i] == before[i] {
            }
        }
    }
}

/// Collapsing keeps text valid, where no name is read as a path of its own.
proof fn lemma_collapsed_valid(parts: Seq<Part>)
    requires
        valid_parts(parts, Platform::Windows),
        forall|i: int|
            0 <= i < parts.len() ==> (#[trigger] parts[i] matches Part::Normal(name)
                ==> components::windows_prefix(name) is None),
    ensures
        valid_parts(paths::collapsed(parts, Platform::Windows), Platform::Windows),
    decreases parts.len(),
{
    lemma_ascii_valid(BACKSLASH);
    if parts.len() > 0 {
        let rest = parts.drop_last();
        let last = parts[parts.len() - 1];
        assert forall|i: int| 0 <= i < rest.len() implies valid_utf8(
            components::part_bytes(#[trigger] rest[i], Platform::Windows),
        ) && (rest[i] matches Part::Normal(name) ==> components::windows_prefix(name) is None) by {
            assert(rest[i] == parts[i]);
        }
        lemma_collapsed_valid(rest);
        let before = paths::collapsed(rest, Platform::Windows);
        let after = paths::collapsed(parts, Platform::Windows);
        assert(valid_utf8(components::part_bytes(last, Platform::Windows)));
        if last is Normal {
            let name = last->Normal_0;
            lemma_parts_valid(name);
            lemma_extended_valid(before, components::components_of(name, Platform::Windows));
        }
        assert forall|i: int| 0 <= i < after.len() implies valid_utf8(
            components::part_bytes(#[trigger] after[i], Platform::Windows),
        ) by {
            if i < before.len() && after[i] == before[i] {
            }
        }
    }
}

/// Components that are valid text make up a path that is.
pub proof fn lemma_written_valid(parts: Seq<Part>, platform: Platform)
    requires
        valid_parts(parts, platform),
    ensures
        valid_utf8(components::written(parts, platform)),
    decreases parts.len(),
{
    if parts.len() > 0 {
        let rest = parts.drop_last();
        assert forall|i: int| 0 <= i < rest.len() implies valid_utf8(
            components::part_bytes(#[trigger] rest[i], platform),
        ) by {
            assert(rest[i] == parts[i]);
        }
        lemma_written_valid(rest, platform);
        let separator = components::main_separator(platform);
        let before = components::written(rest, platform);
        let last = components::part_bytes(parts[parts.len() - 1], platform);
        lemma_ascii_valid(separator);
        valid_utf8_concat(before, seq![separator]);
        assert(before + seq![separator] =~= before.push(separator));
        valid_utf8_concat(before, last);
        valid_utf8_concat(before.push(separator), last);
    }
}

/// Whether a path, where it is verbatim when collapsed, can do without the mark
/// that makes it so: it is text, and its prefix without the mark is a prefix too,
/// behind which a drive has a root. So `\\?\C:\dir` and `\\?\UNC\server\share`
/// can, `\\?\dir` cannot.
pub open spec fn strips_well(path: Seq<u8>, platform: Platform) -> bool {
    verbatim(paths::normalized(path, platform), platform) ==> {
        let start = components::windows_prefix(path)->0;
        let raw = paths::unmarked(path.take(start.len));
        &&& valid_utf8(path)
        &&& components::windows_prefix(raw) matches Some(plain)
        &&& plain.len == raw.len()
        &&& plain.kind == PrefixKind::Disk ==> start.len < path.len()
    }
}

/// What stands behind a whole prefix stays when the marks in front of the prefix
/// are cut off.
proof fn lemma_unmarked_tail(raw: Seq<u8>, tail: Seq<u8>)
    requires
        components::windows_prefix(paths::unmarked(raw)) matches Some(plain) && plain.len
            == paths::unmarked(raw).len() && (plain.kind == PrefixKind::Disk || tail.len() == 0
            || tail[0] == BACKSLASH),
    ensures
        paths::unmarked(raw + tail) == paths::unmarked(raw) + tail,
        components::windows_prefix(paths::unmarked(raw) + tail) == components::windows_prefix(
            paths::unmarked(raw),
        ),
    decreases raw.len(),
{
    let whole = raw + tail;
    let mark = paths::verbatim_mark();
    let network = paths::verbatim_unc_mark();
    let bare = paths::unmarked(raw);
    paths::lemma_unmarked(raw);
    lemma_verbatim_mark(bare);
    lemma_verbatim_mark(raw);
    lemma_verbatim_mark(whole);
    let plain = components::windows_prefix(bare)->0;
    components::lemma_prefix_len(bare);
    assert(bare.take(plain.len) =~= bare);
    if tail.len() > 0 {
        assert((bare + tail)[plain.len] == tail[0]);
    }
    lemma_prefix_stays(bare, bare + tail);
    lemma_verbatim_mark(bare + tail);
    if network.is_prefix_of(raw) {
        assert(network.is_prefix_of(whole));
        let next = seq![BACKSLASH, BACKSLASH] + raw.skip(8);
        assert(seq![BACKSLASH, BACKSLASH] + whole.skip(8) =~= next + tail);
        lemma_unmarked_tail(next, tail);
    } else if mark.is_prefix_of(raw) {
        assert(mark.is_prefix_of(whole));
        let next = raw.skip(4);
        assert(!network.is_prefix_of(whole)) by {
            if network.is_prefix_of(whole) {
                if raw.len() >= 8 {
                    assert forall|i: int| 0 <= i < 8 implies network[i] == raw[i] by {
                        assert(network[i] == whole[i]);
                        assert(whole[i] == raw[i]);
                    }
                    assert(network.is_prefix_of(raw));
                } else {
                    lemma_part_of_mark(raw, whole);
                }
            }
        }
        assert(whole.skip(4) =~= next + tail);
        lemma_unmarked_tail(next, tail);
    } else {
        assert(bare == raw);
        assert(!mark.is_prefix_of(whole));
    }
}

/// Too little of the mark of a verbatim network path is left to be a prefix.
proof fn lemma_part_of_mark(raw: Seq<u8>, whole: Seq<u8>)
    requires
        raw.is_prefix_of(whole),
        4 <= raw.len() < 8,
        paths::verbatim_mark().is_prefix_of(raw),
        paths::verbatim_unc_mark().is_prefix_of(whole),
    ensures
        components::windows_prefix(paths::unmarked(raw)) is None,
{
    let network = paths::verbatim_unc_mark();
    let next = raw.skip(4);
    assert(network[4] == 85 && network[5] == 78 && network[6] == 67);
    assert forall|i: int| 0 <= i < next.len() implies next[i] == network[i + 4] by {
        assert(next[i] == raw[i + 4]);
        assert(raw[i + 4] == whole[i + 4]);
        assert(network[i + 4] == whole[i + 4]);
    }
    assert(!network.is_prefix_of(raw));
    if next.len() > 0 {
        assert(next[0] == 85);
    }
    if next.len() > 1 {
        assert(next[1] == 78);
    }
    lemma_no_double(next);
    lemma_verbatim_mark(next);
    paths::lemma_unmarked(next);
}

/// Another prefix in front of the same components.
proof fn lemma_other_prefix(parts: Seq<Part>, first: Part)
    requires
        parts.len() > 0,
        parts[0] is Prefix,
        first is Prefix,
        parts.len() > 1 ==> parts[1] is RootDir,
    ensures
        parts[0]->raw.is_prefix_of(components::written(parts, Platform::Windows)),
        components::written(parts.update(0, first), Platform::Windows) == first->raw
            + components::written(parts, Platform::Windows).skip(parts[0]->raw.len() as int),
    decreases parts.len(),
{
    let platform = Platform::Windows;
    let other = parts.update(0, first);
    let path = components::written(parts, platform);
    let fewer = parts.drop_last();
    let raw = parts[0]->raw;
    if parts.len() == 1 {
        assert(components::written(fewer, platform) =~= Seq::<u8>::empty());
        assert(components::written(other.drop_last(), platform) =~= Seq::<u8>::empty());
        assert(path =~= raw);
        assert(components::written(other, platform) =~= first->raw);
        assert(first->raw + path.skip(raw.len() as int) =~= first->raw);
    } else {
        assert(fewer[0] == parts[0]);
        lemma_other_prefix(fewer, first);
        assert(other.drop_last() =~= fewer.update(0, first));
        assert(other.last() == parts.last());
        let before = components::written(fewer, platform);
        if parts.len() > 2 {
            assert(other[other.len() - 2] == parts[parts.len() - 2]);
        }
        assert(before.is_prefix_of(path));
        assert(components::written(other, platform) =~= first->raw + path.skip(
            raw.len() as int,
        ));
    }
}

/// An absolute path that does not exist yet resolves to an absolute one without
/// `..`: no such step can lead out of a root afterwards. (On Windows a name can be
/// read as a path of its own, and a verbatim path may be none without its mark.)
pub proof fn a_resolved_path_has_no_dots(path: Seq<u8>, platform: Platform)
    requires
        settles(path, platform),
        strips_well(path, platform),
        components::absolute(path, platform),
        ends_absolute(components::components_of(path, platform), platform),
    ensures
        clean(
            components::components_of(paths::resolved(path, None, platform), platform),
            platform,
        ),
        components::absolute(paths::resolved(path, None, platform), platform),
{
    normalizing_leaves_no_dots(path, platform);
    normalizing_keeps_a_path_absolute(path, platform);
    let normal = paths::normalized(path, platform);
    lemma_verbatim_mark(normal);
    if verbatim(normal, platform) {
        lemma_resolved_verbatim(path);
    } else {
        if platform != Platform::Windows {
            assert(paths::verbatim_mark()[0] == BACKSLASH);
        }
        assert(paths::bared(normal, platform) == normal);
    }
}

#[verifier::rlimit(40)]
proof fn lemma_resolved_verbatim(path: Seq<u8>)
    requires
        settles(path, Platform::Windows),
        verbatim(paths::normalized(path, Platform::Windows), Platform::Windows),
        strips_well(path, Platform::Windows),
    ensures
        ({
            let plain = paths::resolved(path, None, Platform::Windows);
            &&& clean(components::components_of(plain, Platform::Windows), Platform::Windows)
            &&& components::absolute(plain, Platform::Windows)
        }),
{
    let platform = Platform::Windows;
    let parts = components::components_of(path, platform);
    let out = paths::collapsed(parts, platform);
    let normal = paths::normalized(path, platform);
    let start = components::windows_prefix(path)->0;
    let raw = path.take(start.len);
    let bare = paths::unmarked(raw);
    let plain = components::windows_prefix(bare)->0;
    lemma_settled(path, platform);
    lemma_well_read(path, platform);
    lemma_collapsed_front(parts, platform);
    lemma_read(path, platform);
    assert(verbatim(path, platform));
    lemma_own_prefix(path);
    lemma_parts_valid(path);
    lemma_collapsed_valid(parts);
    lemma_written_valid(out, platform);
    lemma_verbatim_mark(normal);
    assert(paths::bared(normal, platform) == paths::unmarked(normal));
    lemma_verbatim_mark(bare);
    paths::lemma_unmarked(raw);
    let first = Part::Prefix { raw: bare, parsed: plain };
    lemma_other_prefix(out, first);
    let tail = normal.skip(raw.len() as int);
    assert(normal =~= raw + tail);
    if out.len() == 1 {
        assert(out =~= seq![parts[0]]);
        assert(components::written(out.drop_last(), platform) =~= Seq::<u8>::empty());
        assert(normal =~= raw);
        assert(tail.len() == 0);
    } else {
        lemma_root_written(out);
        assert(tail[0] == BACKSLASH);
    }
    lemma_unmarked_tail(raw, tail);
    let result = bare + tail;
    assert(paths::resolved(path, None, platform) == result);
    let swapped = out.update(0, first);
    assert(result == components::written(swapped, platform));
    lemma_read(result, platform);
    assert(bare.take(plain.len) =~= bare);
    assert(result.take(plain.len) =~= bare);
    let rest = result.skip(plain.len);
    assert(rest =~= tail);
    if out.len() == 1 {
        assert(parts.len() == 1 || parts[1] is RootDir);
        assert(parts.len() == 1);
        assert(plain.kind != PrefixKind::Disk) by {
            if start.len < path.len() {
                lemma_verbatim_rest(path);
                let behind = path.skip(start.len);
                assert(behind[0] == path[start.len]);
                let root = components::start_parts(Some(start), behind, platform);
                assert(parts[1] == root[0]);
            }
        }
        lemma_no_body(rest, platform, false);
        let all = components::components_of(result, platform);
        assert(all =~= seq![first, Part::RootDir]);
    } else {
        assert forall|i: int| 0 <= i < swapped.len() implies match #[trigger] swapped[i] {
            Part::Normal(name) => plain_name(name, platform),
            Part::RootDir => i == 0 || (i == 1 && swapped[0] is Prefix),
            Part::Prefix { raw, parsed } => i == 0 && plain_prefix(raw, parsed, platform),
            _ => false,
        } by {
            if i > 0 {
                assert(swapped[i] == out[i]);
            }
        }
        assert(swapped[1] == out[1]);
        lemma_written_clean(swapped, platform);
        assert(rest[0] == BACKSLASH);
    }
}

} // verus!
