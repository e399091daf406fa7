//! What holds of paths by the way they are written: what separators, dots and
//! drives mean, and where a user's directories are.

use vstd::prelude::*;
use vstd::utf8::*;

use crate::components;
use crate::components::{Part, Platform, PrefixKind};
use crate::join_laws;
use crate::path_laws;
use crate::paths;
use crate::paths::UserVariables;
use crate::text;

verus! {

/// One more segment behind a slash.
proof fn lemma_segment_added(path: Seq<u8>, name: Seq<u8>, platform: Platform)
    requires
        platform != Platform::Windows,
        path.len() > 0,
        !name.contains(47u8),
    ensures
        ({
            let before = components::components_of(path, platform);
            components::components_of(path + seq![47u8] + name, platform) == (
            match components::segment_part(name, false) {
                Some(part) => before.push(part),
                None => before,
            })
        }),
{
    let all = path + seq![47u8] + name;
    let is_root = components::rooted(path, platform);
    assert(all[0] == path[0]);
    if path.len() > 1 {
        assert(all[1] == path[1]);
    } else {
        assert(all[1] == 47);
    }
    let text = if is_root {
        path.skip(1)
    } else {
        path
    };
    let whole = if is_root {
        all.skip(1)
    } else {
        all
    };
    let slashed = text.push(47u8);
    assert(whole =~= slashed + name);
    assert(slashed.drop_last() =~= text);
    let cut = components::segments(text, platform, false);
    assert(components::segments(slashed, platform, false) == cut.push(Seq::empty()));
    assert forall|i: int| 0 <= i < name.len() implies !components::separates(
        platform,
        false,
        name[i],
    ) by {
        assert(name.contains(name[i]));
    }
    path_laws::lemma_segments_append(slashed, name, platform, false);
    assert(cut.push(Seq::<u8>::empty()).drop_last() =~= cut);
    assert(Seq::<u8>::empty() + name =~= name);
    let more = components::segments(whole, platform, false);
    assert(more == cut.push(name));
    assert(more.drop_last() =~= cut);
    let start = components::start_parts(None, path, platform);
    assert(components::start_parts(None, all, platform) == start);
    match components::segment_part(name, false) {
        Some(part) => {
            assert(start + components::segment_parts(cut, false).push(part) =~= (start
                + components::segment_parts(cut, false)).push(part));
        },
        None => {},
    }
}

/// Off Windows a name behind a slash is one more component of a path, `..` is a
/// step up, and neither `.` nor another slash counts.
pub proof fn what_a_slash_adds(path: Seq<u8>, name: Seq<u8>, platform: Platform)
    requires
        platform != Platform::Windows,
        path.len() > 0,
    ensures
        ({
            let before = components::components_of(path, platform);
            let slashed = path + seq![47u8];
            &&& name.len() > 0 && !name.contains(47u8) && name != seq![46u8] && name != seq![
                46u8,
                46u8,
            ] ==> components::components_of(slashed + name, platform) == before.push(
                Part::Normal(name),
            )
            &&& components::components_of(slashed + seq![46u8, 46u8], platform) == before.push(
                Part::ParentDir,
            )
            &&& components::components_of(slashed + seq![46u8], platform) == before
            &&& components::components_of(slashed, platform) == before
        }),
{
    let slashed = path + seq![47u8];
    if !name.contains(47u8) {
        lemma_segment_added(path, name, platform);
    }
    assert(seq![46u8, 46u8][1] == 46);
    assert(seq![46u8].len() == 1 && seq![46u8, 46u8].len() == 2);
    lemma_segment_added(path, seq![46u8, 46u8], platform);
    lemma_segment_added(path, seq![46u8], platform);
    lemma_segment_added(path, Seq::empty(), platform);
    assert(slashed + Seq::<u8>::empty() =~= slashed);
}

/// The paths without components in front of the first slash: nothing has none, a
/// slash is the root, a name is itself, `.` is where one is, and `..` leads up.
pub proof fn where_a_path_starts(name: Seq<u8>, platform: Platform)
    requires
        platform != Platform::Windows,
    ensures
        components::components_of(Seq::empty(), platform).len() == 0,
        components::components_of(seq![47u8], platform) == seq![Part::RootDir],
        components::components_of(seq![46u8], platform) == seq![Part::CurDir],
        components::components_of(seq![46u8, 46u8], platform) == seq![Part::ParentDir],
        name.len() > 0 && !name.contains(47u8) && name != seq![46u8] && name != seq![46u8, 46u8]
            ==> components::components_of(name, platform) == seq![Part::Normal(name)],
{
    let nothing = Seq::<u8>::empty();
    path_laws::lemma_no_body(nothing, platform, false);
    path_laws::lemma_no_body(seq![47u8], platform, false);
    assert(components::components_of(nothing, platform) =~= Seq::<Part>::empty());
    assert(components::components_of(seq![47u8], platform) =~= seq![Part::RootDir]);
    lemma_lone_segment(seq![46u8], platform);
    assert(components::components_of(seq![46u8], platform) =~= seq![Part::CurDir]);
    lemma_lone_segment(seq![46u8, 46u8], platform);
    assert(seq![46u8, 46u8][1] == 46);
    assert(components::components_of(seq![46u8, 46u8], platform) =~= seq![Part::ParentDir]);
    if name.len() > 0 && !name.contains(47u8) && name != seq![46u8] && name != seq![46u8, 46u8] {
        lemma_lone_segment(name, platform);
        assert(name.contains(name[0]));
        if name.len() == 1 {
            assert(name[0] != 46) by {
                if name[0] == 46 {
                    assert(name =~= seq![46u8]);
                }
            }
        } else {
            assert(name.contains(name[1]));
        }
        assert(components::components_of(name, platform) =~= seq![Part::Normal(name)]);
    }
}

proof fn lemma_lone_segment(name: Seq<u8>, platform: Platform)
    requires
        platform != Platform::Windows,
        name.len() > 0,
        !name.contains(47u8),
    ensures
        !components::rooted(name, platform),
        components::body_parts(name, platform, false) == (match components::segment_part(
            name,
            false,
        ) {
            Some(part) => seq![part],
            None => Seq::empty(),
        }),
{
    let nothing = Seq::<u8>::empty();
    assert(name.contains(name[0]));
    assert forall|i: int| 0 <= i < name.len() implies !components::separates(
        platform,
        false,
        name[i],
    ) by {
        assert(name.contains(name[i]));
    }
    path_laws::lemma_segments_append(nothing, name, platform, false);
    assert(nothing + name =~= name);
    assert(components::segments(nothing, platform, false) =~= seq![nothing]);
    assert(seq![nothing].drop_last() =~= Seq::<Seq<u8>>::empty());
    let cut = components::segments(name, platform, false);
    assert(cut =~= seq![name]);
    assert(cut.drop_last() =~= Seq::<Seq<u8>>::empty());
    assert(components::segment_parts(cut.drop_last(), false) =~= Seq::<Part>::empty());
    assert(components::body_parts(name, platform, false) =~= (match components::segment_part(
        name,
        false,
    ) {
        Some(part) => seq![part],
        None => Seq::empty(),
    }));
}

/// Off Windows a step down and up again, a step nowhere and a further slash change
/// nothing about where a path leads, and a step down is kept.
pub proof fn what_steps_come_to(path: Seq<u8>, name: Seq<u8>, platform: Platform)
    requires
        platform != Platform::Windows,
        path.len() > 0,
        name.len() > 0,
        !name.contains(47u8),
        name != seq![46u8],
        name != seq![46u8, 46u8],
    ensures
        ({
            let normal = paths::normalized(path, platform);
            let slashed = path + seq![47u8];
            let down = slashed + name;
            &&& paths::normalized(down + seq![47u8] + seq![46u8, 46u8], platform) == normal
            &&& paths::normalized(slashed + seq![46u8], platform) == normal
            &&& paths::normalized(slashed, platform) == normal
            &&& components::components_of(paths::normalized(down, platform), platform)
                == components::components_of(normal, platform).push(Part::Normal(name))
        }),
{
    let parts = components::components_of(path, platform);
    let down = path + seq![47u8] + name;
    what_a_slash_adds(path, name, platform);
    what_a_slash_adds(down, name, platform);
    let stepped = parts.push(Part::Normal(name));
    let back = stepped.push(Part::ParentDir);
    assert(back.drop_last() =~= stepped);
    assert(stepped.drop_last() =~= parts);
    assert(paths::collapsed(parts, platform).push(Part::Normal(name)).drop_last()
        =~= paths::collapsed(parts, platform));
    path_laws::an_ordinary_path_settles(path, platform);
    path_laws::an_ordinary_path_settles(down, platform);
    path_laws::normalizing_leaves_no_dots(path, platform);
    path_laws::normalizing_leaves_no_dots(down, platform);
}

/// Off Windows a step up takes the last name away, and nothing from the root.
pub proof fn what_a_step_up_comes_to(path: Seq<u8>, platform: Platform)
    requires
        platform != Platform::Windows,
        path.len() > 0,
    ensures
        ({
            let before = components::components_of(paths::normalized(path, platform), platform);
            let after = components::components_of(
                paths::normalized(path + seq![47u8] + seq![46u8, 46u8], platform),
                platform,
            );
            after == (if before.len() > 0 && before.last() is Normal {
                before.take(before.len() - 1)
            } else {
                before
            })
        }),
{
    let parts = components::components_of(path, platform);
    let up = path + seq![47u8] + seq![46u8, 46u8];
    what_a_slash_adds(path, seq![97u8], platform);
    assert(parts.push(Part::ParentDir).drop_last() =~= parts);
    path_laws::an_ordinary_path_settles(path, platform);
    path_laws::an_ordinary_path_settles(up, platform);
    path_laws::normalizing_leaves_no_dots(path, platform);
    path_laws::normalizing_leaves_no_dots(up, platform);
    let before = paths::collapsed(parts, platform);
    if before.len() > 0 {
        let last = before[before.len() - 1];
        assert(before.drop_last() =~= before.take(before.len() - 1));
    }
}

/// On every platform collapsing drops `.`, takes a name away for `..`, and keeps
/// names in order. (On Windows a name may be read as a path of its own, and a
/// verbatim path has its names taken apart.)
pub proof fn what_collapsing_does(parts: Seq<Part>, name: Seq<u8>, platform: Platform)
    requires
        platform == Platform::Windows ==> components::windows_prefix(name) is None
            && !paths::starts_verbatim(paths::collapsed(parts, platform)),
    ensures
        ({
            let before = paths::collapsed(parts, platform);
            let down = parts.push(Part::Normal(name));
            &&& paths::collapsed(parts.push(Part::CurDir), platform) == before
            &&& paths::collapsed(down, platform) == before.push(Part::Normal(name))
            &&& paths::collapsed(down.push(Part::ParentDir), platform) == before
            &&& (before.len() > 0 && (before.last() is RootDir || before.last() is Prefix))
                ==> paths::collapsed(parts.push(Part::ParentDir), platform) == before
        }),
{
    let before = paths::collapsed(parts, platform);
    let down = parts.push(Part::Normal(name));
    assert(parts.push(Part::CurDir).drop_last() =~= parts);
    assert(parts.push(Part::ParentDir).drop_last() =~= parts);
    assert(down.drop_last() =~= parts);
    assert(down.push(Part::ParentDir).drop_last() =~= down);
    assert(before.push(Part::Normal(name)).drop_last() =~= before);
    assert(paths::collapsed(parts.push(Part::CurDir), platform) == before);
    assert(paths::collapsed(down, platform) == before.push(Part::Normal(name)));
    assert(paths::collapsed(down.push(Part::ParentDir), platform) == before);
    if before.len() > 0 && (before.last() is RootDir || before.last() is Prefix) {
        assert(paths::popped(before) == before);
        assert(paths::collapsed(parts.push(Part::ParentDir), platform) == before);
    }
}

/// On Windows a letter and a colon are a drive, whichever case the letter has: it
/// is the same drive in both.
pub proof fn a_drive_has_no_case(letter: u8, rest: Seq<u8>)
    requires
        97 <= letter <= 122,
    ensures
        ({
            let upper = (letter - 32) as u8;
            let low = components::windows_prefix(seq![letter, 58u8] + rest);
            let high = components::windows_prefix(seq![upper, 58u8] + rest);
            &&& low == high
            &&& high matches Some(start) && start.kind == PrefixKind::Disk && start.first == seq![
                upper,
            ] && start.second.len() == 0 && start.len == 2
        }),
{
    let upper = (letter - 32) as u8;
    let low = seq![letter, 58u8] + rest;
    let high = seq![upper, 58u8] + rest;
    let double = seq![92u8, 92u8];
    assert(low[0] == letter && low[1] == 58);
    assert(high[0] == upper && high[1] == 58);
    assert(double[0] == 92 && double.len() == 2);
    assert(!components::stands_at(low, 0, double));
    assert(!components::stands_at(high, 0, double));
}

/// On Windows a path that starts neither with a drive nor with two separators has
/// no prefix.
pub proof fn what_has_no_prefix(path: Seq<u8>)
    requires
        path.len() < 2 || !(65 <= path[0] <= 90 || 97 <= path[0] <= 122) || path[1] != 58,
        path.len() < 2 || !(path[0] == 47 || path[0] == 92) || !(path[1] == 47 || path[1] == 92),
    ensures
        components::windows_prefix(path) is None,
{
    let double = seq![92u8, 92u8];
    assert(double[0] == 92 && double[1] == 92 && double.len() == 2);
    assert(!components::stands_at(path, 0, double)) by {
        if components::stands_at(path, 0, double) {
            assert(double[0] == (if path[0] == 47 {
                92u8
            } else {
                path[0]
            }));
            assert(double[1] == (if path[1] == 47 {
                92u8
            } else {
                path[1]
            }));
        }
    }
}

/// Off Windows a path is absolute if it starts with a slash, and no path has a
/// prefix.
pub proof fn off_windows_a_slash_is_the_root(path: Seq<u8>, platform: Platform)
    requires
        platform != Platform::Windows,
    ensures
        components::absolute(path, platform) <==> path.len() > 0 && path[0] == 47,
        components::prefix_of(path, platform) is None,
{
}

/// On Windows a drive makes a path absolute only with a root behind it, and a root
/// alone does not.
pub proof fn on_windows_a_path_needs_a_drive_and_a_root(letter: u8, path: Seq<u8>)
    requires
        65 <= letter <= 90 || 97 <= letter <= 122,
    ensures
        components::absolute(seq![letter, 58u8] + path, Platform::Windows) <==> path.len() > 0 && (
        path[0] == 47 || path[0] == 92),
        (path.len() == 1 || (path.len() > 1 && path[1] != 47 && path[1] != 92)) && (path[0] == 47
            || path[0] == 92) ==> !components::absolute(path, Platform::Windows),
{
    let whole = seq![letter, 58u8] + path;
    if letter >= 97 {
        a_drive_has_no_case(letter, path);
    } else {
        a_drive_has_no_case((letter + 32) as u8, path);
    }
    assert(whole.skip(2) =~= path);
    if (path.len() == 1 || (path.len() > 1 && path[1] != 47 && path[1] != 92)) && (path[0] == 47
        || path[0] == 92) {
        what_has_no_prefix(path);
    }
}

/// Two names are the same component if and only if they are the same bytes, and
/// components of two kinds never are.
pub proof fn components_are_the_same_if_they_read_the_same(a: Seq<u8>, b: Seq<u8>, part: Part)
    ensures
        components::same_part(Part::Normal(a), Part::Normal(b)) <==> a == b,
        components::same_part(Part::RootDir, part) <==> part is RootDir,
        components::same_part(Part::ParentDir, part) <==> part is ParentDir,
        components::same_part(Part::CurDir, part) <==> part is CurDir,
        components::same_part(part, part),
{
}

/// A path whose components are those of the root and some more lies inside the
/// root, whether or not case matters.
pub proof fn what_has_the_roots_components_is_inside(
    path: Seq<u8>,
    root: Seq<u8>,
    more: Seq<Part>,
    case_insensitive: bool,
    platform: Platform,
)
    requires
        components::components_of(paths::stripped(path, platform), platform)
            == components::components_of(paths::stripped(root, platform), platform) + more,
    ensures
        paths::within(path, root, case_insensitive, platform),
{
}

/// A path lies inside a root whose names differ from the path's in case alone, if
/// case does not matter.
pub proof fn case_alone_does_not_lead_out(path: Seq<u8>, root: Seq<u8>, platform: Platform)
    requires
        ({
            let outer = components::components_of(paths::stripped(root, platform), platform);
            let inner = components::components_of(paths::stripped(path, platform), platform);
            &&& outer.len() <= inner.len()
            &&& forall|i: int|
                0 <= i < outer.len() ==> text::lowercase(
                    paths::path_text(
                        components::part_bytes(#[trigger] outer[i], platform),
                        platform,
                    ),
                ) == text::lowercase(
                    paths::path_text(components::part_bytes(inner[i], platform), platform),
                )
        }),
    ensures
        paths::within(path, root, true, platform),
{
}

/// A path that is shorter than the root, or has another component in one place,
/// lies outside: where case matters, whatever differs, and else what differs in
/// more than case.
pub proof fn another_component_leads_out(
    path: Seq<u8>,
    root: Seq<u8>,
    case_insensitive: bool,
    platform: Platform,
    i: int,
)
    requires
        ({
            let outer = components::components_of(paths::stripped(root, platform), platform);
            let inner = components::components_of(paths::stripped(path, platform), platform);
            &&& 0 <= i < outer.len()
            &&& i < inner.len() ==> {
                &&& !components::same_part(outer[i], inner[i])
                &&& case_insensitive ==> text::lowercase(
                    paths::path_text(components::part_bytes(outer[i], platform), platform),
                ) != text::lowercase(
                    paths::path_text(components::part_bytes(inner[i], platform), platform),
                )
            }
        }),
    ensures
        !paths::within(path, root, case_insensitive, platform),
{
    let outer = components::components_of(paths::stripped(root, platform), platform);
    let inner = components::components_of(paths::stripped(path, platform), platform);
    if i < inner.len() {
        assert(!paths::parts_match(outer[i], inner[i], case_insensitive, platform));
    }
}

/// Case matters on Unix, and on the other platforms it does not.
pub proof fn where_case_matters(platform: Platform)
    ensures
        paths::ignores_case(platform) <==> platform != Platform::Unix,
{
}

/// Stripping takes `\\?\` off a path, and makes `\\?\UNC\` the `\\` of a network
/// path; what carries no such mark is left alone.
pub proof fn what_stripping_takes_off(path: Seq<u8>, platform: Platform)
    ensures
        ({
            let mark = seq![92u8, 92u8, 63u8, 92u8];
            let network = seq![85u8, 78u8, 67u8, 92u8];
            &&& valid_utf8(mark + path) && !network.is_prefix_of(path) ==> paths::stripped(
                mark + path,
                platform,
            ) == path
            &&& valid_utf8(mark + network + path) ==> paths::stripped(
                mark + network + path,
                platform,
            ) == seq![92u8, 92u8] + path
            &&& !mark.is_prefix_of(path) ==> paths::stripped(path, platform) == path
        }),
{
    let mark = seq![92u8, 92u8, 63u8, 92u8];
    let network = seq![85u8, 78u8, 67u8, 92u8];
    assert(paths::verbatim_mark() =~= mark);
    assert(paths::verbatim_unc_mark() =~= mark + network);
    let marked = mark + path;
    assert(mark.is_prefix_of(marked));
    assert(marked.skip(4) =~= path);
    if (mark + network).is_prefix_of(marked) {
        assert forall|i: int| 0 <= i < 4 implies network[i] == path[i] by {
            assert((mark + network)[i + 4] == marked[i + 4]);
        }
        assert(network.is_prefix_of(path));
    }
    let both = mark + network + path;
    assert((mark + network).is_prefix_of(both));
    assert(mark.is_prefix_of(both));
    assert(both.skip(8) =~= path);
}

/// A path resolves to what the system makes of it, where it exists, and to its
/// normal form where it does not; either is left alone if no mark makes it
/// verbatim.
pub proof fn what_a_path_resolves_to(
    path: Seq<u8>,
    other: Seq<u8>,
    canonical: Seq<u8>,
    platform: Platform,
)
    ensures
        ({
            let mark = seq![92u8, 92u8, 63u8, 92u8];
            &&& !mark.is_prefix_of(canonical) ==> paths::resolved(path, Some(canonical), platform)
                == canonical
            &&& paths::resolved(path, Some(canonical), platform) == paths::resolved(
                other,
                Some(canonical),
                platform,
            )
            &&& paths::resolved(path, None, platform) == paths::resolved(
                other,
                Some(paths::normalized(path, platform)),
                platform,
            )
            &&& valid_utf8(mark + canonical) && !mark.is_prefix_of(canonical) && !seq![
                85u8,
                78u8,
                67u8,
                92u8,
            ].is_prefix_of(canonical) ==> paths::resolved(
                path,
                Some(mark + canonical),
                platform,
            ) == canonical
        }),
{
    let mark = seq![92u8, 92u8, 63u8, 92u8];
    let network = seq![85u8, 78u8, 67u8, 92u8];
    assert(paths::verbatim_mark() =~= mark);
    assert(paths::verbatim_unc_mark() =~= mark + network);
    let marked = mark + canonical;
    assert(mark.is_prefix_of(marked));
    assert(marked.skip(4) =~= canonical);
    if (mark + network).is_prefix_of(marked) {
        assert forall|i: int| 0 <= i < 4 implies network[i] == canonical[i] by {
            assert((mark + network)[i + 4] == marked[i + 4]);
        }
        assert(network.is_prefix_of(canonical));
    }
    paths::lemma_unmarked(canonical);
}

/// An absolute path joined to a base replaces it.
pub proof fn an_absolute_path_replaces_the_base(base: Seq<u8>, name: Seq<u8>, platform: Platform)
    requires
        components::absolute(name, platform),
    ensures
        paths::joined_path(base, name, platform) == name,
{
}

/// A relative path joined to a base stands behind all of it, with one separator
/// between the two where the base does not end in one, and none else. (On Windows
/// a verbatim base has the path's dots collapsed.)
pub proof fn a_relative_path_stands_behind_the_base(
    base: Seq<u8>,
    name: Seq<u8>,
    platform: Platform,
)
    requires
        components::prefix_of(name, platform) is None,
        name.len() > 0 ==> name[0] != 47 && (platform == Platform::Windows ==> name[0] != 92),
        !path_laws::verbatim(base, platform),
    ensures
        ({
            let joined = paths::joined_path(base, name, platform);
            let separator = if platform == Platform::Windows {
                92u8
            } else {
                47u8
            };
            let ends = base.len() == 0 || base.last() == 47 || base.last() == separator;
            &&& ends ==> joined == base + name
            &&& !ends ==> joined == base + seq![separator] + name || (joined == base + name
                && platform == Platform::Windows && base.len() == 2 && base[1] == 58)
        }),
{
    let separator = components::main_separator(platform);
    assert(base.push(separator) =~= base + seq![separator]);
    if platform == Platform::Windows && base.len() == 2 && base[1] != 58 {
        let double = seq![92u8, 92u8];
        assert(!components::drive_at(base, 0));
    }
}

/// A variable counts if something other than white space is in it, and gives the
/// path as it stands there.
pub proof fn a_blank_variable_does_not_count(variable: Option<String>)
    ensures
        match variable {
            Some(value) => {
                &&& paths::nonblank(variable) is None <==> forall|i: int|
                    0 <= i < value@.len() ==> text::white_space(#[trigger] value@[i])
                &&& paths::nonblank(variable) is Some ==> paths::nonblank(variable) == Some(
                    encode_utf8(value@),
                )
                &&& paths::nonempty(variable) is None <==> value@.len() == 0
                &&& paths::nonempty(variable) is Some ==> paths::nonempty(variable) == Some(
                    encode_utf8(value@),
                )
            },
            None => paths::nonblank(variable) is None && paths::nonempty(variable) is None,
        },
{
    match variable {
        Some(value) => {
            text::only_white_space_is_blank(value@);
        },
        None => {},
    }
}

/// The bytes of a text are those of its parts.
proof fn lemma_encoded_one_by_one(first: Seq<char>, second: Seq<char>)
    ensures
        encode_utf8(first + second) == encode_utf8(first) + encode_utf8(second),
    decreases first.len(),
{
    if first.len() == 0 {
        assert(first + second =~= second);
        assert(encode_utf8(first) + encode_utf8(second) =~= encode_utf8(second));
    } else {
        lemma_encoded_one_by_one(first.drop_first(), second);
        assert((first + second).drop_first() =~= first.drop_first() + second);
        assert(encode_utf8(first + second) =~= encode_utf8(first) + encode_utf8(second));
    }
}

/// The home directory is `HOME` if that counts, else `USERPROFILE` if that counts,
/// else the drive and the path that make it up if both count; there is none if
/// none of these does.
pub proof fn where_the_home_directory_is(variables: UserVariables)
    ensures
        ({
            let home = paths::home_of(variables);
            let drive = paths::nonblank(variables.homedrive);
            let place = paths::nonblank(variables.homepath);
            &&& paths::nonblank(variables.home) is Some ==> home == paths::nonblank(variables.home)
            &&& paths::nonblank(variables.home) is None && paths::nonblank(
                variables.userprofile,
            ) is Some ==> home == paths::nonblank(variables.userprofile)
            &&& paths::nonblank(variables.home) is None && paths::nonblank(
                variables.userprofile,
            ) is None ==> {
                &&& home is Some <==> drive is Some && place is Some
                &&& home is Some ==> home->0 == drive->0 + place->0
            }
        }),
{
    match (variables.homedrive, variables.homepath) {
        (Some(drive), Some(place)) => {
            lemma_encoded_one_by_one(drive@, place@);
        },
        _ => {},
    }
}

/// A directory below the home directory is there if that one is, and is one name
/// further down; what is two levels below is two names further down. (A Windows
/// directory that ends inside a prefix would have it completed by the name, and a
/// verbatim one has its names taken apart.)
pub proof fn what_is_below_the_home_directory(
    variables: UserVariables,
    outer: Seq<char>,
    inner: Seq<char>,
    platform: Platform,
)
    requires
        path_laws::plain_name(encode_utf8(outer), platform),
        path_laws::plain_name(encode_utf8(inner), platform),
        paths::home_of(variables) matches Some(home) ==> {
            let path = paths::joined_path(home, encode_utf8(outer), platform);
            let prefix = components::prefix_of(home, platform);
            &&& !path_laws::verbatim(home, platform)
            &&& components::prefix_of(path, platform) == prefix
            &&& components::prefix_of(
                paths::joined_path(path, encode_utf8(inner), platform),
                platform,
            ) == prefix
        },
    ensures
        match paths::home_of(variables) {
            Some(home) => {
                &&& paths::below_home(variables, outer, platform) matches Some(path)
                    && components::components_of(path, platform) == components::components_of(
                    home,
                    platform,
                ).push(Part::Normal(encode_utf8(outer)))
                &&& paths::two_below_home(variables, outer, inner, platform) matches Some(path)
                    && components::components_of(path, platform) == components::components_of(
                    home,
                    platform,
                ).push(Part::Normal(encode_utf8(outer))).push(Part::Normal(encode_utf8(inner)))
            },
            None => paths::below_home(variables, outer, platform) is None && paths::two_below_home(
                variables,
                outer,
                inner,
                platform,
            ) is None,
        },
{
    match paths::home_of(variables) {
        Some(home) => {
            let path = paths::joined_path(home, encode_utf8(outer), platform);
            join_laws::a_joined_name_is_the_last_component(home, encode_utf8(outer), platform);
            join_laws::a_joined_name_is_the_last_component(path, encode_utf8(inner), platform);
        },
        None => {},
    }
}

/// The first of two that is there counts.
pub proof fn the_first_that_is_there_counts(first: Option<Seq<u8>>, second: Option<Seq<u8>>)
    ensures
        first is Some ==> paths::or_else(first, second) == first,
        first is None ==> paths::or_else(first, second) == second,
{
}

/// Whether a name ends where `rest` starts: with the path, or at a separator.
pub open spec fn ends_a_name(rest: Seq<u8>, verbatim: bool) -> bool {
    rest.len() == 0 || rest[0] == 92 || (rest[0] == 47 && !verbatim)
}

/// Whether a name runs on to its end.
pub open spec fn one_name(name: Seq<u8>, verbatim: bool) -> bool {
    !name.contains(92u8) && (verbatim || !name.contains(47u8))
}

proof fn lemma_name_ends(path: Seq<u8>, from: int, to: int, verbatim: bool)
    requires
        0 <= from <= to <= path.len(),
        one_name(path.subrange(from, to), verbatim),
        ends_a_name(path.skip(to), verbatim),
    ensures
        components::name_end(path, from, verbatim) == to,
    decreases to - from,
{
    if from < to {
        let name = path.subrange(from, to);
        let less = path.subrange(from + 1, to);
        assert(name.contains(name[0]));
        assert(name[0] == path[from]);
        assert forall|b: u8| less.contains(b) implies name.contains(b) by {
            let i = choose|i: int| 0 <= i < less.len() && less[i] == b;
            assert(name[i + 1] == b);
        }
        lemma_name_ends(path, from + 1, to, verbatim);
    } else if to < path.len() {
        assert(path.skip(to)[0] == path[to]);
    }
}

/// On Windows `\\server\share` starts a network path, unless the server is `?` or
/// `.`.
pub proof fn a_server_and_a_share_start_a_network_path(
    server: Seq<u8>,
    share: Seq<u8>,
    rest: Seq<u8>,
)
    requires
        one_name(server, false),
        one_name(share, false),
        server.len() > 0,
        share.len() > 0,
        server != seq![63u8],
        server != seq![46u8],
        ends_a_name(rest, false),
    ensures
        components::windows_prefix(seq![92u8, 92u8] + server + seq![92u8] + share + rest) matches Some(
            start,
        ) && start.kind == PrefixKind::Unc && start.first == server && start.second == share
            && start.len == 3 + server.len() + share.len(),
{
    let path = seq![92u8, 92u8] + server + seq![92u8] + share + rest;
    let end: int = 2 + server.len() as int;
    let last: int = end + 1 + share.len();
    let double = seq![92u8, 92u8];
    assert(path[0] == 92 && path[1] == 92);
    assert(components::stands_at(path, 0, double));
    assert(path[2] == server[0]);
    assert(server.contains(server[0]));
    if server.len() == 1 {
        assert(server[0] != 63) by {
            if server[0] == 63 {
                assert(server =~= seq![63u8]);
            }
        }
        assert(server[0] != 46) by {
            if server[0] == 46 {
                assert(server =~= seq![46u8]);
            }
        }
    } else {
        assert(path[3] == server[1]);
        assert(server.contains(server[1]));
    }
    assert(!components::stands_at(path, 2, seq![63u8, 92u8])) by {
        let mark = seq![63u8, 92u8];
        if components::stands_at(path, 2, mark) {
            assert(mark[0] == 63 && mark[1] == 92);
        }
    }
    assert(!components::stands_at(path, 2, seq![46u8, 92u8])) by {
        let mark = seq![46u8, 92u8];
        if components::stands_at(path, 2, mark) {
            assert(mark[0] == 46 && mark[1] == 92);
        }
    }
    assert(path.subrange(2, end) =~= server);
    assert(path.skip(end)[0] == 92) by {
        assert(path[end] == 92);
    }
    lemma_name_ends(path, 2, end, false);
    assert(path.subrange(end + 1, last) =~= share);
    assert(path.skip(last) =~= rest);
    lemma_name_ends(path, end + 1, last, false);
}

/// On Windows `\\?\` in front of a drive, with nothing or a separator behind, keeps
/// the drive, in upper case.
pub proof fn a_marked_drive_is_that_drive(letter: u8, rest: Seq<u8>)
    requires
        65 <= letter <= 90 || 97 <= letter <= 122,
        ends_a_name(rest, false),
    ensures
        components::windows_prefix(
            seq![92u8, 92u8, 63u8, 92u8] + seq![letter, 58u8] + rest,
        ) matches Some(start) && start.kind == PrefixKind::VerbatimDisk && start.first == seq![
            if letter >= 97 {
                (letter - 32) as u8
            } else {
                letter
            },
        ] && start.second.len() == 0 && start.len == 6,
{
    let path = seq![92u8, 92u8, 63u8, 92u8] + seq![letter, 58u8] + rest;
    lemma_marked(path);
    assert(path[4] == letter && path[5] == 58);
    let network = seq![85u8, 78u8, 67u8, 92u8];
    assert(!components::stands_at(path, 4, network)) by {
        if components::stands_at(path, 4, network) {
            assert(network[1] == 78);
        }
    }
    if rest.len() > 0 {
        assert(path[6] == rest[0]);
    }
}

/// On Windows `\\?\UNC\server\share` starts a network path.
pub proof fn a_marked_server_and_share_start_a_network_path(
    server: Seq<u8>,
    share: Seq<u8>,
    rest: Seq<u8>,
)
    requires
        one_name(server, true),
        one_name(share, true),
        share.len() > 0,
        ends_a_name(rest, true),
    ensures
        components::windows_prefix(
            seq![92u8, 92u8, 63u8, 92u8] + seq![85u8, 78u8, 67u8, 92u8] + server + seq![92u8]
                + share + rest,
        ) matches Some(start) && start.kind == PrefixKind::VerbatimUnc && start.first == server
            && start.second == share && start.len == 9 + server.len() + share.len(),
{
    let network = seq![85u8, 78u8, 67u8, 92u8];
    let path = seq![92u8, 92u8, 63u8, 92u8] + network + server + seq![92u8] + share + rest;
    let end: int = 8 + server.len() as int;
    let last: int = end + 1 + share.len();
    lemma_marked(path);
    assert(path[4] == 85 && path[5] == 78 && path[6] == 67 && path[7] == 92);
    assert(components::stands_at(path, 4, network));
    assert(path.subrange(8, end) =~= server);
    assert(path[end] == 92);
    assert(path.skip(end)[0] == 92);
    lemma_name_ends(path, 8, end, true);
    assert(path.subrange(end + 1, last) =~= share);
    assert(path.skip(last) =~= rest);
    lemma_name_ends(path, end + 1, last, true);
}

/// On Windows `\\?\` in front of another name, and `\\.\` in front of any, start a
/// path with that name.
pub proof fn a_marked_name_starts_a_path(name: Seq<u8>, rest: Seq<u8>)
    requires
        one_name(name, false),
        ends_a_name(rest, true),
    ensures
        name != seq![85u8, 78u8, 67u8] && !(name.len() == 2 && name[1] == 58) ==> (
        components::windows_prefix(seq![92u8, 92u8, 63u8, 92u8] + name + rest) matches Some(
            start,
        ) && start.kind == PrefixKind::Verbatim && start.first == name && start.second.len() == 0
            && start.len == 4 + name.len()),
        components::windows_prefix(seq![92u8, 92u8, 46u8, 92u8] + name + rest) matches Some(start)
            && start.kind == PrefixKind::DeviceNs && start.first == name && start.second.len() == 0
            && start.len == 4 + name.len(),
{
    let marked = seq![92u8, 92u8, 63u8, 92u8] + name + rest;
    let device = seq![92u8, 92u8, 46u8, 92u8] + name + rest;
    let end: int = 4 + name.len() as int;
    let network = seq![85u8, 78u8, 67u8, 92u8];
    lemma_marked(marked);
    assert(marked.subrange(4, end) =~= name);
    assert(marked.skip(end) =~= rest);
    lemma_name_ends(marked, 4, end, true);
    assert forall|i: int| 0 <= i < name.len() implies name[i] != 92 && name[i] != 47 && marked[4 + i]
        == name[i] by {
        assert(name.contains(name[i]));
    }
    if end < marked.len() {
        assert(marked[end] == rest[0]);
    }
    if name != seq![85u8, 78u8, 67u8] && !(name.len() == 2 && name[1] == 58) {
        assert(!components::stands_at(marked, 4, network)) by {
            if components::stands_at(marked, 4, network) {
                assert(network[0] == 85 && network[1] == 78 && network[2] == 67 && network[3] == 92);
                assert(network.len() == 4);
                if name.len() < 3 {
                    assert(marked[end] == 92);
                    assert(network[end - 4] == 92);
                } else {
                    assert(marked[4] == 85 && marked[5] == 78 && marked[6] == 67);
                    assert(name[0] == 85 && name[1] == 78 && name[2] == 67);
                    if name.len() == 3 {
                        assert(name =~= seq![85u8, 78u8, 67u8]);
                    } else {
                        assert(marked[7] == name[3]);
                    }
                }
            }
        }
        assert(!(components::drive_at(marked, 4) && (marked.len() == 6 || components::separates(
            Platform::Windows,
            false,
            marked[6],
        )))) by {
            if components::drive_at(marked, 4) {
                if name.len() > 2 {
                    assert(marked[6] == name[2]);
                } else if name.len() == 1 {
                    assert(marked[5] == rest[0]);
                } else if name.len() == 0 {
                    assert(marked[4] == rest[0]);
                }
            }
        }
    }
    assert(device[0] == 92 && device[1] == 92 && device[2] == 46 && device[3] == 92);
    assert(components::stands_at(device, 0, seq![92u8, 92u8]));
    assert(!components::stands_at(device, 2, seq![63u8, 92u8])) by {
        let mark = seq![63u8, 92u8];
        if components::stands_at(device, 2, mark) {
            assert(mark[0] == 63);
        }
    }
    assert(components::stands_at(device, 2, seq![46u8, 92u8]));
    assert(device.subrange(4, end) =~= name);
    assert(device.skip(end) =~= rest);
    lemma_name_ends(device, 4, end, false);
}

proof fn lemma_marked(path: Seq<u8>)
    requires
        seq![92u8, 92u8, 63u8, 92u8].is_prefix_of(path),
    ensures
        path.len() >= 4,
        path[0] == 92 && path[1] == 92 && path[2] == 63 && path[3] == 92,
        components::stands_at(path, 0, seq![92u8, 92u8]),
        components::stands_at(path, 2, seq![63u8, 92u8]),
{
    let mark = seq![92u8, 92u8, 63u8, 92u8];
    assert(mark[0] == path[0] && mark[1] == path[1] && mark[2] == path[2] && mark[3] == path[3]);
}

/// A Windows name reads as text with one U+FFFD for each surrogate that stands in
/// it by itself, whatever text stands before it, and with everything else as it
/// is.
pub proof fn each_surrogate_is_replaced(
    before: Seq<char>,
    second: u8,
    third: u8,
    rest: Seq<u8>,
)
    requires
        0xA0 <= second <= 0xBF,
        0x80 <= third <= 0xBF,
    ensures
        ({
            let plain = encode_utf8(before);
            &&& paths::without_surrogates(plain + seq![0xEDu8, second, third] + rest) == plain
                + seq![0xEFu8, 0xBF, 0xBD] + paths::without_surrogates(rest)
            &&& paths::without_surrogates(plain) == plain
        }),
{
    let plain = encode_utf8(before);
    let lone = seq![0xEDu8, second, third];
    let tail = lone + rest;
    let mark = seq![0xEFu8, 0xBF, 0xBD];
    encode_utf8_valid_utf8(before);
    paths::lemma_text_has_no_surrogate(plain);
    paths::lemma_text_is_passed_over(plain, tail);
    assert(plain + lone + rest =~= plain + tail);
    assert(tail[0] == 0xED && tail[1] == second && tail[2] == third);
    assert(tail.skip(3) =~= rest);
    assert(paths::without_surrogates(tail) == mark + paths::without_surrogates(rest));
    assert(plain + (mark + paths::without_surrogates(rest)) =~= plain + mark
        + paths::without_surrogates(rest));
}

/// One more segment behind what follows a prefix.
proof fn lemma_windows_segment_added(rest: Seq<u8>, separator: u8, name: Seq<u8>)
    requires
        separator == 47 || separator == 92,
        one_name(name, false),
        rest.len() > 0,
    ensures
        ({
            let longer = rest + seq![separator] + name;
            let before = components::body_parts(rest, Platform::Windows, false);
            &&& components::rooted(longer, Platform::Windows) == components::rooted(
                rest,
                Platform::Windows,
            )
            &&& components::starts_here(longer, Platform::Windows) == components::starts_here(
                rest,
                Platform::Windows,
            )
            &&& components::body_parts(longer, Platform::Windows, false) == (
            match components::segment_part(name, false) {
                Some(part) => before.push(part),
                None => before,
            })
        }),
{
    let platform = Platform::Windows;
    let longer = rest + seq![separator] + name;
    let is_root = components::rooted(rest, platform);
    assert(longer[0] == rest[0]);
    if rest.len() > 1 {
        assert(longer[1] == rest[1]);
    } else {
        assert(longer[1] == separator);
    }
    let text = if is_root {
        rest.skip(1)
    } else {
        rest
    };
    let whole = if is_root {
        longer.skip(1)
    } else {
        longer
    };
    let ended = text.push(separator);
    assert(whole =~= ended + name);
    assert(ended.drop_last() =~= text);
    let pieces = components::segments(text, platform, false);
    assert(components::segments(ended, platform, false) == pieces.push(Seq::empty()));
    assert forall|i: int| 0 <= i < name.len() implies !components::separates(
        platform,
        false,
        name[i],
    ) by {
        assert(name.contains(name[i]));
    }
    path_laws::lemma_segments_append(ended, name, platform, false);
    assert(pieces.push(Seq::<u8>::empty()).drop_last() =~= pieces);
    assert(Seq::<u8>::empty() + name =~= name);
    let more = components::segments(whole, platform, false);
    assert(more == pieces.push(name));
    assert(more.drop_last() =~= pieces);
}

/// On Windows both separators mean the same: behind either, where a path goes on
/// after its prefix, a name is one more component, `..` is a step up, and neither
/// `.` nor another separator counts.
#[verifier::spinoff_prover]
#[verifier::rlimit(40)]
pub proof fn on_windows_both_separators_are_one(path: Seq<u8>, separator: u8, name: Seq<u8>)
    requires
        separator == 47 || separator == 92,
        one_name(name, false),
        !path_laws::verbatim(path, Platform::Windows),
        components::windows_prefix(path + seq![separator] + name) == components::windows_prefix(
            path,
        ),
        path.len() > (match components::windows_prefix(path) {
            Some(start) => start.len,
            None => 0,
        }),
    ensures
        ({
            let before = components::components_of(path, Platform::Windows);
            let after = components::components_of(
                path + seq![separator] + name,
                Platform::Windows,
            );
            if name.len() == 0 || name == seq![46u8] {
                after == before
            } else if name == seq![46u8, 46u8] {
                after == before.push(Part::ParentDir)
            } else {
                after == before.push(Part::Normal(name))
            }
        }),
{
    let platform = Platform::Windows;
    let all = path + seq![separator] + name;
    assert(seq![46u8].len() == 1 && seq![46u8, 46u8].len() == 2);
    match components::windows_prefix(path) {
        Some(start) => {
            components::lemma_prefix_len(path);
            let rest = path.skip(start.len);
            let longer = rest + seq![separator] + name;
            assert(all.skip(start.len) =~= longer);
            assert(all.take(start.len) =~= path.take(start.len));
            lemma_windows_segment_added(rest, separator, name);
            let front = seq![Part::Prefix { raw: path.take(start.len), parsed: start }]
                + components::start_parts(Some(start), rest, platform);
            let body = components::body_parts(rest, platform, false);
            match components::segment_part(name, false) {
                Some(part) => {
                    assert(front + body.push(part) =~= (front + body).push(part));
                },
                None => {},
            }
        },
        None => {
            lemma_windows_segment_added(path, separator, name);
            let front = components::start_parts(None, path, platform);
            let body = components::body_parts(path, platform, false);
            match components::segment_part(name, false) {
                Some(part) => {
                    assert(front + body.push(part) =~= (front + body).push(part));
                },
                None => {},
            }
        },
    }
}

/// On Windows every prefix but that of a plain drive makes a path absolute; one that
/// is neither verbatim nor a drive has a root behind it, written or not.
pub proof fn a_network_path_is_absolute(path: Seq<u8>)
    requires
        components::windows_prefix(path) is Some,
        components::windows_prefix(path)->0.kind != PrefixKind::Disk,
    ensures
        components::absolute(path, Platform::Windows),
        components::components_of(path, Platform::Windows).len() > 0,
        components::components_of(path, Platform::Windows)[0] is Prefix,
        !path_laws::verbatim(path, Platform::Windows) ==> components::components_of(
            path,
            Platform::Windows,
        ).len() > 1 && components::components_of(path, Platform::Windows)[1] is RootDir,
{
}

/// On Windows a path that starts at a root stays on the drive or the share that the
/// base is on.
pub proof fn a_rooted_path_stays_on_its_drive(base: Seq<u8>, name: Seq<u8>)
    requires
        name.len() > 0,
        name[0] == 92 || name[0] == 47,
        components::windows_prefix(name) is None,
        !path_laws::verbatim(base, Platform::Windows),
    ensures
        paths::joined_path(base, name, Platform::Windows) == (match components::windows_prefix(
            base,
        ) {
            Some(start) => base.take(start.len) + name,
            None => name,
        }),
{
}

} // verus!
