//! What holds of a name joined to a directory: it is one more component, and
//! stays inside.

use vstd::prelude::*;
use vstd::utf8::*;

use crate::components;
use crate::components::{Part, Platform, PrefixKind, Start, BACKSLASH, DOT, SLASH};
use crate::path_laws;
use crate::paths;

verus! {

/// A plain name behind the rest of a path, with a separator between them where
/// one is needed, is one more component.
proof fn lemma_rest_joined(rest: Seq<u8>, name: Seq<u8>, more: Seq<u8>, platform: Platform)
    requires
        path_laws::plain_name(name, platform),
        ({
            ||| more == rest + name && (rest.len() == 0 || components::separates(
                platform,
                false,
                rest.last(),
            ))
            ||| more == rest.push(components::main_separator(platform)) + name && (rest.len() == 0
                || !components::separates(platform, false, rest.last()))
        }),
    ensures
        components::body_parts(more, platform, false) == components::body_parts(
            rest,
            platform,
            false,
        ).push(Part::Normal(name)),
        rest.len() > 0 || more == name ==> components::rooted(more, platform)
            == components::rooted(rest, platform),
{
    let separator = components::main_separator(platform);
    if more == rest + name && (rest.len() == 0 || components::separates(
        platform,
        false,
        rest.last(),
    )) {
        path_laws::lemma_name_added(rest, name, platform, false);
    } else if rest.len() > 0 {
        path_laws::lemma_separator_added(rest, platform, false);
        path_laws::lemma_name_added(rest.push(separator), name, platform, false);
    } else {
        path_laws::lemma_no_body(rest, platform, false);
        path_laws::lemma_no_body(seq![separator], platform, false);
        assert(rest.push(separator) =~= seq![separator]);
        path_laws::lemma_name_added(seq![separator], name, platform, false);
    }
}

/// A plain name joined to a directory is one more component behind the
/// directory's own. (On Windows a directory can end inside a prefix, as
/// `\\server` does, which the name would then complete.)
#[verifier::spinoff_prover]
#[verifier::rlimit(40)]
pub proof fn a_joined_name_is_the_last_component(
    base: Seq<u8>,
    name: Seq<u8>,
    platform: Platform,
)
    requires
        path_laws::plain_name(name, platform),
        components::prefix_of(paths::joined_path(base, name, platform), platform)
            == components::prefix_of(base, platform),
        components::prefix_of(base, platform) matches Some(start) ==> !components::is_verbatim(
            start.kind,
        ),
    ensures
        components::components_of(paths::joined_path(base, name, platform), platform)
            == components::components_of(base, platform).push(Part::Normal(name)),
        base.is_prefix_of(paths::joined_path(base, name, platform)),
{
    let path = paths::joined_path(base, name, platform);
    let separator = components::main_separator(platform);
    let prefix = components::prefix_of(base, platform);
    assert(!components::rooted(name, platform));
    if platform == Platform::Windows {
        path_laws::lemma_name_has_no_prefix(name);
        components::lemma_prefix_len(base);
    }
    let cut = match prefix {
        Some(start) => start.len,
        None => 0,
    };
    let rest = base.skip(cut);
    let bare = platform == Platform::Windows && prefix is Some && prefix->0.kind
        == PrefixKind::Disk && base.len() == 2;
    let more = path.skip(cut);
    if base.len() == 0 || components::separates(platform, false, base.last()) || bare {
        assert(path =~= base + name);
        assert(more =~= rest + name);
        if rest.len() > 0 {
            assert(rest.last() == base.last());
        }
    } else {
        assert(path =~= base.push(separator) + name);
        assert(more =~= rest.push(separator) + name);
        if rest.len() > 0 {
            assert(rest.last() == base.last());
        }
    }
    lemma_rest_joined(rest, name, more, platform);
    match prefix {
        Some(start) => {
            assert(path.take(cut) =~= base.take(cut));
            assert(components::start_parts(prefix, more, platform) =~= components::start_parts(
                prefix,
                rest,
                platform,
            ));
        },
        None => {
            assert(rest =~= base);
            assert(more =~= path);
            if base.len() > 0 {
                assert(path[0] == base[0]);
                if base.len() > 1 {
                    assert(path[1] == base[1]);
                }
            } else if components::starts_here(path, platform) {
                assert(path =~= name);
                assert(name =~= seq![DOT]);
            }
        },
    }
    assert(components::components_of(path, platform) =~= components::components_of(
        base,
        platform,
    ).push(Part::Normal(name)));
}

/// The components that bytes between separators stand for.
spec fn read_names(text: Seq<u8>, verbatim: bool) -> Seq<Part> {
    components::segment_parts(components::segments(text, Platform::Windows, verbatim), verbatim)
}

/// Segments on both sides of a separator.
proof fn lemma_segments_joined(a: Seq<u8>, b: Seq<u8>, verbatim: bool)
    ensures
        components::segments(a.push(BACKSLASH) + b, Platform::Windows, verbatim)
            == components::segments(a, Platform::Windows, verbatim) + components::segments(
            b,
            Platform::Windows,
            verbatim,
        ),
    decreases b.len(),
{
    let platform = Platform::Windows;
    let whole = a.push(BACKSLASH) + b;
    let left = components::segments(a, platform, verbatim);
    let right = components::segments(b, platform, verbatim);
    if b.len() == 0 {
        assert(whole =~= a.push(BACKSLASH));
        assert(whole.drop_last() =~= a);
        assert(components::segments(whole, platform, verbatim) =~= left + right);
    } else {
        let less = b.drop_last();
        lemma_segments_joined(a, less, verbatim);
        components::lemma_segments_nonempty(less, platform, verbatim);
        assert(whole.drop_last() =~= a.push(BACKSLASH) + less);
        assert(whole.last() == b.last());
        let before = components::segments(less, platform, verbatim);
        assert((left + before).last() == before.last());
        assert((left + before).drop_last() =~= left + before.drop_last());
        assert(components::segments(whole, platform, verbatim) =~= left + right);
    }
}

proof fn lemma_segment_parts_joined(a: Seq<Seq<u8>>, b: Seq<Seq<u8>>, verbatim: bool)
    ensures
        components::segment_parts(a + b, verbatim) == components::segment_parts(a, verbatim)
            + components::segment_parts(b, verbatim),
    decreases b.len(),
{
    let left = components::segment_parts(a, verbatim);
    if b.len() == 0 {
        assert(a + b =~= a);
        assert(left + components::segment_parts(b, verbatim) =~= left);
    } else {
        lemma_segment_parts_joined(a, b.drop_last(), verbatim);
        assert((a + b).drop_last() =~= a + b.drop_last());
        assert((a + b).last() == b.last());
        assert(components::segment_parts(a + b, verbatim) =~= left + components::segment_parts(
            b,
            verbatim,
        ));
    }
}

/// A separator parts the names on its left from those on its right.
proof fn lemma_names_joined(a: Seq<u8>, b: Seq<u8>, verbatim: bool)
    ensures
        read_names(a.push(BACKSLASH) + b, verbatim) == read_names(a, verbatim) + read_names(
            b,
            verbatim,
        ),
{
    lemma_segments_joined(a, b, verbatim);
    lemma_segment_parts_joined(
        components::segments(a, Platform::Windows, verbatim),
        components::segments(b, Platform::Windows, verbatim),
        verbatim,
    );
}

/// Nothing holds no names, and what holds no separator is one segment.
proof fn lemma_one_segment(text: Seq<u8>, verbatim: bool)
    requires
        forall|i: int|
            0 <= i < text.len() ==> !components::separates(Platform::Windows, verbatim, text[i]),
    ensures
        components::segments(text, Platform::Windows, verbatim) == seq![text],
        read_names(text, verbatim) == (match components::segment_part(text, verbatim) {
            Some(part) => seq![part],
            None => Seq::empty(),
        }),
{
    let nothing = Seq::<u8>::empty();
    assert(nothing + text =~= text);
    assert(components::segments(nothing, Platform::Windows, verbatim) =~= seq![nothing]);
    path_laws::lemma_segments_append(nothing, text, Platform::Windows, verbatim);
    let cut = components::segments(text, Platform::Windows, verbatim);
    assert(cut =~= seq![text]);
    assert(cut.drop_last() =~= Seq::<Seq<u8>>::empty());
    reveal_with_fuel(components::segment_parts, 2);
    assert(read_names(text, verbatim) =~= (match components::segment_part(text, verbatim) {
        Some(part) => seq![part],
        None => Seq::empty(),
    }));
}

/// Names with one separator between them.
spec fn listed_names(names: Seq<Part>) -> Seq<u8>
    decreases names.len(),
{
    if names.len() == 0 {
        Seq::empty()
    } else if names.len() == 1 {
        components::part_bytes(names[0], Platform::Windows)
    } else {
        listed_names(names.drop_last()).push(BACKSLASH) + components::part_bytes(
            names.last(),
            Platform::Windows,
        )
    }
}

/// One more name in a list.
proof fn lemma_listed_more(names: Seq<Part>, part: Part)
    ensures
        listed_names(names.push(part)) == if names.len() == 0 {
            components::part_bytes(part, Platform::Windows)
        } else {
            listed_names(names).push(BACKSLASH) + components::part_bytes(part, Platform::Windows)
        },
{
    assert(names.push(part).drop_last() =~= names);
}

/// The names of a verbatim path, listed with one separator between them, read as
/// the path did, whichever separators count.
proof fn lemma_listed_names(text: Seq<u8>, verbatim: bool)
    ensures
        read_names(listed_names(read_names(text, true)), verbatim) == read_names(text, verbatim),
    decreases text.len(),
{
    let platform = Platform::Windows;
    let names = read_names(text, true);
    let at = path_laws::last_separator(text, platform, true);
    path_laws::lemma_last_separator(text, platform, true);
    let nothing = Seq::<u8>::empty();
    lemma_one_segment(nothing, verbatim);
    if at < 0 {
        lemma_one_segment(text, true);
        if text.len() == 0 {
            assert(text =~= nothing);
            assert(names =~= Seq::<Part>::empty());
        } else {
            assert(components::part_bytes(names[0], platform) =~= text);
            assert(listed_names(names) == text);
        }
    } else {
        let before = text.take(at);
        let name = text.skip(at + 1);
        assert(text =~= before.push(BACKSLASH) + name);
        lemma_listed_names(before, verbatim);
        lemma_names_joined(before, name, true);
        lemma_names_joined(before, name, verbatim);
        assert forall|i: int| 0 <= i < name.len() implies !components::separates(
            platform,
            true,
            name[i],
        ) by {
            assert(name[i] == text[at + 1 + i]);
        }
        lemma_one_segment(name, true);
        let earlier = read_names(before, true);
        if name.len() == 0 {
            assert(name =~= nothing);
            assert(names =~= earlier);
            assert(read_names(text, verbatim) =~= read_names(before, verbatim));
        } else {
            let part = components::segment_part(name, true)->0;
            assert(components::part_bytes(part, platform) =~= name);
            assert(names =~= earlier.push(part));
            lemma_listed_more(earlier, part);
            if earlier.len() == 0 {
                assert(listed_names(earlier) =~= nothing);
                assert(read_names(before, verbatim) =~= Seq::<Part>::empty());
                assert(read_names(text, verbatim) =~= read_names(name, verbatim));
            } else {
                lemma_names_joined(listed_names(earlier), name, verbatim);
            }
        }
    }
}

/// Names behind a prefix and a root are written as a list.
proof fn lemma_written_names(parts: Seq<Part>, names: Seq<Part>)
    requires
        parts.len() == 2,
        parts[0] is Prefix,
        parts[1] is RootDir,
        forall|i: int|
            0 <= i < names.len() ==> !(#[trigger] names[i] is Prefix) && !(names[i] is RootDir),
    ensures
        components::written(parts + names, Platform::Windows) == parts[0]->raw.push(BACKSLASH)
            + listed_names(names),
    decreases names.len(),
{
    let platform = Platform::Windows;
    let whole = parts + names;
    let path = components::written(whole, platform);
    let raw = parts[0]->raw;
    if names.len() == 0 {
        let first = parts.drop_last();
        assert(whole =~= parts);
        assert(first.drop_last() =~= Seq::<Part>::empty());
        assert(components::written(first.drop_last(), platform) =~= Seq::<u8>::empty());
        assert(first.last() == parts[0]);
        assert(components::written(first, platform) =~= raw);
        assert(parts.last() == parts[1]);
        assert(path =~= raw.push(BACKSLASH) + listed_names(names));
    } else {
        let fewer = names.drop_last();
        assert forall|i: int| 0 <= i < fewer.len() implies !(#[trigger] fewer[i] is Prefix) && !(
        fewer[i] is RootDir) by {
            assert(fewer[i] == names[i]);
        }
        lemma_written_names(parts, fewer);
        assert(whole.drop_last() =~= parts + fewer);
        let last = names[names.len() - 1];
        assert(whole.last() == last);
        assert(fewer.push(last) =~= names);
        lemma_listed_more(fewer, last);
        if names.len() > 1 {
            assert(whole[whole.len() - 2] == names[names.len() - 2]);
            assert(path =~= raw.push(BACKSLASH) + listed_names(names));
        } else {
            assert(whole[whole.len() - 2] is RootDir);
            assert(listed_names(fewer) =~= Seq::<u8>::empty());
            assert(path =~= raw.push(BACKSLASH) + listed_names(names));
        }
    }
}

/// What is listed behind a directory that ends in `rest`: its names and one more.
spec fn listed_behind(rest: Seq<u8>, name: Seq<u8>) -> Seq<u8> {
    let text = if rest.len() == 0 {
        rest
    } else {
        rest.skip(1)
    };
    listed_names(read_names(text, true).push(Part::Normal(name)))
}

/// A plain name joined to a verbatim directory: the directory's names, listed
/// with one separator between them, and the name behind them.
proof fn lemma_joined_verbatim(base: Seq<u8>, name: Seq<u8>)
    requires
        path_laws::plain_name(name, Platform::Windows),
        path_laws::verbatim(base, Platform::Windows),
    ensures
        ({
            let start = components::windows_prefix(base)->0;
            paths::joined_path(base, name, Platform::Windows) == base.take(start.len).push(
                BACKSLASH,
            ) + listed_behind(base.skip(start.len), name)
        }),
        valid_utf8(base) && valid_utf8(name) ==> valid_utf8(
            paths::joined_path(base, name, Platform::Windows),
        ),
{
    let platform = Platform::Windows;
    let start = components::windows_prefix(base)->0;
    let parts = components::components_of(base, platform);
    let rest = base.skip(start.len);
    let raw = base.take(start.len);
    let last = Part::Normal(name);
    let path = paths::joined_path(base, name, platform);
    let text = if rest.len() == 0 {
        rest
    } else {
        rest.skip(1)
    };
    let names = read_names(text, true);
    components::lemma_prefix_len(base);
    path_laws::lemma_name_has_no_prefix(name);
    path_laws::lemma_single_name(name);
    let more = seq![last];
    assert(more.drop_last() =~= Seq::<Part>::empty());
    reveal_with_fuel(paths::verbatim_extended, 2);
    assert(paths::verbatim_extended(parts, more) =~= parts.push(last));
    assert(path == components::written(parts.push(last), platform));
    path_laws::lemma_verbatim_rest(base);
    let first = Part::Prefix { raw, parsed: start };
    if rest.len() == 0 {
        path_laws::lemma_no_body(rest, platform, true);
        lemma_one_segment(rest, true);
        assert(names =~= Seq::<Part>::empty());
        assert(parts =~= seq![first]);
        let two = parts.push(last);
        assert(two.drop_last() =~= parts);
        assert(parts.drop_last() =~= Seq::<Part>::empty());
        assert(components::written(parts.drop_last(), platform) =~= Seq::<u8>::empty());
        assert(components::written(parts, platform) =~= raw);
        assert(two[0] == first);
        lemma_listed_more(names, last);
        assert(path =~= raw.push(BACKSLASH) + name);
    } else {
        assert(rest[0] == base[start.len]);
        let front = seq![first, Part::RootDir];
        assert(components::body_parts(rest, platform, true) == names);
        assert(parts =~= front + names);
        path_laws::lemma_body_names(rest, platform, true);
        let all = names.push(last);
        assert(parts.push(last) =~= front + all);
        assert forall|i: int| 0 <= i < all.len() implies !(#[trigger] all[i] is Prefix) && !(
        all[i] is RootDir) by {
            if i < names.len() {
                assert(all[i] == names[i]);
            }
        }
        lemma_written_names(front, all);
    }
    if valid_utf8(base) && valid_utf8(name) {
        path_laws::lemma_parts_valid(base);
        let all = parts.push(last);
        assert forall|i: int| 0 <= i < all.len() implies valid_utf8(
            components::part_bytes(#[trigger] all[i], platform),
        ) by {
            if i < parts.len() {
                assert(all[i] == parts[i]);
            }
        }
        path_laws::lemma_written_valid(all, platform);
    }
}

/// What stands behind the start of a mark's own bytes stays when the mark is cut
/// off.
proof fn lemma_once_unmarked_tail(raw: Seq<u8>, tail: Seq<u8>)
    requires
        paths::verbatim_mark().is_prefix_of(raw),
        paths::verbatim_unc_mark().is_prefix_of(raw + tail)
            ==> paths::verbatim_unc_mark().is_prefix_of(raw),
    ensures
        paths::once_unmarked(raw + tail) == paths::once_unmarked(raw) + tail,
{
    let whole = raw + tail;
    assert(paths::verbatim_mark().is_prefix_of(whole));
    if paths::verbatim_unc_mark().is_prefix_of(raw) {
        assert(paths::verbatim_unc_mark().is_prefix_of(whole));
        assert(paths::once_unmarked(whole) =~= paths::once_unmarked(raw) + tail);
    } else {
        assert(paths::once_unmarked(whole) =~= paths::once_unmarked(raw) + tail);
    }
}

/// The names behind a verbatim prefix start at a backslash, but for a drive.
proof fn lemma_verbatim_backslash(base: Seq<u8>)
    requires
        path_laws::verbatim(base, Platform::Windows),
    ensures
        ({
            let start = components::windows_prefix(base)->0;
            &&& start.len < base.len() && start.kind != PrefixKind::VerbatimDisk
                ==> base[start.len] == BACKSLASH
            &&& start.kind == PrefixKind::VerbatimDisk ==> start.len == 6
                && components::drive_at(base, 4)
            &&& paths::verbatim_unc_mark().is_prefix_of(base) ==> start.len >= 8
        }),
{
    components::lemma_prefix_len(base);
    components::lemma_name_end(base, 4, true);
    let network = seq![85u8, 78u8, 67u8, BACKSLASH];
    let mark = paths::verbatim_unc_mark();
    if mark.is_prefix_of(base) {
        assert forall|i: int| 0 <= i < 4 implies network[i] == base[4 + i] by {
            assert(mark[4 + i] == base[4 + i]);
        }
        assert(components::stands_at(base, 4, network));
    }
    if components::stands_at(base, 4, network) {
        components::lemma_name_end(base, 8, true);
        let end = components::name_end(base, 8, true);
        if end < base.len() {
            components::lemma_name_end(base, end + 1, true);
        }
    }
}

/// Whether a name joined to a directory stands behind all of it. A Windows
/// directory that ends inside a prefix, as `\\server` does, would have it
/// completed by the name; one that carries the mark of a verbatim path is read
/// without it, and has to be text and keep its prefix then.
pub open spec fn stands_behind(base: Seq<u8>, name: Seq<u8>, platform: Platform) -> bool {
    let path = paths::joined_path(base, name, platform);
    if paths::verbatim_mark().is_prefix_of(base) {
        &&& valid_utf8(base)
        &&& valid_utf8(name)
        &&& platform == Platform::Windows ==> {
            let head = paths::once_unmarked(
                base.take(components::windows_prefix(base)->0.len),
            );
            &&& head.is_prefix_of(paths::once_unmarked(path))
            &&& components::windows_prefix(paths::once_unmarked(path))
                == components::windows_prefix(head)
            &&& components::windows_prefix(paths::once_unmarked(base))
                == components::windows_prefix(head)
        }
    } else {
        components::prefix_of(path, platform) == components::prefix_of(base, platform)
    }
}

/// Right behind a prefix: what `rest` holds comes first in the list.
proof fn lemma_list_at_prefix(
    prefix: Option<Start>,
    rest: Seq<u8>,
    name: Seq<u8>,
    verbatim: bool,
)
    requires
        path_laws::plain_name(name, Platform::Windows),
        rest.len() > 0 ==> components::separates(Platform::Windows, false, rest[0]),
    ensures
        ({
            let more = seq![BACKSLASH] + listed_behind(rest, name);
            (components::start_parts(prefix, rest, Platform::Windows) + components::body_parts(
                rest,
                Platform::Windows,
                verbatim,
            )).is_prefix_of(
                components::start_parts(prefix, more, Platform::Windows) + components::body_parts(
                    more,
                    Platform::Windows,
                    verbatim,
                ),
            )
        }),
{
    let platform = Platform::Windows;
    let list = listed_behind(rest, name);
    let more = seq![BACKSLASH] + list;
    let text = if rest.len() == 0 {
        rest
    } else {
        rest.skip(1)
    };
    lemma_list_read(text, name, verbatim);
    assert(components::rooted(more, platform));
    assert(more.skip(1) =~= list);
    if rest.len() == 0 {
        path_laws::lemma_no_body(rest, platform, verbatim);
    }
}

/// The same further behind a prefix.
proof fn lemma_list_behind(
    prefix: Option<Start>,
    front: Seq<u8>,
    rest: Seq<u8>,
    name: Seq<u8>,
    verbatim: bool,
)
    requires
        path_laws::plain_name(name, Platform::Windows),
        front.len() > 0,
        rest.len() > 0 ==> rest[0] == BACKSLASH,
    ensures
        ({
            let less = front + rest;
            let more = front + (seq![BACKSLASH] + listed_behind(rest, name));
            (components::start_parts(prefix, less, Platform::Windows) + components::body_parts(
                less,
                Platform::Windows,
                verbatim,
            )).is_prefix_of(
                components::start_parts(prefix, more, Platform::Windows) + components::body_parts(
                    more,
                    Platform::Windows,
                    verbatim,
                ),
            )
        }),
{
    let platform = Platform::Windows;
    let list = listed_behind(rest, name);
    let less = front + rest;
    let more = front + (seq![BACKSLASH] + list);
    let text = if rest.len() == 0 {
        rest
    } else {
        rest.skip(1)
    };
    lemma_list_read(text, name, verbatim);
    assert(less[0] == front[0] && more[0] == front[0]);
    assert(components::start_parts(prefix, less, platform) == components::start_parts(
        prefix,
        more,
        platform,
    )) by {
        if front.len() == 1 {
            assert(more[1] == BACKSLASH);
            if rest.len() > 0 {
                assert(less[1] == rest[0]);
            }
        } else {
            assert(less[1] == front[1] && more[1] == front[1]);
        }
    }
    let is_root = components::rooted(front, platform);
    let kept = if is_root {
        front.skip(1)
    } else {
        front
    };
    let whole = if is_root {
        more.skip(1)
    } else {
        more
    };
    let part = if is_root {
        less.skip(1)
    } else {
        less
    };
    assert(whole =~= kept.push(BACKSLASH) + list);
    lemma_names_joined(kept, list, verbatim);
    if rest.len() == 0 {
        assert(part =~= kept);
        lemma_one_segment(text, verbatim);
    } else {
        assert(part =~= kept.push(BACKSLASH) + text);
        lemma_names_joined(kept, text, verbatim);
    }
    assert(read_names(whole, verbatim) =~= read_names(part, verbatim).push(Part::Normal(name)));
}

/// One path and the same with a list in place of what it ends in, both behind the
/// same prefix: the components of the first come first in the second.
proof fn lemma_names_behind(head: Seq<u8>, rest: Seq<u8>, name: Seq<u8>)
    requires
        path_laws::plain_name(name, Platform::Windows),
        rest.len() > 0 ==> components::separates(Platform::Windows, false, rest[0]),
        components::windows_prefix(head + rest) == components::windows_prefix(head),
        components::windows_prefix(head + (seq![BACKSLASH] + listed_behind(rest, name)))
            == components::windows_prefix(head),
        rest.len() > 0 && rest[0] != BACKSLASH ==> (components::windows_prefix(head)
            matches Some(plain) && plain.len == head.len()),
    ensures
        components::components_of(head + rest, Platform::Windows).is_prefix_of(
            components::components_of(
                head + (seq![BACKSLASH] + listed_behind(rest, name)),
                Platform::Windows,
            ),
        ),
{
    let platform = Platform::Windows;
    let more = seq![BACKSLASH] + listed_behind(rest, name);
    let prefix = components::windows_prefix(head);
    components::lemma_prefix_len(head);
    let cut = match prefix {
        Some(start) => start.len,
        None => 0,
    };
    let inside = prefix is Some && components::is_verbatim(prefix->0.kind);
    let front = head.skip(cut);
    let left = head + rest;
    let right = head + more;
    assert(left.skip(cut) =~= front + rest);
    assert(right.skip(cut) =~= front + more);
    assert(left.take(cut) =~= right.take(cut));
    if front.len() == 0 {
        assert(front + rest =~= rest);
        assert(front + more =~= more);
        lemma_list_at_prefix(prefix, rest, name, inside);
    } else {
        lemma_list_behind(prefix, front, rest, name, inside);
    }
    let a = components::start_parts(prefix, front + rest, platform) + components::body_parts(
        front + rest,
        platform,
        inside,
    );
    let b = components::start_parts(prefix, front + more, platform) + components::body_parts(
        front + more,
        platform,
        inside,
    );
    assert(a.is_prefix_of(b));
    match prefix {
        Some(start) => {
            let first = seq![Part::Prefix { raw: left.take(cut), parsed: start }];
            assert(components::components_of(left, platform) =~= first + a);
            assert(components::components_of(right, platform) =~= first + b);
        },
        None => {
            assert(left.skip(0) =~= left && right.skip(0) =~= right);
        },
    }
}

/// A list of names with a plain one behind them reads as those names and that
/// one.
proof fn lemma_list_read(text: Seq<u8>, name: Seq<u8>, verbatim: bool)
    requires
        path_laws::plain_name(name, Platform::Windows),
    ensures
        read_names(
            listed_names(read_names(text, true).push(Part::Normal(name))),
            verbatim,
        ) == read_names(text, verbatim).push(Part::Normal(name)),
{
    let names = read_names(text, true);
    lemma_listed_names(text, verbatim);
    lemma_listed_more(names, Part::Normal(name));
    lemma_one_segment(name, verbatim);
    assert(components::segment_part(name, verbatim) == Some(Part::Normal(name)));
    if names.len() == 0 {
        let nothing = Seq::<u8>::empty();
        lemma_one_segment(nothing, verbatim);
        assert(listed_names(names) =~= nothing);
        assert(read_names(text, verbatim) =~= Seq::<Part>::empty());
        assert(read_names(text, verbatim).push(Part::Normal(name)) =~= seq![Part::Normal(name)]);
    } else {
        lemma_names_joined(listed_names(names), name, verbatim);
        assert(read_names(text, verbatim) + seq![Part::Normal(name)] =~= read_names(
            text,
            verbatim,
        ).push(Part::Normal(name)));
    }
}

/// A plain name joined to a verbatim directory, both read without the mark.
#[verifier::rlimit(40)]
proof fn lemma_verbatim_joined_inside(base: Seq<u8>, name: Seq<u8>)
    requires
        path_laws::plain_name(name, Platform::Windows),
        paths::verbatim_mark().is_prefix_of(base),
        stands_behind(base, name, Platform::Windows),
    ensures
        ({
            let path = paths::joined_path(base, name, Platform::Windows);
            let outer = components::components_of(
                paths::stripped(base, Platform::Windows),
                Platform::Windows,
            );
            let inner = components::components_of(
                paths::stripped(path, Platform::Windows),
                Platform::Windows,
            );
            outer.is_prefix_of(inner)
        }),
{
    let platform = Platform::Windows;
    let path = paths::joined_path(base, name, platform);
    path_laws::lemma_verbatim_mark(base);
    path_laws::lemma_verbatim_mark(path);
    lemma_joined_verbatim(base, name);
    lemma_verbatim_backslash(base);
    path_laws::lemma_verbatim_rest(base);
    components::lemma_prefix_len(base);
    let start = components::windows_prefix(base)->0;
    let raw = base.take(start.len);
    let rest = base.skip(start.len);
    let head = paths::once_unmarked(raw);
    let more = seq![BACKSLASH] + listed_behind(rest, name);
    assert(path =~= raw + more);
    assert(base =~= raw + rest);
    path_laws::lemma_own_prefix(base);
    path_laws::lemma_read(base, platform);
    assert(components::components_of(base, platform)[0] == (Part::Prefix {
        raw,
        parsed: start,
    }));
    path_laws::lemma_verbatim_mark(raw);
    assert(paths::verbatim_mark().is_prefix_of(raw));
    assert forall|i: int| 0 <= i < 4 implies paths::verbatim_mark()[i] == path[i] by {
        assert(raw[i] == paths::verbatim_mark()[i]);
        assert(path[i] == raw[i]);
    }
    assert(paths::verbatim_mark().is_prefix_of(path));
    let network = paths::verbatim_unc_mark();
    if network.is_prefix_of(base) {
        assert forall|i: int| 0 <= i < 8 implies network[i] == raw[i] by {
            assert(network[i] == base[i]);
        }
        assert(network.is_prefix_of(raw));
    }
    if network.is_prefix_of(path) && !network.is_prefix_of(raw) {
        assert(raw.len() < 8) by {
            if raw.len() >= 8 {
                assert forall|i: int| 0 <= i < 8 implies network[i] == raw[i] by {
                    assert(network[i] == path[i]);
                    assert(path[i] == raw[i]);
                }
            }
        }
        assert(raw.len() == 7) by {
            let at = raw.len() as int;
            assert(path[at] == more[0]);
            assert(network[at] == path[at]);
            assert(network[4] == 85 && network[5] == 78 && network[6] == 67);
        }
        assert(head.len() > 0);
        assert(head[0] == raw[4]);
        assert(raw[4] == path[4]);
        assert(path[4] == network[4]);
        assert(network[4] == 85);
        assert(paths::once_unmarked(path)[0] == BACKSLASH);
        assert(head[0] == paths::once_unmarked(path)[0]);
        assert(false);
    }
    lemma_once_unmarked_tail(raw, rest);
    lemma_once_unmarked_tail(raw, more);
    if rest.len() > 0 {
        assert(rest[0] == base[start.len]);
        if rest[0] != BACKSLASH {
            assert(raw.len() == 6);
            assert(!network.is_prefix_of(raw));
            assert(head =~= raw.skip(4));
            assert(head[0] == base[4] && head[1] == base[5]);
            assert(components::drive_at(head, 0));
        }
    }
    lemma_names_behind(head, rest, name);
    assert(paths::stripped(base, platform) == head + rest);
    assert(paths::stripped(path, platform) == head + more);
}

/// A name joined to a path that only looks verbatim, where nothing is.
proof fn lemma_marked_joined_inside(base: Seq<u8>, name: Seq<u8>, platform: Platform)
    requires
        platform != Platform::Windows,
        path_laws::plain_name(name, platform),
        paths::verbatim_mark().is_prefix_of(base),
        stands_behind(base, name, platform),
    ensures
        ({
            let path = paths::joined_path(base, name, platform);
            let outer = components::components_of(paths::stripped(base, platform), platform);
            let inner = components::components_of(paths::stripped(path, platform), platform);
            outer.is_prefix_of(inner)
        }),
{
    let path = paths::joined_path(base, name, platform);
    let mark = paths::verbatim_mark();
    let network = paths::verbatim_unc_mark();
    let tail = path.skip(base.len() as int);
    assert(!components::rooted(name, platform));
    assert(path =~= base + tail);
    path_laws::lemma_ascii_valid(SLASH);
    if base.last() == SLASH {
        assert(tail =~= name);
    } else {
        assert(tail =~= seq![SLASH] + name);
        valid_utf8_concat(seq![SLASH], name);
    }
    valid_utf8_concat(base, tail);
    assert(mark.is_prefix_of(path));
    assert(network.is_prefix_of(path) ==> network.is_prefix_of(base)) by {
        if network.is_prefix_of(path) {
            if base.len() >= 8 {
                assert forall|i: int| 0 <= i < 8 implies network[i] == base[i] by {
                    assert(network[i] == path[i]);
                    assert(path[i] == base[i]);
                }
            } else {
                let at = if base.last() == SLASH {
                    base.len() - 1
                } else {
                    base.len() as int
                };
                assert(path[at] == SLASH);
                assert(network[at] == path[at]);
            }
        }
    }
    lemma_once_unmarked_tail(base, tail);
    let bare = paths::once_unmarked(base);
    assert(paths::stripped(base, platform) == bare);
    assert(paths::stripped(path, platform) == bare + tail);
    if bare.len() == 0 {
        path_laws::lemma_no_body(bare, platform, false);
        assert(components::components_of(bare, platform) =~= Seq::<Part>::empty());
    } else {
        assert((bare.last() == SLASH) == (base.last() == SLASH)) by {
            assert(mark[3] == base[3]);
            if network.is_prefix_of(base) {
                assert(network[7] == base[7]);
            }
        }
        assert(bare + tail =~= paths::joined_path(bare, name, platform)) by {
            if bare.last() != SLASH {
                assert(bare + (seq![SLASH] + name) =~= bare.push(SLASH) + name);
            }
        }
        a_joined_name_is_the_last_component(bare, name, platform);
    }
}

/// A plain name joined to a directory stays inside the directory.
#[verifier::rlimit(40)]
pub proof fn a_joined_name_stays_inside(
    base: Seq<u8>,
    name: Seq<u8>,
    case_insensitive: bool,
    platform: Platform,
)
    requires
        path_laws::plain_name(name, platform),
        stands_behind(base, name, platform),
    ensures
        paths::within(
            paths::joined_path(base, name, platform),
            base,
            case_insensitive,
            platform,
        ),
{
    let path = paths::joined_path(base, name, platform);
    let outer = components::components_of(paths::stripped(base, platform), platform);
    let inner = components::components_of(paths::stripped(path, platform), platform);
    path_laws::lemma_verbatim_mark(path);
    path_laws::lemma_verbatim_mark(base);
    if paths::verbatim_mark().is_prefix_of(base) {
        if platform == Platform::Windows {
            lemma_verbatim_joined_inside(base, name);
        } else {
            lemma_marked_joined_inside(base, name, platform);
        }
    } else if paths::verbatim_mark().is_prefix_of(path) {
        assert(platform != Platform::Windows);
        assert(base.len() == 0) by {
            if base.len() > 0 {
                lemma_mark_has_no_slash(base, name, platform);
            }
        }
        path_laws::lemma_no_body(base, platform, false);
        assert(outer =~= Seq::<Part>::empty());
    } else {
        a_joined_name_is_the_last_component(base, name, platform);
    }
    assert forall|i: int| 0 <= i < outer.len() implies paths::parts_match(
        #[trigger] outer[i],
        inner[i],
        case_insensitive,
        platform,
    ) by {
        assert(inner[i] == outer[i]);
    }
}

/// No name makes the mark of a verbatim path out of a directory where slashes
/// separate.
proof fn lemma_mark_has_no_slash(base: Seq<u8>, name: Seq<u8>, platform: Platform)
    requires
        platform != Platform::Windows,
        path_laws::plain_name(name, platform),
        base.len() > 0,
        paths::verbatim_mark().is_prefix_of(paths::joined_path(base, name, platform)),
    ensures
        paths::verbatim_mark().is_prefix_of(base),
{
    let path = paths::joined_path(base, name, platform);
    let mark = paths::verbatim_mark();
    assert(!components::rooted(name, platform));
    if base.len() >= 4 {
        assert forall|i: int| 0 <= i < 4 implies mark[i] == base[i] by {
            assert(mark[i] == path[i]);
            assert(path[i] == base[i]);
        }
    } else {
        let at = if base.last() == SLASH {
            base.len() - 1
        } else {
            base.len() as int
        };
        assert(path[at] == SLASH);
        assert(mark[at] == path[at]);
    }
}

} // verus!
