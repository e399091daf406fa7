//! What holds of spilling as a whole.

use vstd::prelude::*;
use vstd::utf8::*;

use crate::components::{Platform, BACKSLASH, COLON, SLASH};
use crate::join_laws;
use crate::path_laws;
use crate::paths;
use crate::spill;
use crate::spill::{Capture, Captured, Phase, SpillFile};
use crate::text;

verus! {

/// Output that fits inline never touches the disk: no file is there, and none is
/// waited for.
pub proof fn small_output_stays_inline(capture: Capture)
    requires
        capture.valid(),
        !capture.overflows(),
    ensures
        capture.phase == Phase::Inline,
        capture.file is None,
        capture.saved.len() == 0,
        capture.head() == capture.stream,
{
}

/// Nothing is lost in silence: output that does not fit inline is in a file that
/// holds all of it, or there is a reason why it is not.
pub proof fn what_does_not_fit_is_saved_or_explained(capture: Capture)
    requires
        capture.valid(),
        capture.settled(),
        capture.overflows(),
    ensures
        capture.file is Some || capture.error is Some,
        !(capture.file is Some && capture.error is Some),
        capture.file is Some ==> capture.saved == capture.stream,
{
}

/// Memory stays bounded: what is kept inline is the start of the stream, and no
/// longer than the limit.
pub proof fn only_the_head_is_kept(capture: Capture)
    ensures
        capture.head().is_prefix_of(capture.stream),
        capture.head().len() <= capture.limit,
        capture.overflows() ==> capture.head().len() == capture.limit,
{
}

/// A sanitized label is never empty and holds nothing but letters, digits, `-`
/// and `_`.
pub proof fn a_sanitized_label_is_plain(label: Seq<char>)
    ensures
        spill::sanitized(label).len() > 0,
        forall|i: int|
            0 <= i < spill::sanitized(label).len() ==> spill::name_char(
                #[trigger] spill::sanitized(label)[i],
            ),
{
    reveal_strlit("output");
}

/// Sanitizing twice changes nothing more.
pub proof fn a_clean_label_is_left_alone(label: Seq<char>)
    ensures
        spill::sanitized(spill::sanitized(label)) == spill::sanitized(label),
{
    a_sanitized_label_is_plain(label);
    assert(spill::sanitized(spill::sanitized(label)) =~= spill::sanitized(label));
}

proof fn lemma_decimal_digits(value: nat)
    ensures
        forall|i: int|
            0 <= i < text::decimal(value).len() ==> '0' <= #[trigger] text::decimal(value)[i]
                <= '9',
    decreases value,
{
    let digits = text::decimal(value);
    assert forall|i: int| 0 <= i < digits.len() implies '0' <= #[trigger] digits[i] <= '9' by {
        if value >= 10 {
            lemma_decimal_digits(value / 10);
            if i < digits.len() - 1 {
                assert(digits[i] == text::decimal(value / 10)[i]);
            }
        }
    }
}

/// Whatever the label, the name of a spill file is one component of a path on
/// every platform: it holds no separator, names no drive, and is neither `.` nor
/// `..`.
pub proof fn a_spill_file_name_is_plain(label: Seq<char>, stamp: u128, platform: Platform)
    ensures
        path_laws::plain_name(
            encode_utf8(spill::file_name(spill::sanitized(label), stamp)),
            platform,
        ),
{
    let cleaned = spill::sanitized(label);
    let name = spill::file_name(cleaned, stamp);
    a_sanitized_label_is_plain(label);
    lemma_decimal_digits(stamp as nat);
    reveal_strlit("-");
    reveal_strlit(".txt");
    assert forall|i: int| 0 <= i < name.len() implies spill::name_char(#[trigger] name[i])
        || name[i] == '.' by {
        let number = text::decimal(stamp as nat);
        if i < cleaned.len() {
            assert(name[i] == cleaned[i]);
        } else if i == cleaned.len() {
            assert(name[i] == "-"@[0]);
        } else if i < cleaned.len() + 1 + number.len() {
            assert(name[i] == number[i - cleaned.len() - 1]);
        } else {
            assert(name[i] == ".txt"@[i - cleaned.len() - 1 - number.len()]);
        }
    }
    assert(is_ascii_chars(name));
    is_ascii_chars_encode_utf8(name);
    let bytes = encode_utf8(name);
    assert(bytes.len() >= 3);
    assert forall|i: int| 0 <= i < bytes.len() implies bytes[i] != BACKSLASH && bytes[i] != COLON
        && bytes[i] != SLASH by {
        assert(bytes[i] == name[i] as u8);
    }
}

/// A label cannot lead out of the spill directory. (A Windows directory that ends
/// inside a prefix, as `\\server` does, would have it completed by the file's
/// name.)
pub proof fn a_spill_file_stays_in_its_directory(
    root: Seq<u8>,
    label: Seq<char>,
    stamp: u128,
    case_insensitive: bool,
    platform: Platform,
)
    requires
        join_laws::stands_behind(
            root,
            encode_utf8(spill::file_name(spill::sanitized(label), stamp)),
            platform,
        ),
    ensures
        paths::within(
            paths::joined_path(
                root,
                encode_utf8(spill::file_name(spill::sanitized(label), stamp)),
                platform,
            ),
            root,
            case_insensitive,
            platform,
        ),
{
    a_spill_file_name_is_plain(label, stamp, platform);
    join_laws::a_joined_name_stays_inside(
        root,
        encode_utf8(spill::file_name(spill::sanitized(label), stamp)),
        case_insensitive,
        platform,
    );
}

/// Pruning splits the files in two: those that are removed and those that stay.
/// None is in both, and none gets lost.
pub proof fn pruning_removes_or_keeps_every_file(files: Seq<SpillFile>, count: int)
    ensures
        (spill::oldest_files(files, count) + spill::newer_files(files, count)).to_multiset()
            == files.to_multiset(),
        spill::oldest_files(files, count).len() == (if count <= 0 {
            0
        } else if count <= files.len() {
            count
        } else {
            files.len() as int
        }),
        spill::newer_files(files, count).len() == files.len() - spill::oldest_files(
            files,
            count,
        ).len(),
    decreases count,
{
    broadcast use vstd::seq_lib::group_to_multiset_ensures;

    let gone = spill::oldest_files(files, count);
    let left = spill::newer_files(files, count);
    if count <= 0 || files.len() == 0 {
        assert(gone + left =~= files);
    } else {
        let at = spill::oldest(files);
        spill::lemma_oldest(files);
        let rest = files.remove(at);
        pruning_removes_or_keeps_every_file(rest, count - 1);
        let before = spill::oldest_files(rest, count - 1) + left;
        assert(gone + left =~= seq![files[at]] + before);
        assert(seq![files[at]] =~= Seq::empty().push(files[at]));
        vstd::seq_lib::lemma_multiset_commutative(seq![files[at]], before);
        assert(files.to_multiset() =~= rest.to_multiset().insert(files[at]));
        assert((gone + left).to_multiset() =~= files.to_multiset());
    }
}

/// No file that is removed is newer than one that stays.
pub proof fn pruning_keeps_the_newest(files: Seq<SpillFile>, count: int)
    ensures
        forall|i: int, j: int|
            0 <= i < spill::oldest_files(files, count).len() && 0 <= j < spill::newer_files(
                files,
                count,
            ).len() ==> (#[trigger] spill::oldest_files(files, count)[i]).modified <= (
            #[trigger] spill::newer_files(files, count)[j]).modified,
        forall|j: int|
            0 <= j < spill::newer_files(files, count).len() ==> files.contains(
                #[trigger] spill::newer_files(files, count)[j],
            ),
    decreases count,
{
    let gone = spill::oldest_files(files, count);
    let left = spill::newer_files(files, count);
    if count > 0 && files.len() > 0 {
        let at = spill::oldest(files);
        spill::lemma_oldest(files);
        let rest = files.remove(at);
        pruning_keeps_the_newest(rest, count - 1);
        assert forall|j: int| 0 <= j < left.len() implies files.contains(#[trigger] left[j]) by {
            assert(rest.contains(spill::newer_files(rest, count - 1)[j]));
            let k = choose|k: int| 0 <= k < rest.len() && rest[k] == left[j];
            if k < at {
                assert(files[k] == left[j]);
            } else {
                assert(files[k + 1] == left[j]);
            }
        }
        assert forall|i: int, j: int|
            0 <= i < gone.len() && 0 <= j < left.len() implies (#[trigger] gone[i]).modified <= (
        #[trigger] left[j]).modified by {
            assert(files.contains(left[j]));
            if i == 0 {
                assert(gone[i] == files[at]);
            } else {
                let sooner = spill::oldest_files(rest, count - 1);
                assert(gone[i] == sooner[i - 1]);
                assert(left[j] == spill::newer_files(rest, count - 1)[j]);
            }
        }
    }
}

/// After pruning, no more files are left than the directory keeps, and at least
/// one is kept where there was one.
pub proof fn pruning_leaves_the_retained_count(files: Seq<SpillFile>, kept: usize)
    requires
        kept >= 1,
    ensures
        ({
            let left = spill::newer_files(files, files.len() - kept);
            &&& left.len() == (if files.len() <= kept {
                files.len()
            } else {
                kept as nat
            })
            &&& files.len() > 0 ==> left.len() > 0
        }),
{
    pruning_removes_or_keeps_every_file(files, files.len() - kept);
}

/// A label is cleaned character by character: letters, digits, `-` and `_` stay,
/// and everything else becomes a `-`. Nothing becomes `output`.
pub proof fn a_label_is_cleaned_in_place(label: Seq<char>, i: int)
    ensures
        label.len() > 0 ==> spill::sanitized(label).len() == label.len(),
        0 <= i < label.len() ==> spill::sanitized(label)[i] == (if 'a' <= label[i] <= 'z' || 'A'
            <= label[i] <= 'Z' || '0' <= label[i] <= '9' || label[i] == '-' || label[i] == '_' {
            label[i]
        } else {
            '-'
        }),
        label.len() == 0 ==> spill::sanitized(label) == seq!['o', 'u', 't', 'p', 'u', 't'],
{
    reveal_strlit("output");
    assert("output"@ =~= seq!['o', 'u', 't', 'p', 'u', 't']);
}

/// A spill file is called after its label and its stamp, so that files of one
/// label with two stamps never have one name.
pub proof fn spill_files_have_names_of_their_own(label: Seq<char>, stamp: u128, other: u128)
    ensures
        ({
            let name = spill::file_name(label, stamp);
            let ending = seq!['.', 't', 'x', 't'];
            &&& label.is_prefix_of(name)
            &&& ending.is_suffix_of(name)
            &&& text::holds(name, text::decimal(stamp as nat))
            &&& name == spill::file_name(label, other) ==> stamp == other
        }),
{
    let name = spill::file_name(label, stamp);
    let twin = spill::file_name(label, other);
    let ending = seq!['.', 't', 'x', 't'];
    let digits = text::decimal(stamp as nat);
    let others = text::decimal(other as nat);
    reveal_strlit("-");
    reveal_strlit(".txt");
    assert(".txt"@ =~= ending);
    text::lemma_holds(label + "-"@, digits, ".txt"@);
    assert(name =~= label + "-"@ + digits + ".txt"@);
    assert(label.is_prefix_of(name));
    assert(name.subrange(name.len() - 4, name.len() as int) =~= ending);
    if name == twin {
        let from: int = label.len() + 1int;
        assert(digits.len() == others.len());
        assert(name.subrange(from, from + digits.len()) =~= digits);
        assert(twin.subrange(from, from + others.len()) =~= others);
        text::decimal_forms_differ(stamp as nat, other as nat);
    }
}

/// What fits inline is kept whole, and of what does not the bytes up to the limit.
pub proof fn the_head_is_the_start_of_the_stream(stream: Seq<u8>, limit: nat, i: int)
    ensures
        stream.len() <= limit ==> spill::head_of(stream, limit) == stream,
        stream.len() > limit ==> spill::head_of(stream, limit).len() == limit,
        0 <= i < stream.len() && i < limit ==> spill::head_of(stream, limit)[i] == stream[i],
{
}

/// Files are removed oldest first.
pub proof fn the_oldest_file_goes_first(files: Seq<SpillFile>, count: int)
    ensures
        forall|i: int, j: int|
            0 <= i < j < spill::oldest_files(files, count).len() ==> (
            #[trigger] spill::oldest_files(files, count)[i]).modified <= (
            #[trigger] spill::oldest_files(files, count)[j]).modified,
        forall|i: int|
            0 <= i < spill::oldest_files(files, count).len() ==> files.contains(
                #[trigger] spill::oldest_files(files, count)[i],
            ),
    decreases count,
{
    let gone = spill::oldest_files(files, count);
    if count > 0 && files.len() > 0 {
        let at = spill::oldest(files);
        spill::lemma_oldest(files);
        let rest = files.remove(at);
        let later = spill::oldest_files(rest, count - 1);
        the_oldest_file_goes_first(rest, count - 1);
        assert forall|i: int| 0 <= i < gone.len() implies files.contains(#[trigger] gone[i]) by {
            if i == 0 {
                assert(gone[0] == files[at]);
            } else {
                assert(gone[i] == later[i - 1]);
                assert(rest.contains(later[i - 1]));
                let k = choose|k: int| 0 <= k < rest.len() && rest[k] == later[i - 1];
                if k < at {
                    assert(files[k] == gone[i]);
                } else {
                    assert(files[k + 1] == gone[i]);
                }
            }
        }
        assert forall|i: int, j: int| 0 <= i < j < gone.len() implies (#[trigger] gone[i]).modified
            <= (#[trigger] gone[j]).modified by {
            if i == 0 {
                assert(files.contains(gone[j]));
            } else {
                assert(gone[i] == later[i - 1] && gone[j] == later[j - 1]);
            }
        }
    }
}

/// Of files of one age the first is the oldest.
pub proof fn of_files_of_one_age_the_first_goes(files: Seq<SpillFile>)
    requires
        files.len() > 0,
        forall|i: int| 0 <= i < files.len() ==> (#[trigger] files[i]).modified == files[0].modified,
    ensures
        spill::oldest_files(files, 1) == seq![files[0]],
        spill::newer_files(files, 1) == files.skip(1),
{
    spill::lemma_oldest(files);
    assert(spill::oldest(files) == 0);
    reveal_with_fuel(spill::oldest_files, 2);
    reveal_with_fuel(spill::newer_files, 2);
    assert(files.remove(0) =~= files.skip(1));
    assert(spill::oldest_files(files, 1) =~= seq![files[0]]);
}

/// Nothing is said where nothing was left out. Else the notice says how much is
/// shown and, where the rest was saved, how much there is and in which file; where
/// it could not be saved, how much there is and why.
pub proof fn the_notice_says_what_was_left_out(captured: Captured, platform: Platform)
    ensures
        captured.notice_text(platform) is Some <==> captured.truncated,
        captured.notice_text(platform) matches Some(notice) ==> {
            &&& text::holds(notice, text::decimal(encode_utf8(captured.head@).len()))
            &&& captured.spilled matches Some(spill) ==> {
                &&& text::holds(notice, text::decimal(spill.total_bytes as nat))
                &&& text::holds(notice, paths::path_text(spill.path@, platform))
            }
            &&& captured.spilled is None ==> (captured.spill_error matches Some(error) ==> {
                &&& text::holds(notice, text::decimal(captured.total_bytes as nat))
                &&& text::holds(notice, error@)
            })
        },
{
    let shown = text::decimal(encode_utf8(captured.head@).len());
    if captured.truncated {
        let notice = captured.notice_text(platform)->0;
        match (captured.spilled, captured.spill_error) {
            (Some(spill), _) => {
                let total = text::decimal(spill.total_bytes as nat);
                let path = paths::path_text(spill.path@, platform);
                let before = "[showing the first "@;
                let then = " bytes. The complete output is at "@;
                let after
                    = " \u{2014} read or search that file rather than running this again.]"@;
                let behind = " of "@ + total + then + path + after;
                text::lemma_holds(before, shown, behind);
                assert(before + shown + behind =~= notice);
                text::lemma_holds(before + shown + " of "@, total, then + path + after);
                assert(before + shown + " of "@ + total + (then + path + after) =~= notice);
                text::lemma_holds(before + shown + " of "@ + total + then, path, after);
                assert(before + shown + " of "@ + total + then + path + after =~= notice);
            },
            (None, Some(error)) => {
                let total = text::decimal(captured.total_bytes as nat);
                let before = "[output truncated at "@;
                let then = " bytes; the rest could not be saved ("@;
                let behind = " of "@ + total + then + error@ + ")]"@;
                text::lemma_holds(before, shown, behind);
                assert(before + shown + behind =~= notice);
                text::lemma_holds(before + shown + " of "@, total, then + error@ + ")]"@);
                assert(before + shown + " of "@ + total + (then + error@ + ")]"@) =~= notice);
                text::lemma_holds(before + shown + " of "@ + total + then, error@, ")]"@);
                assert(before + shown + " of "@ + total + then + error@ + ")]"@ =~= notice);
            },
            (None, None) => {
                text::lemma_holds("[output truncated at "@, shown, " bytes]"@);
            },
        }
    }
}

/// What the bytes read as is shown as it is where that fits the limit, and else
/// with `?` for each U+FFFD.
pub proof fn what_is_shown_is_what_the_bytes_read_as(bytes: Seq<u8>, limit: nat, i: int)
    ensures
        ({
            let read = text::utf8_lossy(bytes);
            let shown = spill::shown_text(bytes, limit);
            &&& encode_utf8(read).len() <= limit ==> shown == read
            &&& shown.len() == read.len()
            &&& 0 <= i < read.len() ==> shown[i] == read[i] || (read[i] == '\u{FFFD}' && shown[i]
                == '?')
        }),
{
}

} // verus!
