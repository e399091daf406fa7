//! Text helpers shared by the other modules, each stated over the characters
//! that a string holds.

use vstd::prelude::*;
use vstd::string::StringExecFns;
use vstd::string::StrSliceExecFns;
use vstd::utf8::*;

verus! {

/// `String::push` appends the given character to the end of the string.
pub assume_specification[ String::push ](string: &mut String, c: char)
    ensures
        final(string)@ == old(string)@.push(c),
;

/// What `String::from_utf8_lossy` decodes a byte sequence to.
pub uninterp spec fn utf8_lossy(bytes: Seq<u8>) -> Seq<char>;

/// `text` with each U+FFFD, which takes three bytes, given as `?`, which takes
/// one.
pub open spec fn narrowed(text: Seq<char>) -> Seq<char> {
    Seq::new(
        text.len(),
        |i: int|
            if text[i] == '\u{fffd}' {
                '?'
            } else {
                text[i]
            },
    )
}

/// `String::from_utf8_lossy`: bytes that are valid UTF-8 decode to the text
/// they encode. Otherwise each invalid sequence is replaced by one U+FFFD, so
/// that the text, with one byte counted for each of these, is no longer than the
/// bytes; the text itself is only named.
#[verifier::external_body]
pub(crate) fn from_utf8_lossy(bytes: &[u8]) -> (text: String)
    ensures
        text@ == utf8_lossy(bytes@),
        valid_utf8(bytes@) ==> text@ == decode_utf8(bytes@),
        encode_utf8(narrowed(text@)).len() <= bytes@.len(),
{
    String::from_utf8_lossy(bytes).into_owned()
}

/// Gives each U+FFFD as `?`.
pub fn narrow(text: &str) -> (narrow: String)
    ensures
        narrow@ == narrowed(text@),
{
    let chars = chars_of(text);
    let mut narrow = String::new();
    for i in 0..chars.len()
        invariant
            chars@ == text@,
            narrow@ == narrowed(text@).take(i as int),
    {
        let c: char = if chars[i] == '\u{fffd}' {
            '?'
        } else {
            chars[i]
        };
        narrow.push(c);
        assert(narrow@ =~= narrowed(text@).take(i + 1));
    }
    assert(narrowed(text@).take(chars@.len() as int) =~= narrowed(text@));
    narrow
}

/// What `str::to_lowercase` maps a text to.
pub uninterp spec fn lowercase(text: Seq<char>) -> Seq<char>;

/// `str::to_lowercase`: Unicode lowercasing, named only.
#[verifier::external_body]
pub(crate) fn to_lowercase(text: &str) -> (lower: String)
    ensures
        lower@ == lowercase(text@),
{
    text.to_lowercase()
}

/// How the `Debug` form of a string renders it, quotes and escapes included.
pub uninterp spec fn debug_quoted(text: Seq<char>) -> Seq<char>;

/// The `Debug` form of a string (`{:?}`), named only.
#[verifier::external_body]
pub(crate) fn to_debug_quoted(text: &str) -> (quoted: String)
    ensures
        quoted@ == debug_quoted(text@),
{
    format!("{:?}", text)
}

/// The characters with the Unicode `White_Space` property.
pub open spec fn white_space(c: char) -> bool {
    ||| '\u{9}' <= c <= '\u{d}'
    ||| c == ' '
    ||| c == '\u{85}'
    ||| c == '\u{a0}'
    ||| c == '\u{1680}'
    ||| '\u{2000}' <= c <= '\u{200a}'
    ||| c == '\u{2028}'
    ||| c == '\u{2029}'
    ||| c == '\u{202f}'
    ||| c == '\u{205f}'
    ||| c == '\u{3000}'
}

fn is_white_space(c: char) -> (yes: bool)
    ensures
        yes == white_space(c),
{
    ('\u{9}' <= c && c <= '\u{d}') || c == ' ' || c == '\u{85}' || c == '\u{a0}' || c == '\u{1680}'
        || ('\u{2000}' <= c && c <= '\u{200a}') || c == '\u{2028}' || c == '\u{2029}' || c
        == '\u{202f}' || c == '\u{205f}' || c == '\u{3000}'
}

/// `text` without its leading white space.
pub open spec fn trimmed_start(text: Seq<char>) -> Seq<char>
    decreases text.len(),
{
    if text.len() > 0 && white_space(text[0]) {
        trimmed_start(text.drop_first())
    } else {
        text
    }
}

/// `text` without its trailing white space.
pub open spec fn trimmed_end(text: Seq<char>) -> Seq<char>
    decreases text.len(),
{
    if text.len() > 0 && white_space(text.last()) {
        trimmed_end(text.drop_last())
    } else {
        text
    }
}

/// `text` without leading and trailing white space.
pub open spec fn trimmed(text: Seq<char>) -> Seq<char> {
    trimmed_end(trimmed_start(text))
}

/// The characters of a string, in order.
pub fn chars_of(text: &str) -> (chars: Vec<char>)
    ensures
        chars@ == text@,
{
    let mut chars: Vec<char> = Vec::new();
    for c in it: text.chars()
        invariant
            chars@ == it.seq().take(it.index() as int),
            it.seq() == text@,
    {
        chars.push(c);
    }
    chars
}

/// The string that holds `chars`.
pub fn string_of(chars: &[char]) -> (text: String)
    ensures
        text@ == chars@,
{
    let mut text = String::new();
    for i in 0..chars.len()
        invariant
            text@ == chars@.take(i as int),
    {
        text.push(chars[i]);
        assert(chars@.take(i + 1) == chars@.take(i as int).push(chars@[i as int]));
    }
    assert(chars@.take(chars@.len() as int) == chars@);
    text
}

/// Removes leading and trailing white space.
pub fn trim<'a>(text: &'a str) -> (rest: &'a str)
    ensures
        rest@ == trimmed(text@),
{
    let chars = chars_of(text);
    let mut from: usize = 0;
    assert(text@.skip(0) == text@);
    while from < chars.len() && is_white_space(chars[from])
        invariant
            chars@ == text@,
            from <= chars.len(),
            trimmed_start(text@) == trimmed_start(text@.skip(from as int)),
        decreases chars.len() - from,
    {
        assert(text@.skip(from as int).drop_first() == text@.skip(from + 1));
        from = from + 1;
    }
    let ghost tail = text@.skip(from as int);
    assert(trimmed_start(text@) == tail);
    let mut to: usize = chars.len();
    assert(text@.subrange(from as int, to as int) == tail);
    while from < to && is_white_space(chars[to - 1])
        invariant
            chars@ == text@,
            from <= to <= chars.len(),
            trimmed_end(tail) == trimmed_end(text@.subrange(from as int, to as int)),
        decreases to,
    {
        assert(text@.subrange(from as int, to as int).drop_last() == text@.subrange(
            from as int,
            to - 1,
        ));
        to = to - 1;
    }
    assert(trimmed_end(text@.subrange(from as int, to as int)) == text@.subrange(
        from as int,
        to as int,
    ));
    text.substring_char(from, to)
}

/// Whether two texts are the same.
pub fn same_text(a: &str, b: &str) -> (same: bool)
    ensures
        same == (a@ == b@),
{
    a.to_owned() == b.to_owned()
}

/// What follows `prefix` in `text`, if `text` starts with it.
pub open spec fn after_prefix(text: Seq<char>, prefix: Seq<char>) -> Option<Seq<char>> {
    if prefix.is_prefix_of(text) {
        Some(text.skip(prefix.len() as int))
    } else {
        None
    }
}

/// What follows `prefix` in `text`, if `text` starts with it.
pub fn strip_prefix<'a>(text: &'a str, prefix: &str) -> (rest: Option<&'a str>)
    ensures
        rest is Some == after_prefix(text@, prefix@) is Some,
        rest is Some ==> rest->0@ == after_prefix(text@, prefix@)->0,
{
    let total = text.unicode_len();
    let skipped = prefix.unicode_len();
    if skipped > total {
        return None;
    }
    if same_text(text.substring_char(0, skipped), prefix) {
        assert(text@.subrange(0, skipped as int) == prefix@);
        assert(prefix@.is_prefix_of(text@));
        assert(text@.subrange(skipped as int, total as int) == text@.skip(skipped as int));
        Some(text.substring_char(skipped, total))
    } else {
        assert(prefix@.is_prefix_of(text@) ==> text@.subrange(0, skipped as int) == prefix@);
        None
    }
}

/// The position of the first `c` in `text`, or its length.
pub open spec fn find_char(text: Seq<char>, c: char) -> int
    decreases text.len(),
{
    if text.len() == 0 || text[0] == c {
        0
    } else {
        1 + find_char(text.drop_first(), c)
    }
}

/// The first `c` stands where nothing before it is one.
pub proof fn lemma_find_char(text: Seq<char>, c: char, at: int)
    requires
        0 <= at <= text.len(),
        forall|i: int| 0 <= i < at ==> text[i] != c,
        at < text.len() ==> text[at] == c,
    ensures
        find_char(text, c) == at,
    decreases text.len(),
{
    if text.len() > 0 && at > 0 {
        let rest = text.drop_first();
        assert forall|i: int| 0 <= i < at - 1 implies rest[i] != c by {
            assert(rest[i] == text[i + 1]);
        }
        lemma_find_char(rest, c, at - 1);
    }
}

/// The first `c` stands no later than any other.
pub proof fn lemma_found_char(text: Seq<char>, c: char, at: int)
    requires
        0 <= at < text.len(),
        text[at] == c,
    ensures
        0 <= find_char(text, c) <= at,
    decreases text.len(),
{
    if text[0] != c {
        let rest = text.drop_first();
        assert(rest[at - 1] == c);
        lemma_found_char(rest, c, at - 1);
    }
}

/// The position of the first `c` in `chars`, or their number.
pub fn position_of(chars: &[char], c: char) -> (at: usize)
    ensures
        at == find_char(chars@, c),
        at <= chars@.len(),
        forall|i: int| 0 <= i < at ==> chars@[i] != c,
        at < chars@.len() ==> chars@[at as int] == c,
{
    let mut at: usize = 0;
    while at < chars.len() && chars[at] != c
        invariant
            at <= chars@.len(),
            forall|i: int| 0 <= i < at ==> chars@[i] != c,
        decreases chars.len() - at,
    {
        at = at + 1;
    }
    proof {
        lemma_find_char(chars@, c, at as int);
    }
    at
}

/// The first line of a text, without its line ending: everything up to the
/// first line feed, less a carriage return right before that line feed.
pub open spec fn first_line_of(text: Seq<char>) -> Seq<char> {
    let end = find_char(text, '\n');
    if 0 < end < text.len() && text[end - 1] == '\r' {
        text.take(end - 1)
    } else {
        text.take(end)
    }
}

/// The first line of a text, without its line ending.
pub fn first_line(text: &str) -> (line: String)
    ensures
        line@ == first_line_of(text@),
{
    let chars = chars_of(text);
    let end = position_of(chars.as_slice(), '\n');
    if 0 < end && end < chars.len() && chars[end - 1] == '\r' {
        assert(text@.subrange(0, end - 1) == text@.take(end - 1));
        text.substring_char(0, end - 1).to_owned()
    } else {
        assert(text@.subrange(0, end as int) == text@.take(end as int));
        text.substring_char(0, end).to_owned()
    }
}

/// A decimal digit.
pub open spec fn digit(n: nat) -> char {
    (48 + n) as char
}

/// The decimal form of a number.
pub open spec fn decimal(n: nat) -> Seq<char>
    decreases n,
{
    if n < 10 {
        seq![digit(n)]
    } else {
        decimal(n / 10).push(digit(n % 10))
    }
}

/// The decimal form of a number.
pub fn decimal_text(n: u128) -> (text: String)
    ensures
        text@ == decimal(n as nat),
    decreases n,
{
    let last: u8 = (n % 10) as u8;
    let c: char = (48u8 + last) as char;
    if n < 10 {
        let mut text = String::new();
        text.push(c);
        assert(text@ == seq![digit(n as nat)]);
        text
    } else {
        let mut text = decimal_text(n / 10);
        text.push(c);
        text
    }
}

/// The texts `parts`, with `sep` between each two.
pub open spec fn joined(parts: Seq<Seq<char>>, sep: Seq<char>) -> Seq<char>
    decreases parts.len(),
{
    if parts.len() == 0 {
        Seq::empty()
    } else if parts.len() == 1 {
        parts[0]
    } else {
        joined(parts.drop_last(), sep) + sep + parts.last()
    }
}

/// The texts that strings hold.
pub open spec fn texts(strings: Seq<String>) -> Seq<Seq<char>> {
    Seq::new(strings.len(), |i: int| strings[i]@)
}

/// Joins strings with a separator.
pub fn join(parts: &[String], sep: &str) -> (text: String)
    ensures
        text@ == joined(texts(parts@), sep@),
{
    let mut text = String::new();
    assert(texts(parts@.take(0)) == Seq::<Seq<char>>::empty());
    for i in 0..parts.len()
        invariant
            text@ == joined(texts(parts@.take(i as int)), sep@),
    {
        proof {
            let more = texts(parts@.take(i + 1));
            assert(more.drop_last() == texts(parts@.take(i as int)));
            assert(more.last() == parts@[i as int]@);
        }
        if i > 0 {
            text.append(sep);
        }
        text.append(parts[i].as_str());
    }
    assert(parts@.take(parts@.len() as int) == parts@);
    text
}

/// Whether one of the strings holds `text`.
pub open spec fn mentions(strings: Seq<String>, text: Seq<char>) -> bool {
    texts(strings).contains(text)
}

/// Whether one of the strings holds `text`.
pub fn contains_text(strings: &[String], text: &str) -> (found: bool)
    ensures
        found == mentions(strings@, text@),
{
    for i in 0..strings.len()
        invariant
            forall|j: int| 0 <= j < i ==> strings@[j]@ != text@,
    {
        if same_text(strings[i].as_str(), text) {
            assert(texts(strings@)[i as int] == text@);
            return true;
        }
    }
    false
}

/// Whether `part` stands in `text` from `at` on.
pub open spec fn stands(text: Seq<char>, part: Seq<char>, at: int) -> bool {
    &&& 0 <= at
    &&& at + part.len() <= text.len()
    &&& text.subrange(at, at + part.len()) == part
}

/// Whether `part` stands somewhere in `text`.
pub open spec fn holds(text: Seq<char>, part: Seq<char>) -> bool {
    exists|at: int| #[trigger] stands(text, part, at)
}

/// A text holds what it was put together from.
pub proof fn lemma_holds(before: Seq<char>, part: Seq<char>, after: Seq<char>)
    ensures
        holds(before + part + after, part),
{
    let text = before + part + after;
    let at = before.len() as int;
    assert(text.subrange(at, at + part.len()) =~= part);
    assert(stands(text, part, at));
}

/// A longer text holds what a part of it holds.
pub proof fn lemma_holds_within(
    before: Seq<char>,
    text: Seq<char>,
    after: Seq<char>,
    part: Seq<char>,
)
    requires
        holds(text, part),
    ensures
        holds(before + text + after, part),
{
    let at = choose|at: int| stands(text, part, at);
    let whole = before + text + after;
    let place = before.len() + at;
    assert(whole.subrange(place, place + part.len()) =~= text.subrange(at, at + part.len()));
    assert(stands(whole, part, place));
}

/// A text holds what a part of one of its parts holds.
pub proof fn lemma_holds_deep(text: Seq<char>, middle: Seq<char>, part: Seq<char>)
    requires
        holds(text, middle),
        holds(middle, part),
    ensures
        holds(text, part),
{
    let at = choose|at: int| stands(text, middle, at);
    let inner = text.subrange(at, at + middle.len());
    assert(text =~= text.take(at) + inner + text.skip(at + middle.len()));
    lemma_holds_within(text.take(at), inner, text.skip(at + middle.len()), part);
}

/// Whether trimming leaves the characters from `from` up to `to`, and why: all
/// others are white space at one end or the other, and at neither end of what is
/// left stands any.
pub open spec fn trimmed_to(text: Seq<char>, from: int, to: int) -> bool {
    &&& 0 <= from <= to <= text.len()
    &&& trimmed(text) == text.subrange(from, to)
    &&& forall|i: int| 0 <= i < from ==> white_space(#[trigger] text[i])
    &&& forall|i: int| to <= i < text.len() ==> white_space(#[trigger] text[i])
    &&& from < to ==> !white_space(text[from]) && !white_space(text[to - 1])
}

proof fn lemma_trimmed_start(text: Seq<char>) -> (from: int)
    ensures
        0 <= from <= text.len(),
        trimmed_start(text) == text.skip(from),
        forall|i: int| 0 <= i < from ==> white_space(#[trigger] text[i]),
        from < text.len() ==> !white_space(text[from]),
    decreases text.len(),
{
    if text.len() > 0 && white_space(text[0]) {
        let rest = text.drop_first();
        let from = lemma_trimmed_start(rest);
        assert(rest.skip(from) =~= text.skip(from + 1));
        assert forall|i: int| 0 <= i < from + 1 implies white_space(#[trigger] text[i]) by {
            if i > 0 {
                assert(rest[i - 1] == text[i]);
            }
        }
        from + 1
    } else {
        assert(text.skip(0) =~= text);
        0
    }
}

proof fn lemma_trimmed_end(text: Seq<char>) -> (to: int)
    ensures
        0 <= to <= text.len(),
        trimmed_end(text) == text.take(to),
        forall|i: int| to <= i < text.len() ==> white_space(#[trigger] text[i]),
        to > 0 ==> !white_space(text[to - 1]),
    decreases text.len(),
{
    if text.len() > 0 && white_space(text.last()) {
        let rest = text.drop_last();
        let to = lemma_trimmed_end(rest);
        assert(rest.take(to) =~= text.take(to));
        assert forall|i: int| to <= i < text.len() implies white_space(#[trigger] text[i]) by {
            if i < rest.len() {
                assert(rest[i] == text[i]);
            }
        }
        to
    } else {
        assert(text.take(text.len() as int) =~= text);
        text.len() as int
    }
}

/// Trimming removes white space at both ends, all of it, and nothing else.
pub proof fn trimming_removes_only_white_space(text: Seq<char>)
    ensures
        exists|from: int, to: int| #[trigger] trimmed_to(text, from, to),
        trimmed(trimmed(text)) == trimmed(text),
{
    let from = lemma_trimmed_start(text);
    let rest = text.skip(from);
    let end = lemma_trimmed_end(rest);
    let to = from + end;
    assert(rest.take(end) =~= text.subrange(from, to));
    assert forall|i: int| to <= i < text.len() implies white_space(#[trigger] text[i]) by {
        assert(rest[i - from] == text[i]);
    }
    if from < to {
        assert(rest[end - 1] == text[to - 1]);
    }
    assert(trimmed_to(text, from, to));
    let left = text.subrange(from, to);
    if left.len() > 0 {
        assert(left[0] == text[from]);
        assert(left.last() == text[to - 1]);
    }
}

/// A text is blank, that is, trimming leaves nothing of it, if and only if it is
/// white space throughout.
pub proof fn only_white_space_is_blank(text: Seq<char>)
    ensures
        trimmed(text).len() == 0 <==> forall|i: int|
            0 <= i < text.len() ==> white_space(#[trigger] text[i]),
{
    trimming_removes_only_white_space(text);
    let (from, to) = choose|from: int, to: int| trimmed_to(text, from, to);
    if from < to {
        assert(!white_space(text[from]));
    } else {
        assert forall|i: int| 0 <= i < text.len() implies white_space(#[trigger] text[i]) by {}
    }
}

/// What is white space among the ASCII characters: the space, and the tab, the
/// line feed, the vertical tab, the form feed and the carriage return.
pub proof fn ascii_white_space(c: char)
    requires
        c < '\u{80}',
    ensures
        white_space(c) <==> c == ' ' || c == '\t' || c == '\n' || c == '\u{b}' || c == '\u{c}' || c
            == '\r',
{
}

/// The first line is the start of the text up to a line ending, which is `\n` or
/// `\r\n`, or all of a text that has none.
pub proof fn the_first_line_ends_where_the_text_breaks(text: Seq<char>)
    ensures
        ({
            let line = first_line_of(text);
            &&& line.is_prefix_of(text)
            &&& !line.contains('\n')
            &&& !text.contains('\n') ==> line == text
            &&& text.contains('\n') ==> {
                ||| line.len() < text.len() && text[line.len() as int] == '\n' && (line.len() == 0
                    || line.last() != '\r')
                ||| line.len() + 1 < text.len() && text[line.len() as int] == '\r' && text[line.len()
                    as int + 1] == '\n'
            }
        }),
{
    let end = find_char(text, '\n');
    lemma_char_found(text, '\n');
    let line = first_line_of(text);
    if text.contains('\n') {
        let i = choose|i: int| 0 <= i < text.len() && text[i] == '\n';
        lemma_found_char(text, '\n', i);
    } else {
        assert(end == text.len()) by {
            if end < text.len() {
                assert(text.contains(text[end]));
            }
        }
        assert(text.take(end) =~= text);
    }
    assert forall|i: int| 0 <= i < line.len() implies line[i] != '\n' by {
        assert(line[i] == text[i]);
    }
}

proof fn lemma_char_found(text: Seq<char>, c: char)
    ensures
        0 <= find_char(text, c) <= text.len(),
        forall|i: int| 0 <= i < find_char(text, c) ==> text[i] != c,
        find_char(text, c) < text.len() ==> text[find_char(text, c)] == c,
    decreases text.len(),
{
    if text.len() > 0 && text[0] != c {
        let rest = text.drop_first();
        lemma_char_found(rest, c);
        assert forall|i: int| 0 <= i < find_char(text, c) implies text[i] != c by {
            if i > 0 {
                assert(rest[i - 1] == text[i]);
            }
        }
    }
}

/// The number that decimal digits stand for.
pub open spec fn number_of(digits: Seq<char>) -> int
    decreases digits.len(),
{
    if digits.len() == 0 {
        0
    } else {
        10 * number_of(digits.drop_last()) + (digits.last() as int - '0' as int)
    }
}

/// The decimal form of a number is made of digits, starts with none too many, and
/// stands for that number.
pub proof fn a_number_is_read_back(n: nat)
    ensures
        number_of(decimal(n)) == n,
        decimal(n).len() > 0,
        forall|i: int| 0 <= i < decimal(n).len() ==> '0' <= #[trigger] decimal(n)[i] <= '9',
        n > 0 ==> decimal(n)[0] != '0',
        n == 0 ==> decimal(n).len() == 1,
    decreases n,
{
    let digits = decimal(n);
    reveal_with_fuel(number_of, 2);
    if n < 10 {
        assert(digits.drop_last() =~= Seq::<char>::empty());
        assert(digits.last() == digit(n));
    } else {
        a_number_is_read_back(n / 10);
        let before = decimal(n / 10);
        assert(digits.drop_last() =~= before);
        assert(digits.last() == digit(n % 10));
        assert(digits[0] == before[0]);
        assert forall|i: int| 0 <= i < digits.len() implies '0' <= #[trigger] digits[i] <= '9' by {
            if i < before.len() {
                assert(digits[i] == before[i]);
            }
        }
    }
}

/// Two numbers with the same decimal form are the same.
pub proof fn decimal_forms_differ(m: nat, n: nat)
    requires
        decimal(m) == decimal(n),
    ensures
        m == n,
{
    a_number_is_read_back(m);
    a_number_is_read_back(n);
}

/// Joining puts the separator between each two texts and nowhere else, so that
/// nothing of a text is lost.
pub proof fn joining_keeps_every_text(parts: Seq<Seq<char>>, last: Seq<char>, sep: Seq<char>)
    ensures
        joined(Seq::<Seq<char>>::empty(), sep).len() == 0,
        joined(seq![last], sep) == last,
        parts.len() > 0 ==> joined(parts.push(last), sep) == joined(parts, sep) + sep + last,
{
    assert(parts.push(last).drop_last() =~= parts);
    assert(parts.push(last).last() == last);
}

/// A joined text holds each of its parts.
pub proof fn lemma_joined_holds(parts: Seq<Seq<char>>, sep: Seq<char>, i: int)
    requires
        0 <= i < parts.len(),
    ensures
        holds(joined(parts, sep), parts[i]),
    decreases parts.len(),
{
    let nothing = Seq::<char>::empty();
    if parts.len() == 1 {
        lemma_holds(nothing, parts[0], nothing);
        assert(nothing + parts[0] + nothing =~= parts[0]);
    } else {
        let rest = parts.drop_last();
        let before = joined(rest, sep);
        if i < rest.len() {
            lemma_joined_holds(rest, sep, i);
            assert(rest[i] == parts[i]);
            lemma_holds_within(nothing, before, sep + parts.last(), parts[i]);
            assert(nothing + before + (sep + parts.last()) =~= joined(parts, sep));
        } else {
            lemma_holds(before + sep, parts.last(), nothing);
            assert(before + sep + parts.last() + nothing =~= joined(parts, sep));
        }
    }
}

/// A prefix and what follows it make up the text, and only then is there
/// something that follows it.
pub proof fn a_prefix_and_the_rest_make_the_text(
    text: Seq<char>,
    prefix: Seq<char>,
    rest: Seq<char>,
)
    ensures
        after_prefix(text, prefix) == Some(rest) <==> text == prefix + rest,
{
    if text == prefix + rest {
        assert(text.skip(prefix.len() as int) =~= rest);
    }
    if after_prefix(text, prefix) == Some(rest) {
        assert(text =~= prefix + rest);
    }
}

/// Narrowing touches replacement characters alone: each becomes one `?`.
pub proof fn narrowing_keeps_text(text: Seq<char>, i: int)
    requires
        0 <= i < text.len(),
    ensures
        narrowed(text).len() == text.len(),
        text[i] != '\u{fffd}' ==> narrowed(text)[i] == text[i],
        text[i] == '\u{fffd}' ==> narrowed(text)[i] == '?',
{
}

/// White space beyond ASCII: the next line, the spaces that do not break, the Ogham
/// and the ideographic one, those of a fixed width, and the separators of lines and
/// paragraphs.
pub proof fn white_space_beyond_ascii(c: char)
    requires
        c as u32 >= 0x80,
    ensures
        white_space(c) <==> {
            let point = c as u32;
            point == 0x85 || point == 0xA0 || point == 0x1680 || 0x2000 <= point <= 0x200A || point
                == 0x2028 || point == 0x2029 || point == 0x202F || point == 0x205F || point
                == 0x3000
        },
{
}

} // verus!
