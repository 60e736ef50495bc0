//! Text in the shapes that the window and the status line need.

use vstd::prelude::*;
use vstd::string::StrSliceExecFns;
use vstd::string::StringExecFns;
use vstd::utf8::{decode_utf8, encode_utf8, is_char_boundary};

verus! {

/// The characters with the Unicode property `White_Space`.
pub open spec fn is_white_space(c: char) -> bool {
    ||| '\u{9}' <= c <= '\u{d}'
    ||| c == '\u{20}'
    ||| c == '\u{85}'
    ||| c == '\u{a0}'
    ||| c == '\u{1680}'
    ||| '\u{2000}' <= c <= '\u{200a}'
    ||| c == '\u{2028}'
    ||| c == '\u{2029}'
    ||| c == '\u{202f}'
    ||| c == '\u{205f}'
    ||| c == '\u{3000}'
}

/// `s` without the white space at its start.
pub open spec fn trimmed_start(s: Seq<char>) -> Seq<char>
    decreases s.len(),
{
    if s.len() > 0 && is_white_space(s[0]) {
        trimmed_start(s.drop_first())
    } else {
        s
    }
}

/// `s` without the white space at its end.
pub open spec fn trimmed_end(s: Seq<char>) -> Seq<char>
    decreases s.len(),
{
    if s.len() > 0 && is_white_space(s.last()) {
        trimmed_end(s.drop_last())
    } else {
        s
    }
}

/// `s` without the white space around it.
pub open spec fn trimmed(s: Seq<char>) -> Seq<char> {
    trimmed_end(trimmed_start(s))
}

/// Whether a character has the property `White_Space`.
fn char_is_whitespace(c: char) -> (b: bool)
    ensures
        b == is_white_space(c),
{
    ('\u{9}' <= c && c <= '\u{d}') || c == '\u{20}' || c == '\u{85}' || c == '\u{a0}' || c
        == '\u{1680}' || ('\u{2000}' <= c && c <= '\u{200a}') || c == '\u{2028}' || c == '\u{2029}' || c
        == '\u{202f}' || c == '\u{205f}' || c == '\u{3000}'
}

/// Whether two texts hold the same characters.
pub fn same_text(a: &str, b: &str) -> (same: bool)
    ensures
        same == (a@ == b@),
{
    a.to_owned() == b.to_owned()
}

/// The characters of `s`, one by one.
pub fn chars_of(s: &str) -> (chars: Vec<char>)
    ensures
        chars@ == s@,
{
    let mut chars: Vec<char> = Vec::new();
    for c in iter: s.chars()
        invariant
            chars@ == iter.seq().take(iter.index()),
            iter.seq() == s@,
    {
        chars.push(c);
    }
    assert(s@.take(s@.len() as int) == s@);
    chars
}

/// `s` without the white space around it.
pub fn trim(s: &str) -> (r: &str)
    ensures
        r@ == trimmed(s@),
{
    let chars = chars_of(s);
    let mut start: usize = 0;
    assert(s@.skip(0) == s@);
    while start < chars.len() && char_is_whitespace(chars[start])
        invariant
            chars@ == s@,
            start <= chars@.len(),
            trimmed_start(s@) == trimmed_start(s@.skip(start as int)),
        ensures
            start <= chars@.len(),
            trimmed_start(s@) == s@.skip(start as int),
        decreases chars@.len() - start,
    {
        assert(s@.skip(start as int).drop_first() == s@.skip(start + 1));
        start += 1;
    }
    let ghost body = s@.skip(start as int);
    let mut end: usize = chars.len();
    assert(s@.subrange(start as int, end as int) == body);
    while end > start && char_is_whitespace(chars[end - 1])
        invariant
            chars@ == s@,
            start <= end <= chars@.len(),
            trimmed_end(body) == trimmed_end(s@.subrange(start as int, end as int)),
        ensures
            start <= end <= chars@.len(),
            trimmed_end(body) == s@.subrange(start as int, end as int),
        decreases end,
    {
        assert(s@.subrange(start as int, end as int).drop_last() == s@.subrange(start as int, end - 1));
        end -= 1;
    }
    s.substring_char(start, end)
}

/// The place of the first `c` in `s`, its length where there is none.
pub open spec fn first_index(s: Seq<char>, c: char) -> int
    decreases s.len(),
{
    if s.len() == 0 || s[0] == c {
        0
    } else {
        1 + first_index(s.drop_first(), c)
    }
}

/// What [`first_index`] means.
pub proof fn lemma_first_index(s: Seq<char>, c: char)
    ensures
        0 <= first_index(s, c) <= s.len(),
        first_index(s, c) < s.len() ==> s[first_index(s, c)] == c,
        forall|i: int| 0 <= i < first_index(s, c) ==> s[i] != c,
    decreases s.len(),
{
    if s.len() > 0 && s[0] != c {
        lemma_first_index(s.drop_first(), c);
        assert forall|i: int| 0 <= i < first_index(s, c) implies s[i] != c by {
            if i > 0 {
                assert(s[i] == s.drop_first()[i - 1]);
            }
        }
    }
}

/// The place of the first `c` among characters.
pub(crate) fn find_char(chars: &Vec<char>, c: char) -> (at: usize)
    ensures
        at == first_index(chars@, c),
{
    let mut at: usize = 0;
    assert(chars@.skip(0) == chars@);
    while at < chars.len() && chars[at] != c
        invariant
            at <= chars@.len(),
            first_index(chars@, c) == at + first_index(chars@.skip(at as int), c),
        ensures
            at == first_index(chars@, c),
        decreases chars@.len() - at,
    {
        assert(chars@.skip(at as int).drop_first() == chars@.skip(at + 1));
        at += 1;
    }
    at
}

/// What a status line has room for: the first line of a text, without the white space around
/// it.
pub open spec fn headline(text: Seq<char>) -> Seq<char> {
    trimmed(text.take(first_index(text, '\n')))
}

/// The last place at or before `n` where bytes can be cut without cutting a character.
pub open spec fn cut_point(bytes: Seq<u8>, n: int) -> int
    decreases n,
{
    if n <= 0 || is_char_boundary(bytes, n) {
        n
    } else {
        cut_point(bytes, n - 1)
    }
}

/// The headline of a text. Where it takes more than 120 bytes it is cut to whole characters of
/// at most 119 bytes, and an ellipsis.
pub open spec fn trimmed_error(text: Seq<char>) -> Seq<char> {
    let line = headline(text);
    let bytes = encode_utf8(line);
    if bytes.len() > 120 {
        decode_utf8(bytes.take(cut_point(bytes, 119))).push('\u{2026}')
    } else {
        line
    }
}

/// The first line of a text, without the white space around it.
fn headline_of(text: &str) -> (line: &str)
    ensures
        line@ == headline(text@),
{
    let chars = chars_of(text);
    let end = find_char(&chars, '\n');
    proof {
        lemma_first_index(text@, '\n');
    }
    trim(text.substring_char(0, end))
}

/// RTSP error strings carry a lot of context that does not fit a status line.
pub fn trim_error(text: &str) -> (line: String)
    ensures
        line@ == trimmed_error(text@),
{
    let line = headline_of(text);
    let bytes = line.as_bytes();
    if bytes.len() > 120 {
        let ghost all = encode_utf8(line@);
        proof {
            vstd::utf8::encode_utf8_valid_utf8(line@);
        }
        let mut n: usize = 119;
        while n > 0 && !line.is_char_boundary(n)
            invariant
                n <= 119,
                all == encode_utf8(line@),
                cut_point(all, 119) == cut_point(all, n as int),
            ensures
                cut_point(all, 119) == n,
                n == 0 || is_char_boundary(all, n as int),
            decreases n,
        {
            n -= 1;
        }
        let (head, _) = line.split_at(n);
        proof {
            vstd::utf8::encode_utf8_decode_utf8(head@);
            assert(all.take(n as int) == encode_utf8(head@));
            reveal_strlit("\u{2026}");
            assert(head@ + "\u{2026}"@ == head@.push('\u{2026}'));
        }
        head.to_owned().concat("\u{2026}")
    } else {
        line.to_owned()
    }
}

/// The text without white space around it is a part of the text.
proof fn lemma_trimmed_part(s: Seq<char>)
    ensures
        exists|a: int, b: int|
            0 <= a <= b <= s.len() && trimmed(s) == #[trigger] s.subrange(a, b),
{
    lemma_trimmed_start_part(s);
    let a = choose|a: int| 0 <= a <= s.len() && trimmed_start(s) == #[trigger] s.skip(a);
    lemma_trimmed_end_part(s.skip(a));
    let b = choose|b: int|
        0 <= b <= s.skip(a).len() && trimmed_end(s.skip(a)) == #[trigger] s.skip(a).take(b);
    assert(s.skip(a).take(b) == s.subrange(a, a + b));
}

proof fn lemma_trimmed_start_part(s: Seq<char>)
    ensures
        exists|a: int| 0 <= a <= s.len() && trimmed_start(s) == #[trigger] s.skip(a),
    decreases s.len(),
{
    if s.len() > 0 && is_white_space(s[0]) {
        let rest = s.drop_first();
        lemma_trimmed_start_part(rest);
        let a = choose|a: int| 0 <= a <= rest.len() && trimmed_start(rest) == #[trigger] rest.skip(a);
        assert(rest.skip(a) == s.skip(a + 1));
    } else {
        assert(s.skip(0) == s);
    }
}

proof fn lemma_trimmed_end_part(s: Seq<char>)
    ensures
        exists|b: int| 0 <= b <= s.len() && trimmed_end(s) == #[trigger] s.take(b),
    decreases s.len(),
{
    if s.len() > 0 && is_white_space(s.last()) {
        let rest = s.drop_last();
        lemma_trimmed_end_part(rest);
        let b = choose|b: int| 0 <= b <= rest.len() && trimmed_end(rest) == #[trigger] rest.take(b);
        assert(rest.take(b) == s.take(b));
    } else {
        assert(s.take(s.len() as int) == s);
    }
}

/// Bytes up to the end of a character are the bytes of the characters up to there.
proof fn lemma_cut(line: Seq<char>, n: int)
    requires
        is_char_boundary(encode_utf8(line), n),
    ensures
        exists|k: int|
            0 <= k <= line.len() && encode_utf8(#[trigger] line.take(k)) == encode_utf8(line).take(n),
    decreases line.len(),
{
    let bytes = encode_utf8(line);
    vstd::utf8::encode_utf8_valid_utf8(line);
    if n == 0 {
        assert(line.take(0) == Seq::<char>::empty());
        assert(bytes.take(0) == Seq::<u8>::empty());
    } else if line.len() > 0 {
        let rest = line.drop_first();
        vstd::utf8::encode_utf8_first_scalar(line);
        let width = vstd::utf8::length_of_first_scalar(bytes);
        assert(vstd::utf8::pop_first_scalar(bytes) == encode_utf8(rest));
        assert(is_char_boundary(encode_utf8(rest), n - width));
        vstd::utf8::encode_utf8_valid_utf8(rest);
        lemma_cut(rest, n - width);
        let k = choose|k: int|
            0 <= k <= rest.len() && encode_utf8(#[trigger] rest.take(k)) == encode_utf8(rest).take(
                n - width,
            );
        let head = line.take(k + 1);
        assert(head.drop_first() == rest.take(k));
        assert(head[0] == line[0]);
        assert(0 <= n - width <= encode_utf8(rest).len()) by {
            reveal_with_fuel(is_char_boundary, 2);
        }
        assert(encode_utf8(head) == bytes.take(n));
    }
}

proof fn lemma_encode_push(s: Seq<char>, c: char)
    ensures
        encode_utf8(s.push(c)).len() == encode_utf8(s).len() + vstd::utf8::encode_scalar(
            c as u32,
        ).len(),
    decreases s.len(),
{
    let longer = s.push(c);
    if s.len() == 0 {
        assert(longer.drop_first() == Seq::<char>::empty());
        assert(encode_utf8(longer.drop_first()).len() == 0);
    } else {
        assert(longer.drop_first() == s.drop_first().push(c));
        assert(longer[0] == s[0]);
        lemma_encode_push(s.drop_first(), c);
    }
}

proof fn lemma_cut_point(bytes: Seq<u8>, n: int)
    requires
        vstd::utf8::valid_utf8(bytes),
        0 <= n,
    ensures
        0 <= cut_point(bytes, n) <= n,
        is_char_boundary(bytes, cut_point(bytes, n)),
        forall|m: int| cut_point(bytes, n) < m <= n ==> !is_char_boundary(bytes, m),
    decreases n,
{
    if n > 0 && !is_char_boundary(bytes, n) {
        lemma_cut_point(bytes, n - 1);
    }
}

/// The end of a character is a place where bytes can be cut.
proof fn lemma_character_ends(line: Seq<char>, k: int)
    requires
        0 <= k <= line.len(),
    ensures
        is_char_boundary(encode_utf8(line), encode_utf8(line.take(k)).len() as int),
        encode_utf8(line.take(k)).len() <= encode_utf8(line).len(),
    decreases line.len(),
{
    let bytes = encode_utf8(line);
    vstd::utf8::encode_utf8_valid_utf8(line);
    if k == 0 {
        assert(line.take(0) == Seq::<char>::empty());
    } else {
        let rest = line.drop_first();
        let head = line.take(k);
        assert(head.drop_first() == rest.take(k - 1));
        assert(head[0] == line[0]);
        lemma_character_ends(rest, k - 1);
        vstd::utf8::encode_utf8_first_scalar(line);
        vstd::utf8::encode_utf8_valid_utf8(rest);
        let width = vstd::utf8::length_of_first_scalar(bytes);
        assert(vstd::utf8::pop_first_scalar(bytes) == encode_utf8(rest));
        assert(encode_utf8(head).len() == width + encode_utf8(rest.take(k - 1)).len());
    }
}

/// More characters take more bytes.
proof fn lemma_longer(line: Seq<char>, k: int, m: int)
    requires
        0 <= k < m <= line.len(),
    ensures
        encode_utf8(line.take(k)).len() < encode_utf8(line.take(m)).len(),
    decreases m - k,
{
    lemma_encode_push(line.take(m - 1), line[m - 1]);
    assert(line.take(m - 1).push(line[m - 1]) == line.take(m));
    if k < m - 1 {
        lemma_longer(line, k, m - 1);
    }
}

/// A status line is one line, and takes at most 122 bytes: 119 and those of the ellipsis. It
/// is the headline, or the longest start of it that fits in 119 bytes, and an ellipsis.
pub proof fn law_status_line_is_short(text: Seq<char>)
    ensures
        encode_utf8(headline(text)).len() <= 120 ==> trimmed_error(text) == headline(text),
        encode_utf8(headline(text)).len() > 120 ==> exists|k: int|
            0 <= k <= headline(text).len() && trimmed_error(text) == (#[trigger] headline(
                text,
            ).take(k)).push('\u{2026}') && encode_utf8(headline(text).take(k)).len() <= 119 && forall|m: int|
                k < m <= headline(text).len() ==> encode_utf8(
                    #[trigger] headline(text).take(m),
                ).len() > 119,
        !trimmed_error(text).contains('\n'),
        encode_utf8(trimmed_error(text)).len() <= 122,
{
    let raw = text.take(first_index(text, '\n'));
    lemma_first_index(text, '\n');
    lemma_trimmed_part(raw);
    let line = headline(text);
    assert(!line.contains('\n'));
    let bytes = encode_utf8(line);
    if bytes.len() > 120 {
        vstd::utf8::encode_utf8_valid_utf8(line);
        lemma_cut_point(bytes, 119);
        let n = cut_point(bytes, 119);
        lemma_cut(line, n);
        let k = choose|k: int|
            0 <= k <= line.len() && encode_utf8(#[trigger] line.take(k)) == bytes.take(n);
        assert forall|m: int| k < m <= line.len() implies encode_utf8(
            #[trigger] line.take(m),
        ).len() > 119 by {
            lemma_character_ends(line, m);
            lemma_longer(line, k, m);
        }
        vstd::utf8::encode_utf8_decode_utf8(line.take(k));
        lemma_encode_push(line.take(k), '\u{2026}');
    }
}

/// Trimming takes off the white space at both ends and nothing else: what it cuts is all white
/// space, and what is left neither starts nor ends with any.
pub proof fn law_trim_cuts_white_space_only(s: Seq<char>) -> (ends: (int, int))
    ensures
        ({
            let (a, b) = ends;
            &&& 0 <= a <= b <= s.len()
            &&& trimmed(s) == s.subrange(a, b)
            &&& forall|i: int| 0 <= i < a ==> is_white_space(#[trigger] s[i])
            &&& forall|i: int| b <= i < s.len() ==> is_white_space(#[trigger] s[i])
            &&& a < b ==> !is_white_space(s[a]) && !is_white_space(s[b - 1])
        }),
{
    let a = lemma_trim_start(s);
    let rest = s.skip(a);
    let n = lemma_trim_end(rest);
    let b = a + n;
    assert(trimmed(s) =~= s.subrange(a, b));
    assert forall|i: int| b <= i < s.len() implies is_white_space(#[trigger] s[i]) by {
        assert(rest[i - a] == s[i]);
    }
    if a < b {
        assert(rest[0] == s[a]);
        assert(rest[n - 1] == s[b - 1]);
    }
    (a, b)
}

proof fn lemma_trim_start(s: Seq<char>) -> (a: int)
    ensures
        0 <= a <= s.len(),
        trimmed_start(s) == s.skip(a),
        forall|i: int| 0 <= i < a ==> is_white_space(#[trigger] s[i]),
        a < s.len() ==> !is_white_space(s[a]),
    decreases s.len(),
{
    if s.len() > 0 && is_white_space(s[0]) {
        let rest = s.drop_first();
        let a = lemma_trim_start(rest);
        assert(rest.skip(a) =~= s.skip(a + 1));
        assert forall|i: int| 0 <= i < a + 1 implies is_white_space(#[trigger] s[i]) by {
            if i > 0 {
                assert(rest[i - 1] == s[i]);
            }
        }
        a + 1
    } else {
        assert(s.skip(0) =~= s);
        0
    }
}

proof fn lemma_trim_end(s: Seq<char>) -> (n: int)
    ensures
        0 <= n <= s.len(),
        trimmed_end(s) == s.take(n),
        forall|i: int| n <= i < s.len() ==> is_white_space(#[trigger] s[i]),
        n > 0 ==> !is_white_space(s[n - 1]),
    decreases s.len(),
{
    if s.len() > 0 && is_white_space(s.last()) {
        let rest = s.drop_last();
        let n = lemma_trim_end(rest);
        assert(rest.take(n) =~= s.take(n));
        assert forall|i: int| n <= i < s.len() implies is_white_space(#[trigger] s[i]) by {
            if i < rest.len() {
                assert(rest[i] == s[i]);
            }
        }
        n
    } else {
        assert(s.take(s.len() as int) =~= s);
        s.len() as int
    }
}

/// Blanks, tabs and the ends of lines are white space; what is printed of ASCII is not.
pub proof fn law_blanks_are_white_space(c: char)
    ensures
        is_white_space(' '),
        is_white_space('\t'),
        is_white_space('\n'),
        is_white_space('\r'),
        '!' <= c <= '~' ==> !is_white_space(c),
{
}

/// The headline of a text is its first line, trimmed: what stands before the first line break,
/// or all of it where there is none.
pub proof fn law_headline_is_the_first_line(line: Seq<char>, rest: Seq<char>)
    requires
        !line.contains('\n'),
        rest.len() == 0 || rest[0] == '\n',
    ensures
        headline(line + rest) == trimmed(line),
{
    let text = line + rest;
    lemma_first_index(text, '\n');
    let at = first_index(text, '\n');
    if at < line.len() {
        assert(line[at] == text[at]);
        assert(line.contains('\n'));
    }
    if at > line.len() {
        assert(text[line.len() as int] == '\n');
    }
    assert(text.take(at) =~= line);
}

/// `c`, in lower case where it is one of the letters `A` to `Z`.
pub open spec fn ascii_lower(c: char) -> char {
    if 'A' <= c <= 'Z' {
        (c as u32 + 32) as char
    } else {
        c
    }
}

/// `s` with the letters `A` to `Z` in lower case.
pub open spec fn ascii_lowered(s: Seq<char>) -> Seq<char> {
    s.map_values(|c: char| ascii_lower(c))
}

/// A letter in lower case.
fn lower_letter(c: char) -> (text: &'static str)
    requires
        'A' <= c <= 'Z',
    ensures
        text@ == seq![ascii_lower(c)],
{
    let letters = "abcdefghijklmnopqrstuvwxyz";
    proof {
        reveal_strlit("abcdefghijklmnopqrstuvwxyz");
    }
    let at = (c as u32 - 'A' as u32) as usize;
    letters.substring_char(at, at + 1)
}

/// `s` with the letters `A` to `Z` in lower case and all else unchanged.
pub(crate) fn to_ascii_lowercase(s: &str) -> (lowered: String)
    ensures
        lowered@ == ascii_lowered(s@),
{
    let chars = chars_of(s);
    let mut lowered = String::new();
    let mut i: usize = 0;
    while i < chars.len()
        invariant
            i <= chars@.len(),
            chars@ == s@,
            lowered@ == ascii_lowered(s@.take(i as int)),
        decreases chars@.len() - i,
    {
        let c = chars[i];
        if 'A' <= c && c <= 'Z' {
            lowered.append(lower_letter(c));
        } else {
            lowered.append(s.substring_char(i, i + 1));
        }
        assert(lowered@ =~= ascii_lowered(s@.take(i + 1)));
        i += 1;
    }
    assert(s@.take(i as int) =~= s@);
    lowered
}

/// Whether `part` stands in `s` at that place.
pub open spec fn stands_at(s: Seq<char>, part: Seq<char>, at: int) -> bool {
    0 <= at && at + part.len() <= s.len() && s.subrange(at, at + part.len()) == part
}

/// Whether `part` stands in `s` somewhere.
pub open spec fn holds_text(s: Seq<char>, part: Seq<char>) -> bool {
    exists|at: int| #[trigger] stands_at(s, part, at)
}

/// Whether `part` stands in `s`.
pub fn contains_text(s: &str, part: &str) -> (found: bool)
    ensures
        found == holds_text(s@, part@),
{
    let len = chars_of(s).len();
    let width = chars_of(part).len();
    if width > len {
        return false;
    }
    let mut at: usize = 0;
    loop
        invariant
            len == s@.len(),
            width == part@.len(),
            width <= len,
            at <= len - width,
            forall|i: int| 0 <= i < at ==> !#[trigger] stands_at(s@, part@, i),
        decreases len - width - at,
    {
        if same_text(s.substring_char(at, at + width), part) {
            assert(stands_at(s@, part@, at as int));
            return true;
        }
        if at == len - width {
            return false;
        }
        at += 1;
    }
}

/// The digit that stands for `d`.
pub open spec fn digit(d: int) -> char {
    (48 + d) as char
}

/// `n` in decimal.
pub open spec fn decimal(n: int) -> Seq<char>
    decreases n,
{
    if n < 10 {
        seq![digit(n)]
    } else {
        decimal(n / 10).push(digit(n % 10))
    }
}

/// The number that digits spell.
pub open spec fn spelled(digits: Seq<char>) -> int
    decreases digits.len(),
{
    if digits.len() == 0 {
        0
    } else {
        spelled(digits.drop_last()) * 10 + (digits.last() as int - '0' as int)
    }
}

/// A number in decimal is digits that spell it, without a zero in front.
pub proof fn law_decimal_spells_the_number(n: int)
    requires
        n >= 0,
    ensures
        spelled(decimal(n)) == n,
        decimal(n).len() > 0,
        forall|i: int| 0 <= i < decimal(n).len() ==> '0' <= #[trigger] decimal(n)[i] <= '9',
        n > 0 ==> decimal(n)[0] != '0',
    decreases n,
{
    reveal_with_fuel(spelled, 2);
    if n < 10 {
        assert(decimal(n).drop_last() =~= Seq::<char>::empty());
    } else {
        law_decimal_spells_the_number(n / 10);
        assert(decimal(n).drop_last() =~= decimal(n / 10));
        assert(decimal(n)[0] == decimal(n / 10)[0]);
    }
}

/// A number in decimal.
pub fn decimal_text(n: u128) -> (text: String)
    ensures
        text@ == decimal(n as int),
    decreases n,
{
    let last = digit_text((n % 10) as u8);
    if n < 10 {
        last
    } else {
        let text = decimal_text(n / 10).concat(last.as_str());
        assert(text@ == decimal(n as int));
        text
    }
}

/// One digit.
fn digit_text(d: u8) -> (text: String)
    requires
        d < 10,
    ensures
        text@ == seq![digit(d as int)],
{
    let digits = "0123456789";
    proof {
        reveal_strlit("0123456789");
    }
    digits.substring_char(d as usize, d as usize + 1).to_owned()
}

} // verus!
