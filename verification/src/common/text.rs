//! Characters, byte offsets and the small string operations the stages share.
//!
//! Source positions are byte offsets into a UTF-8 line, while the scanner
//! walks the line one `char` at a time.  The functions here tie the two
//! together over `vstd`'s model of UTF-8.

use vstd::prelude::*;
use vstd::string::*;
use vstd::utf8::*;

verus! {

/// Number of bytes the UTF-8 encoding of `c` takes.
pub open spec fn char_width(c: char) -> nat {
    encode_scalar(c as u32).len()
}

/// Number of bytes the UTF-8 encoding of `s` takes.
pub open spec fn byte_len(s: Seq<char>) -> nat {
    encode_utf8(s).len()
}

/// The bytes of `line` that start at byte `offset` are exactly the encoding of `lexeme`.
pub open spec fn lexeme_at(line: Seq<char>, offset: nat, lexeme: Seq<char>) -> bool {
    &&& offset + byte_len(lexeme) <= byte_len(line)
    &&& encode_utf8(line).subrange(offset as int, (offset + byte_len(lexeme)) as int)
        == encode_utf8(lexeme)
}

/// Every character takes between one and four bytes; ASCII takes one.
pub proof fn lemma_char_width(c: char)
    ensures
        1 <= char_width(c) <= 4,
        (c as u32) < 0x80 ==> char_width(c) == 1,
{
}

/// Encoding distributes over concatenation.
pub proof fn lemma_encode_concat(a: Seq<char>, b: Seq<char>)
    ensures
        encode_utf8(a + b) == encode_utf8(a) + encode_utf8(b),
    decreases a.len(),
{
    if a.len() == 0 {
        assert(a + b =~= b);
    } else {
        lemma_encode_concat(a.drop_first(), b);
        assert((a + b).drop_first() =~= a.drop_first() + b);
    }
}

/// The byte length of a concatenation is the sum of the byte lengths.
pub proof fn lemma_byte_len_concat(a: Seq<char>, b: Seq<char>)
    ensures
        byte_len(a + b) == byte_len(a) + byte_len(b),
{
    lemma_encode_concat(a, b);
}

/// One more character lengthens a prefix by that character's width.
pub proof fn lemma_byte_len_step(s: Seq<char>, i: int)
    requires
        0 <= i < s.len(),
    ensures
        byte_len(s.take(i + 1)) == byte_len(s.take(i)) + char_width(s[i]),
{
    let one = seq![s[i]];
    assert(s.take(i + 1) =~= s.take(i) + one);
    lemma_byte_len_concat(s.take(i), one);
    assert(encode_utf8(one) =~= encode_scalar(s[i] as u32)) by {
        reveal_with_fuel(encode_utf8, 2);
    }
}

/// A prefix is no longer in bytes than the whole, and no shorter in bytes than in characters.
pub proof fn lemma_byte_len_prefix(s: Seq<char>, i: int)
    requires
        0 <= i <= s.len(),
    ensures
        i <= byte_len(s.take(i)) <= byte_len(s),
    decreases i,
{
    assert(s =~= s.take(i) + s.skip(i));
    lemma_byte_len_concat(s.take(i), s.skip(i));
    if i > 0 {
        lemma_byte_len_prefix(s, i - 1);
        lemma_byte_len_step(s, i - 1);
    } else {
        assert(s.take(0) =~= Seq::<char>::empty());
    }
}

/// Prefix byte lengths grow with the prefix.
pub proof fn lemma_byte_len_monotone(s: Seq<char>, i: int, j: int)
    requires
        0 <= i <= j <= s.len(),
    ensures
        byte_len(s.take(i)) + (j - i) <= byte_len(s.take(j)),
        byte_len(s.take(j)) == byte_len(s.take(i)) + byte_len(s.subrange(i, j)),
{
    assert(s.take(j) =~= s.take(i) + s.subrange(i, j));
    lemma_byte_len_concat(s.take(i), s.subrange(i, j));
    let part = s.subrange(i, j);
    lemma_byte_len_prefix(part, part.len() as int);
}

/// One more character lengthens a run by that character's width.
pub proof fn lemma_byte_len_range_step(s: Seq<char>, i: int, j: int)
    requires
        0 <= i <= j < s.len(),
    ensures
        byte_len(s.subrange(i, i)) == 0,
        byte_len(s.subrange(i, j + 1)) == byte_len(s.subrange(i, j)) + char_width(s[j]),
{
    let part = s.subrange(i, j + 1);
    lemma_byte_len_step(part, j - i);
    assert(part.take(j - i + 1) =~= part);
    assert(part.take(j - i) =~= s.subrange(i, j));
}

/// A run of characters of a line sits at the byte offset of the prefix before it.
pub proof fn lemma_lexeme_at(line: Seq<char>, i: int, j: int)
    requires
        0 <= i <= j <= line.len(),
    ensures
        lexeme_at(line, byte_len(line.take(i)), line.subrange(i, j)),
{
    let head = line.take(i);
    let mid = line.subrange(i, j);
    let tail = line.skip(j);
    assert(line =~= head + mid + tail);
    lemma_encode_concat(head, mid);
    lemma_encode_concat(head + mid, tail);
    let bytes = encode_utf8(head) + encode_utf8(mid) + encode_utf8(tail);
    assert(bytes.subrange(byte_len(head) as int, (byte_len(head) + byte_len(mid)) as int)
        =~= encode_utf8(mid));
}

/// Character sequences with the same encoding are the same.
pub proof fn lemma_encode_injective(a: Seq<char>, b: Seq<char>)
    requires
        encode_utf8(a) == encode_utf8(b),
    ensures
        a == b,
{
    encode_utf8_decode_utf8(a);
    encode_utf8_decode_utf8(b);
}

/// The encoding of a prefix of characters ends at a character boundary.
pub proof fn lemma_prefix_boundary(s: Seq<char>, i: int)
    requires
        0 <= i <= s.len(),
    ensures
        is_char_boundary(encode_utf8(s), byte_len(s.take(i)) as int),
    decreases i,
{
    encode_utf8_valid_utf8(s);
    if i == 0 {
        assert(s.take(0) =~= Seq::<char>::empty());
    } else {
        let bytes = encode_utf8(s);
        let rest = s.drop_first();
        encode_utf8_first_scalar(s);
        assert(pop_first_scalar(bytes) =~= encode_utf8(rest));
        lemma_prefix_boundary(rest, i - 1);
        assert(s.take(i).drop_first() =~= rest.take(i - 1));
    }
}

/// The characters of `s`, in order.
pub fn chars_of(s: &str) -> (v: Vec<char>)
    ensures
        v@ == s@,
{
    let mut v: Vec<char> = Vec::new();
    let it = s.chars();
    for c in iter: it
        invariant
            v@ == iter.seq().take(iter.index() as int),
            iter.seq() == s@,
    {
        v.push(c);
    }
    v
}

/// Number of bytes `c` takes in UTF-8.
pub fn utf8_width(c: char) -> (n: usize)
    ensures
        n == char_width(c),
{
    let code: u32 = c as u32;
    if code < 0x80 {
        1
    } else if code < 0x800 {
        2
    } else if code < 0x10000 {
        3
    } else {
        4
    }
}

/// Length of `s` in bytes.
pub fn byte_length(s: &str) -> (n: usize)
    ensures
        n == byte_len(s@),
{
    s.as_bytes().len()
}

/// The part of `text` between two byte offsets: `from` is where character
/// `i` starts and `to` is where character `j` starts.
pub(crate) fn slice<'a>(
    text: &'a str,
    from: usize,
    to: usize,
    Ghost(i): Ghost<int>,
    Ghost(j): Ghost<int>,
) -> (part: &'a str)
    requires
        0 <= i <= j <= text@.len(),
        from == byte_len(text@.take(i)),
        to == byte_len(text@.take(j)),
    ensures
        part@ == text@.subrange(i, j),
{
    proof {
        lemma_prefix_boundary(text@, j);
    }
    let (head, _) = text.split_at(to);
    proof {
        let whole = text@.take(j) + text@.skip(j);
        assert(whole =~= text@);
        lemma_encode_concat(text@.take(j), text@.skip(j));
        assert(encode_utf8(text@).subrange(0, to as int) =~= encode_utf8(text@.take(j)));
        lemma_encode_injective(head@, text@.take(j));
        assert(head@.take(i) =~= text@.take(i));
        lemma_prefix_boundary(head@, i);
    }
    let (_, part) = head.split_at(from);
    proof {
        let bytes = encode_utf8(head@);
        assert(head@ =~= head@.take(i) + text@.subrange(i, j));
        lemma_encode_concat(head@.take(i), text@.subrange(i, j));
        assert(bytes.subrange(from as int, bytes.len() as int) =~= encode_utf8(
            text@.subrange(i, j),
        ));
        lemma_encode_injective(part@, text@.subrange(i, j));
    }
    part
}

/// Whether two strings hold the same characters.
pub fn str_eq(a: &str, b: &str) -> (same: bool)
    ensures
        same == (a@ == b@),
{
    let x = chars_of(a);
    let y = chars_of(b);
    if x.len() != y.len() {
        return false;
    }
    let mut i: usize = 0;
    while i < x.len()
        invariant
            x@ == a@,
            y@ == b@,
            x.len() == y.len(),
            i <= x.len(),
            x@.take(i as int) == y@.take(i as int),
        decreases x.len() - i,
    {
        if x[i] != y[i] {
            return false;
        }
        i += 1;
    }
    assert(x@ =~= x@.take(i as int));
    assert(y@ =~= y@.take(i as int));
    true
}

/// `0` to `9`.
pub open spec fn is_digit(c: char) -> bool {
    '0' <= c && c <= '9'
}

/// The number a digit stands for.
pub open spec fn digit_value(c: char) -> nat {
    (c as int - '0' as int) as nat
}

/// Whether `s` holds digits only.
pub open spec fn all_digits(s: Seq<char>) -> bool {
    forall|i: int| 0 <= i < s.len() ==> is_digit(#[trigger] s[i])
}

/// The number that a string of digits denotes in base ten; zero for the empty string.
pub open spec fn digits_value(s: Seq<char>) -> nat
    decreases s.len(),
{
    if s.len() == 0 {
        0
    } else {
        digits_value(s.drop_last()) * 10 + digit_value(s.last())
    }
}

/// A digit string's value does not shrink when digits are appended.
pub proof fn lemma_digits_prefix(s: Seq<char>, k: int)
    requires
        0 <= k <= s.len(),
    ensures
        digits_value(s.take(k)) <= digits_value(s),
    decreases s.len() - k,
{
    if k < s.len() {
        lemma_digits_prefix(s, k + 1);
        assert(s.take(k + 1).drop_last() =~= s.take(k));
    } else {
        assert(s.take(k) =~= s);
    }
}

/// The character for a digit.
pub open spec fn digit_char(d: nat) -> char {
    (d + 48) as char
}

/// `n` written in base ten.
pub open spec fn decimal(n: nat) -> Seq<char>
    decreases n,
{
    if n < 10 {
        seq![digit_char(n)]
    } else {
        decimal(n / 10).push(digit_char(n % 10))
    }
}

/// The one-character string for a digit.
fn digit_str(d: usize) -> (text: &'static str)
    requires
        d < 10,
    ensures
        text@ == seq![digit_char(d as nat)],
{
    proof {
        reveal_strlit("0");
        reveal_strlit("1");
        reveal_strlit("2");
        reveal_strlit("3");
        reveal_strlit("4");
        reveal_strlit("5");
        reveal_strlit("6");
        reveal_strlit("7");
        reveal_strlit("8");
        reveal_strlit("9");
    }
    let text = if d == 0 {
        "0"
    } else if d == 1 {
        "1"
    } else if d == 2 {
        "2"
    } else if d == 3 {
        "3"
    } else if d == 4 {
        "4"
    } else if d == 5 {
        "5"
    } else if d == 6 {
        "6"
    } else if d == 7 {
        "7"
    } else if d == 8 {
        "8"
    } else {
        "9"
    };
    text
}

/// Appends `n`, written in base ten.
pub fn push_decimal(text: &mut String, n: usize)
    ensures
        final(text)@ == old(text)@ + decimal(n as nat),
    decreases n,
{
    if n >= 10 {
        push_decimal(text, n / 10);
    }
    text.append(digit_str(n % 10));
}

/// `s` with every occurrence of `sep` taken out.
pub open spec fn without(s: Seq<char>, sep: char) -> Seq<char>
    decreases s.len(),
{
    if s.len() == 0 {
        Seq::empty()
    } else if s.last() == sep {
        without(s.drop_last(), sep)
    } else {
        without(s.drop_last(), sep).push(s.last())
    }
}

/// How often `c` occurs in `s`.
pub open spec fn count_of(s: Seq<char>, c: char) -> nat
    decreases s.len(),
{
    if s.len() == 0 {
        0
    } else if s.last() == c {
        count_of(s.drop_last(), c) + 1
    } else {
        count_of(s.drop_last(), c)
    }
}

/// What is left when a separator is taken out are the other characters:
/// a property of every character that is no separator holds of every
/// character that is left.
pub proof fn lemma_without_chars(s: Seq<char>, sep: char, holds: spec_fn(char) -> bool)
    requires
        forall|i: int| 0 <= i < s.len() && s[i] != sep ==> holds(#[trigger] s[i]),
    ensures
        forall|i: int| 0 <= i < without(s, sep).len() ==> holds(#[trigger] without(s, sep)[i]),
    decreases s.len(),
{
    if s.len() > 0 {
        let rest = s.drop_last();
        assert forall|i: int| 0 <= i < rest.len() && rest[i] != sep implies holds(
            #[trigger] rest[i],
        ) by {
            assert(rest[i] == s[i]);
        }
        lemma_without_chars(rest, sep, holds);
        let kept = without(s, sep);
        assert forall|i: int| 0 <= i < kept.len() implies holds(#[trigger] kept[i]) by {
            if s.last() == sep {
                assert(kept[i] == without(rest, sep)[i]);
            } else if i < kept.len() - 1 {
                assert(kept[i] == without(rest, sep)[i]);
            } else {
                assert(kept[i] == s[s.len() - 1]);
            }
        }
    }
}

/// A first character that is no separator stays first.
pub proof fn lemma_without_first(s: Seq<char>, sep: char)
    requires
        s.len() > 0,
        s[0] != sep,
    ensures
        without(s, sep).len() > 0,
        without(s, sep)[0] == s[0],
    decreases s.len(),
{
    if s.len() > 1 {
        lemma_without_first(s.drop_last(), sep);
    } else {
        assert(without(s.drop_last(), sep) =~= Seq::<char>::empty());
    }
}

/// Taking out a separator changes the count of no other character.
pub proof fn lemma_without_count(s: Seq<char>, sep: char, c: char)
    requires
        c != sep,
    ensures
        count_of(without(s, sep), c) == count_of(s, c),
    decreases s.len(),
{
    if s.len() > 0 {
        lemma_without_count(s.drop_last(), sep, c);
        if s.last() != sep {
            assert(without(s, sep).drop_last() =~= without(s.drop_last(), sep));
        }
    }
}

/// A character is counted exactly if it occurs, and never more often than
/// there are characters; where another character occurs too, less often.
pub proof fn lemma_count_of(s: Seq<char>, c: char)
    ensures
        count_of(s, c) > 0 <==> s.contains(c),
        count_of(s, c) <= s.len(),
        (exists|i: int| 0 <= i < s.len() && s[i] != c) ==> count_of(s, c) < s.len(),
    decreases s.len(),
{
    if s.len() > 0 {
        let rest = s.drop_last();
        lemma_count_of(rest, c);
        if rest.contains(c) {
            let i = choose|i: int| 0 <= i < rest.len() && rest[i] == c;
        }
        if s.last() == c {
            assert(s[s.len() - 1] == c);
        }
        if s.contains(c) && s.last() != c {
            let i = choose|i: int| 0 <= i < s.len() && s[i] == c;
            assert(rest[i] == c);
        }
        if exists|i: int| 0 <= i < s.len() && s[i] != c {
            let i = choose|i: int| 0 <= i < s.len() && s[i] != c;
            if i < rest.len() {
                assert(rest[i] != c);
            }
        }
    }
}

/// A copy of `text` without the separator `_`.
pub fn strip_separators(text: &str) -> (stripped: String)
    ensures
        stripped@ == without(text@, '_'),
{
    let chars = chars_of(text);
    let total = byte_length(text);
    let mut stripped = String::new();
    let mut i: usize = 0;
    let mut offset: usize = 0;
    while i < chars.len()
        invariant
            chars@ == text@,
            total == byte_len(chars@),
            i <= chars.len(),
            offset == byte_len(chars@.take(i as int)),
            stripped@ == without(chars@.take(i as int), '_'),
        decreases chars.len() - i,
    {
        proof {
            lemma_byte_len_step(chars@, i as int);
            lemma_byte_len_prefix(chars@, i + 1);
            assert(chars@.take(i + 1).drop_last() =~= chars@.take(i as int));
        }
        let width = utf8_width(chars[i]);
        if chars[i] != '_' {
            let one = slice(text, offset, offset + width, Ghost(i as int), Ghost(i + 1));
            stripped.append(one);
        }
        offset = offset + width;
        i += 1;
    }
    assert(chars@.take(i as int) =~= chars@);
    stripped
}

/// `unit` written `n` times over.
pub open spec fn repeated(unit: Seq<char>, n: nat) -> Seq<char>
    decreases n,
{
    if n == 0 {
        Seq::empty()
    } else {
        repeated(unit, (n - 1) as nat) + unit
    }
}

/// Appends `unit`, `n` times over.
pub fn push_repeated(text: &mut String, unit: &str, n: usize)
    ensures
        final(text)@ == old(text)@ + repeated(unit@, n as nat),
{
    let mut i: usize = 0;
    while i < n
        invariant
            i <= n,
            text@ == old(text)@ + repeated(unit@, i as nat),
        decreases n - i,
    {
        text.append(unit);
        i += 1;
    }
}

/// Where the line that starts at `i` ends: at the first newline from `i`
/// on, or at the end of the text.
pub open spec fn line_end(text: Seq<char>, i: int) -> int
    decreases text.len() - i,
{
    if 0 <= i < text.len() && text[i] != '\n' {
        line_end(text, i + 1)
    } else {
        i
    }
}

/// A line ends at or behind its start, within the text.
pub proof fn lemma_line_end(text: Seq<char>, i: int)
    requires
        0 <= i <= text.len(),
    ensures
        i <= line_end(text, i) <= text.len(),
        line_end(text, i) < text.len() ==> text[line_end(text, i)] == '\n',
    decreases text.len() - i,
{
    if i < text.len() && text[i] != '\n' {
        lemma_line_end(text, i + 1);
    }
}

/// The line between `start` and `end`: what stands there, without the
/// carriage return before the newline that ends it, if it is ended so.
pub open spec fn line_between(text: Seq<char>, start: int, end: int) -> Seq<char> {
    if end < text.len() && start < end && text[end - 1] == '\r' {
        text.subrange(start, end - 1)
    } else {
        text.subrange(start, end)
    }
}

/// The lines of `text` from position `i` on.
pub open spec fn lines_from(text: Seq<char>, i: int) -> Seq<Seq<char>>
    decreases text.len() - i,
{
    if 0 <= i < text.len() {
        let end = line_end(text, i);
        proof {
            lemma_line_end(text, i);
        }
        let next = if end < text.len() {
            end + 1
        } else {
            end
        };
        seq![line_between(text, i, end)] + lines_from(text, next)
    } else {
        Seq::empty()
    }
}

/// The lines of a text.  A line ends at a newline, or at a carriage return
/// and a newline, neither of which belongs to it; the last line needs no
/// such end, and a text that ends in a newline has no empty line behind it.
pub fn src_by_lines(source: &String) -> (lines: Vec<String>)
    ensures
        lines.deep_view() == lines_from(source@, 0),
{
    let text = source.as_str();
    let chars = chars_of(text);
    let total = byte_length(text);
    let mut lines: Vec<String> = Vec::new();
    let mut start: usize = 0;
    let mut start_offset: usize = 0;
    while start < chars.len()
        invariant
            chars@ == text@,
            text@ == source@,
            total == byte_len(chars@),
            start <= chars.len(),
            start_offset == byte_len(chars@.take(start as int)),
            lines.deep_view() + lines_from(chars@, start as int) == lines_from(chars@, 0),
        decreases chars.len() - start,
    {
        let mut end = start;
        let mut end_offset = start_offset;
        while end < chars.len() && chars[end] != '\n'
            invariant
                total == byte_len(chars@),
                start <= end <= chars.len(),
                end_offset == byte_len(chars@.take(end as int)),
                line_end(chars@, end as int) == line_end(chars@, start as int),
            decreases chars.len() - end,
        {
            proof {
                lemma_byte_len_step(chars@, end as int);
                lemma_byte_len_prefix(chars@, end + 1);
            }
            end_offset = end_offset + utf8_width(chars[end]);
            end += 1;
        }
        let cut = end < chars.len() && start < end && chars[end - 1] == '\r';
        proof {
            if cut {
                lemma_byte_len_step(chars@, end - 1);
            }
            if end < chars.len() {
                lemma_byte_len_step(chars@, end as int);
                lemma_byte_len_prefix(chars@, end + 1);
            }
        }
        let stop = if cut {
            end - 1
        } else {
            end
        };
        let stop_offset = if cut {
            end_offset - 1
        } else {
            end_offset
        };
        let line = slice(
            text,
            start_offset,
            stop_offset,
            Ghost(start as int),
            Ghost(stop as int),
        ).to_owned();
        lines.push(line);
        if end < chars.len() {
            start = end + 1;
            start_offset = end_offset + 1;
        } else {
            start = end;
            start_offset = end_offset;
        }
    }
    lines
}

} // verus!
