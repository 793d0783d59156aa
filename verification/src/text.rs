//! The lexical layer of the assembly language: lines, comments, separators,
//! words and operand tokens, over sequences of characters.

use vstd::prelude::*;

verus! {

broadcast use vstd::string::group_string_axioms;

/// The character that starts a comment.
pub const COMMENT_MARKER: char = '#';

/// The character that starts a remark which an optimizer left in a program:
/// it starts a comment as well.
pub const REMARK_MARKER: char = ';';

/// The character that ends a label declaration.
pub const LABEL_MARKER: char = ':';

/// The views of the texts in `v`, in order.
pub open spec fn texts(v: Seq<Vec<char>>) -> Seq<Seq<char>> {
    Seq::new(v.len(), |i: int| v[i]@)
}

/// The views of the strings in `v`, in order.
pub open spec fn string_views(v: Seq<String>) -> Seq<Seq<char>> {
    Seq::new(v.len(), |i: int| v[i]@)
}

/// `String::push` of std: appends one character to the string.
#[verifier::external_body]
fn push_char(s: &mut String, c: char)
    ensures
        final(s)@ == old(s)@.push(c),
{
    s.push(c);
}

/// The characters of a string.
pub fn chars_of(s: &str) -> (v: Vec<char>)
    ensures
        v@ == s@,
{
    let mut v: Vec<char> = Vec::new();
    for c in it: s.chars()
        invariant
            it.seq() == s@,
            v@ == it.seq().take(it.index()),
    {
        v.push(c);
        assert(v@ =~= it.seq().take(it.index() + 1));
    }
    assert(v@ =~= s@);
    v
}

/// The string that holds the characters.
pub fn string_of(chars: &Vec<char>) -> (s: String)
    ensures
        s@ == chars@,
{
    let mut s: String = String::new();
    let mut i: usize = 0;
    while i < chars.len()
        invariant
            i <= chars.len(),
            s@ == chars@.take(i as int),
        decreases chars.len() - i,
    {
        push_char(&mut s, chars[i]);
        i = i + 1;
        assert(s@ =~= chars@.take(i as int));
    }
    assert(chars@.take(i as int) =~= chars@);
    s
}

/// White space as Unicode defines it.
pub open spec fn is_space(c: char) -> bool {
    let u = c as u32;
    ||| 0x09 <= u <= 0x0D
    ||| u == 0x20
    ||| u == 0x85
    ||| u == 0xA0
    ||| u == 0x1680
    ||| 0x2000 <= u <= 0x200A
    ||| u == 0x2028
    ||| u == 0x2029
    ||| u == 0x202F
    ||| u == 0x205F
    ||| u == 0x3000
}

/// What parts words: white space, and the comma between operands.
pub open spec fn is_separator(c: char) -> bool {
    is_space(c) || c == ','
}

pub fn is_whitespace(c: char) -> (b: bool)
    ensures
        b == is_space(c),
{
    let u: u32 = c as u32;
    (0x09 <= u && u <= 0x0D) || u == 0x20 || u == 0x85 || u == 0xA0 || u == 0x1680 || (0x2000
        <= u && u <= 0x200A) || u == 0x2028 || u == 0x2029 || u == 0x202F || u == 0x205F || u
        == 0x3000
}

pub fn separates(c: char) -> (b: bool)
    ensures
        b == is_separator(c),
{
    is_whitespace(c) || c == ','
}

/// The lines of a source text: the stretches between line feeds. A text that
/// ends in a line feed has an empty last line.
pub open spec fn source_lines(src: Seq<char>) -> Seq<Seq<char>>
    decreases src.len(),
{
    if src.len() == 0 {
        seq![Seq::empty()]
    } else {
        let before = source_lines(src.drop_last());
        if src.last() == '\n' {
            before.push(Seq::empty())
        } else {
            before.drop_last().push(before.last().push(src.last()))
        }
    }
}

/// Splits a source text into its lines.
pub fn split_lines(src: &Vec<char>) -> (lines: Vec<Vec<char>>)
    ensures
        texts(lines@) == source_lines(src@),
{
    let mut done: Vec<Vec<char>> = Vec::new();
    let mut line: Vec<char> = Vec::new();
    let mut i: usize = 0;
    assert(texts(done@).push(line@) =~= source_lines(src@.take(0)));
    while i < src.len()
        invariant
            i <= src.len(),
            texts(done@).push(line@) == source_lines(src@.take(i as int)),
        decreases src.len() - i,
    {
        let c: char = src[i];
        proof {
            assert(src@.take(i + 1).drop_last() =~= src@.take(i as int));
            assert(texts(done@).push(line@).drop_last() =~= texts(done@));
        }
        if c == '\n' {
            let ghost before = texts(done@).push(line@);
            done.push(line);
            line = Vec::new();
            assert(texts(done@) =~= before);
        } else {
            let ghost before = texts(done@);
            let ghost had = line@;
            line.push(c);
            assert(texts(done@).push(line@) =~= before.push(had.push(c)));
        }
        i = i + 1;
    }
    assert(src@.take(i as int) =~= src@);
    let ghost before = texts(done@);
    let ghost last = line@;
    done.push(line);
    assert(texts(done@) =~= before.push(last));
    done
}

/// Whether the character starts a comment.
pub open spec fn is_comment_start(c: char) -> bool {
    c == COMMENT_MARKER || c == REMARK_MARKER
}

pub fn starts_comment(c: char) -> (b: bool)
    ensures
        b == is_comment_start(c),
{
    c == COMMENT_MARKER || c == REMARK_MARKER
}

/// Where the comment of a line starts: at the first character that starts a
/// comment, or at the end of the line if it has none.
pub open spec fn comment_start(line: Seq<char>) -> nat
    decreases line.len(),
{
    if line.len() == 0 || is_comment_start(line[0]) {
        0
    } else {
        1 + comment_start(line.skip(1))
    }
}

/// A line that starts with a comment says nothing.
pub proof fn lemma_comment_line_says_nothing(line: Seq<char>)
    requires
        line.len() > 0,
        is_comment_start(line[0]),
    ensures
        cleaned(line) == Seq::<char>::empty(),
{
    assert(line.take(0) =~= Seq::<char>::empty());
}

/// The text without the separators at its front.
pub open spec fn trim_front(text: Seq<char>) -> Seq<char>
    decreases text.len(),
{
    if text.len() > 0 && is_separator(text[0]) {
        trim_front(text.skip(1))
    } else {
        text
    }
}

/// The text without the separators at its back.
pub open spec fn trim_back(text: Seq<char>) -> Seq<char>
    decreases text.len(),
{
    if text.len() > 0 && is_separator(text.last()) {
        trim_back(text.drop_last())
    } else {
        text
    }
}

/// What a line says: the line without its comment and without the
/// separators around what is left.
pub open spec fn cleaned(line: Seq<char>) -> Seq<char> {
    trim_back(trim_front(line.take(comment_start(line) as int)))
}

/// Strips the comment and the surrounding separators from a line.
pub fn clean_line(line: &Vec<char>) -> (out: Vec<char>)
    ensures
        out@ == cleaned(line@),
{
    let mut end: usize = 0;
    assert(line@.skip(0) =~= line@);
    while end < line.len() && !starts_comment(line[end])
        invariant
            end <= line.len(),
            comment_start(line@) == end + comment_start(line@.skip(end as int)),
        decreases line.len() - end,
    {
        assert(line@.skip(end as int).skip(1) =~= line@.skip(end + 1));
        end = end + 1;
    }
    assert(comment_start(line@) == end);
    let ghost code = line@.take(end as int);
    let mut from: usize = 0;
    assert(code.skip(0) =~= code);
    while from < end && separates(line[from])
        invariant
            from <= end <= line.len(),
            code == line@.take(end as int),
            trim_front(code) == trim_front(code.skip(from as int)),
        decreases end - from,
    {
        assert(code.skip(from as int).skip(1) =~= code.skip(from + 1));
        from = from + 1;
    }
    let ghost front = code.skip(from as int);
    assert(trim_front(code) == front);
    let mut to: usize = end;
    assert(code.subrange(from as int, to as int) =~= front);
    while to > from && separates(line[to - 1])
        invariant
            from <= to <= end <= line.len(),
            code == line@.take(end as int),
            trim_back(front) == trim_back(code.subrange(from as int, to as int)),
        decreases to,
    {
        assert(code.subrange(from as int, to as int).drop_last() =~= code.subrange(
            from as int,
            to - 1,
        ));
        to = to - 1;
    }
    assert(trim_back(front) == code.subrange(from as int, to as int));
    let mut out: Vec<char> = Vec::new();
    let mut i: usize = from;
    while i < to
        invariant
            from <= i <= to <= end <= line.len(),
            out@ == line@.subrange(from as int, i as int),
        decreases to - i,
    {
        out.push(line[i]);
        i = i + 1;
        assert(out@ =~= line@.subrange(from as int, i as int));
    }
    assert(out@ =~= code.subrange(from as int, to as int));
    out
}

/// The words of the text read so far, and the word that is being read.
pub open spec fn scan_words(text: Seq<char>) -> (Seq<Seq<char>>, Seq<char>)
    decreases text.len(),
{
    if text.len() == 0 {
        (Seq::empty(), Seq::empty())
    } else {
        let (done, word) = scan_words(text.drop_last());
        if is_separator(text.last()) {
            if word.len() > 0 {
                (done.push(word), Seq::empty())
            } else {
                (done, word)
            }
        } else {
            (done, word.push(text.last()))
        }
    }
}

/// The words of a text: its longest stretches without a separator.
pub open spec fn words(text: Seq<char>) -> Seq<Seq<char>> {
    let (done, word) = scan_words(text);
    if word.len() > 0 {
        done.push(word)
    } else {
        done
    }
}

/// Splits a text into its words.
pub fn split_words(text: &Vec<char>) -> (out: Vec<Vec<char>>)
    ensures
        texts(out@) == words(text@),
{
    let mut done: Vec<Vec<char>> = Vec::new();
    let mut word: Vec<char> = Vec::new();
    let mut i: usize = 0;
    assert(texts(done@) =~= Seq::<Seq<char>>::empty());
    while i < text.len()
        invariant
            i <= text.len(),
            (texts(done@), word@) == scan_words(text@.take(i as int)),
        decreases text.len() - i,
    {
        let c: char = text[i];
        proof {
            assert(text@.take(i + 1).drop_last() =~= text@.take(i as int));
        }
        if separates(c) {
            if word.len() > 0 {
                let ghost before = texts(done@);
                let ghost had = word@;
                done.push(word);
                word = Vec::new();
                assert(texts(done@) =~= before.push(had));
            }
        } else {
            word.push(c);
        }
        i = i + 1;
    }
    assert(text@.take(i as int) =~= text@);
    if word.len() > 0 {
        let ghost before = texts(done@);
        let ghost had = word@;
        done.push(word);
        assert(texts(done@) =~= before.push(had));
    }
    done
}

/// The text without the label markers at its back.
pub open spec fn without_markers(text: Seq<char>) -> Seq<char>
    decreases text.len(),
{
    if text.len() > 0 && text.last() == LABEL_MARKER {
        without_markers(text.drop_last())
    } else {
        text
    }
}

/// Strips the label markers from the back of a text.
pub fn strip_markers(text: &Vec<char>) -> (out: Vec<char>)
    ensures
        out@ == without_markers(text@),
{
    let mut to: usize = text.len();
    assert(text@.take(to as int) =~= text@);
    while to > 0 && text[to - 1] == LABEL_MARKER
        invariant
            to <= text.len(),
            without_markers(text@) == without_markers(text@.take(to as int)),
        decreases to,
    {
        assert(text@.take(to as int).drop_last() =~= text@.take(to - 1));
        to = to - 1;
    }
    let mut out: Vec<char> = Vec::new();
    let mut i: usize = 0;
    while i < to
        invariant
            i <= to <= text.len(),
            out@ == text@.take(i as int),
        decreases to - i,
    {
        out.push(text[i]);
        i = i + 1;
        assert(out@ =~= text@.take(i as int));
    }
    out
}

/// Whether the character is a decimal digit.
pub open spec fn is_digit(c: char) -> bool {
    '0' <= c <= '9'
}

/// The value of a decimal digit.
pub open spec fn digit_value(c: char) -> nat {
    (c as u32 - '0' as u32) as nat
}

/// Whether the text consists of decimal digits only.
pub open spec fn all_digits(text: Seq<char>) -> bool {
    forall|i: int| 0 <= i < text.len() ==> is_digit(#[trigger] text[i])
}

/// The number that a text of decimal digits denotes.
pub open spec fn decimal_value(digits: Seq<char>) -> nat
    decreases digits.len(),
{
    if digits.len() == 0 {
        0
    } else {
        decimal_value(digits.drop_last()) * 10 + digit_value(digits.last())
    }
}

/// The digits of a number token: the token without a leading plus sign.
pub open spec fn unsigned_part(token: Seq<char>) -> Seq<char> {
    if token.len() > 0 && token[0] == '+' {
        token.skip(1)
    } else {
        token
    }
}

/// The immediate that a token denotes: a decimal integer from 0 to 255,
/// written with at least one digit, with or without a leading plus sign.
pub open spec fn immediate_of(token: Seq<char>) -> Option<u8> {
    let digits = unsigned_part(token);
    if digits.len() > 0 && all_digits(digits) && decimal_value(digits) <= 255 {
        Some(decimal_value(digits) as u8)
    } else {
        None
    }
}

/// The register that a token denotes: `R` and one digit from 0 to 3.
pub open spec fn register_of(token: Seq<char>) -> Option<u8> {
    if token.len() == 2 && token[0] == 'R' && '0' <= token[1] <= '3' {
        Some((token[1] as u32 - '0' as u32) as u8)
    } else {
        None
    }
}

/// Reads an immediate operand.
pub fn parse_value(token: &Vec<char>) -> (value: Option<u8>)
    ensures
        value == immediate_of(token@),
{
    let start: usize = if token.len() > 0 && token[0] == '+' {
        1
    } else {
        0
    };
    let ghost digits = unsigned_part(token@);
    assert(digits =~= token@.skip(start as int));
    if start == token.len() {
        return None;
    }
    let mut capped: u32 = 0;
    let mut i: usize = start;
    assert(digits.take(0) =~= Seq::<char>::empty());
    while i < token.len()
        invariant
            start <= i <= token.len(),
            digits == token@.skip(start as int),
            digits == unsigned_part(token@),
            all_digits(digits.take(i - start)),
            capped <= 256,
            capped == if decimal_value(digits.take(i - start)) <= 255 {
                decimal_value(digits.take(i - start))
            } else {
                256
            },
        decreases token.len() - i,
    {
        let c: char = token[i];
        assert(c == digits[i - start]);
        assert(digits.take(i - start + 1).drop_last() =~= digits.take(i - start));
        if !('0' <= c && c <= '9') {
            assert(!is_digit(digits[i - start]));
            return None;
        }
        let d: u32 = c as u32 - '0' as u32;
        let next: u32 = capped * 10 + d;
        capped = if next > 255 {
            256
        } else {
            next
        };
        i = i + 1;
    }
    assert(digits.take(i - start) =~= digits);
    if capped <= 255 {
        Some(capped as u8)
    } else {
        None
    }
}

/// Reads a register operand.
pub fn parse_register(token: &Vec<char>) -> (reg: Option<u8>)
    ensures
        reg == register_of(token@),
        reg matches Some(r) ==> r < 4,
{
    if token.len() == 2 && token[0] == 'R' && '0' <= token[1] && token[1] <= '3' {
        let r: u32 = token[1] as u32 - '0' as u32;
        Some(r as u8)
    } else {
        None
    }
}

} // verus!
