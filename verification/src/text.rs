//! Text helpers: decimal rendering, whitespace trimming and ASCII case folding,
//! all stated over the characters of a string.

use vstd::prelude::*;

verus! {

/// The decimal digit for `d`, which is below ten.
pub open spec fn digit_char(d: nat) -> char {
    if d == 0 {
        '0'
    } else if d == 1 {
        '1'
    } else if d == 2 {
        '2'
    } else if d == 3 {
        '3'
    } else if d == 4 {
        '4'
    } else if d == 5 {
        '5'
    } else if d == 6 {
        '6'
    } else if d == 7 {
        '7'
    } else if d == 8 {
        '8'
    } else {
        '9'
    }
}

/// `n` written in base ten, without leading zeros.
pub open spec fn decimal_text(n: nat) -> Seq<char>
    decreases n,
{
    if n < 10 {
        seq![digit_char(n)]
    } else {
        decimal_text(n / 10).push(digit_char(n % 10))
    }
}

fn digit_str(d: u64) -> (text: &'static str)
    requires
        d < 10,
    ensures
        text@ == seq![digit_char(d as nat)],
{
    proof {
        reveal_strlit("0");
        reveal_strlit("1");
        reveal_strlit("2");
        reveal_strlit("3");
        reveal_strlit("4");
        reveal_strlit("5");
        reveal_strlit("6");
        reveal_strlit("7");
        reveal_strlit("8");
        reveal_strlit("9");
    }
    let text: &'static str = if d == 0 {
        "0"
    } else if d == 1 {
        "1"
    } else if d == 2 {
        "2"
    } else if d == 3 {
        "3"
    } else if d == 4 {
        "4"
    } else if d == 5 {
        "5"
    } else if d == 6 {
        "6"
    } else if d == 7 {
        "7"
    } else if d == 8 {
        "8"
    } else {
        "9"
    };
    assert(text@ =~= seq![digit_char(d as nat)]);
    text
}

/// Renders `n` in base ten.
pub fn decimal(n: u64) -> (text: String)
    ensures
        text@ == decimal_text(n as nat),
    decreases n,
{
    if n < 10 {
        digit_str(n).to_owned()
    } else {
        let mut text = decimal(n / 10);
        text.append(digit_str(n % 10));
        assert(text@ =~= decimal_text((n / 10) as nat).push(digit_char((n % 10) as nat)));
        text
    }
}

/// Characters with the Unicode `White_Space` property.
pub open spec fn is_white_space(c: char) -> bool {
    let code = c as u32;
    ||| 0x09 <= code <= 0x0d
    ||| code == 0x20
    ||| code == 0x85
    ||| code == 0xa0
    ||| code == 0x1680
    ||| 0x2000 <= code <= 0x200a
    ||| code == 0x2028
    ||| code == 0x2029
    ||| code == 0x202f
    ||| code == 0x205f
    ||| code == 0x3000
}

/// `text` without its leading white space.
pub open spec fn trim_start(text: Seq<char>) -> Seq<char>
    decreases text.len(),
{
    if text.len() > 0 && is_white_space(text[0]) {
        trim_start(text.drop_first())
    } else {
        text
    }
}

/// `text` without its trailing white space.
pub open spec fn trim_end(text: Seq<char>) -> Seq<char>
    decreases text.len(),
{
    if text.len() > 0 && is_white_space(text.last()) {
        trim_end(text.drop_last())
    } else {
        text
    }
}

/// The lower-case form of an ASCII letter; any other character is itself.
pub open spec fn ascii_lower(c: char) -> char {
    if 'A' <= c && c <= 'Z' {
        ((c as u8) + 32u8) as char
    } else {
        c
    }
}

/// `text` trimmed at both ends, with its ASCII letters in lower case.
pub open spec fn folded(text: Seq<char>) -> Seq<char> {
    trim_end(trim_start(text)).map_values(|c: char| ascii_lower(c))
}

fn white_space(c: char) -> (b: bool)
    ensures
        b == is_white_space(c),
{
    let code: u32 = c as u32;
    (0x09 <= code && code <= 0x0d) || code == 0x20 || code == 0x85 || code == 0xa0 || code == 0x1680
        || (0x2000 <= code && code <= 0x200a) || code == 0x2028 || code == 0x2029 || code == 0x202f
        || code == 0x205f || code == 0x3000
}

fn lower(c: char) -> (r: char)
    ensures
        r == ascii_lower(c),
{
    if 'A' <= c && c <= 'Z' {
        (c as u8 + 32u8) as char
    } else {
        c
    }
}

fn chars_of(text: &str) -> (chars: Vec<char>)
    ensures
        chars@ == text@,
{
    let mut chars: Vec<char> = Vec::new();
    for c in it: text.chars()
        invariant
            it.seq() == text@,
            chars@ == text@.take(it.index() as int),
    {
        chars.push(c);
        assert(text@.take(it.index() + 1) =~= text@.take(it.index() as int).push(c));
    }
    assert(text@.take(text@.len() as int) =~= text@);
    chars
}

/// Trims `text` at both ends and puts its ASCII letters in lower case.
pub fn fold(text: &str) -> (chars: Vec<char>)
    ensures
        chars@ == folded(text@),
{
    let source = chars_of(text);
    let mut start: usize = 0;
    assert(source@.skip(0) =~= source@);
    while start < source.len() && white_space(source[start])
        invariant
            start <= source@.len(),
            trim_start(source@) == trim_start(source@.skip(start as int)),
        decreases source@.len() - start,
    {
        assert(source@.skip(start as int).drop_first() =~= source@.skip(start + 1));
        start = start + 1;
    }
    let ghost left = source@.skip(start as int);
    assert(trim_start(source@) == left);
    let mut end: usize = source.len();
    assert(source@.subrange(start as int, end as int) =~= left);
    while end > start && white_space(source[end - 1])
        invariant
            start <= end <= source@.len(),
            trim_end(left) == trim_end(source@.subrange(start as int, end as int)),
        decreases end,
    {
        assert(source@.subrange(start as int, end as int).drop_last() =~= source@.subrange(
            start as int,
            end - 1,
        ));
        end = end - 1;
    }
    let ghost middle = source@.subrange(start as int, end as int);
    assert(trim_end(left) == middle);
    let mut chars: Vec<char> = Vec::new();
    let mut i: usize = start;
    while i < end
        invariant
            start <= i <= end <= source@.len(),
            middle == source@.subrange(start as int, end as int),
            chars@.len() == i - start,
            forall|k: int| 0 <= k < chars@.len() ==> chars@[k] == ascii_lower(middle[k]),
        decreases end - i,
    {
        chars.push(lower(source[i]));
        i = i + 1;
    }
    assert(chars@ =~= middle.map_values(|c: char| ascii_lower(c)));
    chars
}

/// Whether `chars` spells `word`.
pub fn spells(chars: &Vec<char>, word: &str) -> (b: bool)
    ensures
        b == (chars@ == word@),
{
    let len: usize = word.unicode_len();
    if chars.len() != len {
        return false;
    }
    let mut i: usize = 0;
    while i < len
        invariant
            i <= len == word@.len() == chars@.len(),
            forall|k: int| 0 <= k < i ==> chars@[k] == word@[k],
        decreases len - i,
    {
        if chars[i] != word.get_char(i) {
            return false;
        }
        i = i + 1;
    }
    assert(chars@ =~= word@);
    true
}

/// Whether `text` is white space only.
pub open spec fn is_blank(text: Seq<char>) -> bool {
    forall|i: int| 0 <= i < text.len() ==> is_white_space(#[trigger] text[i])
}

proof fn lemma_trim_start_skips(before: Seq<char>, text: Seq<char>)
    requires
        is_blank(before),
    ensures
        trim_start(before + text) == trim_start(text),
    decreases before.len(),
{
    if before.len() == 0 {
        assert(before + text =~= text);
    } else {
        let all = before + text;
        assert(all[0] == before[0]);
        assert(all.drop_first() =~= before.drop_first() + text);
        lemma_trim_start_skips(before.drop_first(), text);
    }
}

proof fn lemma_trim_end_skips(text: Seq<char>, after: Seq<char>)
    requires
        is_blank(after),
    ensures
        trim_end(text + after) == trim_end(text),
    decreases after.len(),
{
    if after.len() == 0 {
        assert(text + after =~= text);
    } else {
        let all = text + after;
        assert(all.last() == after.last());
        assert(all.drop_last() =~= text + after.drop_last());
        lemma_trim_end_skips(text, after.drop_last());
    }
}

/// What follows the text changes nothing at its start, unless the text is blank.
proof fn lemma_trim_start_keeps_end(text: Seq<char>, after: Seq<char>)
    requires
        !is_blank(text),
    ensures
        trim_start(text + after) == trim_start(text) + after,
    decreases text.len(),
{
    if text.len() > 0 && is_white_space(text[0]) {
        let rest = text.drop_first();
        assert((text + after)[0] == text[0]);
        assert((text + after).drop_first() =~= rest + after);
        assert(!is_blank(rest)) by {
            let i = choose|i: int| 0 <= i < text.len() && !is_white_space(#[trigger] text[i]);
            assert(rest[i - 1] == text[i]);
        }
        lemma_trim_start_keeps_end(rest, after);
    } else {
        assert(text.len() > 0);
        assert((text + after)[0] == text[0]);
    }
}

proof fn lemma_blank_folds_to_nothing(text: Seq<char>)
    requires
        is_blank(text),
    ensures
        trim_start(text) == Seq::<char>::empty(),
{
    lemma_trim_start_skips(text, Seq::empty());
    assert(text + Seq::<char>::empty() =~= text);
}

/// White space around a text makes no difference to its folded form.
pub proof fn law_folding_ignores_surrounding_white_space(
    before: Seq<char>,
    text: Seq<char>,
    after: Seq<char>,
)
    requires
        is_blank(before),
        is_blank(after),
    ensures
        folded(before + text + after) == folded(text),
{
    assert(before + text + after =~= before + (text + after));
    lemma_trim_start_skips(before, text + after);
    if is_blank(text) {
        assert forall|i: int| 0 <= i < (text + after).len() implies is_white_space(
            #[trigger] (text + after)[i],
        ) by {
            if i < text.len() {
                assert((text + after)[i] == text[i]);
            } else {
                assert((text + after)[i] == after[i - text.len()]);
            }
        }
        lemma_blank_folds_to_nothing(text + after);
        lemma_blank_folds_to_nothing(text);
    } else {
        lemma_trim_start_keeps_end(text, after);
        lemma_trim_end_skips(trim_start(text), after);
    }
}

/// Whether two texts differ at most in the case of ASCII letters.
pub open spec fn same_but_case(a: Seq<char>, b: Seq<char>) -> bool {
    a.len() == b.len() && forall|i: int|
        0 <= i < a.len() ==> ascii_lower(#[trigger] a[i]) == ascii_lower(b[i])
}

proof fn lemma_case_of_white_space(a: char, b: char)
    requires
        ascii_lower(a) == ascii_lower(b),
    ensures
        is_white_space(a) == is_white_space(b),
{
}

proof fn lemma_trim_start_by_case(a: Seq<char>, b: Seq<char>)
    requires
        same_but_case(a, b),
    ensures
        same_but_case(trim_start(a), trim_start(b)),
    decreases a.len(),
{
    if a.len() > 0 {
        lemma_case_of_white_space(a[0], b[0]);
        if is_white_space(a[0]) {
            assert forall|i: int| 0 <= i < a.drop_first().len() implies ascii_lower(
                #[trigger] a.drop_first()[i],
            ) == ascii_lower(b.drop_first()[i]) by {
                assert(ascii_lower(a[i + 1]) == ascii_lower(b[i + 1]));
            }
            lemma_trim_start_by_case(a.drop_first(), b.drop_first());
        }
    }
}

proof fn lemma_trim_end_by_case(a: Seq<char>, b: Seq<char>)
    requires
        same_but_case(a, b),
    ensures
        same_but_case(trim_end(a), trim_end(b)),
    decreases a.len(),
{
    if a.len() > 0 {
        assert(ascii_lower(a[a.len() - 1]) == ascii_lower(b[a.len() - 1]));
        lemma_case_of_white_space(a.last(), b.last());
        if is_white_space(a.last()) {
            lemma_trim_end_by_case(a.drop_last(), b.drop_last());
        }
    }
}

/// The case of ASCII letters makes no difference to a text's folded form.
pub proof fn law_folding_ignores_case(a: Seq<char>, b: Seq<char>)
    requires
        same_but_case(a, b),
    ensures
        folded(a) == folded(b),
{
    lemma_trim_start_by_case(a, b);
    lemma_trim_end_by_case(trim_start(a), trim_start(b));
    let x = trim_end(trim_start(a));
    let y = trim_end(trim_start(b));
    assert forall|i: int| 0 <= i < x.len() implies #[trigger] folded(a)[i] == folded(b)[i] by {
        assert(ascii_lower(x[i]) == ascii_lower(y[i]));
    }
    assert(folded(a) =~= folded(b));
}

/// The number that decimal digits stand for.
pub open spec fn digits_value(digits: Seq<char>) -> int
    decreases digits.len(),
{
    if digits.len() == 0 {
        0
    } else {
        10 * digits_value(digits.drop_last()) + (digits.last() as u32 - 48)
    }
}

/// A number is written in the digits `0` to `9`, without a leading zero, and its digits read
/// as a number are the number.
pub proof fn law_decimals_read_back(n: nat)
    ensures
        digits_value(decimal_text(n)) == n,
        decimal_text(n).len() > 0,
        forall|i: int|
            0 <= i < decimal_text(n).len() ==> '0' <= #[trigger] decimal_text(n)[i] <= '9',
        n > 0 ==> decimal_text(n)[0] != '0',
    decreases n,
{
    if n < 10 {
        let text = decimal_text(n);
        assert(text.drop_last() =~= Seq::<char>::empty());
        assert(digits_value(text.drop_last()) == 0);
    } else {
        law_decimals_read_back(n / 10);
        let before = decimal_text(n / 10);
        let text = decimal_text(n);
        assert(text.drop_last() =~= before);
        assert(text.last() == digit_char(n % 10));
        assert(text[0] == before[0]);
        assert forall|i: int| 0 <= i < text.len() implies '0' <= #[trigger] text[i] <= '9' by {
            if i < before.len() {
                assert(text[i] == before[i]);
            }
        }
    }
}

} // verus!
