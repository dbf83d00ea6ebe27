//! Text handling for the tokenizers: characters, words and decimal numbers.

use vstd::prelude::*;

verus! {

/// `String::push` appends one character to the end of a string.
pub assume_specification[ String::push ](s: &mut String, c: char)
    ensures
        final(s)@ == old(s)@.push(c),
;

/// The characters of a string, in order.
pub fn chars_of(text: &str) -> (r: Vec<char>)
    ensures
        r@ == text@,
{
    let mut out: Vec<char> = Vec::new();
    for c in it: text.chars()
        invariant
            out@ =~= it.seq().take(it.index() as int),
            it.seq() == text@,
    {
        out.push(c);
    }
    out
}

/// Whether `a` spells out `text`.
pub fn spells(a: &[char], text: &str) -> (r: bool)
    ensures
        r == (a@ == text@),
{
    let b: Vec<char> = chars_of(text);
    if a.len() != b.len() {
        return false;
    }
    let mut i: usize = 0;
    while i < a.len()
        invariant
            i <= a.len(),
            a.len() == b.len(),
            b@ == text@,
            forall|j: int| 0 <= j < i ==> a@[j] == b@[j],
        decreases a.len() - i,
    {
        if a[i] != b[i] {
            return false;
        }
        i = i + 1;
    }
    assert(a@ =~= b@);
    true
}

/// Appends all characters of `more` to `text`.
pub fn push_chars(text: &mut String, more: &[char])
    ensures
        final(text)@ == old(text)@ + more@,
{
    let mut i: usize = 0;
    while i < more.len()
        invariant
            i <= more.len(),
            text@ == old(text)@ + more@.take(i as int),
        decreases more.len() - i,
    {
        text.push(more[i]);
        i = i + 1;
    }
}

/// The characters with Unicode's `White_Space` property.
pub open spec fn white_space(c: char) -> bool {
    let n = c as int;
    ||| 0x9 <= n <= 0xd
    ||| n == 0x20
    ||| n == 0x85
    ||| n == 0xa0
    ||| n == 0x1680
    ||| 0x2000 <= n <= 0x200a
    ||| n == 0x2028
    ||| n == 0x2029
    ||| n == 0x202f
    ||| n == 0x205f
    ||| n == 0x3000
}

pub fn is_white_space(c: char) -> (r: bool)
    ensures
        r == white_space(c),
{
    let n: u32 = c as u32;
    (0x9 <= n && n <= 0xd) || n == 0x20 || n == 0x85 || n == 0xa0 || n == 0x1680 || (0x2000 <= n
        && n <= 0x200a) || n == 0x2028 || n == 0x2029 || n == 0x202f || n == 0x205f || n == 0x3000
}

/// A word: one or more characters, none of them white space.
pub open spec fn is_word(w: Seq<char>) -> bool {
    w.len() > 0 && forall|i: int| 0 <= i < w.len() ==> !white_space(#[trigger] w[i])
}

/// How many characters stand before the first white space of `s`.
pub open spec fn word_len(s: Seq<char>) -> nat
    decreases s.len(),
{
    if s.len() == 0 || white_space(s[0]) {
        0
    } else {
        1 + word_len(s.skip(1))
    }
}

/// The white-space-separated words of `s`, in order.
pub open spec fn words(s: Seq<char>) -> Seq<Seq<char>>
    decreases s.len(),
{
    if s.len() == 0 {
        Seq::empty()
    } else if white_space(s[0]) {
        words(s.skip(1))
    } else {
        let n = word_len(s);
        if 0 < n <= s.len() {
            seq![s.take(n as int)] + words(s.skip(n as int))
        } else {
            Seq::empty()
        }
    }
}

/// `word_len` stops at the first white space or at the end.
proof fn lemma_word_len(s: Seq<char>)
    ensures
        word_len(s) <= s.len(),
        forall|i: int| 0 <= i < word_len(s) ==> !white_space(#[trigger] s[i]),
        word_len(s) < s.len() ==> white_space(s[word_len(s) as int]),
        s.len() > 0 && !white_space(s[0]) ==> word_len(s) > 0,
    decreases s.len(),
{
    if s.len() > 0 && !white_space(s[0]) {
        let rest = s.skip(1);
        lemma_word_len(rest);
        assert forall|i: int| 0 <= i < word_len(s) implies !white_space(#[trigger] s[i]) by {
            if i > 0 {
                assert(rest[i - 1] == s[i]);
            }
        }
    }
}

/// A run of `n` characters up to white space or the end is what `word_len` counts.
proof fn lemma_word_len_is(s: Seq<char>, n: nat)
    requires
        n <= s.len(),
        forall|i: int| 0 <= i < n ==> !white_space(#[trigger] s[i]),
        n < s.len() ==> white_space(s[n as int]),
    ensures
        word_len(s) == n,
{
    lemma_word_len(s);
}

/// The words of a text are words.
pub proof fn words_are_words(s: Seq<char>)
    ensures
        forall|i: int| 0 <= i < words(s).len() ==> is_word(#[trigger] words(s)[i]),
    decreases s.len(),
{
    if s.len() > 0 && white_space(s[0]) {
        words_are_words(s.skip(1));
        assert(words(s) == words(s.skip(1)));
    } else if s.len() > 0 {
        lemma_word_len(s);
        let n = word_len(s);
        words_are_words(s.skip(n as int));
        assert(words(s) == seq![s.take(n as int)] + words(s.skip(n as int)));
    }
}

/// Splits a text at white space into words.
pub fn split_words(text: &[char]) -> (r: Vec<Vec<char>>)
    ensures
        r@.map_values(|w: Vec<char>| w@) == words(text@),
{
    let mut out: Vec<Vec<char>> = Vec::new();
    let ghost as_seq = |w: Vec<char>| w@;
    let mut i: usize = 0;
    assert(text@.skip(0) =~= text@);
    while i < text.len()
        invariant
            i <= text.len(),
            as_seq == (|w: Vec<char>| w@),
            out@.map_values(as_seq) + words(text@.skip(i as int)) == words(text@),
        decreases text.len() - i,
    {
        let ghost rest = text@.skip(i as int);
        if is_white_space(text[i]) {
            proof {
                assert(rest.skip(1) =~= text@.skip(i + 1));
            }
            i = i + 1;
        } else {
            let start: usize = i;
            let mut word: Vec<char> = Vec::new();
            while i < text.len() && !is_white_space(text[i])
                invariant
                    start <= i <= text.len(),
                    word@ =~= text@.subrange(start as int, i as int),
                    forall|k: int| start <= k < i ==> !white_space(#[trigger] text@[k]),
                decreases text.len() - i,
            {
                word.push(text[i]);
                i = i + 1;
            }
            proof {
                let n = (i - start) as nat;
                lemma_word_len_is(rest, n);
                lemma_word_len(rest);
                assert(rest.take(n as int) =~= word@);
                assert(rest.skip(n as int) =~= text@.skip(i as int));
            }
            out.push(word);
        }
    }
    out
}

/// The words joined by single spaces.
pub open spec fn joined(parts: Seq<Seq<char>>) -> Seq<char>
    decreases parts.len(),
{
    if parts.len() == 0 {
        Seq::empty()
    } else if parts.len() == 1 {
        parts[0]
    } else {
        joined(parts.drop_last()).push(' ') + parts.last()
    }
}

/// Adding a space and a word to a text adds that word to its words.
proof fn lemma_words_append(s: Seq<char>, w: Seq<char>)
    requires
        is_word(w),
    ensures
        words(s.push(' ') + w) == words(s).push(w),
    decreases s.len(),
{
    let whole = s.push(' ') + w;
    if s.len() == 0 {
        assert(whole.skip(1) =~= w);
        lemma_words_of_word(w);
    } else if white_space(s[0]) {
        assert(whole.skip(1) =~= s.skip(1).push(' ') + w);
        lemma_words_append(s.skip(1), w);
    } else {
        lemma_word_len(s);
        let n = word_len(s);
        lemma_word_len_is(whole, n);
        assert(whole.take(n as int) =~= s.take(n as int));
        assert(whole.skip(n as int) =~= s.skip(n as int).push(' ') + w);
        lemma_words_append(s.skip(n as int), w);
    }
}

proof fn lemma_words_of_word(w: Seq<char>)
    requires
        is_word(w),
    ensures
        words(w) == seq![w],
{
    lemma_word_len_is(w, w.len());
    assert(w.take(w.len() as int) =~= w);
    assert(w.skip(w.len() as int) =~= Seq::<char>::empty());
    assert(words(Seq::<char>::empty()) =~= Seq::<Seq<char>>::empty());
}

/// Splitting undoes joining: the words of joined words are those words.
pub proof fn words_of_joined(parts: Seq<Seq<char>>)
    requires
        forall|i: int| 0 <= i < parts.len() ==> is_word(#[trigger] parts[i]),
    ensures
        words(joined(parts)) == parts,
    decreases parts.len(),
{
    if parts.len() == 1 {
        lemma_words_of_word(parts[0]);
    } else if parts.len() > 1 {
        words_of_joined(parts.drop_last());
        lemma_words_append(joined(parts.drop_last()), parts.last());
    }
}

/// Whether `c` is one of the digits 0 to 9.
pub open spec fn is_digit(c: char) -> bool {
    '0' <= c <= '9'
}

/// The digit for `d`.
pub open spec fn digit(d: nat) -> char {
    ('0' as int + d) as char
}

/// The decimal digits of `n`, without leading zeros.
pub open spec fn decimal(n: nat) -> Seq<char>
    decreases n,
{
    if n < 10 {
        seq![digit(n)]
    } else {
        decimal(n / 10).push(digit(n % 10))
    }
}

/// The number that a run of digits denotes.
pub open spec fn decimal_value(s: Seq<char>) -> nat
    decreases s.len(),
{
    if s.len() == 0 {
        0
    } else {
        (decimal_value(s.drop_last()) * 10 + (s.last() as int - '0' as int)) as nat
    }
}

pub open spec fn all_digits(s: Seq<char>) -> bool {
    forall|i: int| 0 <= i < s.len() ==> is_digit(#[trigger] s[i])
}

/// The text without one leading plus sign, where something follows the sign.
pub open spec fn unsigned_part(s: Seq<char>) -> Seq<char> {
    if s.len() > 1 && s[0] == '+' {
        s.skip(1)
    } else {
        s
    }
}

/// The number that `s` denotes: decimal digits, with a plus sign before them or
/// not, whose value fits in a `usize`.
pub open spec fn parsed(s: Seq<char>) -> Option<nat> {
    let digits = unsigned_part(s);
    if digits.len() > 0 && all_digits(digits) && decimal_value(digits) <= usize::MAX {
        Some(decimal_value(digits))
    } else {
        None
    }
}

/// More digits never make a smaller number.
proof fn lemma_value_grows(s: Seq<char>, k: int)
    requires
        0 <= k <= s.len(),
        all_digits(s),
    ensures
        decimal_value(s.take(k)) <= decimal_value(s),
    decreases s.len() - k,
{
    if k == s.len() {
        assert(s.take(k) =~= s);
    } else {
        lemma_value_grows(s, k + 1);
        assert(s.take(k + 1).drop_last() =~= s.take(k));
    }
}

/// Reads a decimal number.
pub fn parse_number(text: &[char]) -> (r: Option<usize>)
    ensures
        match r {
            Some(n) => parsed(text@) == Some(n as nat),
            None => parsed(text@) is None,
        },
{
    let first: usize = if text.len() > 1 && text[0] == '+' {
        1
    } else {
        0
    };
    let ghost digits = unsigned_part(text@);
    if first == text.len() {
        return None;
    }
    let mut value: usize = 0;
    let mut i: usize = first;
    while i < text.len()
        invariant
            first <= i <= text.len(),
            digits == unsigned_part(text@),
            digits == text@.skip(first as int),
            digits.len() > 0,
            value == decimal_value(digits.take(i - first)),
            all_digits(digits.take(i - first)),
        decreases text.len() - i,
    {
        let c: char = text[i];
        let ghost k = i - first;
        proof {
            assert(digits.take(k + 1).drop_last() =~= digits.take(k));
            if all_digits(digits) {
                lemma_value_grows(digits, k + 1);
            }
        }
        if c < '0' || c > '9' {
            return None;
        }
        let d: usize = (c as u32 - '0' as u32) as usize;
        if value > (usize::MAX - d) / 10 {
            return None;
        }
        value = value * 10 + d;
        i = i + 1;
    }
    proof {
        assert(digits.take(i - first) =~= digits);
    }
    Some(value)
}

/// The decimal digits of `n`.
pub fn decimal_digits(n: u32) -> (r: Vec<char>)
    ensures
        r@ == decimal(n as nat),
    decreases n,
{
    let last: char = digit_char(n % 10);
    if n < 10 {
        let mut out: Vec<char> = Vec::new();
        out.push(last);
        out
    } else {
        let mut out: Vec<char> = decimal_digits(n / 10);
        out.push(last);
        out
    }
}

fn digit_char(d: u32) -> (r: char)
    requires
        d < 10,
    ensures
        r == digit(d as nat),
{
    if d == 0 {
        '0'
    } else if d == 1 {
        '1'
    } else if d == 2 {
        '2'
    } else if d == 3 {
        '3'
    } else if d == 4 {
        '4'
    } else if d == 5 {
        '5'
    } else if d == 6 {
        '6'
    } else if d == 7 {
        '7'
    } else if d == 8 {
        '8'
    } else {
        '9'
    }
}

/// The digits of `n` are digits, and reading them gives `n` back.
pub proof fn decimal_reads_back(n: nat)
    ensures
        decimal(n).len() > 0,
        all_digits(decimal(n)),
        decimal_value(decimal(n)) == n,
    decreases n,
{
    let s = decimal(n);
    if n < 10 {
        assert(decimal_value(s.drop_last()) == 0);
    } else {
        decimal_reads_back(n / 10);
        assert(s.drop_last() =~= decimal(n / 10));
    }
}

/// A number that fits reads back from its decimal digits.
pub proof fn decimal_parses(n: nat)
    requires
        n <= usize::MAX,
    ensures
        parsed(decimal(n)) == Some(n),
{
    decimal_reads_back(n);
}

/// White space separates: the words of two texts with white space between them
/// are the words of the first, then those of the second; a run of characters
/// without white space is one word, and an empty text has none.
pub proof fn white_space_separates_words(a: Seq<char>, c: char, b: Seq<char>, w: Seq<char>)
    requires
        white_space(c),
        w.len() > 0,
        forall|i: int| 0 <= i < w.len() ==> !white_space(#[trigger] w[i]),
    ensures
        words(a.push(c) + b) == words(a) + words(b),
        words(w) == seq![w],
        words(Seq::<char>::empty()) == Seq::<Seq<char>>::empty(),
        words(seq![c]) == Seq::<Seq<char>>::empty(),
    decreases a.len(),
{
    let whole = a.push(c) + b;
    lemma_words_of_word(w);
    reveal_with_fuel(words, 2);
    assert(seq![c].skip(1) =~= Seq::<char>::empty());
    if a.len() == 0 {
        assert(whole.skip(1) =~= b);
        assert(words(a) + words(b) =~= words(b));
    } else if white_space(a[0]) {
        assert(whole.skip(1) =~= a.skip(1).push(c) + b);
        white_space_separates_words(a.skip(1), c, b, w);
    } else {
        lemma_word_len(a);
        let n = word_len(a);
        lemma_word_len_is(whole, n);
        assert(whole.take(n as int) =~= a.take(n as int));
        assert(whole.skip(n as int) =~= a.skip(n as int).push(c) + b);
        white_space_separates_words(a.skip(n as int), c, b, w);
        let first = seq![a.take(n as int)];
        assert(first + (words(a.skip(n as int)) + words(b)) =~= (first + words(a.skip(n as int)))
            + words(b));
    }
}

/// Joined texts put one space between neighbours and nothing else: joining two
/// runs of parts is joining each, with a single space between.
pub proof fn one_space_between_parts(a: Seq<Seq<char>>, b: Seq<Seq<char>>, part: Seq<char>)
    ensures
        a.len() > 0 && b.len() > 0 ==> joined(a + b) == joined(a).push(' ') + joined(b),
        joined(seq![part]) == part,
        joined(Seq::<Seq<char>>::empty()) == Seq::<char>::empty(),
    decreases b.len(),
{
    if a.len() > 0 && b.len() > 0 {
        assert((a + b).drop_last() =~= a + b.drop_last());
        assert((a + b).last() == b.last());
        if b.len() == 1 {
            assert(a + b.drop_last() =~= a);
        } else {
            one_space_between_parts(a, b.drop_last(), part);
            let front = joined(a).push(' ');
            assert((front + joined(b.drop_last())).push(' ') + b.last() =~= front + (joined(
                b.drop_last(),
            ).push(' ') + b.last()));
        }
    }
}

/// A number is written without leading zeros and is one digit long below ten;
/// writing one digit more is multiplying by ten and adding that digit.
pub proof fn decimals_have_no_leading_zero(n: nat, d: nat)
    requires
        d < 10,
    ensures
        decimal(n).len() > 0,
        n > 0 ==> decimal(n)[0] != '0',
        n < 10 ==> decimal(n).len() == 1 && decimal(n)[0] as int == 48 + n,
        n > 0 ==> decimal(10 * n + d).len() == decimal(n).len() + 1,
        n > 0 ==> decimal(10 * n + d).drop_last() == decimal(n),
        decimal(10 * n + d).last() as int == 48 + d,
    decreases n,
{
    assert((10 * n + d) / 10 == n);
    assert((10 * n + d) % 10 == d);
    if n >= 10 {
        decimals_have_no_leading_zero(n / 10, d);
    }
    if n > 0 {
        assert(decimal(10 * n + d).drop_last() =~= decimal(n));
    }
}

/// Reading goes digit by digit: one digit more multiplies by ten and adds it. A
/// text denotes a number exactly when it is one or more digits, or a plus sign
/// and one or more digits, whose value fits.
pub proof fn numbers_are_read_digit_by_digit(s: Seq<char>, c: char, n: nat)
    requires
        '0' <= c <= '9',
    ensures
        decimal_value(Seq::empty()) == 0,
        decimal_value(s.push(c)) == 10 * decimal_value(s) + (c as int - 48),
        parsed(s) == Some(n) <==> n <= usize::MAX && {
            ||| s.len() > 0 && decimal_value(s) == n && forall|i: int|
                0 <= i < s.len() ==> '0' <= #[trigger] s[i] <= '9'
            ||| s.len() > 1 && s[0] == '+' && decimal_value(s.skip(1)) == n && forall|i: int|
                1 <= i < s.len() ==> '0' <= #[trigger] s[i] <= '9'
        },
{
    assert(s.push(c).drop_last() =~= s);
    let rest = s.skip(1);
    if s.len() > 1 && s[0] == '+' {
        assert(!is_digit(s[0]));
        if all_digits(rest) {
            assert forall|i: int| 1 <= i < s.len() implies '0' <= #[trigger] s[i] <= '9' by {
                assert(is_digit(rest[i - 1]));
            }
        }
        if forall|i: int| 1 <= i < s.len() ==> '0' <= #[trigger] s[i] <= '9' {
            assert forall|i: int| 0 <= i < rest.len() implies is_digit(#[trigger] rest[i]) by {
                assert(rest[i] == s[i + 1]);
            }
        }
    } else if all_digits(s) {
        assert forall|i: int| 0 <= i < s.len() implies '0' <= #[trigger] s[i] <= '9' by {
            assert(is_digit(s[i]));
        }
    }
}

} // verus!
