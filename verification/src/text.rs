//! Plain text: decimal numbers, words, lines and order, over sequences of
//! characters.

use vstd::prelude::*;

verus! {

/// The character of a decimal digit.
pub open spec fn digit(d: nat) -> char {
    (48 + d) as char
}

/// The decimal spelling of `n`, without leading zeros.
pub open spec fn decimal(n: nat) -> Seq<char>
    decreases n,
{
    if n < 10 {
        seq![digit(n)]
    } else {
        decimal(n / 10).push(digit(n % 10))
    }
}

/// `count` zero digits.
pub open spec fn zeros(count: nat) -> Seq<char> {
    Seq::new(count, |i: int| '0')
}

/// The decimal spelling of `n`, filled up with leading zeros to `width`.
pub open spec fn padded(n: nat, width: nat) -> Seq<char> {
    if decimal(n).len() < width {
        zeros((width - decimal(n).len()) as nat) + decimal(n)
    } else {
        decimal(n)
    }
}

/// The characters of `s`, in order.
pub fn chars_of(s: &str) -> (out: Vec<char>)
    ensures
        out@ == s@,
{
    let mut out: Vec<char> = Vec::new();
    for c in it: s.chars()
        invariant
            it.seq() == s@,
            out@ == s@.take(it.index() as int),
    {
        out.push(c);
        assert(s@.take(it.index() + 1) =~= s@.take(it.index() as int).push(c));
    }
    assert(s@.take(s@.len() as int) =~= s@);
    out
}

/// `String::push` of the standard library: one character more at the end.
pub assume_specification[ String::push ](s: &mut String, c: char)
    ensures
        final(s)@ == old(s)@.push(c),
;

/// The string of a list of characters.
pub fn string_of(chars: &Vec<char>) -> (r: String)
    ensures
        r@ == chars@,
{
    let mut out = String::new();
    let mut i: usize = 0;
    assert(out@ =~= chars@.take(0));
    while i < chars.len()
        invariant
            i <= chars.len(),
            out@ == chars@.take(i as int),
        decreases chars.len() - i,
    {
        out.push(chars[i]);
        i = i + 1;
        assert(chars@.take(i as int) =~= chars@.take(i - 1).push(chars@[i - 1]));
    }
    assert(chars@.take(i as int) =~= chars@);
    out
}

/// Whether two strings hold the same characters.
pub fn same(a: &str, b: &str) -> (r: bool)
    ensures
        r == (a@ == b@),
{
    a.to_owned() == b.to_owned()
}

/// Whether two lists hold the same characters.
pub fn same_chars(a: &Vec<char>, b: &Vec<char>) -> (r: bool)
    ensures
        r == (a@ == b@),
{
    if a.len() != b.len() {
        return false;
    }
    let mut i: usize = 0;
    while i < a.len()
        invariant
            i <= a.len() == b.len(),
            a@.take(i as int) =~= b@.take(i as int),
        decreases a.len() - i,
    {
        if a[i] != b[i] {
            return false;
        }
        i = i + 1;
        assert(a@.take(i as int) =~= a@.take(i - 1).push(a@[i - 1]));
        assert(b@.take(i as int) =~= b@.take(i - 1).push(b@[i - 1]));
    }
    assert(a@.take(i as int) =~= a@);
    assert(b@.take(i as int) =~= b@);
    true
}

fn digit_text(d: u64) -> (s: &'static str)
    requires
        d < 10,
    ensures
        s@ == seq![digit(d as nat)],
{
    proof {
        reveal_strlit("0");
        reveal_strlit("1");
        reveal_strlit("2");
        reveal_strlit("3");
        reveal_strlit("4");
        reveal_strlit("5");
        reveal_strlit("6");
        reveal_strlit("7");
        reveal_strlit("8");
        reveal_strlit("9");
    }
    if d == 0 {
        "0"
    } else if d == 1 {
        "1"
    } else if d == 2 {
        "2"
    } else if d == 3 {
        "3"
    } else if d == 4 {
        "4"
    } else if d == 5 {
        "5"
    } else if d == 6 {
        "6"
    } else if d == 7 {
        "7"
    } else if d == 8 {
        "8"
    } else {
        "9"
    }
}

/// Append the decimal spelling of `n`.
pub fn push_decimal(out: &mut String, n: u64)
    ensures
        final(out)@ == old(out)@ + decimal(n as nat),
    decreases n,
{
    if n >= 10 {
        push_decimal(out, n / 10);
    }
    out.append(digit_text(n % 10));
    proof {
        assert(decimal(n as nat).len() > 0);
        assert(out@ =~= old(out)@ + decimal(n as nat));
    }
}

/// Append the decimal spelling of `n`, filled up to `width` with zeros.
pub fn push_padded(out: &mut String, n: u64, width: usize)
    ensures
        final(out)@ == old(out)@ + padded(n as nat, width as nat),
{
    let mut number = String::new();
    push_decimal(&mut number, n);
    let len = number.as_str().unicode_len();
    let mut i: usize = len;
    while i < width
        invariant
            number@ == decimal(n as nat),
            len == number@.len(),
            len <= i,
            i <= width || i == len,
            out@ == old(out)@ + zeros((i - len) as nat),
        decreases width - i,
    {
        out.append("0");
        proof {
            reveal_strlit("0");
            assert(zeros((i + 1 - len) as nat) =~= zeros((i - len) as nat) + seq!['0']);
            assert(out@ =~= old(out)@ + zeros((i + 1 - len) as nat));
        }
        i = i + 1;
    }
    out.append(number.as_str());
    assert(out@ =~= old(out)@ + padded(n as nat, width as nat));
}

/// `s` in double quotes, with escapes where it needs them.
pub uninterp spec fn quotation(s: Seq<char>) -> Seq<char>;

/// The `Debug` form that the standard library gives a string. Which
/// characters it escapes is left unsaid.
#[verifier::external_body]
pub(crate) fn quoted(s: &str) -> (r: String)
    ensures
        r@ == quotation(s@),
{
    format!("{s:?}")
}

/// Whether `c` has the Unicode property White_Space.
pub open spec fn is_space(c: char) -> bool {
    ||| '\u{9}' <= c <= '\u{d}'
    ||| c == ' '
    ||| c == '\u{85}'
    ||| c == '\u{a0}'
    ||| c == '\u{1680}'
    ||| '\u{2000}' <= c <= '\u{200a}'
    ||| c == '\u{2028}'
    ||| c == '\u{2029}'
    ||| c == '\u{202f}'
    ||| c == '\u{205f}'
    ||| c == '\u{3000}'
}

/// Whether `c` is white space.
pub fn space(c: char) -> (r: bool)
    ensures
        r == is_space(c),
{
    ('\u{9}' <= c && c <= '\u{d}') || c == ' ' || c == '\u{85}' || c == '\u{a0}' || c == '\u{1680}'
        || ('\u{2000}' <= c && c <= '\u{200a}') || c == '\u{2028}' || c == '\u{2029}' || c
        == '\u{202f}' || c == '\u{205f}' || c == '\u{3000}'
}

/// How many characters stand before the first white space.
pub open spec fn word_len(s: Seq<char>) -> nat
    decreases s.len(),
{
    if s.len() == 0 || is_space(s[0]) {
        0
    } else {
        1 + word_len(s.drop_first())
    }
}

/// The maximal runs of characters that are not white space, in order.
pub open spec fn words(s: Seq<char>) -> Seq<Seq<char>>
    decreases s.len(),
    via words_shrink
{
    if s.len() == 0 {
        Seq::empty()
    } else if is_space(s[0]) {
        words(s.drop_first())
    } else {
        seq![s.take(word_len(s) as int)] + words(s.skip(word_len(s) as int))
    }
}

#[via_fn]
proof fn words_shrink(s: Seq<char>) {
    if s.len() > 0 && !is_space(s[0]) {
        word_len_bound(s);
    }
}

proof fn word_len_bound(s: Seq<char>)
    ensures
        word_len(s) <= s.len(),
        s.len() > 0 && !is_space(s[0]) ==> word_len(s) > 0,
    decreases s.len(),
{
    if s.len() > 0 && !is_space(s[0]) {
        word_len_bound(s.drop_first());
    }
}

/// The words of `s`, each as its characters.
pub fn words_of(s: &str) -> (out: Vec<Vec<char>>)
    ensures
        out.len() == words(s@).len(),
        forall|i: int| 0 <= i < out.len() ==> #[trigger] out[i]@ == words(s@)[i],
{
    let chars = chars_of(s);
    let mut out: Vec<Vec<char>> = Vec::new();
    let mut i: usize = 0;
    assert(s@.skip(0) =~= s@);
    while i < chars.len()
        invariant
            chars@ == s@,
            i <= chars.len(),
            words(s@).len() == out.len() + words(s@.skip(i as int)).len(),
            forall|k: int| 0 <= k < out.len() ==> #[trigger] out[k]@ == words(s@)[k],
            forall|k: int|
                0 <= k < words(s@.skip(i as int)).len() ==> words(s@)[out.len() + k]
                    == #[trigger] words(s@.skip(i as int))[k],
        decreases chars.len() - i,
    {
        let ghost rest = s@.skip(i as int);
        assert(rest[0] == s@[i as int]);
        if space(chars[i]) {
            assert(rest.drop_first() =~= s@.skip(i + 1));
            i = i + 1;
        } else {
            let start = i;
            let mut word: Vec<char> = Vec::new();
            while i < chars.len() && !space(chars[i])
                invariant
                    chars@ == s@,
                    start <= i <= chars.len(),
                    word@ == s@.subrange(start as int, i as int),
                    word_len(s@.skip(start as int)) == i - start + word_len(s@.skip(i as int)),
                decreases chars.len() - i,
            {
                assert(s@.skip(i as int).drop_first() =~= s@.skip(i + 1));
                word.push(chars[i]);
                i = i + 1;
                assert(word@ =~= s@.subrange(start as int, i as int));
            }
            proof {
                assert(word_len(s@.skip(i as int)) == 0);
                assert(word_len(rest) == i - start);
                assert(rest.take(i - start) =~= s@.subrange(start as int, i as int));
                assert(rest.skip(i - start) =~= s@.skip(i as int));
                word_len_bound(rest);
                assert(words(rest) == seq![word@] + words(s@.skip(i as int)));
                assert(words(s@)[out.len() as int] == words(rest)[0]);
                assert forall|k: int| 0 <= k < words(s@.skip(i as int)).len() implies words(
                    s@,
                )[out.len() + 1 + k] == #[trigger] words(s@.skip(i as int))[k] by {
                    assert(words(rest)[k + 1] == words(s@.skip(i as int))[k]);
                }
            }
            out.push(word);
        }
    }
    assert(s@.skip(i as int).len() == 0);
    out
}

/// Whether every character of `s` is a decimal digit.
pub open spec fn all_digits(s: Seq<char>) -> bool {
    forall|i: int| 0 <= i < s.len() ==> '0' <= #[trigger] s[i] <= '9'
}

/// What a sequence of decimal digits spells.
pub open spec fn digits_value(s: Seq<char>) -> nat
    decreases s.len(),
{
    if s.len() == 0 {
        0
    } else {
        digits_value(s.drop_last()) * 10 + (s.last() as nat - 48) as nat
    }
}

/// `s` without one leading plus sign.
pub open spec fn unsigned(s: Seq<char>) -> Seq<char> {
    if s.len() > 0 && s[0] == '+' {
        s.skip(1)
    } else {
        s
    }
}

/// The number that `s` spells: digits behind at most one plus sign, `None`
/// for anything else and for what exceeds `max`.
pub open spec fn parsed(s: Seq<char>, max: nat) -> Option<nat> {
    let digits = unsigned(s);
    if digits.len() > 0 && all_digits(digits) && digits_value(digits) <= max {
        Some(digits_value(digits))
    } else {
        None
    }
}

proof fn digits_grow(s: Seq<char>, upto: int)
    requires
        0 <= upto <= s.len(),
    ensures
        digits_value(s.take(upto)) <= digits_value(s),
    decreases s.len(),
{
    if upto == s.len() {
        assert(s.take(upto) =~= s);
    } else {
        assert(s.drop_last().take(upto) =~= s.take(upto));
        digits_grow(s.drop_last(), upto);
    }
}

/// Read the number that `s` spells from its character `from` on.
pub fn parse_number(s: &Vec<char>, from: usize, max: u64) -> (r: Option<u64>)
    requires
        from <= s.len(),
    ensures
        match r {
            Some(n) => parsed(s@.skip(from as int), max as nat) == Some(n as nat),
            None => parsed(s@.skip(from as int), max as nat) is None,
        },
{
    let ghost rest = s@.skip(from as int);
    let mut i: usize = from;
    if i < s.len() && s[i] == '+' {
        i = i + 1;
    }
    let start = i;
    let ghost digits = unsigned(rest);
    assert(digits =~= s@.skip(start as int)) by {
        if from < s.len() {
            assert(rest[0] == s@[from as int]);
        }
    }
    if start == s.len() {
        return None;
    }
    let mut value: u128 = 0;
    while i < s.len()
        invariant
            start <= i <= s.len(),
            digits == s@.skip(start as int),
            digits == unsigned(rest),
            rest == s@.skip(from as int),
            all_digits(digits.take(i - start)),
            value == digits_value(digits.take(i - start)),
            value <= max,
        decreases s.len() - i,
    {
        let c = s[i];
        proof {
            assert(digits[i - start] == c);
            assert(digits.take(i + 1 - start).drop_last() =~= digits.take(i - start));
        }
        if !('0' <= c && c <= '9') {
            return None;
        }
        value = value * 10 + (c as u32 - 48) as u128;
        i = i + 1;
        proof {
            assert(digits.take(i - start).last() == c);
            if value > max {
                digits_grow(digits, i - start);
            }
        }
        if value > max as u128 {
            return None;
        }
    }
    assert(digits.take(i - start) =~= digits);
    Some(value as u64)
}

/// `needle` stands in `s` from position `at` on.
pub open spec fn stands_at(s: Seq<char>, needle: Seq<char>, at: int) -> bool {
    0 <= at && at + needle.len() <= s.len() && s.subrange(at, at + needle.len()) == needle
}

/// `needle` stands somewhere in `s`.
pub open spec fn contains(s: Seq<char>, needle: Seq<char>) -> bool {
    exists|at: int| stands_at(s, needle, at)
}

/// Whether `needle` stands somewhere in `s`.
pub fn has(s: &str, needle: &str) -> (r: bool)
    ensures
        r == contains(s@, needle@),
{
    let s_chars = chars_of(s);
    let n_chars = chars_of(needle);
    if n_chars.len() > s_chars.len() {
        return false;
    }
    let mut at: usize = 0;
    while at <= s_chars.len() - n_chars.len()
        invariant
            s_chars@ == s@,
            n_chars@ == needle@,
            n_chars.len() <= s_chars.len(),
            at <= s_chars.len() - n_chars.len() + 1,
            forall|k: int| 0 <= k < at ==> !stands_at(s@, needle@, k),
        decreases s_chars.len() - n_chars.len() + 1 - at,
    {
        let mut i: usize = 0;
        while i < n_chars.len() && s_chars[at + i] == n_chars[i]
            invariant
                i <= n_chars.len(),
                at + n_chars.len() <= s_chars.len(),
                forall|k: int| 0 <= k < i ==> s_chars@[at + k] == n_chars@[k],
            decreases n_chars.len() - i,
        {
            i = i + 1;
        }
        if i == n_chars.len() {
            assert(s@.subrange(at as int, at + needle@.len()) =~= needle@);
            assert(stands_at(s@, needle@, at as int));
            return true;
        }
        assert(!stands_at(s@, needle@, at as int)) by {
            if stands_at(s@, needle@, at as int) {
                assert(s@.subrange(at as int, at + needle@.len())[i as int] == needle@[i as int]);
            }
        }
        if at == s_chars.len() - n_chars.len() {
            return false;
        }
        at = at + 1;
    }
    false
}

/// How many characters at the start of `s` are white space.
pub open spec fn leading_space(s: Seq<char>) -> nat
    decreases s.len(),
{
    if s.len() > 0 && is_space(s[0]) {
        1 + leading_space(s.drop_first())
    } else {
        0
    }
}

/// How many characters at the end of `s` are white space.
pub open spec fn trailing_space(s: Seq<char>) -> nat
    decreases s.len(),
{
    if s.len() > 0 && is_space(s.last()) {
        1 + trailing_space(s.drop_last())
    } else {
        0
    }
}

/// `s` without the white space around it.
pub open spec fn trimmed(s: Seq<char>) -> Seq<char> {
    let rest = s.skip(leading_space(s) as int);
    rest.take(rest.len() - trailing_space(rest))
}

/// The characters of `s` from `from` on up to `upto`, without the white space
/// around them.
pub fn trim(s: &Vec<char>, from: usize, upto: usize) -> (out: Vec<char>)
    requires
        from <= upto <= s.len(),
    ensures
        out@ == trimmed(s@.subrange(from as int, upto as int)),
{
    let ghost part = s@.subrange(from as int, upto as int);
    let mut a: usize = from;
    assert(part.skip(0) =~= part);
    while a < upto && space(s[a])
        invariant
            from <= a <= upto <= s.len(),
            part == s@.subrange(from as int, upto as int),
            leading_space(part) == a - from + leading_space(part.skip(a - from)),
        decreases upto - a,
    {
        assert(part.skip(a - from).drop_first() =~= part.skip(a + 1 - from));
        assert(part.skip(a - from)[0] == s@[a as int]);
        a = a + 1;
    }
    assert(a < upto ==> part.skip(a - from)[0] == s@[a as int]);
    let ghost rest = part.skip(a - from);
    assert(rest =~= s@.subrange(a as int, upto as int));
    let mut b: usize = upto;
    assert(rest.take(rest.len() as int) =~= rest);
    while b > a && space(s[b - 1])
        invariant
            from <= a <= b <= upto <= s.len(),
            rest == s@.subrange(a as int, upto as int),
            trailing_space(rest) == upto - b + trailing_space(rest.take(b - a)),
        decreases b - a,
    {
        assert(rest.take(b - a).drop_last() =~= rest.take(b - 1 - a));
        assert(rest.take(b - a).last() == s@[b - 1]);
        b = b - 1;
    }
    assert(b > a ==> rest.take(b - a).last() == s@[b - 1]);
    let mut out: Vec<char> = Vec::new();
    let mut i: usize = a;
    while i < b
        invariant
            a <= i <= b <= s.len(),
            out@ == s@.subrange(a as int, i as int),
        decreases b - i,
    {
        out.push(s[i]);
        i = i + 1;
        assert(out@ =~= s@.subrange(a as int, i as int));
    }
    assert(out@ =~= rest.take(b - a));
    out
}

/// A spelled number spells itself.
pub proof fn spelling_is_read_back(n: nat)
    ensures
        all_digits(decimal(n)),
        digits_value(decimal(n)) == n,
        decimal(n).len() > 0,
    decreases n,
{
    if n < 10 {
        let s = decimal(n);
        assert(s.drop_last() =~= Seq::<char>::empty());
        assert(s.last() == digit(n));
        assert(digits_value(s.drop_last()) == 0);
    } else {
        spelling_is_read_back(n / 10);
        let s = decimal(n);
        assert(s.drop_last() =~= decimal(n / 10));
        assert(s.last() == digit(n % 10));
    }
}

/// Leading zeros change nothing.
pub proof fn padding_is_read_back(n: nat, width: nat)
    ensures
        all_digits(padded(n, width)),
        digits_value(padded(n, width)) == n,
        padded(n, width).len() >= width,
        padded(n, width).len() == if decimal(n).len() < width {
            width
        } else {
            decimal(n).len()
        },
{
    spelling_is_read_back(n);
    if decimal(n).len() < width {
        zeros_lead((width - decimal(n).len()) as nat, decimal(n));
    }
}

proof fn zeros_lead(count: nat, s: Seq<char>)
    requires
        all_digits(s),
    ensures
        all_digits(zeros(count) + s),
        digits_value(zeros(count) + s) == digits_value(s),
    decreases s.len(), count,
{
    let all = zeros(count) + s;
    if s.len() > 0 {
        assert(all_digits(s.drop_last())) by {
            assert forall|i: int| 0 <= i < s.drop_last().len() implies '0'
                <= #[trigger] s.drop_last()[i] <= '9' by {
                assert('0' <= s[i] <= '9');
            }
        }
        zeros_lead(count, s.drop_last());
        assert(all.drop_last() =~= zeros(count) + s.drop_last());
        assert(all.last() == s.last());
    } else if count > 0 {
        zeros_lead((count - 1) as nat, s);
        assert(all.drop_last() =~= zeros((count - 1) as nat) + s);
        assert(all.last() == '0');
    } else {
        assert(all =~= s);
    }
    assert forall|i: int| 0 <= i < all.len() implies '0' <= #[trigger] all[i] <= '9' by {
        if i >= count {
            assert(all[i] == s[i - count]);
        }
    }
}

proof fn word_len_stops(a: Seq<char>, t: Seq<char>)
    requires
        word_len(a) < a.len() || t.len() == 0 || is_space(t[0]),
    ensures
        word_len(a + t) == word_len(a),
        word_len(a) < a.len() ==> is_space(a[word_len(a) as int]),
    decreases a.len(),
{
    if a.len() == 0 {
        assert(a + t =~= t);
    } else {
        assert((a + t)[0] == a[0]);
        if !is_space(a[0]) {
            assert((a + t).drop_first() =~= a.drop_first() + t);
            word_len_stops(a.drop_first(), t);
        }
    }
}

/// White space parts a text: the words of what is before it come first, then those
/// of what is behind it.
pub proof fn white_space_parts_words(a: Seq<char>, c: char, b: Seq<char>)
    requires
        is_space(c),
    ensures
        words(a + seq![c] + b) == words(a) + words(b),
    decreases a.len(),
{
    let rest = seq![c] + b;
    let all = a + seq![c] + b;
    assert(all =~= a + rest);
    assert(rest.drop_first() =~= b);
    assert(words(rest) == words(b));
    if a.len() == 0 {
        assert(all =~= rest);
        assert(words(a) + words(b) =~= words(b));
    } else if is_space(a[0]) {
        assert(all.drop_first() =~= a.drop_first() + seq![c] + b);
        white_space_parts_words(a.drop_first(), c, b);
    } else {
        let k = word_len(a) as int;
        word_len_bound(a);
        word_len_stops(a, rest);
        assert(all[0] == a[0]);
        assert(all.take(k) =~= a.take(k));
        assert(all.skip(k) =~= a.skip(k) + seq![c] + b);
        white_space_parts_words(a.skip(k), c, b);
        assert(words(all) =~= words(a) + words(b));
    }
}

/// A run of characters without white space is one word, and nothing at all is
/// none.
pub proof fn a_run_is_one_word(w: Seq<char>)
    requires
        forall|i: int| 0 <= i < w.len() ==> !is_space(#[trigger] w[i]),
    ensures
        w.len() > 0 ==> words(w) == seq![w],
        w.len() == 0 ==> words(w) == Seq::<Seq<char>>::empty(),
{
    if w.len() > 0 {
        word_len_runs(w);
        assert(w.take(w.len() as int) =~= w);
        assert(w.skip(w.len() as int) =~= Seq::<char>::empty());
        assert(words(Seq::<char>::empty()) == Seq::<Seq<char>>::empty());
        assert(words(w) =~= seq![w]);
    }
}

proof fn word_len_runs(w: Seq<char>)
    requires
        forall|i: int| 0 <= i < w.len() ==> !is_space(#[trigger] w[i]),
    ensures
        word_len(w) == w.len(),
    decreases w.len(),
{
    if w.len() > 0 {
        assert forall|i: int| 0 <= i < w.drop_first().len() implies !is_space(
            #[trigger] w.drop_first()[i],
        ) by {
            assert(!is_space(w[i + 1]));
        }
        word_len_runs(w.drop_first());
    }
}

/// White space is a tab, a line feed, a vertical tab, a form feed, a carriage
/// return, a space, a next line, or one of the spaces and separators of Unicode.
pub proof fn white_space_is_these(c: char, r: bool)
    requires
        call_ensures(space, (c,), r),
    ensures
        ({
            let n = c as int;
            r <==> n == 0x9 || n == 0xa || n == 0xb || n == 0xc || n == 0xd || n == 0x20 || n == 0x85
                || n == 0xa0 || n == 0x1680 || n == 0x2000 || n == 0x2001 || n == 0x2002 || n
                == 0x2003 || n == 0x2004 || n == 0x2005 || n == 0x2006 || n == 0x2007 || n == 0x2008
                || n == 0x2009 || n == 0x200a || n == 0x2028 || n == 0x2029 || n == 0x202f || n
                == 0x205f || n == 0x3000
        }),
{
}

proof fn leading_space_is(s: Seq<char>)
    ensures
        leading_space(s) <= s.len(),
        forall|k: int| 0 <= k < leading_space(s) ==> is_space(#[trigger] s[k]),
        leading_space(s) < s.len() ==> !is_space(s[leading_space(s) as int]),
    decreases s.len(),
{
    if s.len() > 0 && is_space(s[0]) {
        let rest = s.drop_first();
        leading_space_is(rest);
        assert forall|k: int| 0 <= k < leading_space(s) implies is_space(#[trigger] s[k]) by {
            if k > 0 {
                assert(is_space(rest[k - 1]));
            }
        }
    }
}

proof fn trailing_space_is(s: Seq<char>)
    ensures
        trailing_space(s) <= s.len(),
        forall|k: int| s.len() - trailing_space(s) <= k < s.len() ==> is_space(#[trigger] s[k]),
        trailing_space(s) < s.len() ==> !is_space(s[s.len() - trailing_space(s) - 1]),
    decreases s.len(),
{
    if s.len() > 0 && is_space(s.last()) {
        let rest = s.drop_last();
        trailing_space_is(rest);
        assert forall|k: int| s.len() - trailing_space(s) <= k < s.len() implies is_space(
            #[trigger] s[k],
        ) by {
            if k < s.len() - 1 {
                assert(is_space(rest[k]));
            }
        }
    }
}

/// Trimming takes away white space alone, at both ends, and all of it that is
/// there: what is left neither starts nor ends with any. `at` says where it stands.
pub proof fn trimming_takes_the_white_space_around(
    s: Vec<char>,
    from: usize,
    upto: usize,
    out: Vec<char>,
) -> (at: (int, int))
    requires
        from <= upto <= s@.len(),
        call_ensures(trim, (&s, from, upto), out),
    ensures
        from <= at.0 <= at.1 <= upto,
        out@ == s@.subrange(at.0, at.1),
        forall|k: int| from <= k < at.0 ==> is_space(#[trigger] s@[k]),
        forall|k: int| at.1 <= k < upto ==> is_space(#[trigger] s@[k]),
        at.0 < at.1 ==> !is_space(s@[at.0]) && !is_space(s@[at.1 - 1]),
{
    let part = s@.subrange(from as int, upto as int);
    leading_space_is(part);
    let a = leading_space(part) as int;
    let rest = part.skip(a);
    trailing_space_is(rest);
    let b = rest.len() - trailing_space(rest);
    let at = (from + a, from + a + b);
    assert(out@ =~= s@.subrange(at.0, at.1));
    assert forall|k: int| from <= k < at.0 implies is_space(#[trigger] s@[k]) by {
        assert(part[k - from] == s@[k]);
    }
    assert forall|k: int| at.1 <= k < upto implies is_space(#[trigger] s@[k]) by {
        assert(rest[k - at.0] == s@[k]);
    }
    if at.0 < at.1 {
        assert(part[a] == s@[at.0]);
        assert(rest[b - 1] == s@[at.1 - 1]);
    }
    at
}

/// Each digit of a number counts ten times as much as the one behind it.
pub proof fn digits_have_their_places(a: Seq<char>, b: Seq<char>)
    requires
        all_digits(b),
    ensures
        digits_value(a + b) == digits_value(a) * vstd::arithmetic::power::pow(10, b.len())
            + digits_value(b),
        b.len() == 1 ==> digits_value(b) == b[0] as int - '0' as int,
    decreases b.len(),
{
    if b.len() == 0 {
        assert(a + b =~= a);
        vstd::arithmetic::power::lemma_pow0(10);
        assert(digits_value(a) * 1 == digits_value(a));
    } else {
        let rest = b.drop_last();
        assert forall|i: int| 0 <= i < rest.len() implies '0' <= #[trigger] rest[i] <= '9' by {
            assert('0' <= b[i] <= '9');
        }
        assert('0' <= b[b.len() - 1] <= '9');
        digits_have_their_places(a, rest);
        assert((a + b).drop_last() =~= a + rest);
        let (x, p) = (digits_value(a) as int, vstd::arithmetic::power::pow(10, rest.len()));
        reveal(vstd::arithmetic::power::pow);
        assert(vstd::arithmetic::power::pow(10, b.len()) == 10 * p);
        assert((x * p) * 10 == x * (10 * p)) by (nonlinear_arith);
        if b.len() == 1 {
            assert(rest =~= Seq::<char>::empty());
        }
    }
}

/// `digits` spell `n` in so many places at least, with no more zeros in front than
/// it takes to fill them.
pub open spec fn spells(digits: Seq<char>, n: nat, places: nat) -> bool {
    &&& digits.len() > 0
    &&& all_digits(digits)
    &&& digits_value(digits) == n
    &&& digits.len() >= places
    &&& digits.len() > places && digits.len() > 1 ==> digits[0] != '0'
}

proof fn decimals_lead_without_zeros(n: nat)
    ensures
        n > 0 ==> decimal(n)[0] != '0',
        n < 10 ==> decimal(n).len() == 1,
    decreases n,
{
    if n >= 10 {
        decimals_lead_without_zeros(n / 10);
        spelling_is_read_back(n / 10);
    }
}

/// A number that is filled up with zeros is spelled in its places.
pub proof fn padded_spells(n: nat, width: nat)
    ensures
        spells(padded(n, width), n, width),
{
    spelling_is_read_back(n);
    padding_is_read_back(n, width);
    decimals_lead_without_zeros(n);
}

/// What is written of a number spells it, behind what was there before: without
/// zeros in front, or with as many as fill the width.
pub proof fn numbers_are_written_as_they_are_spelled(n: u64, width: usize)
    ensures
        forall|out: &mut String| #[trigger]
            call_ensures(push_decimal, (out, n), ()) ==> {
                let k = out@.len() as int;
                &&& final(out)@.len() >= k
                &&& final(out)@.take(k) == out@
                &&& spells(final(out)@.skip(k), n as nat, 1)
            },
        forall|out: &mut String| #[trigger]
            call_ensures(push_padded, (out, n, width), ()) ==> {
                let k = out@.len() as int;
                &&& final(out)@.len() >= k
                &&& final(out)@.take(k) == out@
                &&& spells(final(out)@.skip(k), n as nat, width as nat)
            },
{
    spelling_is_read_back(n as nat);
    padding_is_read_back(n as nat, width as nat);
    decimals_lead_without_zeros(n as nat);
    assert forall|out: &mut String| #[trigger] call_ensures(push_decimal, (out, n), ()) implies {
        let k = out@.len() as int;
        &&& final(out)@.len() >= k
        &&& final(out)@.take(k) == out@
        &&& spells(final(out)@.skip(k), n as nat, 1)
    } by {
        let k = out@.len() as int;
        assert(final(out)@.take(k) =~= out@);
        assert(final(out)@.skip(k) =~= decimal(n as nat));
    }
    assert forall|out: &mut String| #[trigger]
        call_ensures(push_padded, (out, n, width), ()) implies {
        let k = out@.len() as int;
        &&& final(out)@.len() >= k
        &&& final(out)@.take(k) == out@
        &&& spells(final(out)@.skip(k), n as nat, width as nat)
    } by {
        let k = out@.len() as int;
        assert(final(out)@.take(k) =~= out@);
        assert(final(out)@.skip(k) =~= padded(n as nat, width as nat));
    }
}

/// A number is read from its digits, a plus sign before them or not, where it is no
/// larger than it may be; nothing else is read as one.
pub proof fn numbers_are_read_from_their_digits(
    s: Vec<char>,
    from: usize,
    max: u64,
    r: Option<u64>,
    digits: Seq<char>,
)
    requires
        from <= s@.len(),
        call_ensures(parse_number, (&s, from, max), r),
        digits.len() > 0,
        all_digits(digits),
    ensures
        s@.skip(from as int) == digits || s@.skip(from as int) == seq!['+'] + digits ==> (r is Some
            <==> digits_value(digits) <= max),
        s@.skip(from as int) == digits || s@.skip(from as int) == seq!['+'] + digits ==> (
        r matches Some(n) ==> n == digits_value(digits)),
        (exists|i: int|
            {
                &&& from <= i < s@.len()
                &&& !('0' <= #[trigger] s@[i] <= '9')
                &&& i > from || s@[i] != '+'
            }) ==> r is None,
        s@.len() == from ==> r is None,
        s@.skip(from as int) == seq!['+'] ==> r is None,
{
    assert('0' <= digits[0] <= '9');
    let rest = s@.skip(from as int);
    assert((seq!['+'] + digits).skip(1) =~= digits);
    if exists|i: int|
        {
            &&& from <= i < s@.len()
            &&& !('0' <= #[trigger] s@[i] <= '9')
            &&& i > from || s@[i] != '+'
        } {
        let i = choose|i: int|
            {
                &&& from <= i < s@.len()
                &&& !('0' <= #[trigger] s@[i] <= '9')
                &&& i > from || s@[i] != '+'
            };
        let number = unsigned(rest);
        if rest[0] == '+' {
            assert(number[i - from - 1] == s@[i]);
        } else {
            assert(number[i - from] == s@[i]);
        }
        assert(!all_digits(number));
    }
}

/// What a text contains stands between what is before it and what is behind it.
pub proof fn contained_is_between(s: Seq<char>, needle: Seq<char>)
    ensures
        contains(s, needle) <==> exists|before: Seq<char>, after: Seq<char>| #[trigger] (before
            + needle + after) == s,
{
    if contains(s, needle) {
        let at = choose|at: int| stands_at(s, needle, at);
        let (before, after) = (s.take(at), s.skip(at + needle.len()));
        assert(s =~= before + s.subrange(at, at + needle.len()) + after);
        assert(before + needle + after == s);
    }
    if exists|before: Seq<char>, after: Seq<char>| #[trigger] (before + needle + after) == s {
        let (before, after) = choose|before: Seq<char>, after: Seq<char>| #[trigger] (before
            + needle + after) == s;
        let at = before.len() as int;
        assert(s.subrange(at, at + needle.len()) =~= needle);
        assert(stands_at(s, needle, at));
    }
}

/// A text has another in it where the characters of the other stand in it one
/// behind the other.
pub proof fn texts_have_what_stands_in_them(s: &str, needle: &str, r: bool)
    requires
        call_ensures(has, (s, needle), r),
    ensures
        r <==> exists|before: Seq<char>, after: Seq<char>| #[trigger] (before + needle@ + after)
            == s@,
{
    contained_is_between(s@, needle@);
}

} // verus!
