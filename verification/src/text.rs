//! Character-level text operations used by the line parser: whitespace
//! trimming, splitting into words, prefix tests and decimal numbers.
//!
//! Text is handled as a vector of characters together with a half-open range
//! of positions, so that no operation copies the line it works on.

use vstd::prelude::*;

verus! {

/// Whether `c`, a character beyond ASCII, carries the Unicode `White_Space`
/// property.
pub uninterp spec fn unicode_white_space(c: char) -> bool;

/// Whether `c` is whitespace. Of the ASCII characters these are the space
/// and the five controls from tab to carriage return; of the others, those
/// that carry the Unicode `White_Space` property.
pub open spec fn is_white_space(c: char) -> bool {
    if c <= '\x7f' {
        c == ' ' || ('\t' <= c && c <= '\r')
    } else {
        unicode_white_space(c)
    }
}

/// Calls `char::is_whitespace`, which reports whether the character carries
/// the Unicode `White_Space` property. Among the ASCII characters these are
/// the space and the controls U+0009 to U+000D, which the contract states.
/// For the characters beyond ASCII the property is a table of the Unicode
/// Character Database; the contract gives that table a name and claims
/// nothing of its entries.
#[verifier::external_body]
pub(crate) fn white_space(c: char) -> (b: bool)
    ensures
        b == is_white_space(c),
        c > '\x7f' ==> b == unicode_white_space(c),
{
    c.is_whitespace()
}

/// The characters of `s`, in order.
pub fn chars_of(s: &str) -> (out: Vec<char>)
    ensures
        out@ == s@,
{
    let mut out: Vec<char> = Vec::new();
    for c in it: s.chars()
        invariant
            out@ == it.seq().take(it.index() as int),
            it.seq() == s@,
    {
        out.push(c);
    }
    out
}

/// `s` without its leading whitespace.
pub open spec fn trim_start(s: Seq<char>) -> Seq<char>
    decreases s.len(),
{
    if s.len() > 0 && is_white_space(s.first()) {
        trim_start(s.drop_first())
    } else {
        s
    }
}

/// `s` without its trailing whitespace.
pub open spec fn trim_end(s: Seq<char>) -> Seq<char>
    decreases s.len(),
{
    if s.len() > 0 && is_white_space(s.last()) {
        trim_end(s.drop_last())
    } else {
        s
    }
}

/// `s` without leading and trailing whitespace.
pub open spec fn trim(s: Seq<char>) -> Seq<char> {
    trim_end(trim_start(s))
}

/// The bounds of `trim` applied to the characters of `s` in `from..to`.
pub fn trim_range(s: &Vec<char>, from: usize, to: usize) -> (r: (usize, usize))
    requires
        from <= to <= s.len(),
    ensures
        from <= r.0 <= r.1 <= to,
        s@.subrange(r.0 as int, r.1 as int) == trim(s@.subrange(from as int, to as int)),
{
    let mut a: usize = from;
    while a < to && white_space(s[a])
        invariant
            from <= a <= to <= s.len(),
            trim_start(s@.subrange(from as int, to as int)) == trim_start(
                s@.subrange(a as int, to as int),
            ),
        decreases to - a,
    {
        assert(s@.subrange(a as int, to as int).drop_first() == s@.subrange(a + 1, to as int));
        a += 1;
    }
    let mut b: usize = to;
    while a < b && white_space(s[b - 1])
        invariant
            a <= b <= to <= s.len(),
            trim_end(s@.subrange(a as int, to as int)) == trim_end(
                s@.subrange(a as int, b as int),
            ),
        decreases b - a,
    {
        assert(s@.subrange(a as int, b as int).drop_last() == s@.subrange(a as int, b - 1));
        b -= 1;
    }
    (a, b)
}

/// What trimming leaves neither begins nor ends with whitespace.
pub proof fn lemma_trim_ends(s: Seq<char>)
    ensures
        trim(s).len() > 0 ==> !is_white_space(trim(s).first()) && !is_white_space(trim(s).last()),
        trim(s).len() <= s.len(),
{
    lemma_trim_start(s);
    lemma_trim_end(trim_start(s));
}

/// What is left without leading whitespace is no longer and begins with
/// none.
pub proof fn lemma_trim_start(s: Seq<char>)
    ensures
        trim_start(s).len() <= s.len(),
        trim_start(s).len() > 0 ==> !is_white_space(trim_start(s).first()),
    decreases s.len(),
{
    if s.len() > 0 && is_white_space(s.first()) {
        lemma_trim_start(s.drop_first());
    }
}

/// What is left without trailing whitespace is a beginning of the text and
/// ends with none.
pub proof fn lemma_trim_end(s: Seq<char>)
    ensures
        trim_end(s).len() <= s.len(),
        trim_end(s) == s.take(trim_end(s).len() as int),
        trim_end(s).len() > 0 ==> !is_white_space(trim_end(s).last()),
    decreases s.len(),
{
    if s.len() > 0 && is_white_space(s.last()) {
        lemma_trim_end(s.drop_last());
        assert(s.drop_last().take(trim_end(s).len() as int) == s.take(trim_end(s).len() as int));
    } else {
        assert(s.take(s.len() as int) == s);
    }
}

/// Splitting at whitespace, with the word under construction carried along:
/// the words of `cur` followed by `s`, where `cur` holds no whitespace and
/// directly precedes `s`.
pub open spec fn split_from(s: Seq<char>, cur: Seq<char>) -> Seq<Seq<char>>
    decreases s.len(),
{
    let done = if cur.len() > 0 {
        seq![cur]
    } else {
        Seq::<Seq<char>>::empty()
    };
    if s.len() == 0 {
        done
    } else if is_white_space(s.first()) {
        done + split_from(s.drop_first(), Seq::<char>::empty())
    } else {
        split_from(s.drop_first(), cur.push(s.first()))
    }
}

/// The maximal runs of non-whitespace characters of `s`, in order.
pub open spec fn words(s: Seq<char>) -> Seq<Seq<char>> {
    split_from(s, Seq::<char>::empty())
}

/// Whether `w` is a word: it holds a character, and no whitespace.
pub open spec fn is_word(w: Seq<char>) -> bool {
    w.len() > 0 && forall|j: int| 0 <= j < w.len() ==> !is_white_space(#[trigger] w[j])
}

/// Splitting hands out words only, where the word under construction holds
/// no whitespace.
pub proof fn lemma_split_gives_words(s: Seq<char>, cur: Seq<char>)
    requires
        forall|j: int| 0 <= j < cur.len() ==> !is_white_space(#[trigger] cur[j]),
    ensures
        forall|k: int|
            0 <= k < split_from(s, cur).len() ==> is_word(#[trigger] split_from(s, cur)[k]),
    decreases s.len(),
{
    let out = split_from(s, cur);
    let done = if cur.len() > 0 {
        seq![cur]
    } else {
        Seq::<Seq<char>>::empty()
    };
    assert forall|k: int| 0 <= k < done.len() implies is_word(#[trigger] done[k]) by {
        assert(done[k] == cur);
    }
    if s.len() == 0 {
        assert(out == done);
    } else if is_white_space(s.first()) {
        let tail = split_from(s.drop_first(), Seq::<char>::empty());
        lemma_split_gives_words(s.drop_first(), Seq::<char>::empty());
        assert(out == done + tail);
        assert forall|k: int| 0 <= k < out.len() implies is_word(#[trigger] out[k]) by {
            if k < done.len() {
                assert(out[k] == done[k]);
            } else {
                assert(out[k] == tail[k - done.len()]);
            }
        }
    } else {
        let longer = cur.push(s.first());
        assert forall|j: int| 0 <= j < longer.len() implies !is_white_space(
            #[trigger] longer[j],
        ) by {
            if j < cur.len() {
                assert(longer[j] == cur[j]);
            }
        }
        lemma_split_gives_words(s.drop_first(), longer);
        assert(out == split_from(s.drop_first(), longer));
    }
}

/// Every word of a text holds a character, and no whitespace.
pub proof fn lemma_words_are_words(s: Seq<char>)
    ensures
        forall|k: int| 0 <= k < words(s).len() ==> is_word(#[trigger] words(s)[k]),
{
    lemma_split_gives_words(s, Seq::<char>::empty());
}

/// Whether `ranges` marks, in `s`, exactly the sequence of words `w`.
pub open spec fn ranges_mark(s: Seq<char>, ranges: Seq<(usize, usize)>, w: Seq<Seq<char>>) -> bool {
    &&& ranges.len() == w.len()
    &&& forall|k: int|
        0 <= k < ranges.len() ==> {
            &&& (#[trigger] ranges[k]).0 <= ranges[k].1 <= s.len()
            &&& s.subrange(ranges[k].0 as int, ranges[k].1 as int) == w[k]
        }
}

/// The bounds of each word among the characters of `s` in `from..to`.
pub fn word_ranges(s: &Vec<char>, from: usize, to: usize) -> (out: Vec<(usize, usize)>)
    requires
        from <= to <= s.len(),
    ensures
        ranges_mark(s@, out@, words(s@.subrange(from as int, to as int))),
        forall|k: int| 0 <= k < out.len() ==> from <= (#[trigger] out[k]).0 && out[k].1 <= to,
{
    let mut out: Vec<(usize, usize)> = Vec::new();
    let mut start: usize = from;
    let mut i: usize = from;
    let ghost all = words(s@.subrange(from as int, to as int));
    let ghost mut done: Seq<Seq<char>> = Seq::empty();
    proof {
        assert(s@.subrange(from as int, from as int) == Seq::<char>::empty());
        assert(done + all == all);
    }
    while i < to
        invariant
            from <= start <= i <= to <= s.len(),
            all == done + split_from(
                s@.subrange(i as int, to as int),
                s@.subrange(start as int, i as int),
            ),
            ranges_mark(s@, out@, done),
            forall|k: int| 0 <= k < out.len() ==> from <= (#[trigger] out[k]).0 && out[k].1 <= to,
        decreases to - i,
    {
        let ghost rest = s@.subrange(i as int, to as int);
        let ghost cur = s@.subrange(start as int, i as int);
        assert(rest.drop_first() == s@.subrange(i + 1, to as int));
        assert(rest.first() == s@[i as int]);
        if white_space(s[i]) {
            if start < i {
                out.push((start, i));
                proof {
                    let tail = split_from(rest.drop_first(), Seq::<char>::empty());
                    assert(done + (seq![cur] + tail) == done.push(cur) + tail);
                    done = done.push(cur);
                }
            } else {
                proof {
                    let tail = split_from(rest.drop_first(), Seq::<char>::empty());
                    assert(Seq::<Seq<char>>::empty() + tail == tail);
                }
            }
            start = i + 1;
            assert(s@.subrange(start as int, start as int) == Seq::<char>::empty());
        } else {
            assert(cur.push(rest.first()) == s@.subrange(start as int, i + 1));
        }
        i += 1;
    }
    if start < i {
        out.push((start, i));
        proof {
            let cur = s@.subrange(start as int, i as int);
            assert(done + seq![cur] == done.push(cur));
            done = done.push(cur);
        }
    } else {
        assert(done + Seq::<Seq<char>>::empty() == done);
    }
    out
}

/// Whether `s` begins with `prefix`.
pub open spec fn starts_with(s: Seq<char>, prefix: Seq<char>) -> bool {
    prefix.len() <= s.len() && s.subrange(0, prefix.len() as int) == prefix
}

/// Tests whether the characters of `s` in `from..to` begin with `prefix`,
/// and if so returns the position that follows the prefix.
pub fn after_prefix(s: &Vec<char>, from: usize, to: usize, prefix: &str) -> (r: Option<usize>)
    requires
        from <= to <= s.len(),
    ensures
        r is Some == starts_with(s@.subrange(from as int, to as int), prefix@),
        r matches Some(p) ==> p == from + prefix@.len() && p <= to,
{
    let ghost part = s@.subrange(from as int, to as int);
    let mut i: usize = from;
    for c in it: prefix.chars()
        invariant
            it.seq() == prefix@,
            from <= to <= s.len(),
            i == from + it.index(),
            i <= to,
            part == s@.subrange(from as int, to as int),
            part.subrange(0, it.index() as int) == prefix@.subrange(0, it.index() as int),
    {
        let ghost k = it.index() as int;
        assert(k < prefix@.len() && c == prefix@[k]);
        if i >= to {
            return None;
        }
        if s[i] != c {
            assert(prefix@.len() <= part.len() ==> part.subrange(0, prefix@.len() as int)[k]
                != prefix@[k]);
            return None;
        }
        assert(part.subrange(0, k + 1) == part.subrange(0, k).push(part[k]));
        assert(prefix@.subrange(0, k + 1) == prefix@.subrange(0, k).push(prefix@[k]));
        i += 1;
    }
    assert(prefix@.subrange(0, prefix@.len() as int) == prefix@);
    Some(i)
}

/// Whether `c` is one of the ten ASCII decimal digits.
pub open spec fn is_digit(c: char) -> bool {
    '0' <= c <= '9'
}

/// The value of the ASCII digit `c`.
pub open spec fn digit_value(c: char) -> nat {
    (c as u32 - 48) as nat
}

/// Whether `s` consists of ASCII decimal digits only.
pub open spec fn all_digits(s: Seq<char>) -> bool {
    forall|i: int| 0 <= i < s.len() ==> is_digit(#[trigger] s[i])
}

/// The number that the digits of `s` write in base ten.
pub open spec fn decimal(s: Seq<char>) -> nat
    decreases s.len(),
{
    if s.len() == 0 {
        0
    } else {
        decimal(s.drop_last()) * 10 + digit_value(s.last())
    }
}

/// The number that a string of digits writes: one or more ASCII digits
/// whose value fits in 32 bits. Anything else writes no number.
pub open spec fn digits_number(s: Seq<char>) -> Option<u32> {
    if s.len() > 0 && all_digits(s) && decimal(s) <= u32::MAX {
        Some(decimal(s) as u32)
    } else {
        None
    }
}

/// The number that `s` writes: an optional `+`, then digits as
/// `digits_number` reads them.
pub open spec fn parse_u32(s: Seq<char>) -> Option<u32> {
    if s.len() > 0 && s.first() == '+' {
        digits_number(s.drop_first())
    } else {
        digits_number(s)
    }
}

/// The number that `s` writes, or zero where it writes none.
pub open spec fn number_or_zero(s: Seq<char>) -> u32 {
    match parse_u32(s) {
        Some(n) => n,
        None => 0,
    }
}

/// What a string of digits reads as: the number it writes where that fits
/// in 32 bits, and zero where it does not.
pub proof fn lemma_number_of_digits(s: Seq<char>)
    requires
        s.len() > 0,
        all_digits(s),
    ensures
        number_or_zero(s) == if decimal(s) <= u32::MAX {
            decimal(s) as u32
        } else {
            0u32
        },
{
    assert(is_digit(s[0]));
}

/// A prefix of a digit string writes no more than the whole string.
pub proof fn lemma_decimal_prefix(s: Seq<char>, k: int)
    requires
        0 <= k <= s.len(),
    ensures
        decimal(s.take(k)) <= decimal(s),
    decreases s.len(),
{
    if k == s.len() {
        assert(s.take(k) == s);
    } else {
        assert(s.drop_last().take(k) == s.take(k));
        lemma_decimal_prefix(s.drop_last(), k);
    }
}

/// Reads the unsigned digits written by the characters of `s` in `from..to`.
pub fn parse_digits(s: &Vec<char>, from: usize, to: usize) -> (r: Option<u32>)
    requires
        from <= to <= s.len(),
    ensures
        r == digits_number(s@.subrange(from as int, to as int)),
{
    let ghost digits = s@.subrange(from as int, to as int);
    if from == to {
        return None;
    }
    let mut acc: u64 = 0;
    let mut i: usize = from;
    assert(digits.take(0) == Seq::<char>::empty());
    while i < to
        invariant
            from <= i <= to <= s.len(),
            from < to,
            digits == s@.subrange(from as int, to as int),
            all_digits(digits.take(i - from)),
            acc == decimal(digits.take(i - from)),
            acc <= u32::MAX,
        decreases to - i,
    {
        let c = s[i];
        let ghost k = i - from;
        assert(digits[k] == c);
        if !(c >= '0' && c <= '9') {
            return None;
        }
        let d: u64 = (c as u32 - 48) as u64;
        acc = acc * 10 + d;
        proof {
            assert(digits.take(k + 1).drop_last() == digits.take(k));
            assert(digits.take(k + 1).last() == c);
            assert forall|j: int| 0 <= j < k + 1 implies is_digit(
                #[trigger] digits.take(k + 1)[j],
            ) by {
                if j < k {
                    assert(digits.take(k)[j] == digits[j]);
                }
            }
        }
        if acc > 0xffff_ffff {
            proof {
                if all_digits(digits) {
                    lemma_decimal_prefix(digits, k + 1);
                }
            }
            return None;
        }
        i += 1;
    }
    assert(digits.take(to - from) == digits);
    Some(acc as u32)
}

/// Reads the number written by the characters of `s` in `from..to`.
pub fn parse_number(s: &Vec<char>, from: usize, to: usize) -> (r: Option<u32>)
    requires
        from <= to <= s.len(),
    ensures
        r == parse_u32(s@.subrange(from as int, to as int)),
{
    let ghost whole = s@.subrange(from as int, to as int);
    if from < to && s[from] == '+' {
        assert(whole.first() == '+');
        assert(whole.drop_first() == s@.subrange(from + 1, to as int));
        parse_digits(s, from + 1, to)
    } else {
        assert(from < to ==> whole.first() == s@[from as int]);
        parse_digits(s, from, to)
    }
}

/// The lowercase form of `s` under the Unicode case mappings.
pub uninterp spec fn lowercase(s: Seq<char>) -> Seq<char>;

/// Calls `str::to_lowercase`, which returns the lowercase equivalent of a
/// string slice. The mapping follows the Unicode tables, context-sensitive
/// rules included; the contract names the result and claims that it depends
/// on the characters of the input alone.
#[verifier::external_body]
pub(crate) fn to_lowercase(s: &str) -> (r: String)
    ensures
        r@ == lowercase(s@),
{
    s.to_lowercase()
}

/// The form under which two codes are compared: trimmed, then lowercase.
pub open spec fn normal_form(s: Seq<char>) -> Seq<char> {
    lowercase(trim(s))
}

/// Puts `s` into the form under which codes are compared.
pub fn normalize(s: &str) -> (r: String)
    ensures
        r@ == normal_form(s@),
{
    let chars = chars_of(s);
    let (a, b) = trim_range(&chars, 0, chars.len());
    assert(chars@.subrange(0, chars.len() as int) == chars@);
    let inner = s.substring_char(a, b);
    to_lowercase(inner)
}

/// The first position of `label` among `labels`, if it is there.
pub fn position_of(labels: &Vec<String>, label: &String) -> (r: Option<usize>)
    ensures
        match r {
            Some(i) => {
                &&& i < labels.len()
                &&& labels[i as int]@ == label@
                &&& forall|k: int| 0 <= k < i ==> (#[trigger] labels[k])@ != label@
            },
            None => !labels.deep_view().contains(label@),
        },
{
    let mut i: usize = 0;
    while i < labels.len()
        invariant
            i <= labels.len(),
            forall|k: int| 0 <= k < i ==> labels[k]@ != label@,
        decreases labels.len() - i,
    {
        if labels[i] == *label {
            return Some(i);
        }
        i += 1;
    }
    assert forall|k: int| 0 <= k < labels.deep_view().len() implies labels.deep_view()[k]
        != label@ by {
        assert(labels.deep_view()[k] == labels[k]@);
    }
    None
}

/// The texts of `labels`, each once, in the order in which they first
/// occur.
pub open spec fn distinct(labels: Seq<Seq<char>>) -> Seq<Seq<char>>
    decreases labels.len(),
{
    if labels.len() == 0 {
        Seq::empty()
    } else {
        let before = distinct(labels.drop_last());
        if before.contains(labels.last()) {
            before
        } else {
            before.push(labels.last())
        }
    }
}

/// The distinct texts of a beginning of `labels` are a beginning of the
/// distinct texts of `labels`.
pub proof fn lemma_distinct_prefix(labels: Seq<Seq<char>>, n: int)
    requires
        0 <= n <= labels.len(),
    ensures
        distinct(labels.take(n)).len() <= distinct(labels).len(),
        distinct(labels.take(n)) == distinct(labels).take(distinct(labels.take(n)).len() as int),
    decreases labels.len(),
{
    if n == labels.len() {
        assert(labels.take(n) == labels);
        assert(distinct(labels).take(distinct(labels).len() as int) == distinct(labels));
    } else {
        assert(labels.drop_last().take(n) == labels.take(n));
        lemma_distinct_prefix(labels.drop_last(), n);
        let part = distinct(labels.take(n));
        assert(part =~= distinct(labels).take(part.len() as int));
    }
}

/// No text occurs twice among the distinct texts.
pub proof fn lemma_distinct_no_duplicates(labels: Seq<Seq<char>>)
    ensures
        distinct(labels).no_duplicates(),
    decreases labels.len(),
{
    if labels.len() > 0 {
        lemma_distinct_no_duplicates(labels.drop_last());
    }
}

} // verus!
