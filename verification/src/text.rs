//! Text: the string operations the rest of the library is written in.
//!
//! A text is modelled by its characters, a `Seq<char>`. Decimal numbers, white
//! space and trimming mean here what they mean for std's integers and `str`.
use vstd::prelude::*;

verus! {

/// The models of a list of values.
pub open spec fn models<T: View>(v: Seq<T>) -> Seq<T::V> {
    v.map_values(|x: T| x@)
}

/// `String::push` appends one character.
pub assume_specification[ String::push ](s: &mut String, c: char)
    ensures
        final(s)@ == old(s)@.push(c),
;

/// `==` on `str` compares the characters.
pub assume_specification[ <str as PartialEq>::eq ](a: &str, b: &str) -> (r: bool)
    ensures
        r == (a@ == b@),
;

/// The characters of a text that may be missing.
pub open spec fn maybe_text(t: Option<&str>) -> Option<Seq<char>> {
    match t {
        Some(text) => Some(text@),
        None => None,
    }
}

/// The characters of an owned text that may be missing.
pub open spec fn maybe(t: Option<String>) -> Option<Seq<char>> {
    match t {
        Some(text) => Some(text@),
        None => None,
    }
}

/// Whether two texts hold the same characters.
pub fn same_text(a: &str, b: &str) -> (r: bool)
    ensures
        r == (a@ == b@),
{
    *a == *b
}

/// The characters of a text.
pub fn chars_of(s: &str) -> (v: Vec<char>)
    ensures
        v@ == s@,
{
    let mut v: Vec<char> = Vec::new();
    for c in it: s.chars()
        invariant
            v@ == it.seq().take(it.index()),
            it.seq() == s@,
    {
        v.push(c);
    }
    v
}

/// The text made of `chars[start..end]`.
pub fn text_of(chars: &Vec<char>, start: usize, end: usize) -> (s: String)
    requires
        start <= end <= chars@.len(),
    ensures
        s@ == chars@.subrange(start as int, end as int),
{
    let mut s = String::new();
    let mut i: usize = start;
    while i < end
        invariant
            start <= i <= end <= chars@.len(),
            s@ == chars@.subrange(start as int, i as int),
        decreases end - i,
    {
        s.push(chars[i]);
        i = i + 1;
    }
    s
}

// ─── Decimal numbers ──────────────────────────────────────────────────────────

/// The character of one decimal digit.
pub open spec fn digit_char(d: nat) -> char {
    (48 + d) as char
}

/// `n` written in decimal, without leading zeros.
pub open spec fn decimal(n: nat) -> Seq<char>
    decreases n,
{
    if n < 10 {
        seq![digit_char(n)]
    } else {
        decimal(n / 10).push(digit_char(n % 10))
    }
}

/// Append `n` in decimal.
pub fn push_decimal(s: &mut String, n: u64)
    ensures
        final(s)@ == old(s)@ + decimal(n as nat),
    decreases n,
{
    if n >= 10 {
        push_decimal(s, n / 10);
    }
    let d: u8 = (n % 10) as u8;
    s.push((48u8 + d) as char);
    assert(s@ =~= old(s)@ + decimal(n as nat));
}

/// Append a number of up to 128 bits in decimal.
pub fn push_long_decimal(s: &mut String, n: u128)
    ensures
        final(s)@ == old(s)@ + decimal(n as nat),
    decreases n,
{
    if n >= 10 {
        push_long_decimal(s, n / 10);
    }
    let d: u8 = (n % 10) as u8;
    s.push((48u8 + d) as char);
    assert(s@ =~= old(s)@ + decimal(n as nat));
}

pub open spec fn is_digit(c: char) -> bool {
    '0' <= c && c <= '9'
}

/// The number that a run of decimal digits denotes; leading zeros are allowed.
pub open spec fn digits_value(s: Seq<char>) -> nat
    decreases s.len(),
{
    if s.len() == 0 {
        0
    } else {
        digits_value(s.drop_last()) * 10 + (s.last() as nat - 48) as nat
    }
}

pub open spec fn all_digits(s: Seq<char>) -> bool {
    forall|i: int| 0 <= i < s.len() ==> is_digit(#[trigger] s[i])
}

/// A text without the one plus sign it may begin with.
pub open spec fn without_plus(s: Seq<char>) -> Seq<char> {
    if s.len() > 0 && s[0] == '+' {
        s.skip(1)
    } else {
        s
    }
}

/// What `str::parse::<u64>` reads: an optional plus sign, then at least one
/// digit and nothing else, for a value that fits.
pub open spec fn parsed_u64(s: Seq<char>) -> Option<u64> {
    let t = without_plus(s);
    if t.len() > 0 && all_digits(t) && digits_value(t) <= u64::MAX {
        Some(digits_value(t) as u64)
    } else {
        None
    }
}

proof fn lemma_digits_value_prefix(s: Seq<char>, n: int)
    requires
        0 <= n <= s.len(),
        all_digits(s),
    ensures
        digits_value(s.take(n)) <= digits_value(s),
    decreases s.len() - n,
{
    if n < s.len() {
        lemma_digits_value_prefix(s, n + 1);
        assert(s.take(n + 1).drop_last() =~= s.take(n));
    } else {
        assert(s.take(n) =~= s);
    }
}

/// Read a text the way `str::parse::<u64>` does.
pub fn parse_u64(s: &str) -> (r: Option<u64>)
    ensures
        r == parsed_u64(s@),
{
    let v = chars_of(s);
    let mut i: usize = 0;
    if v.len() > 0 && v[0] == '+' {
        i = 1;
    }
    let start: usize = i;
    let ghost t = without_plus(s@);
    assert(t =~= s@.skip(start as int));
    if i == v.len() {
        return None;
    }
    let mut value: u64 = 0;
    while i < v.len()
        invariant
            start <= i <= v@.len(),
            v@ == s@,
            t == without_plus(s@),
            t == s@.skip(start as int),
            start < v@.len(),
            all_digits(t.take(i - start)),
            value == digits_value(t.take(i - start)),
        decreases v@.len() - i,
    {
        let c = v[i];
        assert(t[i - start] == c);
        if c < '0' || c > '9' {
            assert(!is_digit(t[i - start]));
            return None;
        }
        let d: u64 = (c as u32 - 48) as u64;
        let ghost longer = t.take(i - start + 1);
        assert(longer.drop_last() =~= t.take(i - start));
        assert(all_digits(longer)) by {
            assert forall|j: int| 0 <= j < longer.len() implies is_digit(#[trigger] longer[j]) by {
                if j < i - start {
                    assert(longer[j] == t.take(i - start)[j]);
                }
            }
        }
        assert(digits_value(longer) == value as nat * 10 + d);
        if value > 1844674407370955161 || (value == 1844674407370955161 && d > 5) {
            proof {
                if all_digits(t) {
                    lemma_digits_value_prefix(t, i - start + 1);
                }
            }
            return None;
        }
        value = value * 10 + d;
        i = i + 1;
    }
    assert(t.take(i - start) =~= t);
    Some(value)
}

proof fn lemma_decimal_digits(n: nat)
    ensures
        all_digits(decimal(n)),
        digits_value(decimal(n)) == n,
        decimal(n).len() > 0,
    decreases n,
{
    if n < 10 {
        let s = decimal(n);
        assert(s.drop_last() =~= Seq::<char>::empty());
        assert(digits_value(s.drop_last()) == 0);
    } else {
        lemma_decimal_digits(n / 10);
        assert(decimal(n).drop_last() =~= decimal(n / 10));
    }
}

/// Reading back a number that was written in decimal gives the number.
pub proof fn decimal_reads_back(n: u64)
    ensures
        parsed_u64(decimal(n as nat)) == Some(n),
{
    lemma_decimal_digits(n as nat);
    assert(is_digit(decimal(n as nat)[0]));
}

/// Nothing but digits is written for a number.
pub proof fn decimal_is_digits(n: nat)
    ensures
        all_digits(decimal(n)),
        decimal(n).len() > 0,
{
    lemma_decimal_digits(n);
}

// ─── Trimming ─────────────────────────────────────────────────────────────────

/// The characters with the Unicode property White_Space.
pub open spec fn is_white(c: char) -> bool {
    let u = c as u32;
    ||| 0x9 <= u <= 0xd
    ||| u == 0x20
    ||| u == 0x85
    ||| u == 0xa0
    ||| u == 0x1680
    ||| 0x2000 <= u <= 0x200a
    ||| u == 0x2028
    ||| u == 0x2029
    ||| u == 0x202f
    ||| u == 0x205f
    ||| u == 0x3000
}

/// Which characters a trim takes away.
#[derive(Debug, Clone, Copy, PartialEq, Eq)]
pub enum CharClass {
    /// White space.
    White,
    /// One character.
    Only(char),
}

impl CharClass {
    pub open spec fn holds(self, c: char) -> bool {
        match self {
            CharClass::White => is_white(c),
            CharClass::Only(o) => c == o,
        }
    }

    pub fn contains(self, c: char) -> (r: bool)
        ensures
            r == self.holds(c),
    {
        match self {
            CharClass::White => {
                let u: u32 = c as u32;
                (0x9 <= u && u <= 0xd) || u == 0x20 || u == 0x85 || u == 0xa0 || u == 0x1680 || (
                0x2000 <= u && u <= 0x200a) || u == 0x2028 || u == 0x2029 || u == 0x202f || u
                    == 0x205f || u == 0x3000
            },
            CharClass::Only(o) => c == o,
        }
    }
}

/// `s` without the characters of `class` at its front.
pub open spec fn front_trimmed(s: Seq<char>, class: CharClass) -> Seq<char>
    decreases s.len(),
{
    if s.len() > 0 && class.holds(s[0]) {
        front_trimmed(s.skip(1), class)
    } else {
        s
    }
}

/// `s` without the characters of `class` at its back.
pub open spec fn back_trimmed(s: Seq<char>, class: CharClass) -> Seq<char>
    decreases s.len(),
{
    if s.len() > 0 && class.holds(s.last()) {
        back_trimmed(s.drop_last(), class)
    } else {
        s
    }
}

/// `s` without the characters of `class` at either end.
pub open spec fn trimmed(s: Seq<char>, class: CharClass) -> Seq<char> {
    back_trimmed(front_trimmed(s, class), class)
}

/// The characters that stay when a run of `class` is taken off the back.
fn back_end(v: &Vec<char>, start: usize, class: CharClass) -> (end: usize)
    requires
        start <= v@.len(),
    ensures
        start <= end <= v@.len(),
        v@.subrange(start as int, end as int) == back_trimmed(v@.skip(start as int), class),
{
    let mut end: usize = v.len();
    assert(v@.subrange(start as int, end as int) =~= v@.skip(start as int));
    while end > start && class.contains(v[end - 1])
        invariant
            start <= end <= v@.len(),
            back_trimmed(v@.subrange(start as int, end as int), class) == back_trimmed(
                v@.skip(start as int),
                class,
            ),
        decreases end,
    {
        let ghost s = v@.subrange(start as int, end as int);
        assert(s.last() == v@[end - 1]);
        assert(s.drop_last() =~= v@.subrange(start as int, end - 1));
        end = end - 1;
    }
    proof {
        let s = v@.subrange(start as int, end as int);
        if s.len() > 0 {
            assert(s.last() == v@[end - 1]);
        }
    }
    end
}

/// `str::trim` and `str::trim_matches`: both ends.
pub fn trim(s: &str, class: CharClass) -> (r: String)
    ensures
        r@ == trimmed(s@, class),
{
    let v = chars_of(s);
    let mut start: usize = 0;
    assert(v@.skip(0) =~= v@);
    while start < v.len() && class.contains(v[start])
        invariant
            start <= v@.len(),
            front_trimmed(v@.skip(start as int), class) == front_trimmed(v@, class),
        decreases v@.len() - start,
    {
        assert(v@.skip(start as int).skip(1) =~= v@.skip(start + 1));
        start = start + 1;
    }
    assert(front_trimmed(v@, class) == v@.skip(start as int));
    let end: usize = back_end(&v, start, class);
    text_of(&v, start, end)
}

/// `str::trim_end_matches`: the back only.
pub fn trim_back(s: &str, class: CharClass) -> (r: String)
    ensures
        r@ == back_trimmed(s@, class),
{
    let v = chars_of(s);
    assert(v@.skip(0) =~= v@);
    let end: usize = back_end(&v, 0, class);
    text_of(&v, 0, end)
}

/// Trimming leaves a text alone when neither end is of the class.
pub proof fn trimmed_keeps(s: Seq<char>, class: CharClass)
    requires
        s.len() > 0 ==> !class.holds(s[0]) && !class.holds(s.last()),
    ensures
        trimmed(s, class) == s,
        back_trimmed(s, class) == s,
{
}

/// A trimmed text has no character of the class at either end, so trimming it
/// again changes nothing.
pub proof fn trimmed_is_stable(s: Seq<char>, class: CharClass)
    ensures
        trimmed(s, class).len() > 0 ==> !class.holds(trimmed(s, class)[0]) && !class.holds(
            trimmed(s, class).last(),
        ),
        trimmed(trimmed(s, class), class) == trimmed(s, class),
{
    lemma_front_trimmed(s, class);
    lemma_back_trimmed(front_trimmed(s, class), class);
}

proof fn lemma_front_trimmed(s: Seq<char>, class: CharClass)
    ensures
        front_trimmed(s, class).len() > 0 ==> !class.holds(front_trimmed(s, class)[0]),
    decreases s.len(),
{
    if s.len() > 0 && class.holds(s[0]) {
        lemma_front_trimmed(s.skip(1), class);
    }
}

proof fn lemma_back_trimmed(s: Seq<char>, class: CharClass)
    ensures
        back_trimmed(s, class).len() <= s.len(),
        back_trimmed(s, class) == s.take(back_trimmed(s, class).len() as int),
        back_trimmed(s, class).len() > 0 ==> !class.holds(back_trimmed(s, class).last()),
    decreases s.len(),
{
    if s.len() > 0 && class.holds(s.last()) {
        lemma_back_trimmed(s.drop_last(), class);
        assert(s.drop_last().take(back_trimmed(s, class).len() as int) =~= s.take(
            back_trimmed(s, class).len() as int,
        ));
    } else {
        assert(s.take(s.len() as int) =~= s);
    }
}

/// How many characters a trim takes off the front: the whole run of the class, and no
/// more.
proof fn front_run(s: Seq<char>, class: CharClass) -> (i: int)
    ensures
        0 <= i <= s.len(),
        front_trimmed(s, class) == s.skip(i),
        forall|k: int| 0 <= k < i ==> class.holds(#[trigger] s[k]),
        i < s.len() ==> !class.holds(s[i]),
    decreases s.len(),
{
    if s.len() > 0 && class.holds(s[0]) {
        let rest = s.skip(1);
        let i = front_run(rest, class);
        assert(s.skip(i + 1) =~= rest.skip(i));
        assert forall|k: int| 0 <= k < i + 1 implies class.holds(#[trigger] s[k]) by {
            if k > 0 {
                assert(rest[k - 1] == s[k]);
            }
        }
        i + 1
    } else {
        assert(s.skip(0) =~= s);
        0
    }
}

/// Where what stays behind a trim of the back ends.
proof fn back_run(s: Seq<char>, class: CharClass) -> (j: int)
    ensures
        0 <= j <= s.len(),
        back_trimmed(s, class) == s.take(j),
        forall|k: int| j <= k < s.len() ==> class.holds(#[trigger] s[k]),
        j > 0 ==> !class.holds(s[j - 1]),
    decreases s.len(),
{
    if s.len() > 0 && class.holds(s.last()) {
        let rest = s.drop_last();
        let j = back_run(rest, class);
        assert(s.take(j) =~= rest.take(j));
        assert forall|k: int| j <= k < s.len() implies class.holds(#[trigger] s[k]) by {
            if k < rest.len() {
                assert(rest[k] == s[k]);
            }
        }
        j
    } else {
        assert(s.take(s.len() as int) =~= s);
        s.len() as int
    }
}

/// A trim takes the characters of the class off both ends, all of them and nothing else:
/// what stays is a part of the text, everything in front of it and behind it is of the
/// class, and its own ends are not.
pub proof fn a_trim_takes_the_ends_off(s: Seq<char>, class: CharClass) -> (r: (int, int))
    ensures
        0 <= r.0 <= r.1 <= s.len(),
        trimmed(s, class) == s.subrange(r.0, r.1),
        forall|k: int| 0 <= k < r.0 ==> class.holds(#[trigger] s[k]),
        forall|k: int| r.1 <= k < s.len() ==> class.holds(#[trigger] s[k]),
        r.0 < r.1 ==> !class.holds(s[r.0]) && !class.holds(s[r.1 - 1]),
        r.0 == r.1 <==> forall|k: int| 0 <= k < s.len() ==> class.holds(#[trigger] s[k]),
{
    let i = front_run(s, class);
    let rest = s.skip(i);
    let j = back_run(rest, class);
    assert(s.subrange(i, i + j) =~= rest.take(j));
    assert forall|k: int| i + j <= k < s.len() implies class.holds(#[trigger] s[k]) by {
        assert(rest[k - i] == s[k]);
    }
    if j > 0 {
        assert(rest[0] == s[i]);
        assert(rest[j - 1] == s[i + j - 1]);
    }
    (i, i + j)
}

/// A trim of the back takes the whole run of the class off the end, and nothing else.
pub proof fn a_back_trim_takes_the_end_off(s: Seq<char>, class: CharClass) -> (j: int)
    ensures
        0 <= j <= s.len(),
        back_trimmed(s, class) == s.take(j),
        forall|k: int| j <= k < s.len() ==> class.holds(#[trigger] s[k]),
        j > 0 ==> !class.holds(s[j - 1]),
{
    back_run(s, class)
}

// ─── Letters ──────────────────────────────────────────────────────────────────

/// `c` in lower case where it is an ASCII letter.
pub open spec fn lower_char(c: char) -> char {
    if 'A' <= c <= 'Z' {
        (c as u32 + 32) as char
    } else {
        c
    }
}

/// A text with its ASCII letters in lower case.
pub open spec fn lowered(s: Seq<char>) -> Seq<char> {
    s.map_values(|c: char| lower_char(c))
}

/// `s` with its ASCII letters in lower case.
pub fn lower(s: &str) -> (r: String)
    ensures
        r@ == lowered(s@),
{
    let chars = chars_of(s);
    let mut r = "".to_owned();
    proof {
        reveal_strlit("");
        assert(r@ =~= lowered(s@).take(0));
    }
    let mut i: usize = 0;
    while i < chars.len()
        invariant
            i <= chars@.len(),
            chars@ == s@,
            r@ == lowered(s@).take(i as int),
        decreases chars@.len() - i,
    {
        let c = chars[i];
        if 'A' <= c && c <= 'Z' {
            r.push((c as u8 + 32) as char);
        } else {
            r.push(c);
        }
        assert(r@ =~= lowered(s@).take(i + 1));
        i = i + 1;
    }
    assert(lowered(s@).take(i as int) =~= lowered(s@));
    r
}

/// Only the letters from `A` to `Z` change, each to the small letter of its name, and
/// every other character stays.
pub proof fn only_capitals_change(s: Seq<char>, i: int)
    requires
        0 <= i < s.len(),
    ensures
        lowered(s).len() == s.len(),
        'A' <= s[i] <= 'Z' ==> lowered(s)[i] as u32 - 'a' as u32 == s[i] as u32 - 'A' as u32,
        !('A' <= s[i] <= 'Z') ==> lowered(s)[i] == s[i],
{
}

/// Whether a setting says yes: `1`, `true`, `yes` or `on`, in any case, with or
/// without white space around it.
pub open spec fn says_yes(value: Seq<char>) -> bool {
    let word = lowered(trimmed(value, CharClass::White));
    word == "1"@ || word == "true"@ || word == "yes"@ || word == "on"@
}

/// White space around a setting does not count, and a word in small letters without any says
/// yes exactly when it is `1`, `true`, `yes` or `on`.
pub proof fn four_words_say_yes(value: Seq<char>, word: Seq<char>)
    ensures
        says_yes(value) == says_yes(trimmed(value, CharClass::White)),
        trimmed(word, CharClass::White) == word && lowered(word) == word ==> (says_yes(word)
            <==> word == "1"@ || word == "true"@ || word == "yes"@ || word == "on"@),
{
    trimmed_is_stable(value, CharClass::White);
}

pub fn is_yes(value: &str) -> (r: bool)
    ensures
        r == says_yes(value@),
{
    let trimmed = trim(value, CharClass::White);
    let word = lower(trimmed.as_str());
    let word = word.as_str();
    same_text(word, "1") || same_text(word, "true") || same_text(word, "yes") || same_text(
        word,
        "on",
    )
}

// ─── Lists ────────────────────────────────────────────────────────────────────

/// Texts with `separator` between them.
pub open spec fn joined(texts: Seq<Seq<char>>, separator: Seq<char>) -> Seq<char>
    decreases texts.len(),
{
    if texts.len() == 0 {
        Seq::empty()
    } else if texts.len() == 1 {
        texts[0]
    } else {
        joined(texts.drop_last(), separator) + separator + texts.last()
    }
}

pub fn join(texts: &Vec<String>, separator: &str) -> (r: String)
    ensures
        r@ == joined(models(texts@), separator@),
{
    let mut r = "".to_owned();
    proof {
        reveal_strlit("");
        assert(r@ =~= Seq::<char>::empty());
    }
    let mut i: usize = 0;
    while i < texts.len()
        invariant
            i <= texts@.len(),
            r@ == joined(models(texts@).take(i as int), separator@),
        decreases texts@.len() - i,
    {
        proof {
            let next = models(texts@).take(i + 1);
            assert(next.drop_last() =~= models(texts@).take(i as int));
            assert(next.last() == texts@[i as int]@);
            if i == 0 {
                assert(r@ + texts@[0]@ =~= texts@[0]@);
            }
        }
        if i > 0 {
            r.append(separator);
        }
        r.append(texts[i].as_str());
        i = i + 1;
    }
    assert(models(texts@).take(i as int) =~= models(texts@));
    r
}

/// Texts are joined in their order with one separator between two of them: what two lists
/// are joined to is the first, a separator, and the second.
pub proof fn lists_join_with_one_separator(
    first: Seq<Seq<char>>,
    second: Seq<Seq<char>>,
    separator: Seq<char>,
)
    requires
        first.len() > 0,
        second.len() > 0,
    ensures
        joined(first + second, separator) == joined(first, separator) + separator + joined(
            second,
            separator,
        ),
        first.len() == 1 ==> joined(first, separator) == first[0],
        joined(Seq::empty(), separator).len() == 0,
    decreases second.len(),
{
    let both = first + second;
    assert(both.drop_last() =~= first + second.drop_last());
    assert(both.last() == second.last());
    if second.len() == 1 {
        assert(first + second.drop_last() =~= first);
        assert(joined(both, separator) =~= joined(first, separator) + separator + second[0]);
    } else {
        lists_join_with_one_separator(first, second.drop_last(), separator);
        assert(joined(both, separator) =~= joined(first, separator) + separator + joined(
            second,
            separator,
        ));
    }
}

/// Whether `s` is empty.
pub fn is_blank(s: &str) -> (r: bool)
    ensures
        r == (s@.len() == 0),
{
    proof {
        reveal_strlit("");
        assert(s@.len() == 0 ==> s@ =~= ""@);
    }
    same_text(s, "")
}

// ─── Parts ────────────────────────────────────────────────────────────────────

/// Whether `pattern` stands in `s` at position `i`.
pub open spec fn stands_at(s: Seq<char>, pattern: Seq<char>, i: int) -> bool {
    0 <= i && i + pattern.len() <= s.len() && s.subrange(i, i + pattern.len()) == pattern
}

/// Whether `i` is the first position in `s` at which `pattern` stands.
pub open spec fn first_at(s: Seq<char>, pattern: Seq<char>, i: int) -> bool {
    stands_at(s, pattern, i) && forall|j: int| 0 <= j < i ==> !#[trigger] stands_at(s, pattern, j)
}

fn is_at(chars: &Vec<char>, wanted: &Vec<char>, at: usize) -> (r: bool)
    requires
        at <= chars@.len(),
    ensures
        r == stands_at(chars@, wanted@, at as int),
{
    let total: usize = chars.len();
    if wanted.len() > total - at {
        return false;
    }
    let mut i: usize = 0;
    while i < wanted.len()
        invariant
            i <= wanted@.len(),
            at + wanted@.len() <= chars@.len() == total,
            forall|j: int| 0 <= j < i ==> #[trigger] wanted@[j] == chars@[at + j],
        decreases wanted@.len() - i,
    {
        if chars[at + i] != wanted[i] {
            assert(chars@.subrange(at as int, at + wanted@.len())[i as int] != wanted@[i as int]);
            return false;
        }
        i = i + 1;
    }
    assert(chars@.subrange(at as int, at + wanted@.len()) =~= wanted@);
    true
}

/// Where `pattern` first stands in `chars`.
pub fn find(chars: &Vec<char>, pattern: &str) -> (r: Option<usize>)
    ensures
        match r {
            Some(i) => first_at(chars@, pattern@, i as int),
            None => forall|j: int| !stands_at(chars@, pattern@, j),
        },
{
    let wanted = chars_of(pattern);
    let mut i: usize = 0;
    while i <= chars.len()
        invariant
            i <= chars@.len() + 1,
            wanted@ == pattern@,
            forall|j: int| 0 <= j < i ==> !#[trigger] stands_at(chars@, pattern@, j),
        decreases chars@.len() + 1 - i,
    {
        if is_at(chars, &wanted, i) {
            return Some(i);
        }
        if i == chars.len() {
            return None;
        }
        i = i + 1;
    }
    None
}

/// `str::split_once`: what stands in front of the first `separator`, and what
/// stands behind it.
pub fn split_once(s: &str, separator: &str) -> (r: Option<(String, String)>)
    ensures
        match r {
            Some((front, back)) => exists|i: int| #[trigger]
                first_at(s@, separator@, i) && front@ == s@.take(i) && back@ == s@.skip(
                    i + separator@.len(),
                ),
            None => forall|j: int| !stands_at(s@, separator@, j),
        },
{
    let chars = chars_of(s);
    match find(&chars, separator) {
        Some(i) => {
            let width: usize = chars_of(separator).len();
            let total: usize = chars.len();
            assert(i + width <= total);
            let front = text_of(&chars, 0, i);
            let back = text_of(&chars, i + width, total);
            assert(s@.subrange(0, i as int) =~= s@.take(i as int));
            assert(s@.subrange(i + width, s@.len() as int) =~= s@.skip(i + width));
            assert(first_at(s@, separator@, i as int));
            Some((front, back))
        },
        None => None,
    }
}

/// There is one first position.
pub proof fn first_is_unique(s: Seq<char>, pattern: Seq<char>, i: int, j: int)
    requires
        first_at(s, pattern, i),
        first_at(s, pattern, j),
    ensures
        i == j,
{
    assert(stands_at(s, pattern, i) && stands_at(s, pattern, j));
}

// ─── Quoting ──────────────────────────────────────────────────────────────────

/// How `str`'s `Debug` writes a text: in quotes, with escapes.
pub uninterp spec fn debug_text(s: Seq<char>) -> Seq<char>;

/// `format!("{:?}")` of a `str`. What it writes depends on the text alone.
#[verifier::external_body]
pub(crate) fn quoted(s: &str) -> (r: String)
    ensures
        r@ == debug_text(s@),
{
    format!("{s:?}")
}

/// Whether every character of `s` is a hex digit.
pub open spec fn hex_digits_only(s: Seq<char>) -> bool {
    forall|i: int| 0 <= i < s.len() ==> is_hex_digit(#[trigger] s[i])
}

pub open spec fn is_hex_digit(c: char) -> bool {
    '0' <= c <= '9' || 'a' <= c <= 'f' || 'A' <= c <= 'F'
}

pub fn all_hex_digits(s: &str) -> (r: bool)
    ensures
        r == hex_digits_only(s@),
{
    let chars = chars_of(s);
    let mut i: usize = 0;
    while i < chars.len()
        invariant
            i <= chars@.len(),
            chars@ == s@,
            forall|j: int| 0 <= j < i ==> is_hex_digit(#[trigger] s@[j]),
        decreases chars@.len() - i,
    {
        let c = chars[i];
        let hex = ('0' <= c && c <= '9') || ('a' <= c && c <= 'f') || ('A' <= c && c <= 'F');
        if !hex {
            assert(!is_hex_digit(s@[i as int]));
            return false;
        }
        i = i + 1;
    }
    true
}

} // verus!
