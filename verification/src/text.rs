//! Character-level text logic: whitespace, ANSI escape removal and
//! `name=value` fields in log lines.

use vstd::prelude::*;

verus! {

/// The characters of `s`, in order.
pub fn chars_of(s: &str) -> (out: Vec<char>)
    ensures
        out@ == s@,
{
    let mut out: Vec<char> = Vec::new();
    for c in it: s.chars()
        invariant
            out@ == it.seq().take(it.index() as int),
    {
        out.push(c);
    }
    out
}

/// The string of exactly the characters in `chars` (`String` collected
/// from an iterator of `char`).
#[verifier::external_body]
pub(crate) fn string_from_chars(chars: &[char]) -> (s: String)
    ensures
        s@ == chars@,
{
    chars.iter().collect()
}

/// The Unicode `White_Space` property, which `char::is_whitespace` tests.
pub open spec fn is_whitespace(c: char) -> bool {
    let v = c as u32;
    (0x09 <= v <= 0x0d) || v == 0x20 || v == 0x85 || v == 0xa0 || v == 0x1680 || (0x2000 <= v
        <= 0x200a) || v == 0x2028 || v == 0x2029 || v == 0x202f || v == 0x205f || v == 0x3000
}

/// Whether `c` has the Unicode `White_Space` property.
pub fn is_whitespace_char(c: char) -> (b: bool)
    ensures
        b == is_whitespace(c),
{
    let v: u32 = c as u32;
    (0x09 <= v && v <= 0x0d) || v == 0x20 || v == 0x85 || v == 0xa0 || v == 0x1680 || (0x2000
        <= v && v <= 0x200a) || v == 0x2028 || v == 0x2029 || v == 0x202f || v == 0x205f || v
        == 0x3000
}

/// Every character of `s` is whitespace: what is left of `s` after trimming
/// is empty.
pub open spec fn blank(s: Seq<char>) -> bool {
    forall|i: int| 0 <= i < s.len() ==> is_whitespace(#[trigger] s[i])
}

/// Whether `s` is empty once leading and trailing whitespace is trimmed.
pub fn is_blank(s: &str) -> (b: bool)
    ensures
        b == blank(s@),
{
    let chars: Vec<char> = chars_of(s);
    let mut i: usize = 0;
    while i < chars.len()
        invariant
            chars@ == s@,
            i <= chars.len(),
            forall|j: int| 0 <= j < i ==> is_whitespace(#[trigger] s@[j]),
        decreases chars.len() - i,
    {
        if !is_whitespace_char(chars[i]) {
            return false;
        }
        i = i + 1;
    }
    true
}

/// An ASCII letter.
pub open spec fn is_ascii_letter(c: char) -> bool {
    ('a' as u32 <= c as u32 <= 'z' as u32) || ('A' as u32 <= c as u32 <= 'Z' as u32)
}

/// After reading `s`, an escape sequence is open: an ESC was read and no
/// ASCII letter has closed it since.
pub open spec fn escape_open_after(s: Seq<char>) -> bool
    decreases s.len(),
{
    if s.len() == 0 {
        false
    } else if escape_open_after(s.drop_last()) {
        !is_ascii_letter(s.last())
    } else {
        s.last() == '\x1b'
    }
}

/// `s` without its escape sequences: each ESC and everything up to and
/// including the next ASCII letter is dropped.
pub open spec fn without_ansi(s: Seq<char>) -> Seq<char>
    decreases s.len(),
{
    if s.len() == 0 {
        Seq::empty()
    } else if escape_open_after(s.drop_last()) || s.last() == '\x1b' {
        without_ansi(s.drop_last())
    } else {
        without_ansi(s.drop_last()).push(s.last())
    }
}

/// Remove ANSI escape sequences from `input`.
pub fn strip_ansi(input: &str) -> (output: String)
    ensures
        output@ == without_ansi(input@),
{
    let chars: Vec<char> = chars_of(input);
    let mut out: Vec<char> = Vec::new();
    let mut in_escape: bool = false;
    let mut i: usize = 0;
    while i < chars.len()
        invariant
            i <= chars.len(),
            out@ == without_ansi(chars@.take(i as int)),
            in_escape == escape_open_after(chars@.take(i as int)),
        decreases chars.len() - i,
    {
        let c: char = chars[i];
        assert(chars@.take(i + 1).drop_last() =~= chars@.take(i as int));
        assert(chars@.take(i + 1).last() == c);
        if in_escape {
            let v: u32 = c as u32;
            if ('a' as u32 <= v && v <= 'z' as u32) || ('A' as u32 <= v && v <= 'Z' as u32) {
                in_escape = false;
            }
        } else if c == '\x1b' {
            in_escape = true;
        } else {
            out.push(c);
        }
        i = i + 1;
    }
    assert(chars@.take(chars.len() as int) =~= chars@);
    string_from_chars(out.as_slice())
}

/// Length of the run of non-whitespace characters that starts `s`.
pub open spec fn word_length(s: Seq<char>) -> nat
    decreases s.len(),
{
    if s.len() > 0 && !is_whitespace(s[0]) {
        1 + word_length(s.drop_first())
    } else {
        0
    }
}

pub proof fn lemma_word_length(s: Seq<char>)
    ensures
        word_length(s) <= s.len(),
        forall|i: int| 0 <= i < word_length(s) ==> !is_whitespace(#[trigger] s[i]),
        word_length(s) < s.len() ==> is_whitespace(s[word_length(s) as int]),
    decreases s.len(),
{
    if s.len() > 0 && !is_whitespace(s[0]) {
        lemma_word_length(s.drop_first());
        assert forall|i: int| 0 <= i < word_length(s) implies !is_whitespace(#[trigger] s[i]) by {
            if i > 0 {
                assert(s[i] == s.drop_first()[i - 1]);
            }
        }
    }
}

/// `s` without every leading `c`.
pub open spec fn trim_start_char(s: Seq<char>, c: char) -> Seq<char>
    decreases s.len(),
{
    if s.len() > 0 && s[0] == c {
        trim_start_char(s.drop_first(), c)
    } else {
        s
    }
}

/// `s` without every trailing `c`.
pub open spec fn trim_end_char(s: Seq<char>, c: char) -> Seq<char>
    decreases s.len(),
{
    if s.len() > 0 && s.last() == c {
        trim_end_char(s.drop_last(), c)
    } else {
        s
    }
}

/// `s` without every leading and every trailing `c`.
pub open spec fn trim_char(s: Seq<char>, c: char) -> Seq<char> {
    trim_end_char(trim_start_char(s, c), c)
}

/// A field's value as written: quotes, then commas, trimmed from both ends.
pub open spec fn clean_value(raw: Seq<char>) -> Seq<char> {
    trim_char(trim_char(raw, '"'), ',')
}

/// The value of the first whitespace-separated word of `s` that starts
/// with `key`, that prefix removed and the value cleaned.
pub open spec fn field_in(s: Seq<char>, key: Seq<char>) -> Option<Seq<char>>
    decreases s.len(),
{
    if s.len() == 0 {
        None
    } else if is_whitespace(s[0]) {
        field_in(s.drop_first(), key)
    } else {
        let w = word_length(s);
        let word = s.take(w as int);
        proof {
            lemma_word_length(s);
        }
        if key.is_prefix_of(word) {
            Some(clean_value(word.skip(key.len() as int)))
        } else {
            field_in(s.skip(w as int), key)
        }
    }
}

/// Where the last line break of `s` stands, or -1.
pub open spec fn last_line_break(s: Seq<char>) -> int
    decreases s.len(),
{
    if s.len() == 0 {
        -1
    } else if s.last() == '\n' {
        s.len() - 1
    } else {
        last_line_break(s.drop_last())
    }
}

pub proof fn lemma_last_line_break(s: Seq<char>)
    ensures
        -1 <= last_line_break(s) < s.len(),
        last_line_break(s) >= 0 ==> s[last_line_break(s)] == '\n',
        forall|i: int| last_line_break(s) < i < s.len() ==> s[i] != '\n',
    decreases s.len(),
{
    if s.len() > 0 {
        lemma_last_line_break(s.drop_last());
        assert forall|i: int| 0 <= i < s.len() - 1 implies s.drop_last()[i] == s[i] by {}
    }
}

/// The value of `key` in the last line of `logs` that has a word starting
/// with `key`; within that line, the first such word.
pub open spec fn latest_value(logs: Seq<char>, key: Seq<char>) -> Option<Seq<char>>
    decreases logs.len(),
{
    let b = last_line_break(logs);
    proof {
        lemma_last_line_break(logs);
    }
    match field_in(logs.skip(b + 1), key) {
        Some(v) => Some(v),
        None => if b < 0 {
            None
        } else {
            latest_value(logs.take(b), key)
        },
    }
}

/// The key that introduces `field`'s value in a log word: `field=`.
pub open spec fn field_key(field: Seq<char>) -> Seq<char> {
    field.push('=')
}

/// The characters of `chars[lo..hi]` with `c` trimmed from both ends, as a
/// range.
fn trim_range(chars: &Vec<char>, lo: usize, hi: usize, c: char) -> (range: (usize, usize))
    requires
        lo <= hi <= chars.len(),
    ensures
        lo <= range.0 <= range.1 <= hi,
        chars@.subrange(range.0 as int, range.1 as int) == trim_char(
            chars@.subrange(lo as int, hi as int),
            c,
        ),
{
    let mut a: usize = lo;
    while a < hi && chars[a] == c
        invariant
            lo <= a <= hi <= chars.len(),
            trim_start_char(chars@.subrange(lo as int, hi as int), c) == trim_start_char(
                chars@.subrange(a as int, hi as int),
                c,
            ),
        decreases hi - a,
    {
        assert(chars@.subrange(a as int, hi as int).drop_first() =~= chars@.subrange(
            a + 1,
            hi as int,
        ));
        a = a + 1;
    }
    let mut b: usize = hi;
    while b > a && chars[b - 1] == c
        invariant
            lo <= a <= b <= hi <= chars.len(),
            trim_end_char(chars@.subrange(a as int, hi as int), c) == trim_end_char(
                chars@.subrange(a as int, b as int),
                c,
            ),
        decreases b - a,
    {
        assert(chars@.subrange(a as int, b as int).drop_last() =~= chars@.subrange(
            a as int,
            b - 1,
        ));
        b = b - 1;
    }
    (a, b)
}

/// The characters `chars[lo..hi]`.
fn copy_range(chars: &Vec<char>, lo: usize, hi: usize) -> (out: Vec<char>)
    requires
        lo <= hi <= chars.len(),
    ensures
        out@ == chars@.subrange(lo as int, hi as int),
{
    let mut out: Vec<char> = Vec::new();
    let mut k: usize = lo;
    while k < hi
        invariant
            lo <= k <= hi <= chars.len(),
            out@ == chars@.subrange(lo as int, k as int),
        decreases hi - k,
    {
        out.push(chars[k]);
        assert(chars@.subrange(lo as int, k + 1) =~= chars@.subrange(lo as int, k as int).push(
            chars@[k as int],
        ));
        k = k + 1;
    }
    out
}

/// `key` is a prefix of `chars[lo..hi]`.
fn has_prefix(chars: &Vec<char>, lo: usize, hi: usize, key: &Vec<char>) -> (b: bool)
    requires
        lo <= hi <= chars.len(),
    ensures
        b == key@.is_prefix_of(chars@.subrange(lo as int, hi as int)),
{
    if key.len() > hi - lo {
        return false;
    }
    let mut k: usize = 0;
    while k < key.len()
        invariant
            key.len() <= hi - lo,
            lo <= hi <= chars.len(),
            k <= key.len(),
            forall|q: int| 0 <= q < k ==> key@[q] == chars@[lo + q],
        decreases key.len() - k,
    {
        if key[k] != chars[lo + k] {
            assert(chars@.subrange(lo as int, hi as int)[k as int] == chars@[lo + k]);
            return false;
        }
        k = k + 1;
    }
    assert forall|q: int| 0 <= q < key@.len() implies key@[q] == chars@.subrange(
        lo as int,
        hi as int,
    )[q] by {}
    true
}

/// The cleaned value of the first word of `chars[lo..hi]` that starts with
/// `key`.
fn field_in_range(chars: &Vec<char>, lo: usize, hi: usize, key: &Vec<char>) -> (value: Option<Vec<char>>)
    requires
        lo <= hi <= chars.len(),
    ensures
        match value {
            Some(v) => field_in(chars@.subrange(lo as int, hi as int), key@) == Some(v@),
            None => field_in(chars@.subrange(lo as int, hi as int), key@) is None,
        },
{
    let mut i: usize = lo;
    while i < hi
        invariant
            lo <= i <= hi <= chars.len(),
            field_in(chars@.subrange(lo as int, hi as int), key@) == field_in(
                chars@.subrange(i as int, hi as int),
                key@,
            ),
        decreases hi - i,
    {
        let ghost s = chars@.subrange(i as int, hi as int);
        assert(s[0] == chars@[i as int]);
        if is_whitespace_char(chars[i]) {
            assert(s.drop_first() =~= chars@.subrange(i + 1, hi as int));
            i = i + 1;
        } else {
            let mut j: usize = i;
            while j < hi && !is_whitespace_char(chars[j])
                invariant
                    i <= j <= hi <= chars.len(),
                    word_length(chars@.subrange(i as int, hi as int)) == (j - i) + word_length(
                        chars@.subrange(j as int, hi as int),
                    ),
                decreases hi - j,
            {
                assert(chars@.subrange(j as int, hi as int).drop_first() =~= chars@.subrange(
                    j + 1,
                    hi as int,
                ));
                j = j + 1;
            }
            proof {
                lemma_word_length(s);
                assert(word_length(s) == j - i);
                assert(s.take((j - i) as int) =~= chars@.subrange(i as int, j as int));
                assert(s.skip((j - i) as int) =~= chars@.subrange(j as int, hi as int));
            }
            if has_prefix(chars, i, j, key) {
                let (a, b) = trim_range(chars, i + key.len(), j, '"');
                let (a, b) = trim_range(chars, a, b, ',');
                proof {
                    assert(chars@.subrange(i as int, j as int).skip(key@.len() as int)
                        =~= chars@.subrange(i + key@.len(), j as int));
                }
                return Some(copy_range(chars, a, b));
            }
            i = j;
        }
    }
    None
}

/// The value of `field` in the last log line that has it; within a line,
/// the first word that starts with `field=`. Quotes and then commas are
/// trimmed from the value.
pub fn latest_field(logs: &str, field: &str) -> (value: Option<String>)
    ensures
        match value {
            Some(v) => latest_value(logs@, field_key(field@)) == Some(v@),
            None => latest_value(logs@, field_key(field@)) is None,
        },
{
    let chars: Vec<char> = chars_of(logs);
    let mut key: Vec<char> = chars_of(field);
    key.push('=');
    let mut hi: usize = chars.len();
    assert(chars@.take(hi as int) =~= chars@);
    loop
        invariant
            hi <= chars.len(),
            key@ == field_key(field@),
            latest_value(logs@, key@) == latest_value(chars@.take(hi as int), key@),
            chars@ == logs@,
        decreases hi,
    {
        let ghost t = chars@.take(hi as int);
        let mut p: usize = hi;
        while p > 0 && chars[p - 1] != '\n'
            invariant
                p <= hi <= chars.len(),
                last_line_break(t) == last_line_break(chars@.take(p as int)),
            decreases p,
        {
            assert(chars@.take(p as int).drop_last() =~= chars@.take(p - 1));
            p = p - 1;
        }
        proof {
            if p > 0 {
                assert(chars@.take(p as int).last() == '\n');
            }
            assert(t.skip(p as int) =~= chars@.subrange(p as int, hi as int));
            lemma_last_line_break(t);
        }
        match field_in_range(&chars, p, hi, &key) {
            Some(v) => {
                return Some(string_from_chars(v.as_slice()));
            },
            None => {},
        }
        if p == 0 {
            return None;
        }
        assert(t.take(p - 1) =~= chars@.take(p - 1));
        hi = p - 1;
    }
}

/// Whether two strings hold the same characters.
pub fn str_eq(a: &str, b: &str) -> (same: bool)
    ensures
        same == (a@ == b@),
{
    let a: String = a.to_owned();
    let b: String = b.to_owned();
    a == b
}

/// What `String::from_utf8_lossy` makes of `bytes`.
pub uninterp spec fn lossy_utf8(bytes: Seq<u8>) -> Seq<char>;

/// `String::from_utf8_lossy`: the text of `bytes`, each invalid sequence
/// replaced by U+FFFD. The contract states that valid UTF-8 is decoded as
/// such and names the result otherwise; it does not spell out the
/// replacement of invalid sequences.
#[verifier::external_body]
pub(crate) fn utf8_lossy(bytes: &[u8]) -> (text: String)
    ensures
        text@ == lossy_utf8(bytes@),
        vstd::utf8::valid_utf8(bytes@) ==> text@ == vstd::utf8::decode_utf8(bytes@),
{
    String::from_utf8_lossy(bytes).into_owned()
}

} // verus!
