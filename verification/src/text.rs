//! Text as sequences of characters: the small string toolkit of the library.

use vstd::prelude::*;
use vstd::utf8::{encode_utf8, is_ascii_chars, valid_utf8};

verus! {

broadcast use vstd::string::group_string_axioms;

// ---------------------------------------------------------------------------
// Standard library functions
// ---------------------------------------------------------------------------

/// `String::push` appends one character.
pub assume_specification[ String::push ](text: &mut String, c: char)
    ensures
        final(text)@ == old(text)@.push(c),
;

/// `String::push_str` appends a whole string slice.
pub assume_specification[ String::push_str ](text: &mut String, more: &str)
    ensures
        final(text)@ == old(text)@ + more@,
;

/// `str::eq` compares the characters of two string slices.
pub assume_specification[ <str as PartialEq>::eq ](left: &str, right: &str) -> (r: bool)
    ensures
        r == (left@ == right@),
;

/// `core::str::from_utf8` succeeds exactly on valid UTF-8, and the string it
/// gives has those bytes.
#[verifier::external_body]
pub(crate) fn utf8(bytes: &[u8]) -> (r: Option<&str>)
    ensures
        r is Some <==> valid_utf8(bytes@),
        r matches Some(text) ==> encode_utf8(text@) == bytes@,
{
    core::str::from_utf8(bytes).ok()
}

/// Bytes as text, with what is not UTF-8 replaced.
pub uninterp spec fn lossy_text(bytes: Seq<u8>) -> Seq<char>;

/// `String::from_utf8_lossy`: a function of the bytes alone, which for valid
/// UTF-8 is the text that they encode. What stands for invalid bytes is left to
/// the standard library.
#[verifier::external_body]
pub(crate) fn lossy(bytes: &[u8]) -> (r: String)
    ensures
        r@ == lossy_text(bytes@),
        valid_utf8(bytes@) ==> encode_utf8(r@) == bytes@,
{
    String::from_utf8_lossy(bytes).into_owned()
}

/// A text as `str`'s `Debug` writes it: in double quotes, with escapes.
pub uninterp spec fn quoted_text(text: Seq<char>) -> Seq<char>;

/// `<str as Debug>::fmt`: the text in double quotes with escapes, a function of
/// the text alone.
#[verifier::external_body]
pub(crate) fn quoted(text: &str) -> (r: String)
    ensures
        r@ == quoted_text(text@),
{
    format!("{text:?}")
}

/// Whether a character has the Unicode `White_Space` property.
pub open spec fn is_white(c: char) -> bool {
    ||| '\u{9}' <= c <= '\u{d}'
    ||| c == ' ' || c == '\u{85}' || c == '\u{a0}' || c == '\u{1680}'
    ||| '\u{2000}' <= c <= '\u{200a}'
    ||| c == '\u{2028}' || c == '\u{2029}' || c == '\u{202f}' || c == '\u{205f}' || c == '\u{3000}'
}

/// `char::is_whitespace`: the Unicode `White_Space` property.
pub assume_specification[ char::is_whitespace ](c: char) -> (r: bool)
    ensures
        r == is_white(c),
;

// ---------------------------------------------------------------------------
// Characters
// ---------------------------------------------------------------------------

pub open spec fn is_digit(c: char) -> bool {
    '0' <= c && c <= '9'
}

pub open spec fn is_upper(c: char) -> bool {
    'A' <= c && c <= 'Z'
}

pub open spec fn is_lower(c: char) -> bool {
    'a' <= c && c <= 'z'
}

pub open spec fn is_alphanumeric(c: char) -> bool {
    is_digit(c) || is_upper(c) || is_lower(c)
}

/// The ASCII lowercase form of a character.
pub open spec fn lower(c: char) -> char {
    if is_upper(c) {
        ((c as u32) + 32) as char
    } else {
        c
    }
}

pub open spec fn lowercase(s: Seq<char>) -> Seq<char> {
    Seq::new(s.len(), |i: int| lower(s[i]))
}

pub fn is_digit_char(c: char) -> (r: bool)
    ensures
        r == is_digit(c),
{
    '0' <= c && c <= '9'
}

pub fn is_alphanumeric_char(c: char) -> (r: bool)
    ensures
        r == is_alphanumeric(c),
{
    ('0' <= c && c <= '9') || ('A' <= c && c <= 'Z') || ('a' <= c && c <= 'z')
}

pub fn lower_char(c: char) -> (r: char)
    ensures
        r == lower(c),
{
    if 'A' <= c && c <= 'Z' {
        ((c as u8) + 32) as char
    } else {
        c
    }
}

/// ASCII bytes as characters.
pub open spec fn ascii_text(bytes: Seq<u8>) -> Seq<char> {
    Seq::new(bytes.len(), |i: int| bytes[i] as char)
}

pub open spec fn is_ascii_bytes(bytes: Seq<u8>) -> bool {
    forall|i: int| 0 <= i < bytes.len() ==> #[trigger] bytes[i] < 128
}

/// ASCII bytes are valid UTF-8, and the only text they encode is their own
/// characters.
pub proof fn lemma_ascii_text(bytes: Seq<u8>)
    requires
        is_ascii_bytes(bytes),
    ensures
        valid_utf8(bytes),
        encode_utf8(ascii_text(bytes)) == bytes,
        forall|text: Seq<char>| #[trigger] encode_utf8(text) == bytes ==> text == ascii_text(bytes),
{
    let text = ascii_text(bytes);
    assert(is_ascii_chars(text));
    vstd::utf8::is_ascii_chars_encode_utf8(text);
    assert forall|i: int| 0 <= i < bytes.len() implies encode_utf8(text)[i] == bytes[i] by {
        assert(text[i] as u8 == encode_utf8(text)[i]);
    }
    assert(encode_utf8(text) =~= bytes);
    vstd::utf8::encode_utf8_valid_utf8(text);
    vstd::utf8::encode_utf8_decode_utf8(text);
    assert forall|other: Seq<char>| #[trigger] encode_utf8(other) == bytes implies other == text by {
        vstd::utf8::encode_utf8_decode_utf8(other);
    }
}

pub open spec fn hex_digit(d: nat) -> char {
    if d < 10 {
        digit(d)
    } else {
        (('a' as u32) + (d - 10)) as char
    }
}

/// A byte as two lowercase hexadecimal digits.
pub open spec fn hex_byte(byte: u8) -> Seq<char> {
    seq![hex_digit(byte as nat / 16), hex_digit(byte as nat % 16)]
}

fn hex_char(d: u8) -> (r: char)
    requires
        d < 16,
    ensures
        r == hex_digit(d as nat),
{
    if d < 10 {
        (48 + d) as char
    } else {
        (87 + d) as char
    }
}

pub fn push_hex(out: &mut String, byte: u8)
    ensures
        final(out)@ == old(out)@ + hex_byte(byte),
{
    out.push(hex_char(byte / 16));
    out.push(hex_char(byte % 16));
}

// ---------------------------------------------------------------------------
// Views of collections
// ---------------------------------------------------------------------------

/// The views of the elements of a sequence.
pub open spec fn views<T: View>(s: Seq<T>) -> Seq<T::V> {
    Seq::new(s.len(), |i: int| s[i]@)
}

/// The view of an optional value.
pub open spec fn opt_view<T: View>(o: Option<T>) -> Option<T::V> {
    match o {
        Some(x) => Some(x@),
        None => None,
    }
}

// ---------------------------------------------------------------------------
// Conversions
// ---------------------------------------------------------------------------

pub fn chars(s: &str) -> (r: Vec<char>)
    ensures
        r@ == s@,
{
    let mut r: Vec<char> = Vec::new();
    for c in it: s.chars()
        invariant
            it.seq() == s@,
            r@ == it.seq().subrange(0, it.index() as int),
    {
        r.push(c);
    }
    r
}

/// The string made of `v[from..to]`.
pub fn string_of(v: &Vec<char>, from: usize, to: usize) -> (r: String)
    requires
        from <= to <= v@.len(),
    ensures
        r@ == v@.subrange(from as int, to as int),
{
    let mut r = String::new();
    let mut i: usize = from;
    while i < to
        invariant
            from <= i <= to <= v@.len(),
            r@ == v@.subrange(from as int, i as int),
        decreases to - i,
    {
        r.push(v[i]);
        i += 1;
    }
    r
}

pub fn same(a: &str, b: &str) -> (r: bool)
    ensures
        r == (a@ == b@),
{
    *a == *b
}

pub fn to_lowercase(s: &str) -> (r: String)
    ensures
        r@ == lowercase(s@),
{
    let mut r = String::new();
    for c in it: s.chars()
        invariant
            it.seq() == s@,
            r@ == lowercase(s@).subrange(0, it.index() as int),
    {
        r.push(lower_char(c));
    }
    assert(lowercase(s@).subrange(0, s@.len() as int) == lowercase(s@));
    r
}

pub fn concat(a: &str, b: &str) -> (r: String)
    ensures
        r@ == a@ + b@,
{
    let mut r = a.to_owned();
    r.push_str(b);
    r
}

pub fn concat3(a: &str, b: &str, c: &str) -> (r: String)
    ensures
        r@ == a@ + b@ + c@,
{
    let mut r = a.to_owned();
    r.push_str(b);
    r.push_str(c);
    r
}

// ---------------------------------------------------------------------------
// Searching
// ---------------------------------------------------------------------------

pub fn contains_char(s: &str, c: char) -> (r: bool)
    ensures
        r == s@.contains(c),
{
    for x in it: s.chars()
        invariant
            it.seq() == s@,
            forall|j: int| 0 <= j < it.index() ==> s@[j] != c,
    {
        if x == c {
            assert(s@[it.index() as int] == c);
            return true;
        }
    }
    false
}

pub open spec fn starts_with(s: Seq<char>, prefix: Seq<char>) -> bool {
    prefix.len() <= s.len() && s.subrange(0, prefix.len() as int) == prefix
}

pub open spec fn ends_with(s: Seq<char>, suffix: Seq<char>) -> bool {
    suffix.len() <= s.len() && s.subrange(s.len() - suffix.len(), s.len() as int) == suffix
}

/// What is left of `s` without its first `n` characters.
pub open spec fn after(s: Seq<char>, n: int) -> Seq<char> {
    s.subrange(n, s.len() as int)
}

pub open spec fn before(s: Seq<char>, n: int) -> Seq<char> {
    s.subrange(0, n)
}

/// Whether `v[at..]` starts with `prefix`.
pub fn has_at(v: &Vec<char>, at: usize, prefix: &str) -> (r: bool)
    requires
        at <= v@.len(),
    ensures
        r == starts_with(after(v@, at as int), prefix@),
{
    let p = chars(prefix);
    if v.len() - at < p.len() {
        return false;
    }
    let mut i: usize = 0;
    while i < p.len()
        invariant
            i <= p@.len(),
            at + p.len() <= v.len(),
            p@ == prefix@,
            forall|j: int| 0 <= j < i ==> v@[at + j] == p@[j],
        decreases p@.len() - i,
    {
        if v[at + i] != p[i] {
            assert(after(v@, at as int).subrange(0, p@.len() as int)[i as int] != p@[i as int]);
            return false;
        }
        i += 1;
    }
    assert(after(v@, at as int).subrange(0, p@.len() as int) =~= p@);
    true
}

pub fn has_prefix(s: &str, prefix: &str) -> (r: bool)
    ensures
        r == starts_with(s@, prefix@),
{
    let v = chars(s);
    assert(after(v@, 0) =~= s@);
    has_at(&v, 0, prefix)
}

/// `s` without `prefix` in front, where it has it.
pub fn strip_prefix(s: &str, prefix: &str) -> (r: Option<String>)
    ensures
        r is Some <==> starts_with(s@, prefix@),
        r matches Some(rest) ==> rest@ == after(s@, prefix@.len() as int),
{
    let v = chars(s);
    assert(after(v@, 0) =~= s@);
    if has_at(&v, 0, prefix) {
        let n: usize = prefix.unicode_len();
        Some(string_of(&v, n, v.len()))
    } else {
        None
    }
}

pub fn has_suffix(s: &str, suffix: &str) -> (r: bool)
    ensures
        r == ends_with(s@, suffix@),
{
    let v = chars(s);
    let n: usize = suffix.unicode_len();
    if n > v.len() {
        return false;
    }
    let at: usize = v.len() - n;
    assert(after(v@, at as int).subrange(0, n as int) =~= v@.subrange(at as int, v@.len() as int));
    has_at(&v, at, suffix)
}

/// How many digits a text starts with.
pub open spec fn digit_run(s: Seq<char>, from: int) -> int
    decreases s.len() - from,
{
    if 0 <= from < s.len() && is_digit(s[from]) {
        digit_run(s, from + 1)
    } else {
        from
    }
}

pub proof fn lemma_digit_run(s: Seq<char>, from: int)
    requires
        0 <= from <= s.len(),
    ensures
        from <= digit_run(s, from) <= s.len(),
        forall|i: int| from <= i < digit_run(s, from) ==> is_digit(#[trigger] s[i]),
        digit_run(s, from) < s.len() ==> !is_digit(s[digit_run(s, from)]),
    decreases s.len() - from,
{
    if from < s.len() && is_digit(s[from]) {
        lemma_digit_run(s, from + 1);
    }
}

/// Digits and then something else: the run is the digits.
pub proof fn lemma_digit_run_concat(digits: Seq<char>, rest: Seq<char>, from: int)
    requires
        all_digits(digits),
        rest.len() > 0 ==> !is_digit(rest[0]),
        0 <= from <= digits.len(),
    ensures
        digit_run(digits + rest, from) == digits.len(),
    decreases digits.len() - from,
{
    let s = digits + rest;
    if from < digits.len() {
        assert(s[from] == digits[from]);
        lemma_digit_run_concat(digits, rest, from + 1);
    } else if rest.len() > 0 {
        assert(s[from] == rest[0]);
    }
}

// ---------------------------------------------------------------------------
// Trimming and replacing
// ---------------------------------------------------------------------------

/// `s` without the white space in front.
pub open spec fn trim_start(s: Seq<char>) -> Seq<char>
    decreases s.len(),
{
    if s.len() > 0 && is_white(s[0]) {
        trim_start(s.drop_first())
    } else {
        s
    }
}

/// `s` without the white space at its end.
pub open spec fn trim_end(s: Seq<char>) -> Seq<char>
    decreases s.len(),
{
    if s.len() > 0 && is_white(s.last()) {
        trim_end(s.drop_last())
    } else {
        s
    }
}

pub open spec fn trim(s: Seq<char>) -> Seq<char> {
    trim_end(trim_start(s))
}

pub fn trimmed_end(s: &str) -> (r: String)
    ensures
        r@ == trim_end(s@),
{
    let v = chars(s);
    let mut n: usize = v.len();
    assert(v@.subrange(0, n as int) =~= v@);
    while n > 0 && v[n - 1].is_whitespace()
        invariant
            n <= v@.len(),
            trim_end(v@.subrange(0, n as int)) == trim_end(v@),
        decreases n,
    {
        assert(v@.subrange(0, n as int).drop_last() =~= v@.subrange(0, n - 1));
        n -= 1;
    }
    string_of(&v, 0, n)
}

pub fn trimmed(s: &str) -> (r: String)
    ensures
        r@ == trim(s@),
{
    let v = chars(s);
    let mut from: usize = 0;
    assert(after(v@, 0) =~= v@);
    while from < v.len() && v[from].is_whitespace()
        invariant
            from <= v@.len(),
            trim_start(after(v@, from as int)) == trim_start(v@),
        decreases v@.len() - from,
    {
        assert(after(v@, from as int).drop_first() =~= after(v@, from + 1));
        from += 1;
    }
    let rest = string_of(&v, from, v.len());
    assert(rest@ == trim_start(s@));
    trimmed_end(rest.as_str())
}

/// `s` with every `old` replaced.
pub open spec fn replaced(s: Seq<char>, old: char, new: Seq<char>) -> Seq<char>
    decreases s.len(),
{
    if s.len() == 0 {
        Seq::empty()
    } else if s.last() == old {
        replaced(s.drop_last(), old, new) + new
    } else {
        replaced(s.drop_last(), old, new).push(s.last())
    }
}

pub fn replace_char(s: &str, old_char: char, new: &str) -> (r: String)
    ensures
        r@ == replaced(s@, old_char, new@),
{
    let v = chars(s);
    let mut r = String::new();
    let mut i: usize = 0;
    while i < v.len()
        invariant
            i <= v@.len(),
            r@ == replaced(v@.subrange(0, i as int), old_char, new@),
        decreases v@.len() - i,
    {
        assert(v@.subrange(0, i + 1).drop_last() =~= v@.subrange(0, i as int));
        if v[i] == old_char {
            r.push_str(new);
        } else {
            r.push(v[i]);
        }
        i += 1;
    }
    assert(v@.subrange(0, v@.len() as int) =~= v@);
    r
}

/// Where `what` first occurs in `s` from a place on.
pub open spec fn find_from(s: Seq<char>, what: Seq<char>, from: int) -> Option<int>
    decreases s.len() + 1 - from,
{
    if from < 0 || from > s.len() {
        None
    } else if starts_with(after(s, from), what) {
        Some(from)
    } else {
        find_from(s, what, from + 1)
    }
}

/// Where `what` first occurs in `s`.
pub open spec fn find(s: Seq<char>, what: Seq<char>) -> Option<int> {
    find_from(s, what, 0)
}

pub proof fn lemma_find_from(s: Seq<char>, what: Seq<char>, from: int)
    requires
        0 <= from,
    ensures
        find_from(s, what, from) matches Some(i) ==> from <= i && i + what.len() <= s.len()
            && starts_with(after(s, i), what),
        find_from(s, what, from) is None ==> forall|i: int|
            from <= i <= s.len() ==> !starts_with(#[trigger] after(s, i), what),
    decreases s.len() + 1 - from,
{
    if from <= s.len() && !starts_with(after(s, from), what) {
        lemma_find_from(s, what, from + 1);
    }
}

pub fn find_text(v: &Vec<char>, what: &str) -> (r: Option<usize>)
    ensures
        match r {
            Some(i) => find(v@, what@) == Some(i as int) && i + what@.len() <= v@.len(),
            None => find(v@, what@) is None,
        },
{
    let mut i: usize = 0;
    loop
        invariant
            i <= v@.len(),
            find(v@, what@) == find_from(v@, what@, i as int),
        decreases v@.len() - i,
    {
        if has_at(v, i, what) {
            return Some(i);
        }
        if i >= v.len() {
            assert(find_from(v@, what@, i + 1) is None);
            return None;
        }
        i += 1;
    }
}

pub fn contains_text(s: &str, what: &str) -> (r: bool)
    ensures
        r == (find(s@, what@) is Some),
{
    let v = chars(s);
    find_text(&v, what).is_some()
}

// ---------------------------------------------------------------------------
// Splitting and joining
// ---------------------------------------------------------------------------

/// The pieces of `s` between separators: one more piece than there are
/// separators, empty pieces included.
pub open spec fn split<T>(s: Seq<T>, sep: T) -> Seq<Seq<T>>
    decreases s.len(),
{
    if s.len() == 0 {
        seq![Seq::empty()]
    } else {
        let p = split(s.drop_last(), sep);
        if s.last() == sep {
            p.push(Seq::empty())
        } else {
            p.update(p.len() - 1, p.last().push(s.last()))
        }
    }
}

/// `parts` with `sep` between them.
pub open spec fn join<T>(parts: Seq<Seq<T>>, sep: Seq<T>) -> Seq<T>
    decreases parts.len(),
{
    if parts.len() == 0 {
        Seq::empty()
    } else if parts.len() == 1 {
        parts[0]
    } else {
        join(parts.drop_last(), sep) + sep + parts.last()
    }
}

pub proof fn lemma_split_nonempty<T>(s: Seq<T>, sep: T)
    ensures
        split(s, sep).len() >= 1,
    decreases s.len(),
{
    if s.len() > 0 {
        lemma_split_nonempty(s.drop_last(), sep);
    }
}

/// No piece holds the separator, and every character of a piece is one of `s`.
pub proof fn lemma_split_pieces<T>(s: Seq<T>, sep: T)
    ensures
        split(s, sep).len() >= 1,
        forall|i: int, j: int|
            0 <= i < split(s, sep).len() && 0 <= j < split(s, sep)[i].len() ==> #[trigger] split(
                s,
                sep,
            )[i][j] != sep && s.contains(split(s, sep)[i][j]),
    decreases s.len(),
{
    lemma_split_nonempty(s, sep);
    if s.len() > 0 {
        let rest = s.drop_last();
        lemma_split_pieces(rest, sep);
        let p = split(rest, sep);
        let q = split(s, sep);
        assert forall|i: int, j: int| 0 <= i < q.len() && 0 <= j < q[i].len() implies #[trigger] q[i][j]
            != sep && s.contains(q[i][j]) by {
            if i < p.len() && j < p[i].len() {
                assert(q[i][j] == p[i][j]);
                let k = choose|k: int| 0 <= k < rest.len() && rest[k] == p[i][j];
                assert(s[k] == p[i][j]);
            } else {
                assert(q[i][j] == s.last());
                assert(s[s.len() - 1] == q[i][j]);
            }
        }
    }
}

/// Joining the pieces gives the text back.
pub proof fn lemma_join_split<T>(s: Seq<T>, sep: T)
    ensures
        join(split(s, sep), seq![sep]) == s,
    decreases s.len(),
{
    lemma_split_nonempty(s, sep);
    if s.len() > 0 {
        let rest = s.drop_last();
        lemma_join_split(rest, sep);
        lemma_split_nonempty(rest, sep);
        let p = split(rest, sep);
        let q = split(s, sep);
        if s.last() == sep {
            assert(q.drop_last() =~= p);
            assert(join(q, seq![sep]) =~= rest + seq![sep]);
            assert(s =~= rest + seq![sep]);
        } else {
            if p.len() == 1 {
                assert(q.len() == 1);
                assert(join(q, seq![sep]) =~= rest.push(s.last()));
            } else {
                assert(q.drop_last() =~= p.drop_last());
                assert(join(q, seq![sep]) =~= join(p.drop_last(), seq![sep]) + seq![sep]
                    + p.last().push(s.last()));
                assert(join(q, seq![sep]) =~= rest.push(s.last()));
            }
            assert(s =~= rest.push(s.last()));
        }
    }
}

/// A text without the separator is its own single piece.
pub proof fn lemma_split_single<T>(s: Seq<T>, sep: T)
    requires
        !s.contains(sep),
    ensures
        split(s, sep) == seq![s],
    decreases s.len(),
{
    if s.len() > 0 {
        let rest = s.drop_last();
        assert forall|k: int| 0 <= k < rest.len() implies rest[k] != sep by {
            assert(s[k] == rest[k]);
        }
        assert(s[s.len() - 1] != sep);
        lemma_split_single(rest, sep);
        assert(rest.push(s.last()) =~= s);
        assert(split(s, sep) =~= seq![s]);
    } else {
        assert(s =~= Seq::empty());
    }
}

/// The pieces of two texts with a separator between them are the pieces of
/// the one and then those of the other.
pub proof fn lemma_split_concat<T>(a: Seq<T>, b: Seq<T>, sep: T)
    ensures
        split(a + seq![sep] + b, sep) == split(a, sep) + split(b, sep),
    decreases b.len(),
{
    let s = a + seq![sep] + b;
    if b.len() == 0 {
        assert(s.drop_last() =~= a);
        assert(split(s, sep) =~= split(a, sep) + seq![Seq::empty()]);
    } else {
        assert(s.drop_last() =~= a + seq![sep] + b.drop_last());
        lemma_split_concat(a, b.drop_last(), sep);
        lemma_split_nonempty(b.drop_last(), sep);
        assert(s.last() == b.last());
        assert(split(s, sep) =~= split(a, sep) + split(b, sep));
    }
}

pub fn split_at(v: &Vec<char>, sep: char) -> (r: Vec<String>)
    ensures
        views(r@) == split(v@, sep),
        r@.len() >= 1,
{
    let mut r: Vec<String> = Vec::new();
    let mut current = String::new();
    let mut i: usize = 0;
    assert(v@.subrange(0, 0) =~= Seq::empty());
    while i < v.len()
        invariant
            i <= v@.len(),
            views(r@).push(current@) == split(v@.subrange(0, i as int), sep),
        decreases v@.len() - i,
    {
        assert(v@.subrange(0, i + 1).drop_last() =~= v@.subrange(0, i as int));
        let ghost before = views(r@).push(current@);
        if v[i] == sep {
            let ghost r0 = r@;
            r.push(current);
            current = String::new();
            assert(views(r@) =~= before);
            assert(views(r@).push(current@) =~= split(v@.subrange(0, i + 1), sep));
        } else {
            current.push(v[i]);
            assert(views(r@).push(current@) =~= split(v@.subrange(0, i + 1), sep));
        }
        i += 1;
    }
    assert(v@.subrange(0, v@.len() as int) =~= v@);
    let ghost whole = views(r@).push(current@);
    r.push(current);
    assert(views(r@) =~= whole);
    r
}

/// `parts` with `sep` between them, as one string.
pub fn join_with(parts: &Vec<String>, sep: &str) -> (r: String)
    ensures
        r@ == join(views(parts@), sep@),
{
    let mut r = String::new();
    let mut i: usize = 0;
    while i < parts.len()
        invariant
            i <= parts@.len(),
            r@ == join(views(parts@).subrange(0, i as int), sep@),
        decreases parts@.len() - i,
    {
        let ghost next = views(parts@).subrange(0, i + 1);
        assert(next.drop_last() =~= views(parts@).subrange(0, i as int));
        if i > 0 {
            r.push_str(sep);
        }
        r.push_str(parts[i].as_str());
        assert(r@ =~= join(next, sep@));
        i += 1;
    }
    assert(views(parts@).subrange(0, parts@.len() as int) =~= views(parts@));
    r
}

// ---------------------------------------------------------------------------
// Numbers
// ---------------------------------------------------------------------------

pub open spec fn digit(d: nat) -> char {
    (('0' as u32) + d) as char
}

/// `n` in decimal, without leading zeros.
pub open spec fn decimal(n: nat) -> Seq<char>
    decreases n,
{
    if n < 10 {
        seq![digit(n)]
    } else {
        decimal(n / 10).push(digit(n % 10))
    }
}

pub open spec fn digit_value(c: char) -> nat {
    (c as u32 - '0' as u32) as nat
}

pub open spec fn all_digits(s: Seq<char>) -> bool {
    forall|i: int| 0 <= i < s.len() ==> is_digit(#[trigger] s[i])
}

/// The number that a sequence of decimal digits writes.
pub open spec fn decimal_value(s: Seq<char>) -> nat
    decreases s.len(),
{
    if s.len() == 0 {
        0
    } else {
        decimal_value(s.drop_last()) * 10 + digit_value(s.last())
    }
}

pub proof fn lemma_decimal(n: nat)
    ensures
        all_digits(decimal(n)),
        decimal(n).len() >= 1,
        decimal_value(decimal(n)) == n,
    decreases n,
{
    if n < 10 {
        assert(decimal(n).drop_last() =~= Seq::empty());
        assert(decimal_value(Seq::<char>::empty()) == 0);
    } else {
        lemma_decimal(n / 10);
        assert(decimal(n).drop_last() =~= decimal(n / 10));
    }
}

pub fn push_decimal(out: &mut String, n: u64)
    ensures
        final(out)@ == old(out)@ + decimal(n as nat),
    decreases n,
{
    if n >= 10 {
        push_decimal(out, n / 10);
    }
    let d: u8 = (n % 10) as u8;
    out.push((48 + d) as char);
}

pub fn decimal_string(n: u64) -> (r: String)
    ensures
        r@ == decimal(n as nat),
{
    let mut r = String::new();
    push_decimal(&mut r, n);
    r
}

pub proof fn lemma_decimal_value_grows(s: Seq<char>, i: int)
    requires
        0 <= i <= s.len(),
        all_digits(s),
    ensures
        decimal_value(s.subrange(0, i)) <= decimal_value(s),
    decreases s.len() - i,
{
    if i < s.len() {
        lemma_decimal_value_grows(s, i + 1);
        assert(s.subrange(0, i + 1).drop_last() =~= s.subrange(0, i));
        assert(is_digit(s[i]));
    } else {
        assert(s.subrange(0, i) =~= s);
    }
}

/// The digits `v[from..to]` as a number no larger than `max`: `None` without
/// digits, with anything else among them, or beyond `max`.
pub fn parse_decimal(v: &Vec<char>, from: usize, to: usize, max: u64) -> (r: Option<u64>)
    requires
        from <= to <= v@.len(),
    ensures
        r == ({
            let s = v@.subrange(from as int, to as int);
            if s.len() > 0 && all_digits(s) && decimal_value(s) <= max {
                Some(decimal_value(s) as u64)
            } else {
                None::<u64>
            }
        }),
{
    let ghost s = v@.subrange(from as int, to as int);
    if from == to {
        return None;
    }
    let mut i: usize = from;
    while i < to
        invariant
            from <= i <= to <= v@.len(),
            s == v@.subrange(from as int, to as int),
            forall|j: int| 0 <= j < i - from ==> is_digit(#[trigger] s[j]),
        decreases to - i,
    {
        if !is_digit_char(v[i]) {
            assert(!is_digit(s[i - from]));
            return None;
        }
        i += 1;
    }
    let mut n: u64 = 0;
    i = from;
    while i < to
        invariant
            from <= i <= to <= v@.len(),
            s == v@.subrange(from as int, to as int),
            all_digits(s),
            n == decimal_value(s.subrange(0, i - from)),
            n <= max,
        decreases to - i,
    {
        assert(s.subrange(0, i + 1 - from).drop_last() =~= s.subrange(0, i - from));
        proof {
            lemma_decimal_value_grows(s, i + 1 - from);
            assert(is_digit(s[i - from]));
            assert(v@[i as int] == s[i - from]);
        }
        let d: u64 = (v[i] as u8 - 48) as u64;
        if n > max / 10 {
            return None;
        }
        let tens: u64 = n * 10;
        if d > max - tens {
            return None;
        }
        n = tens + d;
        i += 1;
    }
    assert(s.subrange(0, to - from) =~= s);
    Some(n)
}

/// A number as `u16`, `u32` or `u64` read it from text: digits, after a plus
/// sign at most, and within the type's range.
pub open spec fn unsigned_of(s: Seq<char>, max: u64) -> Option<u64> {
    let digits = if s.len() > 0 && s[0] == '+' {
        after(s, 1)
    } else {
        s
    };
    if digits.len() > 0 && all_digits(digits) && decimal_value(digits) <= max {
        Some(decimal_value(digits) as u64)
    } else {
        None
    }
}

/// Read an unsigned number no larger than `max`.
pub fn parse_unsigned(s: &str, max: u64) -> (r: Option<u64>)
    ensures
        r == unsigned_of(s@, max),
{
    let v = chars(s);
    if v.len() > 0 && v[0] == '+' {
        parse_decimal(&v, 1, v.len(), max)
    } else {
        assert(v@.subrange(0, v@.len() as int) =~= v@);
        parse_decimal(&v, 0, v.len(), max)
    }
}

/// A signed number in decimal.
pub open spec fn signed_decimal(n: int) -> Seq<char> {
    if n < 0 {
        "-"@ + decimal((-n) as nat)
    } else {
        decimal(n as nat)
    }
}

pub fn push_signed(out: &mut String, n: i64)
    ensures
        final(out)@ == old(out)@ + signed_decimal(n as int),
{
    if n < 0 {
        out.push_str("-");
        // The most negative number has no positive counterpart.
        let magnitude: u64 = (-(n + 1)) as u64 + 1;
        push_decimal(out, magnitude);
        assert(out@ =~= old(out)@ + signed_decimal(n as int));
    } else {
        push_decimal(out, n as u64);
    }
}

/// Where a character last stands in a text.
pub open spec fn last_index(s: Seq<char>, c: char) -> Option<int>
    decreases s.len(),
{
    if s.len() == 0 {
        None
    } else if s.last() == c {
        Some(s.len() - 1)
    } else {
        last_index(s.drop_last(), c)
    }
}

pub fn find_last(v: &Vec<char>, c: char) -> (r: Option<usize>)
    ensures
        match r {
            Some(i) => last_index(v@, c) == Some(i as int) && i < v@.len(),
            None => last_index(v@, c) is None,
        },
{
    let mut n: usize = v.len();
    assert(v@.subrange(0, n as int) =~= v@);
    while n > 0
        invariant
            n <= v@.len(),
            last_index(v@.subrange(0, n as int), c) == last_index(v@, c),
        decreases n,
    {
        assert(v@.subrange(0, n as int).drop_last() =~= v@.subrange(0, n - 1));
        if v[n - 1] == c {
            return Some(n - 1);
        }
        n -= 1;
    }
    None
}

/// Where a character first stands in a text from a place on.
pub open spec fn first_index(s: Seq<char>, c: char, from: int) -> Option<int>
    decreases s.len() - from,
{
    if from < 0 || from >= s.len() {
        None
    } else if s[from] == c {
        Some(from)
    } else {
        first_index(s, c, from + 1)
    }
}

pub fn find_first(v: &Vec<char>, c: char) -> (r: Option<usize>)
    ensures
        match r {
            Some(i) => first_index(v@, c, 0) == Some(i as int) && i < v@.len(),
            None => first_index(v@, c, 0) is None,
        },
{
    let mut i: usize = 0;
    while i < v.len()
        invariant
            i <= v@.len(),
            first_index(v@, c, 0) == first_index(v@, c, i as int),
        decreases v@.len() - i,
    {
        if v[i] == c {
            return Some(i);
        }
        i += 1;
    }
    None
}

pub fn concat4(a: &str, b: &str, c: &str, d: &str) -> (r: String)
    ensures
        r@ == a@ + b@ + c@ + d@,
{
    let mut r = concat3(a, b, c);
    r.push_str(d);
    r
}

pub fn concat5(a: &str, b: &str, c: &str, d: &str, e: &str) -> (r: String)
    ensures
        r@ == a@ + b@ + c@ + d@ + e@,
{
    let mut r = concat4(a, b, c, d);
    r.push_str(e);
    r
}

// ---------------------------------------------------------------------------
// Lines
// ---------------------------------------------------------------------------

/// A line without the carriage return of a `\r\n` line end.
pub open spec fn without_return(line: Seq<char>) -> Seq<char> {
    if line.len() > 0 && line.last() == '\r' {
        line.drop_last()
    } else {
        line
    }
}

/// The lines of a text, without their line ends.
pub open spec fn lines(s: Seq<char>) -> Seq<Seq<char>> {
    let pieces = split(s, '\n');
    let ended = Seq::new((pieces.len() - 1) as nat, |i: int| without_return(pieces[i]));
    if pieces.last().len() > 0 {
        ended.push(pieces.last())
    } else {
        ended
    }
}

pub fn lines_of(s: &str) -> (r: Vec<String>)
    ensures
        views(r@) == lines(s@),
{
    let v = chars(s);
    let pieces = split_at(&v, '\n');
    let ghost pv = views(pieces@);
    let ghost ended = Seq::new((pv.len() - 1) as nat, |i: int| without_return(pv[i]));
    let mut r: Vec<String> = Vec::new();
    let last: usize = pieces.len() - 1;
    let mut i: usize = 0;
    assert(views(r@) =~= ended.subrange(0, 0));
    while i < last
        invariant
            i <= last,
            last == pieces@.len() - 1,
            pv == views(pieces@),
            ended == Seq::new((pv.len() - 1) as nat, |i: int| without_return(pv[i])),
            views(r@) == ended.subrange(0, i as int),
        decreases last - i,
    {
        let ghost done = views(r@);
        let line = chars(pieces[i].as_str());
        assert(line@ == pv[i as int]);
        let n: usize = line.len();
        if n > 0 && line[n - 1] == '\r' {
            r.push(string_of(&line, 0, n - 1));
        } else {
            r.push(pieces[i].clone());
        }
        assert(views(r@) =~= done.push(ended[i as int]));
        assert(views(r@) =~= ended.subrange(0, i + 1));
        i += 1;
    }
    assert(ended.subrange(0, last as int) =~= ended);
    let ghost done = views(r@);
    assert(pv.last() == pieces@[last as int]@);
    if !pieces[last].as_str().is_empty() {
        r.push(pieces[last].clone());
        assert(views(r@) =~= done.push(pv.last()));
    }
    r
}

// ---------------------------------------------------------------------------
// Columns
// ---------------------------------------------------------------------------

/// That many spaces.
pub open spec fn spaces(n: int) -> Seq<char>
    decreases n,
{
    if n <= 0 {
        Seq::empty()
    } else {
        spaces(n - 1).push(' ')
    }
}

/// A text filled up with spaces behind it.
pub open spec fn padded(s: Seq<char>, width: int) -> Seq<char> {
    s + spaces(width - s.len())
}

/// A text filled up with spaces in front of it.
pub open spec fn right_aligned(s: Seq<char>, width: int) -> Seq<char> {
    spaces(width - s.len()) + s
}

fn push_spaces(out: &mut String, n: usize)
    ensures
        final(out)@ == old(out)@ + spaces(n as int),
{
    let mut i: usize = 0;
    assert(out@ =~= old(out)@ + spaces(0));
    while i < n
        invariant
            i <= n,
            out@ == old(out)@ + spaces(i as int),
        decreases n - i,
    {
        let ghost before = spaces(i as int);
        out.push(' ');
        assert(spaces(i + 1) == before.push(' '));
        assert(out@ =~= old(out)@ + spaces(i + 1));
        i += 1;
    }
}

/// A text filled up with spaces behind it.
pub fn pad(s: &str, width: usize) -> (r: String)
    ensures
        r@ == padded(s@, width as int),
{
    let mut r = s.to_owned();
    let len: usize = s.unicode_len();
    if len < width {
        push_spaces(&mut r, width - len);
    } else {
        assert(spaces(width - s@.len()) =~= Seq::empty());
        assert(padded(s@, width as int) =~= s@);
    }
    r
}

/// A text filled up with spaces in front of it.
pub fn align_right(s: &str, width: usize) -> (r: String)
    ensures
        r@ == right_aligned(s@, width as int),
{
    let mut r = String::new();
    let len: usize = s.unicode_len();
    if len < width {
        push_spaces(&mut r, width - len);
        assert(r@ =~= spaces(width - s@.len()));
    } else {
        assert(spaces(width - s@.len()) =~= Seq::empty());
    }
    r.push_str(s);
    r
}

// ---------------------------------------------------------------------------
// Laws
// ---------------------------------------------------------------------------

/// In lower case the letters from `A` to `Z` are those from `a` to `z`, and every
/// other character is as it was.
pub proof fn law_lower_case_changes_letters_only(s: Seq<char>, i: int)
    requires
        0 <= i < s.len(),
    ensures
        lowercase(s).len() == s.len(),
        if 'A' <= s[i] <= 'Z' {
            lowercase(s)[i] as int == s[i] as int + 32
        } else {
            lowercase(s)[i] == s[i]
        },
{
}

/// What is trimmed is what stands between the white space at both ends.
pub proof fn law_trimming_takes_off_white_space(s: Seq<char>)
    ensures
        exists|a: int, b: int|
            0 <= a <= b <= s.len() && #[trigger] s.subrange(a, b) == trim(s) && (forall|i: int|
                0 <= i < a ==> is_white(#[trigger] s[i])) && (forall|i: int|
                b <= i < s.len() ==> is_white(#[trigger] s[i])),
        trim(s).len() > 0 ==> !is_white(trim(s)[0]) && !is_white(trim(s).last()),
{
    let t = trim_start(s);
    lemma_trim_start(s);
    lemma_trim_end(t);
    let a = s.len() - t.len();
    let n = trim_end(t).len() as int;
    let b = a + n;
    assert(s.subrange(a, b) =~= trim(s)) by {
        assert(t == s.subrange(a, s.len() as int));
        assert(t.subrange(0, n) == trim_end(t));
    }
    assert forall|i: int| b <= i < s.len() implies is_white(#[trigger] s[i]) by {
        assert(t[i - a] == s[i]);
    }
    if trim(s).len() > 0 {
        assert(trim(s)[0] == t[0]);
    }
}

proof fn lemma_trim_start(s: Seq<char>)
    ensures
        trim_start(s).len() <= s.len(),
        trim_start(s) == s.subrange(s.len() - trim_start(s).len(), s.len() as int),
        forall|i: int| 0 <= i < s.len() - trim_start(s).len() ==> is_white(#[trigger] s[i]),
        trim_start(s).len() > 0 ==> !is_white(trim_start(s)[0]),
    decreases s.len(),
{
    if s.len() > 0 && is_white(s[0]) {
        let rest = s.drop_first();
        lemma_trim_start(rest);
        let n = trim_start(s).len();
        assert(s.subrange(s.len() - n, s.len() as int) =~= rest.subrange(
            rest.len() - n,
            rest.len() as int,
        ));
        assert forall|i: int| 0 <= i < s.len() - n implies is_white(#[trigger] s[i]) by {
            if i > 0 {
                assert(rest[i - 1] == s[i]);
            }
        }
    } else {
        assert(s.subrange(0, s.len() as int) =~= s);
    }
}

proof fn lemma_trim_end(s: Seq<char>)
    ensures
        trim_end(s).len() <= s.len(),
        trim_end(s) == s.subrange(0, trim_end(s).len() as int),
        forall|i: int| trim_end(s).len() <= i < s.len() ==> is_white(#[trigger] s[i]),
        trim_end(s).len() > 0 ==> !is_white(trim_end(s).last()),
    decreases s.len(),
{
    if s.len() > 0 && is_white(s.last()) {
        let rest = s.drop_last();
        lemma_trim_end(rest);
        let n = trim_end(s).len() as int;
        assert(s.subrange(0, n) =~= rest.subrange(0, n));
        assert forall|i: int| n <= i < s.len() implies is_white(#[trigger] s[i]) by {
            if i < rest.len() {
                assert(rest[i] == s[i]);
            }
        }
    } else {
        assert(s.subrange(0, s.len() as int) =~= s);
    }
}

/// White space is what Unicode counts as such, and is no letter, digit or mark of
/// ASCII.
pub proof fn law_white_space_is_no_text(c: char)
    ensures
        is_white(' ') && is_white('\t') && is_white('\n') && is_white('\r'),
        '!' <= c <= '~' ==> !is_white(c),
        (c as u32) < 9 ==> !is_white(c),
{
}

/// Joining is writing the first part and then each other one behind the separator.
pub proof fn law_joining_puts_separators_between<T>(parts: Seq<Seq<T>>, sep: Seq<T>)
    ensures
        parts.len() == 0 ==> join(parts, sep).len() == 0,
        parts.len() > 0 ==> join(parts, sep) == parts[0] + parts.drop_first().flat_map(
            |part: Seq<T>| sep + part,
        ),
    decreases parts.len(),
{
    let f = |part: Seq<T>| sep + part;
    if parts.len() > 0 {
        let tail = parts.drop_first();
        crate::maps::lemma_flat_map_step(tail, f);
        if parts.len() == 1 {
            assert(join(parts, sep) =~= parts[0] + tail.flat_map(f));
        } else {
            let rest = parts.drop_last();
            law_joining_puts_separators_between(rest, sep);
            assert(rest.drop_first() =~= tail.drop_last());
            assert(join(parts, sep) =~= parts[0] + tail.flat_map(f));
        }
    }
}

/// Splitting and joining undo each other: the pieces of a text hold no separator and
/// give it back, and no other list of such pieces does.
pub proof fn law_splitting_undoes_joining<T>(s: Seq<T>, parts: Seq<Seq<T>>, sep: T)
    ensures
        join(split(s, sep), seq![sep]) == s,
        forall|i: int| 0 <= i < split(s, sep).len() ==> !(#[trigger] split(s, sep)[i]).contains(sep),
        parts.len() > 0 && (forall|i: int| 0 <= i < parts.len() ==> !(#[trigger] parts[i]).contains(
            sep,
        )) ==> split(join(parts, seq![sep]), sep) == parts,
    decreases parts.len(),
{
    lemma_join_split(s, sep);
    lemma_split_pieces(s, sep);
    assert forall|i: int| 0 <= i < split(s, sep).len() implies !(#[trigger] split(s, sep)[i]).contains(
        sep,
    ) by {
        if split(s, sep)[i].contains(sep) {
            let j = choose|j: int| 0 <= j < split(s, sep)[i].len() && split(s, sep)[i][j] == sep;
            assert(split(s, sep)[i][j] != sep);
        }
    }
    if parts.len() > 0 && (forall|i: int|
        0 <= i < parts.len() ==> !(#[trigger] parts[i]).contains(sep)) {
        let last = parts.last();
        assert(!parts[parts.len() - 1].contains(sep));
        lemma_split_single(last, sep);
        if parts.len() == 1 {
            assert(parts =~= seq![last]);
        } else {
            let rest = parts.drop_last();
            assert forall|i: int| 0 <= i < rest.len() implies !(#[trigger] rest[i]).contains(sep) by {
                assert(rest[i] == parts[i]);
            }
            law_splitting_undoes_joining(s, rest, sep);
            lemma_split_concat(join(rest, seq![sep]), last, sep);
            assert(split(join(parts, seq![sep]), sep) =~= parts);
        }
    }
}

/// Numbers are written in base ten, without leading zeros, and read the same way.
pub proof fn law_numbers_are_in_base_ten(n: nat, d: nat, s: Seq<char>, c: char)
    requires
        d < 10,
        '0' <= c <= '9',
    ensures
        decimal(d).len() == 1 && decimal(d)[0] as int == 48 + d,
        n > 0 ==> decimal(10 * n + d) == decimal(n) + decimal(d),
        decimal_value(s.push(c)) == 10 * decimal_value(s) + (c as int - 48),
        decimal_value(Seq::empty()) == 0,
        decimal_value(decimal(n)) == n,
        n > 0 ==> decimal(n)[0] != '0',
    decreases n,
{
    lemma_decimal(n);
    assert(s.push(c).drop_last() =~= s);
    if n > 0 {
        let m = 10 * n + d;
        assert(m / 10 == n && m % 10 == d);
        assert(decimal(m) =~= decimal(n) + decimal(d));
        if n >= 10 {
            law_numbers_are_in_base_ten(n / 10, d, s, c);
            lemma_decimal(n / 10);
            assert(decimal(n)[0] == decimal(n / 10)[0]);
        }
    }
}

/// A number reads back from its digits, with a plus sign or without, where it is
/// within the limit; and what reads as a number is digits.
pub proof fn law_unsigned_numbers_read_back(n: nat, max: u64, s: Seq<char>)
    ensures
        unsigned_of(decimal(n), max) == if n <= max {
            Some(n as u64)
        } else {
            None
        },
        unsigned_of(seq!['+'] + decimal(n), max) == unsigned_of(decimal(n), max),
        unsigned_of(s, max) matches Some(value) ==> value <= max && s.len() > 0 && (s[0] == '+'
            || '0' <= s[0] <= '9') && forall|i: int|
            1 <= i < s.len() ==> '0' <= #[trigger] s[i] <= '9',
        s.len() == 0 ==> unsigned_of(s, max) is None,
{
    lemma_decimal(n);
    assert(is_digit(decimal(n)[0]));
    assert(after(seq!['+'] + decimal(n), 1) =~= decimal(n));
    if let Some(value) = unsigned_of(s, max) {
        let digits = if s[0] == '+' {
            after(s, 1)
        } else {
            s
        };
        assert forall|i: int| 1 <= i < s.len() implies '0' <= #[trigger] s[i] <= '9' by {
            if s[0] == '+' {
                assert(is_digit(digits[i - 1]));
            } else {
                assert(is_digit(digits[i]));
            }
        }
        if s[0] != '+' {
            assert(is_digit(digits[0]));
        }
    }
}

/// Replacing a character puts the new text in its place, wherever it stands.
pub proof fn law_replacing_is_per_character(s: Seq<char>, old: char, new: Seq<char>)
    ensures
        replaced(s, old, new) == s.flat_map(
            |c: char|
                if c == old {
                    new
                } else {
                    seq![c]
                },
        ),
    decreases s.len(),
{
    let f = |c: char|
        if c == old {
            new
        } else {
            seq![c]
        };
    crate::maps::lemma_flat_map_step(s, f);
    if s.len() > 0 {
        law_replacing_is_per_character(s.drop_last(), old, new);
        assert(replaced(s, old, new) =~= s.flat_map(f));
    }
}

/// A text is found at the first place where it stands.
pub proof fn law_finding_gives_the_first_place(s: Seq<char>, what: Seq<char>, i: int)
    ensures
        find(s, what) == Some(i) <==> 0 <= i && i + what.len() <= s.len() && s.subrange(
            i,
            i + what.len() as int,
        ) == what && forall|j: int|
            0 <= j < i ==> #[trigger] s.subrange(j, j + what.len() as int) != what,
{
    lemma_finding(s, what, 0, i);
}

proof fn lemma_finding(s: Seq<char>, what: Seq<char>, from: int, i: int)
    requires
        0 <= from,
    ensures
        find_from(s, what, from) == Some(i) <==> from <= i && i + what.len() <= s.len()
            && s.subrange(i, i + what.len() as int) == what && forall|j: int|
            from <= j < i ==> #[trigger] s.subrange(j, j + what.len() as int) != what,
    decreases s.len() + 1 - from,
{
    let n = what.len() as int;
    if from <= s.len() {
        assert(from + n <= s.len() ==> after(s, from).subrange(0, n) =~= s.subrange(from, from + n));
        if starts_with(after(s, from), what) {
            assert(s.subrange(from, from + n) == what);
        } else {
            lemma_finding(s, what, from + 1, i);
            if from + n <= s.len() {
                assert(s.subrange(from, from + n) != what);
            } else if from < i && i + n <= s.len() {
                assert(false);
            }
        }
    }
}

/// The first and the last place of a character are where it stands with none before
/// or behind it.
pub proof fn law_places_of_a_character(s: Seq<char>, c: char, from: int, i: int)
    requires
        0 <= from <= s.len(),
    ensures
        first_index(s, c, from) == Some(i) <==> from <= i < s.len() && s[i] == c && forall|j: int|
            from <= j < i ==> #[trigger] s[j] != c,
        first_index(s, c, from) is None <==> forall|j: int|
            from <= j < s.len() ==> #[trigger] s[j] != c,
        last_index(s, c) == Some(i) <==> 0 <= i < s.len() && s[i] == c && forall|j: int|
            i < j < s.len() ==> #[trigger] s[j] != c,
        last_index(s, c) is None <==> forall|j: int| 0 <= j < s.len() ==> #[trigger] s[j] != c,
{
    lemma_first_place(s, c, from, i);
    lemma_last_place(s, c, i);
}

proof fn lemma_first_place(s: Seq<char>, c: char, from: int, i: int)
    requires
        0 <= from <= s.len(),
    ensures
        first_index(s, c, from) == Some(i) <==> from <= i < s.len() && s[i] == c && forall|j: int|
            from <= j < i ==> #[trigger] s[j] != c,
        first_index(s, c, from) is None <==> forall|j: int|
            from <= j < s.len() ==> #[trigger] s[j] != c,
    decreases s.len() - from,
{
    if from < s.len() && s[from] != c {
        lemma_first_place(s, c, from + 1, i);
    }
}

proof fn lemma_last_place(s: Seq<char>, c: char, i: int)
    ensures
        last_index(s, c) == Some(i) <==> 0 <= i < s.len() && s[i] == c && forall|j: int|
            i < j < s.len() ==> #[trigger] s[j] != c,
        last_index(s, c) is None <==> forall|j: int| 0 <= j < s.len() ==> #[trigger] s[j] != c,
    decreases s.len(),
{
    if s.len() > 0 {
        let rest = s.drop_last();
        lemma_last_place(rest, c, i);
        assert(forall|j: int| 0 <= j < rest.len() ==> rest[j] == s[j]);
        if s.last() == c {
            assert(s[s.len() - 1] == c);
            if i < s.len() - 1 && 0 <= i {
                assert(s[s.len() - 1] == c);
            }
        } else {
            if (forall|j: int| 0 <= j < s.len() ==> #[trigger] s[j] != c) {
                assert forall|j: int| 0 <= j < rest.len() implies #[trigger] rest[j] != c by {
                    assert(s[j] != c);
                }
            }
            if last_index(rest, c) is None {
                assert forall|j: int| 0 <= j < s.len() implies #[trigger] s[j] != c by {
                    if j < rest.len() {
                        assert(rest[j] != c);
                    }
                }
            }
            if last_index(rest, c) == Some(i) {
                assert forall|j: int| i < j < s.len() implies #[trigger] s[j] != c by {
                    if j < rest.len() {
                        assert(rest[j] != c);
                    }
                }
            }
            if 0 <= i < s.len() && s[i] == c && forall|j: int| i < j < s.len() ==> #[trigger] s[j]
                != c {
                assert(i < rest.len());
                assert(rest[i] == c);
                assert forall|j: int| i < j < rest.len() implies #[trigger] rest[j] != c by {
                    assert(s[j] != c);
                }
            }
        }
    }
}

/// A text starts or ends with another where something stands behind or before it.
pub proof fn law_prefixes_and_suffixes(s: Seq<char>, part: Seq<char>)
    ensures
        starts_with(s, part) <==> exists|rest: Seq<char>| s == #[trigger] (part + rest),
        ends_with(s, part) <==> exists|rest: Seq<char>| s == #[trigger] (rest + part),
{
    if starts_with(s, part) {
        assert(s =~= part + after(s, part.len() as int));
    }
    if exists|rest: Seq<char>| s == #[trigger] (part + rest) {
        let rest = choose|rest: Seq<char>| s == #[trigger] (part + rest);
        assert(s.subrange(0, part.len() as int) =~= part);
    }
    if ends_with(s, part) {
        assert(s =~= before(s, s.len() - part.len()) + part);
    }
    if exists|rest: Seq<char>| s == #[trigger] (rest + part) {
        let rest = choose|rest: Seq<char>| s == #[trigger] (rest + part);
        assert(s.subrange(s.len() - part.len(), s.len() as int) =~= part);
    }
}

/// A text is its first line and the lines behind it; a return at the end of a line
/// that is ended belongs to its end.
pub proof fn law_lines_end_at_newlines(line: Seq<char>, rest: Seq<char>)
    requires
        !line.contains('\n'),
    ensures
        lines(Seq::empty()).len() == 0,
        line.len() > 0 ==> lines(line) == seq![line],
        line.len() > 0 && line.last() == '\r' ==> lines(line + seq!['\n'] + rest) == seq![
            line.drop_last(),
        ] + lines(rest),
        line.len() == 0 || line.last() != '\r' ==> lines(line + seq!['\n'] + rest) == seq![line]
            + lines(rest),
{
    lemma_split_single(line, '\n');
    lemma_split_single(Seq::<char>::empty(), '\n');
    lemma_split_concat(line, rest, '\n');
    lemma_split_nonempty(rest, '\n');
    assert(lines(Seq::empty()) =~= Seq::empty());
    if line.len() > 0 {
        assert(lines(line) =~= seq![line]);
    }
    let all = line + seq!['\n'] + rest;
    assert(split(all, '\n').last() == split(rest, '\n').last());
    assert(lines(all) =~= seq![without_return(line)] + lines(rest));
}

/// Filling up adds as many spaces as are missing, and none where nothing is.
pub proof fn law_filling_up_adds_spaces(s: Seq<char>, width: int)
    ensures
        width <= s.len() ==> padded(s, width) == s && right_aligned(s, width) == s,
        width > s.len() ==> padded(s, width) == s + Seq::new((width - s.len()) as nat, |i: int| ' ')
            && right_aligned(s, width) == Seq::new((width - s.len()) as nat, |i: int| ' ') + s,
{
    lemma_spaces(width - s.len());
    if width <= s.len() {
        assert(padded(s, width) =~= s);
        assert(right_aligned(s, width) =~= s);
    }
}

proof fn lemma_spaces(n: int)
    ensures
        n <= 0 ==> spaces(n).len() == 0,
        n > 0 ==> spaces(n) == Seq::new(n as nat, |i: int| ' '),
    decreases n,
{
    if n > 0 {
        lemma_spaces(n - 1);
        assert(spaces(n) =~= Seq::new(n as nat, |i: int| ' '));
    }
}

/// A byte in hexadecimal is the digits of its two halves.
pub proof fn law_bytes_in_hexadecimal(byte: u8)
    ensures
        ({
            let digits = seq![
                '0',
                '1',
                '2',
                '3',
                '4',
                '5',
                '6',
                '7',
                '8',
                '9',
                'a',
                'b',
                'c',
                'd',
                'e',
                'f',
            ];
            hex_byte(byte) == seq![digits[byte as int / 16], digits[byte as int % 16]]
        }),
{
    assert(0 <= byte as int / 16 < 16 && 0 <= byte as int % 16 < 16);
}

} // verus!
