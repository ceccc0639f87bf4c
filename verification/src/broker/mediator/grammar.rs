//! Strict hostname grammar.
//!
//! Applied to SOCKS5 domain-name fields and to configured rule entries. Input
//! that does not match is rejected, never repaired: no trimming, no truncation
//! at a null byte, no case folding into validity. A repair step is where the
//! decision engine and the connection layer end up judging different strings.

use vstd::prelude::*;

use crate::text::{
    ascii_text, hex_byte, is_ascii_bytes, is_digit, is_lower, is_upper, lemma_ascii_text,
    lemma_split_pieces, push_hex, split, split_at, utf8, views, chars, decimal, push_decimal,
};

verus! {

/// Maximum length of a hostname in its textual form, without a trailing dot.
pub const MAX_NAME_LEN: usize = 253;

/// Maximum length of a single label.
pub const MAX_LABEL_LEN: usize = 63;

/// Why a byte string is not an acceptable hostname.
#[derive(Debug, Clone, Copy, PartialEq, Eq, Structural)]
pub enum GrammarError {
    Empty,
    TooLong,
    EmptyLabel,
    LabelTooLong,
    HyphenAtEdge,
    InvalidByte(u8),
}

/// Letters, digits, hyphens and the dots between labels.
pub open spec fn is_name_byte(byte: u8) -> bool {
    ||| 48 <= byte <= 57
    ||| 65 <= byte <= 90
    ||| 97 <= byte <= 122
    ||| byte == 45
    ||| byte == 46
}

/// The first byte that no hostname holds.
pub open spec fn first_invalid(bytes: Seq<u8>) -> Option<u8>
    decreases bytes.len(),
{
    if bytes.len() == 0 {
        None
    } else if first_invalid(bytes.drop_last()) is Some {
        first_invalid(bytes.drop_last())
    } else if is_name_byte(bytes.last()) {
        None
    } else {
        Some(bytes.last())
    }
}

pub open spec fn label_error(label: Seq<char>) -> Option<GrammarError> {
    if label.len() == 0 {
        Some(GrammarError::EmptyLabel)
    } else if label.len() > MAX_LABEL_LEN {
        Some(GrammarError::LabelTooLong)
    } else if label[0] == '-' || label.last() == '-' {
        Some(GrammarError::HyphenAtEdge)
    } else {
        None
    }
}

/// What is wrong with the first label that is not in order.
pub open spec fn first_label_error(labels: Seq<Seq<char>>) -> Option<GrammarError>
    decreases labels.len(),
{
    if labels.len() == 0 {
        None
    } else if first_label_error(labels.drop_last()) is Some {
        first_label_error(labels.drop_last())
    } else {
        label_error(labels.last())
    }
}

/// Why `bytes` are not a hostname, or `None` where they are one.
pub open spec fn hostname_error(bytes: Seq<u8>) -> Option<GrammarError> {
    if bytes.len() == 0 {
        Some(GrammarError::Empty)
    } else if first_invalid(bytes) is Some {
        Some(GrammarError::InvalidByte(first_invalid(bytes)->0))
    } else if bytes.len() > MAX_NAME_LEN {
        Some(GrammarError::TooLong)
    } else {
        first_label_error(split(ascii_text(bytes), '.'))
    }
}

/// A label of 1 to 63 letters, digits and hyphens with no hyphen at an edge.
pub open spec fn is_label(label: Seq<char>) -> bool {
    &&& 1 <= label.len() <= MAX_LABEL_LEN
    &&& label[0] != '-'
    &&& label.last() != '-'
    &&& forall|i: int|
        0 <= i < label.len() ==> is_digit(#[trigger] label[i]) || is_upper(label[i]) || is_lower(
            label[i],
        ) || label[i] == '-'
}

/// A hostname: at most 253 characters, dots between labels.
pub open spec fn is_hostname(name: Seq<char>) -> bool {
    &&& name.len() <= MAX_NAME_LEN
    &&& forall|i: int|
        0 <= i < split(name, '.').len() ==> is_label(#[trigger] split(name, '.')[i])
}

proof fn lemma_first_invalid(bytes: Seq<u8>)
    ensures
        first_invalid(bytes) is None <==> forall|i: int|
            0 <= i < bytes.len() ==> is_name_byte(#[trigger] bytes[i]),
    decreases bytes.len(),
{
    if bytes.len() > 0 {
        let rest = bytes.drop_last();
        lemma_first_invalid(rest);
        if forall|i: int| 0 <= i < bytes.len() ==> is_name_byte(#[trigger] bytes[i]) {
            assert forall|i: int| 0 <= i < rest.len() implies is_name_byte(#[trigger] rest[i]) by {
                assert(rest[i] == bytes[i]);
            }
            assert(is_name_byte(bytes[bytes.len() - 1]));
        } else if first_invalid(bytes) is None {
            assert forall|i: int| 0 <= i < bytes.len() implies is_name_byte(#[trigger] bytes[i]) by {
                if i < rest.len() {
                    assert(rest[i] == bytes[i]);
                }
            }
        }
    }
}

proof fn lemma_first_label_error(labels: Seq<Seq<char>>)
    ensures
        first_label_error(labels) is None <==> forall|i: int|
            0 <= i < labels.len() ==> label_error(#[trigger] labels[i]) is None,
    decreases labels.len(),
{
    if labels.len() > 0 {
        let rest = labels.drop_last();
        lemma_first_label_error(rest);
        if forall|i: int| 0 <= i < labels.len() ==> label_error(#[trigger] labels[i]) is None {
            assert forall|i: int| 0 <= i < rest.len() implies label_error(#[trigger] rest[i]) is None by {
                assert(rest[i] == labels[i]);
            }
            assert(label_error(labels[labels.len() - 1]) is None);
        } else if first_label_error(labels) is None {
            assert forall|i: int| 0 <= i < labels.len() implies label_error(#[trigger] labels[i]) is None by {
                if i < rest.len() {
                    assert(rest[i] == labels[i]);
                }
            }
        }
    }
}

/// The bytes that pass are the encodings of hostnames, and no others.
pub proof fn law_validation_is_the_grammar(bytes: Seq<u8>)
    ensures
        hostname_error(bytes) is None <==> is_ascii_bytes(bytes) && is_hostname(ascii_text(bytes)),
{
    let text = ascii_text(bytes);
    lemma_first_invalid(bytes);
    lemma_first_label_error(split(text, '.'));
    lemma_split_pieces(text, '.');
    let labels = split(text, '.');
    if hostname_error(bytes) is None {
        assert forall|i: int| 0 <= i < bytes.len() implies #[trigger] bytes[i] < 128 by {
            assert(is_name_byte(bytes[i]));
        }
        assert forall|i: int| 0 <= i < labels.len() implies is_label(#[trigger] labels[i]) by {
            let label = labels[i];
            assert(label_error(label) is None);
            assert forall|j: int| 0 <= j < label.len() implies is_digit(#[trigger] label[j])
                || is_upper(label[j]) || is_lower(label[j]) || label[j] == '-' by {
                assert(labels[i][j] != '.' && text.contains(labels[i][j]));
                let k = choose|k: int| 0 <= k < text.len() && text[k] == label[j];
                assert(is_name_byte(bytes[k]));
            }
        }
    }
    if is_ascii_bytes(bytes) && is_hostname(text) {
        if bytes.len() == 0 {
            assert(text =~= Seq::empty());
            assert(split(text, '.') =~= seq![Seq::<char>::empty()]);
            assert(is_label(split(text, '.')[0]));
        }
        lemma_label_chars_cover(text);
        assert forall|i: int| 0 <= i < bytes.len() implies is_name_byte(#[trigger] bytes[i]) by {
            assert(bytes[i] < 128);
            assert(text[i] == bytes[i] as char);
        }
        assert forall|i: int| 0 <= i < labels.len() implies label_error(#[trigger] labels[i]) is None by {
            assert(is_label(labels[i]));
        }
    }
}

/// Where every piece is a label, every character is a label's or a dot.
pub proof fn lemma_label_chars_cover(text: Seq<char>)
    requires
        forall|i: int| 0 <= i < split(text, '.').len() ==> is_label(#[trigger] split(text, '.')[i]),
    ensures
        forall|k: int|
            0 <= k < text.len() ==> is_digit(#[trigger] text[k]) || is_upper(text[k]) || is_lower(
                text[k],
            ) || text[k] == '-' || text[k] == '.',
{
    lemma_pieces_cover(text, '.');
    let labels = split(text, '.');
    assert forall|k: int| 0 <= k < text.len() implies is_digit(#[trigger] text[k]) || is_upper(
        text[k],
    ) || is_lower(text[k]) || text[k] == '-' || text[k] == '.' by {
        if text[k] != '.' {
            let (i, j) = choose|i: int, j: int|
                0 <= i < labels.len() && 0 <= j < labels[i].len() && #[trigger] labels[i][j]
                    == text[k];
            assert(is_label(labels[i]));
            assert(labels[i][j] == text[k]);
        }
    }
}

/// Every character but the separator stands in some piece.
proof fn lemma_pieces_cover(s: Seq<char>, sep: char)
    ensures
        forall|k: int|
            0 <= k < s.len() && #[trigger] s[k] != sep ==> exists|i: int, j: int|
                0 <= i < split(s, sep).len() && 0 <= j < split(s, sep)[i].len()
                    && #[trigger] split(s, sep)[i][j] == s[k],
    decreases s.len(),
{
    if s.len() > 0 {
        let rest = s.drop_last();
        lemma_pieces_cover(rest, sep);
        lemma_split_pieces(rest, sep);
        let p = split(rest, sep);
        let q = split(s, sep);
        assert forall|k: int| 0 <= k < s.len() && #[trigger] s[k] != sep implies exists|i: int, j: int|
            0 <= i < q.len() && 0 <= j < q[i].len() && #[trigger] q[i][j] == s[k] by {
            if k < rest.len() {
                assert(rest[k] == s[k]);
                let (i, j) = choose|i: int, j: int|
                    0 <= i < p.len() && 0 <= j < p[i].len() && #[trigger] p[i][j] == rest[k];
                assert(q[i][j] == p[i][j]);
            } else {
                let i = p.len() - 1;
                assert(q[i][p[i].len() as int] == s[k]);
            }
        }
    }
}

/// Validate `bytes` as an LDH hostname and return it as a string slice.
///
/// Labels are 1–63 bytes of ASCII letters, digits and hyphens, not starting or
/// ending with a hyphen; the whole name is at most 253 bytes. A trailing dot is
/// an empty label and therefore rejected.
pub fn validate_hostname(bytes: &[u8]) -> (r: Result<&str, GrammarError>)
    ensures
        match r {
            Ok(name) => hostname_error(bytes@) is None && is_ascii_bytes(bytes@) && name@
                == ascii_text(bytes@),
            Err(error) => hostname_error(bytes@) == Some(error),
        },
{
    if bytes.len() == 0 {
        return Err(GrammarError::Empty);
    }
    let mut i: usize = 0;
    assert(bytes@.subrange(0, 0) =~= Seq::empty());
    while i < bytes.len()
        invariant
            i <= bytes@.len(),
            first_invalid(bytes@.subrange(0, i as int)) is None,
        decreases bytes@.len() - i,
    {
        let byte: u8 = bytes[i];
        assert(bytes@.subrange(0, i + 1).drop_last() =~= bytes@.subrange(0, i as int));
        let allowed = (48 <= byte && byte <= 57) || (65 <= byte && byte <= 90) || (97 <= byte && byte
            <= 122) || byte == 45 || byte == 46;
        if !allowed {
            proof {
                lemma_first_invalid_extends(bytes@, i + 1);
            }
            return Err(GrammarError::InvalidByte(byte));
        }
        i += 1;
    }
    assert(bytes@.subrange(0, bytes@.len() as int) =~= bytes@);
    if bytes.len() > MAX_NAME_LEN {
        return Err(GrammarError::TooLong);
    }
    proof {
        lemma_first_invalid(bytes@);
        assert forall|k: int| 0 <= k < bytes@.len() implies #[trigger] bytes@[k] < 128 by {
            assert(is_name_byte(bytes@[k]));
        }
        lemma_ascii_text(bytes@);
    }
    let name = match utf8(bytes) {
        Some(name) => name,
        None => return Err(GrammarError::Empty),
    };
    assert(encode_is(name@, bytes@));
    let text = chars(name);
    let labels = split_at(&text, '.');
    let mut k: usize = 0;
    assert(views(labels@).subrange(0, 0) =~= Seq::empty());
    while k < labels.len()
        invariant
            k <= labels@.len(),
            views(labels@) == split(ascii_text(bytes@), '.'),
            first_label_error(views(labels@).subrange(0, k as int)) is None,
            bytes@.len() > 0,
            first_invalid(bytes@) is None,
            bytes@.len() <= MAX_NAME_LEN,
        decreases labels@.len() - k,
    {
        assert(views(labels@).subrange(0, k + 1).drop_last() =~= views(labels@).subrange(0, k as int));
        let label = chars(labels[k].as_str());
        let error = if label.len() == 0 {
            Some(GrammarError::EmptyLabel)
        } else if label.len() > MAX_LABEL_LEN {
            Some(GrammarError::LabelTooLong)
        } else if label[0] == '-' || label[label.len() - 1] == '-' {
            Some(GrammarError::HyphenAtEdge)
        } else {
            None
        };
        assert(error == label_error(views(labels@)[k as int]));
        if let Some(error) = error {
            proof {
                lemma_first_label_error_extends(views(labels@), k + 1);
            }
            return Err(error);
        }
        k += 1;
    }
    assert(views(labels@).subrange(0, labels@.len() as int) =~= views(labels@));
    Ok(name)
}

spec fn encode_is(text: Seq<char>, bytes: Seq<u8>) -> bool {
    vstd::utf8::encode_utf8(text) == bytes
}

proof fn lemma_first_invalid_extends(bytes: Seq<u8>, n: int)
    requires
        0 <= n <= bytes.len(),
        first_invalid(bytes.subrange(0, n)) is Some,
    ensures
        first_invalid(bytes) == first_invalid(bytes.subrange(0, n)),
    decreases bytes.len() - n,
{
    if n < bytes.len() {
        assert(bytes.subrange(0, n + 1).drop_last() =~= bytes.subrange(0, n));
        lemma_first_invalid_extends(bytes, n + 1);
    } else {
        assert(bytes.subrange(0, n) =~= bytes);
    }
}

proof fn lemma_first_label_error_extends(labels: Seq<Seq<char>>, n: int)
    requires
        0 <= n <= labels.len(),
        first_label_error(labels.subrange(0, n)) is Some,
    ensures
        first_label_error(labels) == first_label_error(labels.subrange(0, n)),
    decreases labels.len() - n,
{
    if n < labels.len() {
        assert(labels.subrange(0, n + 1).drop_last() =~= labels.subrange(0, n));
        lemma_first_label_error_extends(labels, n + 1);
    } else {
        assert(labels.subrange(0, n) =~= labels);
    }
}

impl GrammarError {
    pub open spec fn spec_text(self) -> Seq<char> {
        match self {
            GrammarError::Empty => "the name is empty"@,
            GrammarError::TooLong => "the name is longer than "@ + decimal(MAX_NAME_LEN as nat)
                + " bytes"@,
            GrammarError::EmptyLabel => "the name contains an empty label"@,
            GrammarError::LabelTooLong => "a label is longer than "@ + decimal(MAX_LABEL_LEN as nat)
                + " bytes"@,
            GrammarError::HyphenAtEdge => "a label starts or ends with '-'"@,
            GrammarError::InvalidByte(byte) => "byte 0x"@ + hex_byte(byte)
                + " is not allowed; only ASCII letters, digits, '-' and '.' are"@,
        }
    }

    /// The error in words.
    pub fn to_text(&self) -> (r: String)
        ensures
            r@ == self.spec_text(),
    {
        match *self {
            GrammarError::Empty => "the name is empty".to_owned(),
            GrammarError::TooLong => {
                let mut r = "the name is longer than ".to_owned();
                push_decimal(&mut r, MAX_NAME_LEN as u64);
                r.push_str(" bytes");
                r
            },
            GrammarError::EmptyLabel => "the name contains an empty label".to_owned(),
            GrammarError::LabelTooLong => {
                let mut r = "a label is longer than ".to_owned();
                push_decimal(&mut r, MAX_LABEL_LEN as u64);
                r.push_str(" bytes");
                r
            },
            GrammarError::HyphenAtEdge => "a label starts or ends with '-'".to_owned(),
            GrammarError::InvalidByte(byte) => {
                let mut r = "byte 0x".to_owned();
                push_hex(&mut r, byte);
                r.push_str(" is not allowed; only ASCII letters, digits, '-' and '.' are");
                r
            },
        }
    }
}

/// A host name is at most 253 characters: labels of 1 to 63 letters, digits and
/// hyphens, with no hyphen at either end, and dots between them.
pub proof fn law_host_names(name: Seq<char>)
    ensures
        is_hostname(name) <==> name.len() <= 253 && forall|i: int|
            #![trigger split(name, '.')[i]]
            0 <= i < split(name, '.').len() ==> {
                let label = split(name, '.')[i];
                &&& 1 <= label.len() <= 63
                &&& label[0] != '-' && label[label.len() - 1] != '-'
                &&& forall|k: int|
                    0 <= k < label.len() ==> ('0' <= #[trigger] label[k] <= '9' || 'A' <= label[k]
                        <= 'Z' || 'a' <= label[k] <= 'z' || label[k] == '-')
            },
{
    if is_hostname(name) {
        assert forall|i: int|
            #![trigger split(name, '.')[i]]
            0 <= i < split(name, '.').len() implies {
            let label = split(name, '.')[i];
            &&& 1 <= label.len() <= 63
            &&& label[0] != '-' && label[label.len() - 1] != '-'
            &&& forall|k: int|
                0 <= k < label.len() ==> ('0' <= #[trigger] label[k] <= '9' || 'A' <= label[k]
                    <= 'Z' || 'a' <= label[k] <= 'z' || label[k] == '-')
        } by {
            assert(is_label(split(name, '.')[i]));
        }
    }
}

/// A name is refused for the first byte that may not stand in it, then for its
/// length, then for the first label that is not in order.
pub proof fn law_names_are_refused_for_one_reason(bytes: Seq<u8>, i: int)
    requires
        0 <= i < bytes.len(),
        forall|j: int| 0 <= j < i ==> is_name_byte(#[trigger] bytes[j]),
    ensures
        hostname_error(Seq::empty()) == Some(GrammarError::Empty),
        !is_name_byte(bytes[i]) ==> hostname_error(bytes) == Some(
            GrammarError::InvalidByte(bytes[i]),
        ),
        (forall|j: int| 0 <= j < bytes.len() ==> is_name_byte(#[trigger] bytes[j])) && bytes.len()
            > 253 ==> hostname_error(bytes) == Some(GrammarError::TooLong),
        is_name_byte(bytes[i]) <==> (48 <= bytes[i] <= 57 || 65 <= bytes[i] <= 90 || 97 <= bytes[i]
            <= 122 || bytes[i] == 45 || bytes[i] == 46),
{
    lemma_first_invalid(bytes);
    if !is_name_byte(bytes[i]) {
        lemma_first_invalid_at(bytes, i);
    }
}

proof fn lemma_first_invalid_at(bytes: Seq<u8>, i: int)
    requires
        0 <= i < bytes.len(),
        !is_name_byte(bytes[i]),
        forall|j: int| 0 <= j < i ==> is_name_byte(#[trigger] bytes[j]),
    ensures
        first_invalid(bytes) == Some(bytes[i]),
    decreases bytes.len(),
{
    let rest = bytes.drop_last();
    if i < rest.len() {
        assert(rest[i] == bytes[i]);
        lemma_first_invalid_at(rest, i);
    } else {
        lemma_first_invalid(rest);
        assert forall|j: int| 0 <= j < rest.len() implies is_name_byte(#[trigger] rest[j]) by {
            assert(rest[j] == bytes[j]);
        }
    }
}

/// What is wrong with a label: that it is empty, longer than 63 characters, or has a
/// hyphen at an end. The first label that is not in order decides.
pub proof fn law_labels_are_refused_for_one_reason(labels: Seq<Seq<char>>, i: int)
    requires
        0 <= i < labels.len(),
        forall|j: int| 0 <= j < i ==> label_error(#[trigger] labels[j]) is None,
    ensures
        label_error(labels[i]) == if labels[i].len() == 0 {
            Some(GrammarError::EmptyLabel)
        } else if labels[i].len() > 63 {
            Some(GrammarError::LabelTooLong)
        } else if labels[i][0] == '-' || labels[i][labels[i].len() - 1] == '-' {
            Some(GrammarError::HyphenAtEdge)
        } else {
            None
        },
        label_error(labels[i]) is Some ==> first_label_error(labels) == label_error(labels[i]),
    decreases labels.len(),
{
    if label_error(labels[i]) is Some {
        let rest = labels.drop_last();
        if i < rest.len() {
            assert(rest[i] == labels[i]);
            assert forall|j: int| 0 <= j < i implies label_error(#[trigger] rest[j]) is None by {
                assert(rest[j] == labels[j]);
            }
            law_labels_are_refused_for_one_reason(rest, i);
        } else {
            lemma_first_label_error(rest);
            assert forall|j: int| 0 <= j < rest.len() implies label_error(#[trigger] rest[j]) is None by {
                assert(rest[j] == labels[j]);
            }
        }
    }
}

} // verus!
