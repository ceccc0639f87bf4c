//! Stable sandbox names: `mk-<dir-slug>-<8 hex of sha256(kitchen file path)>`.

use vstd::prelude::*;
use vstd::utf8::encode_utf8;

use crate::digest::{short_digest, short_hash};
use crate::paths::{path_parts, take_apart};
use crate::text::{
    chars, concat4, is_alphanumeric, is_alphanumeric_char, is_digit, is_lower, lower, lower_char,
    string_of,
};

verus! {

pub const NAME_PREFIX: &'static str = "mk-";

/// Keeps names well below microsandbox's 128-byte limit.
pub const MAX_SLUG_LEN: usize = 48;

/// Letters and digits in lower case, other runs as one `-`, as far as a slug
/// may go.
pub open spec fn slugged(name: Seq<char>) -> Seq<char>
    decreases name.len(),
{
    if name.len() == 0 {
        Seq::empty()
    } else {
        let out = slugged(name.drop_last());
        let c = name.last();
        if out.len() >= MAX_SLUG_LEN {
            out
        } else if is_alphanumeric(c) {
            out.push(lower(c))
        } else if out.len() > 0 && out.last() != '-' {
            out.push('-')
        } else {
            out
        }
    }
}

/// A text without the dashes at its end.
pub open spec fn without_dashes(s: Seq<char>) -> Seq<char>
    decreases s.len(),
{
    if s.len() > 0 && s.last() == '-' {
        without_dashes(s.drop_last())
    } else {
        s
    }
}

/// The part of a sandbox's name that comes from a directory.
pub open spec fn slug_of(name: Seq<char>) -> Seq<char> {
    let out = without_dashes(slugged(name));
    if out.len() == 0 {
        "kitchen"@
    } else {
        out
    }
}

/// The sandbox name for a kitchen file.
pub open spec fn name_of(kitchen_file: Seq<char>, kitchen_dir: Seq<char>) -> Seq<char> {
    let dir = match path_parts(kitchen_dir).file_name() {
        Some(name) => name,
        None => ""@,
    };
    NAME_PREFIX@ + slug_of(dir) + "-"@ + short_hash(encode_utf8(kitchen_file), 4)
}

/// The sandbox name for a kitchen file, stable for as long as the file stays put.
pub fn sandbox_name(kitchen_file: &str, kitchen_dir: &str) -> (r: String)
    ensures
        r@ == name_of(kitchen_file@, kitchen_dir@),
        r@.len() < 64,
{
    let dir = take_apart(kitchen_dir);
    let name = match dir.file_name() {
        Some(name) => name,
        None => "",
    };
    let slug = slug(name);
    let hash = short_digest(kitchen_file.as_bytes(), 4);
    proof {
        reveal_strlit("mk-");
        reveal_strlit("-");
        law_slugs_follow_the_grammar(name@);
    }
    concat4(NAME_PREFIX, slug.as_str(), "-", hash.as_str())
}

/// Lowercase ASCII letters and digits, other runs collapsed into one `-`.
pub fn slug(name: &str) -> (r: String)
    ensures
        r@ == slug_of(name@),
{
    let v = chars(name);
    let mut out: Vec<char> = Vec::new();
    let mut i: usize = 0;
    assert(name@.subrange(0, 0) =~= Seq::empty());
    while i < v.len()
        invariant
            i <= v@.len(),
            v@ == name@,
            out@ == slugged(name@.subrange(0, i as int)),
        decreases v@.len() - i,
    {
        assert(name@.subrange(0, i + 1).drop_last() =~= name@.subrange(0, i as int));
        let c = v[i];
        if out.len() >= MAX_SLUG_LEN {
        } else if is_alphanumeric_char(c) {
            out.push(lower_char(c));
        } else if out.len() > 0 && out[out.len() - 1] != '-' {
            out.push('-');
        }
        i += 1;
    }
    assert(name@.subrange(0, v@.len() as int) =~= name@);
    let ghost raw = out@;
    let mut n: usize = out.len();
    assert(raw.subrange(0, n as int) =~= raw);
    while n > 0 && out[n - 1] == '-'
        invariant
            n <= out@.len(),
            out@ == raw,
            without_dashes(raw) == without_dashes(raw.subrange(0, n as int)),
        decreases n,
    {
        assert(raw.subrange(0, n as int).drop_last() =~= raw.subrange(0, n - 1));
        n -= 1;
    }
    if n == 0 {
        "kitchen".to_owned()
    } else {
        string_of(&out, 0, n)
    }
}

// ---------------------------------------------------------------------------
// Laws
// ---------------------------------------------------------------------------

/// What a slug is made of: lower-case letters and digits, and single dashes
/// between them.
pub open spec fn is_slug(s: Seq<char>) -> bool {
    &&& 0 < s.len() <= MAX_SLUG_LEN
    &&& forall|i: int|
        0 <= i < s.len() ==> is_lower(#[trigger] s[i]) || is_digit(s[i]) || s[i] == '-'
    &&& s[0] != '-'
    &&& s.last() != '-'
    &&& forall|i: int| #![trigger s[i]] 0 < i < s.len() && s[i] == '-' ==> s[i - 1] != '-'
}

spec fn slug_so_far(s: Seq<char>) -> bool {
    &&& s.len() <= MAX_SLUG_LEN
    &&& forall|i: int|
        0 <= i < s.len() ==> is_lower(#[trigger] s[i]) || is_digit(s[i]) || s[i] == '-'
    &&& s.len() > 0 ==> s[0] != '-'
    &&& forall|i: int| #![trigger s[i]] 0 < i < s.len() && s[i] == '-' ==> s[i - 1] != '-'
}

proof fn lemma_slugged(name: Seq<char>)
    ensures
        slug_so_far(slugged(name)),
    decreases name.len(),
{
    if name.len() > 0 {
        lemma_slugged(name.drop_last());
        let out = slugged(name.drop_last());
        let c = name.last();
        let now = slugged(name);
        if out.len() < MAX_SLUG_LEN && (is_alphanumeric(c) || (out.len() > 0 && out.last() != '-')) {
            assert forall|i: int| #![trigger now[i]] 0 < i < now.len() && now[i] == '-' implies now[i
                - 1] != '-' by {
                assert(now[i - 1] == out[i - 1]);
                if i < out.len() {
                    assert(now[i] == out[i]);
                }
            }
        }
    }
}

proof fn lemma_without_dashes(s: Seq<char>)
    requires
        slug_so_far(s),
    ensures
        slug_so_far(without_dashes(s)),
        without_dashes(s).len() > 0 ==> without_dashes(s).last() != '-',
    decreases s.len(),
{
    if s.len() > 0 && s.last() == '-' {
        let t = s.drop_last();
        assert forall|i: int| #![trigger t[i]] 0 < i < t.len() && t[i] == '-' implies t[i - 1]
            != '-' by {
            assert(s[i] == t[i] && s[i - 1] == t[i - 1]);
        }
        lemma_without_dashes(t);
    }
}

/// Every directory gives a slug: not empty, at most [`MAX_SLUG_LEN`] long, of
/// lower-case letters, digits and single dashes, with a letter or digit at
/// either end.
pub proof fn law_slugs_follow_the_grammar(name: Seq<char>)
    ensures
        is_slug(slug_of(name)),
{
    reveal_strlit("kitchen");
    lemma_slugged(name);
    lemma_without_dashes(slugged(name));
}

/// Whether no character of a text is a letter or a digit.
pub open spec fn no_letters(s: Seq<char>) -> bool {
    forall|i: int| 0 <= i < s.len() ==> !is_alphanumeric(#[trigger] s[i])
}

/// What a slug is made of: letters and digits, in lower case and in order; what stands
/// between them gives one dash, and what stands before them gives nothing. A longer name
/// gives the same and then more.
pub proof fn law_slugs_are_made_of_letters(
    name: Seq<char>,
    c: char,
    other: Seq<char>,
    behind: Seq<char>,
)
    requires
        is_alphanumeric(c),
        no_letters(other),
        other.len() > 0,
    ensures
        slugged(other).len() == 0,
        slugged(name).len() < 48 ==> slugged(name + seq![c]) == slugged(name) + seq![
            if 'A' <= c <= 'Z' {
                ((c as u32) + 32) as char
            } else {
                c
            },
        ],
        slugged(name).len() < 47 ==> slugged(name + seq![c] + other) == slugged(name + seq![c])
            + seq!['-'],
        slugged(name).len() >= 48 ==> slugged(name + behind) == slugged(name),
        slugged(name).len() <= slugged(name + behind).len() && slugged(name + behind).subrange(
            0,
            slugged(name).len() as int,
        ) == slugged(name),
{
    lemma_no_letters(other);
    let one = name + seq![c];
    assert(one.drop_last() =~= name);
    if slugged(name).len() < 48 {
        assert(slugged(one) =~= slugged(name) + seq![lower(c)]);
    }
    if slugged(name).len() < 47 {
        lemma_one_dash(one, other);
    }
    lemma_slug_grows(name, behind);
}

proof fn lemma_no_letters(s: Seq<char>)
    requires
        no_letters(s),
    ensures
        slugged(s).len() == 0,
    decreases s.len(),
{
    if s.len() > 0 {
        let rest = s.drop_last();
        assert forall|i: int| 0 <= i < rest.len() implies !is_alphanumeric(#[trigger] rest[i]) by {
            assert(rest[i] == s[i]);
        }
        lemma_no_letters(rest);
        assert(!is_alphanumeric(s[s.len() - 1]));
    }
}

proof fn lemma_one_dash(name: Seq<char>, other: Seq<char>)
    requires
        no_letters(other),
        other.len() > 0,
        0 < slugged(name).len() < 48,
        slugged(name).last() != '-',
    ensures
        slugged(name + other) == slugged(name) + seq!['-'],
    decreases other.len(),
{
    let rest = other.drop_last();
    let all = name + other;
    assert(all.drop_last() =~= name + rest);
    assert(!is_alphanumeric(other[other.len() - 1]));
    if rest.len() == 0 {
        assert(name + rest =~= name);
        assert(slugged(all) =~= slugged(name) + seq!['-']);
    } else {
        assert forall|i: int| 0 <= i < rest.len() implies !is_alphanumeric(#[trigger] rest[i]) by {
            assert(rest[i] == other[i]);
        }
        lemma_one_dash(name, rest);
    }
}

proof fn lemma_slug_grows(name: Seq<char>, behind: Seq<char>)
    ensures
        slugged(name).len() <= slugged(name + behind).len(),
        slugged(name + behind).subrange(0, slugged(name).len() as int) == slugged(name),
        slugged(name).len() >= 48 ==> slugged(name + behind) == slugged(name),
    decreases behind.len(),
{
    let n = slugged(name).len() as int;
    if behind.len() == 0 {
        assert(name + behind =~= name);
        assert(slugged(name).subrange(0, n) =~= slugged(name));
    } else {
        let rest = behind.drop_last();
        lemma_slug_grows(name, rest);
        assert((name + behind).drop_last() =~= name + rest);
        assert(slugged(name + behind).subrange(0, n) =~= slugged(name + rest).subrange(0, n));
    }
}

/// A name that has letters or digits gives its slug without a dash at the end, and one
/// that has none is called "kitchen". A sandbox's name is made of its directory and of
/// the whole path of its file.
pub proof fn law_sandbox_names(name: Seq<char>, file: Seq<char>, dir: Seq<char>)
    ensures
        no_letters(name) ==> slug_of(name) == "kitchen"@,
        slugged(name).len() > 0 && slugged(name).last() != '-' ==> slug_of(name) == slugged(name),
        slugged(name).len() > 1 && slugged(name).last() == '-' ==> slug_of(name) == slugged(
            name,
        ).drop_last(),
        name_of(file, dir) == "mk-"@ + slug_of(
            match path_parts(dir).file_name() {
                Some(name) => name,
                None => Seq::empty(),
            },
        ) + seq!['-'] + short_hash(encode_utf8(file), 4),
{
    reveal_strlit("");
    reveal_strlit("-");
    assert(""@ =~= Seq::empty());
    assert("-"@ =~= seq!['-']);
    if no_letters(name) {
        lemma_no_letters(name);
    }
    lemma_slugged(name);
    let s = slugged(name);
    if s.len() > 1 && s.last() == '-' {
        assert(s[s.len() - 1] == '-');
        assert(s[s.len() - 2] != '-');
        assert(s.drop_last().last() == s[s.len() - 2]);
        reveal_with_fuel(without_dashes, 3);
    }
}

} // verus!
