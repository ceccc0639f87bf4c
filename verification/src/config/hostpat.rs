//! Network rule entries: exact host, `*.suffix`, IP address, or CIDR.

use vstd::prelude::*;
use vstd::utf8::encode_utf8;

use crate::broker::mediator::grammar::{
    hostname_error, is_hostname, law_validation_is_the_grammar, validate_hostname, GrammarError,
};
use crate::ip::{ip_from_text, ip_text, net_from_text, read_ip, read_net, IpAddr, IpNet};
use crate::text::{
    after, all_digits, ascii_text, chars, concat, contains_char, ends_with, has_suffix,
    is_ascii_bytes, is_digit, is_digit_char, lemma_ascii_text, lemma_split_nonempty, lower,
    lowercase, same, split, split_at, starts_with, strip_prefix, to_lowercase, views,
};

verus! {

/// One entry of an `allow` or `deny` list.
///
/// Names are stored lowercased; matching is case-insensitive.
#[derive(Debug, PartialEq, Eq, Hash)]
pub enum HostPattern {
    /// `example.com`: that name only.
    Exact(String),
    /// `*.example.com`: `example.com` and every name below it.
    Suffix(String),
    /// `203.0.113.7` or `2001:db8::1`.
    Address(IpAddr),
    /// `203.0.113.0/24`. Host bits must be zero.
    Network(IpNet),
}

/// A [`HostPattern`] by its contents.
pub enum PatternView {
    Exact(Seq<char>),
    Suffix(Seq<char>),
    Address(IpAddr),
    Network(IpNet),
}

/// Why a rule entry was rejected.
#[derive(Debug, PartialEq, Eq)]
pub enum PatternError {
    Grammar(GrammarError),
    Cidr,
    HostBits(String),
    NumericTld,
}

/// A [`PatternError`] by its contents.
pub enum PatternErrorView {
    Grammar(GrammarError),
    Cidr,
    HostBits(Seq<char>),
    NumericTld,
}

impl View for HostPattern {
    type V = PatternView;

    open spec fn view(&self) -> PatternView {
        match self {
            HostPattern::Exact(name) => PatternView::Exact(name@),
            HostPattern::Suffix(name) => PatternView::Suffix(name@),
            HostPattern::Address(address) => PatternView::Address(*address),
            HostPattern::Network(net) => PatternView::Network(*net),
        }
    }
}

impl View for PatternError {
    type V = PatternErrorView;

    open spec fn view(&self) -> PatternErrorView {
        match self {
            PatternError::Grammar(error) => PatternErrorView::Grammar(*error),
            PatternError::Cidr => PatternErrorView::Cidr,
            PatternError::HostBits(net) => PatternErrorView::HostBits(net@),
            PatternError::NumericTld => PatternErrorView::NumericTld,
        }
    }
}

impl Clone for HostPattern {
    fn clone(&self) -> (r: Self)
        ensures
            r@ == self@,
    {
        match self {
            HostPattern::Exact(name) => HostPattern::Exact(name.clone()),
            HostPattern::Suffix(name) => HostPattern::Suffix(name.clone()),
            HostPattern::Address(address) => HostPattern::Address(*address),
            HostPattern::Network(net) => HostPattern::Network(*net),
        }
    }
}

impl PatternView {
    pub open spec fn by_name(self) -> bool {
        self is Exact || self is Suffix
    }

    /// The names that the entry matches: for a suffix its apex and everything
    /// below it.
    pub open spec fn matches_name(self, name: Seq<char>) -> bool {
        match self {
            PatternView::Exact(exact) => lowercase(name) == exact,
            PatternView::Suffix(suffix) => lowercase(name) == suffix || ends_with(
                lowercase(name),
                "."@ + suffix,
            ),
            _ => false,
        }
    }

    /// The addresses that the entry matches.
    pub open spec fn matches_address(self, address: IpAddr) -> bool {
        match self {
            PatternView::Address(own) => own.canonical() == address.canonical(),
            PatternView::Network(net) => net.holds(address.canonical()),
            _ => false,
        }
    }

    pub open spec fn text(self) -> Seq<char> {
        match self {
            PatternView::Exact(name) => name,
            PatternView::Suffix(name) => "*."@ + name,
            PatternView::Address(address) => ip_text(address),
            PatternView::Network(net) => net.spec_text(),
        }
    }

    /// Whether reading the entry's own text gives the entry: so it is with every
    /// entry that was read.
    pub open spec fn is_canonical(self) -> bool {
        pattern_text(self.text()) == Ok::<PatternView, PatternErrorView>(self)
    }

    /// What parsing establishes: names are lowercase hostnames whose last
    /// label is not a number, networks have no host bits.
    pub open spec fn well_formed(self) -> bool {
        match self {
            PatternView::Exact(name) | PatternView::Suffix(name) => is_hostname(name) && lowercase(
                name,
            ) == name && !numeric_tld(name),
            PatternView::Address(_) => true,
            PatternView::Network(net) => net.truncated() == net,
        }
    }
}

/// Whether the last label of a name is a number.
pub open spec fn numeric_tld(name: Seq<char>) -> bool {
    all_digits(split(name, '.').last())
}

/// An entry read as a name or, after `*.`, as a suffix.
pub open spec fn name_pattern(input: Seq<char>) -> Result<PatternView, PatternErrorView> {
    let wildcard = starts_with(input, "*."@);
    let name = if wildcard {
        after(input, "*."@.len() as int)
    } else {
        input
    };
    match hostname_error(encode_utf8(name)) {
        Some(error) => Err(PatternErrorView::Grammar(error)),
        None => if numeric_tld(name) {
            Err(PatternErrorView::NumericTld)
        } else if wildcard {
            Ok(PatternView::Suffix(lowercase(name)))
        } else {
            Ok(PatternView::Exact(lowercase(name)))
        },
    }
}

/// An entry, given the network and the address that its text writes, if any:
/// with a slash it can only be a network, without one an address comes before
/// a name.
pub open spec fn pattern_of(
    input: Seq<char>,
    network: Option<IpNet>,
    address: Option<IpAddr>,
) -> Result<PatternView, PatternErrorView> {
    if input.contains('/') {
        match network {
            None => Err(PatternErrorView::Cidr),
            Some(net) => if net.truncated() != net {
                Err(PatternErrorView::HostBits(net.truncated().spec_text()))
            } else {
                Ok(PatternView::Network(net))
            },
        }
    } else {
        match address {
            Some(address) => Ok(PatternView::Address(address)),
            None => name_pattern(input),
        }
    }
}

/// An entry read from its text.
pub open spec fn pattern_text(input: Seq<char>) -> Result<PatternView, PatternErrorView> {
    pattern_of(input, net_from_text(input), ip_from_text(input))
}

/// Whether a parse came out as the model says.
pub open spec fn parses_as(
    r: Result<HostPattern, PatternError>,
    expected: Result<PatternView, PatternErrorView>,
) -> bool {
    match r {
        Ok(pattern) => expected == Ok::<PatternView, PatternErrorView>(pattern@),
        Err(error) => expected == Err::<PatternView, PatternErrorView>(error@),
    }
}

impl HostPattern {
    /// Whether this entry matches by name rather than by address.
    pub fn is_name(&self) -> (r: bool)
        ensures
            r == self@.by_name(),
    {
        match self {
            HostPattern::Exact(_) | HostPattern::Suffix(_) => true,
            _ => false,
        }
    }

    /// Whether `name` is matched by this entry. Address entries never match names.
    pub fn matches_name(&self, name: &str) -> (r: bool)
        ensures
            r == self@.matches_name(name@),
    {
        let name = to_lowercase(name);
        match self {
            HostPattern::Exact(exact) => same(name.as_str(), exact.as_str()),
            HostPattern::Suffix(suffix) => {
                let below = concat(".", suffix.as_str());
                same(name.as_str(), suffix.as_str()) || has_suffix(name.as_str(), below.as_str())
            },
            HostPattern::Address(_) | HostPattern::Network(_) => false,
        }
    }

    /// Whether `address` is matched by this entry. Name entries never match addresses.
    pub fn matches_address(&self, address: IpAddr) -> (r: bool)
        ensures
            r == self@.matches_address(address),
    {
        let address = address.to_canonical();
        proof {
            crate::ip::lemma_canonical_idempotent(address);
        }
        match self {
            HostPattern::Address(own) => own.to_canonical() == address,
            HostPattern::Network(net) => net.contains(address),
            HostPattern::Exact(_) | HostPattern::Suffix(_) => false,
        }
    }

    /// Read an entry. What is read is in its canonical form: its own text reads
    /// back as the same entry.
    pub fn from_str(input: &str) -> (r: Result<HostPattern, PatternError>)
        ensures
            parses_as(r, pattern_text(input@)),
            r matches Ok(pattern) ==> pattern@.well_formed() && pattern@.is_canonical(),
    {
        let r = if contains_char(input, '/') {
            Self::from_parts(input, read_net(input), None)
        } else {
            Self::from_parts(input, None, read_ip(input))
        };
        proof {
            if r is Ok {
                lemma_reads_itself(input@);
            }
        }
        r
    }

    /// Read an entry, given the network and the address that its text writes.
    pub fn from_parts(input: &str, network: Option<IpNet>, address: Option<IpAddr>) -> (r: Result<
        HostPattern,
        PatternError,
    >)
        ensures
            parses_as(r, pattern_of(input@, network, address)),
            r matches Ok(pattern) ==> pattern@.well_formed(),
    {
        if contains_char(input, '/') {
            return match network {
                None => Err(PatternError::Cidr),
                Some(net) => {
                    let whole = net.trunc();
                    if whole != net {
                        Err(PatternError::HostBits(whole.text()))
                    } else {
                        Ok(HostPattern::Network(net))
                    }
                },
            };
        }
        if let Some(address) = address {
            return Ok(HostPattern::Address(address));
        }
        let (rest, wildcard) = match strip_prefix(input, "*.") {
            Some(rest) => (rest, true),
            None => (input.to_owned(), false),
        };
        let ghost name0 = rest@;
        let name = match validate_hostname(rest.as_str().as_bytes()) {
            Ok(name) => name,
            Err(error) => return Err(PatternError::Grammar(error)),
        };
        proof {
            lemma_ascii_text(encode_utf8(name0));
            assert(encode_utf8(name0) == encode_utf8(name0));
            assert(name@ == name0);
            law_validation_is_the_grammar(encode_utf8(name0));
        }
        let text = chars(name);
        let labels = split_at(&text, '.');
        let last = chars(labels[labels.len() - 1].as_str());
        assert(last@ == split(name@, '.').last());
        let mut digits: usize = 0;
        while digits < last.len() && is_digit_char(last[digits])
            invariant
                digits <= last@.len(),
                forall|i: int| 0 <= i < digits ==> is_digit(#[trigger] last@[i]),
            decreases last@.len() - digits,
        {
            digits += 1;
        }
        assert(numeric_tld(name@) == (digits == last@.len()));
        if digits == last.len() {
            return Err(PatternError::NumericTld);
        }
        let name = to_lowercase(name);
        proof {
            lemma_lowercase_hostname(name0);
        }
        if wildcard {
            Ok(HostPattern::Suffix(name))
        } else {
            Ok(HostPattern::Exact(name))
        }
    }

    /// The entry as it is written in a list.
    pub fn to_text(&self) -> (r: String)
        ensures
            r@ == self@.text(),
    {
        match self {
            HostPattern::Exact(name) => name.clone(),
            HostPattern::Suffix(name) => concat("*.", name.as_str()),
            HostPattern::Address(address) => address.text(),
            HostPattern::Network(net) => net.text(),
        }
    }

    /// Whether two entries are the same.
    pub fn equals(&self, other: &HostPattern) -> (r: bool)
        ensures
            r == (self@ == other@),
    {
        match (self, other) {
            (HostPattern::Exact(a), HostPattern::Exact(b)) => same(a.as_str(), b.as_str()),
            (HostPattern::Suffix(a), HostPattern::Suffix(b)) => same(a.as_str(), b.as_str()),
            (HostPattern::Address(a), HostPattern::Address(b)) => *a == *b,
            (HostPattern::Network(a), HostPattern::Network(b)) => *a == *b,
            _ => false,
        }
    }
}

/// Whether two lists hold the same entries in the same order.
pub fn same_patterns(a: &Vec<HostPattern>, b: &Vec<HostPattern>) -> (r: bool)
    ensures
        r == (views(a@) == views(b@)),
{
    let ghost av = views(a@);
    let ghost bv = views(b@);
    if a.len() != b.len() {
        assert(av.len() != bv.len());
        return false;
    }
    let mut i: usize = 0;
    while i < a.len()
        invariant
            i <= a@.len(),
            a@.len() == b@.len(),
            av == views(a@),
            bv == views(b@),
            forall|k: int| 0 <= k < i ==> #[trigger] av[k] == bv[k],
        decreases a@.len() - i,
    {
        if !a[i].equals(&b[i]) {
            assert(av[i as int] != bv[i as int]);
            return false;
        }
        assert(av[i as int] == a@[i as int]@ && bv[i as int] == b@[i as int]@);
        i += 1;
    }
    assert(av =~= bv);
    true
}

impl PatternErrorView {
    pub open spec fn text(self) -> Seq<char> {
        match self {
            PatternErrorView::Grammar(error) => error.spec_text(),
            PatternErrorView::Cidr => "not a valid CIDR range"@,
            PatternErrorView::HostBits(net) => "the CIDR range has host bits set; did you mean "@
                + net + "?"@,
            PatternErrorView::NumericTld =>
                "the last label is numeric, so this is neither a hostname nor a valid IP address"@,
        }
    }
}

impl PatternError {
    /// The error in words.
    pub fn to_text(&self) -> (r: String)
        ensures
            r@ == self@.text(),
    {
        match self {
            PatternError::Grammar(error) => error.to_text(),
            PatternError::Cidr => "not a valid CIDR range".to_owned(),
            PatternError::HostBits(net) => {
                let mut r = "the CIDR range has host bits set; did you mean ".to_owned();
                r.push_str(net.as_str());
                r.push_str("?");
                r
            },
            PatternError::NumericTld =>
                "the last label is numeric, so this is neither a hostname nor a valid IP address".to_owned(),
        }
    }
}

// ---------------------------------------------------------------------------
// Lowercasing names
// ---------------------------------------------------------------------------

proof fn lemma_lower(c: char)
    ensures
        lower(lower(c)) == lower(c),
        lower(c) == '.' <==> c == '.',
        lower(c) == '-' <==> c == '-',
        is_digit(lower(c)) == is_digit(c),
{
}

/// Lowercasing the text lowercases its pieces.
proof fn lemma_lowercase_split(name: Seq<char>)
    ensures
        split(lowercase(name), '.').len() == split(name, '.').len(),
        forall|i: int|
            0 <= i < split(name, '.').len() ==> #[trigger] split(lowercase(name), '.')[i]
                == lowercase(split(name, '.')[i]),
    decreases name.len(),
{
    lemma_split_nonempty(name, '.');
    if name.len() > 0 {
        let rest = name.drop_last();
        lemma_lowercase_split(rest);
        lemma_split_nonempty(rest, '.');
        let low = lowercase(name);
        assert(low.drop_last() =~= lowercase(rest));
        lemma_lower(name.last());
        assert(low.last() == lower(name.last()));
        let p = split(rest, '.');
        let q = split(name, '.');
        let lq = split(low, '.');
        assert forall|i: int| 0 <= i < q.len() implies #[trigger] lq[i] == lowercase(q[i]) by {
            if i < p.len() {
                assert(split(lowercase(rest), '.')[i] == lowercase(p[i]));
            }
            assert(lq[i] =~= lowercase(q[i]));
        }
    } else {
        assert(lowercase(name) =~= name);
        assert(lowercase(split(name, '.')[0]) =~= split(name, '.')[0]);
    }
}

proof fn lemma_lowercase_hostname(name: Seq<char>)
    requires
        is_hostname(name),
    ensures
        is_hostname(lowercase(name)),
        lowercase(lowercase(name)) == lowercase(name),
        numeric_tld(lowercase(name)) == numeric_tld(name),
{
    lemma_lowercase_split(name);
    lemma_split_nonempty(name, '.');
    let low = lowercase(name);
    let labels = split(name, '.');
    assert forall|i: int| 0 <= i < split(low, '.').len() implies
        crate::broker::mediator::grammar::is_label(#[trigger] split(low, '.')[i]) by {
        let label = labels[i];
        assert(crate::broker::mediator::grammar::is_label(label));
        assert forall|j: int| 0 <= j < label.len() implies lower(#[trigger] label[j]) == lower(
            label[j],
        ) by {
            lemma_lower(label[j]);
        }
        lemma_lower(label[0]);
        lemma_lower(label.last());
    }
    assert forall|i: int| 0 <= i < name.len() implies lower(lower(#[trigger] name[i])) == lower(
        name[i],
    ) by {
        lemma_lower(name[i]);
    }
    assert(lowercase(low) =~= low);
    let last = labels.last();
    let low_last = split(low, '.').last();
    assert(low_last == lowercase(last));
    if numeric_tld(name) {
        assert forall|j: int| 0 <= j < low_last.len() implies is_digit(#[trigger] low_last[j]) by {
            lemma_lower(last[j]);
        }
    }
    if numeric_tld(low) {
        assert forall|j: int| 0 <= j < last.len() implies is_digit(#[trigger] last[j]) by {
            lemma_lower(last[j]);
            assert(is_digit(low_last[j]));
        }
    }
}

// ---------------------------------------------------------------------------
// Laws
// ---------------------------------------------------------------------------

/// Matching does not depend on the case of the name.
pub proof fn law_matching_ignores_case(pattern: PatternView, name: Seq<char>)
    ensures
        pattern.matches_name(lowercase(name)) == pattern.matches_name(name),
{
    assert forall|i: int| 0 <= i < name.len() implies lower(lower(#[trigger] name[i])) == lower(
        name[i],
    ) by {
        lemma_lower(name[i]);
    }
    assert(lowercase(lowercase(name)) =~= lowercase(name));
}

/// No entry matches both a name and an address.
pub proof fn law_names_and_addresses_are_apart(
    pattern: PatternView,
    name: Seq<char>,
    address: IpAddr,
)
    ensures
        !(pattern.matches_name(name) && pattern.matches_address(address)),
        pattern.by_name() ==> !pattern.matches_address(address),
        !pattern.by_name() ==> !pattern.matches_name(name),
{
}

/// A suffix entry matches its apex and `label.apex`, and no name that merely
/// ends in the same characters.
pub proof fn law_suffix_matches_apex_and_below(suffix: Seq<char>, name: Seq<char>)
    requires
        lowercase(suffix) == suffix,
    ensures
        PatternView::Suffix(suffix).matches_name(suffix),
        PatternView::Suffix(suffix).matches_name(name) <==> (lowercase(name) == suffix || exists|
            prefix: Seq<char>,
        | lowercase(name) == #[trigger] (prefix + "."@ + suffix)),
{
    let low = lowercase(name);
    let tail = "."@ + suffix;
    if ends_with(low, tail) {
        let prefix = low.subrange(0, low.len() - tail.len());
        assert(low =~= prefix + low.subrange(low.len() - tail.len(), low.len() as int));
        assert(prefix + tail =~= prefix + "."@ + suffix);
    }
    if exists|prefix: Seq<char>| low == #[trigger] (prefix + "."@ + suffix) {
        let prefix = choose|prefix: Seq<char>| low == #[trigger] (prefix + "."@ + suffix);
        assert(low.subrange(low.len() - tail.len(), low.len() as int) =~= tail);
    }
}

/// A mapped IPv6 address is matched exactly as the IPv4 address in it.
pub proof fn law_matching_canonicalizes(pattern: PatternView, address: IpAddr)
    ensures
        pattern.matches_address(address.canonical()) == pattern.matches_address(address),
{
    crate::ip::lemma_canonical_idempotent(address);
}

/// Reading a name entry's own text gives the entry back, wherever the text is
/// not itself an address.
pub proof fn law_name_entries_round_trip(pattern: PatternView, network: Option<IpNet>)
    requires
        pattern.by_name(),
        pattern.well_formed(),
    ensures
        pattern_of(pattern.text(), network, None) == Ok::<PatternView, PatternErrorView>(pattern),
{
    let name = match pattern {
        PatternView::Exact(name) => name,
        PatternView::Suffix(name) => name,
        _ => Seq::empty(),
    };
    let text = pattern.text();
    lemma_hostname_chars(name);
    reveal_strlit("*.");
    assert(forall|i: int| 0 <= i < name.len() ==> #[trigger] name[i] != '/' && name[i] != '*');
    assert(!text.contains('/')) by {
        if text.contains('/') {
            let k = choose|k: int| 0 <= k < text.len() && text[k] == '/';
            if pattern is Suffix && k >= 2 {
                assert(text[k] == name[k - 2]);
            }
        }
    }
    if pattern is Suffix {
        assert(text.subrange(0, 2) =~= "*."@);
        assert(after(text, 2) =~= name);
    } else {
        if starts_with(text, "*."@) {
            assert(text.subrange(0, 2)[0] == '*');
            assert(name[0] == '*');
        }
    }
    assert(hostname_error(encode_utf8(name)) is None);
}

proof fn lemma_named(input: Seq<char>)
    ensures
        name_pattern(input) matches Ok(pattern) ==> pattern.well_formed(),
{
    let wildcard = starts_with(input, "*."@);
    let name = if wildcard {
        after(input, "*."@.len() as int)
    } else {
        input
    };
    let bytes = encode_utf8(name);
    if hostname_error(bytes) is None {
        law_validation_is_the_grammar(bytes);
        lemma_ascii_text(bytes);
        assert(name == ascii_text(bytes));
        lemma_lowercase_hostname(name);
    }
}

/// An entry that was read reads back from its own text, where the text of an
/// address or a network does, and an address is read in either case.
proof fn lemma_reads_itself(input: Seq<char>)
    requires
        pattern_text(input) is Ok,
        !input.contains('/') ==> ip_from_text(lowercase(input)) == ip_from_text(input),
        !input.contains('/') ==> (ip_from_text(input) matches Some(address) ==> ip_from_text(
            ip_text(address),
        ) == Some(address) && !ip_text(address).contains('/')),
        input.contains('/') ==> (net_from_text(input) matches Some(net) ==> net_from_text(
            net.spec_text(),
        ) == Some(net)),
    ensures
        pattern_text(input)->Ok_0.is_canonical(),
{
    let pattern = pattern_text(input)->Ok_0;
    if !input.contains('/') && ip_from_text(input) is None {
        lemma_named(input);
    }
    if pattern.by_name() {
        reveal_strlit("*.");
        if starts_with(input, "*."@) {
            assert(input.subrange(0, 2) == "*."@);
            assert(input[0] == input.subrange(0, 2)[0] && input[1] == input.subrange(0, 2)[1]);
            assert("*."@ + lowercase(after(input, 2)) =~= lowercase(input));
        }
        assert(pattern.text() == lowercase(input));
        law_name_entries_round_trip(pattern, net_from_text(pattern.text()));
    }
    if let PatternView::Network(net) = pattern {
        reveal_strlit("/");
        let text = net.spec_text();
        let k = ip_text(net.address).len() as int;
        assert(text[k] == '/');
        assert(text.contains('/'));
    }
}

/// A hostname is ASCII without slash or star, and its bytes pass validation.
proof fn lemma_hostname_chars(name: Seq<char>)
    requires
        is_hostname(name),
    ensures
        forall|i: int| 0 <= i < name.len() ==> #[trigger] name[i] != '/' && name[i] != '*',
        hostname_error(encode_utf8(name)) is None,
{
    crate::broker::mediator::grammar::lemma_label_chars_cover(name);
    let bytes = Seq::new(name.len(), |i: int| name[i] as u8);
    assert(is_ascii_bytes(bytes));
    assert(ascii_text(bytes) =~= name);
    lemma_ascii_text(bytes);
    law_validation_is_the_grammar(bytes);
}

/// An entry with a slash is a network, whose address must have no host bits; an
/// address is itself; and anything else is a name, or with `*.` before it a name and
/// all below it, in lower case.
pub proof fn law_entries_are_networks_addresses_or_names(
    input: Seq<char>,
    network: Option<IpNet>,
    address: Option<IpAddr>,
)
    ensures
        input.contains('/') ==> (pattern_of(input, network, address) matches Ok(pattern)
            ==> network == Some(pattern->Network_0) && pattern is Network),
        input.contains('/') ==> (pattern_of(input, network, address) is Ok <==> (network matches Some(
            net,
        ) && net.truncated() == net)),
        input.contains('/') && network is None ==> pattern_of(input, network, address) == Err::<
            PatternView,
            PatternErrorView,
        >(PatternErrorView::Cidr),
        !input.contains('/') && address is Some ==> pattern_of(input, network, address) == Ok::<
            PatternView,
            PatternErrorView,
        >(PatternView::Address(address->0)),
        !input.contains('/') && address is None && hostname_error(encode_utf8(input)) is None
            && !all_digits(split(input, '.').last()) ==> pattern_of(input, network, address) == Ok::<
            PatternView,
            PatternErrorView,
        >(PatternView::Exact(lowercase(input))),
        !input.contains('/') && hostname_error(encode_utf8(input)) is None && !all_digits(
            split(input, '.').last(),
        ) ==> pattern_of(seq!['*', '.'] + input, network, None) == Ok::<
            PatternView,
            PatternErrorView,
        >(PatternView::Suffix(lowercase(input))),
        !input.contains('/') && address is None && hostname_error(encode_utf8(input)) is None
            && all_digits(split(input, '.').last()) ==> pattern_of(input, network, address) == Err::<
            PatternView,
            PatternErrorView,
        >(PatternErrorView::NumericTld),
        !input.contains('/') && !starts_with(input, seq!['*', '.']) && address is None ==> (
        pattern_of(input, network, address) is Ok ==> hostname_error(encode_utf8(input)) is None),
        !input.contains('/') ==> (pattern_of(seq!['*', '.'] + input, network, None) is Ok
            ==> hostname_error(encode_utf8(input)) is None),
{
    reveal_strlit("*.");
    assert("*."@ =~= seq!['*', '.']);
    let wild = seq!['*', '.'] + input;
    assert(wild.subrange(0, 2) =~= "*."@);
    assert(after(wild, 2) =~= input);
    if !input.contains('/') {
        assert(!wild.contains('/')) by {
            if wild.contains('/') {
                let k = choose|k: int| 0 <= k < wild.len() && wild[k] == '/';
                assert(input[k - 2] == '/');
            }
        }
    }
    if starts_with(input, "*."@) && hostname_error(encode_utf8(input)) is None {
        law_validation_is_the_grammar(encode_utf8(input));
        lemma_no_star(input);
    }
}

proof fn lemma_no_star(input: Seq<char>)
    requires
        input.len() > 0,
        hostname_error(encode_utf8(input)) is None,
    ensures
        input[0] != '*',
{
    let bytes = encode_utf8(input);
    law_validation_is_the_grammar(bytes);
    lemma_ascii_text(bytes);
    assert(encode_utf8(ascii_text(bytes)) == bytes);
    vstd::utf8::encode_utf8_decode_utf8(input);
    vstd::utf8::encode_utf8_decode_utf8(ascii_text(bytes));
    assert(ascii_text(bytes) == input);
    lemma_hostname_chars(input);
}

} // verus!
