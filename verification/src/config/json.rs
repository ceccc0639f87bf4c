//! The normalized configuration as JSON, which its hash is taken of.

use vstd::prelude::*;
use vstd::utf8::encode_utf8;

use crate::config::hostpat::{HostPattern, PatternView};
use crate::config::schema::{
    GuestUser, KitchenConfig, KitchenView, Mount, MountView, NetworkConfig, NetworkView,
    PortMapping, Protocol, SecretConfig,
};
use crate::digest::short_hash;
use crate::maps::{lemma_sorted_unique, sorted_keys, to_map, TextMap};
use crate::text::{
    concat, concat3, decimal, decimal_string, hex_byte, join, join_with, push_decimal, views,
};

verus! {

// ---------------------------------------------------------------------------
// Strings and lists
// ---------------------------------------------------------------------------

/// A character inside a JSON string.
pub open spec fn escaped_char(c: char) -> Seq<char> {
    if c == '"' || c == '\\' {
        seq!['\\', c]
    } else if c as u32 == 8 {
        seq!['\\', 'b']
    } else if c as u32 == 9 {
        seq!['\\', 't']
    } else if c as u32 == 10 {
        seq!['\\', 'n']
    } else if c as u32 == 12 {
        seq!['\\', 'f']
    } else if c as u32 == 13 {
        seq!['\\', 'r']
    } else if (c as u32) < 32 {
        seq!['\\', 'u', '0', '0'] + hex_byte(c as u8)
    } else {
        seq![c]
    }
}

pub open spec fn escaped(text: Seq<char>) -> Seq<char>
    decreases text.len(),
{
    if text.len() == 0 {
        Seq::empty()
    } else {
        escaped(text.drop_last()) + escaped_char(text.last())
    }
}

/// The JSON string that stands for a text.
pub open spec fn json_text(text: Seq<char>) -> Seq<char> {
    seq!['"'] + escaped(text) + seq!['"']
}

/// `serde_json::to_string` of a string: the text between quotes, with the
/// quote, the backslash and the control characters below U+0020 escaped and
/// everything else as it is.
#[verifier::external_body]
fn json_string(text: &str) -> (r: String)
    ensures
        r@ == json_text(text@),
{
    serde_json::to_string(text).expect("strings serialize")
}

/// A JSON array of what its items are written as.
pub open spec fn json_list(items: Seq<Seq<char>>) -> Seq<char> {
    "["@ + join(items, ","@) + "]"@
}

fn list_of(items: &Vec<String>) -> (r: String)
    ensures
        r@ == json_list(views(items@)),
{
    concat3("[", join_with(items, ",").as_str(), "]")
}

pub open spec fn json_flag(flag: bool) -> Seq<char> {
    if flag {
        "true"@
    } else {
        "false"@
    }
}

// ---------------------------------------------------------------------------
// Rules, mounts and ports
// ---------------------------------------------------------------------------

pub open spec fn rules_json(rules: Seq<PatternView>) -> Seq<char> {
    json_list(Seq::new(rules.len(), |i: int| json_text(rules[i].text())))
}

fn write_rules(rules: &Vec<HostPattern>) -> (r: String)
    ensures
        r@ == rules_json(views(rules@)),
{
    let ghost rv = views(rules@);
    let ghost wanted = Seq::new(rv.len(), |i: int| json_text(rv[i].text()));
    let mut items: Vec<String> = Vec::new();
    let mut i: usize = 0;
    while i < rules.len()
        invariant
            i <= rules@.len(),
            rv == views(rules@),
            wanted == Seq::new(rv.len(), |i: int| json_text(rv[i].text())),
            views(items@) == wanted.subrange(0, i as int),
        decreases rules@.len() - i,
    {
        let ghost done = views(items@);
        assert(rv[i as int] == rules@[i as int]@);
        items.push(json_string(rules[i].to_text().as_str()));
        assert(views(items@) =~= done.push(wanted[i as int]));
        assert(wanted.subrange(0, i + 1) =~= wanted.subrange(0, i as int).push(wanted[i as int]));
        i += 1;
    }
    assert(wanted.subrange(0, wanted.len() as int) =~= wanted);
    list_of(&items)
}

pub open spec fn mount_json(mount: MountView) -> Seq<char> {
    "{\"host\":"@ + json_text(mount.host) + ",\"guest\":"@ + json_text(mount.guest)
        + ",\"readonly\":"@ + json_flag(mount.readonly) + "}"@
}

fn write_mount(mount: &Mount) -> (r: String)
    ensures
        r@ == mount_json(mount@),
{
    let mut r = concat("{\"host\":", json_string(mount.host.as_str()).as_str());
    r.push_str(",\"guest\":");
    r.push_str(json_string(mount.guest.as_str()).as_str());
    r.push_str(",\"readonly\":");
    if mount.readonly {
        r.push_str("true");
    } else {
        r.push_str("false");
    }
    r.push_str("}");
    r
}

fn write_mounts(mounts: &Vec<Mount>) -> (r: String)
    ensures
        r@ == json_list(Seq::new(mounts@.len(), |i: int| mount_json(views(mounts@)[i]))),
{
    let ghost mv = views(mounts@);
    let ghost wanted = Seq::new(mounts@.len(), |i: int| mount_json(mv[i]));
    let mut items: Vec<String> = Vec::new();
    let mut i: usize = 0;
    while i < mounts.len()
        invariant
            i <= mounts@.len(),
            mv == views(mounts@),
            wanted == Seq::new(mounts@.len(), |i: int| mount_json(mv[i])),
            views(items@) == wanted.subrange(0, i as int),
        decreases mounts@.len() - i,
    {
        let ghost done = views(items@);
        assert(mv[i as int] == mounts@[i as int]@);
        items.push(write_mount(&mounts[i]));
        assert(views(items@) =~= done.push(wanted[i as int]));
        assert(wanted.subrange(0, i + 1) =~= wanted.subrange(0, i as int).push(wanted[i as int]));
        i += 1;
    }
    assert(wanted.subrange(0, wanted.len() as int) =~= wanted);
    list_of(&items)
}

pub open spec fn protocol_json(protocol: Protocol) -> Seq<char> {
    match protocol {
        Protocol::Tcp => "\"tcp\""@,
        Protocol::Udp => "\"udp\""@,
    }
}

pub open spec fn port_json(port: PortMapping) -> Seq<char> {
    "{\"host\":"@ + decimal(port.host as nat) + ",\"guest\":"@ + decimal(port.guest as nat)
        + ",\"protocol\":"@ + protocol_json(port.protocol) + "}"@
}

fn write_port(port: &PortMapping) -> (r: String)
    ensures
        r@ == port_json(*port),
{
    let mut r = concat("{\"host\":", decimal_string(port.host as u64).as_str());
    r.push_str(",\"guest\":");
    push_decimal(&mut r, port.guest as u64);
    r.push_str(",\"protocol\":");
    match port.protocol {
        Protocol::Tcp => {
            r.push_str("\"tcp\"");
        },
        Protocol::Udp => {
            r.push_str("\"udp\"");
        },
    }
    r.push_str("}");
    r
}

fn write_ports(ports: &Vec<PortMapping>) -> (r: String)
    ensures
        r@ == json_list(Seq::new(ports@.len(), |i: int| port_json(ports@[i]))),
{
    let ghost wanted = Seq::new(ports@.len(), |i: int| port_json(ports@[i]));
    let mut items: Vec<String> = Vec::new();
    let mut i: usize = 0;
    while i < ports.len()
        invariant
            i <= ports@.len(),
            wanted == Seq::new(ports@.len(), |i: int| port_json(ports@[i])),
            views(items@) == wanted.subrange(0, i as int),
        decreases ports@.len() - i,
    {
        let ghost done = views(items@);
        items.push(write_port(&ports[i]));
        assert(views(items@) =~= done.push(wanted[i as int]));
        assert(wanted.subrange(0, i + 1) =~= wanted.subrange(0, i as int).push(wanted[i as int]));
        i += 1;
    }
    assert(wanted.subrange(0, wanted.len() as int) =~= wanted);
    list_of(&items)
}

// ---------------------------------------------------------------------------
// The sections
// ---------------------------------------------------------------------------

pub open spec fn network_json(network: NetworkView) -> Seq<char> {
    "{\"preset\":\""@ + network.preset.spec_text() + "\",\"allow\":"@ + rules_json(network.allow)
        + ",\"deny\":"@ + rules_json(network.deny) + ",\"ports\":"@ + json_list(
        Seq::new(network.ports.len(), |i: int| port_json(network.ports[i])),
    ) + "}"@
}

fn write_network(network: &NetworkConfig) -> (r: String)
    ensures
        r@ == network_json(network@),
{
    let mut r = concat("{\"preset\":\"", network.preset.to_text());
    r.push_str("\",\"allow\":");
    r.push_str(write_rules(&network.allow).as_str());
    r.push_str(",\"deny\":");
    r.push_str(write_rules(&network.deny).as_str());
    r.push_str(",\"ports\":");
    r.push_str(write_ports(&network.ports).as_str());
    r.push_str("}");
    r
}

/// A map's pairs in the order of their keys.
pub open spec fn in_order<V>(map: Map<Seq<char>, V>) -> Seq<(Seq<char>, V)> {
    choose|pairs: Seq<(Seq<char>, V)>| sorted_keys(pairs) && #[trigger] to_map(pairs) == map
}

pub open spec fn secret_json(name: Seq<char>, allow: Seq<PatternView>) -> Seq<char> {
    json_text(name) + ":{\"allow\":"@ + rules_json(allow) + "}"@
}

pub open spec fn secrets_json(secrets: Map<Seq<char>, Seq<PatternView>>) -> Seq<char> {
    let pairs = in_order(secrets);
    "{"@ + join(Seq::new(pairs.len(), |i: int| secret_json(pairs[i].0, pairs[i].1)), ","@) + "}"@
}

fn write_secrets(secrets: &TextMap<SecretConfig>) -> (r: String)
    ensures
        r@ == secrets_json(secrets@),
{
    let ghost pairs = secrets.pairs();
    let ghost wanted = Seq::new(pairs.len(), |i: int| secret_json(pairs[i].0, pairs[i].1));
    let n: usize = secrets.len();
    let mut items: Vec<String> = Vec::new();
    let mut i: usize = 0;
    while i < n
        invariant
            i <= n,
            n == pairs.len(),
            pairs == secrets.pairs(),
            wanted == Seq::new(pairs.len(), |i: int| secret_json(pairs[i].0, pairs[i].1)),
            views(items@) == wanted.subrange(0, i as int),
        decreases n - i,
    {
        let ghost done = views(items@);
        let (name, secret) = secrets.at(i);
        let mut item = concat(json_string(name).as_str(), ":{\"allow\":");
        item.push_str(write_rules(&secret.allow).as_str());
        item.push_str("}");
        assert(item@ == wanted[i as int]);
        items.push(item);
        assert(views(items@) =~= done.push(wanted[i as int]));
        assert(wanted.subrange(0, i + 1) =~= wanted.subrange(0, i as int).push(wanted[i as int]));
        i += 1;
    }
    assert(wanted.subrange(0, wanted.len() as int) =~= wanted);
    proof {
        secrets.lemma_pairs();
        assert(sorted_keys(pairs) && to_map(pairs) == secrets@);
        lemma_sorted_unique(pairs, in_order(secrets@));
    }
    concat3("{", join_with(&items, ",").as_str(), "}")
}

pub open spec fn user_json(user: GuestUser) -> Seq<char> {
    "{\"uid\":"@ + decimal(user.uid as nat) + ",\"gid\":"@ + decimal(user.gid as nat) + "}"@
}

/// The configuration as JSON: its fields in a fixed order, the dotfiles only
/// where there are any.
pub open spec fn config_json(config: KitchenView) -> Seq<char> {
    let fields = "{\"cpus\":"@ + decimal(config.cpus as nat) + ",\"memory_mib\":"@ + decimal(
        config.memory_mib as nat,
    ) + ",\"disk_mib\":"@ + decimal(config.disk_mib as nat) + ",\"mounts\":"@ + json_list(
        Seq::new(config.mounts.len(), |i: int| mount_json(config.mounts[i])),
    ) + ",\"network\":"@ + network_json(config.network) + ",\"secrets\":"@ + secrets_json(
        config.secrets,
    ) + ",\"user\":"@ + user_json(config.user);
    match config.dotfiles {
        Some(dotfiles) => fields + ",\"dotfiles\":"@ + json_text(dotfiles) + "}"@,
        None => fields + "}"@,
    }
}

/// Write the normalized configuration as JSON.
pub fn write_config(config: &KitchenConfig) -> (r: String)
    ensures
        r@ == config_json(config@),
{
    let mut user = concat("{\"uid\":", decimal_string(config.user.uid as u64).as_str());
    user.push_str(",\"gid\":");
    push_decimal(&mut user, config.user.gid as u64);
    user.push_str("}");
    let mut r = concat("{\"cpus\":", decimal_string(config.cpus as u64).as_str());
    r.push_str(",\"memory_mib\":");
    push_decimal(&mut r, config.memory_mib as u64);
    r.push_str(",\"disk_mib\":");
    push_decimal(&mut r, config.disk_mib as u64);
    r.push_str(",\"mounts\":");
    r.push_str(write_mounts(&config.mounts).as_str());
    r.push_str(",\"network\":");
    r.push_str(write_network(&config.network).as_str());
    r.push_str(",\"secrets\":");
    r.push_str(write_secrets(&config.secrets).as_str());
    r.push_str(",\"user\":");
    r.push_str(user.as_str());
    match &config.dotfiles {
        Some(dotfiles) => {
            r.push_str(",\"dotfiles\":");
            r.push_str(json_string(dotfiles.as_str()).as_str());
        },
        None => {},
    }
    r.push_str("}");
    r
}

/// The hash of a configuration.
pub open spec fn hash_of(config: KitchenView) -> Seq<char> {
    short_hash(encode_utf8(config_json(config)), 8)
}

// ---------------------------------------------------------------------------
// Laws
// ---------------------------------------------------------------------------

/// What stands between two texts is told by the whole.
proof fn lemma_between(a: Seq<char>, x: Seq<char>, y: Seq<char>, b: Seq<char>)
    requires
        a + x + b == a + y + b,
    ensures
        x == y,
{
    let s = a + x + b;
    let t = a + y + b;
    assert(s.len() == t.len());
    assert(x =~= s.subrange(a.len() as int, (a.len() + x.len()) as int));
    assert(y =~= t.subrange(a.len() as int, (a.len() + y.len()) as int));
}

/// The parts of a configuration as they are written, in order.
pub open spec fn config_parts(config: KitchenView) -> Seq<Seq<char>> {
    seq![
        decimal(config.cpus as nat),
        decimal(config.memory_mib as nat),
        decimal(config.disk_mib as nat),
        json_list(config.mounts.map_values(|mount: MountView| mount_json(mount))),
        network_json(config.network),
        secrets_json(config.secrets),
        user_json(config.user),
        match config.dotfiles {
            Some(dotfiles) => ",\"dotfiles\":"@ + json_text(dotfiles),
            None => Seq::empty(),
        },
    ]
}

/// The words before the parts of a configuration.
pub open spec fn config_words() -> Seq<Seq<char>> {
    seq![
        "{\"cpus\":"@,
        ",\"memory_mib\":"@,
        ",\"disk_mib\":"@,
        ",\"mounts\":"@,
        ",\"network\":"@,
        ",\"secrets\":"@,
        ",\"user\":"@,
        Seq::empty(),
    ]
}

/// Parts behind their words, from one on.
pub open spec fn written(words: Seq<Seq<char>>, parts: Seq<Seq<char>>, from: int) -> Seq<char>
    decreases parts.len() - from,
{
    if from < 0 || from >= parts.len() {
        "}"@
    } else {
        words[from] + parts[from] + written(words, parts, from + 1)
    }
}

/// A configuration is written as all of its parts behind their words.
pub proof fn law_every_part_is_written(config: KitchenView)
    ensures
        config_json(config) == written(config_words(), config_parts(config), 0),
{
    let w = config_words();
    let p = config_parts(config);
    assert(Seq::new(config.mounts.len(), |i: int| mount_json(config.mounts[i]))
        =~= config.mounts.map_values(|mount: MountView| mount_json(mount)));
    let h1 = w[0] + p[0];
    let h2 = h1 + w[1] + p[1];
    let h3 = h2 + w[2] + p[2];
    let h4 = h3 + w[3] + p[3];
    let h5 = h4 + w[4] + p[4];
    let h6 = h5 + w[5] + p[5];
    let h7 = h6 + w[6] + p[6];
    let h8 = h7 + w[7] + p[7];
    lemma_one_more(Seq::empty(), w, p, 0);
    lemma_one_more(h1, w, p, 1);
    lemma_one_more(h2, w, p, 2);
    lemma_one_more(h3, w, p, 3);
    lemma_one_more(h4, w, p, 4);
    lemma_one_more(h5, w, p, 5);
    lemma_one_more(h6, w, p, 6);
    lemma_one_more(h7, w, p, 7);
    assert(Seq::empty() + w[0] + p[0] =~= h1);
    assert(Seq::empty() + written(w, p, 0) =~= written(w, p, 0));
    assert(written(w, p, 8) == "}"@);
    lemma_ending(h7, config.dotfiles);
}

proof fn lemma_one_more(head: Seq<char>, words: Seq<Seq<char>>, parts: Seq<Seq<char>>, k: int)
    requires
        0 <= k < parts.len(),
    ensures
        head + written(words, parts, k) == head + words[k] + parts[k] + written(
            words,
            parts,
            k + 1,
        ),
{
    let rest = written(words, parts, k + 1);
    assert(head + (words[k] + parts[k] + rest) =~= head + words[k] + parts[k] + rest);
}

proof fn lemma_ending(head: Seq<char>, dotfiles: Option<Seq<char>>)
    ensures
        dotfiles matches Some(text) ==> head + Seq::<char>::empty() + (",\"dotfiles\":"@ + json_text(
            text,
        )) + "}"@ == head + ",\"dotfiles\":"@ + json_text(text) + "}"@,
        head + Seq::<char>::empty() + Seq::<char>::empty() + "}"@ == head + "}"@,
{
    if let Some(text) = dotfiles {
        assert(head + Seq::<char>::empty() + (",\"dotfiles\":"@ + json_text(text)) =~= head
            + ",\"dotfiles\":"@ + json_text(text));
    }
    assert(head + Seq::<char>::empty() + Seq::<char>::empty() =~= head);
}

proof fn lemma_one_part(
    words: Seq<Seq<char>>,
    a: Seq<Seq<char>>,
    b: Seq<Seq<char>>,
    from: int,
    k: int,
)
    requires
        a.len() == b.len(),
        0 <= from <= k < a.len(),
        forall|i: int| 0 <= i < a.len() && i != k ==> #[trigger] a[i] == b[i],
        written(words, a, from) == written(words, b, from),
    ensures
        a[k] == b[k],
    decreases k - from,
{
    if from == k {
        lemma_same_rest(words, a, b, k + 1);
        lemma_between(words[k], a[k], b[k], written(words, a, k + 1));
    } else {
        let head = words[from] + a[from];
        assert(a[from] == b[from]);
        let x = written(words, a, from + 1);
        let y = written(words, b, from + 1);
        assert(head + x =~= head + x + Seq::empty());
        assert(head + y =~= head + y + Seq::empty());
        lemma_between(head, x, y, Seq::empty());
        lemma_one_part(words, a, b, from + 1, k);
    }
}

proof fn lemma_same_rest(
    words: Seq<Seq<char>>,
    a: Seq<Seq<char>>,
    b: Seq<Seq<char>>,
    from: int,
)
    requires
        a.len() == b.len(),
        0 <= from,
        forall|i: int| from <= i < a.len() ==> #[trigger] a[i] == b[i],
    ensures
        written(words, a, from) == written(words, b, from),
    decreases a.len() - from,
{
    if from < a.len() {
        lemma_same_rest(words, a, b, from + 1);
    }
}

/// Two configurations that differ in one part are written differently: a hash is of
/// everything that a configuration says.
pub proof fn law_every_part_counts(a: KitchenView, b: KitchenView, k: int)
    requires
        0 <= k < 8,
        forall|i: int|
            0 <= i < 8 && i != k ==> #[trigger] config_parts(a)[i] == config_parts(b)[i],
    ensures
        config_json(a) == config_json(b) ==> config_parts(a)[k] == config_parts(b)[k],
        hash_of(a) == short_hash(encode_utf8(config_json(a)), 8),
{
    law_every_part_is_written(a);
    law_every_part_is_written(b);
    if config_json(a) == config_json(b) {
        lemma_one_part(config_words(), config_parts(a), config_parts(b), 0, k);
    }
}

/// How the parts of a configuration are written.
pub proof fn law_parts_of_a_configuration(
    network: NetworkView,
    mount: MountView,
    port: PortMapping,
    user: GuestUser,
    name: Seq<char>,
    allow: Seq<PatternView>,
)
    ensures
        network_json(network) == "{\"preset\":\""@ + network.preset.spec_text()
            + "\",\"allow\":"@ + json_list(
            network.allow.map_values(|rule: PatternView| json_text(rule.text())),
        ) + ",\"deny\":"@ + json_list(
            network.deny.map_values(|rule: PatternView| json_text(rule.text())),
        ) + ",\"ports\":"@ + json_list(
            network.ports.map_values(|port: PortMapping| port_json(port)),
        ) + "}"@,
        mount_json(mount) == "{\"host\":"@ + json_text(mount.host) + ",\"guest\":"@ + json_text(
            mount.guest,
        ) + ",\"readonly\":"@ + (if mount.readonly {
            "true"@
        } else {
            "false"@
        }) + "}"@,
        port_json(port) == "{\"host\":"@ + decimal(port.host as nat) + ",\"guest\":"@ + decimal(
            port.guest as nat,
        ) + ",\"protocol\":"@ + (if port.protocol == Protocol::Udp {
            "\"udp\""@
        } else {
            "\"tcp\""@
        }) + "}"@,
        user_json(user) == "{\"uid\":"@ + decimal(user.uid as nat) + ",\"gid\":"@ + decimal(
            user.gid as nat,
        ) + "}"@,
        secret_json(name, allow) == json_text(name) + ":{\"allow\":"@ + json_list(
            allow.map_values(|rule: PatternView| json_text(rule.text())),
        ) + "}"@,
{
    lemma_rules_json(network.allow);
    lemma_rules_json(network.deny);
    lemma_rules_json(allow);
    assert(Seq::new(network.ports.len(), |i: int| port_json(network.ports[i]))
        =~= network.ports.map_values(|port: PortMapping| port_json(port)));
}

proof fn lemma_rules_json(rules: Seq<PatternView>)
    ensures
        rules_json(rules) == json_list(
            rules.map_values(|rule: PatternView| json_text(rule.text())),
        ),
{
    assert(Seq::new(rules.len(), |i: int| json_text(rules[i].text())) =~= rules.map_values(
        |rule: PatternView| json_text(rule.text()),
    ));
}

/// A text is written character by character, each in its own way: no two characters are
/// written alike, and none is written so that it starts with a quote.
pub proof fn law_texts_are_written_per_character(text: Seq<char>, c: char, d: char)
    ensures
        json_text(text) == seq!['"'] + text.flat_map(|c: char| escaped_char(c)) + seq!['"'],
        escaped_char(c) == escaped_char(d) ==> c == d,
        escaped_char(c).len() > 0 && escaped_char(c)[0] != '"',
        32 <= c as u32 && c != '"' && c != '\\' ==> escaped_char(c) == seq![c],
        c == '"' || c == '\\' ==> escaped_char(c) == seq!['\\', c],
{
    lemma_escaped(text);
    if escaped_char(c) == escaped_char(d) {
        let s = escaped_char(c);
        if s.len() > 1 {
            assert(s[1] == escaped_char(d)[1]);
        }
        if s.len() == 6 {
            assert(s[4] == escaped_char(d)[4] && s[5] == escaped_char(d)[5]);
            crate::text::law_bytes_in_hexadecimal(c as u8);
            crate::text::law_bytes_in_hexadecimal(d as u8);
            assert(s[4] == hex_byte(c as u8)[0] && s[5] == hex_byte(c as u8)[1]);
            assert(escaped_char(d)[4] == hex_byte(d as u8)[0] && escaped_char(d)[5] == hex_byte(
                d as u8,
            )[1]);
            assert((c as u8) as int == (c as u8) as int / 16 * 16 + (c as u8) as int % 16);
        }
        if s.len() == 1 {
            assert(s[0] == escaped_char(d)[0]);
        }
    }
}

proof fn lemma_escaped(text: Seq<char>)
    ensures
        escaped(text) == text.flat_map(|c: char| escaped_char(c)),
    decreases text.len(),
{
    crate::maps::lemma_flat_map_step(text, |c: char| escaped_char(c));
    if text.len() > 0 {
        lemma_escaped(text.drop_last());
    }
}

} // verus!
