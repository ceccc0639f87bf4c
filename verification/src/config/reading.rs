//! What a kitchen file means: laws of [`crate::config::walker`].

use vstd::prelude::*;

use crate::config::hostpat::{pattern_text, PatternView};
use crate::config::schema::{
    env_name, host_path, mount_of, port_of, reserved_by, GuestUser, MountView, NetworkPreset,
    NetworkView, PortMapping,
};
use crate::config::size::{law_sizes_round_trip, mib_text, size_of};
use crate::config::walker::{
    both_issues, chef_gid, chef_table, chef_uid, cpus_field, disabled_issues, dotfiles_field,
    dotted, element_issues, entries_of, find_section, group_gid, indexed, kitchen_of, mount_entries,
    mounted, mounts_field, name_hosts, network_config, network_field, network_issues, no_issues,
    port_entries, ports_field, preset_field, published, rule_entries, rule_list, sandbox_user,
    secret_entries, secret_hosts, secret_key_issues, secrets_field, section_issues, size_field,
    state_issues, string_elements, strings, table_issues, text_at, unknown_issues, ElementView,
    IssueView,
};
use crate::config::{SectionLocation, Severity};
use crate::maps::{below, lemma_below_step, lemma_flat_map_same, lemma_flat_map_step};
use crate::text::{decimal, join, quoted_text, signed_decimal};
use crate::tree::{EntryView, NodeView, Span};

verus! {

// ---------------------------------------------------------------------------
// Lists
// ---------------------------------------------------------------------------

/// An error at a place.
pub open spec fn wrong(span: Option<Span>, key: Seq<char>, message: Seq<char>) -> IssueView {
    IssueView { severity: Severity::Error, span, key, message }
}

/// A remark at a place.
pub open spec fn odd(span: Option<Span>, key: Seq<char>, message: Seq<char>) -> IssueView {
    IssueView { severity: Severity::Warning, span, key, message }
}

/// The key of an element of a list.
pub open spec fn place(key: Seq<char>, index: nat) -> Seq<char> {
    key + seq!['['] + decimal(index) + seq![']']
}

proof fn lemma_place(key: Seq<char>, index: nat)
    ensures
        indexed(key, index) == place(key, index),
{
    reveal_strlit("[");
    reveal_strlit("]");
    assert("["@ =~= seq!['[']);
    assert("]"@ =~= seq![']']);
}

/// The key of a field of a table.
pub open spec fn field(path: Seq<char>, name: Seq<char>) -> Seq<char> {
    path + seq!['.'] + name
}

proof fn lemma_field(path: Seq<char>, name: Seq<char>)
    ensures
        dotted(path, name) == field(path, name),
{
    reveal_strlit(".");
    assert("."@ =~= seq!['.']);
}

/// A list of strings is read element by element: what is a string counts, with its
/// place, and what is none is an error at its place.
pub proof fn law_lists_are_read_element_by_element(nodes: Seq<NodeView>, key: Seq<char>)
    ensures
        string_elements(nodes) == below(nodes.len()).flat_map(
            |i: int|
                match nodes[i].text {
                    Some(text) => seq![ElementView { index: i as nat, text, span: nodes[i].span }],
                    None => Seq::empty(),
                },
        ),
        element_issues(nodes, key) == below(nodes.len()).flat_map(
            |i: int|
                match nodes[i].text {
                    Some(text) => Seq::empty(),
                    None => seq![
                        wrong(
                            nodes[i].span,
                            place(key, i as nat),
                            "expected a string, found "@ + nodes[i].kind(),
                        ),
                    ],
                },
        ),
    decreases nodes.len(),
{
    let f = |i: int|
        match nodes[i].text {
            Some(text) => seq![ElementView { index: i as nat, text, span: nodes[i].span }],
            None => Seq::<ElementView>::empty(),
        };
    let g = |i: int|
        match nodes[i].text {
            Some(text) => Seq::<IssueView>::empty(),
            None => seq![
                wrong(
                    nodes[i].span,
                    place(key, i as nat),
                    "expected a string, found "@ + nodes[i].kind(),
                ),
            ],
        };
    lemma_below_step(nodes.len(), f);
    lemma_below_step(nodes.len(), g);
    if nodes.len() > 0 {
        let rest = nodes.drop_last();
        let n = rest.len();
        law_lists_are_read_element_by_element(rest, key);
        let f0 = |i: int|
            match rest[i].text {
                Some(text) => seq![ElementView { index: i as nat, text, span: rest[i].span }],
                None => Seq::<ElementView>::empty(),
            };
        let g0 = |i: int|
            match rest[i].text {
                Some(text) => Seq::<IssueView>::empty(),
                None => seq![
                    wrong(
                        rest[i].span,
                        place(key, i as nat),
                        "expected a string, found "@ + rest[i].kind(),
                    ),
                ],
            };
        lemma_flat_map_same(below(n), f0, f);
        lemma_flat_map_same(below(n), g0, g);
        lemma_place(key, n);
        assert(string_elements(nodes) =~= below(nodes.len()).flat_map(f));
        assert(element_issues(nodes, key) =~= below(nodes.len()).flat_map(g));
    }
}

/// Whether an entry of a rule list has been written before.
pub open spec fn rule_before(elements: Seq<ElementView>, i: int, rule: PatternView) -> bool {
    exists|j: int|
        0 <= j < i && pattern_text((#[trigger] elements[j]).text) == Ok::<
            PatternView,
            crate::config::hostpat::PatternErrorView,
        >(rule)
}

/// Whether an entry counts: it is a rule, and the first of its kind.
pub open spec fn rule_counts(elements: Seq<ElementView>, i: int) -> bool {
    pattern_text(elements[i].text) matches Ok(rule) && !rule_before(elements, i, rule)
}

/// What is said of an entry of a rule list.
pub open spec fn rule_remarks(elements: Seq<ElementView>, key: Seq<char>, i: int) -> Seq<
    IssueView,
> {
    let e = elements[i];
    match pattern_text(e.text) {
        Ok(rule) => if rule_before(elements, i, rule) {
            seq![odd(e.span, place(key, e.index), "duplicate entry `"@ + rule.text() + "`"@)]
        } else {
            Seq::empty()
        },
        Err(problem) => seq![
            wrong(
                e.span,
                place(key, e.index),
                "invalid rule "@ + quoted_text(e.text) + ": "@ + problem.text(),
            ),
        ],
    }
}

/// A rule list holds the rule of each entry that is one, each once and in the order
/// of the entries; a repeated entry is remarked on and one that is no rule is an error.
pub proof fn law_rule_lists_hold_what_is_written(elements: Seq<ElementView>, key: Seq<char>)
    ensures
        rule_entries(elements, key).rules == below(elements.len()).flat_map(
            |i: int|
                if rule_counts(elements, i) {
                    seq![pattern_text(elements[i].text)->Ok_0]
                } else {
                    Seq::empty()
                },
        ),
        rule_entries(elements, key).spans == below(elements.len()).flat_map(
            |i: int|
                if rule_counts(elements, i) {
                    seq![elements[i].span]
                } else {
                    Seq::empty()
                },
        ),
        rule_entries(elements, key).issues == below(elements.len()).flat_map(
            |i: int| rule_remarks(elements, key, i),
        ),
        forall|rule: PatternView|
            rule_entries(elements, key).rules.contains(rule) <==> #[trigger] rule_before(
                elements,
                elements.len() as int,
                rule,
            ),
    decreases elements.len(),
{
    let n = elements.len();
    let f = |i: int|
        if rule_counts(elements, i) {
            seq![pattern_text(elements[i].text)->Ok_0]
        } else {
            Seq::<PatternView>::empty()
        };
    let g = |i: int|
        if rule_counts(elements, i) {
            seq![elements[i].span]
        } else {
            Seq::<Option<Span>>::empty()
        };
    let h = |i: int| rule_remarks(elements, key, i);
    lemma_below_step(n, f);
    lemma_below_step(n, g);
    lemma_below_step(n, h);
    let all = rule_entries(elements, key);
    if n > 0 {
        let rest = elements.drop_last();
        let m = rest.len();
        let few = rule_entries(rest, key);
        law_rule_lists_hold_what_is_written(rest, key);
        assert forall|i: int, rule: PatternView| 0 <= i <= m implies rule_before(rest, i, rule)
            == #[trigger] rule_before(elements, i, rule) by {
            if rule_before(rest, i, rule) {
                let j = choose|j: int|
                    0 <= j < i && pattern_text((#[trigger] rest[j]).text) == Ok::<
                        PatternView,
                        crate::config::hostpat::PatternErrorView,
                    >(rule);
                assert(elements[j] == rest[j]);
            }
            if rule_before(elements, i, rule) {
                let j = choose|j: int|
                    0 <= j < i && pattern_text((#[trigger] elements[j]).text) == Ok::<
                        PatternView,
                        crate::config::hostpat::PatternErrorView,
                    >(rule);
                assert(elements[j] == rest[j]);
            }
        }
        let f0 = |i: int|
            if rule_counts(rest, i) {
                seq![pattern_text(rest[i].text)->Ok_0]
            } else {
                Seq::<PatternView>::empty()
            };
        let g0 = |i: int|
            if rule_counts(rest, i) {
                seq![rest[i].span]
            } else {
                Seq::<Option<Span>>::empty()
            };
        let h0 = |i: int| rule_remarks(rest, key, i);
        assert forall|i: int| 0 <= i < below(m).len() implies f0(#[trigger] below(m)[i]) == f(
            below(m)[i],
        ) && g0(below(m)[i]) == g(below(m)[i]) && h0(below(m)[i]) == h(below(m)[i]) by {
            assert(rest[i] == elements[i]);
            if let Ok(rule) = pattern_text(rest[i].text) {
                assert(rule_before(rest, i, rule) == rule_before(elements, i, rule));
            }
        }
        lemma_flat_map_same(below(m), f0, f);
        lemma_flat_map_same(below(m), g0, g);
        lemma_flat_map_same(below(m), h0, h);
        let e = elements.last();
        assert(elements[m as int] == e);
        lemma_place(key, e.index);
        if let Ok(rule) = pattern_text(e.text) {
            assert(rule_before(rest, m as int, rule) == rule_before(elements, m as int, rule));
            assert(few.rules.contains(rule) <==> rule_before(rest, m as int, rule));
        }
        assert(all.rules =~= below(n).flat_map(f));
        assert(all.spans =~= below(n).flat_map(g));
        assert(all.issues =~= below(n).flat_map(h));
        assert forall|rule: PatternView|
            all.rules.contains(rule) <==> #[trigger] rule_before(elements, n as int, rule) by {
            assert(rule_before(rest, m as int, rule) == rule_before(elements, m as int, rule));
            assert(few.rules.contains(rule) <==> rule_before(rest, m as int, rule));
            if few.rules.contains(rule) {
                let k = choose|k: int| 0 <= k < few.rules.len() && few.rules[k] == rule;
                assert(all.rules[k] == rule);
                let j = choose|j: int|
                    0 <= j < m && pattern_text((#[trigger] elements[j]).text) == Ok::<
                        PatternView,
                        crate::config::hostpat::PatternErrorView,
                    >(rule);
                assert(0 <= j < n && elements[j] == elements[j]);
            }
            if pattern_text(e.text) == Ok::<
                PatternView,
                crate::config::hostpat::PatternErrorView,
            >(rule) && !few.rules.contains(rule) {
                assert(all.rules[few.rules.len() as int] == rule);
            }
            if all.rules.contains(rule) && !few.rules.contains(rule) {
                let k = choose|k: int| 0 <= k < all.rules.len() && all.rules[k] == rule;
                if k < few.rules.len() {
                    assert(few.rules[k] == rule);
                }
            }
        }
    }
}

/// Whether a host port has been published before for a protocol.
pub open spec fn port_before(elements: Seq<ElementView>, i: int, port: PortMapping) -> bool {
    exists|j: int|
        0 <= j < i && (port_of((#[trigger] elements[j]).text) matches Ok(other) && other.host
            == port.host && other.protocol == port.protocol)
}

/// What is said of an entry of a list of ports.
pub open spec fn port_remarks(elements: Seq<ElementView>, key: Seq<char>, i: int) -> Seq<
    IssueView,
> {
    let e = elements[i];
    match port_of(e.text) {
        Ok(port) => if port_before(elements, i, port) {
            seq![
                wrong(
                    e.span,
                    place(key, e.index),
                    "host port "@ + decimal(port.host as nat) + " is published more than once"@,
                ),
            ]
        } else {
            Seq::empty()
        },
        Err(message) => seq![wrong(e.span, place(key, e.index), message)],
    }
}

/// The ports are those that are written, in order, the first of each host port and
/// protocol; a second one and what is no port are errors.
pub proof fn law_ports_are_those_written(elements: Seq<ElementView>, key: Seq<char>)
    ensures
        port_entries(elements, key).0 == below(elements.len()).flat_map(
            |i: int|
                match port_of(elements[i].text) {
                    Ok(port) => if port_before(elements, i, port) {
                        Seq::empty()
                    } else {
                        seq![port]
                    },
                    Err(message) => Seq::empty(),
                },
        ),
        port_entries(elements, key).1 == below(elements.len()).flat_map(
            |i: int| port_remarks(elements, key, i),
        ),
        forall|port: PortMapping|
            published(port_entries(elements, key).0, port) <==> #[trigger] port_before(
                elements,
                elements.len() as int,
                port,
            ),
    decreases elements.len(),
{
    let n = elements.len();
    let f = |i: int|
        match port_of(elements[i].text) {
            Ok(port) => if port_before(elements, i, port) {
                Seq::<PortMapping>::empty()
            } else {
                seq![port]
            },
            Err(message) => Seq::<PortMapping>::empty(),
        };
    let h = |i: int| port_remarks(elements, key, i);
    lemma_below_step(n, f);
    lemma_below_step(n, h);
    let all = port_entries(elements, key);
    if n > 0 {
        let rest = elements.drop_last();
        let m = rest.len();
        let few = port_entries(rest, key);
        law_ports_are_those_written(rest, key);
        assert forall|i: int, port: PortMapping| 0 <= i <= m implies port_before(rest, i, port)
            == #[trigger] port_before(elements, i, port) by {
            if port_before(rest, i, port) {
                let j = choose|j: int|
                    0 <= j < i && (port_of((#[trigger] rest[j]).text) matches Ok(other)
                        && other.host == port.host && other.protocol == port.protocol);
                assert(elements[j] == rest[j]);
            }
            if port_before(elements, i, port) {
                let j = choose|j: int|
                    0 <= j < i && (port_of((#[trigger] elements[j]).text) matches Ok(other)
                        && other.host == port.host && other.protocol == port.protocol);
                assert(elements[j] == rest[j]);
            }
        }
        let f0 = |i: int|
            match port_of(rest[i].text) {
                Ok(port) => if port_before(rest, i, port) {
                    Seq::<PortMapping>::empty()
                } else {
                    seq![port]
                },
                Err(message) => Seq::<PortMapping>::empty(),
            };
        let h0 = |i: int| port_remarks(rest, key, i);
        assert forall|i: int| 0 <= i < below(m).len() implies f0(#[trigger] below(m)[i]) == f(
            below(m)[i],
        ) && h0(below(m)[i]) == h(below(m)[i]) by {
            assert(rest[i] == elements[i]);
            if let Ok(port) = port_of(rest[i].text) {
                assert(port_before(rest, i, port) == port_before(elements, i, port));
            }
        }
        lemma_flat_map_same(below(m), f0, f);
        lemma_flat_map_same(below(m), h0, h);
        let e = elements.last();
        assert(elements[m as int] == e);
        lemma_place(key, e.index);
        if let Ok(port) = port_of(e.text) {
            assert(port_before(rest, m as int, port) == port_before(elements, m as int, port));
            assert(published(few.0, port) <==> port_before(rest, m as int, port));
        }
        assert(all.0 =~= below(n).flat_map(f));
        assert(all.1 =~= below(n).flat_map(h));
        assert forall|port: PortMapping|
            published(all.0, port) <==> #[trigger] port_before(elements, n as int, port) by {
            assert(port_before(rest, m as int, port) == port_before(elements, m as int, port));
            assert(published(few.0, port) <==> port_before(rest, m as int, port));
            if published(few.0, port) {
                let k = choose|k: int|
                    0 <= k < few.0.len() && (#[trigger] few.0[k]).host == port.host
                        && few.0[k].protocol == port.protocol;
                assert(all.0[k] == few.0[k]);
                let j = choose|j: int|
                    0 <= j < m && (port_of((#[trigger] elements[j]).text) matches Ok(other)
                        && other.host == port.host && other.protocol == port.protocol);
                assert(0 <= j < n && elements[j] == elements[j]);
            }
            if port_of(e.text) matches Ok(other) && other.host == port.host && other.protocol
                == port.protocol {
                let other = port_of(e.text)->Ok_0;
                if published(few.0, other) {
                    let k = choose|k: int|
                        0 <= k < few.0.len() && (#[trigger] few.0[k]).host == other.host
                            && few.0[k].protocol == other.protocol;
                    assert(all.0[k] == few.0[k]);
                } else {
                    assert(all.0[few.0.len() as int] == other);
                }
            }
            if published(all.0, port) && !published(few.0, port) {
                let k = choose|k: int|
                    0 <= k < all.0.len() && (#[trigger] all.0[k]).host == port.host
                        && all.0[k].protocol == port.protocol;
                if k < few.0.len() {
                    assert(few.0[k] == all.0[k]);
                }
            }
        }
    }
}

/// Whether an entry writes a mount that can be.
pub open spec fn mount_at(
    e: ElementView,
    dir: Seq<char>,
    home: Option<Seq<char>>,
) -> Option<MountView> {
    match mount_of(e.text, dir, home) {
        Ok(mount) => if reserved_by(mount.guest) is None {
            Some(mount)
        } else {
            None
        },
        Err(message) => None,
    }
}

/// Whether something has been mounted at a guest path before.
pub open spec fn mount_before(
    elements: Seq<ElementView>,
    i: int,
    guest: Seq<char>,
    dir: Seq<char>,
    home: Option<Seq<char>>,
) -> bool {
    exists|j: int|
        0 <= j < i && (mount_at(#[trigger] elements[j], dir, home) matches Some(other)
            && other.guest == guest)
}

/// What is said of an entry of a list of mounts.
pub open spec fn mount_remarks(
    elements: Seq<ElementView>,
    key: Seq<char>,
    dir: Seq<char>,
    home: Option<Seq<char>>,
    i: int,
) -> Seq<IssueView> {
    let e = elements[i];
    match mount_of(e.text, dir, home) {
        Ok(mount) => match reserved_by(mount.guest) {
            Some(reserved) => seq![
                wrong(
                    e.span,
                    place(key, e.index),
                    "guest path `"@ + mount.guest + "` overlaps `"@ + reserved
                        + "`, which microkitchen manages"@,
                ),
            ],
            None => if mount_before(elements, i, mount.guest, dir, home) {
                seq![
                    wrong(
                        e.span,
                        place(key, e.index),
                        "guest path `"@ + mount.guest + "` is mounted more than once"@,
                    ),
                ]
            } else {
                Seq::empty()
            },
        },
        Err(message) => seq![wrong(e.span, place(key, e.index), message)],
    }
}

/// Whether an entry counts: it writes a mount that can be, and the first at its
/// guest path.
pub open spec fn mount_counts(
    elements: Seq<ElementView>,
    dir: Seq<char>,
    home: Option<Seq<char>>,
    i: int,
) -> bool {
    mount_at(elements[i], dir, home) matches Some(mount) && !mount_before(
        elements,
        i,
        mount.guest,
        dir,
        home,
    )
}

/// The mounts are those that are written and can be, in order, the first at each
/// guest path; the others are errors.
pub proof fn law_mounts_are_those_written(
    elements: Seq<ElementView>,
    key: Seq<char>,
    dir: Seq<char>,
    home: Option<Seq<char>>,
)
    ensures
        mount_entries(elements, key, dir, home).mounts == below(elements.len()).flat_map(
            |i: int|
                if mount_counts(elements, dir, home, i) {
                    seq![mount_of(elements[i].text, dir, home)->Ok_0]
                } else {
                    Seq::empty()
                },
        ),
        mount_entries(elements, key, dir, home).spans == below(elements.len()).flat_map(
            |i: int|
                if mount_counts(elements, dir, home, i) {
                    seq![elements[i].span]
                } else {
                    Seq::empty()
                },
        ),
        mount_entries(elements, key, dir, home).issues == below(elements.len()).flat_map(
            |i: int| mount_remarks(elements, key, dir, home, i),
        ),
        forall|guest: Seq<char>|
            mounted(mount_entries(elements, key, dir, home).mounts, guest) <==> #[trigger] mount_before(
                elements,
                elements.len() as int,
                guest,
                dir,
                home,
            ),
    decreases elements.len(),
{
    let n = elements.len();
    let f = |i: int|
        if mount_counts(elements, dir, home, i) {
            seq![mount_of(elements[i].text, dir, home)->Ok_0]
        } else {
            Seq::<MountView>::empty()
        };
    let g = |i: int|
        if mount_counts(elements, dir, home, i) {
            seq![elements[i].span]
        } else {
            Seq::<Option<Span>>::empty()
        };
    let h = |i: int| mount_remarks(elements, key, dir, home, i);
    lemma_below_step(n, f);
    lemma_below_step(n, g);
    lemma_below_step(n, h);
    let all = mount_entries(elements, key, dir, home);
    if n > 0 {
        let rest = elements.drop_last();
        let m = rest.len();
        let few = mount_entries(rest, key, dir, home);
        law_mounts_are_those_written(rest, key, dir, home);
        assert forall|i: int, guest: Seq<char>| 0 <= i <= m implies mount_before(
            rest,
            i,
            guest,
            dir,
            home,
        ) == #[trigger] mount_before(elements, i, guest, dir, home) by {
            if mount_before(rest, i, guest, dir, home) {
                let j = choose|j: int|
                    0 <= j < i && (mount_at(#[trigger] rest[j], dir, home) matches Some(other)
                        && other.guest == guest);
                assert(elements[j] == rest[j]);
            }
            if mount_before(elements, i, guest, dir, home) {
                let j = choose|j: int|
                    0 <= j < i && (mount_at(#[trigger] elements[j], dir, home) matches Some(other)
                        && other.guest == guest);
                assert(elements[j] == rest[j]);
            }
        }
        let f0 = |i: int|
            if mount_counts(rest, dir, home, i) {
                seq![mount_of(rest[i].text, dir, home)->Ok_0]
            } else {
                Seq::<MountView>::empty()
            };
        let g0 = |i: int|
            if mount_counts(rest, dir, home, i) {
                seq![rest[i].span]
            } else {
                Seq::<Option<Span>>::empty()
            };
        let h0 = |i: int| mount_remarks(rest, key, dir, home, i);
        assert forall|i: int| 0 <= i < below(m).len() implies f0(#[trigger] below(m)[i]) == f(
            below(m)[i],
        ) && g0(below(m)[i]) == g(below(m)[i]) && h0(below(m)[i]) == h(below(m)[i]) by {
            assert(rest[i] == elements[i]);
            if let Ok(mount) = mount_of(rest[i].text, dir, home) {
                assert(mount_before(rest, i, mount.guest, dir, home) == mount_before(
                    elements,
                    i,
                    mount.guest,
                    dir,
                    home,
                ));
            }
        }
        lemma_flat_map_same(below(m), f0, f);
        lemma_flat_map_same(below(m), g0, g);
        lemma_flat_map_same(below(m), h0, h);
        let e = elements.last();
        assert(elements[m as int] == e);
        lemma_place(key, e.index);
        if let Ok(mount) = mount_of(e.text, dir, home) {
            assert(mount_before(rest, m as int, mount.guest, dir, home) == mount_before(
                elements,
                m as int,
                mount.guest,
                dir,
                home,
            ));
            assert(mounted(few.mounts, mount.guest) <==> mount_before(
                rest,
                m as int,
                mount.guest,
                dir,
                home,
            ));
        }
        assert(all.mounts =~= below(n).flat_map(f));
        assert(all.spans =~= below(n).flat_map(g));
        assert(all.issues =~= below(n).flat_map(h));
        assert forall|guest: Seq<char>|
            mounted(all.mounts, guest) <==> #[trigger] mount_before(
                elements,
                n as int,
                guest,
                dir,
                home,
            ) by {
            assert(mount_before(rest, m as int, guest, dir, home) == mount_before(
                elements,
                m as int,
                guest,
                dir,
                home,
            ));
            assert(mounted(few.mounts, guest) <==> mount_before(rest, m as int, guest, dir, home));
            if mounted(few.mounts, guest) {
                let k = choose|k: int|
                    0 <= k < few.mounts.len() && (#[trigger] few.mounts[k]).guest == guest;
                assert(all.mounts[k] == few.mounts[k]);
                let j = choose|j: int|
                    0 <= j < m && (mount_at(#[trigger] elements[j], dir, home) matches Some(other)
                        && other.guest == guest);
                assert(0 <= j < n && elements[j] == elements[j]);
            }
            if mount_at(e, dir, home) matches Some(other) && other.guest == guest && !mounted(
                few.mounts,
                guest,
            ) {
                assert(all.mounts[few.mounts.len() as int].guest == guest);
            }
            if mounted(all.mounts, guest) && !mounted(few.mounts, guest) {
                let k = choose|k: int|
                    0 <= k < all.mounts.len() && (#[trigger] all.mounts[k]).guest == guest;
                if k < few.mounts.len() {
                    assert(few.mounts[k] == all.mounts[k]);
                }
            }
        }
    }
}

/// Of a secret's rules those for names are its hosts, in order, and the others are
/// errors.
pub proof fn law_secrets_go_to_names(
    rules: Seq<PatternView>,
    spans: Seq<Option<Span>>,
    key: Seq<char>,
)
    ensures
        name_hosts(rules, spans, key).0 == rules.filter(|rule: PatternView| rule.by_name()),
        name_hosts(rules, spans, key).1 == below(rules.len()).flat_map(
            |i: int|
                if rules[i].by_name() {
                    Seq::empty()
                } else {
                    seq![
                        wrong(
                            spans[i],
                            key,
                            "`"@ + rules[i].text()
                                + "`: secret hosts must be names (`host` or `*.suffix`)"@,
                        ),
                    ]
                },
        ),
    decreases rules.len(),
{
    reveal(Seq::filter);
    let h = |i: int|
        if rules[i].by_name() {
            Seq::<IssueView>::empty()
        } else {
            seq![
                wrong(
                    spans[i],
                    key,
                    "`"@ + rules[i].text() + "`: secret hosts must be names (`host` or `*.suffix`)"@,
                ),
            ]
        };
    lemma_below_step(rules.len(), h);
    if rules.len() > 0 {
        let rest = rules.drop_last();
        law_secrets_go_to_names(rest, spans, key);
        let h0 = |i: int|
            if rest[i].by_name() {
                Seq::<IssueView>::empty()
            } else {
                seq![
                    wrong(
                        spans[i],
                        key,
                        "`"@ + rest[i].text()
                            + "`: secret hosts must be names (`host` or `*.suffix`)"@,
                    ),
                ]
            };
        lemma_flat_map_same(below(rest.len()), h0, h);
        assert(name_hosts(rules, spans, key).1 =~= below(rules.len()).flat_map(h));
    }
}

/// A key that a table does not have is an error at the key, and a key that it has
/// is none.
pub proof fn law_unknown_keys_are_errors(
    entries: Seq<EntryView>,
    table: NodeView,
    path: Seq<char>,
    allowed: Seq<Seq<char>>,
)
    ensures
        unknown_issues(entries, table, path, allowed) == entries.filter(
            |entry: EntryView| !allowed.contains(entry.key),
        ).map_values(
            |entry: EntryView|
                wrong(
                    table.key_span(entry.key),
                    field(path, entry.key),
                    "unknown key `"@ + entry.key + "`; expected one of: "@ + join(allowed, ", "@),
                ),
        ),
    decreases entries.len(),
{
    reveal(Seq::filter);
    let keep = |entry: EntryView| !allowed.contains(entry.key);
    let say = |entry: EntryView|
        wrong(
            table.key_span(entry.key),
            field(path, entry.key),
            "unknown key `"@ + entry.key + "`; expected one of: "@ + join(allowed, ", "@),
        );
    if entries.len() > 0 {
        law_unknown_keys_are_errors(entries.drop_last(), table, path, allowed);
        lemma_field(path, entries.last().key);
    }
    assert(unknown_issues(entries, table, path, allowed) =~= entries.filter(keep).map_values(say));
}

/// A rule that is both allowed and denied is an error at its place among the denied,
/// and no other rule is.
pub proof fn law_no_rule_is_allowed_and_denied(
    allow: Seq<PatternView>,
    deny: Seq<PatternView>,
    spans: Seq<Option<Span>>,
    path: Seq<char>,
)
    ensures
        both_issues(allow, deny, spans, path) == below(deny.len()).flat_map(
            |i: int|
                if allow.contains(deny[i]) {
                    seq![
                        wrong(
                            spans[i],
                            place(field(path, "deny"@), i as nat),
                            "`"@ + deny[i].text() + "` is in both `allow` and `deny`"@,
                        ),
                    ]
                } else {
                    Seq::empty()
                },
        ),
    decreases deny.len(),
{
    let h = |i: int|
        if allow.contains(deny[i]) {
            seq![
                wrong(
                    spans[i],
                    place(field(path, "deny"@), i as nat),
                    "`"@ + deny[i].text() + "` is in both `allow` and `deny`"@,
                ),
            ]
        } else {
            Seq::<IssueView>::empty()
        };
    lemma_below_step(deny.len(), h);
    if deny.len() > 0 {
        let rest = deny.drop_last();
        law_no_rule_is_allowed_and_denied(allow, rest, spans, path);
        let h0 = |i: int|
            if allow.contains(rest[i]) {
                seq![
                    wrong(
                        spans[i],
                        place(field(path, "deny"@), i as nat),
                        "`"@ + rest[i].text() + "` is in both `allow` and `deny`"@,
                    ),
                ]
            } else {
                Seq::<IssueView>::empty()
            };
        lemma_flat_map_same(below(rest.len()), h0, h);
        lemma_field(path, "deny"@);
        lemma_place(field(path, "deny"@), rest.len());
        assert(both_issues(allow, deny, spans, path) =~= below(deny.len()).flat_map(h));
    }
}

// ---------------------------------------------------------------------------
// The section
// ---------------------------------------------------------------------------

/// Whether a document has `[_.microkitchen]`.
pub open spec fn has_underscore(root: NodeView) -> bool {
    root.get("_"@) matches Some(table) && table.is_table() && table.get("microkitchen"@) is Some
}

/// Whether a document has its section at a place: `[_.microkitchen]`, or else
/// `[microkitchen]`.
pub open spec fn holds_section(
    root: NodeView,
    location: SectionLocation,
    section: NodeView,
) -> bool {
    match location {
        SectionLocation::Underscore => root.get("_"@) matches Some(table) && table.is_table()
            && table.get("microkitchen"@) == Some(section),
        SectionLocation::Legacy => !has_underscore(root) && root.get("microkitchen"@) == Some(
            section,
        ),
    }
}

/// The section is `[_.microkitchen]` where there is one and `[microkitchen]`
/// otherwise; the latter beside the former is an error, and alone a remark. Without
/// either there is none.
pub proof fn law_sections_are_found(
    root: NodeView,
    dir: Seq<char>,
    home: Option<Seq<char>>,
    location: SectionLocation,
    section: NodeView,
)
    ensures
        holds_section(root, location, section) ==> find_section(root).0 == Some(
            (location, section),
        ) && kitchen_of(root, dir, home).location == Some(location),
        !has_underscore(root) && root.get("microkitchen"@) is None ==> kitchen_of(
            root,
            dir,
            home,
        ).location is None && find_section(root).1.len() == 0,
        has_underscore(root) && root.get("microkitchen"@) is Some ==> find_section(root).1 == seq![
            wrong(
                root.entry("microkitchen"@)->0.key_span,
                "microkitchen"@,
                "both [_.microkitchen] and [microkitchen] are present; move everything into [_.microkitchen]"@,
            ),
        ],
        has_underscore(root) && root.get("microkitchen"@) is None ==> find_section(root).1.len()
            == 0,
        !has_underscore(root) && root.get("microkitchen"@) is Some ==> find_section(root).1 == seq![
            odd(
                root.entry("microkitchen"@)->0.key_span,
                "microkitchen"@,
                "mise warns about the unknown field [microkitchen]; rename it to [_.microkitchen]"@,
            ),
        ],
{
}

/// What a list of issues says at a key.
pub open spec fn says(issues: Seq<IssueView>, issue: IssueView) -> bool {
    issues.contains(issue)
}

proof fn lemma_says_either(a: Seq<IssueView>, b: Seq<IssueView>, issue: IssueView)
    ensures
        says(a + b, issue) <==> says(a, issue) || says(b, issue),
{
    let all = a + b;
    if says(a, issue) {
        let i = choose|i: int| 0 <= i < a.len() && a[i] == issue;
        assert(all[i] == issue);
    }
    if says(b, issue) {
        let i = choose|i: int| 0 <= i < b.len() && b[i] == issue;
        assert(all[a.len() + i] == issue);
    }
    if says(all, issue) {
        let i = choose|i: int| 0 <= i < all.len() && all[i] == issue;
        if i < a.len() {
            assert(a[i] == issue);
        } else {
            assert(b[i - a.len()] == issue);
        }
    }
}

/// Every problem of the section, of where it stands and of the user is reported, and
/// nothing else is.
pub proof fn law_every_problem_is_reported(
    root: NodeView,
    dir: Seq<char>,
    home: Option<Seq<char>>,
    location: SectionLocation,
    section: NodeView,
    issue: IssueView,
)
    requires
        holds_section(root, location, section),
    ensures
        ({
            let path = location.path();
            says(kitchen_of(root, dir, home).issues, issue) <==> says(find_section(root).1, issue)
                || says(sandbox_user(root).1, issue) || if section.is_table() {
                ||| says(
                    unknown_issues(
                        entries_of(section),
                        section,
                        path,
                        seq![
                            "cpus"@,
                            "memory"@,
                            "disk"@,
                            "mounts"@,
                            "network"@,
                            "secrets"@,
                            "dotfiles"@,
                        ],
                    ),
                    issue,
                )
                ||| says(cpus_field(section, path).1, issue)
                ||| says(size_field(section, "memory"@, path, Some(65536)).1, issue)
                ||| says(size_field(section, "disk"@, path, None).1, issue)
                ||| says(
                    mounts_field(
                        section.get("mounts"@),
                        field(path, "mounts"@),
                        dir,
                        home,
                    ).issues,
                    issue,
                )
                ||| says(network_field(section, path).1, issue)
                ||| says(secrets_field(section, path).issues, issue)
                ||| says(dotfiles_field(section, path, dir, home).1, issue)
            } else {
                issue == wrong(section.span, path, "expected a table, found "@ + section.kind())
            }
        }),
{
    law_sections_are_found(root, dir, home, location, section);
    let path = location.path();
    let found = find_section(root).1;
    let user = sandbox_user(root).1;
    lemma_says_either(found, user, issue);
    if section.is_table() {
        lemma_field(path, "mounts"@);
        let a = unknown_issues(
            entries_of(section),
            section,
            path,
            crate::config::walker::section_keys(),
        );
        let b = cpus_field(section, path).1;
        let c = size_field(section, "memory"@, path, Some(65536)).1;
        let d = size_field(section, "disk"@, path, None).1;
        let e = mounts_field(section.get("mounts"@), dotted(path, "mounts"@), dir, home).issues;
        let f = network_field(section, path).1;
        let g = secrets_field(section, path).issues;
        let h = dotfiles_field(section, path, dir, home).1;
        lemma_says_either(a, b, issue);
        lemma_says_either(a + b, c, issue);
        lemma_says_either(a + b + c, d, issue);
        lemma_says_either(a + b + c + d, e, issue);
        lemma_says_either(a + b + c + d + e, f, issue);
        lemma_says_either(a + b + c + d + e + f, g, issue);
        lemma_says_either(a + b + c + d + e + f + g, h, issue);
        lemma_says_either(found + user, section_issues(section, path, dir, home), issue);
    } else {
        lemma_says_either(found + user, table_issues(section, path), issue);
        let one = wrong(section.span, path, "expected a table, found "@ + section.kind());
        assert(table_issues(section, path) =~= seq![one]);
        assert(seq![one][0] == one);
    }
}

/// Every problem of the network table is reported, and nothing else is.
pub proof fn law_every_network_problem_is_reported(
    network: NodeView,
    path: Seq<char>,
    issue: IssueView,
)
    ensures
        ({
            let allow = rule_list(network.get("allow"@), field(path, "allow"@));
            let deny = rule_list(network.get("deny"@), field(path, "deny"@));
            says(network_issues(network, path), issue) <==> {
                ||| says(
                    unknown_issues(
                        entries_of(network),
                        network,
                        path,
                        seq!["network"@, "allow"@, "deny"@, "ports"@],
                    ),
                    issue,
                )
                ||| says(preset_field(network, path).1, issue)
                ||| says(allow.issues, issue)
                ||| says(deny.issues, issue)
                ||| says(both_issues(allow.rules, deny.rules, deny.spans, path), issue)
                ||| says(ports_field(network, path).1, issue)
                ||| preset_field(network, path).0 == NetworkPreset::Disabled && ports_field(
                    network,
                    path,
                ).0.len() > 0 && issue == wrong(
                    network.key_span("ports"@),
                    field(path, "ports"@),
                    "ports need network access, but `network = \"none\"` disables it"@,
                )
                ||| preset_field(network, path).0 == NetworkPreset::Disabled && (allow.rules.len()
                    > 0 || deny.rules.len() > 0) && issue == odd(
                    network.key_span("network"@),
                    field(path, "network"@),
                    "`allow` and `deny` have no effect with `network = \"none\"`"@,
                )
            }
        }),
{
    lemma_field(path, "allow"@);
    lemma_field(path, "deny"@);
    lemma_field(path, "ports"@);
    lemma_field(path, "network"@);
    let config = network_config(network, path);
    let allow = rule_list(network.get("allow"@), field(path, "allow"@));
    let deny = rule_list(network.get("deny"@), field(path, "deny"@));
    let a = unknown_issues(
        entries_of(network),
        network,
        path,
        crate::config::walker::network_keys(),
    );
    let b = preset_field(network, path).1;
    let c = allow.issues;
    let d = deny.issues;
    let e = both_issues(allow.rules, deny.rules, deny.spans, path);
    let f = ports_field(network, path).1;
    let g = disabled_issues(network, path, config);
    lemma_says_either(a, b, issue);
    lemma_says_either(a + b, c, issue);
    lemma_says_either(a + b + c, d, issue);
    lemma_says_either(a + b + c + d, e, issue);
    lemma_says_either(a + b + c + d + e, f, issue);
    lemma_says_either(a + b + c + d + e + f, g, issue);
    let one = wrong(
        network.key_span("ports"@),
        field(path, "ports"@),
        "ports need network access, but `network = \"none\"` disables it"@,
    );
    let two = odd(
        network.key_span("network"@),
        field(path, "network"@),
        "`allow` and `deny` have no effect with `network = \"none\"`"@,
    );
    let first = if config.ports.len() > 0 {
        seq![one]
    } else {
        no_issues()
    };
    let second = if config.allow.len() > 0 || config.deny.len() > 0 {
        seq![two]
    } else {
        no_issues()
    };
    if config.preset == NetworkPreset::Disabled {
        assert(g =~= first + second);
        lemma_says_either(first, second, issue);
        assert(seq![one][0] == one);
        assert(seq![two][0] == two);
    }
}

// ---------------------------------------------------------------------------
// Values
// ---------------------------------------------------------------------------

/// The number of CPUs that a section gives: the number that is written, where it is
/// one from 1 to 64, and 2 otherwise. Anything else that is written is an error.
pub proof fn law_cpus_read_back(
    root: NodeView,
    dir: Seq<char>,
    home: Option<Seq<char>>,
    location: SectionLocation,
    section: NodeView,
)
    requires
        holds_section(root, location, section),
        section.is_table(),
    ensures
        ({
            let cpus = kitchen_of(root, dir, home).config.cpus;
            let issues = cpus_field(section, location.path()).1;
            let key = field(location.path(), "cpus"@);
            match section.get("cpus"@) {
                None => cpus == 2 && issues.len() == 0,
                Some(node) => match node.integer {
                    Some(n) => if 1 <= n <= 64 {
                        cpus == n && issues.len() == 0
                    } else {
                        cpus == 2 && issues == seq![
                            wrong(
                                node.span,
                                key,
                                "must be between 1 and "@ + decimal(64) + ", got "@
                                    + signed_decimal(n as int),
                            ),
                        ]
                    },
                    None => cpus == 2 && issues == seq![
                        wrong(node.span, key, "expected an integer, found "@ + node.kind()),
                    ],
                },
            }
        }),
{
    law_sections_are_found(root, dir, home, location, section);
    lemma_field(location.path(), "cpus"@);
}

/// The memory and the disk that a section gives: the size that is written, where it
/// is one (and, of memory, at most 64 GiB), and 4 GiB and 10 GiB otherwise. Anything
/// else that is written is an error.
pub proof fn law_sizes_are_read(
    root: NodeView,
    dir: Seq<char>,
    home: Option<Seq<char>>,
    location: SectionLocation,
    section: NodeView,
)
    requires
        holds_section(root, location, section),
        section.is_table(),
    ensures
        ({
            let memory = kitchen_of(root, dir, home).config.memory_mib;
            let issues = size_field(section, "memory"@, location.path(), Some(65536)).1;
            let key = field(location.path(), "memory"@);
            match section.get("memory"@) {
                None => memory == 4096 && issues.len() == 0,
                Some(node) => match node.text {
                    Some(text) => match size_of(text) {
                        Ok(mib) => if mib <= 65536 {
                            memory == mib && issues.len() == 0
                        } else {
                            memory == 4096 && issues == seq![
                                wrong(node.span, key, "must be at most "@ + mib_text(65536)),
                            ]
                        },
                        Err(problem) => memory == 4096 && issues == seq![
                            wrong(node.span, key, problem.text()),
                        ],
                    },
                    None => memory == 4096 && issues == seq![
                        wrong(node.span, key, "expected a string, found "@ + node.kind()),
                    ],
                },
            }
        }),
        ({
            let disk = kitchen_of(root, dir, home).config.disk_mib;
            let issues = size_field(section, "disk"@, location.path(), None).1;
            let key = field(location.path(), "disk"@);
            match section.get("disk"@) {
                None => disk == 10240 && issues.len() == 0,
                Some(node) => match node.text {
                    Some(text) => match size_of(text) {
                        Ok(mib) => disk == mib && issues.len() == 0,
                        Err(problem) => disk == 10240 && issues == seq![
                            wrong(node.span, key, problem.text()),
                        ],
                    },
                    None => disk == 10240 && issues == seq![
                        wrong(node.span, key, "expected a string, found "@ + node.kind()),
                    ],
                },
            }
        }),
{
    law_sections_are_found(root, dir, home, location, section);
    lemma_field(location.path(), "memory"@);
    lemma_field(location.path(), "disk"@);
}

/// A size reads back as it is shown.
pub proof fn law_shown_sizes_read_back(
    root: NodeView,
    dir: Seq<char>,
    home: Option<Seq<char>>,
    location: SectionLocation,
    section: NodeView,
    mib: u32,
)
    requires
        holds_section(root, location, section),
        section.is_table(),
        mib > 0,
    ensures
        section.get("disk"@) matches Some(node) && node.text == Some(mib_text(mib as nat))
            ==> kitchen_of(root, dir, home).config.disk_mib == mib,
        mib <= 65536 && (section.get("memory"@) matches Some(node) && node.text == Some(
            mib_text(mib as nat),
        )) ==> kitchen_of(root, dir, home).config.memory_mib == mib,
{
    law_sizes_are_read(root, dir, home, location, section);
    law_sizes_round_trip(mib);
}

/// The directory of dotfiles that a section gives is the path that is written, where
/// it is one.
pub proof fn law_dotfiles_are_read(
    root: NodeView,
    dir: Seq<char>,
    home: Option<Seq<char>>,
    location: SectionLocation,
    section: NodeView,
)
    requires
        holds_section(root, location, section),
        section.is_table(),
    ensures
        ({
            let dotfiles = kitchen_of(root, dir, home).config.dotfiles;
            let issues = dotfiles_field(section, location.path(), dir, home).1;
            let key = field(location.path(), "dotfiles"@);
            match section.get("dotfiles"@) {
                None => dotfiles is None && issues.len() == 0,
                Some(node) => match node.text {
                    Some(text) => match host_path(text, dir, home) {
                        Ok(path) => dotfiles == Some(path) && issues.len() == 0,
                        Err(message) => dotfiles is None && issues == seq![
                            wrong(node.span, key, message),
                        ],
                    },
                    None => dotfiles is None && issues == seq![
                        wrong(node.span, key, "expected a string, found "@ + node.kind()),
                    ],
                },
            }
        }),
        kitchen_of(root, dir, home).spans.dotfiles == match section.get("dotfiles"@) {
            Some(node) => node.span,
            None => None,
        },
{
    law_sections_are_found(root, dir, home, location, section);
    lemma_field(location.path(), "dotfiles"@);
}

/// The user that a document gives: chef with the uid and the gid that are declared,
/// each 1001 where it is not. The gid is that of chef's group, which must be declared
/// unless it is chef's own.
pub proof fn law_the_user_is_read(root: NodeView, dir: Seq<char>, home: Option<Seq<char>>)
    ensures
        kitchen_of(root, dir, home).config.user == sandbox_user(root).0,
        chef_table(root) is None ==> sandbox_user(root).0 == (GuestUser { uid: 1001, gid: 1001 })
            && sandbox_user(root).1.len() == 0,
        chef_table(root) matches Some(chef) ==> {
            let user = sandbox_user(root).0;
            let group = match text_at(chef, "group"@) {
                Some(group) => group,
                None => "chef"@,
            };
            &&& match chef.get("uid"@) {
                None => user.uid == 1001 && chef_uid(chef).1.len() == 0,
                Some(node) => match node.integer {
                    Some(n) => if 0 <= n <= 0xffff_ffff {
                        user.uid == n && (chef_uid(chef).1.len() == 0 <==> n != 0)
                    } else {
                        user.uid == 1001 && chef_uid(chef).1.len() == 1
                    },
                    None => user.uid == 1001 && chef_uid(chef).1.len() == 1,
                },
            }
            &&& match group_gid(root, group) {
                None => user.gid == 1001 && (chef_gid(root, chef).1.len() == 0 <==> group
                    == "chef"@),
                Some(node) => match node.integer {
                    Some(n) => if 0 <= n <= 0xffff_ffff {
                        user.gid == n && chef_gid(root, chef).1.len() == 0
                    } else {
                        user.gid == 1001 && chef_gid(root, chef).1.len() == 1
                    },
                    None => user.gid == 1001 && chef_gid(root, chef).1.len() == 1,
                },
            }
            &&& (state_issues(chef).len() == 0 <==> text_at(chef, "state"@) != Some("absent"@))
        },
{
}

/// Where chef and the groups are declared.
pub proof fn law_chef_is_found(root: NodeView, group: Seq<char>)
    ensures
        chef_table(root) == match root.get("bootstrap"@) {
            Some(bootstrap) => match bootstrap.get("users"@) {
                Some(users) => match users.get("chef"@) {
                    Some(chef) => if bootstrap.is_table() && users.is_table() && chef.is_table() {
                        Some(chef)
                    } else {
                        None
                    },
                    None => None,
                },
                None => None,
            },
            None => None,
        },
        group_gid(root, group) == match root.get("bootstrap"@) {
            Some(bootstrap) => match bootstrap.get("groups"@) {
                Some(groups) => match groups.get(group) {
                    Some(table) => if bootstrap.is_table() && groups.is_table()
                        && table.is_table() {
                        table.get("gid"@)
                    } else {
                        None
                    },
                    None => None,
                },
                None => None,
            },
            None => None,
        },
{
}

// ---------------------------------------------------------------------------
// The network table
// ---------------------------------------------------------------------------

/// The network that a section gives is that of its table, where it has one, and
/// otherwise a public one without rules and ports.
pub proof fn law_the_network_is_read(
    root: NodeView,
    dir: Seq<char>,
    home: Option<Seq<char>>,
    location: SectionLocation,
    section: NodeView,
)
    requires
        holds_section(root, location, section),
        section.is_table(),
    ensures
        ({
            let config = kitchen_of(root, dir, home).config.network;
            let key = field(location.path(), "network"@);
            let issues = network_field(section, location.path()).1;
            match section.get("network"@) {
                Some(network) => if network.is_table() {
                    &&& config.preset == preset_field(network, key).0
                    &&& config.allow == rule_list(
                        network.get("allow"@),
                        field(key, "allow"@),
                    ).rules
                    &&& config.deny == rule_list(network.get("deny"@), field(key, "deny"@)).rules
                    &&& config.ports == ports_field(network, key).0
                    &&& issues == network_issues(network, key)
                } else {
                    &&& config == (NetworkView {
                        preset: NetworkPreset::Public,
                        allow: Seq::empty(),
                        deny: Seq::empty(),
                        ports: Seq::empty(),
                    })
                    &&& issues == seq![
                        wrong(network.span, key, "expected a table, found "@ + network.kind()),
                    ]
                },
                None => {
                    &&& config == (NetworkView {
                        preset: NetworkPreset::Public,
                        allow: Seq::empty(),
                        deny: Seq::empty(),
                        ports: Seq::empty(),
                    })
                    &&& issues.len() == 0
                },
            }
        }),
{
    law_sections_are_found(root, dir, home, location, section);
    let key = field(location.path(), "network"@);
    lemma_field(location.path(), "network"@);
    lemma_field(key, "allow"@);
    lemma_field(key, "deny"@);
}

/// Whether no issue is an error at a key.
pub open spec fn no_error_at(issues: Seq<IssueView>, key: Seq<char>) -> bool {
    forall|i: int|
        0 <= i < issues.len() && (#[trigger] issues[i]).key == key ==> issues[i].severity
            == Severity::Warning
}

/// Whether all issues are at keys that start alike.
pub open spec fn all_under(issues: Seq<IssueView>, prefix: Seq<char>) -> bool {
    forall|i: int|
        0 <= i < issues.len() ==> {
            let key = (#[trigger] issues[i]).key;
            prefix.len() <= key.len() && key.subrange(0, prefix.len() as int) == prefix
        }
}

proof fn lemma_no_error_add(a: Seq<IssueView>, b: Seq<IssueView>, key: Seq<char>)
    requires
        no_error_at(a, key),
        no_error_at(b, key),
    ensures
        no_error_at(a + b, key),
{
    let all = a + b;
    assert forall|i: int| 0 <= i < all.len() && (#[trigger] all[i]).key == key implies all[i].severity
        == Severity::Warning by {
        if i < a.len() {
            assert(a[i] == all[i]);
        } else {
            assert(b[i - a.len()] == all[i]);
        }
    }
}

proof fn lemma_elsewhere(issues: Seq<IssueView>, prefix: Seq<char>, key: Seq<char>, at: int)
    requires
        all_under(issues, prefix),
        0 <= at < prefix.len(),
        at < key.len() ==> key[at] != prefix[at],
    ensures
        no_error_at(issues, key),
{
    assert forall|i: int| 0 <= i < issues.len() implies (#[trigger] issues[i]).key != key by {
        let k = issues[i].key;
        assert(k.subrange(0, prefix.len() as int)[at] == prefix[at]);
    }
}

proof fn lemma_starts(prefix: Seq<char>, rest: Seq<char>)
    ensures
        (prefix + rest).subrange(0, prefix.len() as int) == prefix,
{
    assert((prefix + rest).subrange(0, prefix.len() as int) =~= prefix);
}

proof fn lemma_under_add(a: Seq<IssueView>, b: Seq<IssueView>, prefix: Seq<char>)
    requires
        all_under(a, prefix),
        all_under(b, prefix),
    ensures
        all_under(a + b, prefix),
{
    let all = a + b;
    assert forall|i: int| 0 <= i < all.len() implies {
        let key = (#[trigger] all[i]).key;
        prefix.len() <= key.len() && key.subrange(0, prefix.len() as int) == prefix
    } by {
        if i < a.len() {
            assert(a[i] == all[i]);
        } else {
            assert(b[i - a.len()] == all[i]);
        }
    }
}

proof fn lemma_under_shorter(issues: Seq<IssueView>, prefix: Seq<char>, more: Seq<char>)
    requires
        all_under(issues, prefix + more),
    ensures
        all_under(issues, prefix),
{
    assert forall|i: int| 0 <= i < issues.len() implies {
        let key = (#[trigger] issues[i]).key;
        prefix.len() <= key.len() && key.subrange(0, prefix.len() as int) == prefix
    } by {
        let key = issues[i].key;
        let long = prefix + more;
        assert(key.subrange(0, long.len() as int) == long);
        assert(key.subrange(0, prefix.len() as int) =~= long.subrange(0, prefix.len() as int));
        lemma_starts(prefix, more);
    }
}

proof fn lemma_strings_under(node: NodeView, key: Seq<char>)
    ensures
        all_under(strings(node, key).1, key),
{
    match node.elements {
        None => {
            assert(key.subrange(0, key.len() as int) =~= key);
        },
        Some(nodes) => lemma_elements_under(nodes, key),
    }
}

proof fn lemma_elements_under(nodes: Seq<NodeView>, key: Seq<char>)
    ensures
        all_under(element_issues(nodes, key), key),
    decreases nodes.len(),
{
    if nodes.len() > 0 {
        lemma_elements_under(nodes.drop_last(), key);
        lemma_indexed_under(key, (nodes.len() - 1) as nat);
    }
}

proof fn lemma_indexed_under(key: Seq<char>, index: nat)
    ensures
        indexed(key, index).subrange(0, key.len() as int) == key,
        key.len() <= indexed(key, index).len(),
{
    assert(indexed(key, index).subrange(0, key.len() as int) =~= key);
}

proof fn lemma_rules_under(elements: Seq<ElementView>, key: Seq<char>)
    ensures
        all_under(rule_entries(elements, key).issues, key),
    decreases elements.len(),
{
    if elements.len() > 0 {
        lemma_rules_under(elements.drop_last(), key);
        lemma_indexed_under(key, elements.last().index);
    }
}

proof fn lemma_rule_list_under(node: Option<NodeView>, key: Seq<char>)
    ensures
        all_under(rule_list(node, key).issues, key),
{
    if let Some(node) = node {
        let found = rule_entries(strings(node, key).0, key);
        lemma_strings_under(node, key);
        lemma_rules_under(strings(node, key).0, key);
        lemma_under_add(strings(node, key).1, found.issues, key);
    }
}

proof fn lemma_ports_under(elements: Seq<ElementView>, key: Seq<char>)
    ensures
        all_under(port_entries(elements, key).1, key),
    decreases elements.len(),
{
    if elements.len() > 0 {
        lemma_ports_under(elements.drop_last(), key);
        lemma_indexed_under(key, elements.last().index);
    }
}

proof fn lemma_mounts_under(
    elements: Seq<ElementView>,
    key: Seq<char>,
    dir: Seq<char>,
    home: Option<Seq<char>>,
)
    ensures
        all_under(mount_entries(elements, key, dir, home).issues, key),
    decreases elements.len(),
{
    if elements.len() > 0 {
        lemma_mounts_under(elements.drop_last(), key, dir, home);
        lemma_indexed_under(key, elements.last().index);
    }
}

proof fn lemma_both_under(
    allow: Seq<PatternView>,
    deny: Seq<PatternView>,
    spans: Seq<Option<Span>>,
    path: Seq<char>,
)
    ensures
        all_under(both_issues(allow, deny, spans, path), dotted(path, "deny"@)),
    decreases deny.len(),
{
    if deny.len() > 0 {
        lemma_both_under(allow, deny.drop_last(), spans, path);
        lemma_indexed_under(dotted(path, "deny"@), (deny.len() - 1) as nat);
    }
}

proof fn lemma_name_hosts_under(
    rules: Seq<PatternView>,
    spans: Seq<Option<Span>>,
    key: Seq<char>,
)
    ensures
        all_under(name_hosts(rules, spans, key).1, key),
    decreases rules.len(),
{
    if rules.len() > 0 {
        lemma_name_hosts_under(rules.drop_last(), spans, key);
        assert(key.subrange(0, key.len() as int) =~= key);
    }
}

proof fn lemma_secret_keys_under(
    entries: Seq<EntryView>,
    secret: NodeView,
    key: Seq<char>,
    section: Seq<char>,
)
    ensures
        all_under(secret_key_issues(entries, secret, key, section), key),
    decreases entries.len(),
{
    if entries.len() > 0 {
        lemma_secret_keys_under(entries.drop_last(), secret, key, section);
        let name = entries.last().key;
        assert(dotted(key, name).subrange(0, key.len() as int) =~= key);
    }
}

proof fn lemma_secret_under(
    secret: NodeView,
    key: Seq<char>,
    section: Seq<char>,
    span: Option<Span>,
)
    ensures
        all_under(secret_hosts(secret, key, section, span).1, key),
{
    let keys = secret_key_issues(entries_of(secret), secret, key, section);
    lemma_secret_keys_under(entries_of(secret), secret, key, section);
    assert(key.subrange(0, key.len() as int) =~= key);
    if let Some(node) = secret.get("allow"@) {
        let allow = dotted(key, "allow"@);
        let list = rule_list(Some(node), allow);
        let none = if node.elements is Some && (node.elements->0).len() == 0 {
            seq![wrong(node.span, allow, "must list at least one host"@)]
        } else {
            no_issues()
        };
        let hosts = name_hosts(list.rules, list.spans, allow);
        lemma_rule_list_under(Some(node), allow);
        lemma_name_hosts_under(list.rules, list.spans, allow);
        assert(allow =~= key + ("."@ + "allow"@));
        lemma_under_shorter(list.issues, key, "."@ + "allow"@);
        lemma_under_shorter(hosts.1, key, "."@ + "allow"@);
        assert(allow.subrange(0, key.len() as int) =~= key);
        assert(all_under(none, key));
        lemma_under_add(keys, none, key);
        lemma_under_add(keys + none, list.issues, key);
        lemma_under_add(keys + none + list.issues, hosts.1, key);
    }
}

proof fn lemma_secrets_under(
    entries: Seq<EntryView>,
    table: NodeView,
    path: Seq<char>,
    section: Seq<char>,
)
    ensures
        all_under(secret_entries(entries, table, path, section).issues, path),
    decreases entries.len(),
{
    if entries.len() > 0 {
        let rest = secret_entries(entries.drop_last(), table, path, section);
        lemma_secrets_under(entries.drop_last(), table, path, section);
        let name = entries.last().key;
        let node = entries.last().node;
        let key = dotted(path, name);
        assert(key.subrange(0, path.len() as int) =~= path);
        if env_name(name) && !node.is_table() {
            assert(all_under(table_issues(node, key), path));
            lemma_under_add(rest.issues, table_issues(node, key), path);
        } else if env_name(name) {
            let found = secret_hosts(node, key, section, table.key_span(name));
            lemma_secret_under(node, key, section, table.key_span(name));
            assert(key =~= path + ("."@ + name));
            lemma_under_shorter(found.1, path, "."@ + name);
            lemma_under_add(rest.issues, found.1, path);
        }
    }
}

proof fn lemma_unknown_elsewhere(
    entries: Seq<EntryView>,
    table: NodeView,
    path: Seq<char>,
    allowed: Seq<Seq<char>>,
    name: Seq<char>,
)
    requires
        allowed.contains(name) || forall|i: int|
            0 <= i < entries.len() ==> (#[trigger] entries[i]).key != name,
    ensures
        no_error_at(unknown_issues(entries, table, path, allowed), dotted(path, name)),
    decreases entries.len(),
{
    if entries.len() > 0 {
        let rest = entries.drop_last();
        assert forall|i: int| 0 <= i < rest.len() && !allowed.contains(name) implies (
        #[trigger] rest[i]).key != name by {
            assert(rest[i] == entries[i]);
        }
        lemma_unknown_elsewhere(rest, table, path, allowed, name);
        let other = entries.last().key;
        assert(entries[entries.len() - 1] == entries.last());
        let a = dotted(path, other);
        let b = dotted(path, name);
        assert(other =~= a.subrange((path.len() + "."@.len()) as int, a.len() as int));
        assert(name =~= b.subrange((path.len() + "."@.len()) as int, b.len() as int));
    }
}

proof fn lemma_user_elsewhere(root: NodeView, key: Seq<char>)
    requires
        key.len() > 0,
        key[0] != 'b',
    ensures
        no_error_at(sandbox_user(root).1, key),
{
    if let Some(chef) = chef_table(root) {
        reveal_strlit("bootstrap.users.chef.state");
        reveal_strlit("bootstrap.users.chef.uid");
        reveal_strlit("bootstrap.users.chef.group");
        reveal_strlit("bootstrap.groups.");
        let a = state_issues(chef);
        let b = chef_uid(chef).1;
        let c = chef_gid(root, chef).1;
        assert(no_error_at(a, key));
        assert(no_error_at(b, key));
        assert forall|i: int| 0 <= i < c.len() implies (#[trigger] c[i]).key[0] == 'b' by {}
        assert(no_error_at(c, key));
        lemma_no_error_add(a, b, key);
        lemma_no_error_add(a + b, c, key);
    }
}

/// The preset reads back as it is written: for every preset, a network table that
/// writes its text gives it, and there is no error at its key. (A key of the section
/// that is itself spelled with a dot is told at the same key, and is another thing.)
/// Anything else gives a public network, and is an error unless nothing is written.
pub proof fn law_presets_read_back(
    root: NodeView,
    dir: Seq<char>,
    home: Option<Seq<char>>,
    location: SectionLocation,
    section: NodeView,
    network: NodeView,
    preset: NetworkPreset,
)
    requires
        holds_section(root, location, section),
        section.is_table(),
        section.get("network"@) == Some(network),
        network.is_table(),
    ensures
        network.get("network"@) matches Some(node) && node.text == Some(preset.spec_text()) ==> {
            &&& kitchen_of(root, dir, home).config.network.preset == preset
            &&& preset_field(network, field(location.path(), "network"@)).1.len() == 0
            &&& section.get("network.network"@) is None ==> no_error_at(
                kitchen_of(root, dir, home).issues,
                field(field(location.path(), "network"@), "network"@),
            )
        },
        network.get("network"@) is None ==> kitchen_of(root, dir, home).config.network.preset
            == NetworkPreset::Public,
        network.get("network"@) matches Some(node) && (node.text matches Some(text) ==> text
            != "none"@ && text != "public"@ && text != "open"@) ==> {
            let node = network.get("network"@)->0;
            &&& kitchen_of(root, dir, home).config.network.preset == NetworkPreset::Public
            &&& preset_field(network, field(location.path(), "network"@)).1 == seq![
                wrong(
                    node.span,
                    field(field(location.path(), "network"@), "network"@),
                    match node.text {
                        Some(text) => "unknown preset `"@ + text
                            + "`; expected `none`, `public` or `open`"@,
                        None => "expected a string, found "@ + node.kind(),
                    },
                ),
            ]
        },
{
    law_sections_are_found(root, dir, home, location, section);
    let path = location.path();
    let table = field(path, "network"@);
    let key = field(table, "network"@);
    lemma_field(path, "network"@);
    lemma_field(table, "network"@);
    reveal_strlit("none");
    reveal_strlit("public");
    reveal_strlit("open");
    assert("none"@[0] == 'n' && "public"@[0] == 'p' && "open"@[0] == 'o');
    if (network.get("network"@) matches Some(node) && node.text == Some(preset.spec_text()))
        && section.get("network.network"@) is None {
        lemma_preset_has_no_error(root, dir, home, location, section, network);
    }
}

proof fn lemma_network_elsewhere(network: NodeView, path: Seq<char>)
    requires
        preset_field(network, path).1.len() == 0,
    ensures
        no_error_at(network_issues(network, path), dotted(path, "network"@)),
{
    let key = dotted(path, "network"@);
    reveal_strlit(".");
    reveal_strlit("network");
    reveal_strlit("allow");
    reveal_strlit("deny");
    reveal_strlit("ports");
    let allow = rule_list(network.get("allow"@), dotted(path, "allow"@));
    let deny = rule_list(network.get("deny"@), dotted(path, "deny"@));
    let n = path.len() as int + 1;
    assert(key[n] == 'n');
    let a = unknown_issues(
        entries_of(network),
        network,
        path,
        crate::config::walker::network_keys(),
    );
    assert(crate::config::walker::network_keys()[0] == "network"@);
    lemma_unknown_elsewhere(
        entries_of(network),
        network,
        path,
        crate::config::walker::network_keys(),
        "network"@,
    );
    let b = preset_field(network, path).1;
    let c = allow.issues;
    let d = deny.issues;
    let e = both_issues(allow.rules, deny.rules, deny.spans, path);
    let f = ports_field(network, path).1;
    let g = disabled_issues(network, path, network_config(network, path));
    lemma_rule_list_under(network.get("allow"@), dotted(path, "allow"@));
    lemma_elsewhere(c, dotted(path, "allow"@), key, n);
    lemma_rule_list_under(network.get("deny"@), dotted(path, "deny"@));
    lemma_elsewhere(d, dotted(path, "deny"@), key, n);
    lemma_both_under(allow.rules, deny.rules, deny.spans, path);
    lemma_elsewhere(e, dotted(path, "deny"@), key, n);
    let ports = dotted(path, "ports"@);
    if let Some(node) = network.get("ports"@) {
        lemma_strings_under(node, ports);
        lemma_ports_under(strings(node, ports).0, ports);
        lemma_under_add(strings(node, ports).1, port_entries(strings(node, ports).0, ports).1, ports);
    }
    lemma_elsewhere(f, ports, key, n);
    assert(ports[n] == 'p');
    assert(no_error_at(g, key));
    lemma_no_error_add(a, b, key);
    lemma_no_error_add(a + b, c, key);
    lemma_no_error_add(a + b + c, d, key);
    lemma_no_error_add(a + b + c + d, e, key);
    lemma_no_error_add(a + b + c + d + e, f, key);
    lemma_no_error_add(a + b + c + d + e + f, g, key);
}

proof fn lemma_preset_has_no_error(
    root: NodeView,
    dir: Seq<char>,
    home: Option<Seq<char>>,
    location: SectionLocation,
    section: NodeView,
    network: NodeView,
)
    requires
        find_section(root).0 == Some((location, section)),
        section.is_table(),
        section.get("network"@) == Some(network),
        network.is_table(),
        section.get("network.network"@) is None,
        preset_field(network, dotted(location.path(), "network"@)).1.len() == 0,
    ensures
        no_error_at(
            kitchen_of(root, dir, home).issues,
            dotted(dotted(location.path(), "network"@), "network"@),
        ),
{
    let path = location.path();
    let table = dotted(path, "network"@);
    let key = dotted(table, "network"@);
    reveal_strlit("_.microkitchen");
    reveal_strlit("microkitchen");
    reveal_strlit(".");
    reveal_strlit("network");
    reveal_strlit("network.network");
    reveal_strlit("cpus");
    reveal_strlit("memory");
    reveal_strlit("disk");
    reveal_strlit("mounts");
    reveal_strlit("secrets");
    reveal_strlit("dotfiles");
    let n = path.len() as int + 1;
    assert(key[0] == path[0]);
    assert(key[n] == 'n');
    assert(key =~= dotted(path, "network.network"@));
    lemma_user_elsewhere(root, key);
    let found = find_section(root).1;
    assert(no_error_at(found, key));
    let a = unknown_issues(
        entries_of(section),
        section,
        path,
        crate::config::walker::section_keys(),
    );
    crate::tree::lemma_entry_index(entries_of(section), "network.network"@);
    lemma_unknown_elsewhere(
        entries_of(section),
        section,
        path,
        crate::config::walker::section_keys(),
        "network.network"@,
    );
    let b = cpus_field(section, path).1;
    let c = size_field(section, "memory"@, path, Some(65536)).1;
    let d = size_field(section, "disk"@, path, None).1;
    let e = mounts_field(section.get("mounts"@), dotted(path, "mounts"@), dir, home).issues;
    let f = network_field(section, path).1;
    let g = secrets_field(section, path).issues;
    let h = dotfiles_field(section, path, dir, home).1;
    assert(dotted(path, "cpus"@)[n] == 'c');
    assert(dotted(path, "memory"@)[n] == 'm');
    assert(dotted(path, "disk"@)[n] == 'd');
    assert(dotted(path, "dotfiles"@)[n] == 'd');
    assert(no_error_at(b, key));
    assert(no_error_at(c, key));
    assert(no_error_at(d, key));
    assert(no_error_at(h, key));
    let mounts = dotted(path, "mounts"@);
    if let Some(node) = section.get("mounts"@) {
        lemma_strings_under(node, mounts);
        lemma_mounts_under(strings(node, mounts).0, mounts, dir, home);
        lemma_under_add(
            strings(node, mounts).1,
            mount_entries(strings(node, mounts).0, mounts, dir, home).issues,
            mounts,
        );
    }
    assert(mounts[n] == 'm');
    lemma_elsewhere(e, mounts, key, n);
    lemma_network_elsewhere(network, table);
    let secrets = dotted(path, "secrets"@);
    assert(secrets[n] == 's');
    if let Some(node) = section.get("secrets"@) {
        lemma_secrets_under(entries_of(node), node, secrets, path);
        assert(secrets.subrange(0, secrets.len() as int) =~= secrets);
    }
    lemma_elsewhere(g, secrets, key, n);
    lemma_no_error_add(a, b, key);
    lemma_no_error_add(a + b, c, key);
    lemma_no_error_add(a + b + c, d, key);
    lemma_no_error_add(a + b + c + d, e, key);
    lemma_no_error_add(a + b + c + d + e, f, key);
    lemma_no_error_add(a + b + c + d + e + f, g, key);
    lemma_no_error_add(a + b + c + d + e + f + g, h, key);
    lemma_no_error_add(found, sandbox_user(root).1, key);
    lemma_no_error_add(found + sandbox_user(root).1, section_issues(section, path, dir, home), key);
}

/// A list of rules that is missing is empty; one that is written is read entry by
/// entry, after what is wrong with it as a list of strings.
pub proof fn law_lists_of_rules_are_read(node: Option<NodeView>, key: Seq<char>)
    ensures
        node is None ==> rule_list(node, key).rules.len() == 0 && rule_list(
            node,
            key,
        ).issues.len() == 0 && rule_list(node, key).spans.len() == 0,
        node matches Some(list) ==> match list.elements {
            Some(nodes) => {
                let read = rule_entries(string_elements(nodes), key);
                &&& rule_list(node, key).rules == read.rules
                &&& rule_list(node, key).spans == read.spans
                &&& rule_list(node, key).issues == element_issues(nodes, key) + read.issues
            },
            None => {
                &&& rule_list(node, key).rules.len() == 0
                &&& rule_list(node, key).issues == seq![
                    wrong(list.span, key, "expected an array of strings, found "@ + list.kind()),
                ]
            },
        },
{
    if let Some(list) = node {
        if list.elements is None {
            assert(rule_list(node, key).issues =~= seq![
                wrong(list.span, key, "expected an array of strings, found "@ + list.kind()),
            ]);
        }
    }
}

/// The mounts and the ports that are missing are none; those that are written are
/// read entry by entry.
pub proof fn law_lists_of_mounts_and_ports_are_read(
    node: Option<NodeView>,
    network: NodeView,
    path: Seq<char>,
    dir: Seq<char>,
    home: Option<Seq<char>>,
)
    ensures
        ({
            let key = field(path, "mounts"@);
            let read = mounts_field(node, key, dir, home);
            match node {
                None => read.mounts.len() == 0 && read.issues.len() == 0 && read.spans.len() == 0,
                Some(list) => match list.elements {
                    Some(nodes) => {
                        let found = mount_entries(string_elements(nodes), key, dir, home);
                        &&& read.mounts == found.mounts
                        &&& read.spans == found.spans
                        &&& read.issues == element_issues(nodes, key) + found.issues
                    },
                    None => read.mounts.len() == 0 && read.issues == seq![
                        wrong(list.span, key, "expected an array of strings, found "@ + list.kind()),
                    ],
                },
            }
        }),
        ({
            let key = field(path, "ports"@);
            let read = ports_field(network, path);
            match network.get("ports"@) {
                None => read.0.len() == 0 && read.1.len() == 0,
                Some(list) => match list.elements {
                    Some(nodes) => {
                        let found = port_entries(string_elements(nodes), key);
                        &&& read.0 == found.0
                        &&& read.1 == element_issues(nodes, key) + found.1
                    },
                    None => read.0.len() == 0 && read.1 == seq![
                        wrong(list.span, key, "expected an array of strings, found "@ + list.kind()),
                    ],
                },
            }
        }),
{
    lemma_field(path, "ports"@);
    if let Some(list) = node {
        if list.elements is None {
            assert(mounts_field(node, field(path, "mounts"@), dir, home).issues =~= seq![
                wrong(
                    list.span,
                    field(path, "mounts"@),
                    "expected an array of strings, found "@ + list.kind(),
                ),
            ]);
        }
    }
    if let Some(list) = network.get("ports"@) {
        if list.elements is None {
            assert(ports_field(network, path).1 =~= seq![
                wrong(
                    list.span,
                    field(path, "ports"@),
                    "expected an array of strings, found "@ + list.kind(),
                ),
            ]);
        }
    }
}

/// The mounts and the secrets of the configuration are those of the section.
pub proof fn law_mounts_and_secrets_are_read(
    root: NodeView,
    dir: Seq<char>,
    home: Option<Seq<char>>,
    location: SectionLocation,
    section: NodeView,
)
    requires
        holds_section(root, location, section),
        section.is_table(),
    ensures
        ({
            let reading = kitchen_of(root, dir, home);
            let mounts = mounts_field(
                section.get("mounts"@),
                field(location.path(), "mounts"@),
                dir,
                home,
            );
            &&& reading.config.mounts == mounts.mounts
            &&& reading.spans.mounts == mounts.spans
        }),
        ({
            let reading = kitchen_of(root, dir, home);
            let key = field(location.path(), "secrets"@);
            match section.get("secrets"@) {
                Some(table) => if table.is_table() {
                    let secrets = secret_entries(entries_of(table), table, key, location.path());
                    &&& reading.config.secrets == secrets.secrets
                    &&& reading.spans.secrets == secrets.spans
                    &&& secrets_field(section, location.path()).issues == secrets.issues
                } else {
                    &&& reading.config.secrets == Map::<Seq<char>, Seq<PatternView>>::empty()
                    &&& secrets_field(section, location.path()).issues == seq![
                        wrong(table.span, key, "expected a table, found "@ + table.kind()),
                    ]
                },
                None => {
                    &&& reading.config.secrets == Map::<Seq<char>, Seq<PatternView>>::empty()
                    &&& secrets_field(section, location.path()).issues.len() == 0
                },
            }
        }),
{
    law_sections_are_found(root, dir, home, location, section);
    lemma_field(location.path(), "mounts"@);
    lemma_field(location.path(), "secrets"@);
}

/// Whether an entry is a table under a name.
pub open spec fn is_secret(entry: EntryView, name: Seq<char>) -> bool {
    entry.key == name && entry.node.is_table()
}

/// A secret is read exactly where its name is that of an environment variable and
/// there is a table under it.
pub proof fn law_secrets_are_read(
    entries: Seq<EntryView>,
    table: NodeView,
    path: Seq<char>,
    section: Seq<char>,
    name: Seq<char>,
)
    ensures
        secret_entries(entries, table, path, section).secrets.contains_key(name) <==> env_name(name)
            && exists|i: int| 0 <= i < entries.len() && is_secret(#[trigger] entries[i], name),
    decreases entries.len(),
{
    if entries.len() > 0 {
        let rest = entries.drop_last();
        law_secrets_are_read(rest, table, path, section, name);
        assert(entries[entries.len() - 1] == entries.last());
        if exists|i: int| 0 <= i < rest.len() && is_secret(#[trigger] rest[i], name) {
            let i = choose|i: int| 0 <= i < rest.len() && is_secret(#[trigger] rest[i], name);
            assert(entries[i] == rest[i]);
        }
        if exists|i: int| 0 <= i < entries.len() && is_secret(#[trigger] entries[i], name) {
            let i = choose|i: int| 0 <= i < entries.len() && is_secret(#[trigger] entries[i], name);
            if i < rest.len() {
                assert(rest[i] == entries[i]);
            }
        }
    }
}

/// The last table under a name gives the secret its hosts and its place.
pub proof fn law_a_secret_has_its_own_hosts(
    entries: Seq<EntryView>,
    table: NodeView,
    path: Seq<char>,
    section: Seq<char>,
    name: Seq<char>,
    i: int,
)
    requires
        env_name(name),
        0 <= i < entries.len(),
        is_secret(entries[i], name),
        forall|j: int| i < j < entries.len() ==> !is_secret(#[trigger] entries[j], name),
    ensures
        secret_entries(entries, table, path, section).secrets[name] == secret_hosts(
            entries[i].node,
            field(path, name),
            section,
            table.key_span(name),
        ).0,
        secret_entries(entries, table, path, section).spans[name] == table.key_span(name),
    decreases entries.len(),
{
    let rest = entries.drop_last();
    lemma_field(path, name);
    if i < rest.len() {
        assert(rest[i] == entries[i]);
        assert forall|j: int| i < j < rest.len() implies !is_secret(#[trigger] rest[j], name) by {
            assert(rest[j] == entries[j]);
        }
        law_a_secret_has_its_own_hosts(rest, table, path, section, name, i);
        assert(!is_secret(entries[entries.len() - 1], name));
    }
}

/// An entry among the secrets that is misnamed or no table is an error at its key,
/// and the problems of every other entry are reported.
pub proof fn law_problems_of_secrets_are_reported(
    entries: Seq<EntryView>,
    table: NodeView,
    path: Seq<char>,
    section: Seq<char>,
)
    ensures
        secret_entries(entries, table, path, section).issues == entries.flat_map(
            |entry: EntryView|
                if !env_name(entry.key) {
                    seq![
                        wrong(
                            table.key_span(entry.key),
                            field(path, entry.key),
                            "`"@ + entry.key + "` is not a valid environment variable name"@,
                        ),
                    ]
                } else if !entry.node.is_table() {
                    seq![
                        wrong(
                            entry.node.span,
                            field(path, entry.key),
                            "expected a table, found "@ + entry.node.kind(),
                        ),
                    ]
                } else {
                    secret_hosts(
                        entry.node,
                        field(path, entry.key),
                        section,
                        table.key_span(entry.key),
                    ).1
                },
        ),
    decreases entries.len(),
{
    let f = |entry: EntryView|
        if !env_name(entry.key) {
            seq![
                wrong(
                    table.key_span(entry.key),
                    field(path, entry.key),
                    "`"@ + entry.key + "` is not a valid environment variable name"@,
                ),
            ]
        } else if !entry.node.is_table() {
            seq![
                wrong(
                    entry.node.span,
                    field(path, entry.key),
                    "expected a table, found "@ + entry.node.kind(),
                ),
            ]
        } else {
            secret_hosts(
                entry.node,
                field(path, entry.key),
                section,
                table.key_span(entry.key),
            ).1
        };
    lemma_flat_map_step(entries, f);
    if entries.len() > 0 {
        law_problems_of_secrets_are_reported(entries.drop_last(), table, path, section);
        lemma_field(path, entries.last().key);
        assert(secret_entries(entries, table, path, section).issues =~= entries.flat_map(f));
    }
}

/// A secret's hosts are the names in its `allow` list, which it must have; other keys
/// of the secret are errors.
pub proof fn law_a_secret_is_read(
    secret: NodeView,
    key: Seq<char>,
    section: Seq<char>,
    span: Option<Span>,
    issue: IssueView,
)
    ensures
        ({
            let read = secret_hosts(secret, key, section, span);
            let allow_key = field(key, "allow"@);
            let others = secret_key_issues(entries_of(secret), secret, key, section);
            match secret.get("allow"@) {
                None => read.0.len() == 0 && read.1 == others.push(
                    wrong(span, key, "`allow` is required and must list at least one host"@),
                ),
                Some(node) => {
                    let list = rule_list(Some(node), allow_key);
                    &&& read.0 == list.rules.filter(|rule: PatternView| rule.by_name())
                    &&& says(read.1, issue) <==> {
                        ||| says(others, issue)
                        ||| says(list.issues, issue)
                        ||| says(name_hosts(list.rules, list.spans, allow_key).1, issue)
                        ||| (node.elements matches Some(nodes) && nodes.len() == 0) && issue
                            == wrong(node.span, allow_key, "must list at least one host"@)
                    }
                },
            }
        }),
        secret_key_issues(entries_of(secret), secret, key, section) == entries_of(secret).filter(
            |entry: EntryView| entry.key != "allow"@,
        ).map_values(
            |entry: EntryView|
                wrong(
                    secret.key_span(entry.key),
                    field(key, entry.key),
                    if entry.key == "deny"@ {
                        "secrets have no `deny` list: a secret is only substituted for hosts in `allow`; to block a host entirely, add it to ["@
                            + section + ".network].deny"@
                    } else {
                        "unknown key `"@ + entry.key + "`; expected: allow"@
                    },
                ),
        ),
{
    lemma_other_keys(entries_of(secret), secret, key, section);
    lemma_field(key, "allow"@);
    if let Some(node) = secret.get("allow"@) {
        let allow_key = field(key, "allow"@);
        let list = rule_list(Some(node), allow_key);
        law_secrets_go_to_names(list.rules, list.spans, allow_key);
        let others = secret_key_issues(entries_of(secret), secret, key, section);
        let one = wrong(node.span, allow_key, "must list at least one host"@);
        let none = if node.elements is Some && (node.elements->0).len() == 0 {
            seq![one]
        } else {
            no_issues()
        };
        assert(seq![one][0] == one);
        lemma_says_either(others, none, issue);
        lemma_says_either(others + none, list.issues, issue);
        lemma_says_either(
            others + none + list.issues,
            name_hosts(list.rules, list.spans, allow_key).1,
            issue,
        );
    }
}

proof fn lemma_other_keys(
    entries: Seq<EntryView>,
    secret: NodeView,
    key: Seq<char>,
    section: Seq<char>,
)
    ensures
        secret_key_issues(entries, secret, key, section) == entries.filter(
            |entry: EntryView| entry.key != "allow"@,
        ).map_values(
            |entry: EntryView|
                wrong(
                    secret.key_span(entry.key),
                    field(key, entry.key),
                    if entry.key == "deny"@ {
                        "secrets have no `deny` list: a secret is only substituted for hosts in `allow`; to block a host entirely, add it to ["@
                            + section + ".network].deny"@
                    } else {
                        "unknown key `"@ + entry.key + "`; expected: allow"@
                    },
                ),
        ),
    decreases entries.len(),
{
    reveal(Seq::filter);
    let keep = |entry: EntryView| entry.key != "allow"@;
    let say = |entry: EntryView|
        wrong(
            secret.key_span(entry.key),
            field(key, entry.key),
            if entry.key == "deny"@ {
                "secrets have no `deny` list: a secret is only substituted for hosts in `allow`; to block a host entirely, add it to ["@
                    + section + ".network].deny"@
            } else {
                "unknown key `"@ + entry.key + "`; expected: allow"@
            },
        );
    if entries.len() > 0 {
        lemma_other_keys(entries.drop_last(), secret, key, section);
        lemma_field(key, entries.last().key);
    }
    assert(secret_key_issues(entries, secret, key, section) =~= entries.filter(keep).map_values(
        say,
    ));
}

/// The section is called by its place in messages.
pub proof fn law_sections_are_called_by_their_place()
    ensures
        SectionLocation::Underscore.path() == "_.microkitchen"@,
        SectionLocation::Legacy.path() == "microkitchen"@,
{
}

/// Without a section, and with one that is no table, everything has its default but the
/// user.
pub proof fn law_without_a_table_defaults_apply(
    root: NodeView,
    dir: Seq<char>,
    home: Option<Seq<char>>,
    location: SectionLocation,
    section: NodeView,
)
    ensures
        (holds_section(root, location, section) && !section.is_table()) || (!has_underscore(root)
            && root.get("microkitchen"@) is None) ==> ({
            let reading = kitchen_of(root, dir, home);
            &&& reading.config.cpus == 2 && reading.config.memory_mib == 4096
            &&& reading.config.disk_mib == 10240 && reading.config.mounts.len() == 0
            &&& reading.config.network.preset == NetworkPreset::Public
            &&& reading.config.network.allow.len() == 0 && reading.config.network.deny.len() == 0
            &&& reading.config.network.ports.len() == 0
            &&& reading.config.secrets.dom() == Set::<Seq<char>>::empty()
            &&& reading.config.dotfiles is None && reading.config.user == sandbox_user(root).0
            &&& reading.spans.mounts.len() == 0 && reading.spans.dotfiles is None
        }),
{
    law_sections_are_found(root, dir, home, location, section);
}

} // verus!
