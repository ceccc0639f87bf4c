//! `microkitchen validate`: check the configuration and resolve the
//! environment without touching any sandbox. Values are never printed.

use vstd::prelude::*;

use crate::broker::bindings::clone_names;
use crate::config::hostpat::{HostPattern, PatternView};
use crate::config::project::Project;
use crate::config::schema::{KitchenConfig, KitchenView, MountView, PortMapping, SecretConfig};
use crate::config::size::{format_mib, mib_text};
use crate::config::{count_errors, SectionLocation};
use crate::maps::{sorted_keys, TextMap};
use crate::mise::declarations::EnvDeclarations;
use crate::sandbox::naming::{name_of, sandbox_name};
use crate::text::{
    concat, concat3, decimal, decimal_string, join, join_with, pad, padded, push_decimal, views,
};

verus! {

/// What is reported of a project.
#[derive(Debug, PartialEq, Eq)]
pub struct Report {
    pub valid: bool,
    pub kitchen_file: String,
    pub kitchen_dir: String,
    pub section: Option<SectionLocation>,
    pub loaded_files: Vec<String>,
    pub sandbox_name: String,
    /// Forwarded as plain environment variables.
    pub env: Vec<String>,
    /// Forwarded as microsandbox secrets.
    pub secrets: Vec<String>,
    /// Declared secrets that resolve to nothing and are left out.
    pub skipped_secrets: Vec<String>,
}

/// The names of a map that are, or are not, secrets.
pub open spec fn names_by(
    pairs: Seq<(Seq<char>, Seq<char>)>,
    secrets: Map<Seq<char>, Seq<PatternView>>,
    secret: bool,
) -> Seq<Seq<char>>
    decreases pairs.len(),
{
    if pairs.len() == 0 {
        Seq::empty()
    } else if secrets.contains_key(pairs.last().0) == secret {
        names_by(pairs.drop_last(), secrets, secret).push(pairs.last().0)
    } else {
        names_by(pairs.drop_last(), secrets, secret)
    }
}

/// The secrets that are declared but resolve to nothing.
pub open spec fn skipped(
    pairs: Seq<(Seq<char>, Seq<PatternView>)>,
    declared: Set<Seq<char>>,
    values: Map<Seq<char>, Seq<char>>,
) -> Seq<Seq<char>>
    decreases pairs.len(),
{
    if pairs.len() == 0 {
        Seq::empty()
    } else if declared.contains(pairs.last().0) && !values.contains_key(pairs.last().0) {
        skipped(pairs.drop_last(), declared, values).push(pairs.last().0)
    } else {
        skipped(pairs.drop_last(), declared, values)
    }
}

fn part_names(values: &TextMap<String>, secrets: &TextMap<SecretConfig>) -> (r: (
    Vec<String>,
    Vec<String>,
))
    ensures
        views(r.0@) == names_by(values.pairs(), secrets@, false),
        views(r.1@) == names_by(values.pairs(), secrets@, true),
        sorted_keys(values.pairs()),
{
    let ghost pairs = values.pairs();
    let n: usize = values.len();
    let mut env: Vec<String> = Vec::new();
    let mut hidden: Vec<String> = Vec::new();
    let mut i: usize = 0;
    assert(pairs.subrange(0, 0) =~= Seq::empty());
    assert(views(env@) =~= Seq::empty());
    assert(views(hidden@) =~= Seq::empty());
    while i < n
        invariant
            i <= n,
            n == pairs.len(),
            pairs == values.pairs(),
            views(env@) == names_by(pairs.subrange(0, i as int), secrets@, false),
            views(hidden@) == names_by(pairs.subrange(0, i as int), secrets@, true),
        decreases n - i,
    {
        assert(pairs.subrange(0, i + 1).drop_last() =~= pairs.subrange(0, i as int));
        assert(pairs.subrange(0, i + 1).last() == pairs[i as int]);
        let (name, _) = values.at(i);
        let ghost plain = views(env@);
        let ghost secret = views(hidden@);
        if secrets.contains_key(name) {
            hidden.push(name.to_owned());
            assert(views(hidden@) =~= secret.push(name@));
        } else {
            env.push(name.to_owned());
            assert(views(env@) =~= plain.push(name@));
        }
        i += 1;
    }
    assert(pairs.subrange(0, n as int) =~= pairs);
    (env, hidden)
}

fn skipped_names(
    secrets: &TextMap<SecretConfig>,
    declarations: &EnvDeclarations,
    values: &TextMap<String>,
) -> (r: Vec<String>)
    ensures
        views(r@) == skipped(secrets.pairs(), declarations@.dom(), values@),
        sorted_keys(secrets.pairs()),
{
    let ghost pairs = secrets.pairs();
    let n: usize = secrets.len();
    let mut r: Vec<String> = Vec::new();
    let mut i: usize = 0;
    assert(pairs.subrange(0, 0) =~= Seq::empty());
    assert(views(r@) =~= Seq::empty());
    while i < n
        invariant
            i <= n,
            n == pairs.len(),
            pairs == secrets.pairs(),
            views(r@) == skipped(pairs.subrange(0, i as int), declarations@.dom(), values@),
        decreases n - i,
    {
        assert(pairs.subrange(0, i + 1).drop_last() =~= pairs.subrange(0, i as int));
        assert(pairs.subrange(0, i + 1).last() == pairs[i as int]);
        let (name, _) = secrets.at(i);
        let ghost before = views(r@);
        if declarations.contains(name) && !values.contains_key(name) {
            r.push(name.to_owned());
            assert(views(r@) =~= before.push(name@));
        }
        i += 1;
    }
    assert(pairs.subrange(0, n as int) =~= pairs);
    r
}

/// Whether a report tells of a project's variables as it should.
pub open spec fn reports_env(report: Report, project: Project) -> bool {
    match (project.env, project.kitchen) {
        (None, _) => report.env@.len() == 0 && report.secrets@.len() == 0
            && report.skipped_secrets@.len() == 0,
        (Some(resolved), None) => views(report.env@) == names_by(
            resolved.values.pairs(),
            Map::empty(),
            false,
        ) && report.secrets@.len() == 0 && report.skipped_secrets@.len() == 0,
        (Some(resolved), Some(kitchen)) => {
            let secrets = kitchen.config.secrets;
            &&& views(report.env@) == names_by(resolved.values.pairs(), secrets@, false)
            &&& views(report.secrets@) == names_by(resolved.values.pairs(), secrets@, true)
            &&& views(report.skipped_secrets@) == skipped(
                secrets.pairs(),
                project.declarations@.dom(),
                resolved.values@,
            )
        },
    }
}

impl Report {
    pub fn new(project: &Project) -> (r: Self)
        ensures
            r.valid == (count_errors(project.diagnostics@) == 0),
            r.kitchen_file@ == project.discovery.kitchen_file@,
            r.kitchen_dir@ == project.discovery.kitchen_dir@,
            r.section == (match project.kitchen {
                Some(kitchen) => kitchen.location,
                None => None,
            }),
            views(r.loaded_files@) == views(project.discovery.loaded_files@),
            r.sandbox_name@ == name_of(
                project.discovery.kitchen_file@,
                project.discovery.kitchen_dir@,
            ),
            reports_env(r, *project),
    {
        let discovery = &project.discovery;
        let mut env: Vec<String> = Vec::new();
        let mut secrets: Vec<String> = Vec::new();
        let mut skipped_secrets: Vec<String> = Vec::new();
        if let Some(resolved) = &project.env {
            match &project.kitchen {
                Some(kitchen) => {
                    let (plain, hidden) = part_names(&resolved.values, &kitchen.config.secrets);
                    env = plain;
                    secrets = hidden;
                    skipped_secrets =
                    skipped_names(
                        &kitchen.config.secrets,
                        &project.declarations,
                        &resolved.values,
                    );
                },
                None => {
                    let none: TextMap<SecretConfig> = TextMap::new();
                    let (plain, hidden) = part_names(&resolved.values, &none);
                    proof {
                        lemma_no_secrets(resolved.values.pairs());
                        assert(none@ =~= Map::empty());
                        assert(views(hidden@).len() == 0);
                    }
                    env = plain;
                    secrets = hidden;
                },
            }
        }
        let section = match &project.kitchen {
            Some(kitchen) => kitchen.location,
            None => None,
        };
        Report {
            valid: !project.diagnostics.has_errors(),
            kitchen_file: discovery.kitchen_file.clone(),
            kitchen_dir: discovery.kitchen_dir.clone(),
            section,
            loaded_files: clone_names(&discovery.loaded_files),
            sandbox_name: sandbox_name(
                discovery.kitchen_file.as_str(),
                discovery.kitchen_dir.as_str(),
            ),
            env,
            secrets,
            skipped_secrets,
        }
    }
}

proof fn lemma_no_secrets(pairs: Seq<(Seq<char>, Seq<char>)>)
    ensures
        names_by(pairs, Map::empty(), true).len() == 0,
    decreases pairs.len(),
{
    if pairs.len() > 0 {
        lemma_no_secrets(pairs.drop_last());
    }
}

// ---------------------------------------------------------------------------
// The report in words
// ---------------------------------------------------------------------------

/// How wide a label is.
pub const LABEL_WIDTH: usize = 10;

/// One row: a label and what stands behind it.
pub open spec fn row(label: Seq<char>, value: Seq<char>) -> Seq<char> {
    padded(label, LABEL_WIDTH as int) + " "@ + value
}

pub open spec fn pattern_texts(list: Seq<PatternView>) -> Seq<char> {
    join(Seq::new(list.len(), |i: int| list[i].text()), ", "@)
}

pub open spec fn port_texts(list: Seq<PortMapping>) -> Seq<char> {
    join(Seq::new(list.len(), |i: int| list[i].spec_text()), ", "@)
}

/// A part of the network's line, unless it is empty.
pub open spec fn labelled(label: Seq<char>, items: Seq<char>) -> Seq<char> {
    if items.len() == 0 {
        Seq::empty()
    } else {
        "; "@ + label + " "@ + items
    }
}

pub open spec fn resources_text(config: KitchenView) -> Seq<char> {
    decimal(config.cpus as nat) + " CPUs, "@ + mib_text(config.memory_mib as nat) + " memory, "@
        + mib_text(config.disk_mib as nat) + " disk"@
}

pub open spec fn network_text(config: KitchenView) -> Seq<char> {
    config.network.preset.spec_text() + labelled("allow"@, pattern_texts(config.network.allow))
        + labelled("deny"@, pattern_texts(config.network.deny)) + labelled(
        "ports"@,
        port_texts(config.network.ports),
    )
}

pub open spec fn mount_rows(mounts: Seq<MountView>) -> Seq<Seq<char>> {
    Seq::new(mounts.len(), |i: int| row("mount"@, mounts[i].text()))
}

/// The hosts of a secret.
pub open spec fn hosts_of(secrets: Map<Seq<char>, Seq<PatternView>>, name: Seq<char>) -> Seq<
    PatternView,
> {
    if secrets.contains_key(name) {
        secrets[name]
    } else {
        Seq::empty()
    }
}

pub open spec fn secret_rows(
    names: Seq<Seq<char>>,
    secrets: Map<Seq<char>, Seq<PatternView>>,
) -> Seq<Seq<char>> {
    Seq::new(
        names.len(),
        |i: int|
            row("secret"@, names[i] + " \u{2192} "@ + pattern_texts(hosts_of(secrets, names[i]))),
    )
}

/// A row of names, unless there are none.
pub open spec fn names_row(label: Seq<char>, names: Seq<Seq<char>>) -> Seq<Seq<char>> {
    if names.len() == 0 {
        Seq::empty()
    } else {
        seq![row(label, join(names, ", "@))]
    }
}

pub open spec fn section_text(section: Option<SectionLocation>) -> Seq<char> {
    match section {
        Some(section) => "["@ + section.path() + "]"@,
        None => "(no [_.microkitchen] table; defaults apply)"@,
    }
}

/// The rows of a report.
pub open spec fn report_rows(report: Report, config: Option<KitchenView>) -> Seq<Seq<char>> {
    let start = seq![
        row("kitchen"@, report.kitchen_file@ + "  "@ + section_text(report.section)),
        row("sandbox"@, report.sandbox_name@),
    ];
    let middle = match config {
        Some(config) => seq![
            row("resources"@, resources_text(config)),
            row("network"@, network_text(config)),
        ] + mount_rows(config.mounts) + secret_rows(views(report.secrets@), config.secrets),
        None => Seq::empty(),
    };
    start + middle + names_row("env"@, views(report.env@)) + names_row(
        "skipped"@,
        views(report.skipped_secrets@),
    )
}

fn make_row(label: &str, value: &str) -> (r: String)
    ensures
        r@ == row(label@, value@),
{
    concat3(pad(label, LABEL_WIDTH).as_str(), " ", value)
}

fn join_patterns(list: &Vec<HostPattern>) -> (r: String)
    ensures
        r@ == pattern_texts(views(list@)),
{
    let mut texts: Vec<String> = Vec::new();
    let mut i: usize = 0;
    while i < list.len()
        invariant
            i <= list@.len(),
            texts@.len() == i,
            forall|k: int| 0 <= k < i ==> (#[trigger] texts@[k])@ == views(list@)[k].text(),
        decreases list@.len() - i,
    {
        texts.push(list[i].to_text());
        i += 1;
    }
    assert(views(texts@) =~= Seq::new(views(list@).len(), |i: int| views(list@)[i].text()));
    join_with(&texts, ", ")
}

fn join_ports(list: &Vec<PortMapping>) -> (r: String)
    ensures
        r@ == port_texts(list@),
{
    let mut texts: Vec<String> = Vec::new();
    let mut i: usize = 0;
    while i < list.len()
        invariant
            i <= list@.len(),
            texts@.len() == i,
            forall|k: int| 0 <= k < i ==> (#[trigger] texts@[k])@ == list@[k].spec_text(),
        decreases list@.len() - i,
    {
        texts.push(list[i].to_text());
        i += 1;
    }
    assert(views(texts@) =~= Seq::new(list@.len(), |i: int| list@[i].spec_text()));
    join_with(&texts, ", ")
}

fn push_labelled(line: &mut String, label: &str, items: &str)
    ensures
        final(line)@ == old(line)@ + labelled(label@, items@),
{
    if !items.is_empty() {
        line.push_str("; ");
        line.push_str(label);
        line.push_str(" ");
        line.push_str(items);
        assert(line@ =~= old(line)@ + labelled(label@, items@));
    } else {
        assert(line@ =~= old(line)@ + labelled(label@, items@));
    }
}

fn config_rows(out: &mut Vec<String>, config: &KitchenConfig, secrets: &Vec<String>)
    ensures
        views(final(out)@) == views(old(out)@) + (seq![
            row("resources"@, resources_text(config@)),
            row("network"@, network_text(config@)),
        ] + mount_rows(config@.mounts) + secret_rows(views(secrets@), config@.secrets)),
{
    let ghost start = views(out@);
    let mut resources = String::new();
    push_decimal(&mut resources, config.cpus as u64);
    resources.push_str(" CPUs, ");
    resources.push_str(format_mib(config.memory_mib).as_str());
    resources.push_str(" memory, ");
    resources.push_str(format_mib(config.disk_mib).as_str());
    resources.push_str(" disk");
    assert(resources@ =~= resources_text(config@));
    out.push(make_row("resources", resources.as_str()));
    let mut line = config.network.preset.to_text().to_owned();
    push_labelled(&mut line, "allow", join_patterns(&config.network.allow).as_str());
    push_labelled(&mut line, "deny", join_patterns(&config.network.deny).as_str());
    push_labelled(&mut line, "ports", join_ports(&config.network.ports).as_str());
    out.push(make_row("network", line.as_str()));
    let ghost head = start + seq![
        row("resources"@, resources_text(config@)),
        row("network"@, network_text(config@)),
    ];
    assert(views(out@) =~= head);
    let ghost mounts = mount_rows(config@.mounts);
    let mut i: usize = 0;
    assert(head + mounts.subrange(0, 0) =~= head);
    while i < config.mounts.len()
        invariant
            i <= config.mounts@.len(),
            mounts == mount_rows(config@.mounts),
            views(out@) == head + mounts.subrange(0, i as int),
        decreases config.mounts@.len() - i,
    {
        let ghost before = views(out@);
        let line = make_row("mount", config.mounts[i].to_text().as_str());
        assert(line@ == mounts[i as int]);
        out.push(line);
        assert(views(out@) =~= before.push(mounts[i as int]));
        assert(views(out@) =~= head + mounts.subrange(0, i + 1));
        i += 1;
    }
    assert(mounts.subrange(0, mounts.len() as int) =~= mounts);
    let ghost middle = head + mounts;
    let ghost rows = secret_rows(views(secrets@), config@.secrets);
    let mut j: usize = 0;
    assert(middle + rows.subrange(0, 0) =~= middle);
    while j < secrets.len()
        invariant
            j <= secrets@.len(),
            rows == secret_rows(views(secrets@), config@.secrets),
            views(out@) == middle + rows.subrange(0, j as int),
        decreases secrets@.len() - j,
    {
        let ghost before = views(out@);
        let name = secrets[j].as_str();
        let none: Vec<HostPattern> = Vec::new();
        assert(views(none@) =~= Seq::empty());
        let hosts = match config.secrets.get(name) {
            Some(secret) => join_patterns(&secret.allow),
            None => join_patterns(&none),
        };
        let line = make_row("secret", concat3(name, " \u{2192} ", hosts.as_str()).as_str());
        assert(line@ == rows[j as int]);
        out.push(line);
        assert(views(out@) =~= before.push(rows[j as int]));
        assert(views(out@) =~= middle + rows.subrange(0, j + 1));
        j += 1;
    }
    assert(rows.subrange(0, rows.len() as int) =~= rows);
    assert(views(out@) =~= start + (seq![
        row("resources"@, resources_text(config@)),
        row("network"@, network_text(config@)),
    ] + mount_rows(config@.mounts) + secret_rows(views(secrets@), config@.secrets)));
}

fn push_names(out: &mut Vec<String>, label: &str, names: &Vec<String>)
    ensures
        views(final(out)@) == views(old(out)@) + names_row(label@, views(names@)),
{
    let ghost before = views(out@);
    if names.len() > 0 {
        out.push(make_row(label, join_with(names, ", ").as_str()));
    }
    assert(views(out@) =~= before + names_row(label@, views(names@)));
}

impl Report {
    /// The report in rows; `config` is the project's configuration, where it
    /// could be read.
    pub fn rows(&self, config: Option<&KitchenConfig>) -> (r: Vec<String>)
        ensures
            views(r@) == report_rows(
                *self,
                match config {
                    Some(config) => Some(config@),
                    None => None,
                },
            ),
    {
        let mut r: Vec<String> = Vec::new();
        let section = match self.section {
            Some(section) => concat3("[", section.table_path(), "]"),
            None => "(no [_.microkitchen] table; defaults apply)".to_owned(),
        };
        let kitchen = concat3(self.kitchen_file.as_str(), "  ", section.as_str());
        r.push(make_row("kitchen", kitchen.as_str()));
        r.push(make_row("sandbox", self.sandbox_name.as_str()));
        let ghost start = seq![
            row("kitchen"@, self.kitchen_file@ + "  "@ + section_text(self.section)),
            row("sandbox"@, self.sandbox_name@),
        ];
        assert(views(r@) =~= start);
        let ghost mut middle: Seq<Seq<char>> = Seq::empty();
        if let Some(config) = config {
            config_rows(&mut r, config, &self.secrets);
            proof {
                middle =
                seq![
                    row("resources"@, resources_text(config@)),
                    row("network"@, network_text(config@)),
                ] + mount_rows(config@.mounts) + secret_rows(views(self.secrets@), config@.secrets);
            }
        }
        assert(views(r@) =~= start + middle);
        push_names(&mut r, "env", &self.env);
        push_names(&mut r, "skipped", &self.skipped_secrets);
        r
    }
}

/// What is said of the number of errors.
pub fn verdict(errors: usize) -> (r: String)
    ensures
        r@ == (if errors == 0 {
            "configuration is valid"@
        } else if errors == 1 {
            "1 error"@
        } else {
            decimal(errors as nat) + " errors"@
        }),
{
    if errors == 0 {
        "configuration is valid".to_owned()
    } else if errors == 1 {
        "1 error".to_owned()
    } else {
        concat(decimal_string(errors as u64).as_str(), " errors")
    }
}

// ---------------------------------------------------------------------------
// Laws
// ---------------------------------------------------------------------------

/// A report names every resolved variable once, as a plain one or as a secret.
pub proof fn law_reports_name_every_variable(
    pairs: Seq<(Seq<char>, Seq<char>)>,
    secrets: Map<Seq<char>, Seq<PatternView>>,
)
    ensures
        names_by(pairs, secrets, true).len() + names_by(pairs, secrets, false).len() == pairs.len(),
        forall|i: int|
            0 <= i < names_by(pairs, secrets, true).len() ==> secrets.contains_key(
                #[trigger] names_by(pairs, secrets, true)[i],
            ),
        forall|i: int|
            0 <= i < names_by(pairs, secrets, false).len() ==> !secrets.contains_key(
                #[trigger] names_by(pairs, secrets, false)[i],
            ),
    decreases pairs.len(),
{
    if pairs.len() > 0 {
        law_reports_name_every_variable(pairs.drop_last(), secrets);
    }
}

/// A report names the variables that go in as they are and those that are secrets, each
/// in order, and the secrets that are declared and have no value.
pub proof fn law_reports_name_variables_in_order(
    pairs: Seq<(Seq<char>, Seq<char>)>,
    listed: Seq<(Seq<char>, Seq<PatternView>)>,
    secrets: Map<Seq<char>, Seq<PatternView>>,
    declared: Set<Seq<char>>,
    values: Map<Seq<char>, Seq<char>>,
)
    ensures
        names_by(pairs, secrets, true) == pairs.filter(
            |pair: (Seq<char>, Seq<char>)| secrets.contains_key(pair.0),
        ).map_values(|pair: (Seq<char>, Seq<char>)| pair.0),
        names_by(pairs, secrets, false) == pairs.filter(
            |pair: (Seq<char>, Seq<char>)| !secrets.contains_key(pair.0),
        ).map_values(|pair: (Seq<char>, Seq<char>)| pair.0),
        skipped(listed, declared, values) == listed.filter(
            |pair: (Seq<char>, Seq<PatternView>)|
                declared.contains(pair.0) && !values.contains_key(pair.0),
        ).map_values(|pair: (Seq<char>, Seq<PatternView>)| pair.0),
{
    lemma_names_in_order(pairs, secrets);
    lemma_skipped_in_order(listed, declared, values);
}

proof fn lemma_names_in_order(
    pairs: Seq<(Seq<char>, Seq<char>)>,
    secrets: Map<Seq<char>, Seq<PatternView>>,
)
    ensures
        names_by(pairs, secrets, true) == pairs.filter(
            |pair: (Seq<char>, Seq<char>)| secrets.contains_key(pair.0),
        ).map_values(|pair: (Seq<char>, Seq<char>)| pair.0),
        names_by(pairs, secrets, false) == pairs.filter(
            |pair: (Seq<char>, Seq<char>)| !secrets.contains_key(pair.0),
        ).map_values(|pair: (Seq<char>, Seq<char>)| pair.0),
    decreases pairs.len(),
{
    reveal(Seq::filter);
    let name = |pair: (Seq<char>, Seq<char>)| pair.0;
    let is = |pair: (Seq<char>, Seq<char>)| secrets.contains_key(pair.0);
    let is_not = |pair: (Seq<char>, Seq<char>)| !secrets.contains_key(pair.0);
    if pairs.len() > 0 {
        lemma_names_in_order(pairs.drop_last(), secrets);
    }
    assert(names_by(pairs, secrets, true) =~= pairs.filter(is).map_values(name));
    assert(names_by(pairs, secrets, false) =~= pairs.filter(is_not).map_values(name));
}

proof fn lemma_skipped_in_order(
    pairs: Seq<(Seq<char>, Seq<PatternView>)>,
    declared: Set<Seq<char>>,
    values: Map<Seq<char>, Seq<char>>,
)
    ensures
        skipped(pairs, declared, values) == pairs.filter(
            |pair: (Seq<char>, Seq<PatternView>)|
                declared.contains(pair.0) && !values.contains_key(pair.0),
        ).map_values(|pair: (Seq<char>, Seq<PatternView>)| pair.0),
    decreases pairs.len(),
{
    reveal(Seq::filter);
    let name = |pair: (Seq<char>, Seq<PatternView>)| pair.0;
    let keep = |pair: (Seq<char>, Seq<PatternView>)|
        declared.contains(pair.0) && !values.contains_key(pair.0);
    if pairs.len() > 0 {
        lemma_skipped_in_order(pairs.drop_last(), declared, values);
    }
    assert(skipped(pairs, declared, values) =~= pairs.filter(keep).map_values(name));
}

/// What a report shows of a configuration: its sizes, its network with what it allows,
/// denies and publishes, each mount and each secret with its hosts.
pub proof fn law_reports_show_the_configuration(
    config: KitchenView,
    names: Seq<Seq<char>>,
    i: int,
)
    ensures
        resources_text(config) == decimal(config.cpus as nat) + " CPUs, "@ + mib_text(
            config.memory_mib as nat,
        ) + " memory, "@ + mib_text(config.disk_mib as nat) + " disk"@,
        config.network.allow.len() == 0 && config.network.deny.len() == 0
            && config.network.ports.len() == 0 ==> network_text(config)
            == config.network.preset.spec_text(),
        mount_rows(config.mounts).len() == config.mounts.len(),
        0 <= i < config.mounts.len() ==> mount_rows(config.mounts)[i] == padded("mount"@, 10) + seq![
            ' ',
        ] + config.mounts[i].text(),
        secret_rows(names, config.secrets).len() == names.len(),
        0 <= i < names.len() && config.secrets.contains_key(names[i]) ==> secret_rows(
            names,
            config.secrets,
        )[i] == padded("secret"@, 10) + seq![' '] + (names[i] + " \u{2192} "@ + join(
            config.secrets[names[i]].map_values(|rule: PatternView| rule.text()),
            ", "@,
        )),
        names.len() == 0 ==> names_row("env"@, names).len() == 0,
        names.len() > 0 ==> names_row("env"@, names) == seq![
            padded("env"@, 10) + seq![' '] + join(names, ", "@),
        ],
{
    reveal_strlit(" ");
    assert(" "@ =~= seq![' ']);
    if config.network.allow.len() == 0 && config.network.deny.len() == 0
        && config.network.ports.len() == 0 {
        let preset = config.network.preset.spec_text();
        assert(network_text(config) =~= preset);
    }
    if 0 <= i < names.len() && config.secrets.contains_key(names[i]) {
        let hosts = config.secrets[names[i]];
        assert(Seq::new(hosts.len(), |k: int| hosts[k].text()) =~= hosts.map_values(
            |rule: PatternView| rule.text(),
        ));
    }
}

} // verus!
