//! Checks that need more than the kitchen file: the `[env]` declarations of
//! every loaded mise file, the host environment, and the host filesystem.

use vstd::prelude::*;

use crate::config::schema::{MountView, ParsedKitchen};
use crate::config::staging::{SourceView, StagePlan, StagedSource};
use crate::config::walker::{error, indexed, located, no_issues, report, Issue, IssueView};
use crate::config::{Diagnostics, SectionLocation, Severity, Source};
use crate::mise::declarations::EnvDeclarations;
use crate::mise::env::ResolvedEnv;
use crate::text::{concat, concat3, concat4, push_decimal, views};
use crate::tree::Span;

verus! {

// ---------------------------------------------------------------------------
// Secrets
// ---------------------------------------------------------------------------

pub open spec fn undeclared_message(name: Seq<char>) -> Seq<char> {
    "`"@ + name + "` is not declared in [env] of any loaded mise config file; add e.g. `"@ + name
        + " = { required = true }` to [env]"@
}

pub open spec fn skipped_message(name: Seq<char>) -> Seq<char> {
    "`"@ + name + "` is empty or unset on the host, so this secret is skipped"@
}

/// What is wrong with the secrets with these names and places: a secret must be
/// declared, and one without a value is skipped. `values` is `None` when mise
/// failed.
pub open spec fn secret_issues(
    secrets: Seq<(Seq<char>, Option<Span>)>,
    path: Seq<char>,
    declared: Set<Seq<char>>,
    values: Option<Map<Seq<char>, Seq<char>>>,
) -> Seq<IssueView>
    decreases secrets.len(),
{
    if secrets.len() == 0 {
        no_issues()
    } else {
        let rest = secret_issues(secrets.drop_last(), path, declared, values);
        let (name, span) = secrets.last();
        let key = path + ".secrets."@ + name;
        if !declared.contains(name) {
            rest.push(error(span, key, undeclared_message(name)))
        } else if values matches Some(values) && !values.contains_key(name) {
            rest.push(
                IssueView {
                    severity: Severity::Notice,
                    span,
                    key,
                    message: skipped_message(name),
                },
            )
        } else {
            rest
        }
    }
}

// ---------------------------------------------------------------------------
// Mounts
// ---------------------------------------------------------------------------

pub open spec fn missing_message(host: Seq<char>) -> Seq<char> {
    "host path `"@ + host + "` does not exist"@
}

/// What is wrong with the first `n` mounts: a host path must exist.
pub open spec fn mount_issues(
    mounts: Seq<MountView>,
    spans: Seq<Option<Span>>,
    exist: Seq<bool>,
    path: Seq<char>,
    n: int,
) -> Seq<IssueView>
    decreases n,
{
    if n <= 0 {
        no_issues()
    } else {
        let rest = mount_issues(mounts, spans, exist, path, n - 1);
        if exist[n - 1] {
            rest
        } else {
            rest.push(
                error(
                    spans[n - 1],
                    indexed(path + ".mounts"@, (n - 1) as nat),
                    missing_message(mounts[n - 1].host),
                ),
            )
        }
    }
}

/// Where the microkitchen table of a kitchen file stands, or would stand.
pub open spec fn section_path(kitchen: ParsedKitchen) -> Seq<char> {
    match kitchen.location {
        Some(location) => location.path(),
        None => SectionLocation::Underscore.path(),
    }
}

/// Everything that the environment has against a kitchen file.
pub open spec fn environment_issues(
    kitchen: ParsedKitchen,
    declarations: EnvDeclarations,
    env: Option<&ResolvedEnv>,
    exist: Seq<bool>,
) -> Seq<IssueView> {
    let path = section_path(kitchen);
    let values = match env {
        Some(env) => Some(env.values@),
        None => None,
    };
    secret_issues(kitchen.spans.secrets.pairs(), path, declarations@.dom(), values) + mount_issues(
        views(kitchen.config.mounts@),
        kitchen.spans.mounts@,
        exist,
        path,
        placed_mounts(kitchen),
    )
}

/// How many mounts have a place.
pub open spec fn placed_mounts(kitchen: ParsedKitchen) -> int {
    if kitchen.spans.mounts@.len() < kitchen.config.mounts@.len() {
        kitchen.spans.mounts@.len() as int
    } else {
        kitchen.config.mounts@.len() as int
    }
}

fn check_secrets(
    kitchen: &ParsedKitchen,
    path: &str,
    declarations: &EnvDeclarations,
    env: Option<&ResolvedEnv>,
) -> (r: Vec<Issue>)
    ensures
        views(r@) == secret_issues(
            kitchen.spans.secrets.pairs(),
            path@,
            declarations@.dom(),
            match env {
                Some(env) => Some(env.values@),
                None => None,
            },
        ),
{
    let ghost values = match env {
        Some(env) => Some(env.values@),
        None => None,
    };
    let ghost pairs = kitchen.spans.secrets.pairs();
    let mut issues: Vec<Issue> = Vec::new();
    assert(views(issues@) =~= no_issues());
    let n: usize = kitchen.spans.secrets.len();
    let mut i: usize = 0;
    assert(pairs.subrange(0, 0) =~= Seq::empty());
    while i < n
        invariant
            i <= n,
            n == pairs.len(),
            pairs == kitchen.spans.secrets.pairs(),
            values == (match env {
                Some(env) => Some(env.values@),
                None => None,
            }),
            views(issues@) == secret_issues(
                pairs.subrange(0, i as int),
                path@,
                declarations@.dom(),
                values,
            ),
        decreases n - i,
    {
        assert(pairs.subrange(0, i + 1).drop_last() =~= pairs.subrange(0, i as int));
        let (name, place) = kitchen.spans.secrets.at(i);
        assert(pairs.subrange(0, i + 1).last() == (name@, place.span));
        let key = concat3(path, ".secrets.", name);
        let ghost done = views(issues@);
        if !declarations.contains(name) {
            let mut message = concat4(
                "`",
                name,
                "` is not declared in [env] of any loaded mise config file; add e.g. `",
                name,
            );
            message.push_str(" = { required = true }` to [env]");
            issues.push(Issue { severity: Severity::Error, span: place.span, key, message });
            assert(views(issues@) =~= done.push(
                error(place.span, path@ + ".secrets."@ + name@, undeclared_message(name@)),
            ));
        } else {
            let skipped = match env {
                Some(env) => env.value(name).is_none(),
                None => false,
            };
            if skipped {
                let message = concat3(
                    "`",
                    name,
                    "` is empty or unset on the host, so this secret is skipped",
                );
                issues.push(Issue { severity: Severity::Notice, span: place.span, key, message });
                assert(views(issues@) =~= done.push(
                    IssueView {
                        severity: Severity::Notice,
                        span: place.span,
                        key: path@ + ".secrets."@ + name@,
                        message: skipped_message(name@),
                    },
                ));
            }
        }
        i += 1;
    }
    assert(pairs.subrange(0, n as int) =~= pairs);
    issues
}

/// Validate `kitchen` against the environment; `env` is `None` when mise failed.
/// `exist` says of each mount whether its host path exists.
pub fn check(
    kitchen: &ParsedKitchen,
    source: &Source,
    declarations: &EnvDeclarations,
    env: Option<&ResolvedEnv>,
    exist: &Vec<bool>,
    diagnostics: &mut Diagnostics,
)
    requires
        exist.len() == kitchen.config.mounts.len(),
    ensures
        final(diagnostics)@ == old(diagnostics)@ + located(
            *source,
            environment_issues(*kitchen, *declarations, env, exist@),
        ),
{
    let path = match kitchen.location {
        Some(location) => location.table_path(),
        None => SectionLocation::Underscore.table_path(),
    };
    let mut issues = check_secrets(kitchen, path, declarations, env);
    let ghost secrets = views(issues@);
    let list = concat(path, ".mounts");
    let mut i: usize = 0;
    assert(secrets + no_issues() =~= secrets);
    while i < kitchen.config.mounts.len() && i < kitchen.spans.mounts.len()
        invariant
            i <= placed_mounts(*kitchen),
            exist@.len() == kitchen.config.mounts@.len(),
            list@ == path@ + ".mounts"@,
            views(issues@) == secrets + mount_issues(
                views(kitchen.config.mounts@),
                kitchen.spans.mounts@,
                exist@,
                path@,
                i as int,
            ),
        decreases kitchen.config.mounts@.len() - i,
    {
        let ghost done = views(issues@);
        if !exist[i] {
            let mut key = concat(list.as_str(), "[");
            push_decimal(&mut key, i as u64);
            key.push_str("]");
            let message = concat3(
                "host path `",
                kitchen.config.mounts[i].host.as_str(),
                "` does not exist",
            );
            let ghost issue = error(
                kitchen.spans.mounts@[i as int],
                indexed(path@ + ".mounts"@, i as nat),
                missing_message(kitchen.config.mounts@[i as int]@.host),
            );
            issues.push(
                Issue { severity: Severity::Error, span: kitchen.spans.mounts[i], key, message },
            );
            assert(views(issues@) =~= done.push(issue));
        }
        i += 1;
        assert(views(issues@) =~= secrets + mount_issues(
            views(kitchen.config.mounts@),
            kitchen.spans.mounts@,
            exist@,
            path@,
            i as int,
        ));
    }
    report(source, &issues, diagnostics);
}

// ---------------------------------------------------------------------------
// Staged sources
// ---------------------------------------------------------------------------

/// What the host filesystem says of a path.
#[derive(Debug, PartialEq, Eq)]
pub struct Probe {
    /// Whether it leads to a file or a directory.
    pub exists: bool,
    /// Whether something stands at the path itself, if only a link.
    pub is_there: bool,
    /// Why its bytes, or its entries, cannot be read.
    pub unreadable: Option<String>,
}

/// A [`Probe`] by its contents.
#[verifier::ext_equal]
pub struct ProbeView {
    pub exists: bool,
    pub is_there: bool,
    pub unreadable: Option<Seq<char>>,
}

impl View for Probe {
    type V = ProbeView;

    open spec fn view(&self) -> ProbeView {
        ProbeView {
            exists: self.exists,
            is_there: self.is_there,
            unreadable: crate::text::opt_view(self.unreadable),
        }
    }
}

/// Why a source cannot be staged.
pub open spec fn staging_problem(host: Seq<char>, probe: ProbeView) -> Option<Seq<char>> {
    if probe.exists {
        match probe.unreadable {
            None => None,
            Some(problem) => Some("`"@ + host + "` cannot be read: "@ + problem),
        }
    } else if probe.is_there {
        Some("`"@ + host + "` is a symbolic link with no target"@)
    } else {
        Some(missing_message(host))
    }
}

/// What is wrong with the first `n` sources.
pub open spec fn staging_issues(
    sources: Seq<SourceView>,
    probes: Seq<ProbeView>,
    n: int,
) -> Seq<IssueView>
    decreases n,
{
    if n <= 0 {
        no_issues()
    } else {
        let rest = staging_issues(sources, probes, n - 1);
        match staging_problem(sources[n - 1].host, probes[n - 1]) {
            None => rest,
            Some(message) => rest.push(error(sources[n - 1].span, sources[n - 1].key, message)),
        }
    }
}

fn problem_of(source: &StagedSource, probe: &Probe) -> (r: Option<String>)
    ensures
        crate::text::opt_view(r) == staging_problem(source@.host, probe@),
{
    let host = source.host.as_str();
    if probe.exists {
        match &probe.unreadable {
            None => None,
            Some(problem) => Some(concat4("`", host, "` cannot be read: ", problem.as_str())),
        }
    } else if probe.is_there {
        Some(concat3("`", host, "` is a symbolic link with no target"))
    } else {
        Some(concat3("host path `", host, "` does not exist"))
    }
}

/// Check that every host file a mise entry names can actually be staged;
/// `probes` holds what the filesystem says of each source.
///
/// Only what staging forces: a source we cannot produce a copy of is an error.
/// What an entry then *does* in the guest is mise's business, so nothing here
/// judges `mode = "track"`, `owner` or templating.
pub fn check_staging(
    staging: &StagePlan,
    source: &Source,
    probes: &Vec<Probe>,
    diagnostics: &mut Diagnostics,
)
    requires
        probes.len() == staging.sources.len(),
    ensures
        final(diagnostics)@ == old(diagnostics)@ + located(
            *source,
            staging_issues(
                views(staging.sources@),
                views(probes@),
                staging.sources@.len() as int,
            ),
        ),
{
    let ghost sv = views(staging.sources@);
    let ghost pv = views(probes@);
    let mut issues: Vec<Issue> = Vec::new();
    assert(views(issues@) =~= no_issues());
    let mut i: usize = 0;
    while i < staging.sources.len()
        invariant
            i <= staging.sources@.len(),
            probes@.len() == staging.sources@.len(),
            sv == views(staging.sources@),
            pv == views(probes@),
            views(issues@) == staging_issues(sv, pv, i as int),
        decreases staging.sources@.len() - i,
    {
        let ghost done = views(issues@);
        let staged = &staging.sources[i];
        assert(sv[i as int] == staged@);
        assert(pv[i as int] == probes@[i as int]@);
        if let Some(message) = problem_of(staged, &probes[i]) {
            let ghost issue = error(staged.span, staged@.key, message@);
            issues.push(
                Issue {
                    severity: Severity::Error,
                    span: staged.span,
                    key: staged.key.clone(),
                    message,
                },
            );
            assert(views(issues@) =~= done.push(issue));
        }
        i += 1;
    }
    report(source, &issues, diagnostics);
}

// ---------------------------------------------------------------------------
// Laws
// ---------------------------------------------------------------------------

/// A secret that no file declares is an error, one that is declared and has no value is
/// noted, and one that has a value is in order.
pub proof fn law_secrets_must_be_declared(
    secrets: Seq<(Seq<char>, Option<Span>)>,
    path: Seq<char>,
    declared: Set<Seq<char>>,
    values: Option<Map<Seq<char>, Seq<char>>>,
)
    ensures
        secret_issues(secrets, path, declared, values) == secrets.flat_map(
            |secret: (Seq<char>, Option<Span>)|
                if !declared.contains(secret.0) {
                    seq![
                        IssueView {
                            severity: Severity::Error,
                            span: secret.1,
                            key: path + ".secrets."@ + secret.0,
                            message: "`"@ + secret.0
                                + "` is not declared in [env] of any loaded mise config file; add e.g. `"@
                                + secret.0 + " = { required = true }` to [env]"@,
                        },
                    ]
                } else if values is Some && !values->0.contains_key(secret.0) {
                    seq![
                        IssueView {
                            severity: Severity::Notice,
                            span: secret.1,
                            key: path + ".secrets."@ + secret.0,
                            message: "`"@ + secret.0
                                + "` is empty or unset on the host, so this secret is skipped"@,
                        },
                    ]
                } else {
                    Seq::empty()
                },
        ),
    decreases secrets.len(),
{
    let f = |secret: (Seq<char>, Option<Span>)|
        if !declared.contains(secret.0) {
            seq![
                IssueView {
                    severity: Severity::Error,
                    span: secret.1,
                    key: path + ".secrets."@ + secret.0,
                    message: "`"@ + secret.0
                        + "` is not declared in [env] of any loaded mise config file; add e.g. `"@
                        + secret.0 + " = { required = true }` to [env]"@,
                },
            ]
        } else if values is Some && !values->0.contains_key(secret.0) {
            seq![
                IssueView {
                    severity: Severity::Notice,
                    span: secret.1,
                    key: path + ".secrets."@ + secret.0,
                    message: "`"@ + secret.0
                        + "` is empty or unset on the host, so this secret is skipped"@,
                },
            ]
        } else {
            Seq::<IssueView>::empty()
        };
    crate::maps::lemma_flat_map_step(secrets, f);
    if secrets.len() > 0 {
        law_secrets_must_be_declared(secrets.drop_last(), path, declared, values);
        assert(secret_issues(secrets, path, declared, values) =~= secrets.flat_map(f));
    }
}

/// A mount whose host path does not exist is an error at its place, and no other is.
pub proof fn law_mounts_must_exist(
    mounts: Seq<MountView>,
    spans: Seq<Option<Span>>,
    exist: Seq<bool>,
    path: Seq<char>,
    n: nat,
)
    ensures
        mount_issues(mounts, spans, exist, path, n as int) == crate::maps::below(n).flat_map(
            |i: int|
                if exist[i] {
                    Seq::empty()
                } else {
                    seq![
                        IssueView {
                            severity: Severity::Error,
                            span: spans[i],
                            key: indexed(path + ".mounts"@, i as nat),
                            message: "host path `"@ + mounts[i].host + "` does not exist"@,
                        },
                    ]
                },
        ),
    decreases n,
{
    let f = |i: int|
        if exist[i] {
            Seq::<IssueView>::empty()
        } else {
            seq![
                IssueView {
                    severity: Severity::Error,
                    span: spans[i],
                    key: indexed(path + ".mounts"@, i as nat),
                    message: "host path `"@ + mounts[i].host + "` does not exist"@,
                },
            ]
        };
    crate::maps::lemma_below_step(n, f);
    if n > 0 {
        law_mounts_must_exist(mounts, spans, exist, path, (n - 1) as nat);
        assert(mount_issues(mounts, spans, exist, path, n as int) =~= crate::maps::below(
            n,
        ).flat_map(f));
    }
}

/// A source that cannot be read, leads nowhere or is missing is an error at its key, and
/// no other is.
pub proof fn law_sources_must_be_readable(
    sources: Seq<SourceView>,
    probes: Seq<ProbeView>,
    n: nat,
)
    ensures
        staging_issues(sources, probes, n as int) == crate::maps::below(n).flat_map(
            |i: int|
                if probes[i].exists && probes[i].unreadable is None {
                    Seq::empty()
                } else {
                    seq![
                        IssueView {
                            severity: Severity::Error,
                            span: sources[i].span,
                            key: sources[i].key,
                            message: if probes[i].exists {
                                "`"@ + sources[i].host + "` cannot be read: "@
                                    + probes[i].unreadable->0
                            } else if probes[i].is_there {
                                "`"@ + sources[i].host + "` is a symbolic link with no target"@
                            } else {
                                "host path `"@ + sources[i].host + "` does not exist"@
                            },
                        },
                    ]
                },
        ),
    decreases n,
{
    let f = |i: int|
        if probes[i].exists && probes[i].unreadable is None {
            Seq::<IssueView>::empty()
        } else {
            seq![
                IssueView {
                    severity: Severity::Error,
                    span: sources[i].span,
                    key: sources[i].key,
                    message: if probes[i].exists {
                        "`"@ + sources[i].host + "` cannot be read: "@ + probes[i].unreadable->0
                    } else if probes[i].is_there {
                        "`"@ + sources[i].host + "` is a symbolic link with no target"@
                    } else {
                        "host path `"@ + sources[i].host + "` does not exist"@
                    },
                },
            ]
        };
    crate::maps::lemma_below_step(n, f);
    if n > 0 {
        law_sources_must_be_readable(sources, probes, (n - 1) as nat);
        assert(staging_issues(sources, probes, n as int) =~= crate::maps::below(n).flat_map(f));
    }
}

} // verus!
