//! A project as a whole: what was discovered, parsed, resolved and validated.

use vstd::prelude::*;

use crate::config::discover::Discovery;
use crate::config::schema::ParsedKitchen;
use crate::config::validate::{check, environment_issues};
use crate::config::walker::located;
use crate::config::{Diagnostic, DiagnosticView, Diagnostics, Severity, Source};
use crate::maps::TextMap;
use crate::mise::declarations::EnvDeclarations;
use crate::mise::env::{merge, merged, resolves_to, MiseEnvEntry, ResolvedEnv};
use crate::text::concat;

verus! {

/// A project's configuration, its environment, and what is wrong with them.
#[derive(Debug)]
pub struct Project {
    pub discovery: Discovery,
    /// `None` when the kitchen file is not valid TOML.
    pub kitchen: Option<ParsedKitchen>,
    pub declarations: EnvDeclarations,
    /// `None` when mise could not resolve the environment.
    pub env: Option<ResolvedEnv>,
    pub diagnostics: Diagnostics,
}

/// What is said when mise could not resolve the environment.
pub open spec fn unresolved(message: Seq<char>) -> DiagnosticView {
    DiagnosticView::general(
        Severity::Error,
        "mise could not resolve the environment: "@ + message,
    )
}

impl Project {
    /// Put a project together from its kitchen file, already parsed, and what
    /// mise made of the environment. `exist` says of each mount whether its
    /// host path exists; `host` is the host's environment.
    ///
    /// Problems with the configuration end up in [`Project::diagnostics`].
    pub fn assemble(
        discovery: Discovery,
        source: &Source,
        kitchen: Option<ParsedKitchen>,
        declarations: EnvDeclarations,
        mise: Result<TextMap<MiseEnvEntry>, String>,
        host: &TextMap<String>,
        exist: &Vec<bool>,
        mut diagnostics: Diagnostics,
    ) -> (r: Self)
        requires
            kitchen matches Some(kitchen) ==> exist.len() == kitchen.config.mounts.len(),
        ensures
            r.discovery == discovery,
            r.kitchen == kitchen,
            r.declarations == declarations,
            match (mise, r.env) {
                (Ok(output), Some(env)) => resolves_to(
                    env,
                    merged(output@, declarations@, host@),
                ),
                (Err(_), None) => true,
                _ => false,
            },
            ({
                let resolved = match mise {
                    Ok(_) => diagnostics@,
                    Err(message) => diagnostics@.push(unresolved(message@)),
                };
                r.diagnostics@ == match kitchen {
                    Some(kitchen) => resolved + located(
                        *source,
                        environment_issues(
                            kitchen,
                            declarations,
                            match &r.env {
                                Some(env) => Some(env),
                                None => None,
                            },
                            exist@,
                        ),
                    ),
                    None => resolved,
                }
            }),
    {
        let env = match &mise {
            Ok(output) => Some(merge(output, &declarations, host)),
            Err(message) => {
                let text = concat("mise could not resolve the environment: ", message.as_str());
                diagnostics.push(Diagnostic::general(Severity::Error, text.as_str()));
                None
            },
        };
        if let Some(kitchen) = &kitchen {
            check(
                kitchen,
                source,
                &declarations,
                match &env {
                    Some(env) => Some(env),
                    None => None,
                },
                exist,
                &mut diagnostics,
            );
        }
        Project { discovery, kitchen, declarations, env, diagnostics }
    }
}

} // verus!
