//! Which files are staged, and where they are found again.

use microkitchen::config::staging::{
    guest_path, plan, split_glob, RewriteAction, StagePlan, StagedSource, Step, GUEST_FILES_DIR,
};
use microkitchen::config::{Diagnostics, Source};

const KITCHEN: &str = "/p/app";

fn run(text: &str) -> (StagePlan, Diagnostics) {
    run_with(text, None)
}

fn run_with(text: &str, dotfiles: Option<&str>) -> (StagePlan, Diagnostics) {
    let source = Source::new("/p/app/mise.toml", text);
    let mut diagnostics = Diagnostics::default();
    let plan = plan(&source, KITCHEN, KITCHEN, dotfiles, Some("/home/t"), &mut diagnostics);
    (plan, diagnostics)
}

/// Guest paths of every staged source, in plan order.
fn guests(plan: &StagePlan) -> Vec<&str> {
    plan.sources.iter().map(|s| s.guest.as_str()).collect()
}

/// The value a rewrite sets. Target keys hold `/` themselves, so the path
/// is given as parts: `&["dotfiles", "~/.gitconfig", "source"]`.
fn rewrite(plan: &StagePlan, path: &[&str]) -> Option<String> {
    let wanted: Vec<Step> = path
        .iter()
        .map(|s| match s.parse::<usize>() {
            Ok(index) => Step::Index(index),
            Err(_) => Step::Key((*s).to_owned()),
        })
        .collect();
    plan.rewrites.iter().find(|r| r.path == wanted).map(|r| match &r.action {
        RewriteAction::Replace(v) | RewriteAction::Ensure(v) => v.clone(),
        RewriteAction::Remove => "<remove>".to_owned(),
    })
}

/// The staged source whose guest path ends with `suffix`.
fn staged<'a>(plan: &'a StagePlan, suffix: &str) -> &'a StagedSource {
    plan.sources
        .iter()
        .find(|s| s.guest.ends_with(suffix))
        .unwrap_or_else(|| panic!("no source ending in {suffix}: {plan:?}"))
}

#[test]
fn collects_every_entry_spelling() {
    let text = r#"
[dotfiles]
"~/.gitconfig" = "dotfiles/gitconfig"
"~/.vimrc" = { source = "dotfiles/vimrc", mode = "copy" }

[dotfiles."~/.config/nvim"]
source = "dotfiles/nvim"
mode = "symlink"

[bootstrap.files."/etc/a.conf"]
source = "etc/a.conf"

[bootstrap.directories."/srv/data"]
mode = "0750"
"#;
    let (plan, diagnostics) = run(text);
    assert!(diagnostics.is_empty(), "{diagnostics:?}");
    assert_eq!(
        guests(&plan),
        [
            "/opt/kitchen/files/project/dotfiles/gitconfig",
            "/opt/kitchen/files/project/dotfiles/nvim",
            "/opt/kitchen/files/project/dotfiles/vimrc",
            "/opt/kitchen/files/project/etc/a.conf",
        ]
    );
    assert_eq!(
        rewrite(&plan, &["dotfiles", "~/.gitconfig"]).as_deref(),
        Some("/opt/kitchen/files/project/dotfiles/gitconfig")
    );
    assert_eq!(
        rewrite(&plan, &["dotfiles", "~/.vimrc", "source"]).as_deref(),
        Some("/opt/kitchen/files/project/dotfiles/vimrc")
    );
    assert_eq!(
        rewrite(&plan, &["dotfiles", "~/.config/nvim", "source"]).as_deref(),
        Some("/opt/kitchen/files/project/dotfiles/nvim")
    );
    assert_eq!(
        rewrite(&plan, &["bootstrap", "files", "/etc/a.conf", "source"]).as_deref(),
        Some("/opt/kitchen/files/project/etc/a.conf")
    );
}

#[test]
fn entries_without_a_source_stage_nothing() {
    let text = r#"
[dotfiles]
"~/.config/x.conf" = { content = "a = 1\n" }
"~/.zshrc/activate" = { block = 'eval "$(mise activate zsh)"' }
"/etc/hosts/dev" = { line = "127.0.0.1 dev.local" }
"~/.old" = { state = "absent" }
"#;
    let (plan, diagnostics) = run(text);
    assert!(diagnostics.is_empty(), "{diagnostics:?}");
    assert!(plan.is_empty(), "{plan:?}");
    assert!(plan.rewrites.is_empty());
}

#[test]
fn outside_sources_are_hashed_and_grouped() {
    let text = r#"
[dotfiles]
"~/.gitconfig" = "../shared/gitconfig"
"~/.tigrc" = "../shared/tigrc"
"~/.vimrc" = "../../other/vimrc"
"#;
    let (plan, diagnostics) = run(text);
    assert!(diagnostics.is_empty(), "{diagnostics:?}");
    assert!(plan.sources.iter().all(|s| s.outside), "{plan:?}");

    // Two files from one host directory share a staged directory; a file
    // from another does not.
    let dir = |s: &StagedSource| s.guest.rsplit_once('/').unwrap().0.to_owned();
    assert_eq!(dir(staged(&plan, "/gitconfig")), dir(staged(&plan, "/tigrc")));
    assert_ne!(dir(staged(&plan, "/gitconfig")), dir(staged(&plan, "/vimrc")));
}

#[test]
fn guest_paths_are_stable() {
    let host = "/home/someone/.dotfiles";
    let kitchen = "/p/app";
    assert_eq!(guest_path(host, kitchen), guest_path(host, kitchen));
    let (guest, outside) = guest_path(host, kitchen);
    assert!(outside);
    assert!(guest.ends_with("/.dotfiles"), "{guest}");
    // The host path does not leak into the guest.
    assert!(!guest.contains("someone"), "{guest}");
}

#[test]
fn a_source_is_staged_once() {
    let text = r#"
[dotfiles]
"~/.a" = "shared/file"
"~/.b" = "shared/file"
"#;
    let (plan, _) = run(text);
    assert_eq!(plan.sources.len(), 1);
    assert_eq!(plan.rewrites.len(), 2);
    assert_eq!(
        rewrite(&plan, &["dotfiles", "~/.a"]),
        rewrite(&plan, &["dotfiles", "~/.b"])
    );
}

#[test]
fn nested_sources_collapse_into_their_ancestor() {
    let text = r#"
[dotfiles]
"~/.config" = "dotfiles"
"~/.gitconfig" = "dotfiles/git/config"
"#;
    let (plan, _) = run(text);
    assert_eq!(guests(&plan), ["/opt/kitchen/files/project/dotfiles"]);
    // The descendant still points at its path inside the copy.
    assert_eq!(
        rewrite(&plan, &["dotfiles", "~/.gitconfig"]).as_deref(),
        Some("/opt/kitchen/files/project/dotfiles/git/config")
    );
}

#[test]
fn globs_stage_their_directory_and_keep_the_pattern() {
    let text = "[dotfiles]\n\"~/.config/*.toml\" = \"dotfiles/config/*.toml\"\n";
    let (plan, diagnostics) = run(text);
    assert!(diagnostics.is_empty(), "{diagnostics:?}");
    assert_eq!(guests(&plan), ["/opt/kitchen/files/project/dotfiles/config"]);
    assert_eq!(
        rewrite(&plan, &["dotfiles", "~/.config/*.toml"]).as_deref(),
        Some("/opt/kitchen/files/project/dotfiles/config/*.toml")
    );
}

#[test]
fn variants_stage_every_source() {
    let text = r#"
[dotfiles."vscode/settings.json"]
mode = "copy"
variants = [
  { os = "macos", source = "dotfiles/vscode/macos.json" },
  { os = "linux", source = "dotfiles/vscode/linux.json" },
]
"#;
    let (plan, _) = run(text);
    assert_eq!(
        guests(&plan),
        [
            "/opt/kitchen/files/project/dotfiles/vscode/linux.json",
            "/opt/kitchen/files/project/dotfiles/vscode/macos.json",
        ]
    );
    assert_eq!(
        rewrite(&plan, &["dotfiles", "vscode/settings.json", "variants", "1", "source"])
            .as_deref(),
        Some("/opt/kitchen/files/project/dotfiles/vscode/linux.json")
    );
}

#[test]
fn git_manifest_is_resolved_on_the_host_and_dropped() {
    let text =
        "[dotfiles.\"~\"]\nsource = \"dots\"\nmode = \"symlink-each\"\nmanifest = \"git\"\n";
    let (plan, _) = run(text);
    assert!(plan.sources[0].git_manifest);
    assert_eq!(
        rewrite(&plan, &["dotfiles", "~", "manifest"]).as_deref(),
        Some("<remove>")
    );
}

#[test]
fn exclude_is_carried_to_the_host() {
    let text = "[dotfiles.\"~\"]\nsource = \"dots\"\nexclude = [\"mise.toml\", \"*.md\"]\n";
    let (plan, _) = run(text);
    assert_eq!(plan.sources[0].exclude, ["mise.toml", "*.md"]);
}

#[test]
fn the_dotfiles_key_becomes_the_guest_root() {
    let (plan, diagnostics) = run_with("[tools]\nnode = \"22\"\n", Some("/home/t/.dotfiles"));
    assert!(diagnostics.is_empty(), "{diagnostics:?}");
    assert_eq!(plan.sources.len(), 1);
    assert!(plan.sources[0].dotfiles_root);
    let root = rewrite(&plan, &["settings", "dotfiles", "root"]).expect("root rewrite");
    assert_eq!(root, plan.sources[0].guest);
    assert!(
        matches!(plan.rewrites[0].action, RewriteAction::Ensure(_)),
        "{:?}",
        plan.rewrites[0]
    );
}

#[test]
fn a_declared_settings_root_is_staged_too() {
    let text = "[settings.dotfiles]\nroot = \"~/.dotfiles\"\n";
    let (plan, _) = run(text);
    assert_eq!(plan.sources.len(), 1);
    assert!(plan.sources[0].dotfiles_root);
    assert!(matches!(plan.rewrites[0].action, RewriteAction::Replace(_)));

    // The microkitchen key wins, and is staged instead.
    let (plan, _) = run_with(text, Some("/elsewhere/dots"));
    assert_eq!(plan.sources.len(), 1);
    assert_eq!(plan.sources[0].host, "/elsewhere/dots");
}

#[test]
fn the_kitchen_directory_itself_stages_outside_the_project() {
    // `"~" = { source = ".", mode = "symlink-each" }` is a real mise idiom.
    // The kitchen directory has no path *relative to itself*, so it takes
    // the hashed branch and can never land on `/opt/kitchen/mise.toml`.
    let text = "[dotfiles.\"~\"]\nsource = \".\"\nmode = \"symlink-each\"\n";
    let (plan, diagnostics) = run(text);
    assert!(diagnostics.is_empty(), "{diagnostics:?}");
    assert_eq!(plan.sources.len(), 1);
    assert_eq!(plan.sources[0].host, KITCHEN);
    assert!(plan.sources[0].outside);
    assert!(plan.sources[0].guest.ends_with("/app"), "{plan:?}");
    assert_ne!(plan.sources[0].guest, GUEST_FILES_DIR);
}

#[test]
fn colliding_guest_paths_are_reported() {
    // Two different host directories whose files share a name only collide
    // when their anchors hash alike, so provoke it through the project
    // branch instead: `../app/x` normalizes back inside the kitchen dir.
    let text = "[dotfiles]\n\"~/.a\" = \"dotfiles/x\"\n\"~/.b\" = \"../app/dotfiles/x\"\n";
    let (plan, diagnostics) = run(text);
    // Same normalized host path, so it is a dedup, not a collision.
    assert_eq!(plan.sources.len(), 1);
    assert!(diagnostics.is_empty(), "{diagnostics:?}");
}

#[test]
fn split_glob_finds_the_literal_prefix() {
    let cases = [
        ("/a/b/c", "/a/b/c", None),
        ("/a/b/*.toml", "/a/b", Some("*.toml")),
        ("/a/**/c", "/a", Some("**/c")),
        ("/a/b?/c", "/a", Some("b?/c")),
    ];
    for (input, prefix, rest) in cases {
        let (got_prefix, got_rest) = split_glob(input);
        assert_eq!(got_prefix, prefix, "{input}");
        assert_eq!(got_rest.as_deref(), rest, "{input}");
    }
}

#[test]
fn no_two_sources_share_a_guest_path() {
    let text = "[dotfiles]\n\"a\" = \"x/1\"\n\"b\" = \"../x/1\"\n\"c\" = \"../y/1\"\n\"d\" = \"x/2\"\n";
    let (plan, diagnostics) = run(text);
    assert!(diagnostics.is_empty(), "{diagnostics:?}");
    assert_eq!(plan.sources.len(), 4);
    for (i, a) in plan.sources.iter().enumerate() {
        for b in &plan.sources[i + 1..] {
            assert_ne!(a.guest, b.guest);
        }
    }
}

#[test]
fn sources_stand_in_the_order_of_their_paths() {
    let (plan, _) = run(
        "[dotfiles]\n\"~/.z\" = \"/srv/z\"\n\"~/.b\" = \"b/c\"\n\"~/.a\" = \"b-c\"\n\"~/.y\" = \"/srv/a\"\n",
    );
    let hosts: Vec<&str> = plan.sources.iter().map(|s| s.host.as_str()).collect();
    assert_eq!(hosts, ["/p/app/b/c", "/p/app/b-c", "/srv/a", "/srv/z"]);
}
