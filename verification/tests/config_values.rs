//! Sizes, host patterns, diagnostics and the choice of the kitchen file.

use microkitchen::broker::mediator::grammar::GrammarError;
use microkitchen::config::discover::{
    discover, global_config_dirs, project_dir, section_in, select_kitchen, GlobalConfig,
};
use microkitchen::config::hostpat::{same_patterns, HostPattern, PatternError};
use microkitchen::config::size::{format_mib, parse_size_mib, SizeError};
use microkitchen::config::{Diagnostic, Diagnostics, SectionLocation, Severity, Source};
use microkitchen::ip::{IpAddr, IpNet};
use microkitchen::text::{trimmed, trimmed_end};
use microkitchen::tree::Span;

fn pattern(text: &str) -> HostPattern {
    HostPattern::from_str(text).unwrap()
}

fn ip(text: &str) -> IpAddr {
    IpAddr::parse(text).unwrap()
}

#[test]
fn project_dirs() {
    for (file, dir) in [
        ("/p/mise.toml", "/p"),
        ("/p/mise.local.toml", "/p"),
        ("/p/.mise.toml", "/p"),
        ("/p/.config/mise.toml", "/p"),
        ("/p/.config/mise/config.toml", "/p"),
        ("/p/.config/mise/conf.d/extra.toml", "/p"),
        ("/p/mise/config.toml", "/p"),
        ("/p/.mise/config.local.toml", "/p"),
        ("/p/mise/mise.toml", "/p/mise"),
    ] {
        assert_eq!(project_dir(file), dir, "{file}");
    }
}

#[test]
fn selects_highest_file_with_section_else_nearest() {
    let legacy = Some(SectionLocation::Legacy);
    let underscore = Some(SectionLocation::Underscore);
    assert_eq!(
        select_kitchen(&[("a", None), ("b", legacy), ("c", underscore)]),
        Some(("b", legacy))
    );
    assert_eq!(select_kitchen(&[("a", None), ("b", None)]), Some(("a", None)));
    assert_eq!(select_kitchen::<&str>(&[]), None);
}

#[test]
fn discovery_leaves_out_global_files() {
    let files = vec![
        "/p/mise.toml".to_string(),
        "/mise.toml".to_string(),
        "/home/u/.config/mise/config.toml".to_string(),
    ];
    let sections = vec![None, Some(SectionLocation::Underscore), Some(SectionLocation::Legacy)];
    let global = vec!["/home/u/.config/mise".to_string()];
    let found = discover(&files, &sections, &global).unwrap();
    assert_eq!(found.kitchen_file, "/mise.toml");
    assert_eq!(found.kitchen_dir, "/");
    assert_eq!(found.section, Some(SectionLocation::Underscore));
    // Lowest precedence first.
    let loaded: Vec<&String> = files.iter().rev().collect();
    assert_eq!(found.loaded_files.iter().collect::<Vec<_>>(), loaded);
    assert!(discover(&Vec::new(), &Vec::new(), &global).is_none());
}

#[test]
fn global_files_follow_the_environment() {
    let nothing = GlobalConfig {
        global_config_file: None,
        system_config_file: None,
        config_dir: None,
        xdg_config_home: None,
        home: Some("/home/u"),
    };
    let dirs = global_config_dirs(&nothing);
    assert!(dirs.iter().any(|d| d == "/home/u/.config/mise"), "{dirs:?}");
    let dirs = global_config_dirs(&GlobalConfig { xdg_config_home: Some("/x"), ..nothing });
    assert!(dirs.iter().any(|d| d == "/x/mise"), "{dirs:?}");
}

#[test]
fn sections_are_found_in_either_place() {
    assert_eq!(section_in("[_.microkitchen]\n"), Some(SectionLocation::Underscore));
    assert_eq!(section_in("[microkitchen]\n"), Some(SectionLocation::Legacy));
    assert_eq!(section_in("[env]\n"), None);
    assert_eq!(section_in("[env\n"), None);
    assert_eq!(SectionLocation::Underscore.table_path(), "_.microkitchen");
    assert_eq!(SectionLocation::Legacy.table_path(), "microkitchen");
}

#[test]
fn positions_are_one_based() {
    let source = Source::new("m.toml", "a = 1\nb\u{e9} = 2\n");
    assert_eq!(source.position(0), (1, 1));
    assert_eq!(source.position(6), (2, 1));
    assert_eq!(source.position(10), (2, 4));
    assert_eq!(source.position(999), (3, 1));
}

#[test]
fn located_message_omits_unknown_parts() {
    let source = Source::new("/p/mise.toml", "x\ncpus = 99\n");
    let d = source.diagnostic(
        Severity::Error,
        Some(Span { start: 9, end: 11 }),
        Some("_.microkitchen.cpus"),
        "bad",
    );
    assert_eq!(d.to_text(), "error: /p/mise.toml:2:8: _.microkitchen.cpus: bad");
    assert_eq!(Diagnostic::general(Severity::Warning, "w").to_text(), "warning: w");
}

#[test]
fn diagnostics_count_errors() {
    let mut diagnostics = Diagnostics::default();
    assert!(diagnostics.is_empty() && !diagnostics.has_errors());
    diagnostics.push(Diagnostic::general(Severity::Notice, "n"));
    diagnostics.push(Diagnostic::general(Severity::Warning, "w"));
    assert!(!diagnostics.is_empty() && !diagnostics.has_errors());
    diagnostics.push(Diagnostic::general(Severity::Error, "e"));
    assert_eq!(diagnostics.error_count(), 1);
    let texts: Vec<String> = diagnostics.iter().map(|d| d.to_text()).collect();
    assert_eq!(texts, ["note: n", "warning: w", "error: e"]);
}

#[test]
fn parses_units() {
    let cases = [
        ("512", 512),
        ("512M", 512),
        ("512mb", 512),
        ("512MiB", 512),
        ("4G", 4096),
        ("4gb", 4096),
        ("4GiB", 4096),
        ("64G", 65536),
    ];
    for (input, mib) in cases {
        assert_eq!(parse_size_mib(input), Ok(mib), "{input}");
    }
}

#[test]
fn rejects_bad_sizes() {
    assert_eq!(parse_size_mib(""), Err(SizeError::Malformed(String::new())));
    assert_eq!(parse_size_mib("G"), Err(SizeError::Malformed("G".into())));
    assert_eq!(parse_size_mib("1.5G"), Err(SizeError::Malformed("1.5G".into())));
    assert_eq!(parse_size_mib("4 G"), Err(SizeError::Malformed("4 G".into())));
    assert_eq!(parse_size_mib("4T"), Err(SizeError::UnknownUnit("T".into())));
    assert_eq!(parse_size_mib("0G"), Err(SizeError::Zero));
    assert_eq!(parse_size_mib("99999999999"), Err(SizeError::TooLarge));
    assert_eq!(parse_size_mib("4194304G"), Err(SizeError::TooLarge));
}

#[test]
fn formats_compactly() {
    assert_eq!(format_mib(4096), "4G");
    assert_eq!(format_mib(1536), "1536M");
}

#[test]
fn sizes_read_back_as_written() {
    for mib in [1, 1023, 1024, 1025, 65536, u32::MAX] {
        assert_eq!(parse_size_mib(&format_mib(mib)), Ok(mib));
    }
}

#[test]
fn parses_each_kind() {
    assert_eq!(pattern("Example.COM"), HostPattern::Exact("example.com".into()));
    assert_eq!(pattern("*.github.com"), HostPattern::Suffix("github.com".into()));
    assert_eq!(pattern("203.0.113.7"), HostPattern::Address(ip("203.0.113.7")));
    assert_eq!(pattern("2001:db8::1"), HostPattern::Address(ip("2001:db8::1")));
    assert_eq!(
        pattern("203.0.113.0/24"),
        HostPattern::Network(IpNet { address: ip("203.0.113.0"), prefix: 24 })
    );
}

#[test]
fn round_trips_through_display() {
    for s in ["example.com", "*.github.com", "203.0.113.7", "2001:db8::/32"] {
        assert_eq!(pattern(s).to_text(), s);
    }
}

#[test]
fn rejects_malformed_entries() {
    for s in [
        "",
        "*",
        "*.",
        "**.example.com",
        "foo.*.com",
        "exa mple.com",
        "example.com\0",
        "https://example.com",
        "example.com:443",
        "203.0.113.7/24",
        "203.0.113.0/33",
        "1.2.3",
        "999.1.1.1",
        "b\u{fc}cher.de",
    ] {
        assert!(HostPattern::from_str(s).is_err(), "{s:?} should be rejected");
    }
    assert_eq!(
        HostPattern::from_str("203.0.113.7/24"),
        Err(PatternError::HostBits("203.0.113.0/24".into()))
    );
}

#[test]
fn each_pattern_error_has_an_input() {
    assert_eq!(HostPattern::from_str("*"), Err(PatternError::Grammar(GrammarError::InvalidByte(42))));
    assert_eq!(HostPattern::from_str("203.0.113.0/33"), Err(PatternError::Cidr));
    assert_eq!(HostPattern::from_str("1.2.3"), Err(PatternError::NumericTld));
    for (text, needle) in [("203.0.113.0/33", "CIDR"), ("203.0.113.7/24", "203.0.113.0/24")] {
        let error = HostPattern::from_str(text).unwrap_err().to_text();
        assert!(error.contains(needle), "{error}");
    }
}

#[test]
fn suffix_matches_apex_and_subdomains_only() {
    let p = pattern("*.github.com");
    assert!(p.matches_name("github.com"));
    assert!(p.matches_name("api.github.com"));
    assert!(p.matches_name("A.B.GitHub.com"));
    assert!(!p.matches_name("evilgithub.com"));
    assert!(!p.matches_name("github.com.evil.net"));
    assert!(!p.matches_address(ip("140.82.121.3")));
}

#[test]
fn exact_matches_only_that_name() {
    let p = pattern("example.com");
    assert!(p.matches_name("EXAMPLE.com"));
    assert!(!p.matches_name("www.example.com"));
}

#[test]
fn address_rules_match_addresses() {
    assert!(pattern("203.0.113.0/24").matches_address(ip("203.0.113.99")));
    assert!(!pattern("203.0.113.0/24").matches_address(ip("203.0.114.1")));
    assert!(pattern("203.0.113.7").matches_address(ip("::ffff:203.0.113.7")));
    assert!(!pattern("203.0.113.7").matches_name("203.0.113.7"));
}

#[test]
fn pattern_lists_are_compared_in_order() {
    let a = vec![pattern("a.com"), pattern("10.0.0.0/8")];
    let b = vec![pattern("a.com"), pattern("10.0.0.0/8")];
    let c = vec![pattern("10.0.0.0/8"), pattern("a.com")];
    assert!(same_patterns(&a, &b));
    assert!(!same_patterns(&a, &c));
    assert!(!same_patterns(&a, &Vec::new()));
    assert!(a[0].equals(&a[0].clone()) && a[0].is_name() && !a[1].is_name());
}

#[test]
fn white_space_is_trimmed_at_both_ends() {
    assert_eq!(trimmed(" \t\u{a0}\u{2003}a b\u{3000}\r\n"), "a b");
    assert_eq!(trimmed("\u{200b}a"), "\u{200b}a");
    assert_eq!(trimmed_end("a \u{85}"), "a");
}

#[test]
fn patterns_read_back_from_their_text() {
    for text in ["Example.COM", "*.example.com", "203.0.113.7", "10.0.0.0/8", "2001:DB8::1", "::/0"]
    {
        let p = pattern(text);
        assert_eq!(pattern(&p.to_text()), p, "{text}");
    }
}
