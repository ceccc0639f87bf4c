//! Interpreting what the host's `mise` reports.

pub mod declarations;
pub mod env;
pub mod render;

use vstd::prelude::*;

use crate::text::{
    after, has_prefix, join, join_with, lines, lines_of, lossy, lossy_text, starts_with,
    strip_prefix, trim_end, trimmed_end, views,
};

verus! {

/// Overrides the mise executable (default: `mise` on `PATH`).
pub const MISE_PROGRAM_ENV: &'static str = "MICROKITCHEN_MISE";

/// A line of mise's error output without its prefix.
pub open spec fn bare_line(line: Seq<char>) -> Seq<char> {
    trim_end(
        if starts_with(line, "mise ERROR "@) {
            after(line, "mise ERROR "@.len() as int)
        } else {
            line
        },
    )
}

pub open spec fn is_boilerplate(line: Seq<char>) -> bool {
    line.len() == 0 || starts_with(line, "Version: "@) || starts_with(line, "Run with --verbose"@)
}

/// The lines that say something.
pub open spec fn telling_lines(all: Seq<Seq<char>>) -> Seq<Seq<char>>
    decreases all.len(),
{
    if all.len() == 0 {
        Seq::empty()
    } else {
        let rest = telling_lines(all.drop_last());
        let line = bare_line(all.last());
        if is_boilerplate(line) {
            rest
        } else {
            rest.push(line)
        }
    }
}

/// mise's error output in short.
pub open spec fn failure_text(text: Seq<char>) -> Seq<char> {
    let kept = telling_lines(lines(text));
    if kept.len() == 0 {
        "mise exited with an error and printed nothing"@
    } else {
        join(kept, "\n"@)
    }
}

/// mise's error lines without the prefix and the version/verbose boilerplate.
pub fn clean_stderr(stderr: &[u8]) -> (r: String)
    ensures
        r@ == failure_text(lossy_text(stderr@)),
{
    let text = lossy(stderr);
    let all = lines_of(text.as_str());
    let ghost av = views(all@);
    let mut kept: Vec<String> = Vec::new();
    let mut i: usize = 0;
    assert(av.subrange(0, 0) =~= Seq::empty());
    assert(views(kept@) =~= Seq::empty());
    while i < all.len()
        invariant
            i <= all@.len(),
            av == views(all@),
            views(kept@) == telling_lines(av.subrange(0, i as int)),
        decreases all@.len() - i,
    {
        assert(av.subrange(0, i + 1).drop_last() =~= av.subrange(0, i as int));
        let ghost done = views(kept@);
        let line = match strip_prefix(all[i].as_str(), "mise ERROR ") {
            Some(rest) => trimmed_end(rest.as_str()),
            None => trimmed_end(all[i].as_str()),
        };
        assert(line@ == bare_line(av[i as int]));
        let text = line.as_str();
        if !(text.is_empty() || has_prefix(text, "Version: ") || has_prefix(
            text,
            "Run with --verbose",
        )) {
            let ghost lv = line@;
            kept.push(line);
            assert(views(kept@) =~= done.push(lv));
        }
        i += 1;
    }
    assert(av.subrange(0, av.len() as int) =~= av);
    if kept.len() == 0 {
        "mise exited with an error and printed nothing".to_owned()
    } else {
        join_with(&kept, "\n")
    }
}

} // verus!
