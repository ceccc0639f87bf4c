//! Progress output, following microsandbox's CLI (`msb`): an ephemeral
//! spinner on stderr while something runs, replaced by a
//! `✓ <past tense> <target> (duration)` line when it succeeds, and per-layer
//! bars while an image is pulled.
//!
//! What is shown is decided here; drawing it is left to the terminal code.

use vstd::prelude::*;

use crate::text::{
    align_right, concat, concat3, concat4, decimal, decimal_string, pad, padded, push_decimal,
    right_aligned, views,
};
use crate::time::{Duration, MILLISECOND, SECOND};

verus! {

/// Shorter operations get no duration in their completion line.
pub const SHOW_DURATION_AFTER: Duration = 500_000_000;

/// How wide the verb of a line is.
pub const VERB_WIDTH: usize = 12;

/// The mark of what is done.
pub const CHECK: &'static str = "\u{2713}";

// ---------------------------------------------------------------------------
// Durations
// ---------------------------------------------------------------------------

/// A quotient rounded to the nearest integer, and from the middle to the even
/// one.
pub open spec fn half_even(n: int, d: int) -> int {
    let (whole, rest) = (n / d, n % d);
    if 2 * rest > d || (2 * rest == d && whole % 2 == 1) {
        whole + 1
    } else {
        whole
    }
}

/// How many steps a second has among the numbers with 53 significant bits that
/// are as large as so many seconds, less than a minute.
pub open spec fn steps_in_a_second(secs: int) -> int {
    if secs < 2 {
        0x10_0000_0000_0000
    } else if secs < 4 {
        0x8_0000_0000_0000
    } else if secs < 8 {
        0x4_0000_0000_0000
    } else if secs < 16 {
        0x2_0000_0000_0000
    } else if secs < 32 {
        0x1_0000_0000_0000
    } else {
        0x8000_0000_0000
    }
}

/// A duration in tenths of a second: the nearest to the nearest number with 53
/// significant bits. So `1.05` is a little more than it says, and `1.15` a little
/// less.
pub open spec fn tenths(duration: Duration) -> int {
    let steps = steps_in_a_second(duration as int / SECOND as int);
    half_even(half_even(duration * steps, SECOND as int) * 10, steps)
}

fn rounded(n: u128, d: u128) -> (r: u128)
    requires
        0 < d <= 0x10_0000_0000_0000,
        n < 0x1_0000_0000_0000_0000_0000_0000_0000,
    ensures
        r == half_even(n as int, d as int),
{
    let whole: u128 = n / d;
    let rest: u128 = n % d;
    assert(whole <= n) by (nonlinear_arith)
        requires
            whole == n / d,
            d > 0,
    ;
    if 2 * rest > d || (2 * rest == d && whole % 2 == 1) {
        whole + 1
    } else {
        whole
    }
}

fn count_tenths(duration: Duration) -> (r: u64)
    requires
        duration < 60 * SECOND,
    ensures
        r == tenths(duration),
{
    let secs: u64 = duration / SECOND;
    let steps: u128 = if secs < 2 {
        0x10_0000_0000_0000
    } else if secs < 4 {
        0x8_0000_0000_0000
    } else if secs < 8 {
        0x4_0000_0000_0000
    } else if secs < 16 {
        0x2_0000_0000_0000
    } else if secs < 32 {
        0x1_0000_0000_0000
    } else {
        0x8000_0000_0000
    };
    let n: u128 = duration as u128;
    assert(n * steps <= 60_000_000_000 * 0x10_0000_0000_0000) by (nonlinear_arith)
        requires
            n < 60_000_000_000,
            steps <= 0x10_0000_0000_0000,
    ;
    let exact: u128 = n * steps;
    let near: u128 = rounded(exact, SECOND as u128);
    let ghost whole = exact as int / SECOND as int;
    assert(whole <= 60 * steps) by (nonlinear_arith)
        requires
            exact == n * steps,
            n < 60_000_000_000,
            whole == exact as int / 1_000_000_000,
            steps > 0,
    ;
    let r: u128 = rounded(near * 10, steps);
    let ghost most = (near * 10) as int / steps as int;
    assert(most <= 610) by (nonlinear_arith)
        requires
            near <= 60 * steps + 1,
            steps >= 0x8000_0000_0000,
            most == (near * 10) as int / steps as int,
    ;
    r as u64
}

/// `850ms`, `4.2s`, `1m 5s`.
pub open spec fn duration_text(duration: Duration) -> Seq<char> {
    let secs = duration / SECOND;
    if secs >= 60 {
        decimal((secs / 60) as nat) + "m "@ + decimal((secs % 60) as nat) + "s"@
    } else if duration >= SECOND {
        decimal((tenths(duration) / 10) as nat) + "."@ + decimal((tenths(duration) % 10) as nat)
            + "s"@
    } else {
        decimal((duration / MILLISECOND) as nat) + "ms"@
    }
}

/// `850ms`, `4.2s`, `1m 5s`.
pub fn format_duration(duration: Duration) -> (r: String)
    ensures
        r@ == duration_text(duration),
{
    let secs: u64 = duration / SECOND;
    if secs >= 60 {
        concat4(
            decimal_string(secs / 60).as_str(),
            "m ",
            decimal_string(secs % 60).as_str(),
            "s",
        )
    } else if duration >= SECOND {
        let tenths: u64 = count_tenths(duration);
        concat4(
            decimal_string(tenths / 10).as_str(),
            ".",
            decimal_string(tenths % 10).as_str(),
            "s",
        )
    } else {
        concat(decimal_string(duration / MILLISECOND).as_str(), "ms")
    }
}

/// What a finished spinner says behind its mark: `<verb> <target>`, and the
/// duration, in parentheses, where it took a while.
pub fn success(verb: &str, target: &str, elapsed: Duration) -> (r: (String, Option<String>))
    ensures
        r.0@ == padded(verb@, VERB_WIDTH as int) + " "@ + target@,
        match r.1 {
            Some(text) => elapsed > SHOW_DURATION_AFTER && text@ == " ("@ + duration_text(elapsed)
                + ")"@,
            None => elapsed <= SHOW_DURATION_AFTER,
        },
{
    let line = concat3(pad(verb, VERB_WIDTH).as_str(), " ", target);
    let duration = if elapsed > SHOW_DURATION_AFTER {
        Some(concat3(" (", format_duration(elapsed).as_str(), ")"))
    } else {
        None
    };
    (line, duration)
}

pub open spec fn plural_text(count: nat) -> Seq<char> {
    if count == 1 {
        ""@
    } else {
        "s"@
    }
}

pub fn plural(count: usize) -> (r: &'static str)
    ensures
        r@ == plural_text(count as nat),
{
    if count == 1 {
        ""
    } else {
        "s"
    }
}

// ---------------------------------------------------------------------------
// Pulling an image
// ---------------------------------------------------------------------------

/// How a bar looks.
#[derive(Debug, Clone, Copy, PartialEq, Eq, Structural)]
pub enum BarStyle {
    Download,
    Materialize,
    Done,
}

/// The bar of one image layer.
#[derive(Debug, PartialEq, Eq)]
pub struct Bar {
    pub prefix: String,
    pub style: BarStyle,
    pub position: u64,
    pub length: u64,
    pub message: &'static str,
}

/// A [`Bar`] by its contents.
#[verifier::ext_equal]
pub struct BarView {
    pub prefix: Seq<char>,
    pub style: BarStyle,
    pub position: u64,
    pub length: u64,
    pub message: Seq<char>,
}

impl View for Bar {
    type V = BarView;

    open spec fn view(&self) -> BarView {
        BarView {
            prefix: self.prefix@,
            style: self.style,
            position: self.position,
            length: self.length,
            message: self.message@,
        }
    }
}

/// How far pulling an image is.
#[derive(Debug, Clone, Copy, PartialEq, Eq, Structural)]
pub enum PullProgress {
    Resolving,
    Resolved { layer_count: usize },
    LayerDownloadProgress { layer_index: usize, downloaded_bytes: u64, total: Option<u64> },
    LayerDownloadComplete { layer_index: usize, downloaded_bytes: u64 },
    LayerDownloadVerifying { layer_index: usize },
    LayerMaterializeStarted { layer_index: usize },
    LayerMaterializeProgress { layer_index: usize, bytes_read: u64, total_bytes: u64 },
    LayerMaterializeWriting { layer_index: usize },
    LayerMaterializeComplete { layer_index: usize },
    StitchMergingTrees { layer_count: usize },
    StitchWritingFsmeta,
    StitchWritingVmdk,
    StitchComplete,
    Complete,
}

/// Header plus one bar per image layer while a sandbox is created.
#[derive(Debug, PartialEq, Eq)]
pub struct PullProgressDisplay {
    header: String,
    layer_bars: Vec<Bar>,
    reference: String,
    /// What the header says once the image is ready and the VM boots.
    afterwards: String,
}

/// A [`PullProgressDisplay`] by its contents.
#[verifier::ext_equal]
pub struct DisplayView {
    pub header: Seq<char>,
    pub bars: Seq<BarView>,
    pub reference: Seq<char>,
    pub afterwards: Seq<char>,
}

impl View for PullProgressDisplay {
    type V = DisplayView;

    closed spec fn view(&self) -> DisplayView {
        DisplayView {
            header: self.header@,
            bars: views(self.layer_bars@),
            reference: self.reference@,
            afterwards: self.afterwards@,
        }
    }
}

/// `<verb> <target>` in columns.
pub open spec fn headline(verb: Seq<char>, target: Seq<char>) -> Seq<char> {
    padded(verb, VERB_WIDTH as int) + " "@ + target
}

/// `<reference> (<n> layers)`.
pub open spec fn with_layers(reference: Seq<char>, count: nat) -> Seq<char> {
    reference + " ("@ + decimal(count) + " layer"@ + plural_text(count) + ")"@
}

/// The bar of a layer that is to be downloaded.
pub open spec fn new_bar(number: nat, count: nat) -> BarView {
    BarView {
        prefix: "layer "@ + right_aligned(decimal(number), decimal(count).len() as int) + "/"@
            + decimal(count),
        style: BarStyle::Download,
        position: 0,
        length: 1,
        message: "downloading"@,
    }
}

/// What an event of a layer does to its bar.
pub open spec fn bar_after(bar: BarView, event: PullProgress) -> BarView {
    match event {
        PullProgress::LayerDownloadProgress { downloaded_bytes, total, .. } => BarView {
            length: match total {
                Some(total) => total,
                None => bar.length,
            },
            position: downloaded_bytes,
            ..bar
        },
        PullProgress::LayerDownloadComplete { downloaded_bytes, .. } => BarView {
            length: downloaded_bytes,
            position: downloaded_bytes,
            ..bar
        },
        PullProgress::LayerDownloadVerifying { .. } => BarView { message: "verifying"@, ..bar },
        PullProgress::LayerMaterializeStarted { .. } => BarView {
            style: BarStyle::Materialize,
            position: 0,
            length: 1,
            message: "materializing"@,
            ..bar
        },
        PullProgress::LayerMaterializeProgress { bytes_read, total_bytes, .. } => BarView {
            length: total_bytes,
            position: bytes_read,
            ..bar
        },
        PullProgress::LayerMaterializeWriting { .. } => BarView {
            position: bar.length,
            message: "writing image"@,
            ..bar
        },
        PullProgress::LayerMaterializeComplete { .. } => BarView {
            position: bar.length,
            style: BarStyle::Done,
            message: CHECK@,
            ..bar
        },
        _ => bar,
    }
}

/// The layer that an event is about, if it is about one.
pub open spec fn layer_of(event: PullProgress) -> Option<usize> {
    match event {
        PullProgress::LayerDownloadProgress { layer_index, .. } => Some(layer_index),
        PullProgress::LayerDownloadComplete { layer_index, .. } => Some(layer_index),
        PullProgress::LayerDownloadVerifying { layer_index } => Some(layer_index),
        PullProgress::LayerMaterializeStarted { layer_index } => Some(layer_index),
        PullProgress::LayerMaterializeProgress { layer_index, .. } => Some(layer_index),
        PullProgress::LayerMaterializeWriting { layer_index } => Some(layer_index),
        PullProgress::LayerMaterializeComplete { layer_index } => Some(layer_index),
        _ => None,
    }
}

impl DisplayView {
    /// The display after an event. An event of a layer without a bar changes
    /// nothing.
    pub open spec fn shown(self, event: PullProgress) -> DisplayView {
        match layer_of(event) {
            Some(layer) => if layer < self.bars.len() {
                DisplayView {
                    bars: self.bars.update(
                        layer as int,
                        bar_after(self.bars[layer as int], event),
                    ),
                    ..self
                }
            } else {
                self
            },
            None => match event {
                PullProgress::Resolving => DisplayView {
                    header: headline("Resolving"@, self.reference + "..."@),
                    ..self
                },
                PullProgress::Resolved { layer_count } => DisplayView {
                    header: headline("Pulling"@, with_layers(self.reference, layer_count as nat)),
                    bars: self.bars + Seq::new(
                        layer_count as nat,
                        |i: int| new_bar((i + 1) as nat, layer_count as nat),
                    ),
                    ..self
                },
                PullProgress::StitchMergingTrees { layer_count } => DisplayView {
                    header: headline("Merging"@, with_layers(self.reference, layer_count as nat)),
                    ..self
                },
                PullProgress::StitchWritingFsmeta => DisplayView {
                    header: headline("Writing fsmeta"@, self.reference),
                    ..self
                },
                PullProgress::StitchWritingVmdk => DisplayView {
                    header: headline("Writing vmdk"@, self.reference),
                    ..self
                },
                PullProgress::StitchComplete => DisplayView {
                    header: headline("Stitched"@, self.reference),
                    ..self
                },
                // The image is ready; what remains is booting the sandbox.
                _ => DisplayView { bars: Seq::empty(), header: self.afterwards, ..self },
            },
        }
    }
}

fn line(verb: &str, target: &str) -> (r: String)
    ensures
        r@ == headline(verb@, target@),
{
    concat3(pad(verb, VERB_WIDTH).as_str(), " ", target)
}

fn layers_text(reference: &str, count: usize) -> (r: String)
    ensures
        r@ == with_layers(reference@, count as nat),
{
    let mut r = reference.to_owned();
    r.push_str(" (");
    push_decimal(&mut r, count as u64);
    r.push_str(" layer");
    r.push_str(plural(count));
    r.push_str(")");
    r
}

impl PullProgressDisplay {
    /// `reference` is the image; `afterwards` what the header says once the
    /// image is ready and the sandbox boots (`Creating <name>`).
    pub fn new(reference: &str, afterwards: &str) -> (r: Self)
        ensures
            r@ == (DisplayView {
                header: headline("Pulling"@, reference@),
                bars: Seq::empty(),
                reference: reference@,
                afterwards: afterwards@,
            }),
    {
        let r = PullProgressDisplay {
            header: line("Pulling", reference),
            layer_bars: Vec::new(),
            reference: reference.to_owned(),
            afterwards: afterwards.to_owned(),
        };
        assert(r@.bars =~= Seq::empty());
        r
    }

    pub fn header(&self) -> (r: &str)
        ensures
            r@ == self@.header,
    {
        self.header.as_str()
    }

    pub fn bars(&self) -> (r: &Vec<Bar>)
        ensures
            views(r@) == self@.bars,
    {
        &self.layer_bars
    }

    fn add_bars(&mut self, count: usize)
        ensures
            final(self)@ == (DisplayView {
                bars: old(self)@.bars + Seq::new(
                    count as nat,
                    |i: int| new_bar((i + 1) as nat, count as nat),
                ),
                ..old(self)@
            }),
    {
        let total = decimal_string(count as u64);
        let width: usize = total.as_str().unicode_len();
        let ghost new_bars = Seq::new(
            count as nat,
            |i: int| new_bar((i + 1) as nat, count as nat),
        );
        let mut i: usize = 0;
        assert(self@.bars =~= old(self)@.bars + new_bars.subrange(0, 0));
        while i < count
            invariant
                i <= count,
                total@ == decimal(count as nat),
                width == total@.len(),
                new_bars == Seq::new(
                    count as nat,
                    |i: int| new_bar((i + 1) as nat, count as nat),
                ),
                self@ == (DisplayView {
                    bars: old(self)@.bars + new_bars.subrange(0, i as int),
                    ..old(self)@
                }),
            decreases count - i,
        {
            let number = decimal_string(i as u64 + 1);
            let bar = Bar {
                prefix: concat4(
                    "layer ",
                    align_right(number.as_str(), width).as_str(),
                    "/",
                    total.as_str(),
                ),
                style: BarStyle::Download,
                position: 0,
                length: 1,
                message: "downloading",
            };
            assert(bar@ =~= new_bar((i + 1) as nat, count as nat));
            let ghost added = bar@;
            let ghost before = self@.bars;
            self.layer_bars.push(bar);
            assert(self@.bars =~= before.push(added));
            assert(self@.bars =~= old(self)@.bars + new_bars.subrange(0, i + 1));
            i += 1;
        }
        assert(new_bars.subrange(0, count as int) =~= new_bars);
    }

    /// Take the bar of a layer out, change it, and put it back.
    fn change_bar(&mut self, layer: usize, event: PullProgress)
        requires
            layer_of(event) == Some(layer),
        ensures
            final(self)@ == old(self)@.shown(event),
    {
        if layer >= self.layer_bars.len() {
            return;
        }
        let ghost before = views(self.layer_bars@);
        let mut bar = self.layer_bars.remove(layer);
        let ghost was = bar@;
        match event {
            PullProgress::LayerDownloadProgress { downloaded_bytes, total, .. } => {
                if let Some(total) = total {
                    bar.length = total;
                }
                bar.position = downloaded_bytes;
            },
            PullProgress::LayerDownloadComplete { downloaded_bytes, .. } => {
                bar.length = downloaded_bytes;
                bar.position = downloaded_bytes;
            },
            PullProgress::LayerDownloadVerifying { .. } => {
                bar.message = "verifying";
            },
            PullProgress::LayerMaterializeStarted { .. } => {
                bar.style = BarStyle::Materialize;
                bar.position = 0;
                bar.length = 1;
                bar.message = "materializing";
            },
            PullProgress::LayerMaterializeProgress { bytes_read, total_bytes, .. } => {
                bar.length = total_bytes;
                bar.position = bytes_read;
            },
            PullProgress::LayerMaterializeWriting { .. } => {
                bar.position = bar.length;
                bar.message = "writing image";
            },
            PullProgress::LayerMaterializeComplete { .. } => {
                bar.position = bar.length;
                bar.style = BarStyle::Done;
                bar.message = CHECK;
            },
            _ => {},
        }
        assert(bar@ =~= bar_after(was, event));
        let ghost now = bar@;
        self.layer_bars.insert(layer, bar);
        assert(views(self.layer_bars@) =~= before.update(layer as int, now));
    }

    pub fn handle_event(&mut self, event: PullProgress)
        ensures
            final(self)@ == old(self)@.shown(event),
    {
        match event {
            PullProgress::Resolving => {
                let target = concat(self.reference.as_str(), "...");
                self.header = line("Resolving", target.as_str());
            },
            PullProgress::Resolved { layer_count } => {
                let target = layers_text(self.reference.as_str(), layer_count);
                self.header = line("Pulling", target.as_str());
                self.add_bars(layer_count);
            },
            PullProgress::LayerDownloadProgress { layer_index, .. } => {
                self.change_bar(layer_index, event);
            },
            PullProgress::LayerDownloadComplete { layer_index, .. } => {
                self.change_bar(layer_index, event);
            },
            PullProgress::LayerDownloadVerifying { layer_index } => {
                self.change_bar(layer_index, event);
            },
            PullProgress::LayerMaterializeStarted { layer_index } => {
                self.change_bar(layer_index, event);
            },
            PullProgress::LayerMaterializeProgress { layer_index, .. } => {
                self.change_bar(layer_index, event);
            },
            PullProgress::LayerMaterializeWriting { layer_index } => {
                self.change_bar(layer_index, event);
            },
            PullProgress::LayerMaterializeComplete { layer_index } => {
                self.change_bar(layer_index, event);
            },
            PullProgress::StitchMergingTrees { layer_count } => {
                let target = layers_text(self.reference.as_str(), layer_count);
                self.header = line("Merging", target.as_str());
            },
            PullProgress::StitchWritingFsmeta => {
                self.header = line("Writing fsmeta", self.reference.as_str());
            },
            PullProgress::StitchWritingVmdk => {
                self.header = line("Writing vmdk", self.reference.as_str());
            },
            PullProgress::StitchComplete => {
                self.header = line("Stitched", self.reference.as_str());
            },
            PullProgress::Complete => {
                self.layer_bars = Vec::new();
                self.header = self.afterwards.clone();
                assert(self@.bars =~= Seq::empty());
            },
        }
    }
}

// ---------------------------------------------------------------------------
// Laws
// ---------------------------------------------------------------------------

/// A quotient is rounded to the nearest whole number, and to an even one where two are
/// as near.
pub proof fn law_rounding_goes_to_the_nearest(n: int, d: int)
    requires
        n >= 0,
        d > 0,
    ensures
        2 * d * half_even(n, d) <= 2 * n + d,
        2 * n - d <= 2 * d * half_even(n, d),
        2 * d * half_even(n, d) == 2 * n + d || 2 * n - d == 2 * d * half_even(n, d) ==> half_even(
            n,
            d,
        ) % 2 == 0,
{
    let whole = n / d;
    let rest = n % d;
    vstd::arithmetic::div_mod::lemma_fundamental_div_mod(n, d);
    vstd::arithmetic::div_mod::lemma_mod_bound(n, d);
    assert(2 * d * whole == 2 * (d * whole)) by (nonlinear_arith);
    assert(2 * d * (whole + 1) == 2 * (d * whole) + 2 * d) by (nonlinear_arith);
}

/// A duration of a minute or more is shown in minutes and seconds, and one of less than a
/// second in milliseconds.
pub proof fn law_durations_are_shown(minutes: u64, seconds: u64, rest: u64)
    requires
        seconds < 60,
        rest < 1_000_000_000,
        0 < minutes <= 300_000_000,
    ensures
        duration_text(((minutes * 60 + seconds) * 1_000_000_000 + rest) as u64) == decimal(
            minutes as nat,
        ) + "m "@ + decimal(seconds as nat) + "s"@,
        duration_text(rest) == decimal((rest / 1_000_000) as nat) + "ms"@,
        plural_text(1).len() == 0,
        minutes != 1 ==> plural_text(minutes as nat) == seq!['s'],
{
    reveal_strlit("s");
    reveal_strlit("");
    assert("s"@ =~= seq!['s']);
    let all = (minutes * 60 + seconds) * 1_000_000_000 + rest;
    assert(all <= u64::MAX);
    let duration = all as u64;
    assert(duration / 1_000_000_000 == minutes * 60 + seconds);
    assert((minutes * 60 + seconds) / 60 == minutes && (minutes * 60 + seconds) % 60 == seconds);
}

/// Progress of a layer changes the bar of that layer and nothing else; progress of a
/// layer without a bar changes nothing.
pub proof fn law_progress_moves_one_bar(
    display: DisplayView,
    event: PullProgress,
    layer: usize,
    other: int,
)
    requires
        layer_of(event) == Some(layer),
    ensures
        display.shown(event).bars.len() == display.bars.len(),
        0 <= other < display.bars.len() && other != layer ==> display.shown(event).bars[other]
            == display.bars[other],
        layer < display.bars.len() ==> display.shown(event).bars[layer as int] == bar_after(
            display.bars[layer as int],
            event,
        ),
        display.shown(event).header == display.header,
        display.shown(event).reference == display.reference,
        display.shown(event).afterwards == display.afterwards,
{
}

/// What progress does to a bar.
pub proof fn law_bars_follow_their_layer(bar: BarView, layer_index: usize, bytes: u64, all: u64)
    ensures
        ({
            let next = bar_after(
                bar,
                PullProgress::LayerMaterializeProgress {
                    layer_index,
                    bytes_read: bytes,
                    total_bytes: all,
                },
            );
            next.position == bytes && next.length == all && next.prefix == bar.prefix
                && next.message == bar.message
        }),
        ({
            let next = bar_after(bar, PullProgress::LayerMaterializeComplete { layer_index });
            next.position == bar.length && next.length == bar.length && next.style
                == BarStyle::Done
        }),
        ({
            let next = bar_after(bar, PullProgress::LayerMaterializeStarted { layer_index });
            next.position == 0 && next.style == BarStyle::Materialize && next.message
                == "materializing"@
        }),
        layer_of(PullProgress::LayerMaterializeComplete { layer_index }) == Some(layer_index),
        layer_of(PullProgress::LayerMaterializeStarted { layer_index }) == Some(layer_index),
        layer_of(
            PullProgress::LayerMaterializeProgress {
                layer_index,
                bytes_read: bytes,
                total_bytes: all,
            },
        ) == Some(layer_index),
{
}

} // verus!
