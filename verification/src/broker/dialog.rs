//! Desktop approval dialogs.
//!
//! Three answers: Deny, Allow, Allow 5 min. Closing a dialog or letting it
//! time out denies this flow only and is never remembered. The queue in
//! [`super::approval`] shows one dialog at a time.

use vstd::prelude::*;

use crate::broker::approval::{Outcome, PromptInfo, PromptView};
use crate::broker::attribution::{Origin, OriginView};
use crate::broker::protocol::Transport;
use crate::ip::ip_text;
use crate::state::settings::DialogSetting;
use crate::text::{
    after, before, chars, concat3, decimal, decimal_string, find, find_text, first_index,
    find_first, join, join_with, push_decimal, replace_char, replaced, same, string_of, trim,
    trim_end, trimmed, trimmed_end, views, contains_text,
};

verus! {

pub const TITLE: &'static str = "microkitchen: allow network access?";

pub const ALLOW: &'static str = "Allow";

pub const TEMP: &'static str = "Allow 5 min";

pub const DENY: &'static str = "Deny";

#[derive(Debug, Clone, Copy, PartialEq, Eq, Structural)]
pub enum Backend {
    Zenity,
    Kdialog,
    Osascript,
}

/// Dialogs through a desktop tool.
#[derive(Debug, Clone, Copy, PartialEq, Eq, Structural)]
pub struct Desktop {
    pub backend: Backend,
}

impl Desktop {
    pub fn new(backend: Backend) -> (r: Self)
        ensures
            r.backend == backend,
    {
        Desktop { backend }
    }
}

// ---------------------------------------------------------------------------
// Showing a dialog
// ---------------------------------------------------------------------------

/// A text inside a string of an AppleScript.
pub open spec fn escaped(text: Seq<char>) -> Seq<char> {
    replaced(replaced(text, '\\', "\\\\"@), '"', "\\\""@)
}

fn applescript_escape(text: &str) -> (r: String)
    ensures
        r@ == escaped(text@),
{
    let once = replace_char(text, '\\', "\\\\");
    replace_char(once.as_str(), '"', "\\\"")
}

/// The script of a dialog.
pub open spec fn dialog_script(text: Seq<char>, timeout_secs: u64) -> Seq<char> {
    "display dialog \""@ + escaped(text) + "\" with title \""@ + escaped(TITLE@)
        + "\" buttons {\""@ + DENY@ + "\", \""@ + TEMP@ + "\", \""@ + ALLOW@
        + "\"} default button \""@ + DENY@ + "\" giving up after "@ + decimal(timeout_secs as nat)
}

impl Backend {
    pub open spec fn spec_program(self) -> Seq<char> {
        match self {
            Backend::Zenity => "zenity"@,
            Backend::Kdialog => "kdialog"@,
            Backend::Osascript => "osascript"@,
        }
    }

    /// Arguments showing a text for at most some seconds.
    pub open spec fn spec_args(self, text: Seq<char>, timeout_secs: u64) -> Seq<Seq<char>> {
        match self {
            Backend::Zenity => seq![
                "--question"@,
                "--title"@,
                TITLE@,
                "--text"@,
                text,
                "--no-markup"@,
                "--switch"@,
                "--extra-button"@,
                DENY@,
                "--extra-button"@,
                TEMP@,
                "--extra-button"@,
                ALLOW@,
                "--timeout"@,
                decimal(timeout_secs as nat),
            ],
            Backend::Kdialog => seq![
                "--title"@,
                TITLE@,
                "--menu"@,
                text,
                "allow"@,
                ALLOW@,
                "temp"@,
                TEMP@,
                "deny"@,
                DENY@,
            ],
            Backend::Osascript => seq!["-e"@, dialog_script(text, timeout_secs)],
        }
    }

    /// The answer in a finished dialog's output.
    pub open spec fn answer(self, success: bool, stdout: Seq<char>) -> Outcome {
        let out = trim(stdout);
        match self {
            Backend::Zenity => label_of(out),
            Backend::Kdialog => if !success {
                Outcome::Dismissed
            } else if out == "allow"@ {
                Outcome::Allow
            } else if out == "temp"@ {
                Outcome::Temp
            } else if out == "deny"@ {
                Outcome::Deny
            } else {
                Outcome::Dismissed
            },
            Backend::Osascript => if find(out, "gave up:true"@) is Some {
                Outcome::Dismissed
            } else {
                match find(out, "button returned:"@) {
                    None => Outcome::Dismissed,
                    Some(at) => {
                        let rest = after(out, at + "button returned:"@.len());
                        label_of(
                            trim(
                                match first_index(rest, ',', 0) {
                                    Some(comma) => before(rest, comma),
                                    None => rest,
                                },
                            ),
                        )
                    },
                }
            },
        }
    }

    pub fn program(self) -> (r: &'static str)
        ensures
            r@ == self.spec_program(),
    {
        match self {
            Backend::Zenity => "zenity",
            Backend::Kdialog => "kdialog",
            Backend::Osascript => "osascript",
        }
    }

    /// Arguments showing `text` for at most `timeout_secs`.
    pub fn args(self, text: &str, timeout_secs: u64) -> (r: Vec<String>)
        ensures
            views(r@) == self.spec_args(text@, timeout_secs),
    {
        let mut r: Vec<String> = Vec::new();
        match self {
            Backend::Zenity => {
                r.push("--question".to_owned());
                r.push("--title".to_owned());
                r.push(TITLE.to_owned());
                r.push("--text".to_owned());
                r.push(text.to_owned());
                r.push("--no-markup".to_owned());
                r.push("--switch".to_owned());
                r.push("--extra-button".to_owned());
                r.push(DENY.to_owned());
                r.push("--extra-button".to_owned());
                r.push(TEMP.to_owned());
                r.push("--extra-button".to_owned());
                r.push(ALLOW.to_owned());
                r.push("--timeout".to_owned());
                r.push(decimal_string(timeout_secs));
            },
            // kdialog has no timeout; the queue closes the dialog at the deadline.
            // A menu, unlike --yesnocancel, lets closing the window mean nothing.
            Backend::Kdialog => {
                r.push("--title".to_owned());
                r.push(TITLE.to_owned());
                r.push("--menu".to_owned());
                r.push(text.to_owned());
                r.push("allow".to_owned());
                r.push(ALLOW.to_owned());
                r.push("temp".to_owned());
                r.push(TEMP.to_owned());
                r.push("deny".to_owned());
                r.push(DENY.to_owned());
            },
            Backend::Osascript => {
                let shown = applescript_escape(text);
                let title = applescript_escape(TITLE);
                let mut script = concat3(
                    "display dialog \"",
                    shown.as_str(),
                    "\" with title \"",
                );
                script.push_str(title.as_str());
                script.push_str("\" buttons {\"");
                script.push_str(DENY);
                script.push_str("\", \"");
                script.push_str(TEMP);
                script.push_str("\", \"");
                script.push_str(ALLOW);
                script.push_str("\"} default button \"");
                script.push_str(DENY);
                script.push_str("\" giving up after ");
                push_decimal(&mut script, timeout_secs);
                r.push("-e".to_owned());
                r.push(script);
            },
        }
        assert(views(r@) =~= self.spec_args(text@, timeout_secs));
        r
    }

    /// The answer in a finished dialog's output.
    pub fn parse(self, success: bool, stdout: &str) -> (r: Outcome)
        ensures
            r == self.answer(success, stdout@),
    {
        let out = trimmed(stdout);
        match self {
            Backend::Zenity => label_outcome(out.as_str()),
            Backend::Kdialog => if !success {
                Outcome::Dismissed
            } else if same(out.as_str(), "allow") {
                Outcome::Allow
            } else if same(out.as_str(), "temp") {
                Outcome::Temp
            } else if same(out.as_str(), "deny") {
                Outcome::Deny
            } else {
                Outcome::Dismissed
            },
            Backend::Osascript => {
                if contains_text(out.as_str(), "gave up:true") {
                    return Outcome::Dismissed;
                }
                let v = chars(out.as_str());
                match find_text(&v, "button returned:") {
                    None => Outcome::Dismissed,
                    Some(at) => {
                        let end: usize = v.len();
                        let from: usize = at + "button returned:".unicode_len();
                        let text = string_of(&v, from, end);
                        let rest = chars(text.as_str());
                        let end: usize = match find_first(&rest, ',') {
                            Some(comma) => comma,
                            None => rest.len(),
                        };
                        let label = string_of(&rest, 0, end);
                        assert(text@ =~= after(out@, from as int));
                        assert(label@ =~= match first_index(text@, ',', 0) {
                            Some(comma) => before(text@, comma),
                            None => text@,
                        });
                        let label = trimmed(label.as_str());
                        label_outcome(label.as_str())
                    },
                }
            },
        }
    }
}

/// What a button means.
pub open spec fn label_of(label: Seq<char>) -> Outcome {
    if label == ALLOW@ {
        Outcome::Allow
    } else if label == TEMP@ {
        Outcome::Temp
    } else if label == DENY@ {
        Outcome::Deny
    } else {
        Outcome::Dismissed
    }
}

fn label_outcome(label: &str) -> (r: Outcome)
    ensures
        r == label_of(label@),
{
    if same(label, ALLOW) {
        Outcome::Allow
    } else if same(label, TEMP) {
        Outcome::Temp
    } else if same(label, DENY) {
        Outcome::Deny
    } else {
        Outcome::Dismissed
    }
}

// ---------------------------------------------------------------------------
// Choosing a backend
// ---------------------------------------------------------------------------

/// What the host offers for dialogs.
#[derive(Debug, Clone, Copy, PartialEq, Eq, Structural)]
pub struct Host {
    pub macos: bool,
    /// `DISPLAY` or `WAYLAND_DISPLAY` is set.
    pub display: bool,
    /// The programs on `PATH`.
    pub zenity: bool,
    pub kdialog: bool,
    pub osascript: bool,
}

impl Host {
    pub open spec fn has(self, backend: Backend) -> bool {
        match backend {
            Backend::Zenity => self.zenity,
            Backend::Kdialog => self.kdialog,
            Backend::Osascript => self.osascript,
        }
    }

    fn offers(&self, backend: Backend) -> (r: bool)
        ensures
            r == self.has(backend),
    {
        match backend {
            Backend::Zenity => self.zenity,
            Backend::Kdialog => self.kdialog,
            Backend::Osascript => self.osascript,
        }
    }
}

/// A backend that is asked for by name.
pub open spec fn wanted(setting: DialogSetting) -> Option<Backend> {
    match setting {
        DialogSetting::Zenity => Some(Backend::Zenity),
        DialogSetting::Kdialog => Some(Backend::Kdialog),
        DialogSetting::Osascript => Some(Backend::Osascript),
        DialogSetting::Auto => None,
        DialogSetting::Disabled => None,
    }
}

/// The dialog backend to use, if any.
pub open spec fn detected(setting: DialogSetting, host: Host) -> Option<Backend> {
    if setting == DialogSetting::Disabled {
        None
    } else {
        match wanted(setting) {
            Some(backend) => if host.has(backend) {
                Some(backend)
            } else {
                None
            },
            None => if host.macos {
                if host.osascript {
                    Some(Backend::Osascript)
                } else {
                    None
                }
            } else if !host.display {
                None
            } else if host.zenity {
                Some(Backend::Zenity)
            } else if host.kdialog {
                Some(Backend::Kdialog)
            } else {
                None
            },
        }
    }
}

/// The dialog backend to use, if any. `auto` picks osascript on macOS and,
/// with a display, zenity or kdialog elsewhere.
pub fn detect(setting: DialogSetting, host: &Host) -> (r: Option<Backend>)
    ensures
        r == detected(setting, *host),
{
    let wanted = match setting {
        DialogSetting::Disabled => {
            return None;
        },
        DialogSetting::Zenity => Some(Backend::Zenity),
        DialogSetting::Kdialog => Some(Backend::Kdialog),
        DialogSetting::Osascript => Some(Backend::Osascript),
        DialogSetting::Auto => None,
    };
    if let Some(backend) = wanted {
        if host.offers(backend) {
            return Some(backend);
        }
        return None;
    }
    if host.macos {
        return if host.osascript {
            Some(Backend::Osascript)
        } else {
            None
        };
    }
    if !host.display {
        None
    } else if host.zenity {
        Some(Backend::Zenity)
    } else if host.kdialog {
        Some(Backend::Kdialog)
    } else {
        None
    }
}

// ---------------------------------------------------------------------------
// Texts
// ---------------------------------------------------------------------------

pub open spec fn transport_text(transport: Transport) -> Seq<char> {
    match transport {
        Transport::Tcp => "TCP"@,
        Transport::Udp => "UDP"@,
    }
}

/// The lines on what the sandbox resolved.
pub open spec fn resolved_lines(names: Seq<Seq<char>>) -> Seq<char> {
    if names.len() == 0 {
        "Resolved as:  \u{26a0} this sandbox never resolved this address\n"@
    } else if names.len() == 1 {
        "Resolved as:  "@ + names[0] + "\n"@
    } else {
        "Resolved as:  "@ + names[0] + "\n"@ + "              also seen as: "@ + join(
            names.subrange(1, names.len() as int),
            ", "@,
        ) + "\n"@
    }
}

/// The dialog body.
pub open spec fn body(info: PromptView, origin: Option<OriginView>) -> Seq<char> {
    let head = "Sandbox:      "@ + info.sandbox + "\n"@ + "Destination:  "@ + ip_text(info.address)
        + " : "@ + decimal(info.port as nat) + "  ("@ + transport_text(info.transport) + ")\n"@
        + resolved_lines(info.names);
    trim_end(
        match origin {
            Some(origin) => head + "Process:      "@ + origin.text() + "\n"@,
            None => head,
        },
    )
}

fn push_resolved(text: &mut String, names: &Vec<String>)
    ensures
        final(text)@ == old(text)@ + resolved_lines(views(names@)),
{
    let ghost nv = views(names@);
    let ghost start = text@;
    if names.len() == 0 {
        text.push_str("Resolved as:  \u{26a0} this sandbox never resolved this address\n");
        return;
    }
    text.push_str("Resolved as:  ");
    text.push_str(names[0].as_str());
    text.push_str("\n");
    if names.len() > 1 {
        let mut all = crate::broker::bindings::clone_names(names);
        assert(views(all@).len() == all@.len());
        let rest = all.split_off(1);
        assert(views(rest@) =~= nv.subrange(1, nv.len() as int));
        let others = join_with(&rest, ", ");
        text.push_str("              also seen as: ");
        text.push_str(others.as_str());
        text.push_str("\n");
    }
    assert(text@ =~= start + resolved_lines(nv));
}

/// The dialog body. A never-resolved address is called out rather than left as
/// an empty field.
pub fn render(info: &PromptInfo, origin: Option<&Origin>) -> (r: String)
    ensures
        r@ == body(
            info@,
            match origin {
                Some(origin) => Some(origin@),
                None => None,
            },
        ),
{
    let mut text = concat3("Sandbox:      ", info.sandbox.as_str(), "\n");
    text.push_str("Destination:  ");
    let address = info.address.text();
    text.push_str(address.as_str());
    text.push_str(" : ");
    push_decimal(&mut text, info.port as u64);
    text.push_str("  (");
    text.push_str(
        match info.transport {
            Transport::Tcp => "TCP",
            Transport::Udp => "UDP",
        },
    );
    text.push_str(")\n");
    push_resolved(&mut text, &info.names);
    if let Some(origin) = origin {
        text.push_str("Process:      ");
        let process = origin.to_text();
        text.push_str(process.as_str());
        text.push_str("\n");
    }
    trimmed_end(text.as_str())
}

/// The command of a one-off notice.
pub open spec fn notice_command(
    backend: Backend,
    message: Seq<char>,
    notify_send: bool,
) -> (Seq<char>, Seq<Seq<char>>) {
    match backend {
        Backend::Osascript => (
            "osascript"@,
            seq![
                "-e"@,
                "display notification \""@ + escaped(message) + "\" with title \"microkitchen\""@,
            ],
        ),
        _ => if notify_send {
            ("notify-send"@, seq!["microkitchen"@, message])
        } else if backend == Backend::Zenity {
            ("zenity"@, seq!["--notification"@, "--text"@, message])
        } else {
            ("kdialog"@, seq!["--passivepopup"@, message, "10"@])
        },
    }
}

impl Desktop {
    /// The program and the arguments of a one-off notice (e.g. a tripped rate
    /// limit); `notify_send` says whether that program is on `PATH`.
    pub fn notice(&self, message: &str, notify_send: bool) -> (r: (&'static str, Vec<String>))
        ensures
            r.0@ == notice_command(self.backend, message@, notify_send).0,
            views(r.1@) == notice_command(self.backend, message@, notify_send).1,
    {
        let mut args: Vec<String> = Vec::new();
        let program = match self.backend {
            Backend::Osascript => {
                let shown = applescript_escape(message);
                args.push("-e".to_owned());
                args.push(
                    concat3(
                        "display notification \"",
                        shown.as_str(),
                        "\" with title \"microkitchen\"",
                    ),
                );
                "osascript"
            },
            _ => if notify_send {
                args.push("microkitchen".to_owned());
                args.push(message.to_owned());
                "notify-send"
            } else if self.backend == Backend::Zenity {
                args.push("--notification".to_owned());
                args.push("--text".to_owned());
                args.push(message.to_owned());
                "zenity"
            } else {
                args.push("--passivepopup".to_owned());
                args.push(message.to_owned());
                args.push("10".to_owned());
                "kdialog"
            },
        };
        assert(views(args@) =~= notice_command(self.backend, message@, notify_send).1);
        (program, args)
    }
}

// ---------------------------------------------------------------------------
// Laws
// ---------------------------------------------------------------------------

/// An answer is what its button says, whatever white space stands around it; anything
/// else dismisses the request.
pub proof fn law_buttons_answer(text: Seq<char>, success: bool)
    ensures
        label_of("Allow"@) == Outcome::Allow,
        label_of("Allow 5 min"@) == Outcome::Temp,
        label_of("Deny"@) == Outcome::Deny,
        text != "Allow"@ && text != "Allow 5 min"@ && text != "Deny"@ ==> label_of(text)
            == Outcome::Dismissed,
        Backend::Zenity.answer(success, text) == label_of(trim(text)),
        Backend::Kdialog.answer(false, text) == Outcome::Dismissed,
        trim(text) == "allow"@ ==> Backend::Kdialog.answer(true, text) == Outcome::Allow,
        trim(text) == "temp"@ ==> Backend::Kdialog.answer(true, text) == Outcome::Temp,
        trim(text) == "deny"@ ==> Backend::Kdialog.answer(true, text) == Outcome::Deny,
        trim(text) != "allow"@ && trim(text) != "temp"@ && trim(text) != "deny"@
            ==> Backend::Kdialog.answer(true, text) == Outcome::Dismissed,
        find(trim(text), "gave up:true"@) is Some || find(trim(text), "button returned:"@) is None
            ==> Backend::Osascript.answer(success, text) == Outcome::Dismissed,
{
    reveal_strlit("Allow");
    reveal_strlit("Allow 5 min");
    reveal_strlit("Deny");
    reveal_strlit("allow");
    reveal_strlit("temp");
    reveal_strlit("deny");
    assert("Allow"@.len() == 5 && "Allow 5 min"@.len() == 11 && "Deny"@.len() == 4);
    assert("allow"@[0] == 'a' && "temp"@[0] == 't' && "deny"@[0] == 'd');
}

/// What AppleScript says of the button is read up to the next comma.
pub proof fn law_scripts_tell_the_button(out: Seq<char>, label: Seq<char>, rest: Seq<char>)
    requires
        trim(out) == "button returned:"@ + label + seq![','] + rest,
        !label.contains(','),
        find(trim(out), "gave up:true"@) is None,
    ensures
        Backend::Osascript.answer(true, out) == label_of(trim(label)),
{
    let text = trim(out);
    let word = "button returned:"@;
    let n = word.len() as int;
    assert(text.subrange(0, n) =~= word);
    crate::text::law_finding_gives_the_first_place(text, word, 0);
    let tail = after(text, n);
    assert(tail =~= label + seq![','] + rest);
    assert forall|j: int| 0 <= j < label.len() implies #[trigger] tail[j] != ',' by {
        assert(label[j] == tail[j]);
        assert(label.contains(label[j]));
    }
    crate::text::law_places_of_a_character(tail, ',', 0, label.len() as int);
    assert(before(tail, label.len() as int) =~= label);
}

/// Which dialog is used: the one that is asked for, if the host has it; on its own
/// AppleScript on a Mac, and elsewhere, with a display, zenity before kdialog; and none
/// where none is wanted.
pub proof fn law_dialogs_are_those_of_the_host(setting: DialogSetting, host: Host)
    ensures
        detected(DialogSetting::Disabled, host) is None,
        detected(DialogSetting::Zenity, host) == if host.zenity {
            Some(Backend::Zenity)
        } else {
            None
        },
        detected(DialogSetting::Kdialog, host) == if host.kdialog {
            Some(Backend::Kdialog)
        } else {
            None
        },
        detected(DialogSetting::Osascript, host) == if host.osascript {
            Some(Backend::Osascript)
        } else {
            None
        },
        detected(DialogSetting::Auto, host) == Some(Backend::Osascript) <==> host.macos
            && host.osascript,
        detected(DialogSetting::Auto, host) == Some(Backend::Zenity) <==> !host.macos
            && host.display && host.zenity,
        detected(DialogSetting::Auto, host) == Some(Backend::Kdialog) <==> !host.macos
            && host.display && !host.zenity && host.kdialog,
        detected(setting, host) matches Some(backend) ==> host.has(backend),
{
}

/// A text in a script has a backslash before each backslash and each quote.
pub proof fn law_script_texts_are_escaped(text: Seq<char>)
    ensures
        escaped(text) == text.flat_map(
            |c: char|
                if c == '"' || c == '\\' {
                    seq!['\\', c]
                } else {
                    seq![c]
                },
        ),
{
    reveal_strlit("\\\\");
    reveal_strlit("\\\"");
    assert("\\\\"@ =~= seq!['\\', '\\']);
    assert("\\\""@ =~= seq!['\\', '"']);
    lemma_escaped_twice(text);
}

proof fn lemma_escaped_twice(text: Seq<char>)
    ensures
        replaced(replaced(text, '\\', seq!['\\', '\\']), '"', seq!['\\', '"']) == text.flat_map(
            |c: char|
                if c == '"' || c == '\\' {
                    seq!['\\', c]
                } else {
                    seq![c]
                },
        ),
    decreases text.len(),
{
    let f = |c: char|
        if c == '"' || c == '\\' {
            seq!['\\', c]
        } else {
            seq![c]
        };
    crate::maps::lemma_flat_map_step(text, f);
    if text.len() > 0 {
        let rest = text.drop_last();
        let c = text.last();
        lemma_escaped_twice(rest);
        let once = replaced(rest, '\\', seq!['\\', '\\']);
        let two = seq!['\\', '"'];
        if c == '\\' {
            let all = once + seq!['\\', '\\'];
            assert(all.drop_last() =~= once.push('\\'));
            assert(once.push('\\').drop_last() =~= once);
            assert(once.push('\\').last() == '\\' && all.last() == '\\');
            assert(replaced(once.push('\\'), '"', two) == replaced(once, '"', two).push('\\'));
            assert(replaced(all, '"', two) == replaced(once.push('\\'), '"', two).push('\\'));
            assert(replaced(all, '"', two) =~= replaced(once, '"', two) + seq!['\\', '\\']);
        } else {
            let all = once.push(c);
            assert(all.drop_last() =~= once);
            assert(replaced(all, '"', two) =~= replaced(once, '"', two) + f(c));
        }
    }
}

/// A dialog names the sandbox, the destination, what it was resolved as and, where it is
/// known, the process.
pub proof fn law_dialogs_tell_what_is_asked(info: PromptView, origin: Option<OriginView>)
    ensures
        body(info, origin) == trim_end(
            "Sandbox:      "@ + info.sandbox + "\n"@ + "Destination:  "@ + ip_text(info.address)
                + " : "@ + decimal(info.port as nat) + "  ("@ + (if info.transport
                == Transport::Udp {
                "UDP"@
            } else {
                "TCP"@
            }) + ")\n"@ + resolved_lines(info.names) + match origin {
                Some(origin) => "Process:      "@ + origin.text() + "\n"@,
                None => Seq::empty(),
            },
        ),
        info.names.len() == 0 ==> resolved_lines(info.names)
            == "Resolved as:  \u{26a0} this sandbox never resolved this address\n"@,
        info.names.len() == 1 ==> resolved_lines(info.names) == "Resolved as:  "@ + info.names[0]
            + "\n"@,
        info.names.len() > 1 ==> resolved_lines(info.names) == "Resolved as:  "@ + info.names[0]
            + "\n"@ + "              also seen as: "@ + join(info.names.drop_first(), ", "@)
            + "\n"@,
{
    let head = "Sandbox:      "@ + info.sandbox + "\n"@ + "Destination:  "@ + ip_text(info.address)
        + " : "@ + decimal(info.port as nat) + "  ("@ + (if info.transport == Transport::Udp {
        "UDP"@
    } else {
        "TCP"@
    }) + ")\n"@ + resolved_lines(info.names);
    match origin {
        Some(origin) => {
            assert(head + "Process:      "@ + origin.text() + "\n"@ =~= head + ("Process:      "@
                + origin.text() + "\n"@));
        },
        None => {
            assert(head + Seq::<char>::empty() =~= head);
        },
    }
    if info.names.len() > 1 {
        assert(info.names.drop_first() =~= info.names.subrange(1, info.names.len() as int));
    }
}

} // verus!
