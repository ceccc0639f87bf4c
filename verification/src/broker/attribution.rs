//! Which guest process opened a flow.
//!
//! Display only: the origin is shown to the operator and written to the audit
//! log. It never reaches the decision engine, whose input
//! ([`super::decision::Admission`]) has no field for it, because the guest
//! could present whatever process table it likes.

use vstd::prelude::*;

use crate::broker::protocol::Transport;
use crate::ip::{ip_text, IpAddr};
use crate::text::{
    chars, decimal, decimal_string, is_alphanumeric, is_alphanumeric_char, push_decimal, same,
    trim, trimmed, views,
};
use crate::time::Duration;

verus! {

/// The helper's name in the guest (`/.msb/scripts`, on `PATH`).
pub const SCRIPT_NAME: &'static str = "mk-whodial";

/// A lookup never holds up the prompt longer than this.
pub const DEADLINE: Duration = 1_000_000_000;

pub const MAX_NAME: usize = 64;

#[derive(Debug, PartialEq, Eq)]
pub struct Origin {
    pub pid: u32,
    /// The process's short name (`comm`), never its command line.
    pub name: String,
}

/// An [`Origin`] by its contents.
#[verifier::ext_equal]
pub struct OriginView {
    pub pid: u32,
    pub name: Seq<char>,
}

impl View for Origin {
    type V = OriginView;

    open spec fn view(&self) -> OriginView {
        OriginView { pid: self.pid, name: self.name@ }
    }
}

impl Clone for Origin {
    fn clone(&self) -> (r: Self)
        ensures
            r@ == self@,
    {
        Origin { pid: self.pid, name: self.name.clone() }
    }
}

/// A field of the helper's report.
pub enum Field {
    Flag(bool),
    Number(Option<u64>),
    Text(String),
    Other,
}

/// A [`Field`] by its contents.
pub enum FieldView {
    Flag(bool),
    Number(Option<u64>),
    Text(Seq<char>),
    Other,
}

impl View for Field {
    type V = FieldView;

    open spec fn view(&self) -> FieldView {
        match self {
            Field::Flag(flag) => FieldView::Flag(*flag),
            Field::Number(number) => FieldView::Number(*number),
            Field::Text(text) => FieldView::Text(text@),
            Field::Other => FieldView::Other,
        }
    }
}

pub open spec fn field_views(fields: Seq<(String, Field)>) -> Seq<(Seq<char>, FieldView)> {
    Seq::new(fields.len(), |i: int| (fields[i].0@, fields[i].1@))
}

/// The members of the JSON object that a text writes, as `serde_json` reads it.
pub uninterp spec fn json_fields(text: Seq<char>) -> Option<Seq<(Seq<char>, FieldView)>>;

/// `serde_json::from_str` into a `serde_json::Value`: the members of the object
/// that `text` writes, or `None` where it writes no object. A number is given
/// where it is an unsigned integer. Which texts are JSON is left to the crate.
#[verifier::external_body]
fn read_json(text: &str) -> (r: Option<Vec<(String, Field)>>)
    ensures
        match r {
            Some(fields) => json_fields(text@) == Some(field_views(fields@)),
            None => json_fields(text@) is None,
        },
{
    let value: serde_json::Value = serde_json::from_str(text).ok()?;
    let serde_json::Value::Object(members) = value else { return None };
    let plain = members.into_iter().map(|(key, value)| match value {
        serde_json::Value::Bool(flag) => (key, Field::Flag(flag)),
        serde_json::Value::Number(number) => (key, Field::Number(number.as_u64())),
        serde_json::Value::String(text) => (key, Field::Text(text)),
        _ => (key, Field::Other),
    });
    Some(plain.collect())
}

/// A short process name: 1 to 64 letters, digits and `._+-?`.
pub open spec fn safe_name(name: Seq<char>) -> bool {
    &&& 1 <= name.len() <= MAX_NAME
    &&& forall|i: int| 0 <= i < name.len() ==> safe_char(#[trigger] name[i])
}

pub open spec fn safe_char(c: char) -> bool {
    is_alphanumeric(c) || c == '.' || c == '_' || c == '+' || c == '-' || c == '?'
}

pub open spec fn field(fields: Seq<(Seq<char>, FieldView)>, name: Seq<char>) -> Option<FieldView>
    decreases fields.len(),
{
    if fields.len() == 0 {
        None
    } else if fields.last().0 == name {
        Some(fields.last().1)
    } else {
        field(fields.drop_last(), name)
    }
}

/// The process that a report names: nothing but the three known members, of
/// which `found` is true, `pid` a positive 32-bit number and `name` a safe one.
pub open spec fn origin_of(fields: Seq<(Seq<char>, FieldView)>) -> Option<OriginView> {
    if exists|i: int|
        0 <= i < fields.len() && (#[trigger] fields[i]).0 != "found"@ && fields[i].0 != "pid"@
            && fields[i].0 != "name"@ {
        None
    } else {
        match (field(fields, "found"@), field(fields, "pid"@), field(fields, "name"@)) {
            (
                Some(FieldView::Flag(true)),
                Some(FieldView::Number(Some(pid))),
                Some(FieldView::Text(name)),
            ) => if 0 < pid <= u32::MAX && safe_name(name) {
                Some(OriginView { pid: pid as u32, name })
            } else {
                None
            },
            _ => None,
        }
    }
}

/// How often a character stands in a text.
pub open spec fn occurrences(text: Seq<char>, c: char) -> nat
    decreases text.len(),
{
    if text.len() == 0 {
        0
    } else {
        occurrences(text.drop_last(), c) + if text.last() == c {
            1nat
        } else {
            0
        }
    }
}

/// The process that a report's text names. Each member stands once: no string
/// of a good report holds a comma, so commas stand between members only, and
/// where one is repeated there are more of them than there are names.
pub open spec fn reported(text: Seq<char>) -> Option<OriginView> {
    match json_fields(text) {
        Some(fields) => if occurrences(text, ',') + 1 == fields.len() {
            origin_of(fields)
        } else {
            None
        },
        None => None,
    }
}

/// Whether an outcome is the one that the model gives.
pub open spec fn is_origin(r: Option<Origin>, expected: Option<OriginView>) -> bool {
    match r {
        Some(origin) => expected == Some(origin@),
        None => expected is None,
    }
}

fn is_safe(name: &str) -> (r: bool)
    ensures
        r == safe_name(name@),
{
    let v = chars(name);
    if v.len() == 0 || v.len() > MAX_NAME {
        return false;
    }
    let mut i: usize = 0;
    while i < v.len()
        invariant
            i <= v@.len(),
            v@ == name@,
            forall|j: int| 0 <= j < i ==> safe_char(#[trigger] v@[j]),
        decreases v@.len() - i,
    {
        let c = v[i];
        if !(is_alphanumeric_char(c) || c == '.' || c == '_' || c == '+' || c == '-' || c == '?') {
            assert(!safe_char(v@[i as int]));
            return false;
        }
        i += 1;
    }
    true
}

fn get_field<'a>(fields: &'a Vec<(String, Field)>, name: &str) -> (r: Option<&'a Field>)
    ensures
        match r {
            Some(found) => field(field_views(fields@), name@) == Some(found@),
            None => field(field_views(fields@), name@) is None,
        },
{
    let ghost fv = field_views(fields@);
    let mut n: usize = fields.len();
    assert(fv.subrange(0, n as int) =~= fv);
    while n > 0
        invariant
            n <= fields@.len(),
            fv == field_views(fields@),
            field(fv.subrange(0, n as int), name@) == field(fv, name@),
        decreases n,
    {
        assert(fv.subrange(0, n as int).drop_last() =~= fv.subrange(0, n - 1));
        if same(fields[n - 1].0.as_str(), name) {
            return Some(&fields[n - 1].1);
        }
        n -= 1;
    }
    None
}

/// The process that a report's members name.
pub fn check_report(fields: &Vec<(String, Field)>) -> (r: Option<Origin>)
    ensures
        is_origin(r, origin_of(field_views(fields@))),
{
    let ghost fv = field_views(fields@);
    let mut i: usize = 0;
    while i < fields.len()
        invariant
            i <= fields@.len(),
            fv == field_views(fields@),
            forall|j: int|
                0 <= j < i ==> (#[trigger] fv[j]).0 == "found"@ || fv[j].0 == "pid"@ || fv[j].0
                    == "name"@,
        decreases fields@.len() - i,
    {
        let key = fields[i].0.as_str();
        if !(same(key, "found") || same(key, "pid") || same(key, "name")) {
            assert(fv[i as int].0 == key@);
            return None;
        }
        i += 1;
    }
    let found = match get_field(fields, "found") {
        Some(Field::Flag(found)) => *found,
        _ => {
            return None;
        },
    };
    if !found {
        return None;
    }
    let pid: u64 = match get_field(fields, "pid") {
        Some(Field::Number(Some(pid))) => *pid,
        _ => {
            return None;
        },
    };
    let name = match get_field(fields, "name") {
        Some(Field::Text(name)) => name,
        _ => {
            return None;
        },
    };
    if pid > 0 && pid <= u32::MAX as u64 && is_safe(name.as_str()) {
        Some(Origin { pid: pid as u32, name: name.clone() })
    } else {
        None
    }
}

/// Parse the helper's output strictly; anything unexpected is "not found".
pub fn parse(output: &str) -> (r: Option<Origin>)
    ensures
        is_origin(r, reported(trim(output@))),
        r matches Some(origin) ==> origin@.pid > 0 && safe_name(origin@.name),
{
    let text = trimmed(output);
    match read_json(text.as_str()) {
        Some(fields) => {
            let commas = count_of(text.as_str(), ',');
            if fields.len() > 0 && commas == fields.len() - 1 {
                check_report(&fields)
            } else {
                None
            }
        },
        None => None,
    }
}

fn count_of(text: &str, c: char) -> (r: usize)
    ensures
        r == occurrences(text@, c),
{
    let v = chars(text);
    let mut n: usize = 0;
    let mut i: usize = 0;
    assert(v@.subrange(0, 0) =~= Seq::empty());
    while i < v.len()
        invariant
            i <= v@.len(),
            n <= i,
            n == occurrences(v@.subrange(0, i as int), c),
        decreases v@.len() - i,
    {
        assert(v@.subrange(0, i + 1).drop_last() =~= v@.subrange(0, i as int));
        if v[i] == c {
            n += 1;
        }
        i += 1;
    }
    assert(v@.subrange(0, v@.len() as int) =~= v@);
    n
}

/// What the helper is asked: the transport, the canonical address, the port.
pub fn lookup_args(transport: Transport, address: IpAddr, port: u16) -> (r: Vec<String>)
    ensures
        views(r@) == seq![
            match transport {
                Transport::Tcp => "tcp"@,
                Transport::Udp => "udp"@,
            },
            ip_text(address.canonical()),
            decimal(port as nat),
        ],
{
    let mut r: Vec<String> = Vec::new();
    r.push(
        match transport {
            Transport::Tcp => "tcp".to_owned(),
            Transport::Udp => "udp".to_owned(),
        },
    );
    r.push(address.to_canonical().text());
    r.push(decimal_string(port as u64));
    assert(views(r@) =~= seq![
        match transport {
            Transport::Tcp => "tcp"@,
            Transport::Udp => "udp"@,
        },
        ip_text(address.canonical()),
        decimal(port as nat),
    ]);
    r
}

impl OriginView {
    pub open spec fn text(self) -> Seq<char> {
        "pid "@ + decimal(self.pid as nat) + " ("@ + self.name + ")"@
    }
}

impl Origin {
    pub fn to_text(&self) -> (r: String)
        ensures
            r@ == self@.text(),
    {
        let mut r = "pid ".to_owned();
        push_decimal(&mut r, self.pid as u64);
        r.push_str(" (");
        r.push_str(self.name.as_str());
        r.push_str(")");
        r
    }
}

// ---------------------------------------------------------------------------
// Laws
// ---------------------------------------------------------------------------

/// A report is taken where it says that something was found, with a pid and a name that
/// may be shown, and says nothing else; the last field of a name counts.
pub proof fn law_reports_say_pid_and_name(fields: Seq<(Seq<char>, FieldView)>)
    ensures
        origin_of(fields) matches Some(origin) ==> {
            &&& field(fields, "found"@) == Some(FieldView::Flag(true))
            &&& field(fields, "pid"@) matches Some(FieldView::Number(Some(pid))) && origin.pid
                == pid && pid > 0
            &&& field(fields, "name"@) == Some(FieldView::Text(origin.name))
            &&& 0 < origin.name.len() && forall|i: int|
                0 <= i < origin.name.len() ==> ('a' <= #[trigger] origin.name[i] <= 'z' || 'A'
                    <= origin.name[i] <= 'Z' || '0' <= origin.name[i] <= '9' || origin.name[i]
                    == '.' || origin.name[i] == '_' || origin.name[i] == '+' || origin.name[i]
                    == '-' || origin.name[i] == '?')
            &&& forall|i: int|
                0 <= i < fields.len() ==> ((#[trigger] fields[i]).0 == "found"@ || fields[i].0
                    == "pid"@ || fields[i].0 == "name"@)
        },
{
    if let Some(origin) = origin_of(fields) {
        assert(safe_name(origin.name));
        assert forall|i: int| 0 <= i < origin.name.len() implies ('a' <= #[trigger] origin.name[i]
            <= 'z' || 'A' <= origin.name[i] <= 'Z' || '0' <= origin.name[i] <= '9'
            || origin.name[i] == '.' || origin.name[i] == '_' || origin.name[i] == '+'
            || origin.name[i] == '-' || origin.name[i] == '?') by {
            assert(safe_char(origin.name[i]));
        }
    }
}

/// A report that says these three things and no others is taken as it is.
pub proof fn law_good_reports_are_taken(pid: u32, name: Seq<char>)
    requires
        pid > 0,
        safe_name(name),
    ensures
        origin_of(
            seq![
                ("found"@, FieldView::Flag(true)),
                ("pid"@, FieldView::Number(Some(pid as u64))),
                ("name"@, FieldView::Text(name)),
            ],
        ) == Some(OriginView { pid, name }),
        origin_of(
            seq![
                ("found"@, FieldView::Flag(false)),
                ("pid"@, FieldView::Number(Some(pid as u64))),
                ("name"@, FieldView::Text(name)),
            ],
        ) is None,
{
    reveal_strlit("found");
    reveal_strlit("pid");
    reveal_strlit("name");
    assert("found"@.len() == 5 && "pid"@.len() == 3 && "name"@.len() == 4);
    reveal_with_fuel(field, 4);
    let yes = seq![
        ("found"@, FieldView::Flag(true)),
        ("pid"@, FieldView::Number(Some(pid as u64))),
        ("name"@, FieldView::Text(name)),
    ];
    let no = seq![
        ("found"@, FieldView::Flag(false)),
        ("pid"@, FieldView::Number(Some(pid as u64))),
        ("name"@, FieldView::Text(name)),
    ];
    assert(yes.drop_last().drop_last() =~= seq![yes[0]]);
    assert(no.drop_last().drop_last() =~= seq![no[0]]);
    assert(yes.drop_last() =~= seq![yes[0], yes[1]]);
    assert(no.drop_last() =~= seq![no[0], no[1]]);
}

} // verus!
