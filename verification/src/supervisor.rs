//! The process supervisor's decisions: the bounded-retry start state
//! machine with token-checked health confirmation, the shared child/port
//! state, the configuration push to the running child, and the shutdown
//! checks. Spawning, HTTP polling, timers and signals live outside the
//! library; they feed events in and carry the decided actions out.

use crate::buffer::{spec_trim_end, spec_trim_start};
use crate::credentials::CredentialStore;
use crate::diagnostics::{spec_find, lemma_find_is_first, spec_is_addr_in_use, is_addr_in_use_error};
use crate::json::{
    field_pairs_view, parse_flat_object, spec_config_update_json, spec_flat_json, spec_strip_ws,
    strip_json_ws, FieldEntry, FieldPair,
};
use crate::text::{
    chars_to_string, i64_to_decimal, spec_decimal, spec_decimal_int, str_eq, str_to_chars,
    u128_to_decimal,
};
use vstd::prelude::*;

verus! {

/// The well-known port tried on the mandatory first attempt.
pub const PREFERRED_SIDECAR_PORT: u16 = 3737;

/// How many spawn attempts a start may make.
pub const SIDECAR_START_MAX_ATTEMPTS: u8 = 3;

/// Overall budget for one attempt's health polling.
pub const SIDECAR_HEALTH_CHECK_TIMEOUT_MS: u64 = 10_000;

/// Pause between two health polls.
pub const SIDECAR_HEALTH_CHECK_INTERVAL_MS: u64 = 200;

/// Overall budget for waiting until some start records a port.
pub const SIDECAR_PORT_WAIT_TIMEOUT_MS: u64 = 15_000;

/// Pause between two looks at the recorded port.
pub const SIDECAR_PORT_WAIT_INTERVAL_MS: u64 = 100;

/// Pause after killing a failed attempt's child, before the next attempt.
pub const SIDECAR_RETRY_DELAY_MS: u64 = 200;

/// The service name a healthy child must answer with.
pub fn sidecar_service_name() -> (r: &'static str)
    ensures
        r@ == "mind-flayer-sidecar"@,
{
    "mind-flayer-sidecar"
}

/// The environment key under which the child receives its startup token.
pub fn startup_token_env_key() -> (r: &'static str)
    ensures
        r@ == "SIDECAR_STARTUP_TOKEN"@,
{
    "SIDECAR_STARTUP_TOKEN"
}

/// The environment key under which the child receives its port.
pub fn sidecar_port_env_key() -> (r: &'static str)
    ensures
        r@ == "SIDECAR_PORT"@,
{
    "SIDECAR_PORT"
}

/// The token bound to one launch attempt: process id, attempt number,
/// candidate port and a nanosecond timestamp, joined with dashes. Echoing
/// it back is how a health response proves it comes from this attempt's
/// child and not from a stale listener.
pub open spec fn spec_startup_token(pid: u32, attempt: u8, port: u16, nanos: u128) -> Seq<char> {
    spec_decimal(pid as nat) + seq!['-'] + spec_decimal(attempt as nat) + seq!['-'] + spec_decimal(
        port as nat,
    ) + seq!['-'] + spec_decimal(nanos as nat)
}

/// Builds the startup token for one attempt from the caller-supplied
/// process id and clock reading.
pub fn generate_sidecar_startup_token(pid: u32, attempt: u8, port: u16, nanos: u128) -> (r: String)
    ensures
        r@ == spec_startup_token(pid, attempt, port, nanos),
{
    let mut out = u128_to_decimal(pid as u128);
    out.push('-');
    let mut a = u128_to_decimal(attempt as u128);
    out.append(&mut a);
    out.push('-');
    let mut p = u128_to_decimal(port as u128);
    out.append(&mut p);
    out.push('-');
    let mut n = u128_to_decimal(nanos);
    out.append(&mut n);
    proof {
        assert(out@ =~= spec_startup_token(pid, attempt, port, nanos));
    }
    chars_to_string(&out)
}

/// Every character of a decimal rendering is a digit.
pub proof fn lemma_decimal_digits(n: nat)
    ensures
        spec_is_digits(spec_decimal(n)),
    decreases n,
{
    if n < 10 {
        assert(spec_decimal(n) =~= seq![crate::text::spec_digit(n)]);
    } else {
        lemma_decimal_digits(n / 10);
        let a = spec_decimal(n / 10);
        let d = seq![crate::text::spec_digit(n % 10)];
        assert forall|i: int| 0 <= i < spec_decimal(n).len() implies 48 <= #[trigger] spec_decimal(
            n,
        )[i] as u32 <= 57 by {
            if i < a.len() {
                assert(spec_decimal(n)[i] == a[i]);
            } else {
                assert(spec_decimal(n)[i] == d[i - a.len()]);
            }
        };
    }
}

proof fn lemma_digit_code(d: nat)
    requires
        d < 10,
    ensures
        crate::text::spec_digit(d) as u32 == 48 + d,
{
    if d == 0 {
        assert('0' as u32 == 48);
    } else if d == 1 {
        assert('1' as u32 == 49);
    } else if d == 2 {
        assert('2' as u32 == 50);
    } else if d == 3 {
        assert('3' as u32 == 51);
    } else if d == 4 {
        assert('4' as u32 == 52);
    } else if d == 5 {
        assert('5' as u32 == 53);
    } else if d == 6 {
        assert('6' as u32 == 54);
    } else if d == 7 {
        assert('7' as u32 == 55);
    } else if d == 8 {
        assert('8' as u32 == 56);
    } else {
        assert('9' as u32 == 57);
    }
}

/// A decimal rendering reads back as its value, so the rendering is
/// injective.
pub proof fn lemma_dec_value_of_decimal(n: nat)
    ensures
        spec_dec_value(spec_decimal(n)) == n,
    decreases n,
{
    assert(spec_dec_value(Seq::<char>::empty()) == 0);
    if n < 10 {
        lemma_digit_code(n);
        assert(spec_decimal(n) =~= seq![crate::text::spec_digit(n)]);
        assert(seq![crate::text::spec_digit(n)].drop_last() =~= Seq::<char>::empty());
        assert(spec_dec_value(spec_decimal(n)) == spec_dec_value(Seq::<char>::empty()) * 10 + (
        crate::text::spec_digit(n) as u32 - 48));
    } else {
        lemma_dec_value_of_decimal(n / 10);
        lemma_digit_code(n % 10);
        let a = spec_decimal(n / 10);
        let full = spec_decimal(n);
        assert(full.drop_last() =~= a);
        assert(full.last() == crate::text::spec_digit(n % 10));
        assert(spec_dec_value(full) == spec_dec_value(a) * 10 + (full.last() as u32 - 48));
    }
}

/// Joining two digit strings with a dash is unambiguous: the dash marks
/// where the first ends.
pub proof fn lemma_dash_join_unique(a1: Seq<char>, b1: Seq<char>, a2: Seq<char>, b2: Seq<char>)
    requires
        spec_is_digits(a1),
        spec_is_digits(a2),
        a1 + seq!['-'] + b1 == a2 + seq!['-'] + b2,
    ensures
        a1 == a2,
        b1 == b2,
{
    let s = a1 + seq!['-'] + b1;
    assert(s[a1.len() as int] == '-');
    assert(s[a2.len() as int] == '-') by {
        assert((a2 + seq!['-'] + b2)[a2.len() as int] == '-');
    }
    if a1.len() < a2.len() {
        assert(s[a1.len() as int] == a2[a1.len() as int]) by {
            assert((a2 + seq!['-'] + b2)[a1.len() as int] == a2[a1.len() as int]);
        }
        assert(48 <= a2[a1.len() as int] as u32 <= 57);
        assert(false);
    }
    if a2.len() < a1.len() {
        assert(s[a2.len() as int] == a1[a2.len() as int]);
        assert(48 <= a1[a2.len() as int] as u32 <= 57);
        assert(false);
    }
    assert forall|i: int| 0 <= i < a1.len() implies #[trigger] a1[i] == a2[i] by {
        assert(s[i] == a1[i]);
        assert((a2 + seq!['-'] + b2)[i] == a2[i]);
    };
    assert(a1 =~= a2);
    assert((a1 + seq!['-'] + b1).len() == a1.len() + 1 + b1.len());
    assert((a2 + seq!['-'] + b2).len() == a2.len() + 1 + b2.len());
    assert(b1.len() == b2.len());
    assert forall|i: int| 0 <= i < b1.len() implies #[trigger] b1[i] == b2[i] by {
        assert(s[a1.len() + 1 + i] == b1[i]);
        assert((a2 + seq!['-'] + b2)[a2.len() + 1 + i] == b2[i]);
    };
    assert(b1 =~= b2);
}

/// Distinct launch attempts get distinct startup tokens: the token
/// determines the process id, attempt number, candidate port and timestamp
/// that made it. This is what lets a health response's echoed token prove
/// it comes from this attempt's child and not a stale listener.
pub proof fn lemma_startup_token_injective(
    pid1: u32,
    attempt1: u8,
    port1: u16,
    nanos1: u128,
    pid2: u32,
    attempt2: u8,
    port2: u16,
    nanos2: u128,
)
    requires
        spec_startup_token(pid1, attempt1, port1, nanos1) == spec_startup_token(
            pid2,
            attempt2,
            port2,
            nanos2,
        ),
    ensures
        pid1 == pid2,
        attempt1 == attempt2,
        port1 == port2,
        nanos1 == nanos2,
{
    lemma_decimal_digits(pid1 as nat);
    lemma_decimal_digits(pid2 as nat);
    lemma_decimal_digits(attempt1 as nat);
    lemma_decimal_digits(attempt2 as nat);
    lemma_decimal_digits(port1 as nat);
    lemma_decimal_digits(port2 as nat);
    let r1 = spec_decimal(attempt1 as nat) + seq!['-'] + (spec_decimal(port1 as nat) + seq!['-']
        + spec_decimal(nanos1 as nat));
    let r2 = spec_decimal(attempt2 as nat) + seq!['-'] + (spec_decimal(port2 as nat) + seq!['-']
        + spec_decimal(nanos2 as nat));
    assert(spec_startup_token(pid1, attempt1, port1, nanos1) =~= spec_decimal(pid1 as nat)
        + seq!['-'] + r1);
    assert(spec_startup_token(pid2, attempt2, port2, nanos2) =~= spec_decimal(pid2 as nat)
        + seq!['-'] + r2);
    lemma_dash_join_unique(spec_decimal(pid1 as nat), r1, spec_decimal(pid2 as nat), r2);
    lemma_dec_value_of_decimal(pid1 as nat);
    lemma_dec_value_of_decimal(pid2 as nat);
    lemma_dash_join_unique(
        spec_decimal(attempt1 as nat),
        spec_decimal(port1 as nat) + seq!['-'] + spec_decimal(nanos1 as nat),
        spec_decimal(attempt2 as nat),
        spec_decimal(port2 as nat) + seq!['-'] + spec_decimal(nanos2 as nat),
    );
    lemma_dec_value_of_decimal(attempt1 as nat);
    lemma_dec_value_of_decimal(attempt2 as nat);
    lemma_dash_join_unique(
        spec_decimal(port1 as nat),
        spec_decimal(nanos1 as nat),
        spec_decimal(port2 as nat),
        spec_decimal(nanos2 as nat),
    );
    lemma_dec_value_of_decimal(port1 as nat);
    lemma_dec_value_of_decimal(port2 as nat);
    lemma_dec_value_of_decimal(nanos1 as nat);
    lemma_dec_value_of_decimal(nanos2 as nat);
}

/// The health endpoint polled on the local loopback interface.
pub open spec fn spec_health_url(port: u16) -> Seq<char> {
    "http://127.0.0.1:"@ + spec_decimal(port as nat) + "/health"@
}

/// The health URL for a candidate port.
pub fn sidecar_health_url(port: u16) -> (r: String)
    ensures
        r@ == spec_health_url(port),
{
    let mut out = str_to_chars("http://127.0.0.1:");
    let mut p = u128_to_decimal(port as u128);
    out.append(&mut p);
    let mut tail = str_to_chars("/health");
    out.append(&mut tail);
    chars_to_string(&out)
}

/// What the child's health endpoint answered: the three fields of its JSON
/// body, each absent when missing or not a string.
#[derive(Debug)]
pub struct HealthPayload {
    pub status: Option<String>,
    pub service: Option<String>,
    pub startup_token: Option<String>,
}

/// The abstract value of a health answer.
pub ghost struct PayloadView {
    pub status: Option<Seq<char>>,
    pub service: Option<Seq<char>>,
    pub startup_token: Option<Seq<char>>,
}

impl View for HealthPayload {
    type V = PayloadView;

    open spec fn view(&self) -> PayloadView {
        PayloadView {
            status: crate::json::opt_str_view(self.status),
            service: crate::json::opt_str_view(self.service),
            startup_token: crate::json::opt_str_view(self.startup_token),
        }
    }
}

/// A health answer satisfies the wait exactly when it reports `ok`, names
/// this service, and echoes the expected startup token.
pub open spec fn spec_is_expected_payload(p: PayloadView, expected_token: Seq<char>) -> bool {
    &&& p.status == Some("ok"@)
    &&& p.service == Some("mind-flayer-sidecar"@)
    &&& p.startup_token == Some(expected_token)
}

/// Decides whether a health answer proves this attempt's child is healthy.
pub fn is_expected_health_payload(payload: &HealthPayload, expected_startup_token: &str) -> (r:
    bool)
    ensures
        r == spec_is_expected_payload(payload@, expected_startup_token@),
{
    let status_ok = match &payload.status {
        Some(s) => str_eq(s.as_str(), "ok"),
        None => false,
    };
    let service_ok = match &payload.service {
        Some(s) => str_eq(s.as_str(), sidecar_service_name()),
        None => false,
    };
    let token_ok = match &payload.startup_token {
        Some(s) => str_eq(s.as_str(), expected_startup_token),
        None => false,
    };
    status_ok && service_ok && token_ok
}

/// Index of the first field named `name`, or -1 when there is none.
pub open spec fn spec_find_field(fs: Seq<FieldEntry>, name: Seq<char>) -> int
    decreases fs.len(),
{
    if fs.len() == 0 {
        -1
    } else if fs[0].name == name {
        0
    } else {
        let r = spec_find_field(fs.drop_first(), name);
        if r == -1 {
            -1
        } else {
            r + 1
        }
    }
}

pub proof fn lemma_find_field_is_first(fs: Seq<FieldEntry>, name: Seq<char>)
    ensures
        -1 <= spec_find_field(fs, name) < fs.len(),
        spec_find_field(fs, name) >= 0 ==> fs[spec_find_field(fs, name)].name == name && (forall|
            j: int,
        |
            0 <= j < spec_find_field(fs, name) ==> fs[j].name != name),
        spec_find_field(fs, name) == -1 ==> forall|j: int|
            0 <= j < fs.len() ==> fs[j].name != name,
    decreases fs.len(),
{
    if fs.len() > 0 && fs[0].name != name {
        lemma_find_field_is_first(fs.drop_first(), name);
        let r1 = spec_find_field(fs.drop_first(), name);
        if r1 >= 0 {
            assert(fs[r1 + 1] == fs.drop_first()[r1]);
            assert forall|j: int| 0 <= j < r1 + 1 implies fs[j].name != name by {
                if j > 0 {
                    assert(fs[j] == fs.drop_first()[j - 1]);
                }
            };
        } else {
            assert forall|j: int| 0 <= j < fs.len() implies fs[j].name != name by {
                if j > 0 {
                    assert(fs[j] == fs.drop_first()[j - 1]);
                }
            };
        }
    }
}

/// The string value of the first field named `name`: `None` when the field
/// is absent or holds `null`.
pub open spec fn spec_field_string(fs: Seq<FieldEntry>, name: Seq<char>) -> Option<Seq<char>> {
    let i = spec_find_field(fs, name);
    if i == -1 {
        None
    } else {
        fs[i].value
    }
}

fn field_string(fields: &Vec<FieldPair>, name: &str) -> (r: Option<String>)
    ensures
        crate::json::opt_str_view(r) == spec_field_string(field_pairs_view(fields@), name@),
{
    let ghost fs = field_pairs_view(fields@);
    let n = fields.len();
    let mut i: usize = 0;
    while i < n
        invariant
            i <= n,
            n == fields@.len(),
            fs == field_pairs_view(fields@),
            forall|j: int| 0 <= j < i ==> fs[j].name != name@,
        decreases n - i,
    {
        let name_s = chars_to_string(&fields[i].name);
        if str_eq(name_s.as_str(), name) {
            proof {
                assert(fs[i as int].name == fields@[i as int].name@);
                lemma_find_field_is_first(fs, name@);
            }
            return match &fields[i].value {
                Some(v) => Some(chars_to_string(v)),
                None => None,
            };
        }
        proof {
            assert(fs[i as int].name == fields@[i as int].name@);
        }
        i = i + 1;
    }
    proof {
        lemma_find_field_is_first(fs, name@);
    }
    None
}

/// Reads a health answer's body, tolerating whitespace between tokens. A
/// success pins the whitespace-stripped body to the flat JSON object of
/// some fields, and the payload to those fields' `status`, `service` and
/// `startupToken` values; reading is owed whenever the stripped body is
/// such an object.
pub fn parse_health_payload(body: &str) -> (r: Option<HealthPayload>)
    ensures
        r matches Some(p) ==> exists|fs: Seq<FieldEntry>|
            spec_strip_ws(body@, false, false) == spec_flat_json(fs) && p@.status
                == spec_field_string(fs, "status"@) && p@.service == spec_field_string(
                fs,
                "service"@,
            ) && p@.startup_token == spec_field_string(fs, "startupToken"@),
        (exists|fs: Seq<FieldEntry>| spec_strip_ws(body@, false, false) == spec_flat_json(fs))
            ==> r is Some,
{
    let chars = str_to_chars(body);
    let stripped = strip_json_ws(&chars);
    let fields = match parse_flat_object(&stripped) {
        Some(fs) => fs,
        None => {
            return None;
        },
    };
    let status = field_string(&fields, "status");
    let service = field_string(&fields, "service");
    let startup_token = field_string(&fields, "startupToken");
    let p = HealthPayload { status, service, startup_token };
    proof {
        let fs = field_pairs_view(fields@);
        assert(spec_strip_ws(body@, false, false) == spec_flat_json(fs) && p@.status
            == spec_field_string(fs, "status"@) && p@.service == spec_field_string(fs, "service"@)
            && p@.startup_token == spec_field_string(fs, "startupToken"@));
    }
    Some(p)
}

/// A field's text in a diagnostic message: the value, or `<missing>`.
pub open spec fn spec_field_or_missing(o: Option<Seq<char>>) -> Seq<char> {
    match o {
        Some(s) => s,
        None => "<missing>"@,
    }
}

/// The account of a health answer that did not satisfy the wait, naming
/// the service and startup token it carried.
pub open spec fn spec_unexpected_payload_text(p: PayloadView) -> Seq<char> {
    "Health endpoint returned unexpected payload (service="@ + spec_field_or_missing(p.service)
        + ", startupToken="@ + spec_field_or_missing(p.startup_token) + seq![')']
}

/// Renders the account of a health answer that did not satisfy the wait.
pub fn unexpected_payload_message(payload: &HealthPayload) -> (r: String)
    ensures
        r@ == spec_unexpected_payload_text(payload@),
{
    let mut out = str_to_chars("Health endpoint returned unexpected payload (service=");
    match &payload.service {
        Some(s) => {
            let mut sc = str_to_chars(s.as_str());
            out.append(&mut sc);
        },
        None => {
            let mut m = str_to_chars("<missing>");
            out.append(&mut m);
        },
    }
    let mut sep = str_to_chars(", startupToken=");
    out.append(&mut sep);
    match &payload.startup_token {
        Some(s) => {
            let mut sc = str_to_chars(s.as_str());
            out.append(&mut sc);
        },
        None => {
            let mut m = str_to_chars("<missing>");
            out.append(&mut m);
        },
    }
    out.push(')');
    proof {
        assert(out@ =~= spec_unexpected_payload_text(payload@));
    }
    chars_to_string(&out)
}

/// The supervisor's shared state: the child the application currently
/// owns, by process id, and the port of the currently healthy child. The
/// caller guards a value of this type with its own mutual exclusion.
pub struct SidecarState {
    pub child: Option<u32>,
    pub port: Option<u16>,
}

/// A fresh supervisor state: no child owned, no port recorded.
pub fn create_sidecar_state() -> (r: SidecarState)
    ensures
        r.child is None,
        r.port is None,
{
    SidecarState { child: None, port: None }
}

/// Records the healthy child's port.
pub fn set_sidecar_port(state: &mut SidecarState, port: u16)
    ensures
        final(state).port == Some(port),
        final(state).child == old(state).child,
{
    state.port = Some(port);
}

/// Clears the recorded port.
pub fn clear_sidecar_port(state: &mut SidecarState)
    ensures
        final(state).port is None,
        final(state).child == old(state).child,
{
    state.port = None;
}

/// Records the spawned child.
pub fn set_sidecar_child(state: &mut SidecarState, pid: u32)
    ensures
        final(state).child == Some(pid),
        final(state).port == old(state).port,
{
    state.child = Some(pid);
}

/// Why a configuration push could not be delivered.
#[derive(Clone, Copy, Debug, PartialEq, Eq, Structural)]
pub enum PushError {
    /// No child is currently owned, so there is no input stream to write
    /// to; the push is pending until the next successful start.
    NoChild,
}

impl PushError {
    /// A human-readable account of the error.
    pub fn message(&self) -> (r: String)
        ensures
            r@ == "Sidecar process not running"@,
    {
        String::from_str("Sidecar process not running")
    }
}

/// Builds the credential snapshot to push to the running child: the full
/// `config_update` envelope as one line for its input stream. When no child
/// is owned the push fails with a recoverable error instead.
pub fn push_config_to_sidecar(state: &SidecarState, store: &CredentialStore) -> (r: Result<
    String,
    PushError,
>)
    ensures
        (r is Err) <==> (state.child is None),
        r matches Ok(line) ==> line@ == spec_config_update_json(store@) + seq!['\n'],
        r matches Err(e) ==> e is NoChild,
{
    if state.child.is_none() {
        return Err(PushError::NoChild);
    }
    let mut out = store.render_config_update();
    out.push('\n');
    Ok(chars_to_string(&out))
}

/// How a monitored child ended: its exit code and signal, if any, and a
/// short account of how the end was observed.
#[derive(Debug)]
pub struct SidecarTermination {
    pub code: Option<i32>,
    pub signal: Option<i32>,
    pub reason: String,
}

impl SidecarTermination {
    /// The termination a process-ended event carries.
    pub fn from_payload(code: Option<i32>, signal: Option<i32>) -> (r: SidecarTermination)
        ensures
            r.code == code,
            r.signal == signal,
            r.reason@ == "Received process termination event"@,
    {
        SidecarTermination {
            code,
            signal,
            reason: String::from_str("Received process termination event"),
        }
    }

    /// The termination recorded when the child's event stream closes
    /// without an explicit ended event.
    pub fn stream_closed() -> (r: SidecarTermination)
        ensures
            r.code is None,
            r.signal is None,
            r.reason@ == "Sidecar process event stream closed"@,
    {
        SidecarTermination {
            code: None,
            signal: None,
            reason: String::from_str("Sidecar process event stream closed"),
        }
    }
}

/// What ended one start attempt short of health: the health wait gave up,
/// or the child terminated first.
#[derive(Debug)]
pub enum SidecarAttemptError {
    HealthCheck(String),
    Terminated(SidecarTermination),
}

/// The text `Some(v)` or `None` for an optional number, as failure
/// messages carry it.
pub open spec fn spec_opt_i32_text(o: Option<i32>) -> Seq<char> {
    match o {
        Some(v) => "Some("@ + spec_decimal_int(v as int) + seq![')'],
        None => "None"@,
    }
}

fn push_opt_i32(out: &mut Vec<char>, o: &Option<i32>)
    ensures
        final(out)@ == old(out)@ + spec_opt_i32_text(*o),
{
    match o {
        Some(v) => {
            let mut head = str_to_chars("Some(");
            out.append(&mut head);
            let mut digits = i64_to_decimal(*v as i64);
            out.append(&mut digits);
            out.push(')');
            proof {
                assert(final(out)@ =~= old(out)@ + spec_opt_i32_text(*o));
            }
        },
        None => {
            let mut word = str_to_chars("None");
            out.append(&mut word);
        },
    }
}

/// The consolidated account of one failed attempt: the attempt error's own
/// message, with the stderr snapshot appended when there is one.
pub open spec fn spec_attempt_failure_text(
    port: u16,
    attempt_error: SidecarAttemptError,
    stderr_output: Seq<char>,
) -> Seq<char> {
    let head = match attempt_error {
        SidecarAttemptError::HealthCheck(err) => err@,
        SidecarAttemptError::Terminated(t) => "Sidecar terminated before becoming healthy on port "@
            + spec_decimal(port as nat) + " (code: "@ + spec_opt_i32_text(t.code) + ", signal: "@
            + spec_opt_i32_text(t.signal) + ", reason: "@ + t.reason@ + seq![')'],
    };
    if stderr_output.len() == 0 {
        head
    } else {
        head + " | stderr: "@ + stderr_output
    }
}

/// Renders the consolidated account of one failed attempt.
pub fn format_attempt_failure(
    port: u16,
    attempt_error: &SidecarAttemptError,
    stderr_output: &str,
) -> (r: String)
    ensures
        r@ == spec_attempt_failure_text(port, *attempt_error, stderr_output@),
{
    let mut out: Vec<char> = Vec::new();
    match attempt_error {
        SidecarAttemptError::HealthCheck(err) => {
            let mut e = str_to_chars(err.as_str());
            out.append(&mut e);
        },
        SidecarAttemptError::Terminated(t) => {
            let mut head = str_to_chars("Sidecar terminated before becoming healthy on port ");
            out.append(&mut head);
            let mut p = u128_to_decimal(port as u128);
            out.append(&mut p);
            let mut c = str_to_chars(" (code: ");
            out.append(&mut c);
            push_opt_i32(&mut out, &t.code);
            let mut s = str_to_chars(", signal: ");
            out.append(&mut s);
            push_opt_i32(&mut out, &t.signal);
            let mut rr = str_to_chars(", reason: ");
            out.append(&mut rr);
            let mut reason = str_to_chars(t.reason.as_str());
            out.append(&mut reason);
            out.push(')');
        },
    }
    let tail_chars = str_to_chars(stderr_output);
    if tail_chars.len() > 0 {
        let mut sep = str_to_chars(" | stderr: ");
        out.append(&mut sep);
        let mut tc = tail_chars;
        out.append(&mut tc);
    }
    proof {
        assert(out@ =~= spec_attempt_failure_text(port, *attempt_error, stderr_output@));
    }
    chars_to_string(&out)
}

/// The account of a spawn that failed outright.
pub open spec fn spec_spawn_failure_text(port: u16, error: Seq<char>) -> Seq<char> {
    "Failed to spawn sidecar on port "@ + spec_decimal(port as nat) + ": "@ + error
}

/// Renders the account of a spawn that failed outright.
pub fn format_spawn_failure(port: u16, error: &str) -> (r: String)
    ensures
        r@ == spec_spawn_failure_text(port, error@),
{
    let mut out = str_to_chars("Failed to spawn sidecar on port ");
    let mut p = u128_to_decimal(port as u128);
    out.append(&mut p);
    let mut sep = str_to_chars(": ");
    out.append(&mut sep);
    let mut e = str_to_chars(error);
    out.append(&mut e);
    proof {
        assert(out@ =~= spec_spawn_failure_text(port, error@));
    }
    chars_to_string(&out)
}

/// The account of a health wait that ran out its budget.
pub open spec fn spec_health_timeout_text(port: u16, timeout_ms: u64, last_error: Seq<
    char,
>) -> Seq<char> {
    "Sidecar health check timed out on port "@ + spec_decimal(port as nat) + " after "@
        + spec_decimal(timeout_ms as nat) + "ms: "@ + last_error
}

/// Renders the account of a health wait that ran out its budget.
pub fn format_health_timeout(port: u16, timeout_ms: u64, last_error: &str) -> (r: String)
    ensures
        r@ == spec_health_timeout_text(port, timeout_ms, last_error@),
{
    let mut out = str_to_chars("Sidecar health check timed out on port ");
    let mut p = u128_to_decimal(port as u128);
    out.append(&mut p);
    let mut mid = str_to_chars(" after ");
    out.append(&mut mid);
    let mut t = u128_to_decimal(timeout_ms as u128);
    out.append(&mut t);
    let mut sep = str_to_chars("ms: ");
    out.append(&mut sep);
    let mut e = str_to_chars(last_error);
    out.append(&mut e);
    proof {
        assert(out@ =~= spec_health_timeout_text(port, timeout_ms, last_error@));
    }
    chars_to_string(&out)
}

/// The account of a start that never recorded a port in time.
pub open spec fn spec_port_wait_timeout_text(timeout_ms: u64) -> Seq<char> {
    "Timed out waiting for sidecar port after "@ + spec_decimal(timeout_ms as nat) + "ms"@
}

/// Renders the account of a start that never recorded a port in time.
pub fn format_port_wait_timeout(timeout_ms: u64) -> (r: String)
    ensures
        r@ == spec_port_wait_timeout_text(timeout_ms),
{
    let mut out = str_to_chars("Timed out waiting for sidecar port after ");
    let mut t = u128_to_decimal(timeout_ms as u128);
    out.append(&mut t);
    let mut tail = str_to_chars("ms");
    out.append(&mut tail);
    proof {
        assert(out@ =~= spec_port_wait_timeout_text(timeout_ms));
    }
    chars_to_string(&out)
}

/// Where a start stands. `Healthy` and `Failed` are terminal.
#[derive(Clone, Copy, Debug, PartialEq, Eq, Structural)]
pub enum StartPhase {
    /// About to pick a candidate port for the current attempt.
    SelectingPort,
    /// Child spawned; racing its health wait against its termination.
    Probing,
    /// A token-matched health response arrived; the port is recorded.
    Healthy,
    /// The start gave up; `last_error` holds the consolidated account.
    Failed,
}

/// Which port the current attempt should ask for.
#[derive(Clone, Copy, Debug, PartialEq, Eq, Structural)]
pub enum PortChoice {
    /// The well-known preferred port.
    Preferred,
    /// An OS-assigned ephemeral port.
    Ephemeral,
}

/// What the caller observed for the start machine to decide on.
#[derive(Debug)]
pub enum StartEvent {
    /// A candidate port was picked and a startup token generated; the child
    /// is being spawned with both.
    PortSelected { port: u16, token: String },
    /// The spawn itself failed, with the spawner's error text.
    SpawnFailed { message: String },
    /// The health endpoint answered with this payload.
    HealthResponse { payload: HealthPayload },
    /// The attempt ended short of health: the health wait gave up or the
    /// child terminated; the stderr ring buffer's snapshot comes along.
    AttemptFailed { error: SidecarAttemptError, stderr_snapshot: String },
}

/// The bounded-retry start state machine. One value of this type drives one
/// start: the caller feeds it events and carries out what the phase asks
/// for next.
#[derive(Debug)]
pub struct StartMachine {
    /// The current attempt number, counted from 1.
    pub attempt: u8,
    pub phase: StartPhase,
    /// The port handed to the attempt's child; `None` outside `Probing`.
    pub candidate_port: Option<u16>,
    /// The healthy child's port; `Some` exactly in `Healthy`.
    pub recorded_port: Option<u16>,
    /// The startup token the attempt's child must echo.
    pub token: String,
    /// The most recent failure's consolidated account.
    pub last_error: String,
}

/// The preferred port is used exactly on the mandatory first attempt;
/// every later attempt asks for an ephemeral port.
pub open spec fn spec_port_choice(attempt: u8) -> PortChoice {
    if attempt == 1 {
        PortChoice::Preferred
    } else {
        PortChoice::Ephemeral
    }
}

/// The phase after one event.
pub open spec fn spec_step_phase(m: StartMachine, e: StartEvent) -> StartPhase {
    match e {
        StartEvent::PortSelected { .. } => if m.phase is SelectingPort {
            StartPhase::Probing
        } else {
            m.phase
        },
        StartEvent::SpawnFailed { .. } => if m.phase is Probing {
            if m.attempt == 1 || m.attempt >= SIDECAR_START_MAX_ATTEMPTS {
                StartPhase::Failed
            } else {
                StartPhase::SelectingPort
            }
        } else {
            m.phase
        },
        StartEvent::HealthResponse { payload } => if m.phase is Probing
            && spec_is_expected_payload(payload@, m.token@) {
            StartPhase::Healthy
        } else {
            m.phase
        },
        StartEvent::AttemptFailed { error, stderr_snapshot } => if m.phase is Probing {
            if m.attempt == 1 && spec_is_addr_in_use(stderr_snapshot@) {
                StartPhase::SelectingPort
            } else if m.attempt == 1 {
                StartPhase::Failed
            } else if m.attempt < SIDECAR_START_MAX_ATTEMPTS {
                StartPhase::SelectingPort
            } else {
                StartPhase::Failed
            }
        } else {
            m.phase
        },
    }
}

/// The attempt number after one event: it grows exactly when a failed
/// attempt leads to another.
pub open spec fn spec_step_attempt(m: StartMachine, e: StartEvent) -> u8 {
    if m.phase is Probing && (e is SpawnFailed || e is AttemptFailed) && spec_step_phase(
        m,
        e,
    ) is SelectingPort {
        (m.attempt + 1) as u8
    } else {
        m.attempt
    }
}

/// The recorded port after one event: set, to the candidate port, exactly
/// by a token-matched health response.
pub open spec fn spec_step_recorded(m: StartMachine, e: StartEvent) -> Option<u16> {
    match e {
        StartEvent::HealthResponse { payload } => if m.phase is Probing
            && spec_is_expected_payload(payload@, m.token@) {
            m.candidate_port
        } else {
            m.recorded_port
        },
        _ => m.recorded_port,
    }
}

/// The candidate port after one event.
pub open spec fn spec_step_candidate(m: StartMachine, e: StartEvent) -> Option<u16> {
    match e {
        StartEvent::PortSelected { port, .. } => if m.phase is SelectingPort {
            Some(port)
        } else {
            m.candidate_port
        },
        StartEvent::SpawnFailed { .. } => if m.phase is Probing {
            None
        } else {
            m.candidate_port
        },
        StartEvent::HealthResponse { .. } => m.candidate_port,
        StartEvent::AttemptFailed { .. } => if m.phase is Probing {
            None
        } else {
            m.candidate_port
        },
    }
}

/// The expected startup token after one event.
pub open spec fn spec_step_token(m: StartMachine, e: StartEvent) -> Seq<char> {
    match e {
        StartEvent::PortSelected { token, .. } => if m.phase is SelectingPort {
            token@
        } else {
            m.token@
        },
        _ => m.token@,
    }
}

/// The failure account after one event.
pub open spec fn spec_step_last_error(m: StartMachine, e: StartEvent) -> Seq<char> {
    match e {
        StartEvent::SpawnFailed { message } => if m.phase is Probing {
            spec_spawn_failure_text(m.candidate_port->Some_0, message@)
        } else {
            m.last_error@
        },
        StartEvent::AttemptFailed { error, stderr_snapshot } => if m.phase is Probing {
            spec_attempt_failure_text(m.candidate_port->Some_0, error, stderr_snapshot@)
        } else {
            m.last_error@
        },
        _ => m.last_error@,
    }
}

impl StartMachine {
    /// The machine's invariant: the attempt number stays within the
    /// budget, the port is recorded exactly in `Healthy`, and a probing
    /// attempt has its candidate port.
    pub open spec fn wf(&self) -> bool {
        &&& 1 <= self.attempt <= SIDECAR_START_MAX_ATTEMPTS
        &&& (self.phase is Healthy <==> self.recorded_port is Some)
        &&& (self.phase is Probing ==> self.candidate_port is Some)
    }

    /// A fresh start: first attempt, no port chosen or recorded.
    pub fn new() -> (r: StartMachine)
        ensures
            r.wf(),
            r.attempt == 1,
            r.phase is SelectingPort,
            r.candidate_port is None,
            r.recorded_port is None,
            r.token@ == Seq::<char>::empty(),
            r.last_error@ == "Unknown sidecar startup failure"@,
    {
        StartMachine {
            attempt: 1,
            phase: StartPhase::SelectingPort,
            candidate_port: None,
            recorded_port: None,
            token: String::new(),
            last_error: String::from_str("Unknown sidecar startup failure"),
        }
    }

    /// Which port the current attempt should ask for: the preferred port
    /// exactly on attempt 1.
    pub fn port_choice(&self) -> (r: PortChoice)
        ensures
            r == spec_port_choice(self.attempt),
            r is Preferred <==> self.attempt == 1,
    {
        if self.attempt == 1 {
            PortChoice::Preferred
        } else {
            PortChoice::Ephemeral
        }
    }

    /// Drives the machine by one observed event. Every field of the result
    /// is pinned by the step functions above; in particular the recorded
    /// port changes only on a token-matched health response, and a bind
    /// conflict on attempt 1 is the one failure that retries off the
    /// preferred port.
    pub fn step(&mut self, event: StartEvent)
        requires
            old(self).wf(),
        ensures
            final(self).wf(),
            final(self).phase == spec_step_phase(*old(self), event),
            final(self).attempt == spec_step_attempt(*old(self), event),
            final(self).recorded_port == spec_step_recorded(*old(self), event),
            final(self).candidate_port == spec_step_candidate(*old(self), event),
            final(self).token@ == spec_step_token(*old(self), event),
            final(self).last_error@ == spec_step_last_error(*old(self), event),
    {
        match event {
            StartEvent::PortSelected { port, token } => {
                if self.phase == StartPhase::SelectingPort {
                    self.phase = StartPhase::Probing;
                    self.candidate_port = Some(port);
                    self.token = token;
                }
            },
            StartEvent::SpawnFailed { message } => {
                if self.phase == StartPhase::Probing {
                    let port = self.candidate_port.unwrap();
                    self.last_error = format_spawn_failure(port, message.as_str());
                    if self.attempt == 1 || self.attempt >= SIDECAR_START_MAX_ATTEMPTS {
                        self.phase = StartPhase::Failed;
                    } else {
                        self.attempt = self.attempt + 1;
                        self.phase = StartPhase::SelectingPort;
                    }
                    self.candidate_port = None;
                }
            },
            StartEvent::HealthResponse { payload } => {
                if self.phase == StartPhase::Probing && is_expected_health_payload(
                    &payload,
                    self.token.as_str(),
                ) {
                    self.phase = StartPhase::Healthy;
                    self.recorded_port = self.candidate_port;
                }
            },
            StartEvent::AttemptFailed { error, stderr_snapshot } => {
                if self.phase == StartPhase::Probing {
                    let port = self.candidate_port.unwrap();
                    let conflict = is_addr_in_use_error(stderr_snapshot.as_str());
                    self.last_error = format_attempt_failure(
                        port,
                        &error,
                        stderr_snapshot.as_str(),
                    );
                    if self.attempt == 1 && conflict {
                        self.attempt = 2;
                        self.phase = StartPhase::SelectingPort;
                    } else if self.attempt == 1 {
                        self.phase = StartPhase::Failed;
                    } else if self.attempt < SIDECAR_START_MAX_ATTEMPTS {
                        self.attempt = self.attempt + 1;
                        self.phase = StartPhase::SelectingPort;
                    } else {
                        self.phase = StartPhase::Failed;
                    }
                    self.candidate_port = None;
                }
            },
        }
    }
}

/// For every reachable machine state and event: the recorded port becomes
/// set only by a health response whose payload reports `ok`, names this
/// service, and echoes the token generated for the attempt in flight — and
/// what gets recorded is that attempt's own candidate port. A stale
/// listener echoing a different or missing token never satisfies the wait.
pub proof fn lemma_recorded_port_needs_token_match(m: StartMachine, e: StartEvent)
    requires
        m.wf(),
        m.recorded_port is None,
        spec_step_recorded(m, e) is Some,
    ensures
        m.phase is Probing,
        e matches StartEvent::HealthResponse { payload } && spec_is_expected_payload(
            payload@,
            m.token@,
        ),
        spec_step_recorded(m, e) == m.candidate_port,
        spec_step_phase(m, e) is Healthy,
{
}

/// For every attempt number the budget admits: the preferred port is asked
/// for exactly on attempt 1; attempts 2 and 3 ask for an ephemeral port.
pub proof fn lemma_preferred_port_only_on_first_attempt(attempt: u8)
    ensures
        spec_port_choice(attempt) is Preferred <==> attempt == 1,
        attempt == 2 || attempt == 3 ==> spec_port_choice(attempt) is Ephemeral,
{
}

/// A first attempt that fails with a bind-conflict signature retries as
/// attempt 2, which asks for an ephemeral port; a first attempt that fails
/// with any other signature is fatal, with no further attempts.
pub proof fn lemma_first_attempt_conflict_falls_back(
    m: StartMachine,
    error: SidecarAttemptError,
    stderr_snapshot: String,
)
    requires
        m.wf(),
        m.phase is Probing,
        m.attempt == 1,
    ensures
        ({
            let e = StartEvent::AttemptFailed { error, stderr_snapshot };
            &&& spec_is_addr_in_use(stderr_snapshot@) ==> spec_step_phase(m, e) is SelectingPort
                && spec_step_attempt(m, e) == 2 && spec_port_choice(
                spec_step_attempt(m, e),
            ) is Ephemeral
            &&& !spec_is_addr_in_use(stderr_snapshot@) ==> spec_step_phase(m, e) is Failed
                && spec_step_attempt(m, e) == 1
        }),
{
}

/// A start ends in exactly one of `Healthy` and `Failed`: once either is
/// reached, no further event moves the machine, grows its attempt count, or
/// touches its ports.
pub proof fn lemma_terminal_phases_are_stable(m: StartMachine, e: StartEvent)
    requires
        m.phase is Healthy || m.phase is Failed,
    ensures
        spec_step_phase(m, e) == m.phase,
        spec_step_attempt(m, e) == m.attempt,
        spec_step_recorded(m, e) == m.recorded_port,
        spec_step_candidate(m, e) == m.candidate_port,
{
}

/// Attempts only move forward: no event lowers the attempt number, and the
/// budget is never exceeded.
pub proof fn lemma_attempts_never_decrease(m: StartMachine, e: StartEvent)
    requires
        m.wf(),
    ensures
        m.attempt <= spec_step_attempt(m, e) <= SIDECAR_START_MAX_ATTEMPTS,
{
}

/// What waiting on the recorded port decides each time it looks.
#[derive(Clone, Copy, Debug, PartialEq, Eq, Structural)]
pub enum PortWaitDecision {
    /// A healthy child's port is recorded: hand it out.
    Ready(u16),
    /// No port is recorded and the wait's budget is spent.
    TimedOut,
    /// No port is recorded yet; look again after the poll interval.
    KeepWaiting,
}

/// Decides one look at the recorded port while waiting for a start to
/// finish.
pub fn poll_sidecar_port(recorded: &Option<u16>, elapsed_ms: u64, timeout_ms: u64) -> (r:
    PortWaitDecision)
    ensures
        match r {
            PortWaitDecision::Ready(p) => *recorded == Some(p),
            PortWaitDecision::TimedOut => *recorded is None && elapsed_ms >= timeout_ms,
            PortWaitDecision::KeepWaiting => *recorded is None && elapsed_ms < timeout_ms,
        },
{
    match recorded {
        Some(p) => PortWaitDecision::Ready(*p),
        None => {
            if elapsed_ms >= timeout_ms {
                PortWaitDecision::TimedOut
            } else {
                PortWaitDecision::KeepWaiting
            }
        },
    }
}

/// Takes the shared state apart for shutdown: both the recorded port and
/// the owned child are cleared unconditionally, and handed back so the
/// caller can signal, wait out the grace period, and force-kill if needed.
pub fn begin_cleanup(state: &mut SidecarState) -> (r: (Option<u16>, Option<u32>))
    ensures
        final(state).port is None,
        final(state).child is None,
        r.0 == old(state).port,
        r.1 == old(state).child,
{
    let port = state.port;
    let child = state.child;
    state.port = None;
    state.child = None;
    (port, child)
}

/// The forced kill runs exactly when a child was owned, a port was
/// recorded, and that child's process id is still listed as listening on
/// that port after the grace period.
pub fn should_force_kill(pid: Option<u32>, port: Option<u16>, pid_listening_on_port: bool) -> (r:
    bool)
    ensures
        r == (pid is Some && port is Some && pid_listening_on_port),
{
    pid.is_some() && port.is_some() && pid_listening_on_port
}

/// The numeric value of a digit string, most significant digit first.
pub open spec fn spec_dec_value(s: Seq<char>) -> int
    decreases s.len(),
{
    if s.len() == 0 {
        0
    } else {
        spec_dec_value(s.drop_last()) * 10 + (s.last() as u32 - 48)
    }
}

/// Whether every character is a decimal digit.
pub open spec fn spec_is_digits(s: Seq<char>) -> bool {
    forall|i: int| 0 <= i < s.len() ==> 48 <= #[trigger] s[i] as u32 <= 57
}

pub proof fn lemma_dec_value_prefix(s: Seq<char>, j: int)
    requires
        spec_is_digits(s),
        0 <= j <= s.len(),
    ensures
        0 <= spec_dec_value(s.take(j)) <= spec_dec_value(s),
    decreases s.len() - j,
{
    if j == s.len() {
        assert(s.take(j) =~= s);
        lemma_dec_value_nonneg(s);
    } else {
        lemma_dec_value_prefix(s, j + 1);
        let t = s.take(j + 1);
        assert(t.drop_last() =~= s.take(j));
        assert(t.last() == s[j]);
        lemma_dec_value_nonneg(s.take(j));
    }
}

pub proof fn lemma_dec_value_nonneg(s: Seq<char>)
    requires
        spec_is_digits(s),
    ensures
        spec_dec_value(s) >= 0,
    decreases s.len(),
{
    if s.len() > 0 {
        assert(spec_is_digits(s.drop_last())) by {
            assert(forall|i: int| 0 <= i < s.len() - 1 ==> s.drop_last()[i] == s[i]);
        }
        lemma_dec_value_nonneg(s.drop_last());
    }
}

/// Whether one line of listener-inspection output names the process id:
/// once surrounding whitespace and an optional plus sign are dropped, the
/// line is digits whose value is exactly `pid`.
pub open spec fn spec_line_names_pid(line: Seq<char>, pid: u32) -> bool {
    let t = spec_trim_end(spec_trim_start(line));
    let d = if t.len() > 0 && t[0] == '+' {
        t.drop_first()
    } else {
        t
    };
    d.len() > 0 && spec_is_digits(d) && spec_dec_value(d) == pid as int
}

fn line_names_pid(line: &Vec<char>, pid: u32) -> (r: bool)
    ensures
        r == spec_line_names_pid(line@, pid),
{
    let mut t = crate::buffer::trim_start_chars(line);
    crate::buffer::trim_end_chars(&mut t);
    let t_len = t.len();
    let start: usize = if t_len > 0 && t[0] == '+' {
        1
    } else {
        0
    };
    let ghost d: Seq<char> = t@.skip(start as int);
    proof {
        if start == 1 {
            assert(d =~= t@.drop_first());
        } else {
            assert(d =~= t@);
        }
    }
    if start == t_len {
        return false;
    }
    let mut acc: u64 = 0;
    let mut i: usize = start;
    proof {
        assert(d.take(0) =~= Seq::<char>::empty());
    }
    while i < t_len
        invariant
            start <= i <= t_len,
            t_len == t@.len(),
            t@ == spec_trim_end(spec_trim_start(line@)),
            (start == 1) == (t@.len() > 0 && t@[0] == '+'),
            start <= 1,
            d == t@.skip(start as int),
            d == (if t@.len() > 0 && t@[0] == '+' {
                t@.drop_first()
            } else {
                t@
            }),
            acc <= u32::MAX,
            spec_is_digits(d.take(i - start)),
            acc as int == spec_dec_value(d.take(i - start)),
        decreases t_len - i,
    {
        let c = t[i];
        let u = c as u32;
        if u < 48 || u > 57 {
            assert(d[i - start] == t@[i as int]);
            assert(!spec_is_digits(d));
            return false;
        }
        acc = acc * 10 + ((u - 48) as u64);
        proof {
            let k = i - start;
            assert(d.take(k + 1).drop_last() =~= d.take(k));
            assert(d.take(k + 1).last() == d[k]);
            assert(d[k] == t@[i as int]);
            assert(spec_is_digits(d.take(k + 1))) by {
                assert(forall|x: int| 0 <= x < k + 1 ==> d.take(k + 1)[x] == d[x]);
            }
        }
        if acc > 0xFFFF_FFFFu64 {
            proof {
                if spec_is_digits(d) {
                    lemma_dec_value_prefix(d, i + 1 - start);
                }
            }
            return false;
        }
        i = i + 1;
    }
    proof {
        assert(d.take(t_len - start) =~= d);
    }
    acc == pid as u64
}

/// Whether any newline-separated segment of the listener-inspection output
/// names the process id.
pub open spec fn spec_output_names_pid(s: Seq<char>, pid: u32) -> bool
    decreases s.len(),
    via spec_output_names_pid_decreases
{
    let i = spec_find(s, '\n');
    if i == -1 {
        spec_line_names_pid(s, pid)
    } else {
        spec_line_names_pid(s.take(i), pid) || spec_output_names_pid(s.skip(i + 1), pid)
    }
}

#[via_fn]
proof fn spec_output_names_pid_decreases(s: Seq<char>, pid: u32) {
    lemma_find_is_first(s, '\n');
}

fn output_names_pid_from(v: &Vec<char>, pos: usize, pid: u32) -> (r: bool)
    requires
        pos <= v@.len(),
    ensures
        r == spec_output_names_pid(v@.skip(pos as int), pid),
    decreases v@.len() - pos,
{
    let v_len = v.len();
    let mut j: usize = pos;
    while j < v_len && v[j] != '\n'
        invariant
            pos <= j <= v_len,
            v_len == v@.len(),
            forall|k: int| pos <= k < j ==> v@[k] != '\n',
        decreases v_len - j,
    {
        j = j + 1;
    }
    proof {
        lemma_find_is_first(v@.skip(pos as int), '\n');
        let f = spec_find(v@.skip(pos as int), '\n');
        if j < v_len {
            assert(v@.skip(pos as int)[j - pos] == v@[j as int]);
            if f < j - pos && f >= 0 {
                assert(v@.skip(pos as int)[f] == v@[pos + f]);
            }
        } else {
            if f >= 0 {
                assert(v@.skip(pos as int)[f] == v@[pos + f]);
            }
        }
    }
    let line = crate::text::subvec(v, pos, j);
    if j == v_len {
        proof {
            assert(line@ =~= v@.skip(pos as int));
        }
        line_names_pid(&line, pid)
    } else {
        proof {
            assert(line@ =~= v@.skip(pos as int).take(j - pos));
        }
        if line_names_pid(&line, pid) {
            return true;
        }
        proof {
            assert(v@.skip(pos as int).skip(j - pos + 1) =~= v@.skip(j + 1));
        }
        output_names_pid_from(v, j + 1, pid)
    }
}

/// Decides from listener-inspection output (one process id per line, as
/// `lsof -ti` prints it) whether the given process id is still listed.
pub fn lsof_output_names_pid(output: &str, pid: u32) -> (r: bool)
    ensures
        r == spec_output_names_pid(output@, pid),
{
    let v = str_to_chars(output);
    proof {
        assert(v@.skip(0) =~= v@);
    }
    output_names_pid_from(&v, 0, pid)
}

} // verus!
