//! The desktop supervisor: what it looks for in the agent's output, how it
//! prepares the workspace, and what it hands to the processes it starts.

use crate::text::{
    char_is_ascii_digit, extend_str, find, find_chars, from_chars, is_ascii_digit, leading,
    lemma_leading_unique, parse_digits, push_decimal, decimal, digits_value, slice_chars, to_chars,
    trim, trim_chars, count_leading_digits, lemma_leading,
};
use vstd::prelude::*;

verus! {

/// Port the agent's gateway listens on.
pub const GATEWAY_PORT: u16 = 42617;

/// Port the document store listens on where none is configured.
pub const DEFAULT_DOCSTORE_PORT: u16 = 8090;

pub open spec fn is_not_digit(c: char) -> bool {
    !is_ascii_digit(c)
}

/// The code in an echo of the pairing header: the digits that follow
/// `X-Pairing-Code:`, after anything that is no digit, if there are exactly
/// six of them.
pub open spec fn header_code(line: Seq<char>) -> Option<Seq<char>> {
    match find(line, "X-Pairing-Code:"@) {
        Some(at) => {
            let tail = line.skip(at + "X-Pairing-Code:"@.len());
            let start = leading(tail, |c: char| is_not_digit(c));
            let digits = leading(tail.skip(start as int), |c: char| is_ascii_digit(c));
            if digits == 6 {
                Some(tail.subrange(start as int, start as int + 6))
            } else {
                None
            }
        },
        None => None,
    }
}

/// Whether six digits stand in `line` from index `i` on.
pub open spec fn six_digits_at(line: Seq<char>, i: int) -> bool {
    0 <= i && i + 6 <= line.len() && forall|k: int| 0 <= k < 6 ==> is_ascii_digit(#[trigger] line[i + k])
}

/// Whether `i` is where the first six digits in a row begin.
pub open spec fn is_first_run(line: Seq<char>, i: int) -> bool {
    six_digits_at(line, i) && forall|j: int| 0 <= j < i ==> !six_digits_at(line, j)
}

/// The code in a framed line: where the line has a box-drawing bar, the
/// first six digits that stand in a row.
pub open spec fn boxed_code(line: Seq<char>) -> Option<Seq<char>> {
    if line.contains('\u{2502}') && exists|i: int| is_first_run(line, i) {
        let i = choose|i: int| is_first_run(line, i);
        Some(line.subrange(i, i + 6))
    } else {
        None
    }
}

/// The pairing code that a line of the agent's output shows, if any.
pub open spec fn pairing_code_in(line: Seq<char>) -> Option<Seq<char>> {
    match header_code(line) {
        Some(code) => Some(code),
        None => boxed_code(line),
    }
}

fn char_is_not_digit(c: char) -> (r: bool)
    ensures
        r == is_not_digit(c),
{
    !char_is_ascii_digit(c)
}

fn code_after_header(line: &Vec<char>) -> (r: Option<Vec<char>>)
    ensures
        match r {
            Some(code) => header_code(line@) == Some(code@) && code@.len() == 6,
            None => header_code(line@).is_none(),
        },
{
    let marker = to_chars("X-Pairing-Code:");
    let at = match find_chars(line, &marker) {
        Some(at) => at,
        None => {
            return None;
        },
    };
    assert(at + marker.len() <= line.len());
    let tail = slice_chars(line, at + marker.len(), line.len());
    assert(tail@ == line@.skip(at + marker.len()));
    let ghost not_digit = |c: char| is_not_digit(c);
    let mut start: usize = 0;
    while start < tail.len() && char_is_not_digit(tail[start])
        invariant
            start <= tail.len(),
            forall|c: char| not_digit(c) == is_not_digit(c),
            forall|k: int| 0 <= k < start ==> not_digit(#[trigger] tail@[k]),
        decreases tail.len() - start,
    {
        start = start + 1;
    }
    proof {
        lemma_leading_unique(tail@, not_digit, start as int);
    }
    let rest = slice_chars(&tail, start, tail.len());
    assert(rest@ == tail@.skip(start as int));
    let digits = count_leading_digits(&rest);
    if digits == 6 {
        let code = slice_chars(&tail, start, start + 6);
        Some(code)
    } else {
        None
    }
}

fn has_bar(line: &Vec<char>) -> (r: bool)
    ensures
        r == line@.contains('\u{2502}'),
{
    let mut i: usize = 0;
    while i < line.len()
        invariant
            i <= line.len(),
            forall|k: int| 0 <= k < i ==> line@[k] != '\u{2502}',
        decreases line.len() - i,
    {
        if line[i] == '\u{2502}' {
            return true;
        }
        i = i + 1;
    }
    false
}

fn first_six_digits(line: &Vec<char>) -> (r: Option<usize>)
    ensures
        match r {
            Some(i) => is_first_run(line@, i as int),
            None => forall|i: int| !six_digits_at(line@, i),
        },
{
    let mut run: usize = 0;
    let mut i: usize = 0;
    while i < line.len()
        invariant
            i <= line.len(),
            run <= i,
            run < 6,
            forall|k: int| i - run <= k < i ==> is_ascii_digit(#[trigger] line@[k]),
            run < i ==> !is_ascii_digit(line@[i - run - 1]),
            forall|j: int| 0 <= j && j + 6 <= i ==> !six_digits_at(line@, j),
        decreases line.len() - i,
    {
        if char_is_ascii_digit(line[i]) {
            run = run + 1;
            if run == 6 {
                let at = i + 1 - 6;
                proof {
                    assert forall|k: int| 0 <= k < 6 implies is_ascii_digit(
                        #[trigger] line@[at + k],
                    ) by {}
                    assert forall|j: int| 0 <= j < at implies !six_digits_at(line@, j) by {
                        if j + 6 > i {
                            // the run is exactly six long, so a window that starts
                            // earlier covers the character before it
                            assert(at >= 1);
                            assert(!is_ascii_digit(line@[at - 1]));
                            assert(line@[j + (at - 1 - j)] == line@[at - 1]);
                        }
                    }
                }
                return Some(at);
            }
            proof {
                assert forall|j: int| 0 <= j && j + 6 <= i + 1 implies !six_digits_at(line@, j) by {
                    if j + 6 == i + 1 {
                        let stop = i + 1 - run - 1;
                        if run < i + 1 {
                            assert(!is_ascii_digit(line@[stop]));
                            assert(j <= stop);
                            assert(line@[j + (stop - j)] == line@[stop]);
                        }
                    }
                }
            }
        } else {
            proof {
                assert forall|j: int| 0 <= j && j + 6 <= i + 1 implies !six_digits_at(line@, j) by {
                    if j + 6 == i + 1 {
                        assert(line@[j + 5] == line@[i as int]);
                    }
                }
            }
            run = 0;
        }
        i = i + 1;
    }
    proof {
        assert forall|j: int| !six_digits_at(line@, j) by {
            if six_digits_at(line@, j) {
                assert(j + 6 <= line.len());
            }
        }
    }
    None
}

/// Finds the pairing code in a line of the agent's output.
pub fn extract_pairing_code(line: &str) -> (r: Option<String>)
    ensures
        match r {
            Some(code) => pairing_code_in(line@) == Some(code@) && code@.len() == 6,
            None => pairing_code_in(line@).is_none(),
        },
{
    let chars = to_chars(line);
    match code_after_header(&chars) {
        Some(code) => {
            return Some(from_chars(&code));
        },
        None => {},
    }
    if !has_bar(&chars) {
        return None;
    }
    match first_six_digits(&chars) {
        Some(i) => {
            proof {
                let k = choose|k: int| is_first_run(chars@, k);
                if k < i {
                    assert(!six_digits_at(chars@, k));
                } else if i < k {
                    assert(!six_digits_at(chars@, i as int));
                }
            }
            let code = slice_chars(&chars, i, i + 6);
            Some(from_chars(&code))
        },
        None => None,
    }
}

/// What is wrong with the name of a secret, if anything.
pub open spec fn locator_fault(service: Seq<char>, account: Seq<char>) -> Option<Seq<char>> {
    if trim(service).len() == 0 {
        Some("service is required"@)
    } else if trim(account).len() == 0 {
        Some("account is required"@)
    } else {
        None
    }
}

/// Checks that a secret is named by a service and an account.
pub fn validate_secret_locator(service: &str, account: &str) -> (r: Result<(), String>)
    ensures
        match r {
            Ok(_) => locator_fault(service@, account@).is_none(),
            Err(e) => locator_fault(service@, account@) == Some(e@),
        },
{
    if trim_chars(&to_chars(service)).len() == 0 {
        return Err("service is required".to_owned());
    }
    if trim_chars(&to_chars(account)).len() == 0 {
        return Err("account is required".to_owned());
    }
    Ok(())
}

/// Whether a stored token can be used: it is more than whitespace.
pub fn is_usable_token(token: &str) -> (r: bool)
    ensures
        r == (trim(token@).len() > 0),
{
    trim_chars(&to_chars(token)).len() > 0
}

/// The files every workspace holds.
pub fn core_workspace_files() -> (r: Vec<&'static str>)
    ensures
        r@.len() == 8,
        r@[0]@ == "AGENTS.md"@,
        r@[1]@ == "BOOTSTRAP.md"@,
        r@[2]@ == "HEARTBEAT.md"@,
        r@[3]@ == "IDENTITY.md"@,
        r@[4]@ == "MEMORY.md"@,
        r@[5]@ == "SOUL.md"@,
        r@[6]@ == "TOOLS.md"@,
        r@[7]@ == "USER.md"@,
{
    let mut r: Vec<&'static str> = Vec::new();
    r.push("AGENTS.md");
    r.push("BOOTSTRAP.md");
    r.push("HEARTBEAT.md");
    r.push("IDENTITY.md");
    r.push("MEMORY.md");
    r.push("SOUL.md");
    r.push("TOOLS.md");
    r.push("USER.md");
    r
}

/// The directories every workspace holds.
pub fn core_workspace_dirs() -> (r: Vec<&'static str>)
    ensures
        r@.len() == 5,
        r@[0]@ == "cron"@,
        r@[1]@ == "memory"@,
        r@[2]@ == "sessions"@,
        r@[3]@ == "skills"@,
        r@[4]@ == "state"@,
{
    let mut r: Vec<&'static str> = Vec::new();
    r.push("cron");
    r.push("memory");
    r.push("sessions");
    r.push("skills");
    r.push("state");
    r
}

/// Whether anything of the workspace is missing, given for each core file
/// and directory whether it exists.
pub fn workspace_skeleton_missing(files_present: &Vec<bool>, dirs_present: &Vec<bool>) -> (r: bool)
    ensures
        r == (files_present@.contains(false) || dirs_present@.contains(false)),
{
    any_missing(files_present) || any_missing(dirs_present)
}

fn any_missing(present: &Vec<bool>) -> (r: bool)
    ensures
        r == present@.contains(false),
{
    let mut i: usize = 0;
    while i < present.len()
        invariant
            i <= present.len(),
            forall|k: int| 0 <= k < i ==> present@[k],
        decreases present.len() - i,
    {
        if !present[i] {
            return true;
        }
        i = i + 1;
    }
    false
}

/// Whether a directory counts as empty: it holds nothing but `.DS_Store`.
pub fn is_effectively_empty(entries: &Vec<String>) -> (r: bool)
    ensures
        r == (forall|i: int| 0 <= i < entries@.len() ==> (#[trigger] entries@[i])@ == ".DS_Store"@),
{
    let mut i: usize = 0;
    while i < entries.len()
        invariant
            i <= entries.len(),
            forall|k: int| 0 <= k < i ==> (#[trigger] entries@[k])@ == ".DS_Store"@,
        decreases entries.len() - i,
    {
        if !crate::text::str_eq(entries[i].as_str(), ".DS_Store") {
            return false;
        }
        i = i + 1;
    }
    true
}

/// How the workspace is prepared at start.
#[derive(Debug, Clone, Copy, PartialEq, Eq, Structural)]
pub enum Preparation {
    /// Run the agent's onboarding, forcing it over an existing configuration.
    Onboard { force: bool },
    /// Create what is missing of the workspace.
    Repair,
    /// Nothing to do.
    Ready,
}

/// Decides how the workspace is prepared: without a configuration or with
/// an empty workspace the agent's onboarding runs; else what is missing is
/// created.
pub fn plan_preparation(config_exists: bool, workspace_empty: bool, skeleton_missing: bool) -> (r:
    Preparation)
    ensures
        r == if !config_exists || workspace_empty {
            Preparation::Onboard { force: config_exists }
        } else if skeleton_missing {
            Preparation::Repair
        } else {
            Preparation::Ready
        },
{
    if !config_exists || workspace_empty {
        Preparation::Onboard { force: config_exists }
    } else if skeleton_missing {
        Preparation::Repair
    } else {
        Preparation::Ready
    }
}

/// The processes the supervisor runs.
#[derive(Debug, Clone, Copy, PartialEq, Eq, Structural)]
pub enum Sidecar {
    DocStore,
    Agent,
}

/// The order in which the processes are started.
pub fn start_order() -> (r: Vec<Sidecar>)
    ensures
        r@ == seq![Sidecar::DocStore, Sidecar::Agent],
{
    let mut r: Vec<Sidecar> = Vec::new();
    r.push(Sidecar::DocStore);
    r.push(Sidecar::Agent);
    r
}

/// The order in which the processes are stopped: the reverse of the order
/// in which they were started.
pub fn stop_order() -> (r: Vec<Sidecar>)
    ensures
        r@ == seq![Sidecar::Agent, Sidecar::DocStore],
        r@ =~= seq![Sidecar::DocStore, Sidecar::Agent].reverse(),
{
    let mut r: Vec<Sidecar> = Vec::new();
    r.push(Sidecar::Agent);
    r.push(Sidecar::DocStore);
    r
}

/// An address of the form `http://<host>:<port>`.
pub open spec fn http_address(host: Seq<char>, port: u16) -> Seq<char> {
    "http://"@ + host + ":"@ + decimal(port as nat)
}

pub fn http_url(host: &str, port: u16) -> (r: String)
    ensures
        r@ == http_address(host@, port),
{
    let mut out = to_chars("http://");
    extend_str(&mut out, host);
    extend_str(&mut out, ":");
    push_decimal(&mut out, port as u64);
    from_chars(&out)
}

/// The address a phone reaches the gateway at: the machine's address on the
/// local network, or the loopback address where none is known.
pub fn mobile_gateway_url(lan_ip: Option<&str>) -> (r: String)
    ensures
        r@ == http_address(
            match lan_ip {
                Some(ip) => ip@,
                None => "127.0.0.1"@,
            },
            GATEWAY_PORT,
        ),
{
    match lan_ip {
        Some(ip) => http_url(ip, GATEWAY_PORT),
        None => http_url("127.0.0.1", GATEWAY_PORT),
    }
}

/// The port that a setting names: its digits as a number below 65536, or
/// the default.
pub fn docstore_port(configured: Option<&str>) -> (r: u16)
    ensures
        r == match configured {
            Some(v) => {
                let t = trim(v@);
                if t.len() > 0 && leading(t, |c: char| is_ascii_digit(c)) == t.len() && digits_value(t)
                    <= u16::MAX {
                    digits_value(t) as u16
                } else {
                    DEFAULT_DOCSTORE_PORT
                }
            },
            None => DEFAULT_DOCSTORE_PORT,
        },
{
    let value = match configured {
        Some(v) => v,
        None => {
            return DEFAULT_DOCSTORE_PORT;
        },
    };
    let t = trim_chars(&to_chars(value));
    let n = count_leading_digits(&t);
    if t.len() == 0 || n != t.len() {
        return DEFAULT_DOCSTORE_PORT;
    }
    proof {
        lemma_leading(t@, |c: char| is_ascii_digit(c));
    }
    match parse_digits(&t) {
        Some(port) => if port <= 65535 {
            port as u16
        } else {
            DEFAULT_DOCSTORE_PORT
        },
        None => DEFAULT_DOCSTORE_PORT,
    }
}

/// Stored credentials of the social account, in their current and their
/// older spelling.
#[derive(Debug)]
pub struct BlueskyCredentials {
    pub service_url: String,
    pub handle: String,
    pub app_password: String,
    pub service_url_legacy: String,
    pub app_password_legacy: String,
}

/// A stored session of the social account.
#[derive(Debug)]
pub struct BlueskySession {
    pub access_jwt: String,
    pub refresh_jwt: String,
    pub did: String,
    pub handle: String,
}

/// The older spelling where the current one is empty.
pub open spec fn preferred(current: Seq<char>, legacy: Seq<char>) -> Seq<char> {
    if current.len() == 0 {
        legacy
    } else {
        current
    }
}

/// `pairs` with the variable `name` set to the trimmed `value`, unless
/// nothing is left of it.
pub open spec fn with_variable(
    pairs: Seq<(Seq<char>, Seq<char>)>,
    name: Seq<char>,
    value: Seq<char>,
) -> Seq<(Seq<char>, Seq<char>)> {
    if trim(value).len() > 0 {
        pairs.push((name, trim(value)))
    } else {
        pairs
    }
}

/// The environment handed to the agent for the social account: nothing
/// without credentials; else each value that is set, trimmed, credentials
/// first and session after.
pub open spec fn bluesky_variables(
    credentials: Option<BlueskyCredentials>,
    session: Option<BlueskySession>,
) -> Seq<(Seq<char>, Seq<char>)> {
    match credentials {
        None => Seq::empty(),
        Some(c) => {
            let base = with_variable(
                with_variable(
                    with_variable(
                        Seq::empty(),
                        "SLOWCLAW_BLUESKY_SERVICE_URL"@,
                        preferred(c.service_url@, c.service_url_legacy@),
                    ),
                    "SLOWCLAW_BLUESKY_HANDLE"@,
                    c.handle@,
                ),
                "SLOWCLAW_BLUESKY_APP_PASSWORD"@,
                preferred(c.app_password@, c.app_password_legacy@),
            );
            match session {
                None => base,
                Some(s) => with_variable(
                    with_variable(
                        with_variable(
                            with_variable(base, "SLOWCLAW_BLUESKY_ACCESS_JWT"@, s.access_jwt@),
                            "SLOWCLAW_BLUESKY_REFRESH_JWT"@,
                            s.refresh_jwt@,
                        ),
                        "SLOWCLAW_BLUESKY_DID"@,
                        s.did@,
                    ),
                    "SLOWCLAW_BLUESKY_SESSION_HANDLE"@,
                    s.handle@,
                ),
            }
        },
    }
}

pub open spec fn pairs_view(pairs: Seq<(String, String)>) -> Seq<(Seq<char>, Seq<char>)> {
    pairs.map_values(|p: (String, String)| (p.0@, p.1@))
}

fn push_variable(pairs: &mut Vec<(String, String)>, name: &str, value: &str)
    ensures
        pairs_view(final(pairs)@) == with_variable(pairs_view(old(pairs)@), name@, value@),
{
    let t = trim_chars(&to_chars(value));
    if t.len() > 0 {
        let ghost prev = pairs@;
        pairs.push((name.to_owned(), from_chars(&t)));
        proof {
            assert(pairs_view(pairs@) =~= pairs_view(prev).push((name@, trim(value@))));
        }
    }
}

fn prefer<'a>(current: &'a String, legacy: &'a String) -> (r: &'a str)
    ensures
        r@ == preferred(current@, legacy@),
{
    if current.as_str().is_empty() {
        legacy.as_str()
    } else {
        current.as_str()
    }
}

/// The environment handed to the agent for the social account.
pub fn bluesky_env_pairs(credentials: &Option<BlueskyCredentials>, session: &Option<BlueskySession>) -> (r:
    Vec<(String, String)>)
    ensures
        pairs_view(r@) == bluesky_variables(*credentials, *session),
{
    let mut envs: Vec<(String, String)> = Vec::new();
    assert(pairs_view(envs@) =~= Seq::<(Seq<char>, Seq<char>)>::empty());
    let c = match credentials {
        Some(c) => c,
        None => {
            return envs;
        },
    };
    push_variable(
        &mut envs,
        "SLOWCLAW_BLUESKY_SERVICE_URL",
        prefer(&c.service_url, &c.service_url_legacy),
    );
    push_variable(&mut envs, "SLOWCLAW_BLUESKY_HANDLE", c.handle.as_str());
    push_variable(
        &mut envs,
        "SLOWCLAW_BLUESKY_APP_PASSWORD",
        prefer(&c.app_password, &c.app_password_legacy),
    );
    match session {
        Some(s) => {
            push_variable(&mut envs, "SLOWCLAW_BLUESKY_ACCESS_JWT", s.access_jwt.as_str());
            push_variable(&mut envs, "SLOWCLAW_BLUESKY_REFRESH_JWT", s.refresh_jwt.as_str());
            push_variable(&mut envs, "SLOWCLAW_BLUESKY_DID", s.did.as_str());
            push_variable(&mut envs, "SLOWCLAW_BLUESKY_SESSION_HANDLE", s.handle.as_str());
        },
        None => {},
    }
    envs
}

} // verus!
