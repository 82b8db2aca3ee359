//! Typed host errors.

use vstd::prelude::*;

use crate::text::{chars_of, copy_range, extend_chars, find_chars, first_occurrence, spec_trim, string_of, trim_chars};

verus! {

/// Marker the watchdog puts into a Lua error when a handler overran.
pub const WATCHDOG_MARKER: &'static str = "pi-rs-host watchdog:";

/// Marker of a Lua error raised by cancellation.
pub const CANCEL_MARKER: &'static str = "pi-rs-host cancelled";

/// Marker that precedes a declaration conflict in a Lua error.
pub const CONFLICT_MARKER: &'static str = "pi-rs-host conflict:";

/// Errors of the host.
#[derive(Debug)]
pub enum HostError {
    Lua(String),
    Timeout(i64),
    VmUnavailable,
    UnknownRoot(String),
    UnknownSelectedRoot { kind: String, id: String, selected_by: String },
    InvalidRootKind(String),
    InvalidDeclarationKind(String),
    Conflict(String),
    Cancelled,
    StaleHandle { handle: u64, current: u64 },
    UnknownScope(u64),
    DisposedScope(u64),
    ScopeOwnership(u64),
    Io(String),
}

/// The text up to (not including) the first `\n`.
pub open spec fn first_line(s: Seq<char>) -> Seq<char> {
    match first_occurrence(s, seq!['\n'], 0) {
        Some(k) => s.take(k),
        None => s,
    }
}

/// How a Lua error message is classified.
pub open spec fn lua_message_kind(
    msg: Seq<char>,
    watchdog: Seq<char>,
    cancel: Seq<char>,
    conflict: Seq<char>,
) -> int {
    if first_occurrence(msg, watchdog, 0) is Some {
        0
    } else if first_occurrence(msg, cancel, 0) is Some {
        1
    } else if first_occurrence(msg, conflict, 0) is Some {
        2
    } else {
        3
    }
}

/// `n` in decimal, with a leading `-` when negative.
pub open spec fn signed_decimal(n: int) -> Seq<char> {
    if n >= 0 {
        decimal_digits(n as nat)
    } else {
        seq!['-'] + decimal_digits((-n) as nat)
    }
}

/// The message of a host error.
pub open spec fn host_error_text(e: HostError) -> Seq<char> {
    match e {
        HostError::Lua(m) => "lua: "@ + m@,
        HostError::Timeout(ms) => "handler timed out (watchdog, "@ + signed_decimal(ms as int)
            + "ms of continuous Lua execution)"@,
        HostError::VmUnavailable => "lua vm thread unavailable"@,
        HostError::UnknownRoot(r) => "no active kernel root for '"@ + r@ + seq!['\''],
        HostError::UnknownSelectedRoot { kind, id, selected_by } => kind@ + " root '"@ + id@ + "' selected by "@
            + selected_by@ + " is not registered and active"@,
        HostError::InvalidRootKind(k) => "invalid kernel root kind '"@ + k@ + seq!['\''],
        HostError::InvalidDeclarationKind(k) => "invalid declaration kind '"@ + k@ + seq!['\''],
        HostError::Conflict(c) => "declaration conflict: "@ + c@,
        HostError::Cancelled => "dispatch cancelled"@,
        HostError::StaleHandle { handle, current } => "stale read handle generation "@ + decimal_digits(handle as nat)
            + "; current generation is "@ + decimal_digits(current as nat),
        HostError::UnknownScope(s) => "unknown scope "@ + decimal_digits(s as nat),
        HostError::DisposedScope(s) => "scope "@ + decimal_digits(s as nat) + " is disposed"@,
        HostError::ScopeOwnership(s) => "scope "@ + decimal_digits(s as nat) + " is not owned by this package handle"@,
        HostError::Io(m) => "io: "@ + m@,
    }
}

impl HostError {
    /// Classifies the message of a Lua error: a watchdog overrun becomes
    /// `Timeout(budget_ms)`, a cancellation `Cancelled`, a declaration
    /// conflict `Conflict` with the trimmed first line after the marker, and
    /// anything else stays a `Lua` error with the whole message.
    pub fn from_lua_message(message: String, budget_ms: i64) -> (e: HostError)
        ensures
            lua_message_kind(message@, WATCHDOG_MARKER@, CANCEL_MARKER@, CONFLICT_MARKER@) == 0 ==> e == HostError::Timeout(budget_ms),
            lua_message_kind(message@, WATCHDOG_MARKER@, CANCEL_MARKER@, CONFLICT_MARKER@) == 1 ==> e is Cancelled,
            lua_message_kind(message@, WATCHDOG_MARKER@, CANCEL_MARKER@, CONFLICT_MARKER@) == 2 ==> (e matches HostError::Conflict(c)
                && c@ == spec_trim(first_line(message@.skip(
                    first_occurrence(message@, CONFLICT_MARKER@, 0)->0 + CONFLICT_MARKER@.len())))),
            lua_message_kind(message@, WATCHDOG_MARKER@, CANCEL_MARKER@, CONFLICT_MARKER@) == 3 ==> (e matches HostError::Lua(m)
                && m@ == message@),
    {
        let msg = chars_of(message.as_str());
        let watchdog = chars_of(WATCHDOG_MARKER);
        let cancel = chars_of(CANCEL_MARKER);
        let conflict = chars_of(CONFLICT_MARKER);
        if find_chars(&msg, &watchdog).is_some() {
            return HostError::Timeout(budget_ms);
        }
        if find_chars(&msg, &cancel).is_some() {
            return HostError::Cancelled;
        }
        match find_chars(&msg, &conflict) {
            Some(k) => {
                let n = msg.len();
                let start = k + conflict.len();
                let rest = copy_range(&msg, start, n);
                assert(rest@ =~= msg@.skip(k + conflict@.len()));
                let nl = vec!['\n'];
                assert(nl@ =~= seq!['\n']);
                let line = match find_chars(&rest, &nl) {
                    Some(j) => {
                        let l = copy_range(&rest, 0, j);
                        assert(l@ =~= rest@.take(j as int));
                        l
                    },
                    None => rest,
                };
                let trimmed = trim_chars(&line);
                HostError::Conflict(string_of(trimmed.as_slice()))
            },
            None => HostError::Lua(message),
        }
    }

    /// The error's message, as the host displays it.
    pub fn message(&self) -> (s: String)
        ensures
            s@ == host_error_text(*self),
    {
        let mut out: Vec<char> = Vec::new();
        match self {
            HostError::Lua(m) => {
                extend_chars(&mut out, &chars_of("lua: "));
                extend_chars(&mut out, &chars_of(m.as_str()));
            },
            HostError::Timeout(ms) => {
                extend_chars(&mut out, &chars_of("handler timed out (watchdog, "));
                push_signed(&mut out, *ms);
                extend_chars(&mut out, &chars_of("ms of continuous Lua execution)"));
            },
            HostError::VmUnavailable => {
                extend_chars(&mut out, &chars_of("lua vm thread unavailable"));
            },
            HostError::UnknownRoot(r) => {
                extend_chars(&mut out, &chars_of("no active kernel root for '"));
                extend_chars(&mut out, &chars_of(r.as_str()));
                out.push('\'');
            },
            HostError::UnknownSelectedRoot { kind, id, selected_by } => {
                extend_chars(&mut out, &chars_of(kind.as_str()));
                extend_chars(&mut out, &chars_of(" root '"));
                extend_chars(&mut out, &chars_of(id.as_str()));
                extend_chars(&mut out, &chars_of("' selected by "));
                extend_chars(&mut out, &chars_of(selected_by.as_str()));
                extend_chars(&mut out, &chars_of(" is not registered and active"));
            },
            HostError::InvalidRootKind(k) => {
                extend_chars(&mut out, &chars_of("invalid kernel root kind '"));
                extend_chars(&mut out, &chars_of(k.as_str()));
                out.push('\'');
            },
            HostError::InvalidDeclarationKind(k) => {
                extend_chars(&mut out, &chars_of("invalid declaration kind '"));
                extend_chars(&mut out, &chars_of(k.as_str()));
                out.push('\'');
            },
            HostError::Conflict(c) => {
                extend_chars(&mut out, &chars_of("declaration conflict: "));
                extend_chars(&mut out, &chars_of(c.as_str()));
            },
            HostError::Cancelled => {
                extend_chars(&mut out, &chars_of("dispatch cancelled"));
            },
            HostError::StaleHandle { handle, current } => {
                extend_chars(&mut out, &chars_of("stale read handle generation "));
                push_unsigned(&mut out, *handle);
                extend_chars(&mut out, &chars_of("; current generation is "));
                push_unsigned(&mut out, *current);
            },
            HostError::UnknownScope(s) => {
                extend_chars(&mut out, &chars_of("unknown scope "));
                push_unsigned(&mut out, *s);
            },
            HostError::DisposedScope(s) => {
                extend_chars(&mut out, &chars_of("scope "));
                push_unsigned(&mut out, *s);
                extend_chars(&mut out, &chars_of(" is disposed"));
            },
            HostError::ScopeOwnership(s) => {
                extend_chars(&mut out, &chars_of("scope "));
                push_unsigned(&mut out, *s);
                extend_chars(&mut out, &chars_of(" is not owned by this package handle"));
            },
            HostError::Io(m) => {
                extend_chars(&mut out, &chars_of("io: "));
                extend_chars(&mut out, &chars_of(m.as_str()));
            },
        }
        string_of(out.as_slice())
    }
}

/// The digit character for `d < 10`.
pub open spec fn digit_of(d: int) -> char {
    if d == 0 { '0' } else if d == 1 { '1' } else if d == 2 { '2' } else if d == 3 { '3' } else if d == 4 { '4' }
    else if d == 5 { '5' } else if d == 6 { '6' } else if d == 7 { '7' } else if d == 8 { '8' } else { '9' }
}

/// The decimal digits of `n`.
pub open spec fn decimal_digits(n: nat) -> Seq<char>
    decreases n,
{
    if n < 10 { seq![digit_of(n as int)] } else { decimal_digits(n / 10).push(digit_of((n % 10) as int)) }
}

fn digit_char(d: u64) -> (c: char)
    requires
        d < 10,
    ensures
        c == digit_of(d as int),
{
    if d == 0 { '0' } else if d == 1 { '1' } else if d == 2 { '2' } else if d == 3 { '3' } else if d == 4 { '4' }
    else if d == 5 { '5' } else if d == 6 { '6' } else if d == 7 { '7' } else if d == 8 { '8' } else { '9' }
}

/// Appends the decimal digits of `n`.
pub fn push_unsigned(out: &mut Vec<char>, n: u64)
    ensures
        final(out)@ == old(out)@ + decimal_digits(n as nat),
    decreases n,
{
    if n >= 10 {
        push_unsigned(out, n / 10);
    }
    out.push(digit_char(n % 10));
}

/// Appends `n` in decimal, with a leading `-` when negative.
pub fn push_signed(out: &mut Vec<char>, n: i64)
    ensures
        n >= 0 ==> final(out)@ == old(out)@ + decimal_digits(n as nat),
        n < 0 ==> final(out)@ == old(out)@ + seq!['-'] + decimal_digits((-(n as int)) as nat),
{
    if n >= 0 {
        push_unsigned(out, n as u64);
    } else {
        out.push('-');
        let m: u64 = if n == i64::MIN { 9223372036854775808u64 } else { (-n) as u64 };
        push_unsigned(out, m);
    }
}

} // verus!
