//! Scope-owned OS effects: the typed requests, their options and
//! validation, the accounting of leases and queued requests, and the
//! clipboard's MIME-type rules. Running the effects (processes, files,
//! HTTP, timers) is the runtime's part.

use vstd::prelude::*;

use base64::Engine as _;

use crate::text::{chars_eq, chars_of, extend_chars, spec_trim, string_of, trim_chars};

verus! {

/// Capacity of the request queue.
pub const REQUEST_QUEUE_CAPACITY: usize = 32;

/// Most effects running at once.
pub const MAX_IN_FLIGHT: usize = 16;

/// Default capacity of an effect's output stream.
pub const DEFAULT_STREAM_CAPACITY: usize = 8;

/// Default limit on an effect's collected output (8 MiB).
pub const DEFAULT_MAX_OUTPUT_BYTES: usize = 8388608;

/// A span of time: whole seconds and nanoseconds below a second.
#[derive(Debug, Clone, Copy, PartialEq, Eq, Structural)]
pub struct Duration {
    pub secs: u64,
    pub nanos: u32,
}

impl Duration {
    pub fn from_secs(secs: u64) -> (d: Duration)
        ensures
            d.secs == secs,
            d.nanos == 0,
    {
        Duration { secs, nanos: 0 }
    }

    pub fn from_millis(millis: u64) -> (d: Duration)
        ensures
            d.secs == millis / 1000,
            d.nanos == (millis % 1000) * 1000000,
    {
        Duration { secs: millis / 1000, nanos: ((millis % 1000) * 1000000) as u32 }
    }

    pub fn is_zero(&self) -> (r: bool)
        ensures
            r == (self.secs == 0 && self.nanos == 0),
    {
        self.secs == 0 && self.nanos == 0
    }
}

/// When an effect times out: after a span, or never.
#[derive(Debug, Clone, Copy, PartialEq, Eq, Structural)]
pub enum EffectTimeout {
    After(Duration),
    Disabled,
}

/// How an effect runs: its timeout, its stream capacity and its output
/// limit.
#[derive(Debug, Clone, Copy, PartialEq, Eq, Structural)]
pub struct EffectOptions {
    pub timeout: EffectTimeout,
    pub stream_capacity: usize,
    pub max_output_bytes: usize,
}

/// Failures of effects.
pub enum EffectError {
    Cancelled,
    Timeout,
    OutputLimit(usize),
    Invalid(String),
    QueueClosed,
    Io(String),
    Http(String),
}

/// The message of an effect error.
pub open spec fn effect_error_text(e: EffectError) -> Seq<char> {
    match e {
        EffectError::Cancelled => "effect cancelled"@,
        EffectError::Timeout => "effect timed out"@,
        EffectError::OutputLimit(n) => "effect output exceeded "@ + crate::error::decimal_digits(n as nat) + " bytes"@,
        EffectError::Invalid(m) => "invalid effect request: "@ + m@,
        EffectError::QueueClosed => "effect queue is unavailable"@,
        EffectError::Io(m) => m@,
        EffectError::Http(m) => m@,
    }
}

impl EffectError {
    /// The error's message, as displayed.
    pub fn message(&self) -> (s: String)
        ensures
            s@ == effect_error_text(*self),
    {
        let mut out: Vec<char> = Vec::new();
        match self {
            EffectError::Cancelled => extend_chars(&mut out, &chars_of("effect cancelled")),
            EffectError::Timeout => extend_chars(&mut out, &chars_of("effect timed out")),
            EffectError::OutputLimit(n) => {
                extend_chars(&mut out, &chars_of("effect output exceeded "));
                crate::error::push_unsigned(&mut out, *n as u64);
                extend_chars(&mut out, &chars_of(" bytes"));
            },
            EffectError::Invalid(m) => {
                extend_chars(&mut out, &chars_of("invalid effect request: "));
                extend_chars(&mut out, &chars_of(m.as_str()));
            },
            EffectError::QueueClosed => extend_chars(&mut out, &chars_of("effect queue is unavailable")),
            EffectError::Io(m) => extend_chars(&mut out, &chars_of(m.as_str())),
            EffectError::Http(m) => extend_chars(&mut out, &chars_of(m.as_str())),
        }
        string_of(out.as_slice())
    }
}

/// Why options are refused, if they are: a stream capacity outside
/// `1..=32`, an output limit of zero, or a zero timeout.
pub open spec fn options_problem(o: EffectOptions) -> Option<Seq<char>> {
    if o.stream_capacity == 0 || o.stream_capacity > REQUEST_QUEUE_CAPACITY {
        Some("stream_capacity must be in 1..=32"@)
    } else if o.max_output_bytes == 0 {
        Some("max_output_bytes must be greater than zero"@)
    } else if o.timeout matches EffectTimeout::After(d) && d.secs == 0 && d.nanos == 0 {
        Some("timeout must be greater than zero or explicitly disabled"@)
    } else {
        None
    }
}

impl EffectOptions {
    /// Options that time out after `timeout`, with the default capacity
    /// and output limit.
    pub fn bounded(timeout: Duration) -> (o: EffectOptions)
        ensures
            o == (EffectOptions {
                timeout: EffectTimeout::After(timeout),
                stream_capacity: DEFAULT_STREAM_CAPACITY,
                max_output_bytes: DEFAULT_MAX_OUTPUT_BYTES,
            }),
    {
        EffectOptions {
            timeout: EffectTimeout::After(timeout),
            stream_capacity: DEFAULT_STREAM_CAPACITY,
            max_output_bytes: DEFAULT_MAX_OUTPUT_BYTES,
        }
    }

    /// Options that never time out, with the default capacity and output
    /// limit.
    pub fn long_lived() -> (o: EffectOptions)
        ensures
            o == (EffectOptions {
                timeout: EffectTimeout::Disabled,
                stream_capacity: DEFAULT_STREAM_CAPACITY,
                max_output_bytes: DEFAULT_MAX_OUTPUT_BYTES,
            }),
    {
        EffectOptions {
            timeout: EffectTimeout::Disabled,
            stream_capacity: DEFAULT_STREAM_CAPACITY,
            max_output_bytes: DEFAULT_MAX_OUTPUT_BYTES,
        }
    }

    /// Accepts the options, or refuses them as invalid with the reason.
    pub fn validate(&self) -> (r: Result<(), EffectError>)
        ensures
            options_problem(*self) is None ==> r is Ok,
            options_problem(*self) matches Some(m) ==> (r matches Err(EffectError::Invalid(s)) && s@ == m),
    {
        if self.stream_capacity == 0 || self.stream_capacity > REQUEST_QUEUE_CAPACITY {
            return Err(EffectError::Invalid("stream_capacity must be in 1..=32".to_owned()));
        }
        if self.max_output_bytes == 0 {
            return Err(EffectError::Invalid("max_output_bytes must be greater than zero".to_owned()));
        }
        if let EffectTimeout::After(d) = self.timeout {
            if d.is_zero() {
                return Err(EffectError::Invalid("timeout must be greater than zero or explicitly disabled".to_owned()));
            }
        }
        Ok(())
    }
}

/// Default options are valid, bounded or long-lived, as long as a bounded
/// timeout is not zero.
pub proof fn law_default_options_valid(timeout: Duration)
    ensures
        !(timeout.secs == 0 && timeout.nanos == 0) ==> options_problem(EffectOptions {
            timeout: EffectTimeout::After(timeout),
            stream_capacity: DEFAULT_STREAM_CAPACITY,
            max_output_bytes: DEFAULT_MAX_OUTPUT_BYTES,
        }) is None,
        options_problem(EffectOptions {
            timeout: EffectTimeout::Disabled,
            stream_capacity: DEFAULT_STREAM_CAPACITY,
            max_output_bytes: DEFAULT_MAX_OUTPUT_BYTES,
        }) is None,
{
}

/// A file-system request.
pub enum FsRequest {
    Read { path: String, bytes: bool },
    Write { path: String, contents: Vec<u8> },
    Append { path: String, contents: Vec<u8> },
    Exists { path: String },
    ReadDir { path: String },
    Stat { path: String },
    Mkdir { path: String },
    Realpath { path: String },
    RemoveFile { path: String },
    CreateTempFile { prefix: String, contents: Vec<u8> },
}

/// A clipboard request, with the environment and platform it runs in.
pub enum ClipboardRequest {
    ReadImage { env: Vec<(String, String)>, platform: String },
    WriteText { text: String, env: Vec<(String, String)>, platform: String },
}

/// A cryptography request.
pub enum CryptoRequest {
    Sha256(Vec<u8>),
    RandomBytes(usize),
    RandomUuid,
}

/// A process to run.
pub struct ProcessRequest {
    pub program: String,
    pub args: Vec<String>,
    pub cwd: Option<String>,
    pub stdin: Option<Vec<u8>>,
    pub options: EffectOptions,
}

/// Which output stream of a process.
#[derive(Debug, Clone, Copy, PartialEq, Eq, Structural)]
pub enum ProcessOutputKind {
    Stdout,
    Stderr,
}

/// How a process ended.
#[derive(Debug, Clone, Copy, PartialEq, Eq, Structural)]
pub struct ProcessOutput {
    pub code: i64,
    pub killed: bool,
}

/// What a running process reports.
pub enum ProcessEvent {
    Output(ProcessOutputKind, Vec<u8>),
    Exit(ProcessOutput),
    Error(EffectError),
}

/// An HTTP request.
pub struct HttpRequest {
    pub url: String,
    pub headers: Vec<(String, String)>,
    pub options: EffectOptions,
}

/// What a file's metadata says.
pub struct FileStat {
    pub kind: String,
    pub size: u64,
    pub modified_ms: i64,
}

/// The result of a file-system request.
pub enum FsResult {
    Bytes(Vec<u8>),
    Bool(bool),
    Names(Vec<String>),
    Stat(FileStat),
    Path(String),
    Unit,
}

/// An image read from the clipboard.
pub struct ClipboardImage {
    pub bytes: Vec<u8>,
    pub mime_type: String,
}

/// The result of a clipboard request.
pub enum ClipboardResult {
    Image(Option<ClipboardImage>),
    Unit,
}

/// Any effect request.
pub enum EffectRequest {
    Fs(FsRequest, EffectOptions),
    Process(ProcessRequest),
    Http(HttpRequest),
    Timer(Duration, EffectOptions),
    Clipboard(ClipboardRequest, EffectOptions),
    Crypto(CryptoRequest, EffectOptions),
}

impl EffectRequest {
    /// The options the request runs with.
    pub fn options(&self) -> (o: &EffectOptions)
        ensures
            *o == match *self {
                EffectRequest::Fs(_, o) => o,
                EffectRequest::Process(p) => p.options,
                EffectRequest::Http(h) => h.options,
                EffectRequest::Timer(_, o) => o,
                EffectRequest::Clipboard(_, o) => o,
                EffectRequest::Crypto(_, o) => o,
            },
    {
        match self {
            EffectRequest::Fs(_, options) => options,
            EffectRequest::Timer(_, options) => options,
            EffectRequest::Clipboard(_, options) => options,
            EffectRequest::Crypto(_, options) => options,
            EffectRequest::Process(request) => &request.options,
            EffectRequest::Http(request) => &request.options,
        }
    }
}

/// A snapshot of the effect counters.
#[derive(Debug, Clone, Copy, PartialEq, Eq, Structural)]
pub struct EffectStats {
    pub active: usize,
    pub queued: usize,
    pub peak_active: usize,
    pub peak_queued: usize,
}


/// The effect counters: leases running, requests queued, their peaks,
/// and how many leases each scope holds (scopes with none are absent).
pub struct EffectCounters {
    pub active: usize,
    pub queued: usize,
    pub peak_active: usize,
    pub peak_queued: usize,
    pub scopes: Vec<(u64, usize)>,
}

/// Leases held by `scope`.
pub open spec fn held_by(scopes: Seq<(u64, usize)>, scope: u64) -> int
    decreases scopes.len(),
{
    if scopes.len() == 0 {
        0
    } else if scopes.last().0 == scope {
        scopes.last().1 as int
    } else {
        held_by(scopes.drop_last(), scope)
    }
}

/// `v + 1`, wrapping as the atomic counters do.
pub open spec fn inc(v: usize) -> usize {
    if v == usize::MAX { 0 } else { (v + 1) as usize }
}

/// `v - 1`, wrapping as the atomic counters do.
pub open spec fn dec(v: usize) -> usize {
    if v == 0 { usize::MAX } else { (v - 1) as usize }
}

/// The larger of two counts.
pub open spec fn max_of(a: usize, b: usize) -> usize {
    if a < b { b } else { a }
}

fn wrapping_inc(v: usize) -> (r: usize)
    ensures
        r == inc(v),
{
    if v == usize::MAX { 0 } else { v + 1 }
}

fn wrapping_dec(v: usize) -> (r: usize)
    ensures
        r == dec(v),
{
    if v == 0 { usize::MAX } else { v - 1 }
}

/// Raises `peak` to `value` when `value` is larger.
fn update_peak(peak: usize, value: usize) -> (r: usize)
    ensures
        r == max_of(peak, value),
{
    if value > peak { value } else { peak }
}

proof fn lemma_held_by_at(scopes: Seq<(u64, usize)>, i: int, scope: u64)
    requires
        0 <= i < scopes.len(),
        scopes[i].0 == scope,
        forall|a: int, b: int| 0 <= a < b < scopes.len() ==> scopes[a].0 != scopes[b].0,
    ensures
        held_by(scopes, scope) == scopes[i].1,
    decreases scopes.len(),
{
    if i < scopes.len() - 1 {
        lemma_held_by_at(scopes.drop_last(), i, scope);
    }
}

proof fn lemma_held_by_absent(scopes: Seq<(u64, usize)>, scope: u64)
    requires
        forall|j: int| 0 <= j < scopes.len() ==> scopes[j].0 != scope,
    ensures
        held_by(scopes, scope) == 0,
    decreases scopes.len(),
{
    if scopes.len() > 0 {
        lemma_held_by_absent(scopes.drop_last(), scope);
    }
}

proof fn lemma_held_by_update(scopes: Seq<(u64, usize)>, i: int, v: usize, other: u64)
    requires
        0 <= i < scopes.len(),
        scopes[i].0 != other,
    ensures
        held_by(scopes.update(i, (scopes[i].0, v)), other) == held_by(scopes, other),
    decreases scopes.len(),
{
    let u = scopes.update(i, (scopes[i].0, v));
    if i < scopes.len() - 1 {
        assert(u.drop_last() =~= scopes.drop_last().update(i, (scopes[i].0, v)));
        lemma_held_by_update(scopes.drop_last(), i, v, other);
    } else {
        assert(u.drop_last() =~= scopes.drop_last());
    }
}

proof fn lemma_held_by_remove(scopes: Seq<(u64, usize)>, i: int, other: u64)
    requires
        0 <= i < scopes.len(),
        scopes[i].0 != other,
    ensures
        held_by(scopes.remove(i), other) == held_by(scopes, other),
    decreases scopes.len(),
{
    let r = scopes.remove(i);
    if i < scopes.len() - 1 {
        assert(r.drop_last() =~= scopes.drop_last().remove(i));
        assert(r.last() == scopes.last());
        lemma_held_by_remove(scopes.drop_last(), i, other);
    } else {
        assert(r =~= scopes.drop_last());
    }
}

impl EffectCounters {
    /// Each scope listed once, holding at least one lease; peaks are at
    /// least the current counts.
    pub open spec fn wf(&self) -> bool {
        &&& forall|a: int, b: int| 0 <= a < b < self.scopes@.len() ==> self.scopes@[a].0 != self.scopes@[b].0
        &&& forall|a: int| 0 <= a < self.scopes@.len() ==> (#[trigger] self.scopes@[a]).1 >= 1
        &&& self.peak_active >= self.active
        &&& self.peak_queued >= self.queued
    }

    pub fn new() -> (c: EffectCounters)
        ensures
            c.wf(),
            c.active == 0 && c.queued == 0 && c.peak_active == 0 && c.peak_queued == 0,
            forall|s: u64| held_by(c.scopes@, s) == 0,
    {
        let c = EffectCounters { active: 0, queued: 0, peak_active: 0, peak_queued: 0, scopes: Vec::new() };
        assert forall|s: u64| held_by(c.scopes@, s) == 0 by {}
        c
    }

    fn find(&self, scope: u64) -> (r: Option<usize>)
        ensures
            r matches Some(i) ==> i < self.scopes@.len() && self.scopes@[i as int].0 == scope,
            r is None ==> forall|j: int| 0 <= j < self.scopes@.len() ==> self.scopes@[j].0 != scope,
    {
        let mut i: usize = 0;
        while i < self.scopes.len()
            invariant
                i <= self.scopes@.len(),
                forall|j: int| 0 <= j < i ==> self.scopes@[j].0 != scope,
            decreases self.scopes@.len() - i,
        {
            if self.scopes[i].0 == scope {
                return Some(i);
            }
            i += 1;
        }
        None
    }

    /// A lease starts in `scope`: one more active (and the peak follows),
    /// one more held by the scope.
    pub fn lease_acquired(&mut self, scope: u64)
        requires
            old(self).wf(),
            held_by(old(self).scopes@, scope) < usize::MAX,
        ensures
            final(self).wf(),
            final(self).active == inc(old(self).active),
            final(self).peak_active == max_of(old(self).peak_active, inc(old(self).active)),
            final(self).queued == old(self).queued,
            final(self).peak_queued == old(self).peak_queued,
            held_by(final(self).scopes@, scope) == held_by(old(self).scopes@, scope) + 1,
            forall|s: u64| s != scope ==> #[trigger] held_by(final(self).scopes@, s) == held_by(old(self).scopes@, s),
    {
        self.active = wrapping_inc(self.active);
        self.peak_active = update_peak(self.peak_active, self.active);
        let ghost before = self.scopes@;
        match self.find(scope) {
            Some(i) => {
                let n = self.scopes[i].1;
                proof {
                    lemma_held_by_at(before, i as int, scope);
                }
                self.scopes.set(i, (scope, n + 1));
                proof {
                    lemma_held_by_at(self.scopes@, i as int, scope);
                    assert forall|s: u64| s != scope implies #[trigger] held_by(self.scopes@, s) == held_by(before, s) by {
                        lemma_held_by_update(before, i as int, (n + 1) as usize, s);
                    }
                }
            },
            None => {
                proof {
                    lemma_held_by_absent(before, scope);
                }
                self.scopes.push((scope, 1));
                assert(self.scopes@.drop_last() =~= before);
                assert forall|s: u64| s != scope implies #[trigger] held_by(self.scopes@, s) == held_by(before, s) by {}
            },
        }
    }

    /// A lease of `scope` ends: one fewer active, one fewer held by the
    /// scope, which is dropped from the list when it holds none.
    pub fn lease_released(&mut self, scope: u64)
        requires
            old(self).wf(),
        ensures
            final(self).wf(),
            final(self).active == dec(old(self).active) || (old(self).active == 0 && final(self).active == 0),
            final(self).queued == old(self).queued,
            held_by(old(self).scopes@, scope) > 0 ==> held_by(final(self).scopes@, scope) == held_by(old(self).scopes@, scope) - 1,
            held_by(old(self).scopes@, scope) == 0 ==> held_by(final(self).scopes@, scope) == 0,
            forall|s: u64| s != scope ==> #[trigger] held_by(final(self).scopes@, s) == held_by(old(self).scopes@, s),
    {
        self.active = wrapping_dec(self.active);
        if self.active > self.peak_active {
            self.peak_active = self.active;
        }
        let ghost before = self.scopes@;
        match self.find(scope) {
            Some(i) => {
                let n = self.scopes[i].1;
                proof {
                    lemma_held_by_at(before, i as int, scope);
                }
                if n <= 1 {
                    self.scopes.remove(i);
                    proof {
                        lemma_held_by_absent(self.scopes@, scope);
                        assert forall|s: u64| s != scope implies #[trigger] held_by(self.scopes@, s) == held_by(before, s) by {
                            lemma_held_by_remove(before, i as int, s);
                        }
                    }
                } else {
                    self.scopes.set(i, (scope, n - 1));
                    proof {
                        lemma_held_by_at(self.scopes@, i as int, scope);
                        assert forall|s: u64| s != scope implies #[trigger] held_by(self.scopes@, s) == held_by(before, s) by {
                            lemma_held_by_update(before, i as int, (n - 1) as usize, s);
                        }
                    }
                }
            },
            None => {
                proof {
                    lemma_held_by_absent(before, scope);
                }
            },
        }
    }

    /// A request enters the queue (the peak follows).
    pub fn enqueued(&mut self)
        requires
            old(self).wf(),
        ensures
            final(self).wf(),
            final(self).queued == inc(old(self).queued),
            final(self).peak_queued == max_of(old(self).peak_queued, inc(old(self).queued)),
            final(self).active == old(self).active,
            final(self).peak_active == old(self).peak_active,
            final(self).scopes@ == old(self).scopes@,
    {
        self.queued = wrapping_inc(self.queued);
        self.peak_queued = update_peak(self.peak_queued, self.queued);
    }

    /// A request leaves the queue.
    pub fn dequeued(&mut self)
        requires
            old(self).wf(),
            old(self).queued > 0,
        ensures
            final(self).wf(),
            final(self).queued == old(self).queued - 1,
            final(self).peak_queued == old(self).peak_queued,
            final(self).active == old(self).active,
            final(self).scopes@ == old(self).scopes@,
    {
        self.queued = self.queued - 1;
    }

    /// The counters as reported.
    pub fn stats(&self) -> (s: EffectStats)
        ensures
            s == (EffectStats { active: self.active, queued: self.queued, peak_active: self.peak_active, peak_queued: self.peak_queued }),
    {
        EffectStats { active: self.active, queued: self.queued, peak_active: self.peak_active, peak_queued: self.peak_queued }
    }

    /// Whether `scope` still holds a lease.
    pub fn scope_active(&self, scope: u64) -> (r: bool)
        requires
            self.wf(),
        ensures
            r == (held_by(self.scopes@, scope) > 0),
    {
        match self.find(scope) {
            Some(i) => {
                proof {
                    lemma_held_by_at(self.scopes@, i as int, scope);
                }
                true
            },
            None => {
                proof {
                    lemma_held_by_absent(self.scopes@, scope);
                }
                false
            },
        }
    }
}

/// A lease taken and given back leaves every scope's count as it was:
/// stated over the counts `lease_acquired` and `lease_released` produce.
pub proof fn law_lease_round_trip(c0: EffectCounters, c1: EffectCounters, c2: EffectCounters, scope: u64, other: u64)
    requires
        held_by(c1.scopes@, scope) == held_by(c0.scopes@, scope) + 1,
        forall|s: u64| s != scope ==> #[trigger] held_by(c1.scopes@, s) == held_by(c0.scopes@, s),
        held_by(c1.scopes@, scope) > 0 ==> held_by(c2.scopes@, scope) == held_by(c1.scopes@, scope) - 1,
        forall|s: u64| s != scope ==> #[trigger] held_by(c2.scopes@, s) == held_by(c1.scopes@, s),
    ensures
        held_by(c2.scopes@, scope) == held_by(c0.scopes@, scope),
        held_by(c2.scopes@, other) == held_by(c0.scopes@, other),
{
    lemma_held_by_nonneg(c0.scopes@, scope);
    if other != scope {
        assert(held_by(c2.scopes@, other) == held_by(c1.scopes@, other));
    }
}

proof fn lemma_held_by_nonneg(scopes: Seq<(u64, usize)>, scope: u64)
    ensures
        held_by(scopes, scope) >= 0,
    decreases scopes.len(),
{
    if scopes.len() > 0 {
        lemma_held_by_nonneg(scopes.drop_last(), scope);
    }
}


// ---------------------------------------------------------------------------
// Clipboard rules
// ---------------------------------------------------------------------------

/// The value of `key` in an environment (its first entry).
pub open spec fn env_get(env: Seq<(String, String)>, key: Seq<char>) -> Option<Seq<char>>
    decreases env.len(),
{
    if env.len() == 0 {
        None
    } else if env[0].0@ == key {
        Some(env[0].1@)
    } else {
        env_get(env.drop_first(), key)
    }
}

fn env_lookup(env: &Vec<(String, String)>, key: &str) -> (r: Option<String>)
    ensures
        match (r, env_get(env@, key@)) {
            (Some(v), Some(w)) => v@ == w,
            (None, None) => true,
            _ => false,
        },
{
    let k = chars_of(key);
    let mut i: usize = 0;
    assert(env@.skip(0) =~= env@);
    while i < env.len()
        invariant
            i <= env@.len(),
            k@ == key@,
            env_get(env@, key@) == env_get(env@.skip(i as int), key@),
        decreases env@.len() - i,
    {
        assert(env@.skip(i as int).drop_first() =~= env@.skip(i + 1));
        if chars_eq(&chars_of(env[i].0.as_str()), &k) {
            return Some(string_of(chars_of(env[i].1.as_str()).as_slice()));
        }
        i += 1;
    }
    None
}

/// Whether `key` is set to a non-empty value.
pub open spec fn spec_env_truthy(env: Seq<(String, String)>, key: Seq<char>) -> bool {
    env_get(env, key) matches Some(v) && v.len() > 0
}

pub fn env_truthy(env: &Vec<(String, String)>, key: &str) -> (r: bool)
    ensures
        r == spec_env_truthy(env@, key@),
{
    match env_lookup(env, key) {
        Some(v) => !v.as_str().is_empty(),
        None => false,
    }
}

/// Whether the session runs under Wayland.
pub fn is_wayland(env: &Vec<(String, String)>) -> (r: bool)
    ensures
        r == (spec_env_truthy(env@, "WAYLAND_DISPLAY"@) || env_get(env@, "XDG_SESSION_TYPE"@) == Some("wayland"@)),
{
    if env_truthy(env, "WAYLAND_DISPLAY") {
        return true;
    }
    match env_lookup(env, "XDG_SESSION_TYPE") {
        Some(v) => chars_eq(&chars_of(v.as_str()), &chars_of("wayland")),
        None => false,
    }
}

/// `c` lowercased when it is an ASCII capital.
pub open spec fn ascii_lower(c: char) -> char {
    if 'A' <= c && c <= 'Z' { (((c as u32) + 32) as u8) as char } else { c }
}

/// `s` with ASCII capitals lowercased.
pub open spec fn ascii_lowercase(s: Seq<char>) -> Seq<char> {
    Seq::new(s.len(), |i: int| ascii_lower(s[i]))
}

fn lower_char(c: char) -> (r: char)
    ensures
        r == ascii_lower(c),
{
    if 'A' <= c && c <= 'Z' {
        let b: u8 = (c as u32) as u8;
        (b + 32) as char
    } else {
        c
    }
}

pub(crate) fn ascii_lowercase_chars(v: &Vec<char>) -> (out: Vec<char>)
    ensures
        out@ == ascii_lowercase(v@),
{
    let mut out: Vec<char> = Vec::new();
    let mut i: usize = 0;
    while i < v.len()
        invariant
            i <= v@.len(),
            out@.len() == i,
            forall|k: int| 0 <= k < i ==> out@[k] == ascii_lower(v@[k]),
        decreases v@.len() - i,
    {
        out.push(lower_char(v[i]));
        i += 1;
    }
    assert(out@ =~= ascii_lowercase(v@));
    out
}

/// Whether the system is WSL: by its environment, or by a `/proc/version`
/// that mentions Microsoft (case-insensitively).
pub fn is_wsl(env: &Vec<(String, String)>, proc_version: Option<&str>) -> (r: bool)
    ensures
        r == (spec_env_truthy(env@, "WSL_DISTRO_NAME"@) || spec_env_truthy(env@, "WSLENV"@)
            || (proc_version matches Some(p) && crate::text::first_occurrence(ascii_lowercase(p@), "microsoft"@, 0) is Some)),
{
    if env_truthy(env, "WSL_DISTRO_NAME") || env_truthy(env, "WSLENV") {
        return true;
    }
    match proc_version {
        Some(p) => {
            let lower = ascii_lowercase_chars(&chars_of(p));
            crate::text::find_chars(&lower, &chars_of("microsoft")).is_some()
        },
        None => false,
    }
}

/// The MIME type without parameters, trimmed and lowercased.
pub open spec fn spec_base_mime(value: Seq<char>) -> Seq<char> {
    let head = match crate::text::first_index(value, ';') {
        Some(k) => value.take(k),
        None => value,
    };
    ascii_lowercase(spec_trim(head))
}

pub fn base_mime_type(value: &str) -> (r: String)
    ensures
        r@ == spec_base_mime(value@),
{
    let v = chars_of(value);
    let head = match crate::text::find_char(&v, ';') {
        Some(k) => {
            let h = crate::text::copy_range(&v, 0, k);
            assert(h@ =~= v@.take(k as int));
            h
        },
        None => v,
    };
    string_of(ascii_lowercase_chars(&trim_chars(&head)).as_slice())
}

/// The file extension of a supported image MIME type.
pub open spec fn spec_image_extension(mime: Seq<char>) -> Option<Seq<char>> {
    let b = spec_base_mime(mime);
    if b == "image/png"@ {
        Some("png"@)
    } else if b == "image/jpeg"@ {
        Some("jpg"@)
    } else if b == "image/webp"@ {
        Some("webp"@)
    } else if b == "image/gif"@ {
        Some("gif"@)
    } else {
        None
    }
}

pub fn extension_for_image_mime_type(mime_type: &str) -> (r: Option<&'static str>)
    ensures
        match (r, spec_image_extension(mime_type@)) {
            (Some(a), Some(b)) => a@ == b,
            (None, None) => true,
            _ => false,
        },
{
    let b = chars_of(base_mime_type(mime_type).as_str());
    if chars_eq(&b, &chars_of("image/png")) {
        Some("png")
    } else if chars_eq(&b, &chars_of("image/jpeg")) {
        Some("jpg")
    } else if chars_eq(&b, &chars_of("image/webp")) {
        Some("webp")
    } else if chars_eq(&b, &chars_of("image/gif")) {
        Some("gif")
    } else {
        None
    }
}

/// The supported image MIME types, most preferred first.
pub open spec fn supported_image_types() -> Seq<Seq<char>> {
    seq!["image/png"@, "image/jpeg"@, "image/webp"@, "image/gif"@]
}

/// The first offered type whose base is `want`.
pub open spec fn first_with_base(types: Seq<Seq<char>>, want: Seq<char>) -> Option<int>
    decreases types.len(),
{
    if types.len() == 0 {
        None
    } else {
        match first_with_base(types.drop_last(), want) {
            Some(k) => Some(k),
            None => if spec_base_mime(types.last()) == want { Some(types.len() - 1) } else { None },
        }
    }
}

/// The first offered type whose base starts with `image/`.
pub open spec fn first_image(types: Seq<Seq<char>>) -> Option<int>
    decreases types.len(),
{
    if types.len() == 0 {
        None
    } else {
        match first_image(types.drop_last()) {
            Some(k) => Some(k),
            None => if crate::text::starts_with(spec_base_mime(types.last()), "image/"@) { Some(types.len() - 1) } else { None },
        }
    }
}

/// The type to read from the clipboard: the first offered PNG, else JPEG,
/// WebP, GIF, else any image type; trimmed.
pub open spec fn spec_preferred_mime(types: Seq<Seq<char>>) -> Option<Seq<char>> {
    let pick = if first_with_base(types, "image/png"@) is Some {
        first_with_base(types, "image/png"@)
    } else if first_with_base(types, "image/jpeg"@) is Some {
        first_with_base(types, "image/jpeg"@)
    } else if first_with_base(types, "image/webp"@) is Some {
        first_with_base(types, "image/webp"@)
    } else if first_with_base(types, "image/gif"@) is Some {
        first_with_base(types, "image/gif"@)
    } else {
        first_image(types)
    };
    match pick {
        Some(k) => Some(spec_trim(types[k])),
        None => None,
    }
}

fn find_with_base(types: &Vec<String>, want: &str) -> (r: Option<usize>)
    ensures
        match r {
            Some(k) => first_with_base(crate::path::strings_view(types@), want@) == Some(k as int) && k < types@.len(),
            None => first_with_base(crate::path::strings_view(types@), want@) is None,
        },
{
    let w = chars_of(want);
    let mut i: usize = 0;
    while i < types.len()
        invariant
            i <= types@.len(),
            w@ == want@,
            first_with_base(crate::path::strings_view(types@).take(i as int), want@) is None,
        decreases types@.len() - i,
    {
        assert(crate::path::strings_view(types@).take(i + 1).drop_last() =~= crate::path::strings_view(types@).take(i as int));
        if chars_eq(&chars_of(base_mime_type(types[i].as_str()).as_str()), &w) {
            proof {
                lemma_first_with_base_prefix(crate::path::strings_view(types@), want@, i + 1);
            }
            return Some(i);
        }
        i += 1;
    }
    assert(crate::path::strings_view(types@).take(types@.len() as int) =~= crate::path::strings_view(types@));
    None
}

proof fn lemma_first_with_base_prefix(types: Seq<Seq<char>>, want: Seq<char>, n: int)
    requires
        0 < n <= types.len(),
        first_with_base(types.take(n), want) == Some(n - 1),
    ensures
        first_with_base(types, want) == Some(n - 1),
    decreases types.len(),
{
    if n < types.len() {
        assert(types.drop_last().take(n) =~= types.take(n));
        lemma_first_with_base_prefix(types.drop_last(), want, n);
    } else {
        assert(types.take(n) =~= types);
    }
}

proof fn lemma_first_image_prefix(types: Seq<Seq<char>>, n: int)
    requires
        0 < n <= types.len(),
        first_image(types.take(n)) == Some(n - 1),
    ensures
        first_image(types) == Some(n - 1),
    decreases types.len(),
{
    if n < types.len() {
        assert(types.drop_last().take(n) =~= types.take(n));
        lemma_first_image_prefix(types.drop_last(), n);
    } else {
        assert(types.take(n) =~= types);
    }
}

fn find_image(types: &Vec<String>) -> (r: Option<usize>)
    ensures
        match r {
            Some(k) => first_image(crate::path::strings_view(types@)) == Some(k as int) && k < types@.len(),
            None => first_image(crate::path::strings_view(types@)) is None,
        },
{
    let mut i: usize = 0;
    while i < types.len()
        invariant
            i <= types@.len(),
            first_image(crate::path::strings_view(types@).take(i as int)) is None,
        decreases types@.len() - i,
    {
        assert(crate::path::strings_view(types@).take(i + 1).drop_last() =~= crate::path::strings_view(types@).take(i as int));
        let b = chars_of(base_mime_type(types[i].as_str()).as_str());
        if crate::text::starts_with_str(&b, "image/") {
            proof {
                lemma_first_image_prefix(crate::path::strings_view(types@), i + 1);
            }
            return Some(i);
        }
        i += 1;
    }
    assert(crate::path::strings_view(types@).take(types@.len() as int) =~= crate::path::strings_view(types@));
    None
}

/// Picks the MIME type to read from the offered ones.
pub fn preferred_mime(types: &Vec<String>) -> (r: Option<String>)
    ensures
        match (r, spec_preferred_mime(crate::path::strings_view(types@))) {
            (Some(a), Some(b)) => a@ == b,
            (None, None) => true,
            _ => false,
        },
{
    let pick = match find_with_base(types, "image/png") {
        Some(k) => Some(k),
        None => match find_with_base(types, "image/jpeg") {
            Some(k) => Some(k),
            None => match find_with_base(types, "image/webp") {
                Some(k) => Some(k),
                None => match find_with_base(types, "image/gif") {
                    Some(k) => Some(k),
                    None => find_image(types),
                },
            },
        },
    };
    match pick {
        Some(k) => Some(string_of(trim_chars(&chars_of(types[k].as_str())).as_slice())),
        None => None,
    }
}

/// The longest base64 text an OSC 52 clipboard sequence may carry.
pub const MAX_OSC52_ENCODED_LENGTH: usize = 100000;

/// The base64 digit of a six-bit value: `A`-`Z`, `a`-`z`, `0`-`9`, `+`, `/`.
pub open spec fn base64_digit(v: int) -> char {
    if v < 26 {
        (65 + v) as char
    } else if v < 52 {
        (97 + v - 26) as char
    } else if v < 62 {
        (48 + v - 52) as char
    } else if v == 62 {
        '+'
    } else {
        '/'
    }
}

/// Standard base64 with `=` padding: each group of three bytes gives four
/// digits of six bits each, and a last group of one or two bytes gives
/// two or three digits and the padding.
pub open spec fn base64_standard(d: Seq<u8>) -> Seq<char>
    decreases d.len(),
{
    if d.len() == 0 {
        Seq::empty()
    } else if d.len() == 1 {
        let a = d[0] as int;
        seq![base64_digit(a / 4), base64_digit((a % 4) * 16), '=', '=']
    } else if d.len() == 2 {
        let a = d[0] as int;
        let b = d[1] as int;
        seq![base64_digit(a / 4), base64_digit((a % 4) * 16 + b / 16), base64_digit((b % 16) * 4), '=']
    } else {
        let a = d[0] as int;
        let b = d[1] as int;
        let c = d[2] as int;
        seq![base64_digit(a / 4), base64_digit((a % 4) * 16 + b / 16), base64_digit((b % 16) * 4 + c / 64), base64_digit(c % 64)]
            + base64_standard(d.skip(3))
    }
}

/// `base64::engine::general_purpose::STANDARD.encode`: the bytes in
/// standard base64 with padding (see `base64_standard`), four characters
/// for each started group of three bytes.
#[verifier::external_body]
fn base64_encode(data: &[u8]) -> (r: String)
    ensures
        r@ == base64_standard(data@),
        r@.len() == 4 * ((data@.len() + 2) / 3),
{
    base64::engine::general_purpose::STANDARD.encode(data)
}

/// The OSC 52 sequence that asks the terminal to copy `text`: none when
/// its base64 text is too long for a terminal to take.
pub open spec fn osc52_text(text: Seq<char>) -> Option<Seq<char>> {
    let encoded = base64_standard(vstd::utf8::encode_utf8(text));
    if encoded.len() > MAX_OSC52_ENCODED_LENGTH {
        None
    } else {
        Some("\x1b]52;c;"@ + encoded + "\x07"@)
    }
}

/// The OSC 52 sequence that copies `text` through the terminal, unless
/// it is too long.
pub fn osc52_sequence(text: &str) -> (r: Option<String>)
    ensures
        match r {
            Some(s) => osc52_text(text@) == Some(s@),
            None => osc52_text(text@) is None,
        },
{
    let encoded = base64_encode(text.as_bytes());
    let chars = chars_of(encoded.as_str());
    if chars.len() > MAX_OSC52_ENCODED_LENGTH {
        return None;
    }
    let mut out = chars_of("\x1b]52;c;");
    extend_chars(&mut out, &chars);
    extend_chars(&mut out, &chars_of("\x07"));
    Some(string_of(out.as_slice()))
}


// ---------------------------------------------------------------------------
// Reading an image from the clipboard
// ---------------------------------------------------------------------------

/// Where a clipboard image read stands.
pub enum ReadImageState {
    /// Nothing asked yet.
    Start,
    /// Waiting for `wl-paste --list-types`.
    ListingWayland,
    /// Waiting for `wl-paste --type <mime>`.
    ReadingWayland { mime: String },
    /// Waiting for the `xclip` `TARGETS` list.
    ListingX11,
    /// Waiting for `xclip -t tries[next]`.
    ReadingX11 { tries: Vec<String>, next: usize },
    /// Waiting for the image to be converted to PNG.
    Converting,
    /// Finished.
    Done,
}

/// What the runtime reports back.
pub enum ReadImageEvent {
    /// The read starts: whether Termux runs it, whether the platform is
    /// Linux, and whether the session is Wayland or WSL.
    Begin { termux: bool, linux: bool, wayland: bool, wsl: bool },
    /// The standard output of the last command when it exited with 0;
    /// none when it failed or timed out.
    Output(Option<Vec<u8>>),
    /// The PNG bytes of the conversion; none when the image could not be
    /// converted.
    Converted(Option<Vec<u8>>),
}

/// What the runtime is asked to do next.
pub enum ReadImageAction {
    /// Run a program with arguments, for at most `timeout_secs` seconds.
    Run { program: String, args: Vec<String>, timeout_secs: u64 },
    /// Convert image bytes to PNG.
    ConvertToPng { bytes: Vec<u8> },
    /// The read is over: the image's bytes and MIME type, or none.
    Finish(Option<(Vec<u8>, String)>),
}

/// A read's state as plain values.
pub enum ReadImageStateView {
    Start,
    ListingWayland,
    ReadingWayland(Seq<char>),
    ListingX11,
    ReadingX11(Seq<Seq<char>>, int),
    Converting,
    Done,
}

/// An event as plain values.
pub enum ReadImageEventView {
    Begin(bool, bool, bool, bool),
    Output(Option<Seq<u8>>),
    Converted(Option<Seq<u8>>),
}

/// An action as plain values.
pub enum ReadImageActionView {
    Run(Seq<char>, Seq<Seq<char>>, int),
    ConvertToPng(Seq<u8>),
    Finish(Option<(Seq<u8>, Seq<char>)>),
}

impl View for ReadImageState {
    type V = ReadImageStateView;

    open spec fn view(&self) -> ReadImageStateView {
        match self {
            ReadImageState::Start => ReadImageStateView::Start,
            ReadImageState::ListingWayland => ReadImageStateView::ListingWayland,
            ReadImageState::ReadingWayland { mime } => ReadImageStateView::ReadingWayland(mime@),
            ReadImageState::ListingX11 => ReadImageStateView::ListingX11,
            ReadImageState::ReadingX11 { tries, next } => ReadImageStateView::ReadingX11(crate::path::strings_view(tries@), *next as int),
            ReadImageState::Converting => ReadImageStateView::Converting,
            ReadImageState::Done => ReadImageStateView::Done,
        }
    }
}

impl View for ReadImageEvent {
    type V = ReadImageEventView;

    open spec fn view(&self) -> ReadImageEventView {
        match self {
            ReadImageEvent::Begin { termux, linux, wayland, wsl } => ReadImageEventView::Begin(*termux, *linux, *wayland, *wsl),
            ReadImageEvent::Output(o) => ReadImageEventView::Output(match o { Some(b) => Some(b@), None => None }),
            ReadImageEvent::Converted(o) => ReadImageEventView::Converted(match o { Some(b) => Some(b@), None => None }),
        }
    }
}

impl View for ReadImageAction {
    type V = ReadImageActionView;

    open spec fn view(&self) -> ReadImageActionView {
        match self {
            ReadImageAction::Run { program, args, timeout_secs } => ReadImageActionView::Run(program@, crate::path::strings_view(args@), *timeout_secs as int),
            ReadImageAction::ConvertToPng { bytes } => ReadImageActionView::ConvertToPng(bytes@),
            ReadImageAction::Finish(o) => ReadImageActionView::Finish(match o { Some(p) => Some((p.0@, p.1@)), None => None }),
        }
    }
}

/// The trimmed lines that are not empty.
pub open spec fn nonempty_trimmed(lines: Seq<Seq<char>>) -> Seq<Seq<char>>
    decreases lines.len(),
{
    if lines.len() == 0 {
        Seq::empty()
    } else {
        let init = nonempty_trimmed(lines.drop_last());
        let t = spec_trim(lines.last());
        if t.len() > 0 { init.push(t) } else { init }
    }
}

/// The types a listing command printed: its output read as UTF-8 (lossily),
/// one per line, trimmed, blank lines left out.
pub open spec fn listed_types(out: Seq<u8>) -> Seq<Seq<char>> {
    nonempty_trimmed(crate::text::spec_lines(crate::exec::lossy_utf8(out)))
}

/// The types to try with `xclip`: the preferred offered one, then every
/// supported type.
pub open spec fn x11_tries(targets: Seq<u8>) -> Seq<Seq<char>> {
    let first = match spec_preferred_mime(listed_types(targets)) {
        Some(m) => seq![m],
        None => Seq::<Seq<char>>::empty(),
    };
    first + supported_image_types()
}

/// `wl-paste --list-types`.
pub open spec fn wayland_listing() -> ReadImageActionView {
    ReadImageActionView::Run("wl-paste"@, seq!["--list-types"@], 1)
}

/// `xclip -selection clipboard -t TARGETS -o`.
pub open spec fn x11_listing() -> ReadImageActionView {
    ReadImageActionView::Run("xclip"@, seq!["-selection"@, "clipboard"@, "-t"@, "TARGETS"@, "-o"@], 1)
}

/// `xclip -selection clipboard -t <mime> -o`.
pub open spec fn x11_read(mime: Seq<char>) -> ReadImageActionView {
    ReadImageActionView::Run("xclip"@, seq!["-selection"@, "clipboard"@, "-t"@, mime, "-o"@], 3)
}

/// A read image: kept when its type is supported, else sent for
/// conversion to PNG.
pub open spec fn found_image(bytes: Seq<u8>, mime: Seq<char>) -> (ReadImageStateView, ReadImageActionView) {
    if supported_image_types().contains(mime) {
        (ReadImageStateView::Done, ReadImageActionView::Finish(Some((bytes, mime))))
    } else {
        (ReadImageStateView::Converting, ReadImageActionView::ConvertToPng(bytes))
    }
}

/// One step of a clipboard image read: Termux and platforms other than
/// Linux have none; on Wayland or WSL, `wl-paste` lists the types and the
/// preferred one is read, else `xclip` lists its targets and the preferred
/// then each supported type is tried; an image of an unsupported type is
/// converted to PNG. An event the state does not wait for ends the read
/// with no image.
pub open spec fn spec_read_image_step(s: ReadImageStateView, e: ReadImageEventView) -> (ReadImageStateView, ReadImageActionView) {
    let none = (ReadImageStateView::Done, ReadImageActionView::Finish(None));
    match (s, e) {
        (ReadImageStateView::Start, ReadImageEventView::Begin(termux, linux, wayland, wsl)) => {
            if termux || !linux || !(wayland || wsl) {
                none
            } else {
                (ReadImageStateView::ListingWayland, wayland_listing())
            }
        },
        (ReadImageStateView::ListingWayland, ReadImageEventView::Output(o)) => match o {
            Some(out) => match spec_preferred_mime(listed_types(out)) {
                Some(m) => (ReadImageStateView::ReadingWayland(m), ReadImageActionView::Run("wl-paste"@, seq!["--type"@, m, "--no-newline"@], 3)),
                None => (ReadImageStateView::ListingX11, x11_listing()),
            },
            None => (ReadImageStateView::ListingX11, x11_listing()),
        },
        (ReadImageStateView::ReadingWayland(m), ReadImageEventView::Output(o)) => match o {
            Some(bytes) => if bytes.len() > 0 {
                found_image(bytes, spec_base_mime(m))
            } else {
                (ReadImageStateView::ListingX11, x11_listing())
            },
            None => (ReadImageStateView::ListingX11, x11_listing()),
        },
        (ReadImageStateView::ListingX11, ReadImageEventView::Output(o)) => {
            let tries = x11_tries(match o { Some(t) => t, None => Seq::empty() });
            (ReadImageStateView::ReadingX11(tries, 0), x11_read(tries[0]))
        },
        (ReadImageStateView::ReadingX11(tries, k), ReadImageEventView::Output(o)) => {
            if 0 <= k < tries.len() && (o matches Some(bytes) && bytes.len() > 0) {
                found_image(o->Some_0, spec_base_mime(tries[k]))
            } else if 0 <= k && k + 1 < tries.len() {
                (ReadImageStateView::ReadingX11(tries, k + 1), x11_read(tries[k + 1]))
            } else {
                none
            }
        },
        (ReadImageStateView::Converting, ReadImageEventView::Converted(o)) => match o {
            Some(png) => (ReadImageStateView::Done, ReadImageActionView::Finish(Some((png, "image/png"@)))),
            None => none,
        },
        _ => none,
    }
}

fn strings_of(parts: &[&str]) -> (r: Vec<String>)
    ensures
        crate::path::strings_view(r@) == Seq::new(parts@.len(), |i: int| parts@[i]@),
{
    let mut out: Vec<String> = Vec::new();
    let mut i: usize = 0;
    while i < parts.len()
        invariant
            i <= parts@.len(),
            crate::path::strings_view(out@) == Seq::new(i as nat, |k: int| parts@[k]@),
        decreases parts@.len() - i,
    {
        let ghost before = crate::path::strings_view(out@);
        let p = string_of(chars_of(parts[i]).as_slice());
        out.push(p);
        assert(crate::path::strings_view(out@) =~= before.push(parts@[i as int]@));
        assert(crate::path::strings_view(out@) =~= Seq::new((i + 1) as nat, |k: int| parts@[k]@));
        i += 1;
    }
    out
}

fn x11_listing_action() -> (r: ReadImageAction)
    ensures
        r@ == x11_listing(),
{
    let args = strings_of(&["-selection", "clipboard", "-t", "TARGETS", "-o"]);
    let r = ReadImageAction::Run { program: "xclip".to_owned(), args, timeout_secs: 1 };
    assert(r@ == x11_listing()) by {
        if let ReadImageActionView::Run(_, a, _) = r@ {
            assert(a =~= seq!["-selection"@, "clipboard"@, "-t"@, "TARGETS"@, "-o"@]);
        }
    }
    r
}

fn x11_read_action(mime: &String) -> (r: ReadImageAction)
    ensures
        r@ == x11_read(mime@),
{
    let mut args = strings_of(&["-selection", "clipboard", "-t"]);
    let ghost a0 = crate::path::strings_view(args@);
    assert(a0 =~= seq!["-selection"@, "clipboard"@, "-t"@]);
    args.push(string_of(chars_of(mime.as_str()).as_slice()));
    assert(crate::path::strings_view(args@) =~= a0.push(mime@));
    args.push(string_of(chars_of("-o").as_slice()));
    assert(crate::path::strings_view(args@) =~= a0.push(mime@).push("-o"@));
    let r = ReadImageAction::Run { program: "xclip".to_owned(), args, timeout_secs: 3 };
    assert(r@ == x11_read(mime@)) by {
        if let ReadImageActionView::Run(_, a, _) = r@ {
            assert(a =~= seq!["-selection"@, "clipboard"@, "-t"@, mime@, "-o"@]);
        }
    }
    r
}

/// The listed types of a command's output.
fn listed_types_of(out: &Vec<u8>) -> (r: Vec<String>)
    ensures
        crate::path::strings_view(r@) == listed_types(out@),
{
    let text = crate::exec::lossy_text(out.as_slice());
    let lines = crate::text::lines_chars(&chars_of(text.as_str()));
    let ghost ls = crate::text::seqs_of(lines@);
    let mut r: Vec<String> = Vec::new();
    let mut i: usize = 0;
    while i < lines.len()
        invariant
            i <= lines@.len(),
            ls == crate::text::seqs_of(lines@),
            ls == crate::text::spec_lines(crate::exec::lossy_utf8(out@)),
            crate::path::strings_view(r@) == nonempty_trimmed(ls.take(i as int)),
        decreases lines@.len() - i,
    {
        assert(ls.take(i + 1).drop_last() =~= ls.take(i as int));
        let t = trim_chars(&lines[i]);
        if t.len() > 0 {
            let ghost before = crate::path::strings_view(r@);
            r.push(string_of(t.as_slice()));
            assert(crate::path::strings_view(r@) =~= before.push(t@));
        }
        i += 1;
    }
    assert(ls.take(lines@.len() as int) =~= ls);
    r
}

/// Whether a base MIME type is one of the supported image types.
fn is_supported_image(mime: &String) -> (r: bool)
    ensures
        r == supported_image_types().contains(mime@),
{
    let m = chars_of(mime.as_str());
    let r = chars_eq(&m, &chars_of("image/png")) || chars_eq(&m, &chars_of("image/jpeg"))
        || chars_eq(&m, &chars_of("image/webp")) || chars_eq(&m, &chars_of("image/gif"));
    proof {
        let st = supported_image_types();
        assert(st[0] == "image/png"@ && st[1] == "image/jpeg"@ && st[2] == "image/webp"@ && st[3] == "image/gif"@);
        if st.contains(mime@) {
            let k = choose|k: int| 0 <= k < st.len() && st[k] == mime@;
            assert(k == 0 || k == 1 || k == 2 || k == 3);
        }
    }
    r
}

fn found_image_step(bytes: Vec<u8>, mime: String) -> (r: (ReadImageState, ReadImageAction))
    ensures
        (r.0@, r.1@) == found_image(bytes@, mime@),
{
    if is_supported_image(&mime) {
        (ReadImageState::Done, ReadImageAction::Finish(Some((bytes, mime))))
    } else {
        (ReadImageState::Converting, ReadImageAction::ConvertToPng { bytes })
    }
}

/// One step of reading an image from the clipboard (see
/// `spec_read_image_step`): from the state and what the runtime reported,
/// the next state and what the runtime does next.
pub fn read_image_step(state: ReadImageState, event: ReadImageEvent) -> (r: (ReadImageState, ReadImageAction))
    ensures
        (r.0@, r.1@) == spec_read_image_step(state@, event@),
{
    proof {
        reveal_strlit("wl-paste");
        reveal_strlit("xclip");
        reveal_strlit("image/png");
    }
    match (state, event) {
        (ReadImageState::Start, ReadImageEvent::Begin { termux, linux, wayland, wsl }) => {
            if termux || !linux || !(wayland || wsl) {
                (ReadImageState::Done, ReadImageAction::Finish(None))
            } else {
                let args = strings_of(&["--list-types"]);
                let r = ReadImageAction::Run { program: "wl-paste".to_owned(), args, timeout_secs: 1 };
                assert(r@ == wayland_listing()) by {
                    if let ReadImageActionView::Run(_, a, _) = r@ {
                        assert(a =~= seq!["--list-types"@]);
                    }
                }
                (ReadImageState::ListingWayland, r)
            }
        },
        (ReadImageState::ListingWayland, ReadImageEvent::Output(o)) => {
            let listed = match &o {
                Some(out) => preferred_mime(&listed_types_of(out)),
                None => None,
            };
            match listed {
                Some(m) => {
                    let mut args = strings_of(&["--type"]);
                    let ghost a0 = crate::path::strings_view(args@);
                    assert(a0 =~= seq!["--type"@]);
                    args.push(string_of(chars_of(m.as_str()).as_slice()));
                    assert(crate::path::strings_view(args@) =~= a0.push(m@));
                    args.push(string_of(chars_of("--no-newline").as_slice()));
                    assert(crate::path::strings_view(args@) =~= a0.push(m@).push("--no-newline"@));
                    let r = ReadImageAction::Run { program: "wl-paste".to_owned(), args, timeout_secs: 3 };
                    assert(r@ == ReadImageActionView::Run("wl-paste"@, seq!["--type"@, m@, "--no-newline"@], 3)) by {
                        if let ReadImageActionView::Run(_, a, _) = r@ {
                            assert(a =~= seq!["--type"@, m@, "--no-newline"@]);
                        }
                    }
                    (ReadImageState::ReadingWayland { mime: m }, r)
                },
                None => (ReadImageState::ListingX11, x11_listing_action()),
            }
        },
        (ReadImageState::ReadingWayland { mime }, ReadImageEvent::Output(o)) => match o {
            Some(bytes) => {
                if bytes.len() > 0 {
                    found_image_step(bytes, base_mime_type(mime.as_str()))
                } else {
                    (ReadImageState::ListingX11, x11_listing_action())
                }
            },
            None => (ReadImageState::ListingX11, x11_listing_action()),
        },
        (ReadImageState::ListingX11, ReadImageEvent::Output(o)) => {
            let targets = match o {
                Some(t) => t,
                None => Vec::new(),
            };
            let listed = listed_types_of(&targets);
            let mut tries: Vec<String> = Vec::new();
            match preferred_mime(&listed) {
                Some(m) => tries.push(m),
                None => {},
            }
            let ghost first = crate::path::strings_view(tries@);
            let supported = strings_of(&["image/png", "image/jpeg", "image/webp", "image/gif"]);
            let mut i: usize = 0;
            while i < supported.len()
                invariant
                    i <= supported@.len(),
                    crate::path::strings_view(supported@) == supported_image_types(),
                    crate::path::strings_view(tries@) == first + supported_image_types().take(i as int),
                decreases supported@.len() - i,
            {
                let ghost before = crate::path::strings_view(tries@);
                tries.push(string_of(chars_of(supported[i].as_str()).as_slice()));
                assert(crate::path::strings_view(tries@) =~= before.push(supported@[i as int]@));
                assert(supported_image_types().take(i + 1) =~= supported_image_types().take(i as int).push(supported_image_types()[i as int]));
                i += 1;
            }
            assert(supported_image_types().take(4) =~= supported_image_types());
            assert(crate::path::strings_view(tries@) =~= x11_tries(match o { Some(t) => t@, None => Seq::empty() })) by {
                assert(targets@ == match o { Some(t) => t@, None => Seq::<u8>::empty() });
            }
            let r = x11_read_action(&tries[0]);
            (ReadImageState::ReadingX11 { tries, next: 0 }, r)
        },
        (ReadImageState::ReadingX11 { tries, next }, ReadImageEvent::Output(o)) => {
            let got = match &o {
                Some(b) => next < tries.len() && b.len() > 0,
                None => false,
            };
            if got {
                let bytes = match o {
                    Some(b) => b,
                    None => Vec::new(),
                };
                found_image_step(bytes, base_mime_type(tries[next].as_str()))
            } else if next < tries.len() && next + 1 < tries.len() {
                let r = x11_read_action(&tries[next + 1]);
                (ReadImageState::ReadingX11 { tries, next: next + 1 }, r)
            } else {
                (ReadImageState::Done, ReadImageAction::Finish(None))
            }
        },
        (ReadImageState::Converting, ReadImageEvent::Converted(o)) => match o {
            Some(png) => (ReadImageState::Done, ReadImageAction::Finish(Some((png, "image/png".to_owned())))),
            None => (ReadImageState::Done, ReadImageAction::Finish(None)),
        },
        _ => (ReadImageState::Done, ReadImageAction::Finish(None)),
    }
}


// ---------------------------------------------------------------------------
// Running a process
// ---------------------------------------------------------------------------

/// Where a process run stands.
pub enum ProcessRunState {
    /// The program is being spawned; output past `max_output` bytes stops it.
    Starting { max_output: usize },
    /// The program runs: bytes read so far, which output streams are still
    /// open, and its exit status once waited for (`Some(None)` when a
    /// signal ended it).
    Running { total: usize, stdout_open: bool, stderr_open: bool, status: Option<Option<i64>>, max_output: usize },
    /// The process group is being terminated; the run then fails with `error`.
    Terminating { error: EffectError },
    /// The run is over.
    Done,
}

/// What the runtime reports about a run.
pub enum ProcessRunEvent {
    /// The spawn succeeded or failed.
    Spawned(bool),
    /// A chunk read from standard output (`stderr` false) or standard error.
    Chunk { stderr: bool, bytes: Vec<u8> },
    /// A stream reached its end or failed to read.
    ReadEnded { stderr: bool },
    /// Forwarding a chunk to the caller failed.
    SendFailed(EffectError),
    /// Waiting for the process gave its status (`Some(None)`: ended by a
    /// signal), or failed (`None`).
    Exited(Option<Option<i64>>),
    /// The grace period after the exit ran out.
    GraceOver,
    /// The request was cancelled.
    Cancelled,
    /// The request's deadline passed.
    TimedOut,
    /// The process group was terminated.
    Terminated,
}

/// What the runtime does next.
pub enum ProcessRunAction {
    /// Nothing: wait for the next event.
    Wait,
    /// Hand a chunk to the caller.
    Forward { stderr: bool, bytes: Vec<u8> },
    /// Start (or restart) the grace period for the streams after the exit.
    StartGrace,
    /// Terminate the process group, then report `Terminated`.
    Terminate,
    /// Kill what is left of the group and report the exit.
    EmitExit { code: i64, killed: bool },
    /// Report the failure.
    EmitError(EffectError),
}

/// A run's state as plain values.
pub enum ProcessRunStateView {
    Starting(int),
    Running(int, bool, bool, Option<Option<i64>>, int),
    Terminating(EffectError),
    Done,
}

/// An event as plain values.
pub enum ProcessRunEventView {
    Spawned(bool),
    Chunk(bool, Seq<u8>),
    ReadEnded(bool),
    SendFailed(EffectError),
    Exited(Option<Option<i64>>),
    GraceOver,
    Cancelled,
    TimedOut,
    Terminated,
}

/// An action as plain values.
pub enum ProcessRunActionView {
    Wait,
    Forward(bool, Seq<u8>),
    StartGrace,
    Terminate,
    EmitExit(i64, bool),
    EmitError(EffectError),
}

impl View for ProcessRunState {
    type V = ProcessRunStateView;

    open spec fn view(&self) -> ProcessRunStateView {
        match self {
            ProcessRunState::Starting { max_output } => ProcessRunStateView::Starting(*max_output as int),
            ProcessRunState::Running { total, stdout_open, stderr_open, status, max_output } =>
                ProcessRunStateView::Running(*total as int, *stdout_open, *stderr_open, *status, *max_output as int),
            ProcessRunState::Terminating { error } => ProcessRunStateView::Terminating(*error),
            ProcessRunState::Done => ProcessRunStateView::Done,
        }
    }
}

impl View for ProcessRunEvent {
    type V = ProcessRunEventView;

    open spec fn view(&self) -> ProcessRunEventView {
        match self {
            ProcessRunEvent::Spawned(ok) => ProcessRunEventView::Spawned(*ok),
            ProcessRunEvent::Chunk { stderr, bytes } => ProcessRunEventView::Chunk(*stderr, bytes@),
            ProcessRunEvent::ReadEnded { stderr } => ProcessRunEventView::ReadEnded(*stderr),
            ProcessRunEvent::SendFailed(e) => ProcessRunEventView::SendFailed(*e),
            ProcessRunEvent::Exited(s) => ProcessRunEventView::Exited(*s),
            ProcessRunEvent::GraceOver => ProcessRunEventView::GraceOver,
            ProcessRunEvent::Cancelled => ProcessRunEventView::Cancelled,
            ProcessRunEvent::TimedOut => ProcessRunEventView::TimedOut,
            ProcessRunEvent::Terminated => ProcessRunEventView::Terminated,
        }
    }
}

impl View for ProcessRunAction {
    type V = ProcessRunActionView;

    open spec fn view(&self) -> ProcessRunActionView {
        match self {
            ProcessRunAction::Wait => ProcessRunActionView::Wait,
            ProcessRunAction::Forward { stderr, bytes } => ProcessRunActionView::Forward(*stderr, bytes@),
            ProcessRunAction::StartGrace => ProcessRunActionView::StartGrace,
            ProcessRunAction::Terminate => ProcessRunActionView::Terminate,
            ProcessRunAction::EmitExit { code, killed } => ProcessRunActionView::EmitExit(*code, *killed),
            ProcessRunAction::EmitError(e) => ProcessRunActionView::EmitError(*e),
        }
    }
}

/// The exit code reported for a status: the program's code, 0 when a
/// signal ended it, 1 when no status could be had.
pub open spec fn exit_code_of(status: Option<Option<i64>>) -> i64 {
    match status {
        Some(Some(c)) => c,
        Some(None) => 0,
        None => 1,
    }
}

/// A running state checked for its end: both streams closed and a status
/// in hand ends the run with that exit; otherwise `action` is done.
pub open spec fn running_or_done(
    total: int,
    out_open: bool,
    err_open: bool,
    status: Option<Option<i64>>,
    max: int,
    action: ProcessRunActionView,
) -> (ProcessRunStateView, ProcessRunActionView) {
    if !out_open && !err_open && status is Some {
        (ProcessRunStateView::Done, ProcessRunActionView::EmitExit(exit_code_of(status), false))
    } else {
        (ProcessRunStateView::Running(total, out_open, err_open, status, max), action)
    }
}

/// One step of a process run: a failed spawn exits with code 1; each
/// chunk is counted (saturating) and forwarded unless the count passes the
/// limit, which terminates the run with `OutputLimit`; a failed forward,
/// cancellation or the deadline terminate it with that error; the exit
/// starts a grace period for the streams, after which they count as
/// closed; once both streams are closed and the status is in hand the exit
/// is reported. An event the state does not wait for changes nothing.
pub open spec fn spec_process_run_step(s: ProcessRunStateView, e: ProcessRunEventView) -> (ProcessRunStateView, ProcessRunActionView) {
    match s {
        ProcessRunStateView::Starting(max) => match e {
            ProcessRunEventView::Spawned(ok) => if ok {
                (ProcessRunStateView::Running(0, true, true, None, max), ProcessRunActionView::Wait)
            } else {
                (ProcessRunStateView::Done, ProcessRunActionView::EmitExit(1, false))
            },
            _ => (s, ProcessRunActionView::Wait),
        },
        ProcessRunStateView::Running(total, out_open, err_open, status, max) => match e {
            ProcessRunEventView::Chunk(stderr, bytes) => {
                let t = if total + bytes.len() > usize::MAX { usize::MAX as int } else { total + bytes.len() };
                if t > max {
                    (ProcessRunStateView::Terminating(EffectError::OutputLimit(max as usize)), ProcessRunActionView::Terminate)
                } else {
                    (ProcessRunStateView::Running(t, out_open, err_open, status, max), ProcessRunActionView::Forward(stderr, bytes))
                }
            },
            ProcessRunEventView::ReadEnded(stderr) => running_or_done(
                total, if stderr { out_open } else { false }, if stderr { false } else { err_open }, status, max,
                ProcessRunActionView::Wait),
            ProcessRunEventView::SendFailed(err) => (ProcessRunStateView::Terminating(err), ProcessRunActionView::Terminate),
            ProcessRunEventView::Exited(st) => running_or_done(total, out_open, err_open, st, max, ProcessRunActionView::StartGrace),
            ProcessRunEventView::GraceOver => running_or_done(total, false, false, status, max, ProcessRunActionView::Wait),
            ProcessRunEventView::Cancelled => (ProcessRunStateView::Terminating(EffectError::Cancelled), ProcessRunActionView::Terminate),
            ProcessRunEventView::TimedOut => (ProcessRunStateView::Terminating(EffectError::Timeout), ProcessRunActionView::Terminate),
            _ => (s, ProcessRunActionView::Wait),
        },
        ProcessRunStateView::Terminating(err) => match e {
            ProcessRunEventView::Terminated => (ProcessRunStateView::Done, ProcessRunActionView::EmitError(err)),
            _ => (s, ProcessRunActionView::Wait),
        },
        ProcessRunStateView::Done => (s, ProcessRunActionView::Wait),
    }
}

fn running_step(total: usize, out_open: bool, err_open: bool, status: Option<Option<i64>>, max: usize, action: ProcessRunAction)
    -> (r: (ProcessRunState, ProcessRunAction))
    ensures
        (r.0@, r.1@) == running_or_done(total as int, out_open, err_open, status, max as int, action@),
{
    if !out_open && !err_open && status.is_some() {
        let code = match status {
            Some(Some(c)) => c,
            Some(None) => 0,
            None => 1,
        };
        (ProcessRunState::Done, ProcessRunAction::EmitExit { code, killed: false })
    } else {
        (ProcessRunState::Running { total, stdout_open: out_open, stderr_open: err_open, status, max_output: max }, action)
    }
}

/// One step of running a process (see `spec_process_run_step`).
pub fn process_run_step(state: ProcessRunState, event: ProcessRunEvent) -> (r: (ProcessRunState, ProcessRunAction))
    ensures
        (r.0@, r.1@) == spec_process_run_step(state@, event@),
{
    match state {
        ProcessRunState::Starting { max_output } => match event {
            ProcessRunEvent::Spawned(ok) => if ok {
                (ProcessRunState::Running { total: 0, stdout_open: true, stderr_open: true, status: None, max_output }, ProcessRunAction::Wait)
            } else {
                (ProcessRunState::Done, ProcessRunAction::EmitExit { code: 1, killed: false })
            },
            _ => (ProcessRunState::Starting { max_output }, ProcessRunAction::Wait),
        },
        ProcessRunState::Running { total, stdout_open, stderr_open, status, max_output } => match event {
            ProcessRunEvent::Chunk { stderr, bytes } => {
                let t = total.saturating_add(bytes.len());
                if t > max_output {
                    (ProcessRunState::Terminating { error: EffectError::OutputLimit(max_output) }, ProcessRunAction::Terminate)
                } else {
                    (ProcessRunState::Running { total: t, stdout_open, stderr_open, status, max_output },
                        ProcessRunAction::Forward { stderr, bytes })
                }
            },
            ProcessRunEvent::ReadEnded { stderr } => running_step(
                total, if stderr { stdout_open } else { false }, if stderr { false } else { stderr_open }, status, max_output,
                ProcessRunAction::Wait),
            ProcessRunEvent::SendFailed(error) => (ProcessRunState::Terminating { error }, ProcessRunAction::Terminate),
            ProcessRunEvent::Exited(st) => running_step(total, stdout_open, stderr_open, st, max_output, ProcessRunAction::StartGrace),
            ProcessRunEvent::GraceOver => running_step(total, false, false, status, max_output, ProcessRunAction::Wait),
            ProcessRunEvent::Cancelled => (ProcessRunState::Terminating { error: EffectError::Cancelled }, ProcessRunAction::Terminate),
            ProcessRunEvent::TimedOut => (ProcessRunState::Terminating { error: EffectError::Timeout }, ProcessRunAction::Terminate),
            _ => (ProcessRunState::Running { total, stdout_open, stderr_open, status, max_output }, ProcessRunAction::Wait),
        },
        ProcessRunState::Terminating { error } => match event {
            ProcessRunEvent::Terminated => (ProcessRunState::Done, ProcessRunAction::EmitError(error)),
            _ => (ProcessRunState::Terminating { error }, ProcessRunAction::Wait),
        },
        ProcessRunState::Done => (ProcessRunState::Done, ProcessRunAction::Wait),
    }
}


// ---------------------------------------------------------------------------
// Writing text to the clipboard
// ---------------------------------------------------------------------------

/// What the environment says about the clipboard: a remote session
/// (`SSH_CONNECTION`, `SSH_CLIENT` or `MOSH_CONNECTION` set), Termux,
/// a Wayland display, an X display.
#[derive(Clone, Copy)]
pub struct ClipboardEnv {
    pub remote: bool,
    pub termux: bool,
    pub wayland: bool,
    pub x11: bool,
}

/// The clipboard facts of an environment.
pub open spec fn spec_clipboard_env(env: Seq<(String, String)>) -> ClipboardEnv {
    ClipboardEnv {
        remote: spec_env_truthy(env, "SSH_CONNECTION"@) || spec_env_truthy(env, "SSH_CLIENT"@) || spec_env_truthy(env, "MOSH_CONNECTION"@),
        termux: env_get(env, "TERMUX_VERSION"@) is Some,
        wayland: (spec_env_truthy(env, "WAYLAND_DISPLAY"@) || env_get(env, "XDG_SESSION_TYPE"@) == Some("wayland"@))
            && spec_env_truthy(env, "WAYLAND_DISPLAY"@),
        x11: spec_env_truthy(env, "DISPLAY"@),
    }
}

/// Where a clipboard write stands: each waiting state keeps the
/// environment's facts and the text.
pub enum WriteTextState {
    Start,
    /// Waiting for `pbcopy` or `clip`.
    AwaitPrimary { env: ClipboardEnv, text: String },
    /// Waiting for `termux-clipboard-set`.
    AwaitTermux { env: ClipboardEnv, text: String },
    /// Waiting for `wl-copy`.
    AwaitWayland { env: ClipboardEnv, text: String },
    /// Waiting for `xclip`.
    AwaitXclip { env: ClipboardEnv, text: String },
    /// Waiting for `xsel`.
    AwaitXsel { env: ClipboardEnv, text: String },
    /// Waiting for the OSC 52 sequence to be written; `copied` tells
    /// whether a command already copied the text.
    AwaitOsc { copied: bool },
    Done,
}

/// What the runtime reports.
pub enum WriteTextEvent {
    /// The write starts: the text, the environment and the platform name.
    Begin { text: String, env: Vec<(String, String)>, platform: String },
    /// The last command exited with 0 (true), or failed or timed out.
    Ran(bool),
    /// Writing the OSC 52 sequence to the terminal succeeded or failed.
    Wrote(bool),
}

/// What the runtime does next.
pub enum WriteTextAction {
    /// Run a program with arguments, the text on its standard input, for
    /// at most five seconds.
    Run { program: String, args: Vec<String>, input: String },
    /// Write the sequence to the terminal and flush it.
    WriteTerminal(String),
    /// The write is over: `None` on success, else the I/O error's message.
    Finish(Option<String>),
}

pub enum WriteTextStateView {
    Start,
    AwaitPrimary(ClipboardEnv, Seq<char>),
    AwaitTermux(ClipboardEnv, Seq<char>),
    AwaitWayland(ClipboardEnv, Seq<char>),
    AwaitXclip(ClipboardEnv, Seq<char>),
    AwaitXsel(ClipboardEnv, Seq<char>),
    AwaitOsc(bool),
    Done,
}

pub enum WriteTextEventView {
    Begin(Seq<char>, Seq<(String, String)>, Seq<char>),
    Ran(bool),
    Wrote(bool),
}

pub enum WriteTextActionView {
    Run(Seq<char>, Seq<Seq<char>>, Seq<char>),
    WriteTerminal(Seq<char>),
    Finish(Option<Seq<char>>),
}

impl View for WriteTextState {
    type V = WriteTextStateView;

    open spec fn view(&self) -> WriteTextStateView {
        match self {
            WriteTextState::Start => WriteTextStateView::Start,
            WriteTextState::AwaitPrimary { env, text } => WriteTextStateView::AwaitPrimary(*env, text@),
            WriteTextState::AwaitTermux { env, text } => WriteTextStateView::AwaitTermux(*env, text@),
            WriteTextState::AwaitWayland { env, text } => WriteTextStateView::AwaitWayland(*env, text@),
            WriteTextState::AwaitXclip { env, text } => WriteTextStateView::AwaitXclip(*env, text@),
            WriteTextState::AwaitXsel { env, text } => WriteTextStateView::AwaitXsel(*env, text@),
            WriteTextState::AwaitOsc { copied } => WriteTextStateView::AwaitOsc(*copied),
            WriteTextState::Done => WriteTextStateView::Done,
        }
    }
}

impl View for WriteTextEvent {
    type V = WriteTextEventView;

    open spec fn view(&self) -> WriteTextEventView {
        match self {
            WriteTextEvent::Begin { text, env, platform } => WriteTextEventView::Begin(text@, env@, platform@),
            WriteTextEvent::Ran(ok) => WriteTextEventView::Ran(*ok),
            WriteTextEvent::Wrote(ok) => WriteTextEventView::Wrote(*ok),
        }
    }
}

impl View for WriteTextAction {
    type V = WriteTextActionView;

    open spec fn view(&self) -> WriteTextActionView {
        match self {
            WriteTextAction::Run { program, args, input } => WriteTextActionView::Run(program@, crate::path::strings_view(args@), input@),
            WriteTextAction::WriteTerminal(s) => WriteTextActionView::WriteTerminal(s@),
            WriteTextAction::Finish(o) => WriteTextActionView::Finish(match o { Some(m) => Some(m@), None => None }),
        }
    }
}

/// The message of a failed copy.
pub open spec fn copy_failed_text() -> Seq<char> {
    "Failed to copy to clipboard"@
}

/// The end of a write: success when something copied the text.
pub open spec fn write_finished(copied: bool) -> (WriteTextStateView, WriteTextActionView) {
    (WriteTextStateView::Done, WriteTextActionView::Finish(if copied { None } else { Some(copy_failed_text()) }))
}

/// After the commands: a remote session, or a text no command copied,
/// also goes out as an OSC 52 sequence when it is short enough.
pub open spec fn write_osc_or_finish(env: ClipboardEnv, text: Seq<char>, copied: bool) -> (WriteTextStateView, WriteTextActionView) {
    if env.remote || !copied {
        match osc52_text(text) {
            Some(sq) => (WriteTextStateView::AwaitOsc(copied), WriteTextActionView::WriteTerminal(sq)),
            None => write_finished(copied),
        }
    } else {
        write_finished(true)
    }
}

/// After `wl-copy` (or in its place): `xclip` on an X display when
/// nothing has copied the text yet.
pub open spec fn write_after_wayland(env: ClipboardEnv, text: Seq<char>, copied: bool) -> (WriteTextStateView, WriteTextActionView) {
    if !copied && env.x11 {
        (WriteTextStateView::AwaitXclip(env, text), WriteTextActionView::Run("xclip"@, seq!["-selection"@, "clipboard"@], text))
    } else {
        write_osc_or_finish(env, text, copied)
    }
}

/// After `termux-clipboard-set` (or in its place): `wl-copy` on a
/// Wayland display when nothing has copied the text yet.
pub open spec fn write_after_termux(env: ClipboardEnv, text: Seq<char>, copied: bool) -> (WriteTextStateView, WriteTextActionView) {
    if !copied && env.wayland {
        (WriteTextStateView::AwaitWayland(env, text), WriteTextActionView::Run("wl-copy"@, Seq::empty(), text))
    } else {
        write_after_wayland(env, text, copied)
    }
}

/// One step of writing text to the clipboard: `pbcopy` on macOS, `clip`
/// on Windows; on Linux `termux-clipboard-set` under Termux, then (while
/// nothing has copied it) `wl-copy` on Wayland, `xclip` and then `xsel`
/// on X; finally OSC 52 for remote sessions or when nothing copied it. An
/// event the state does not wait for changes nothing and asks nothing.
pub open spec fn spec_write_text_step(s: WriteTextStateView, e: WriteTextEventView) -> (WriteTextStateView, WriteTextActionView) {
    match (s, e) {
        (WriteTextStateView::Start, WriteTextEventView::Begin(text, env, platform)) => {
            let ce = spec_clipboard_env(env);
            if platform == "darwin"@ {
                (WriteTextStateView::AwaitPrimary(ce, text), WriteTextActionView::Run("pbcopy"@, Seq::empty(), text))
            } else if platform == "win32"@ {
                (WriteTextStateView::AwaitPrimary(ce, text), WriteTextActionView::Run("clip"@, Seq::empty(), text))
            } else if platform == "linux"@ {
                if ce.termux {
                    (WriteTextStateView::AwaitTermux(ce, text), WriteTextActionView::Run("termux-clipboard-set"@, Seq::empty(), text))
                } else {
                    write_after_termux(ce, text, false)
                }
            } else {
                write_osc_or_finish(ce, text, false)
            }
        },
        (WriteTextStateView::AwaitPrimary(ce, text), WriteTextEventView::Ran(ok)) => write_osc_or_finish(ce, text, ok),
        (WriteTextStateView::AwaitTermux(ce, text), WriteTextEventView::Ran(ok)) => write_after_termux(ce, text, ok),
        (WriteTextStateView::AwaitWayland(ce, text), WriteTextEventView::Ran(ok)) => write_after_wayland(ce, text, ok),
        (WriteTextStateView::AwaitXclip(ce, text), WriteTextEventView::Ran(ok)) => if ok {
            write_osc_or_finish(ce, text, true)
        } else {
            (WriteTextStateView::AwaitXsel(ce, text), WriteTextActionView::Run("xsel"@, seq!["--clipboard"@, "--input"@], text))
        },
        (WriteTextStateView::AwaitXsel(ce, text), WriteTextEventView::Ran(ok)) => write_osc_or_finish(ce, text, ok),
        (WriteTextStateView::AwaitOsc(copied), WriteTextEventView::Wrote(ok)) => write_finished(ok || copied),
        _ => (s, WriteTextActionView::Finish(None)),
    }
}

/// The clipboard facts of an environment.
pub fn clipboard_env(env: &Vec<(String, String)>) -> (r: ClipboardEnv)
    ensures
        r == spec_clipboard_env(env@),
{
    let remote = env_truthy(env, "SSH_CONNECTION") || env_truthy(env, "SSH_CLIENT") || env_truthy(env, "MOSH_CONNECTION");
    let termux = env_lookup(env, "TERMUX_VERSION").is_some();
    let wayland = is_wayland(env) && env_truthy(env, "WAYLAND_DISPLAY");
    let x11 = env_truthy(env, "DISPLAY");
    ClipboardEnv { remote, termux, wayland, x11 }
}

fn write_finish(copied: bool) -> (r: (WriteTextState, WriteTextAction))
    ensures
        (r.0@, r.1@) == write_finished(copied),
{
    if copied {
        (WriteTextState::Done, WriteTextAction::Finish(None))
    } else {
        (WriteTextState::Done, WriteTextAction::Finish(Some("Failed to copy to clipboard".to_owned())))
    }
}

fn write_osc_step(env: ClipboardEnv, text: String, copied: bool) -> (r: (WriteTextState, WriteTextAction))
    ensures
        (r.0@, r.1@) == write_osc_or_finish(env, text@, copied),
{
    if env.remote || !copied {
        match osc52_sequence(text.as_str()) {
            Some(sq) => (WriteTextState::AwaitOsc { copied }, WriteTextAction::WriteTerminal(sq)),
            None => write_finish(copied),
        }
    } else {
        write_finish(true)
    }
}

fn run_action(program: &str, args: Vec<String>, text: &String) -> (r: WriteTextAction)
    ensures
        r@ == WriteTextActionView::Run(program@, crate::path::strings_view(args@), text@),
{
    WriteTextAction::Run { program: program.to_owned(), args, input: text.clone() }
}

fn write_wayland_step(env: ClipboardEnv, text: String, copied: bool) -> (r: (WriteTextState, WriteTextAction))
    ensures
        (r.0@, r.1@) == write_after_wayland(env, text@, copied),
{
    if !copied && env.x11 {
        let args = strings_of(&["-selection", "clipboard"]);
        assert(crate::path::strings_view(args@) =~= seq!["-selection"@, "clipboard"@]);
        let a = run_action("xclip", args, &text);
        (WriteTextState::AwaitXclip { env, text }, a)
    } else {
        write_osc_step(env, text, copied)
    }
}

fn no_args() -> (r: Vec<String>)
    ensures
        crate::path::strings_view(r@) == Seq::<Seq<char>>::empty(),
{
    let v: Vec<String> = Vec::new();
    assert(crate::path::strings_view(v@) =~= Seq::<Seq<char>>::empty());
    v
}

fn write_termux_step(env: ClipboardEnv, text: String, copied: bool) -> (r: (WriteTextState, WriteTextAction))
    ensures
        (r.0@, r.1@) == write_after_termux(env, text@, copied),
{
    if !copied && env.wayland {
        let a = run_action("wl-copy", no_args(), &text);
        (WriteTextState::AwaitWayland { env, text }, a)
    } else {
        write_wayland_step(env, text, copied)
    }
}

/// One step of writing text to the clipboard (see `spec_write_text_step`).
pub fn write_text_step(state: WriteTextState, event: WriteTextEvent) -> (r: (WriteTextState, WriteTextAction))
    ensures
        (r.0@, r.1@) == spec_write_text_step(state@, event@),
{
    match (state, event) {
        (WriteTextState::Start, WriteTextEvent::Begin { text, env, platform }) => {
            let ce = clipboard_env(&env);
            let p = chars_of(platform.as_str());
            if chars_eq(&p, &chars_of("darwin")) {
                let a = run_action("pbcopy", no_args(), &text);
                (WriteTextState::AwaitPrimary { env: ce, text }, a)
            } else if chars_eq(&p, &chars_of("win32")) {
                let a = run_action("clip", no_args(), &text);
                (WriteTextState::AwaitPrimary { env: ce, text }, a)
            } else if chars_eq(&p, &chars_of("linux")) {
                if ce.termux {
                    let a = run_action("termux-clipboard-set", no_args(), &text);
                    (WriteTextState::AwaitTermux { env: ce, text }, a)
                } else {
                    write_termux_step(ce, text, false)
                }
            } else {
                write_osc_step(ce, text, false)
            }
        },
        (WriteTextState::AwaitPrimary { env, text }, WriteTextEvent::Ran(ok)) => write_osc_step(env, text, ok),
        (WriteTextState::AwaitTermux { env, text }, WriteTextEvent::Ran(ok)) => write_termux_step(env, text, ok),
        (WriteTextState::AwaitWayland { env, text }, WriteTextEvent::Ran(ok)) => write_wayland_step(env, text, ok),
        (WriteTextState::AwaitXclip { env, text }, WriteTextEvent::Ran(ok)) => if ok {
            write_osc_step(env, text, true)
        } else {
            let args = strings_of(&["--clipboard", "--input"]);
            assert(crate::path::strings_view(args@) =~= seq!["--clipboard"@, "--input"@]);
            let a = run_action("xsel", args, &text);
            (WriteTextState::AwaitXsel { env, text }, a)
        },
        (WriteTextState::AwaitXsel { env, text }, WriteTextEvent::Ran(ok)) => write_osc_step(env, text, ok),
        (WriteTextState::AwaitOsc { copied }, WriteTextEvent::Wrote(ok)) => write_finish(ok || copied),
        (state, _) => (state, WriteTextAction::Finish(None)),
    }
}


// ---------------------------------------------------------------------------
// File-system request details
// ---------------------------------------------------------------------------

/// Whether a temp-file prefix keeps `c`: ASCII letters and digits, `-`,
/// `_` and `.`.
pub open spec fn prefix_char_kept(c: char) -> bool {
    ('a' <= c && c <= 'z') || ('A' <= c && c <= 'Z') || ('0' <= c && c <= '9') || c == '-' || c == '_' || c == '.'
}

/// A temp-file prefix made safe: every character it does not keep becomes `-`.
pub open spec fn spec_safe_temp_prefix(p: Seq<char>) -> Seq<char> {
    Seq::new(p.len(), |i: int| if prefix_char_kept(p[i]) { p[i] } else { '-' })
}

/// The prefix a temp file is created with (see `spec_safe_temp_prefix`).
pub fn safe_temp_prefix(prefix: &str) -> (r: String)
    ensures
        r@ == spec_safe_temp_prefix(prefix@),
{
    let cs = chars_of(prefix);
    let mut out: Vec<char> = Vec::new();
    let mut i: usize = 0;
    while i < cs.len()
        invariant
            i <= cs@.len(),
            cs@ == prefix@,
            out@ == spec_safe_temp_prefix(prefix@).take(i as int),
        decreases cs@.len() - i,
    {
        let c = cs[i];
        let kept = ('a' <= c && c <= 'z') || ('A' <= c && c <= 'Z') || ('0' <= c && c <= '9') || c == '-' || c == '_' || c == '.';
        out.push(if kept { c } else { '-' });
        assert(out@ =~= spec_safe_temp_prefix(prefix@).take(i + 1));
        i += 1;
    }
    assert(out@ =~= spec_safe_temp_prefix(prefix@));
    string_of(out.as_slice())
}

/// The kind a stat reports.
pub open spec fn spec_stat_kind(is_dir: bool, is_file: bool) -> Seq<char> {
    if is_dir {
        "dir"@
    } else if is_file {
        "file"@
    } else {
        "other"@
    }
}

/// The modification time a stat reports, from the milliseconds since the
/// epoch: 0 when the time is unknown or before the epoch, else the count
/// capped at `i64::MAX`.
pub open spec fn spec_modified_ms(millis: Option<u128>) -> i64 {
    match millis {
        Some(m) => if m > i64::MAX as u128 { i64::MAX } else { m as i64 },
        None => 0,
    }
}

/// The stat of a file from what its metadata says.
pub fn file_stat(is_dir: bool, is_file: bool, size: u64, millis: Option<u128>) -> (r: FileStat)
    ensures
        r.kind@ == spec_stat_kind(is_dir, is_file),
        r.size == size,
        r.modified_ms == spec_modified_ms(millis),
{
    let kind = if is_dir {
        "dir".to_owned()
    } else if is_file {
        "file".to_owned()
    } else {
        "other".to_owned()
    };
    let modified_ms: i64 = match millis {
        Some(m) => if m > i64::MAX as u128 { i64::MAX } else { m as i64 },
        None => 0,
    };
    FileStat { kind, size, modified_ms }
}

/// The message of a failed file-system operation.
pub open spec fn fs_error_text(operation: Seq<char>, path: Seq<char>, error: Seq<char>) -> Seq<char> {
    operation + " '"@ + path + "': "@ + error
}

/// The error of a failed file-system operation on `path`.
pub fn fs_io_error(operation: &str, path: &str, error: &str) -> (r: EffectError)
    ensures
        r matches EffectError::Io(m) && m@ == fs_error_text(operation@, path@, error@),
{
    let mut out = chars_of(operation);
    extend_chars(&mut out, &chars_of(" '"));
    extend_chars(&mut out, &chars_of(path));
    extend_chars(&mut out, &chars_of("': "));
    extend_chars(&mut out, &chars_of(error));
    EffectError::Io(string_of(out.as_slice()))
}

} // verus!
