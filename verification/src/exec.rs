//! Running a command to completion: its output gathered from the events
//! of the process effect, and how the run ended.

use vstd::prelude::*;

use crate::effects::{effect_error_text, EffectError, ProcessEvent, ProcessOutputKind};
use crate::text::{chars_of, string_of};

verus! {

/// How a command ran: its output as text, its exit code, and whether it
/// was killed (by a timeout or a cancellation).
pub struct ExecResult {
    pub stdout: String,
    pub stderr: String,
    pub code: i64,
    pub killed: bool,
}

/// Bytes as text, with every malformed sequence replaced by U+FFFD.
pub uninterp spec fn lossy_utf8(bytes: Seq<u8>) -> Seq<char>;

/// `String::from_utf8_lossy`: the text of the bytes, malformed sequences
/// replaced by U+FFFD; UTF-8 bytes give back exactly their text.
#[verifier::external_body]
pub(crate) fn lossy_text(bytes: &[u8]) -> (r: String)
    ensures
        r@ == lossy_utf8(bytes@),
        vstd::utf8::valid_utf8(bytes@) ==> r@ == vstd::utf8::decode_utf8(bytes@),
{
    String::from_utf8_lossy(bytes).into_owned()
}

/// What the next event of a run leads to.
pub enum ExecStep {
    /// More events follow.
    Continue,
    /// The run is over.
    Finished(ExecResult),
    /// The run failed with this message.
    Failed(String),
}

/// The output of a command gathered so far.
pub struct ExecCollector {
    stdout: Vec<u8>,
    stderr: Vec<u8>,
}

/// The outcome of a run that ended with the output gathered so far.
pub open spec fn ended(r: ExecResult, stdout: Seq<u8>, stderr: Seq<u8>, code: i64, killed: bool) -> bool {
    r.stdout@ == lossy_utf8(stdout) && r.stderr@ == lossy_utf8(stderr) && r.code == code && r.killed == killed
}

impl ExecCollector {
    /// The standard output so far.
    pub closed spec fn stdout(self) -> Seq<u8> {
        self.stdout@
    }

    /// The standard error so far.
    pub closed spec fn stderr(self) -> Seq<u8> {
        self.stderr@
    }

    /// Nothing gathered yet.
    pub fn new() -> (r: ExecCollector)
        ensures
            r.stdout() == Seq::<u8>::empty(),
            r.stderr() == Seq::<u8>::empty(),
    {
        ExecCollector { stdout: Vec::new(), stderr: Vec::new() }
    }

    /// What a refused process request gives: a cancelled run that could
    /// be aborted counts as killed with no output; any other error fails
    /// with its message.
    pub fn request_failed(error: EffectError, abortable: bool) -> (r: Result<ExecResult, String>)
        ensures
            error is Cancelled && abortable ==> (r matches Ok(x) && x.stdout@.len() == 0 && x.stderr@.len() == 0
                && x.code == 0 && x.killed),
            !(error is Cancelled && abortable) ==> (r matches Err(m) && m@ == effect_error_text(error)),
    {
        match error {
            EffectError::Cancelled => {
                if abortable {
                    return Ok(ExecResult { stdout: String::new(), stderr: String::new(), code: 0, killed: true });
                }
            },
            _ => {},
        }
        Err(error.message())
    }

    /// Takes the next event of the run (`None` when the events ended):
    /// output is gathered, an exit ends the run with its code, a timeout
    /// or cancellation ends it as killed, any other error fails it, and
    /// events ending without an exit fail it too.
    pub fn on_event(&mut self, event: Option<ProcessEvent>) -> (r: ExecStep)
        ensures
            match event {
                Some(ProcessEvent::Output(ProcessOutputKind::Stdout, bytes)) => r is Continue
                    && final(self).stdout() == old(self).stdout() + bytes@ && final(self).stderr() == old(self).stderr(),
                Some(ProcessEvent::Output(ProcessOutputKind::Stderr, bytes)) => r is Continue
                    && final(self).stderr() == old(self).stderr() + bytes@ && final(self).stdout() == old(self).stdout(),
                Some(ProcessEvent::Exit(o)) => (r matches ExecStep::Finished(x) && ended(x, old(self).stdout(),
                    old(self).stderr(), o.code, o.killed)) && *final(self) == *old(self),
                Some(ProcessEvent::Error(e)) => if e is Timeout || e is Cancelled {
                    (r matches ExecStep::Finished(x) && ended(x, old(self).stdout(), old(self).stderr(), 0, true))
                        && *final(self) == *old(self)
                } else {
                    (r matches ExecStep::Failed(m) && m@ == effect_error_text(e)) && *final(self) == *old(self)
                },
                None => (r matches ExecStep::Failed(m) && m@ == "process effect ended without a result"@) && *final(self)
                    == *old(self),
            },
    {
        match event {
            Some(ProcessEvent::Output(kind, bytes)) => {
                let mut i: usize = 0;
                let ghost start_out = self.stdout@;
                let ghost start_err = self.stderr@;
                while i < bytes.len()
                    invariant
                        i <= bytes@.len(),
                        kind == ProcessOutputKind::Stdout ==> self.stdout@ == start_out + bytes@.take(i as int)
                            && self.stderr@ == start_err,
                        kind == ProcessOutputKind::Stderr ==> self.stderr@ == start_err + bytes@.take(i as int)
                            && self.stdout@ == start_out,
                    decreases bytes@.len() - i,
                {
                    match kind {
                        ProcessOutputKind::Stdout => self.stdout.push(bytes[i]),
                        ProcessOutputKind::Stderr => self.stderr.push(bytes[i]),
                    }
                    assert(bytes@.take(i + 1) =~= bytes@.take(i as int).push(bytes@[i as int]));
                    i += 1;
                }
                assert(bytes@.take(bytes@.len() as int) =~= bytes@);
                ExecStep::Continue
            },
            Some(ProcessEvent::Exit(o)) => ExecStep::Finished(ExecResult {
                stdout: lossy_text(self.stdout.as_slice()),
                stderr: lossy_text(self.stderr.as_slice()),
                code: o.code,
                killed: o.killed,
            }),
            Some(ProcessEvent::Error(e)) => match e {
                EffectError::Timeout | EffectError::Cancelled => ExecStep::Finished(ExecResult {
                    stdout: lossy_text(self.stdout.as_slice()),
                    stderr: lossy_text(self.stderr.as_slice()),
                    code: 0,
                    killed: true,
                }),
                _ => ExecStep::Failed(e.message()),
            },
            None => ExecStep::Failed(string_of(chars_of("process effect ended without a result").as_slice())),
        }
    }
}

} // verus!
