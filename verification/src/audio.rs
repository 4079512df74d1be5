//! Canonical stream model, the capability interface shared by both
//! backends, the error taxonomy, and the injected process-running
//! capability together with the interpreters of its outcomes.

use vstd::prelude::*;

verus! {

/// Provenance marker: which backend produced a stream record.
#[derive(Debug, Clone, Copy, PartialEq, Eq, Structural)]
pub enum BackendTag {
    PipeWire,
    PulseAudio,
}

/// Full volume expressed in the unit used throughout the library:
/// thousandths of full volume ("milli" units), so `1000` is 100%.
pub const VOLUME_FULL_MILLI: u32 = 1000;

/// Snapshot of one active application audio stream at the moment of
/// listing. Volume is normalized to thousandths of full volume:
/// `volume_milli` is in `0 ..= 1000` for every stream a listing returns.
#[derive(Debug, Clone)]
pub struct Stream {
    pub id: u32,
    pub name: String,
    pub icon_name: Option<String>,
    pub volume_milli: u32,
    pub mute: bool,
    pub backend_tag: BackendTag,
}

/// Mathematical image of a [`Stream`].
pub struct StreamData {
    pub id: u32,
    pub name: Seq<char>,
    pub icon_name: Option<Seq<char>>,
    pub volume_milli: u32,
    pub mute: bool,
    pub backend_tag: BackendTag,
}

impl StreamData {
    /// A stream is well formed when its volume is normalized.
    pub open spec fn wf(self) -> bool {
        self.volume_milli <= VOLUME_FULL_MILLI
    }
}

impl View for Stream {
    type V = StreamData;

    open spec fn view(&self) -> StreamData {
        StreamData {
            id: self.id,
            name: self.name@,
            icon_name: match self.icon_name {
                Some(s) => Some(s@),
                None => None,
            },
            volume_milli: self.volume_milli,
            mute: self.mute,
            backend_tag: self.backend_tag,
        }
    }
}

/// Uniform error taxonomy of the capability interface.
#[derive(Debug, Clone)]
pub enum AudioError {
    /// The backend's control binary could not be found or executed.
    NotAvailable,
    /// The external process could not be spawned, or exited with a
    /// failure status; the payload carries the diagnostic text.
    CommandFailed(String),
    /// A failure to assemble the fixed matching pattern of the
    /// section-delimited parser: a static, data-independent condition,
    /// never triggered by malformed input text.
    ParseError(String),
}

impl AudioError {
    /// Human-readable description of the error.
    pub fn message(&self) -> (r: String)
        ensures
            *self is NotAvailable ==> r@ == "backend not available"@,
            forall|m: String| *self == AudioError::CommandFailed(m) ==> r@ == "command failed: "@ + m@,
            forall|m: String| *self == AudioError::ParseError(m) ==> r@ == "parse error: "@ + m@,
    {
        match self {
            AudioError::NotAvailable => String::from_str("backend not available"),
            AudioError::CommandFailed(m) => {
                let mut r = String::from_str("command failed: ");
                r.append(m.as_str());
                r
            },
            AudioError::ParseError(m) => {
                let mut r = String::from_str("parse error: ");
                r.append(m.as_str());
                r
            },
        }
    }
}

/// One request to run an external control program: the program name and
/// its arguments, exactly as they would stand on a command line.
#[derive(Debug, Clone)]
pub struct CmdRequest {
    pub program: String,
    pub args: Vec<String>,
}

/// What running an external control program yielded: either the process
/// could not be spawned at all, or it finished with an exit status and
/// (for listing calls) captured standard output, given as characters.
#[derive(Debug, Clone)]
pub enum CmdOutcome {
    SpawnFailed(String),
    Finished { exit_ok: bool, stdout: Vec<char> },
}

impl CmdOutcome {
    /// The outcome reports a process that ran and exited successfully.
    pub open spec fn is_success(self) -> bool {
        match self {
            CmdOutcome::Finished { exit_ok, .. } => exit_ok,
            CmdOutcome::SpawnFailed(_) => false,
        }
    }
}

/// Injected capability to run one external process synchronously.
///
/// The library never spawns a process itself; a caller supplies an
/// implementation (a real spawner, or a scripted fake for tests).
/// Nothing is promised of the outcome: every caller in the library
/// states what it does for every possible outcome.
pub trait Runner {
    fn run(&self, req: &CmdRequest) -> CmdOutcome;
}

/// Turns the outcome of a control command (volume or mute set) into the
/// operation's result: success exactly when the process ran and exited
/// successfully; otherwise the spawn diagnostic, or `note`, as the
/// `CommandFailed` payload.
pub fn control_result(outcome: CmdOutcome, note: &str) -> (r: Result<(), AudioError>)
    ensures
        r is Ok <==> outcome.is_success(),
        r matches Err(e) ==> e is CommandFailed,
        forall|m: String| outcome == CmdOutcome::SpawnFailed(m)
            ==> (r matches Err(AudioError::CommandFailed(p)) && p@ == m@),
        (outcome matches CmdOutcome::Finished { exit_ok: false, .. })
            ==> (r matches Err(AudioError::CommandFailed(p)) && p@ == note@),
{
    match outcome {
        CmdOutcome::SpawnFailed(m) => Err(AudioError::CommandFailed(m)),
        CmdOutcome::Finished { exit_ok, .. } => {
            if exit_ok {
                Ok(())
            } else {
                Err(AudioError::CommandFailed(String::from_str(note)))
            }
        },
    }
}

/// Turns the outcome of an availability probe into the probe's answer:
/// the backend counts as available exactly when the lookup process ran
/// and exited successfully.
pub fn probe_result(outcome: &CmdOutcome) -> (r: bool)
    ensures
        r == outcome.is_success(),
{
    match outcome {
        CmdOutcome::Finished { exit_ok, .. } => *exit_ok,
        CmdOutcome::SpawnFailed(_) => false,
    }
}

/// Capability interface: the operation set every backend provides.
///
/// Each operation spawns one external process through the injected
/// runner, synchronously, and owns no cross-call state. Every stream a
/// listing returns is well formed (its volume is normalized), and an
/// operation that fails always reports `CommandFailed`: the probe is
/// the only source of `NotAvailable`, and `ParseError` is reserved for
/// a failure to assemble the fixed matching pattern, which cannot
/// arise at runtime.
pub trait AudioBackend<R: Runner> {
    fn list_streams(&self, runner: &R) -> (r: Result<Vec<Stream>, AudioError>)
        ensures
            r matches Ok(ss) ==> forall|i: int| 0 <= i < ss@.len() ==> (#[trigger] ss@[i])@.wf(),
            r matches Err(e) ==> e is CommandFailed,
    ;

    fn set_volume(&self, runner: &R, stream_id: u32, volume_milli: u32) -> (r: Result<
        (),
        AudioError,
    >)
        ensures
            r matches Err(e) ==> e is CommandFailed,
    ;

    fn set_mute(&self, runner: &R, stream_id: u32, mute: bool) -> (r: Result<(), AudioError>)
        ensures
            r matches Err(e) ==> e is CommandFailed,
    ;
}

} // verus!
