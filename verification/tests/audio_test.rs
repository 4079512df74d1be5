use wlvolctl::audio::{AudioBackend, AudioError, BackendTag, CmdOutcome, CmdRequest, Runner, Stream};

struct NullRunner;

impl Runner for NullRunner {
    fn run(&self, _req: &CmdRequest) -> CmdOutcome {
        CmdOutcome::Finished { exit_ok: true, stdout: Vec::new() }
    }
}

struct DummyBackend;

impl AudioBackend<NullRunner> for DummyBackend {
    fn list_streams(&self, _runner: &NullRunner) -> Result<Vec<Stream>, AudioError> {
        println!("Listing streams from DummyBackend");
        Ok(vec![Stream {
            id: 1,
            name: "Firefox".to_string(),
            icon_name: Some("firefox".to_string()),
            volume_milli: 500,
            mute: false,
            backend_tag: BackendTag::PipeWire,
        }])
    }

    fn set_volume(
        &self,
        _runner: &NullRunner,
        stream_id: u32,
        volume_milli: u32,
    ) -> Result<(), AudioError> {
        println!("Setting volume for stream {} to {}", stream_id, volume_milli);
        Ok(())
    }

    fn set_mute(&self, _runner: &NullRunner, stream_id: u32, mute: bool) -> Result<(), AudioError> {
        println!("Setting mute for stream {} to {}", stream_id, mute);
        Ok(())
    }
}

#[test]
fn test_dummy_backend() {
    let backend = DummyBackend;
    let runner = NullRunner;

    println!("Starting DummyBackend test");

    let streams = backend.list_streams(&runner).unwrap();
    println!("Streams returned: {:?}", streams);

    assert_eq!(streams[0].name, "Firefox");

    backend.set_volume(&runner, 1, 750).unwrap();
    backend.set_mute(&runner, 1, true).unwrap();

    println!("Finished DummyBackend test successfully");
}

#[test]
fn test_error_messages() {
    assert_eq!(AudioError::NotAvailable.message(), "backend not available");
    assert_eq!(
        AudioError::CommandFailed("boom".to_string()).message(),
        "command failed: boom"
    );
    assert_eq!(
        AudioError::ParseError("bad pattern".to_string()).message(),
        "parse error: bad pattern"
    );
}
