use std::cell::RefCell;

use wlvolctl::audio::{AudioBackend, AudioError, BackendTag, CmdOutcome, CmdRequest, Runner};
use wlvolctl::pulseaudio_cli::{parse_list_output, PulseAudioCli};

/// A scripted stand-in for the PulseAudio controller: keeps per-stream
/// volume and mute state, renders it as the detailed listing, and
/// applies control commands to it.
struct FakePactl {
    present: bool,
    // id, name, volume in thousandths, mute
    state: RefCell<Vec<(u32, String, u32, bool)>>,
}

impl FakePactl {
    fn with_streams(streams: Vec<(u32, String, u32, bool)>) -> FakePactl {
        FakePactl { present: true, state: RefCell::new(streams) }
    }

    fn render(&self) -> String {
        let mut out = String::new();
        for (id, name, vol, mute) in self.state.borrow().iter() {
            out.push_str(&format!("Sink Input #{}\n", id));
            out.push_str(&format!("\tapplication.name = \"{}\"\n", name));
            let pct = (vol + 5) / 10;
            out.push_str(&format!("\tVolume: front-left: 65536 / {}% / 0.00 dB\n", pct));
            out.push_str(&format!("\tMute: {}\n", if *mute { "yes" } else { "no" }));
        }
        out
    }
}

impl Runner for FakePactl {
    fn run(&self, req: &CmdRequest) -> CmdOutcome {
        if req.program == "which" {
            return CmdOutcome::Finished { exit_ok: self.present, stdout: Vec::new() };
        }
        let first = req.args.first().map(|a| a.as_str());
        match first {
            Some("list") => {
                CmdOutcome::Finished { exit_ok: true, stdout: self.render().chars().collect() }
            }
            Some("set-sink-input-volume") => {
                let id: u32 = req.args[1].parse().unwrap();
                let pct: u32 = req.args[2].trim_end_matches('%').parse().unwrap();
                for e in self.state.borrow_mut().iter_mut() {
                    if e.0 == id {
                        e.2 = (pct * 10).min(1000);
                    }
                }
                CmdOutcome::Finished { exit_ok: true, stdout: Vec::new() }
            }
            Some("set-sink-input-mute") => {
                let id: u32 = req.args[1].parse().unwrap();
                let mute = req.args[2] == "1";
                for e in self.state.borrow_mut().iter_mut() {
                    if e.0 == id {
                        e.3 = mute;
                    }
                }
                CmdOutcome::Finished { exit_ok: true, stdout: Vec::new() }
            }
            _ => CmdOutcome::SpawnFailed("unknown command".to_string()),
        }
    }
}

fn firefox_runner() -> FakePactl {
    FakePactl::with_streams(vec![(7, "Firefox".to_string(), 1000, false)])
}

#[test]
fn test_list_streams_pulseaudio() {
    let runner = firefox_runner();
    if !PulseAudioCli::available(&runner) {
        println!("pactl not available, skipping PulseAudio test");
        return;
    }

    let backend = PulseAudioCli;
    let streams = backend.list_streams(&runner).unwrap();
    println!("Streams: {:?}", streams);

    assert!(streams.len() >= 0);
}

#[test]
fn test_control_streams_pulseaudio() {
    let runner = firefox_runner();
    if !PulseAudioCli::available(&runner) {
        println!("pactl not available, skipping PulseAudio test");
        return;
    }

    let backend = PulseAudioCli;
    let streams = backend.list_streams(&runner).unwrap();

    if streams.is_empty() {
        println!("No active streams to test");
        return;
    }

    let s = &streams[0];
    println!("Testing stream: {:?}", s);

    // Lower volume to 50%
    backend.set_volume(&runner, s.id, 500).unwrap();
    println!("Set volume of {} to 50%", s.name);

    // Mute
    backend.set_mute(&runner, s.id, true).unwrap();
    println!("Muted {}", s.name);

    // Unmute
    backend.set_mute(&runner, s.id, false).unwrap();
    println!("Unmuted {}", s.name);

    // Raise volume back to 100%
    backend.set_volume(&runner, s.id, 1000).unwrap();
    println!("Restored volume of {} to 100%", s.name);
}

#[test]
fn test_volume_and_mute_state_updates() {
    let runner = firefox_runner();
    if !PulseAudioCli::available(&runner) {
        println!("pactl not available, skipping PulseAudio test");
        return;
    }

    let backend = PulseAudioCli;
    let streams = backend.list_streams(&runner).unwrap();
    if streams.is_empty() {
        println!("No active streams to test");
        return;
    }

    let s = &streams[0];
    println!("Initial stream: {:?}", s);

    // Save original state
    let original_vol = s.volume_milli;
    let original_mute = s.mute;

    // --- Test volume change ---
    backend.set_volume(&runner, s.id, 500).unwrap();
    let updated = backend
        .list_streams(&runner)
        .unwrap()
        .into_iter()
        .find(|st| st.id == s.id)
        .unwrap();
    println!("After set_volume: {:?}", updated);
    assert!((updated.volume_milli as i64 - 500).abs() < 50, "Volume not updated");

    // --- Test mute toggle ---
    backend.set_mute(&runner, s.id, true).unwrap();
    let muted = backend
        .list_streams(&runner)
        .unwrap()
        .into_iter()
        .find(|st| st.id == s.id)
        .unwrap();
    println!("After mute: {:?}", muted);
    assert!(muted.mute, "Mute state not updated");

    backend.set_mute(&runner, s.id, false).unwrap();
    let unmuted = backend
        .list_streams(&runner)
        .unwrap()
        .into_iter()
        .find(|st| st.id == s.id)
        .unwrap();
    println!("After unmute: {:?}", unmuted);
    assert!(!unmuted.mute, "Unmute state not updated");

    // --- Restore original state ---
    backend.set_volume(&runner, s.id, original_vol).unwrap();
    backend.set_mute(&runner, s.id, original_mute).unwrap();
    println!("Restored original state for {}", s.name);
}

fn chars(text: &str) -> Vec<char> {
    text.chars().collect()
}

#[test]
fn test_parse_isolated_record() {
    let streams =
        parse_list_output(&chars("Sink Input #5\napplication.name = \"Firefox\"\nVolume: 50%\nMute: no\n"));
    assert_eq!(streams.len(), 1);
    assert_eq!(streams[0].id, 5);
    assert_eq!(streams[0].name, "Firefox");
    assert_eq!(streams[0].volume_milli, 500);
    assert!(!streams[0].mute);
    assert_eq!(streams[0].backend_tag, BackendTag::PulseAudio);
    assert_eq!(streams[0].icon_name, None);
}

#[test]
fn test_parse_incomplete_record_dropped() {
    // Header seen, but the volume line never appears: no stream.
    let streams =
        parse_list_output(&chars("Sink Input #5\napplication.name = \"Firefox\"\nMute: no\n"));
    assert!(streams.is_empty());

    // Header seen, but the name line never appears: no stream.
    let streams = parse_list_output(&chars("Sink Input #5\nVolume: 50%\nMute: yes\n"));
    assert!(streams.is_empty());

    // The incomplete record vanishes even between two complete ones.
    let text = "Sink Input #1\napplication.name = \"One\"\nVolume: 10%\nSink Input #2\napplication.name = \"Two\"\nSink Input #3\napplication.name = \"Three\"\nVolume: 30%\n";
    let streams = parse_list_output(&chars(text));
    assert_eq!(streams.len(), 2);
    assert_eq!(streams[0].id, 1);
    assert_eq!(streams[1].id, 3);
}

#[test]
fn test_parse_duplicate_volume_last_wins() {
    let text = "Sink Input #4\napplication.name = \"App\"\nVolume: 30%\nVolume: 70%\n";
    let streams = parse_list_output(&chars(text));
    assert_eq!(streams.len(), 1);
    assert_eq!(streams[0].volume_milli, 700);
}

#[test]
fn test_parse_fields_in_any_order() {
    let text = "Sink Input #9\nMute: yes\nsome unrelated line\nVolume: 25%\nmore noise\napplication.name = \"Shuffled\"\n";
    let streams = parse_list_output(&chars(text));
    assert_eq!(streams.len(), 1);
    assert_eq!(streams[0].id, 9);
    assert_eq!(streams[0].name, "Shuffled");
    assert_eq!(streams[0].volume_milli, 250);
    assert!(streams[0].mute);
}

#[test]
fn test_parse_percentage_clamped() {
    let text = "Sink Input #2\napplication.name = \"Loud\"\nVolume: 150%\n";
    let streams = parse_list_output(&chars(text));
    assert_eq!(streams.len(), 1);
    assert_eq!(streams[0].volume_milli, 1000);
}

#[test]
fn test_pulseaudio_set_volume_request_formats_percentage() {
    let req = PulseAudioCli::set_volume_request(3, 500);
    assert_eq!(req.program, "pactl");
    assert_eq!(req.args, vec!["set-sink-input-volume", "3", "50%"]);

    // Rounded to the nearest percent.
    let req = PulseAudioCli::set_volume_request(3, 497);
    assert_eq!(req.args, vec!["set-sink-input-volume", "3", "50%"]);

    // Out-of-range input is clamped, a normal case.
    let req = PulseAudioCli::set_volume_request(3, 2000);
    assert_eq!(req.args, vec!["set-sink-input-volume", "3", "100%"]);
}

#[test]
fn test_pulseaudio_set_mute_request_binary_token() {
    let req = PulseAudioCli::set_mute_request(11, true);
    assert_eq!(req.program, "pactl");
    assert_eq!(req.args, vec!["set-sink-input-mute", "11", "1"]);
    let req = PulseAudioCli::set_mute_request(11, false);
    assert_eq!(req.args, vec!["set-sink-input-mute", "11", "0"]);
}

#[test]
fn test_pulseaudio_listing_failure_surfaces_command_failed() {
    let r = PulseAudioCli::streams_from_output(CmdOutcome::SpawnFailed("no pactl".to_string()));
    assert!(matches!(r, Err(AudioError::CommandFailed(m)) if m == "no pactl"));

    let r = PulseAudioCli::streams_from_output(CmdOutcome::Finished {
        exit_ok: false,
        stdout: Vec::new(),
    });
    assert!(matches!(r, Err(AudioError::CommandFailed(m)) if m == "pactl list failed"));
}

#[test]
fn test_pulseaudio_availability_probe() {
    let mut runner = firefox_runner();
    runner.present = false;
    assert!(!PulseAudioCli::available(&runner));
    runner.present = true;
    assert!(PulseAudioCli::available(&runner));
}
