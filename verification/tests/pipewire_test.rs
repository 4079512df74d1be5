use wlvolctl::audio::{AudioBackend, AudioError, BackendTag, CmdOutcome, CmdRequest, Runner};
use wlvolctl::pipewire_cli::{parse_status, PipeWireCli};

/// A scripted stand-in for the PipeWire controller: answers the probe,
/// hands back a fixed status dump for listings, and accepts controls.
struct FakeWpctl {
    present: bool,
    status: &'static str,
}

impl Runner for FakeWpctl {
    fn run(&self, req: &CmdRequest) -> CmdOutcome {
        if req.program == "which" {
            return CmdOutcome::Finished { exit_ok: self.present, stdout: Vec::new() };
        }
        if req.args.first().map(|a| a.as_str()) == Some("status") {
            CmdOutcome::Finished { exit_ok: true, stdout: self.status.chars().collect() }
        } else {
            CmdOutcome::Finished { exit_ok: true, stdout: Vec::new() }
        }
    }
}

#[test]
fn test_list_streams_pipewire() {
    let runner = FakeWpctl {
        present: true,
        status: "Sink Inputs:\n  12. MyApp (sink: 3) [vol: 0.80]\n\n",
    };
    if !PipeWireCli::available(&runner) {
        println!("wpctl not available, skipping PipeWire test");
        return;
    }

    let backend = PipeWireCli;
    let streams = backend.list_streams(&runner).unwrap();
    println!("Streams: {:?}", streams);

    // Basic sanity check
    assert!(streams.len() >= 0);
}

fn chars(text: &str) -> Vec<char> {
    text.chars().collect()
}

#[test]
fn test_parse_single_record_line() {
    let streams = parse_status(&chars("Sink Inputs:\n  12. MyApp (sink: 3) [vol: 0.80]\n\n"));
    assert_eq!(streams.len(), 1);
    assert_eq!(streams[0].id, 12);
    assert_eq!(streams[0].name, "MyApp");
    assert_eq!(streams[0].volume_milli, 800);
    assert!(!streams[0].mute);
    assert_eq!(streams[0].backend_tag, BackendTag::PipeWire);
    assert_eq!(streams[0].icon_name, None);
}

#[test]
fn test_parse_section_without_matches_is_empty() {
    let streams = parse_status(&chars("Sink Inputs:\n  decorative line\n  another one\n\n"));
    assert!(streams.is_empty());
}

#[test]
fn test_parse_line_outside_section_not_matched() {
    // The record line fits the pattern, but no section was opened.
    let streams = parse_status(&chars("  12. MyApp (sink: 3) [vol: 0.80]\n"));
    assert!(streams.is_empty());

    // The section closes on the blank line before the record appears.
    let streams = parse_status(&chars("Sink Inputs:\n\n  12. MyApp (sink: 3) [vol: 0.80]\n"));
    assert!(streams.is_empty());
}

#[test]
fn test_parse_skips_unmatched_lines_inside_section() {
    let text = "Outputs:\n  junk\n\nSink Inputs:\n  nested info\n  7. Player (sink: 1) [vol: 1.000]\n  45. Chat App (sink: 2) [vol: 0.25]\n\nSources:\n";
    let streams = parse_status(&chars(text));
    assert_eq!(streams.len(), 2);
    assert_eq!(streams[0].id, 7);
    assert_eq!(streams[0].name, "Player");
    assert_eq!(streams[0].volume_milli, 1000);
    assert_eq!(streams[1].id, 45);
    assert_eq!(streams[1].name, "Chat App");
    assert_eq!(streams[1].volume_milli, 250);
}

#[test]
fn test_parse_drops_out_of_range_volume() {
    // A volume above full volume fails the range invariant: dropped.
    let streams = parse_status(&chars("Sink Inputs:\n  3. Loud (sink: 0) [vol: 1.5]\n\n"));
    assert!(streams.is_empty());
}

#[test]
fn test_parse_drops_overflowing_id() {
    let streams = parse_status(&chars("Sink Inputs:\n  99999999999. Big (sink: 0) [vol: 0.5]\n\n"));
    assert!(streams.is_empty());
}

#[test]
fn test_pipewire_set_volume_request_formats_fraction() {
    let req = PipeWireCli::set_volume_request(3, 800);
    assert_eq!(req.program, "wpctl");
    assert_eq!(req.args, vec!["set-volume", "3", "0.800"]);

    // Out-of-range input is clamped, a normal case.
    let req = PipeWireCli::set_volume_request(3, 5000);
    assert_eq!(req.args, vec!["set-volume", "3", "1.000"]);

    let req = PipeWireCli::set_volume_request(17, 0);
    assert_eq!(req.args, vec!["set-volume", "17", "0.000"]);
}

#[test]
fn test_pipewire_set_mute_request_binary_token() {
    let req = PipeWireCli::set_mute_request(9, true);
    assert_eq!(req.program, "wpctl");
    assert_eq!(req.args, vec!["set-mute", "9", "1"]);
    let req = PipeWireCli::set_mute_request(9, false);
    assert_eq!(req.args, vec!["set-mute", "9", "0"]);
}

#[test]
fn test_parse_accepts_other_whitespace_between_tokens() {
    // Vertical tab and carriage return count as whitespace inside a line.
    let streams = parse_status(&chars("Sink Inputs:\n  8. App (sink: 1)\u{B}[vol:\r0.5]\n\n"));
    assert_eq!(streams.len(), 1);
    assert_eq!(streams[0].id, 8);
    assert_eq!(streams[0].name, "App");
    assert_eq!(streams[0].volume_milli, 500);
}

#[test]
fn test_pipewire_availability_probe() {
    let absent = FakeWpctl { present: false, status: "" };
    assert!(!PipeWireCli::available(&absent));
    let present = FakeWpctl { present: true, status: "" };
    assert!(PipeWireCli::available(&present));
}

#[test]
fn test_pipewire_listing_failure_surfaces_command_failed() {
    let r = PipeWireCli::streams_from_output(CmdOutcome::SpawnFailed("boom".to_string()));
    assert!(matches!(r, Err(AudioError::CommandFailed(m)) if m == "boom"));

    let r = PipeWireCli::streams_from_output(CmdOutcome::Finished {
        exit_ok: false,
        stdout: Vec::new(),
    });
    assert!(matches!(r, Err(AudioError::CommandFailed(m)) if m == "wpctl status failed"));
}
