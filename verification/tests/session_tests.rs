use backtor::bridge::{BridgeLeg, LegAction, ReadEvent};
use portable_pty::{native_pty_system, CommandBuilder, PtySize};
use std::io::{Read, Write};

fn count_occurrences(haystack: &[u8], needle: &[u8]) -> usize {
    if needle.is_empty() || haystack.len() < needle.len() {
        return 0;
    }
    (0..=haystack.len() - needle.len())
        .filter(|&i| &haystack[i..i + needle.len()] == needle)
        .count()
}

#[test]
fn a_shell_in_a_pty_echoes_through_the_bridge_leg() {
    let pty = native_pty_system();
    let pair = pty
        .openpty(PtySize {
            rows: 24,
            cols: 80,
            pixel_width: 0,
            pixel_height: 0,
        })
        .expect("a pseudo-terminal can be allocated");
    let cmd = CommandBuilder::new("/bin/sh");
    let mut child = pair
        .slave
        .spawn_command(cmd)
        .expect("the shell can be spawned");
    drop(pair.slave);

    let mut reader = pair
        .master
        .try_clone_reader()
        .expect("the reader side of the terminal is available");
    let mut writer = pair
        .master
        .take_writer()
        .expect("the writer side of the terminal is available");

    writer.write_all(b"echo hi\nexit\n").expect("the keystrokes reach the shell");
    writer.flush().expect("the keystrokes are flushed");

    // Drive the process-facing leg of the bridge until the shell exits:
    // no escape filtering on this side, every chunk is forwarded.
    let mut leg = BridgeLeg::new(false);
    let mut forwarded: Vec<u8> = Vec::new();
    let mut buf = [0u8; 4096];
    loop {
        let ev = match reader.read(&mut buf) {
            Ok(0) => ReadEvent::Eof,
            Ok(n) => ReadEvent::Data(buf[..n].to_vec()),
            Err(_) => ReadEvent::Failed,
        };
        let chunk = match &ev {
            ReadEvent::Data(d) => Some(d.clone()),
            _ => None,
        };
        match leg.on_event(&ev) {
            LegAction::Forward => {
                if let Some(d) = chunk {
                    forwarded.extend_from_slice(&d);
                }
            }
            LegAction::Stop => break,
        }
    }
    let _ = child.wait();

    // The terminal echoes the typed line and the shell prints its output,
    // so the bytes `hi` must appear at least twice in what was forwarded.
    assert!(
        count_occurrences(&forwarded, b"hi") >= 2,
        "expected the echoed command and its output, got: {:?}",
        String::from_utf8_lossy(&forwarded)
    );
    assert!(leg.done);
}
