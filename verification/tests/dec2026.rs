use mux_server::dec2026::{Dec2026Parser, Dec2026Transitions, SYNC_TIMEOUT};

const BEGIN: &[u8] = b"\x1b[?2026h";
const END: &[u8] = b"\x1b[?2026l";

#[test]
fn recognizes_private_mode_pair() {
    let mut parser = Dec2026Parser::new();
    assert_eq!(
        parser.parse(BEGIN, 0),
        Dec2026Transitions {
            began: true,
            ended: false,
        }
    );
    assert!(parser.is_in_sync());
    assert_eq!(
        parser.parse(END, 0),
        Dec2026Transitions {
            began: false,
            ended: true,
        }
    );
    assert!(!parser.is_in_sync());
}

#[test]
fn recognizes_every_read_split() {
    for sequence in [BEGIN, END] {
        for split in 0..=sequence.len() {
            let mut parser = Dec2026Parser::new();
            if sequence == END {
                parser.parse(BEGIN, 0);
            }
            let first = parser.parse(&sequence[..split], 0);
            let second = parser.parse(&sequence[split..], 0);
            assert_eq!(first.began() || second.began(), sequence == BEGIN);
            assert_eq!(first.ended() || second.ended(), sequence == END);
            assert_eq!(parser.is_in_sync(), sequence == BEGIN);
        }
    }
}

#[test]
fn recognizes_byte_at_a_time_with_noise() {
    let mut parser = Dec2026Parser::new();
    let mut began = false;
    let mut ended = false;
    for &byte in b"text\x1b[?2026hupdated\x1b[?2026lmore" {
        let transitions = parser.parse(&[byte], 0);
        began |= transitions.began();
        ended |= transitions.ended();
    }
    assert!(began);
    assert!(ended);
    assert!(!parser.is_in_sync());
}

#[test]
fn ignores_legacy_bracketed_paste_like_markers() {
    let mut parser = Dec2026Parser::new();
    let transitions = parser.parse(b"\x1b201~text\x1b202~", 0);
    assert_eq!(transitions, Dec2026Transitions::default());
    assert!(!parser.is_in_sync());
}

#[test]
fn timeout_closes_unpaired_begin_without_sleeping() {
    let mut parser = Dec2026Parser::new();
    parser.parse(BEGIN, 7);
    let now = 7 + SYNC_TIMEOUT;
    assert!(parser.check_timeout(now));
    assert!(!parser.is_in_sync());
    assert!(!parser.check_timeout(now));
}

#[test]
fn a_timeout_needs_its_full_time() {
    let mut parser = Dec2026Parser::new();
    parser.parse(BEGIN, 7);
    assert!(!parser.check_timeout(6 + SYNC_TIMEOUT));
    assert!(parser.is_in_sync());
}

#[test]
fn reset_forgets_a_marker_that_has_begun() {
    let mut parser = Dec2026Parser::new();
    parser.parse(&BEGIN[..5], 0);
    parser.reset();
    parser.parse(&BEGIN[5..], 0);
    assert!(!parser.is_in_sync());
}

#[test]
fn an_escape_inside_a_marker_begins_a_new_one() {
    let mut parser = Dec2026Parser::new();
    let transitions = parser.parse(b"\x1b[?20\x1b[?2026h", 0);
    assert!(transitions.began());
    assert!(parser.is_in_sync());
}
