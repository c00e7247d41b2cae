use takzero::codec::{decode_record, encode_record, find_from, full_games_to_text, is_valid_action, is_valid_position};

fn b(s: &str) -> Vec<u8> {
    s.as_bytes().to_vec()
}

#[test]
fn record_round_trip() {
    let position = b("x5/x5/x5/x5/x5 1 1");
    let actions = vec![b("a1"), b("e5"), b("Sc3")];
    let line = encode_record(&position, &actions);
    assert_eq!(line, b("x5/x5/x5/x5/x5 1 1;a1 e5 Sc3"));
    assert_eq!(decode_record(&line), Some((position, actions)));
}

#[test]
fn record_without_actions() {
    let line = encode_record(&b("p"), &vec![]);
    assert_eq!(line, b("p;"));
    assert_eq!(decode_record(&line), Some((b("p"), vec![])));
}

#[test]
fn malformed_records_are_rejected() {
    assert_eq!(decode_record(&b("no separator")), None);
    assert_eq!(decode_record(&b("p;a1  b2")), None);
    assert_eq!(decode_record(&b("p;a1 ")), None);
    assert_eq!(decode_record(&b("p;a1;b2")), None);
    assert_eq!(decode_record(&b("p\nq;a1")), None);
    assert_eq!(decode_record(&b(";a1")), Some((vec![], vec![b("a1")])));
}

#[test]
fn validity_checks() {
    assert!(is_valid_action(&b("a1")));
    assert!(!is_valid_action(&b("")));
    assert!(!is_valid_action(&b("a 1")));
    assert!(is_valid_position(&b("x5/x5 1 1")));
    assert!(!is_valid_position(&b("x;5")));
    assert_eq!(find_from(&b("ab;cd;"), 3, b';'), 5);
    assert_eq!(find_from(&b("abc"), 0, b';'), 3);
}

#[test]
fn full_games_text_drains_games() {
    let mut games = vec![vec![b("a1"), b("b2")], vec![], vec![b("c3")]];
    let text = full_games_to_text(&mut games);
    assert_eq!(text, b("a1 b2 \n\nc3 \n"));
    assert_eq!(games.len(), 3);
    assert!(games.iter().all(|g| g.is_empty()));
}
