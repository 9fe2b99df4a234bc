use bridge_encodings::{is_board_number_line, DealReader, Direction};

#[test]
fn test_read_oneline_deals() {
    let input = "\
n AKQT3.J6.KJ42.95 e 652.AK42.AQ87.T4 s J74.QT95.T.AK863 w 98.873.9653.QJ72
n A754.7642.KJ2.A9 e QT.AK95.87.K8652 s K93.J83.QT6543.T w J862.QT.A9.QJ743
";
    let mut reader = DealReader::new(input);
    let deals = reader.read_all();
    assert_eq!(deals.len(), 2);
}

#[test]
fn test_read_pbn_deals() {
    let input = r#"[Event "test"]
[Board "1"]
[Dealer "N"]
[Vulnerable "None"]
[Deal "N:KQ4.QJ982..AKQ43 J653.A73.985.J97 9.K54.KQT732.652 AT872.T6.AJ64.T8"]
[Result "?"]

[Event "test"]
[Board "2"]
[Deal "N:AQ62.942.KQ.AJ64 73.7.J8742.KQ532 KJ54.QJ3.653.T98 T98.AKT865.AT9.7"]
"#;
    let mut reader = DealReader::new(input);
    let deals = reader.read_all();
    assert_eq!(deals.len(), 2);
}

#[test]
fn test_auto_detect_mixed_formats() {
    let input = "\
n AKQT3.J6.KJ42.95 e 652.AK42.AQ87.T4 s J74.QT95.T.AK863 w 98.873.9653.QJ72
[Deal \"N:AQ62.942.KQ.AJ64 73.7.J8742.KQ532 KJ54.QJ3.653.T98 T98.AKT865.AT9.7\"]
";
    let mut reader = DealReader::new(input);
    let deals = reader.read_all();
    assert_eq!(deals.len(), 2);
}

#[test]
fn test_skip_non_deal_lines() {
    let input = "\
Generated 100 hands
Produced 5 hands
n AKQT3.J6.KJ42.95 e 652.AK42.AQ87.T4 s J74.QT95.T.AK863 w 98.873.9653.QJ72
Initial random seed 42
Time needed    0.123 sec
";
    let mut reader = DealReader::new(input);
    let deals = reader.read_all();
    assert_eq!(deals.len(), 1);
}

#[test]
fn test_empty_input() {
    let mut reader = DealReader::new("");
    let deals = reader.read_all();
    assert_eq!(deals.len(), 0);
}

#[test]
fn test_deals_read_counter() {
    let input = "\
n AKQT3.J6.KJ42.95 e 652.AK42.AQ87.T4 s J74.QT95.T.AK863 w 98.873.9653.QJ72
n A754.7642.KJ2.A9 e QT.AK95.87.K8652 s K93.J83.QT6543.T w J862.QT.A9.QJ743
";
    let mut reader = DealReader::new(input);
    reader.next_deal();
    assert_eq!(reader.deals_read(), 1);
    assert_eq!(reader.line_number(), 1);
    reader.next_deal();
    assert_eq!(reader.deals_read(), 2);
    assert_eq!(reader.line_number(), 2);
}

#[test]
fn test_pbn_with_metadata_skipped() {
    let input = r#"% PBN 2.1
% EXPORT

[Event ""]
[Site ""]
[Date ""]
[Board "1"]
[West ""]
[North ""]
[East ""]
[South ""]
[Dealer "N"]
[Vulnerable "None"]
[Deal "N:KQ4.QJ982..AKQ43 J653.A73.985.J97 9.K54.KQT732.652 AT872.T6.AJ64.T8"]
[Scoring ""]
[Declarer ""]
[Contract ""]
[Result ""]
"#;
    let mut reader = DealReader::new(input);
    let deals = reader.read_all();
    assert_eq!(deals.len(), 1);
    assert_eq!(deals[0].hand(Direction::North).len(), 13);
}

#[test]
fn test_dealer_exe_full_output() {
    // Simulated deal-generator output with a stray prefix on the first line
    let input = "\
Fn AKT43.AJ9532.Q.2 e Q75.QT6.T74.T964 s J8..AK653.AJ8753 w 962.K874.J982.KQ
n 9.2.AKT985.AKQ92 e 8652.A53.J43.JT5 s AKQJT4.QJ974.6.6 w 73.KT86.Q72.8743
Generated 534652 hands
Produced 10 hands
Initial random seed 1771167619
Time needed    0.996 sec
";
    let mut reader = DealReader::new(input);
    let deals = reader.read_all();
    // The "Fn" line won't parse as a record (F isn't a direction), so only 1 deal
    assert_eq!(deals.len(), 1);
}

#[test]
fn test_read_printall_format() {
    let input = "\
   1.
J 7 3               9 8                 A Q 5 4 2           K T 6
3                   9 6 4 2             K J 8 7             A Q T 5
K Q J T 9 8 5       7                   3 2                 A 6 4
T 5                 9 8 7 4 3 2         A K                 Q J 6

";
    let mut reader = DealReader::new(input);
    let deals = reader.read_all();
    assert_eq!(deals.len(), 1);
    let deal = &deals[0];
    assert_eq!(deal.hand(Direction::North).len(), 13);
    assert_eq!(deal.hand(Direction::East).len(), 13);
    assert_eq!(deal.hand(Direction::South).len(), 13);
    assert_eq!(deal.hand(Direction::West).len(), 13);
}

#[test]
fn test_read_printall_with_stats() {
    let input = "\
   1.
J 7 3               9 8                 A Q 5 4 2           K T 6
3                   9 6 4 2             K J 8 7             A Q T 5
K Q J T 9 8 5       7                   3 2                 A 6 4
T 5                 9 8 7 4 3 2         A K                 Q J 6

Generated 100 hands
Produced 1 hands
Initial random seed 42
Time needed    0.001 sec
";
    let mut reader = DealReader::new(input);
    let deals = reader.read_all();
    assert_eq!(deals.len(), 1);
}

#[test]
fn test_unrecognized_record_skipped_without_emission() {
    // the leading token is not a valid single-letter direction, and the line
    // matches no other notation: it is skipped, no deal and no error
    let input = "\
F2 AKQT3.J6.KJ42.95 e 652.AK42.AQ87.T4 s J74.QT95.T.AK863 w 98.873.9653.QJ72
n AKQT3.J6.KJ42.95 e 652.AK42.AQ87.T4 s J74.QT95.T.AK863 w 98.873.9653.QJ72
";
    let mut reader = DealReader::new(input);
    let deals = reader.read_all();
    assert_eq!(deals.len(), 1);
    assert_eq!(reader.deals_read(), 1);
    assert_eq!(reader.line_number(), 2);
}

#[test]
fn test_is_board_number_line() {
    assert!(is_board_number_line("   1."));
    assert!(is_board_number_line("  42."));
    assert!(is_board_number_line("7."));
    assert!(!is_board_number_line("1"));
    assert!(!is_board_number_line("one."));
    assert!(!is_board_number_line(""));
    assert!(!is_board_number_line("Time needed 0.123 sec."));
}

#[test]
fn test_truncated_block_ends_sequence() {
    // a header whose block is cut off by end of input yields nothing
    let input = "\
   1.
J 7 3               9 8                 A Q 5 4 2           K T 6
";
    let mut reader = DealReader::new(input);
    assert!(reader.next_deal().is_none());
}

#[test]
fn test_bad_block_ends_sequence_silently() {
    // the four pulled lines cannot be handed back: a block that fails to
    // decode ends the sequence without an error, losing those lines
    let input = "\
   1.
J 7 Z               9 8                 A Q 5 4 2           K T 6
3                   9 6 4 2             K J 8 7             A Q T 5
K Q J T 9 8 5       7                   3 2                 A 6 4
T 5                 9 8 7 4 3 2         A K                 Q J 6
n AKQT3.J6.KJ42.95 e 652.AK42.AQ87.T4 s J74.QT95.T.AK863 w 98.873.9653.QJ72
";
    let mut reader = DealReader::new(input);
    assert!(reader.next_deal().is_none());
    assert!(reader.next_deal().is_none());
    assert_eq!(reader.deals_read(), 0);
}
