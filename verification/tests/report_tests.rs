use kudzu_bft::protocol::params_valid;
use kudzu_bft::report::{
    check_consensus, finalized_listing, parse_finalized_line, sort_by_slot, Verdict,
};

fn chars(s: &str) -> Vec<char> {
    s.chars().collect()
}

fn parse(s: &str) -> Option<(u64, String)> {
    parse_finalized_line(&chars(s)).map(|(slot, h)| (slot, h.into_iter().collect()))
}

fn entry(slot: u64, h: &str) -> (u64, Vec<char>) {
    (slot, chars(h))
}

fn text(v: &[(u64, Vec<char>)]) -> Vec<(u64, String)> {
    v.iter().map(|(s, h)| (*s, h.iter().collect())).collect()
}

#[test]
fn parse_plain_line() {
    assert_eq!(parse("slot 3: 1a2b3c4d"), Some((3, "1a2b3c4d".to_string())));
}

#[test]
fn parse_trims_around_parts() {
    assert_eq!(parse("   slot 12 :   beef  \n"), Some((12, "beef".to_string())));
}

#[test]
fn parse_rejects_other_lines() {
    assert_eq!(parse("=== Node 1 Results ==="), None);
    assert_eq!(parse("Finalized blocks:"), None);
    assert_eq!(parse("slots 3: ab"), None);
    assert_eq!(parse("slot"), None);
}

#[test]
fn parse_needs_exactly_one_colon() {
    assert_eq!(parse("slot 3 ab"), None);
    assert_eq!(parse("slot 3: a:b"), None);
}

#[test]
fn parse_number_forms() {
    assert_eq!(parse("slot +5: h"), Some((5, "h".to_string())));
    assert_eq!(parse("slot x: h"), None);
    assert_eq!(parse("slot -1: h"), None);
    assert_eq!(parse("slot 18446744073709551615: h"), Some((u64::MAX, "h".to_string())));
    assert_eq!(parse("slot 18446744073709551616: h"), None);
    assert_eq!(parse("slot 99999999999999999999x: h"), None);
}

#[test]
fn parse_empty_number_reads_as_slot_zero() {
    // "slot :" trims to "slot", which has no "slot " prefix: it reads as 0.
    assert_eq!(parse("slot : abc"), Some((0, "abc".to_string())));
    assert_eq!(parse("slot  : abc"), Some((0, "abc".to_string())));
}

#[test]
fn parse_empty_hash() {
    assert_eq!(parse("slot 4:"), Some((4, String::new())));
}

#[test]
fn consensus_achieved() {
    let f = vec![
        vec![entry(1, "aa"), entry(2, "bb")],
        vec![entry(1, "aa"), entry(2, "bb")],
        vec![entry(2, "bb"), entry(1, "aa")],
    ];
    let c = check_consensus(&f);
    assert!(c.conflicts.is_empty());
    assert_eq!(c.max_finalized, 2);
    assert!(c.lagging.is_empty());
    assert_eq!(c.verdict, Verdict::Achieved);
}

#[test]
fn consensus_safety_violation() {
    let f = vec![
        vec![entry(1, "aa"), entry(2, "bb")],
        vec![entry(1, "aa"), entry(2, "cc")],
        vec![entry(2, "dd")],
    ];
    let c = check_consensus(&f);
    let found: Vec<(u64, String, String)> = c
        .conflicts
        .iter()
        .map(|x| (x.slot, x.hash.iter().collect(), x.existing.iter().collect()))
        .collect();
    assert_eq!(
        found,
        vec![
            (2, "cc".to_string(), "bb".to_string()),
            (2, "dd".to_string(), "bb".to_string()),
        ]
    );
    assert_eq!(c.max_finalized, 2);
    assert_eq!(c.lagging, vec![2]);
    assert_eq!(c.verdict, Verdict::SafetyViolation);
}

#[test]
fn consensus_lagging() {
    let f = vec![vec![entry(1, "aa")], vec![], vec![entry(1, "aa"), entry(2, "bb")]];
    let c = check_consensus(&f);
    assert!(c.conflicts.is_empty());
    assert_eq!(c.max_finalized, 2);
    assert_eq!(c.lagging, vec![0, 1]);
    assert_eq!(c.verdict, Verdict::Lagging);
}

#[test]
fn consensus_no_blocks() {
    let c = check_consensus(&vec![vec![], vec![]]);
    assert_eq!(c.max_finalized, 0);
    assert!(c.lagging.is_empty());
    assert_eq!(c.verdict, Verdict::NoBlocks);
    let c = check_consensus(&vec![]);
    assert_eq!(c.verdict, Verdict::NoBlocks);
}

#[test]
fn sort_is_stable_by_slot() {
    let v = vec![entry(3, "c"), entry(1, "a"), entry(3, "x"), entry(2, "b"), entry(1, "y")];
    let s = sort_by_slot(&v);
    assert_eq!(
        text(&s),
        vec![
            (1, "a".to_string()),
            (1, "y".to_string()),
            (2, "b".to_string()),
            (3, "c".to_string()),
            (3, "x".to_string()),
        ]
    );
}

#[test]
fn listing_sorts_dedups_and_drops_slot_zero() {
    let v = vec![
        entry(2, "bb"),
        entry(0, "00"),
        entry(1, "aa"),
        entry(2, "bb"),
        entry(1, "aa"),
        entry(2, "zz"),
        entry(2, "bb"),
    ];
    let l = finalized_listing(&v);
    assert_eq!(
        text(&l),
        vec![
            (1, "aa".to_string()),
            (2, "bb".to_string()),
            (2, "zz".to_string()),
            (2, "bb".to_string()),
        ]
    );
}

#[test]
fn fault_bounds() {
    assert!(params_valid(7, 2, 0));
    assert!(params_valid(4, 1, 0));
    assert!(params_valid(9, 2, 1));
    assert!(!params_valid(8, 2, 1));
    assert!(!params_valid(3, 1, 0));
    assert!(!params_valid(usize::MAX, usize::MAX, 0));
}
