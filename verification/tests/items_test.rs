//! The fact-store item types: fingerprints, blame records, transitive
//! equality explanations.
use inst_graph::items::{
    Blame, BlameKind, ENodeIdx, EqGivenIdx, EqTransIdx, Fingerprint, ItemParseError,
    OmnibarMessage, TransitiveExpl, TransitiveExplSegment,
};

#[test]
fn fingerprint_parses_hex_with_and_without_prefix() {
    assert_eq!(Fingerprint::parse("0x1a2b").unwrap(), Fingerprint(0x1a2b));
    assert_eq!(Fingerprint::parse("1A2B").unwrap(), Fingerprint(0x1a2b));
    assert_eq!(Fingerprint::parse("0").unwrap(), Fingerprint(0));
    assert_eq!(Fingerprint::parse("+ff").unwrap(), Fingerprint(255));
    assert_eq!(
        Fingerprint::parse("ffffffffffffffff").unwrap(),
        Fingerprint(u64::MAX)
    );
}

#[test]
fn fingerprint_rejects_junk_and_overflow() {
    assert_eq!(Fingerprint::parse("").unwrap_err(), ItemParseError::InvalidFingerprint);
    assert_eq!(Fingerprint::parse("0x").unwrap_err(), ItemParseError::InvalidFingerprint);
    assert_eq!(Fingerprint::parse("+").unwrap_err(), ItemParseError::InvalidFingerprint);
    assert_eq!(Fingerprint::parse("0xzz").unwrap_err(), ItemParseError::InvalidFingerprint);
    assert_eq!(Fingerprint::parse("12 34").unwrap_err(), ItemParseError::InvalidFingerprint);
    assert_eq!(
        Fingerprint::parse("10000000000000000").unwrap_err(),
        ItemParseError::InvalidFingerprint
    );
}

#[test]
fn fingerprint_zero_check() {
    assert!(Fingerprint(0).is_zero());
    assert!(!Fingerprint(1).is_zero());
    assert!(Fingerprint::parse("0x0").unwrap().is_zero());
}

#[test]
fn blame_splits_enode_and_equalities() {
    let blame = Blame::new(vec![
        BlameKind::Term { term: ENodeIdx(7) },
        BlameKind::Equality { eq: EqTransIdx(3) },
        BlameKind::Equality { eq: EqTransIdx(5) },
    ]);
    assert_eq!(blame.enode(), ENodeIdx(7));
    assert_eq!(blame.len(), 2);
    assert_eq!(blame.equalities(), vec![EqTransIdx(3), EqTransIdx(5)]);

    let bare = Blame::new(vec![BlameKind::Term { term: ENodeIdx(0) }]);
    assert_eq!(bare.len(), 0);
    assert_eq!(bare.equalities(), vec![]);
}

#[test]
fn blame_kind_unwrappers() {
    let term = BlameKind::Term { term: ENodeIdx(4) };
    let eq = BlameKind::Equality { eq: EqTransIdx(9) };
    assert_eq!(*term.unwrap_enode(), ENodeIdx(4));
    assert_eq!(*eq.unwrap_eq(), EqTransIdx(9));
}

#[test]
fn transitive_expl_iterates_both_ways() {
    let segs = vec![
        TransitiveExplSegment::Leaf(EqGivenIdx(0)),
        TransitiveExplSegment::TransitiveFwd(EqTransIdx(1)),
        TransitiveExplSegment::TransitiveBwd(EqTransIdx(2)),
    ];
    let expl = TransitiveExpl::new(segs.clone(), 1, ENodeIdx(6));
    assert_eq!(expl.given_len, 1);
    assert_eq!(expl.to, ENodeIdx(6));

    let mut fwd = expl.all(true);
    let mut collected = Vec::new();
    while let Some(seg) = fwd.next() {
        collected.push(seg);
    }
    assert_eq!(collected, segs);

    let mut bwd = expl.all(false);
    let mut reversed = Vec::new();
    while let Some(seg) = bwd.next() {
        reversed.push(seg);
    }
    let mut expect = segs.clone();
    expect.reverse();
    assert_eq!(reversed, expect);

    assert_eq!(fwd.next(), None);
    assert_eq!(bwd.next(), None);
}

#[test]
fn omnibar_message_carries_error_flag() {
    let msg = OmnibarMessage { message: "loaded".to_string(), is_error: false };
    assert!(!msg.is_error);
    assert_eq!(msg.message, "loaded");
}
