use devgov_badges::contract::Contract;
use devgov_badges::types::{
    get_token_id, parse_token_id, BadgeError, BadgeMetadata, ParseTokenIdError, Token,
};

const MODERATOR: &str = "moderator.test.near";
const CONTRIBUTOR_1: &str = "contributor1.test.near";
const CONTRIBUTOR_2: &str = "contributor2.test.near";

fn s(x: &str) -> String {
    x.to_string()
}

fn titled(title: &str) -> BadgeMetadata {
    BadgeMetadata {
        title: Some(s(title)),
        ..Default::default()
    }
}

fn with_count(title: &str, copies: u64) -> BadgeMetadata {
    BadgeMetadata {
        title: Some(s(title)),
        copies: Some(copies),
        ..Default::default()
    }
}

fn registry() -> Contract {
    Contract::new(vec![s(MODERATOR)])
}

fn registry_with_badge() -> Contract {
    let mut c = registry();
    c.mint_badge(&s(MODERATOR), s("first_badge"), titled("First Badge"))
        .unwrap();
    c
}

#[test]
fn test_contract() {
    let mut c = registry();
    assert_eq!(c.get_badges(None, None), Ok(vec![]));

    c.mint_badge(&s(MODERATOR), s("first_badge"), titled("First Badge"))
        .unwrap();
    let badges = c.get_badges(None, None).unwrap();
    assert_eq!(badges.len(), 1);
    assert_eq!(badges[0].badge_id, "first_badge");
    assert_eq!(badges[0].badge_metadata, with_count("First Badge", 0));

    let token_id = c
        .reward(&s(MODERATOR), s("first_badge"), s(CONTRIBUTOR_1))
        .unwrap();
    assert_eq!(token_id, format!("first_badge:{}", CONTRIBUTOR_1));

    let expected = Token {
        token_id: format!("first_badge:{}", CONTRIBUTOR_1),
        owner_id: s(CONTRIBUTOR_1),
        metadata: Some(with_count("First Badge", 1)),
    };
    assert_eq!(c.nft_tokens(None, None), Ok(vec![expected.clone()]));
    assert_eq!(
        c.nft_token(format!("first_badge:{}", CONTRIBUTOR_1)),
        Some(expected.clone())
    );
    assert_eq!(
        c.nft_tokens_for_owner(&s(CONTRIBUTOR_1), None, None),
        Ok(vec![expected])
    );
    assert_eq!(c.nft_tokens_for_owner(&s(CONTRIBUTOR_2), None, None), Ok(vec![]));
}

#[test]
fn token_id_joins_with_colon() {
    assert_eq!(get_token_id(&s("first_badge"), &s("alice")), "first_badge:alice");
    assert_eq!(get_token_id(&s(""), &s("bob.near")), ":bob.near");
}

#[test]
fn token_id_round_trip() {
    for (b, o) in [("first_badge", "alice"), ("b", "bob.near"), ("", "carol_1-x.near")] {
        let t = get_token_id(&s(b), &s(o));
        assert_eq!(parse_token_id(&t), Ok((s(b), s(o))));
    }
}

#[test]
fn parse_without_separator() {
    assert_eq!(parse_token_id(&s("first_badge")), Err(ParseTokenIdError::NoSeparator));
    assert_eq!(parse_token_id(&s("")), Err(ParseTokenIdError::NoSeparator));
}

#[test]
fn parse_invalid_owner() {
    assert_eq!(parse_token_id(&s("badge:Alice")), Err(ParseTokenIdError::InvalidAccountId));
    assert_eq!(parse_token_id(&s("badge:")), Err(ParseTokenIdError::InvalidAccountId));
    assert_eq!(parse_token_id(&s("badge:a")), Err(ParseTokenIdError::InvalidAccountId));
}

#[test]
fn parse_splits_at_first_separator() {
    assert_eq!(parse_token_id(&s("a:b:c")), Err(ParseTokenIdError::InvalidAccountId));
    assert_eq!(parse_token_id(&s("a::bob")), Err(ParseTokenIdError::InvalidAccountId));
}

#[test]
fn award_twice_is_refused() {
    let mut c = registry_with_badge();
    c.reward(&s(MODERATOR), s("first_badge"), s("alice")).unwrap();
    assert_eq!(
        c.reward(&s(MODERATOR), s("first_badge"), s("alice")),
        Err(BadgeError::AlreadyAwarded)
    );
    assert_eq!(c.get_badge(s("first_badge")).unwrap().badge_metadata.copies, Some(1));
    assert_eq!(c.nft_total_supply(), 1);
    assert_eq!(c.nft_supply_for_owner(&s("alice")), 1);
}

#[test]
fn n_awards_count_n() {
    let mut c = registry_with_badge();
    c.mint_badge(&s(MODERATOR), s("other"), titled("Other")).unwrap();
    c.reward(&s(MODERATOR), s("other"), s("zed")).unwrap();
    let before = c.nft_total_supply();
    let owners = ["alice", "bob", "carol", "dave", "erin"];
    for o in owners {
        c.reward(&s(MODERATOR), s("first_badge"), s(o)).unwrap();
    }
    assert_eq!(c.get_badge(s("first_badge")).unwrap().badge_metadata.copies, Some(5));
    assert_eq!(c.get_badge(s("other")).unwrap().badge_metadata.copies, Some(1));
    assert_eq!(c.nft_total_supply(), before + 5);
}

#[test]
fn listings_are_stable() {
    let mut c = registry_with_badge();
    c.mint_badge(&s(MODERATOR), s("second"), titled("Second")).unwrap();
    for o in ["alice", "bob", "carol"] {
        c.reward(&s(MODERATOR), s("first_badge"), s(o)).unwrap();
    }
    c.reward(&s(MODERATOR), s("second"), s("alice")).unwrap();
    assert_eq!(c.nft_tokens(Some(1), Some(2)), c.nft_tokens(Some(1), Some(2)));
    assert_eq!(
        c.nft_tokens_for_owner(&s("alice"), Some(0), Some(5)),
        c.nft_tokens_for_owner(&s("alice"), Some(0), Some(5))
    );
    let page = c.nft_tokens(Some(1), Some(2)).unwrap();
    assert_eq!(page.len(), 2);
    assert_eq!(page[0].token_id, "first_badge:bob");
    assert_eq!(page[1].token_id, "first_badge:carol");
    let alice = c.nft_tokens_for_owner(&s("alice"), None, None).unwrap();
    assert_eq!(alice.len(), 2);
    assert_eq!(alice[0].token_id, "first_badge:alice");
    assert_eq!(alice[1].token_id, "second:alice");
    assert_eq!(alice[1].metadata, Some(with_count("Second", 1)));
}

#[test]
fn pagination_boundaries() {
    let mut c = registry_with_badge();
    c.mint_badge(&s(MODERATOR), s("second"), titled("Second")).unwrap();
    assert_eq!(c.get_badges(Some(2), None), Ok(vec![]));
    assert_eq!(c.get_badges(Some(3), None), Err(BadgeError::OutOfRange));
    assert_eq!(c.get_badges(None, Some(0)), Err(BadgeError::InvalidLimit));
    assert_eq!(c.get_badges(Some(3), Some(0)), Err(BadgeError::OutOfRange));
    let one = c.get_badges(Some(1), Some(1)).unwrap();
    assert_eq!(one.len(), 1);
    assert_eq!(one[0].badge_id, "second");
    assert_eq!(c.get_badges(Some(0), Some(u64::MAX)).unwrap().len(), 2);

    c.reward(&s(MODERATOR), s("second"), s("alice")).unwrap();
    assert_eq!(c.nft_tokens(Some(1), None), Ok(vec![]));
    assert_eq!(c.nft_tokens(Some(2), None), Err(BadgeError::OutOfRange));
    assert_eq!(c.nft_tokens(None, Some(0)), Err(BadgeError::InvalidLimit));
    assert_eq!(c.nft_tokens(Some(u128::MAX), None), Err(BadgeError::OutOfRange));
}

#[test]
fn owner_listing_does_not_bound_offset() {
    let mut c = registry_with_badge();
    c.reward(&s(MODERATOR), s("first_badge"), s("alice")).unwrap();
    assert_eq!(c.nft_tokens_for_owner(&s("alice"), Some(1), None), Ok(vec![]));
    assert_eq!(c.nft_tokens_for_owner(&s("alice"), Some(7), None), Ok(vec![]));
    assert_eq!(c.nft_tokens_for_owner(&s("alice"), Some(u128::MAX), Some(3)), Ok(vec![]));
    assert_eq!(
        c.nft_tokens_for_owner(&s("alice"), None, Some(0)),
        Err(BadgeError::InvalidLimit)
    );
    assert_eq!(
        c.nft_tokens_for_owner(&s("nobody"), None, Some(0)),
        Err(BadgeError::InvalidLimit)
    );
}

#[test]
fn first_badge_to_alice() {
    let mut c = registry();
    c.mint_badge(&s(MODERATOR), s("first_badge"), titled("First Badge"))
        .unwrap();
    assert_eq!(c.get_badge(s("first_badge")).unwrap().badge_metadata.copies, Some(0));
    assert_eq!(
        c.reward(&s(MODERATOR), s("first_badge"), s("alice")),
        Ok(s("first_badge:alice"))
    );
    let t = c.nft_token(s("first_badge:alice")).unwrap();
    assert_eq!(t.owner_id, "alice");
    assert_eq!(t.metadata.unwrap().copies, Some(1));
    assert_eq!(c.nft_supply_for_owner(&s("alice")), 1);
    assert_eq!(c.nft_supply_for_owner(&s("bob")), 0);
}

#[test]
fn define_twice_is_refused() {
    let mut c = registry_with_badge();
    assert_eq!(
        c.mint_badge(&s(MODERATOR), s("first_badge"), titled("Replacement")),
        Err(BadgeError::DuplicateBadge)
    );
    let b = c.get_badge(s("first_badge")).unwrap();
    assert_eq!(b.badge_metadata, with_count("First Badge", 0));
    assert_eq!(c.get_badges(None, None).unwrap().len(), 1);
}

#[test]
fn minted_count_starts_at_zero() {
    let mut c = registry();
    let m = BadgeMetadata {
        title: Some(s("T")),
        copies: Some(41),
        media_hash: Some(vec![1, 2, 3]),
        ..Default::default()
    };
    c.mint_badge(&s(MODERATOR), s("t"), m).unwrap();
    let b = c.get_badge(s("t")).unwrap().badge_metadata;
    assert_eq!(b.copies, Some(0));
    assert_eq!(b.media_hash, Some(vec![1, 2, 3]));
    assert_eq!(c.get_badge(s("missing")), None);
}

#[test]
fn transfers_are_refused() {
    let mut c = registry_with_badge();
    c.reward(&s(MODERATOR), s("first_badge"), s("alice")).unwrap();
    let before = c.nft_tokens(None, None);
    assert_eq!(
        c.nft_transfer(s("bob"), s("first_badge:alice"), None, None),
        Err(BadgeError::TransfersDisabled)
    );
    assert_eq!(
        c.nft_transfer_call(s("bob"), s("first_badge:alice"), Some(1), Some(s("m")), s("msg")),
        Err(BadgeError::TransfersDisabled)
    );
    assert_eq!(
        c.nft_resolve_transfer(s("alice"), s("bob"), s("first_badge:alice"), None),
        Err(BadgeError::TransfersDisabled)
    );
    assert_eq!(c.nft_tokens(None, None), before);
    assert_eq!(c.nft_supply_for_owner(&s("alice")), 1);
    assert_eq!(c.nft_supply_for_owner(&s("bob")), 0);
}

#[test]
fn only_moderators_write() {
    let mut c = registry_with_badge();
    assert_eq!(
        c.mint_badge(&s("alice"), s("x"), titled("X")),
        Err(BadgeError::Unauthorized)
    );
    assert_eq!(
        c.reward(&s("alice"), s("first_badge"), s("alice")),
        Err(BadgeError::Unauthorized)
    );
    assert_eq!(c.get_badge(s("x")), None);
    assert_eq!(c.nft_total_supply(), 0);
}

#[test]
fn reward_errors() {
    let mut c = registry_with_badge();
    assert_eq!(
        c.reward(&s(MODERATOR), s("nope"), s("alice")),
        Err(BadgeError::UnknownBadge)
    );
    assert_eq!(
        c.reward(&s(MODERATOR), s("first_badge"), s("Alice")),
        Err(BadgeError::InvalidOwnerIdentity)
    );
    assert_eq!(
        c.reward(&s(MODERATOR), s("first_badge"), s("a:b")),
        Err(BadgeError::InvalidOwnerIdentity)
    );
    assert_eq!(c.nft_total_supply(), 0);
    assert_eq!(c.get_badge(s("first_badge")).unwrap().badge_metadata.copies, Some(0));
}

#[test]
fn token_lookup_misses() {
    let mut c = registry_with_badge();
    c.reward(&s(MODERATOR), s("first_badge"), s("alice")).unwrap();
    assert_eq!(c.nft_token(s("first_badge")), None);
    assert_eq!(c.nft_token(s("first_badge:Alice")), None);
    assert_eq!(c.nft_token(s("first_badge:bob")), None);
    assert_eq!(c.nft_token(s("other:alice")), None);
}
