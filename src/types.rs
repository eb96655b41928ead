use vstd::prelude::*;

verus! {

/// Identifier of a badge in the catalog.
pub type BadgeId = String;

/// Identifier of an awarded token: `"<badge_id>:<owner_id>"`.
pub type TokenId = String;

/// The character that separates the badge id from the owner id in a token id.
pub open spec fn is_sep(c: char) -> bool {
    c == ':'
}

/// `s` holds no separator.
pub open spec fn no_sep(s: Seq<char>) -> bool {
    forall|i: int| 0 <= i < s.len() ==> !is_sep(#[trigger] s[i])
}

/// The token id of `owner` holding `badge`.
pub open spec fn token_id_of(badge: Seq<char>, owner: Seq<char>) -> Seq<char> {
    badge + seq![':'] + owner
}

/// Whether near's account-id rules accept `s`.
pub uninterp spec fn account_id_valid(s: Seq<char>) -> bool;

/// The position of the first separator in `s` (meaningful when there is one).
pub open spec fn first_sep(s: Seq<char>) -> int {
    choose|i: int| 0 <= i < s.len() && is_sep(s[i]) && no_sep(s.take(i))
}

/// What decoding `s` yields: the split at its first separator, if the part
/// after it is a valid account id.
pub open spec fn decoded(s: Seq<char>) -> Result<(Seq<char>, Seq<char>), ParseTokenIdError> {
    if no_sep(s) {
        Err(ParseTokenIdError::NoSeparator)
    } else {
        let i = first_sep(s);
        let owner = s.skip(i + 1);
        if account_id_valid(owner) {
            Ok((s.take(i), owner))
        } else {
            Err(ParseTokenIdError::InvalidAccountId)
        }
    }
}

/// A badge definition as contracts see it.
pub struct BadgeMetadataView {
    pub title: Option<Seq<char>>,
    pub description: Option<Seq<char>>,
    pub media: Option<Seq<char>>,
    pub media_hash: Option<Seq<u8>>,
    pub copies: Option<u64>,
    pub issued_at: Option<Seq<char>>,
    pub expires_at: Option<Seq<char>>,
    pub starts_at: Option<Seq<char>>,
    pub updated_at: Option<Seq<char>>,
    pub extra: Option<Seq<char>>,
    pub reference: Option<Seq<char>>,
    pub reference_hash: Option<Seq<u8>>,
}

/// Display metadata of a badge and the number of times it was awarded.
#[derive(Debug, Clone, PartialEq, Eq, Default)]
pub struct BadgeMetadata {
    pub title: Option<String>,
    pub description: Option<String>,
    pub media: Option<String>,
    pub media_hash: Option<Vec<u8>>,
    pub copies: Option<u64>,
    pub issued_at: Option<String>,
    pub expires_at: Option<String>,
    pub starts_at: Option<String>,
    pub updated_at: Option<String>,
    pub extra: Option<String>,
    pub reference: Option<String>,
    pub reference_hash: Option<Vec<u8>>,
}

pub open spec fn opt_str(o: Option<String>) -> Option<Seq<char>> {
    match o {
        Some(s) => Some(s@),
        None => None,
    }
}

pub open spec fn opt_bytes(o: Option<Vec<u8>>) -> Option<Seq<u8>> {
    match o {
        Some(v) => Some(v@),
        None => None,
    }
}

/// `m` with its award count set to `c`.
pub open spec fn with_copies(m: BadgeMetadataView, c: u64) -> BadgeMetadataView {
    BadgeMetadataView { copies: Some(c), ..m }
}

impl View for BadgeMetadata {
    type V = BadgeMetadataView;

    open spec fn view(&self) -> BadgeMetadataView {
        BadgeMetadataView {
            title: opt_str(self.title),
            description: opt_str(self.description),
            media: opt_str(self.media),
            media_hash: opt_bytes(self.media_hash),
            copies: self.copies,
            issued_at: opt_str(self.issued_at),
            expires_at: opt_str(self.expires_at),
            starts_at: opt_str(self.starts_at),
            updated_at: opt_str(self.updated_at),
            extra: opt_str(self.extra),
            reference: opt_str(self.reference),
            reference_hash: opt_bytes(self.reference_hash),
        }
    }
}

fn copy_str(o: &Option<String>) -> (r: Option<String>)
    ensures
        opt_str(r) == opt_str(*o),
{
    match o {
        Some(s) => Some(s.clone()),
        None => None,
    }
}

fn copy_bytes(o: &Option<Vec<u8>>) -> (r: Option<Vec<u8>>)
    ensures
        opt_bytes(r) == opt_bytes(*o),
{
    match o {
        Some(v) => {
            let mut w: Vec<u8> = Vec::new();
            let mut i: usize = 0;
            while i < v.len()
                invariant
                    i <= v.len(),
                    w@ == v@.take(i as int),
                decreases v.len() - i,
            {
                w.push(v[i]);
                i = i + 1;
                proof {
                    assert(w@ =~= v@.take(i as int));
                }
            }
            proof {
                assert(w@ =~= v@);
            }
            Some(w)
        },
        None => None,
    }
}

impl BadgeMetadata {
    /// A copy of this definition whose award count is `copies`.
    pub fn with_copies(&self, copies: u64) -> (r: BadgeMetadata)
        ensures
            r@ == with_copies(self@, copies),
    {
        BadgeMetadata {
            title: copy_str(&self.title),
            description: copy_str(&self.description),
            media: copy_str(&self.media),
            media_hash: copy_bytes(&self.media_hash),
            copies: Some(copies),
            issued_at: copy_str(&self.issued_at),
            expires_at: copy_str(&self.expires_at),
            starts_at: copy_str(&self.starts_at),
            updated_at: copy_str(&self.updated_at),
            extra: copy_str(&self.extra),
            reference: copy_str(&self.reference),
            reference_hash: copy_bytes(&self.reference_hash),
        }
    }
}

/// A catalog entry: a badge id with its definition.
#[derive(Debug, Clone, PartialEq, Eq)]
pub struct Badge {
    pub badge_id: BadgeId,
    pub badge_metadata: BadgeMetadata,
}

/// The view of one awarded token.
#[derive(Debug, Clone, PartialEq, Eq)]
pub struct Token {
    pub token_id: TokenId,
    pub owner_id: String,
    pub metadata: Option<BadgeMetadata>,
}

/// Why a request on the badge contract failed.
#[derive(Debug, Clone, Copy, PartialEq, Eq, Structural)]
pub enum BadgeError {
    /// The caller is not a moderator.
    Unauthorized,
    /// A badge with this id is already defined.
    DuplicateBadge,
    /// No badge with this id is defined.
    UnknownBadge,
    /// This badge was already awarded to this owner.
    AlreadyAwarded,
    /// The receiver is not a valid account id.
    InvalidOwnerIdentity,
    /// The page starts past the end of the collection.
    OutOfRange,
    /// A page of zero items was asked for.
    InvalidLimit,
    /// Badges cannot be transferred.
    TransfersDisabled,
}

/// Why a token id could not be decoded.
#[derive(Debug, Clone, Copy, PartialEq, Eq, Structural)]
pub enum ParseTokenIdError {
    /// The token id holds no separator.
    NoSeparator,
    /// The part after the first separator is not a valid account id.
    InvalidAccountId,
}

/// Relies on near_sdk::AccountId's `FromStr` (near-account-id's validation),
/// which accepts only `a`-`z`, `0`-`9`, `-`, `_` and `.`, so never a `:`.
#[verifier::external_body]
pub(crate) fn account_id_is_valid(s: &str) -> (r: bool)
    ensures
        r == account_id_valid(s@),
        r ==> no_sep(s@),
{
    s.parse::<near_sdk::AccountId>().is_ok()
}

/// Relies on str::split_once: it splits at the first occurrence of the
/// delimiter, and gives `None` when there is none.
#[verifier::external_body]
fn split_at_first_sep(s: &str) -> (r: Option<(String, String)>)
    ensures
        match r {
            None => no_sep(s@),
            Some((a, b)) => s@ == a@ + seq![':'] + b@ && no_sep(a@),
        },
{
    s.split_once(':').map(|(a, b)| (a.to_string(), b.to_string()))
}

/// The first separator of `a + ":" + b`, where `a` holds none, is at `a.len()`.
proof fn lemma_first_sep_of_join(a: Seq<char>, b: Seq<char>)
    requires
        no_sep(a),
    ensures
        !no_sep(token_id_of(a, b)),
        first_sep(token_id_of(a, b)) == a.len(),
        token_id_of(a, b).take(a.len() as int) == a,
        token_id_of(a, b).skip(a.len() as int + 1) == b,
{
    let s = token_id_of(a, b);
    let n = a.len() as int;
    assert(is_sep(s[n]));
    assert(s.take(n) =~= a);
    assert(s.skip(n + 1) =~= b);
    assert(0 <= n < s.len() && is_sep(s[n]) && no_sep(s.take(n)));
    let i = first_sep(s);
    if i < n {
        assert(s[i] == a[i]);
    } else if i > n {
        assert(s.take(i)[n] == s[n]);
    }
}

/// Builds the token id of `owner_account_id` holding `badge_id`.
pub fn get_token_id(badge_id: &BadgeId, owner_account_id: &String) -> (r: TokenId)
    ensures
        r@ == token_id_of(badge_id@, owner_account_id@),
{
    let mut r = badge_id.clone();
    proof {
        reveal_strlit(":");
    }
    r.append(":");
    r.append(owner_account_id.as_str());
    proof {
        assert(r@ =~= token_id_of(badge_id@, owner_account_id@));
    }
    r
}

/// Splits a token id at its first separator into the badge id and the owner id.
pub fn parse_token_id(token_id: &TokenId) -> (r: Result<(BadgeId, String), ParseTokenIdError>)
    ensures
        match r {
            Ok((b, o)) => decoded(token_id@) == Ok::<_, ParseTokenIdError>((b@, o@)) && token_id@
                == token_id_of(b@, o@),
            Err(e) => decoded(token_id@) == Err::<(Seq<char>, Seq<char>), _>(e),
        },
{
    match split_at_first_sep(token_id.as_str()) {
        None => Err(ParseTokenIdError::NoSeparator),
        Some((badge_id, account_id)) => {
            proof {
                lemma_first_sep_of_join(badge_id@, account_id@);
            }
            if account_id_is_valid(account_id.as_str()) {
                Ok((badge_id, account_id))
            } else {
                Err(ParseTokenIdError::InvalidAccountId)
            }
        },
    }
}

/// Decoding the token id of a valid owner gives back the badge id and the
/// owner id it was built from, when the badge id holds no separator (the
/// split is made at the first one).
pub proof fn lemma_token_id_round_trip(badge: Seq<char>, owner: Seq<char>)
    requires
        account_id_valid(owner),
        no_sep(owner),
        no_sep(badge),
    ensures
        decoded(token_id_of(badge, owner)) == Ok::<_, ParseTokenIdError>((badge, owner)),
{
    lemma_first_sep_of_join(badge, owner);
}

} // verus!
