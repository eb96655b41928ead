use vstd::prelude::*;

use crate::types::{
    account_id_is_valid, account_id_valid, decoded, get_token_id, no_sep, parse_token_id,
    token_id_of, with_copies, Badge, BadgeError, BadgeId, BadgeMetadata, BadgeMetadataView,
    Token, TokenId,
};

verus! {

/// A (badge id, owner id) pair of the issued set.
pub type Award = (Seq<char>, Seq<char>);

/// How many awards of `s` are of badge `b`.
pub open spec fn count_in(s: Seq<Award>, b: Seq<char>) -> nat
    decreases s.len(),
{
    if s.len() == 0 {
        0
    } else {
        count_in(s.drop_last(), b) + if s.last().0 == b { 1nat } else { 0nat }
    }
}

/// The badges that `s` awards to `o`, in award order.
pub open spec fn held_in(s: Seq<Award>, o: Seq<char>) -> Seq<Seq<char>>
    decreases s.len(),
{
    if s.len() == 0 {
        Seq::empty()
    } else if s.last().1 == o {
        held_in(s.drop_last(), o).push(s.last().0)
    } else {
        held_in(s.drop_last(), o)
    }
}

/// How many items a page starting at `from` of at most `limit` items holds,
/// out of `n`.
pub open spec fn page_len(n: int, from: int, limit: Option<u64>) -> int {
    let rest = if from <= n { n - from } else { 0 };
    match limit {
        Some(l) => if l < rest { l as int } else { rest },
        None => rest,
    }
}

/// Where a page starts: `from_index`, or the first item.
pub open spec fn start_of(from_index: Option<u128>) -> int {
    match from_index {
        Some(f) => f as int,
        None => 0,
    }
}

proof fn lemma_count_push(s: Seq<Award>, x: Award, b: Seq<char>)
    ensures
        count_in(s.push(x), b) == count_in(s, b) + if x.0 == b { 1nat } else { 0nat },
{
    assert(s.push(x).drop_last() =~= s);
}

proof fn lemma_held_push(s: Seq<Award>, x: Award, o: Seq<char>)
    ensures
        held_in(s.push(x), o) == if x.1 == o { held_in(s, o).push(x.0) } else { held_in(s, o) },
{
    assert(s.push(x).drop_last() =~= s);
}

proof fn lemma_count_absent(s: Seq<Award>, b: Seq<char>)
    requires
        forall|k: int| 0 <= k < s.len() ==> (#[trigger] s[k]).0 != b,
    ensures
        count_in(s, b) == 0,
    decreases s.len(),
{
    if s.len() > 0 {
        assert(s.last() == s[s.len() - 1]);
        lemma_count_absent(s.drop_last(), b);
    }
}

proof fn lemma_held_absent(s: Seq<Award>, o: Seq<char>)
    requires
        forall|k: int| 0 <= k < s.len() ==> (#[trigger] s[k]).1 != o,
    ensures
        held_in(s, o) == Seq::<Seq<char>>::empty(),
    decreases s.len(),
{
    if s.len() > 0 {
        assert(s.last() == s[s.len() - 1]);
        lemma_held_absent(s.drop_last(), o);
    }
}

proof fn lemma_held_from(s: Seq<Award>, o: Seq<char>, j: int) -> (m: int)
    requires
        0 <= j < held_in(s, o).len(),
    ensures
        0 <= m < s.len(),
        s[m] == (held_in(s, o)[j], o),
    decreases s.len(),
{
    let t = s.drop_last();
    if s.last().1 == o && j == held_in(t, o).len() {
        s.len() - 1
    } else {
        let m = lemma_held_from(t, o, j);
        assert(s[m] == t[m]);
        m
    }
}

proof fn lemma_count_bound(s: Seq<Award>, b: Seq<char>)
    ensures
        count_in(s, b) <= s.len(),
    decreases s.len(),
{
    if s.len() > 0 {
        lemma_count_bound(s.drop_last(), b);
    }
}

/// The badge registry: the catalog, the issued set and the per-owner index.
pub struct Contract {
    moderators: Vec<String>,
    /// Catalog, in the order of definition; `badge_copies[i]` is the award
    /// count of `badge_ids[i]`.
    badge_ids: Vec<BadgeId>,
    badge_metas: Vec<BadgeMetadata>,
    badge_copies: Vec<u64>,
    /// Per-owner index: `owner_badges[k]` lists the badges of `owner_ids[k]`.
    owner_ids: Vec<String>,
    owner_badges: Vec<Vec<BadgeId>>,
    /// Issued set, in award order: the `k`-th token is `issued_badges[k]`
    /// held by `issued_owners[k]`.
    issued_badges: Vec<BadgeId>,
    issued_owners: Vec<String>,
}

impl Contract {
    /// The accounts allowed to define and award badges.
    pub closed spec fn moderator_ids(&self) -> Seq<Seq<char>> {
        self.moderators@.map_values(|s: String| s@)
    }

    /// Whether `a` is one of the moderators.
    pub open spec fn is_moderator(&self, a: Seq<char>) -> bool {
        self.moderator_ids().contains(a)
    }

    /// The badge ids of the catalog, in the order of definition.
    pub closed spec fn catalog_ids(&self) -> Seq<Seq<char>> {
        self.badge_ids@.map_values(|s: String| s@)
    }

    /// Whether badge `b` is defined.
    pub open spec fn has_badge(&self, b: Seq<char>) -> bool {
        self.catalog_ids().contains(b)
    }

    /// The definition of the `i`-th badge of the catalog, with its award count.
    pub closed spec fn catalog_meta(&self, i: int) -> BadgeMetadataView {
        with_copies(self.badge_metas@[i]@, self.badge_copies@[i])
    }

    /// The position of badge `b` in the catalog.
    pub open spec fn badge_index(&self, b: Seq<char>) -> int {
        choose|i: int| 0 <= i < self.catalog_ids().len() && self.catalog_ids()[i] == b
    }

    /// The current definition of badge `b`.
    pub open spec fn meta_of(&self, b: Seq<char>) -> BadgeMetadataView {
        self.catalog_meta(self.badge_index(b))
    }

    /// The issued set, in award order.
    pub closed spec fn issued(&self) -> Seq<Award> {
        Seq::new(
            self.issued_badges@.len(),
            |k: int| (self.issued_badges@[k]@, self.issued_owners@[k]@),
        )
    }

    /// The badges held by `o`, in award order.
    pub open spec fn held(&self, o: Seq<char>) -> Seq<Seq<char>> {
        held_in(self.issued(), o)
    }

    /// How many times badge `b` was awarded.
    pub open spec fn copies_of(&self, b: Seq<char>) -> Option<u64> {
        self.meta_of(b).copies
    }

    /// The view of the token of `o` holding `b`, at the current state.
    pub open spec fn token_matches(&self, t: Token, b: Seq<char>, o: Seq<char>) -> bool {
        &&& t.token_id@ == token_id_of(b, o)
        &&& t.owner_id@ == o
        &&& t.metadata matches Some(m) && m@ == self.meta_of(b)
    }

    /// Why awarding badge `b` to `o` on behalf of `caller` fails, checked in
    /// this order; `None` when it succeeds.
    pub open spec fn award_error(&self, caller: Seq<char>, b: Seq<char>, o: Seq<char>) -> Option<
        BadgeError,
    > {
        if !self.is_moderator(caller) {
            Some(BadgeError::Unauthorized)
        } else if !self.has_badge(b) {
            Some(BadgeError::UnknownBadge)
        } else if !account_id_valid(o) {
            Some(BadgeError::InvalidOwnerIdentity)
        } else if self.issued().contains((b, o)) {
            Some(BadgeError::AlreadyAwarded)
        } else {
            None
        }
    }

    /// `next` is this registry after awarding badge `b` to `o`, as `reward`
    /// leaves it.
    pub open spec fn awarded_to(&self, next: Contract, b: Seq<char>, o: Seq<char>) -> bool {
        &&& next.issued() == self.issued().push((b, o))
        &&& next.catalog_ids() == self.catalog_ids()
        &&& next.moderator_ids() == self.moderator_ids()
    }

    /// The contents of a token view.
    pub open spec fn token_contents(t: Token) -> (Seq<char>, Seq<char>, Option<BadgeMetadataView>) {
        (
            t.token_id@,
            t.owner_id@,
            match t.metadata {
                Some(m) => Some(m@),
                None => None,
            },
        )
    }

    /// `v` is the page of all tokens from `from_index` of at most `limit` items.
    pub open spec fn is_tokens_page(&self, from_index: Option<u128>, limit: Option<u64>, v: Seq<Token>) -> bool {
        &&& v.len() == page_len(self.issued().len() as int, start_of(from_index), limit)
        &&& forall|j: int|
            0 <= j < v.len() ==> {
                let a = self.issued()[start_of(from_index) + j];
                self.token_matches(#[trigger] v[j], a.0, a.1)
            }
    }

    /// `v` is the page of the tokens of `o` from `from_index` of at most
    /// `limit` items.
    pub open spec fn is_owner_page(
        &self,
        o: Seq<char>,
        from_index: Option<u128>,
        limit: Option<u64>,
        v: Seq<Token>,
    ) -> bool {
        &&& v.len() == page_len(self.held(o).len() as int, start_of(from_index), limit)
        &&& forall|j: int|
            0 <= j < v.len() ==> self.token_matches(
                #[trigger] v[j],
                self.held(o)[start_of(from_index) + j],
                o,
            )
    }

    /// The index of owner `o` in the per-owner index.
    pub closed spec fn owner_index(&self, o: Seq<char>) -> int {
        choose|k: int| 0 <= k < self.owner_ids@.len() && self.owner_ids@[k]@ == o
    }

    /// The invariant that ties the catalog, the issued set and the per-owner
    /// index together.
    pub closed spec fn wf(&self) -> bool {
        &&& self.badge_ids@.len() == self.badge_metas@.len()
        &&& self.badge_ids@.len() == self.badge_copies@.len()
        &&& forall|i: int, j: int|
            0 <= i < j < self.badge_ids@.len() ==> self.badge_ids@[i]@ != self.badge_ids@[j]@
        &&& self.owner_ids@.len() == self.owner_badges@.len()
        &&& forall|i: int, j: int|
            0 <= i < j < self.owner_ids@.len() ==> self.owner_ids@[i]@ != self.owner_ids@[j]@
        &&& self.issued_badges@.len() == self.issued_owners@.len()
        &&& forall|i: int, j: int|
            0 <= i < j < self.issued().len() ==> self.issued()[i] != self.issued()[j]
        &&& forall|k: int|
            0 <= k < self.issued().len() ==> {
                &&& self.has_badge(#[trigger] self.issued()[k].0)
                &&& account_id_valid(self.issued()[k].1)
                &&& no_sep(self.issued()[k].1)
                &&& exists|j: int|
                    0 <= j < self.owner_ids@.len() && self.owner_ids@[j]@ == self.issued()[k].1
            }
        &&& forall|k: int|
            0 <= k < self.owner_ids@.len() ==> (#[trigger] self.owner_badges@[k]@).map_values(
                |s: String| s@,
            ) == self.held(self.owner_ids@[k]@)
        &&& forall|i: int|
            0 <= i < self.badge_ids@.len() ==> #[trigger] self.badge_copies@[i] == count_in(
                self.issued(),
                self.badge_ids@[i]@,
            )
    }

    /// A registry with no badges, run by `moderators`.
    pub fn new(moderators: Vec<String>) -> (r: Contract)
        ensures
            r.wf(),
            r.moderator_ids() == moderators@.map_values(|s: String| s@),
            r.catalog_ids().len() == 0,
            r.issued().len() == 0,
    {
        Contract {
            moderators,
            badge_ids: Vec::new(),
            badge_metas: Vec::new(),
            badge_copies: Vec::new(),
            owner_ids: Vec::new(),
            owner_badges: Vec::new(),
            issued_badges: Vec::new(),
            issued_owners: Vec::new(),
        }
    }

    fn check_moderator(&self, caller: &String) -> (r: bool)
        ensures
            r == self.is_moderator(caller@),
    {
        let mut i: usize = 0;
        while i < self.moderators.len()
            invariant
                i <= self.moderators@.len(),
                forall|j: int| 0 <= j < i ==> self.moderator_ids()[j] != caller@,
            decreases self.moderators@.len() - i,
        {
            if self.moderators[i] == *caller {
                proof {
                    assert(self.moderator_ids()[i as int] == caller@);
                }
                return true;
            }
            i = i + 1;
        }
        false
    }

    proof fn lemma_badge_index(&self, b: Seq<char>, i: int)
        requires
            self.wf(),
            0 <= i < self.badge_ids@.len(),
            self.badge_ids@[i]@ == b,
        ensures
            self.badge_index(b) == i,
            self.has_badge(b),
    {
        assert(self.catalog_ids()[i] == b);
        let k = self.badge_index(b);
        assert(self.catalog_ids()[k] == b);
        assert(self.badge_ids@[k]@ == b);
    }

    proof fn lemma_has_badge(&self, b: Seq<char>) -> (i: int)
        requires
            self.wf(),
            self.has_badge(b),
        ensures
            0 <= i < self.badge_ids@.len(),
            self.badge_ids@[i]@ == b,
            self.badge_index(b) == i,
    {
        let i = choose|i: int| 0 <= i < self.catalog_ids().len() && self.catalog_ids()[i] == b;
        assert(self.badge_ids@[i]@ == b);
        self.lemma_badge_index(b, i);
        i
    }

    fn find_badge(&self, b: &String) -> (r: Option<usize>)
        requires
            self.wf(),
        ensures
            match r {
                Some(i) => i < self.badge_ids@.len() && self.badge_ids@[i as int]@ == b@
                    && self.badge_index(b@) == i && self.has_badge(b@),
                None => !self.has_badge(b@),
            },
    {
        let mut i: usize = 0;
        while i < self.badge_ids.len()
            invariant
                self.wf(),
                i <= self.badge_ids@.len(),
                forall|j: int| 0 <= j < i ==> self.badge_ids@[j]@ != b@,
            decreases self.badge_ids@.len() - i,
        {
            if self.badge_ids[i] == *b {
                proof {
                    self.lemma_badge_index(b@, i as int);
                }
                return Some(i);
            }
            i = i + 1;
        }
        proof {
            if self.has_badge(b@) {
                self.lemma_has_badge(b@);
            }
        }
        None
    }

    fn find_owner(&self, o: &String) -> (r: Option<usize>)
        requires
            self.owner_ids@.len() == self.owner_badges@.len(),
        ensures
            match r {
                Some(k) => k < self.owner_ids@.len() && self.owner_ids@[k as int]@ == o@,
                None => forall|k: int| 0 <= k < self.owner_ids@.len() ==> self.owner_ids@[k]@ != o@,
            },
    {
        let mut k: usize = 0;
        while k < self.owner_ids.len()
            invariant
                k <= self.owner_ids@.len(),
                forall|j: int| 0 <= j < k ==> self.owner_ids@[j]@ != o@,
            decreases self.owner_ids@.len() - k,
        {
            if self.owner_ids[k] == *o {
                return Some(k);
            }
            k = k + 1;
        }
        None
    }

    fn is_issued(&self, b: &String, o: &String) -> (r: bool)
        requires
            self.wf(),
        ensures
            r == self.issued().contains((b@, o@)),
    {
        let mut k: usize = 0;
        while k < self.issued_badges.len()
            invariant
                self.wf(),
                k <= self.issued().len(),
                forall|j: int| 0 <= j < k ==> self.issued()[j] != (b@, o@),
            decreases self.issued().len() - k,
        {
            if self.issued_badges[k] == *b && self.issued_owners[k] == *o {
                proof {
                    assert(self.issued()[k as int] == (b@, o@));
                }
                return true;
            }
            k = k + 1;
        }
        false
    }

    /// Defines badge `badge_id`, with an award count of zero. Only a moderator
    /// may, and an existing definition is never replaced.
    pub fn mint_badge(&mut self, caller: &String, badge_id: BadgeId, badge_metadata: BadgeMetadata) -> (r:
        Result<(), BadgeError>)
        requires
            old(self).wf(),
        ensures
            final(self).wf(),
            !old(self).is_moderator(caller@) ==> r == Err::<(), BadgeError>(BadgeError::Unauthorized),
            old(self).is_moderator(caller@) && old(self).has_badge(badge_id@) ==> r == Err::<
                (),
                BadgeError,
            >(BadgeError::DuplicateBadge),
            old(self).is_moderator(caller@) && !old(self).has_badge(badge_id@) ==> r is Ok,
            r is Err ==> *final(self) == *old(self),
            r is Ok ==> {
                &&& final(self).catalog_ids() == old(self).catalog_ids().push(badge_id@)
                &&& final(self).meta_of(badge_id@) == with_copies(badge_metadata@, 0)
                &&& forall|b: Seq<char>|
                    old(self).has_badge(b) ==> #[trigger] final(self).meta_of(b) == old(
                        self,
                    ).meta_of(b)
                &&& final(self).issued() == old(self).issued()
                &&& final(self).moderator_ids() == old(self).moderator_ids()
            },
    {
        if !self.check_moderator(caller) {
            return Err(BadgeError::Unauthorized);
        }
        if self.find_badge(&badge_id).is_some() {
            return Err(BadgeError::DuplicateBadge);
        }
        let ghost old_self = *self;
        let n = self.badge_ids.len();
        self.badge_ids.push(badge_id);
        self.badge_metas.push(badge_metadata);
        self.badge_copies.push(0);
        proof {
            assert(self.issued() =~= old_self.issued());
            assert(self.catalog_ids() =~= old_self.catalog_ids().push(self.badge_ids@[n as int]@));
            assert forall|k: int| 0 <= k < self.issued().len() implies self.has_badge(
                #[trigger] self.issued()[k].0,
            ) by {
                let b = old_self.issued()[k].0;
                assert(old_self.has_badge(b));
                let i = old_self.lemma_has_badge(b);
                assert(self.catalog_ids()[i] == b);
            }
            assert forall|k: int| 0 <= k < self.issued().len() implies (#[trigger] self.issued()[k]).0
                != self.badge_ids@[n as int]@ by {
                let b = old_self.issued()[k].0;
                assert(old_self.has_badge(b));
                old_self.lemma_has_badge(b);
            }
            lemma_count_absent(self.issued(), self.badge_ids@[n as int]@);
            assert forall|i: int, j: int| 0 <= i < j < self.badge_ids@.len() implies self.badge_ids@[i]@
                != self.badge_ids@[j]@ by {
                if j == n {
                    assert(old_self.catalog_ids()[i] == old_self.badge_ids@[i]@);
                }
            }
            assert forall|i: int| 0 <= i < self.badge_ids@.len() implies #[trigger] self.badge_copies@[i]
                == count_in(self.issued(), self.badge_ids@[i]@) by {
                if i < n {
                    assert(old_self.badge_copies@[i] == count_in(
                        old_self.issued(),
                        old_self.badge_ids@[i]@,
                    ));
                }
            }
            assert(self.wf());
            self.lemma_badge_index(self.badge_ids@[n as int]@, n as int);
            assert forall|b: Seq<char>| old_self.has_badge(b) implies #[trigger] self.meta_of(b)
                == old_self.meta_of(b) by {
                let i = old_self.lemma_has_badge(b);
                self.lemma_badge_index(b, i);
            }
        }
        Ok(())
    }

    /// Awards badge `badge_id` to `receiver_account_id` and returns the new
    /// token id. Only a moderator may; a badge is awarded to an owner at most
    /// once. The award count, the issued set and the owner's index change
    /// together, or nothing changes.
    pub fn reward(&mut self, caller: &String, badge_id: BadgeId, receiver_account_id: String) -> (r:
        Result<TokenId, BadgeError>)
        requires
            old(self).wf(),
            old(self).issued().len() < usize::MAX,
        ensures
            final(self).wf(),
            match r {
                Ok(_) => old(self).award_error(caller@, badge_id@, receiver_account_id@) is None,
                Err(e) => old(self).award_error(caller@, badge_id@, receiver_account_id@) == Some(e),
            },
            r is Err ==> *final(self) == *old(self),
            r matches Ok(t) ==> {
                &&& t@ == token_id_of(badge_id@, receiver_account_id@)
                &&& final(self).issued() == old(self).issued().push(
                    (badge_id@, receiver_account_id@),
                )
                &&& final(self).catalog_ids() == old(self).catalog_ids()
                &&& final(self).moderator_ids() == old(self).moderator_ids()
                &&& final(self).copies_of(badge_id@) == Some(
                    (old(self).copies_of(badge_id@)->0 + 1) as u64,
                )
                &&& forall|b: Seq<char>|
                    old(self).has_badge(b) ==> #[trigger] final(self).meta_of(b) == if b
                        == badge_id@ {
                        with_copies(old(self).meta_of(b), (old(self).copies_of(b)->0 + 1) as u64)
                    } else {
                        old(self).meta_of(b)
                    }
                &&& final(self).held(receiver_account_id@) == old(self).held(
                    receiver_account_id@,
                ).push(badge_id@)
                &&& forall|o: Seq<char>|
                    o != receiver_account_id@ ==> #[trigger] final(self).held(o) == old(self).held(o)
            },
    {
        if !self.check_moderator(caller) {
            return Err(BadgeError::Unauthorized);
        }
        let i = match self.find_badge(&badge_id) {
            Some(i) => i,
            None => {
                return Err(BadgeError::UnknownBadge);
            },
        };
        if !account_id_is_valid(receiver_account_id.as_str()) {
            return Err(BadgeError::InvalidOwnerIdentity);
        }
        if self.is_issued(&badge_id, &receiver_account_id) {
            return Err(BadgeError::AlreadyAwarded);
        }
        let ghost old_self = *self;
        let ghost b = badge_id@;
        let ghost o = receiver_account_id@;
        let token_id = get_token_id(&badge_id, &receiver_account_id);
        proof {
            lemma_count_bound(self.issued(), b);
            assert(self.badge_copies@[i as int] == count_in(self.issued(), self.badge_ids@[i as int]@));
        }
        let slot = self.find_owner(&receiver_account_id);
        let c = self.badge_copies[i];
        self.badge_copies.set(i, c + 1);
        match slot {
            Some(k) => {
                let mut list: Vec<BadgeId> = Vec::new();
                self.owner_badges.set_and_swap(k, &mut list);
                list.push(badge_id.clone());
                self.owner_badges.set_and_swap(k, &mut list);
            },
            None => {
                self.owner_ids.push(receiver_account_id.clone());
                let mut list: Vec<BadgeId> = Vec::new();
                list.push(badge_id.clone());
                self.owner_badges.push(list);
            },
        }
        self.issued_badges.push(badge_id);
        self.issued_owners.push(receiver_account_id);
        proof {
            let x = (b, o);
            assert(self.issued() =~= old_self.issued().push(x));
            assert(self.catalog_ids() =~= old_self.catalog_ids());
            assert forall|k: int| 0 <= k < self.issued().len() implies {
                &&& self.has_badge(#[trigger] self.issued()[k].0)
                &&& account_id_valid(self.issued()[k].1)
                &&& no_sep(self.issued()[k].1)
                &&& exists|j: int|
                    0 <= j < self.owner_ids@.len() && self.owner_ids@[j]@ == self.issued()[k].1
            } by {
                if k < old_self.issued().len() {
                    assert(self.issued()[k] == old_self.issued()[k]);
                    assert(old_self.has_badge(old_self.issued()[k].0));
                    let j = choose|j: int|
                        0 <= j < old_self.owner_ids@.len() && old_self.owner_ids@[j]@
                            == old_self.issued()[k].1;
                    assert(self.owner_ids@[j]@ == self.issued()[k].1);
                } else {
                    assert(self.issued()[k] == x);
                    if exists|j: int| 0 <= j < old_self.owner_ids@.len() && old_self.owner_ids@[j]@ == o {
                        let j = choose|j: int| 0 <= j < old_self.owner_ids@.len() && old_self.owner_ids@[j]@ == o;
                        assert(self.owner_ids@[j]@ == o);
                    } else {
                        assert(self.owner_ids@[old_self.owner_ids@.len() as int]@ == o);
                    }
                }
            }
            assert forall|p: int, q: int| 0 <= p < q < self.issued().len() implies self.issued()[p]
                != self.issued()[q] by {
                if q == old_self.issued().len() {
                    assert(self.issued()[p] == old_self.issued()[p]);
                }
            }
            assert forall|j: int| 0 <= j < self.badge_ids@.len() implies #[trigger] self.badge_copies@[j]
                == count_in(self.issued(), self.badge_ids@[j]@) by {
                lemma_count_push(old_self.issued(), x, self.badge_ids@[j]@);
                assert(old_self.badge_copies@[j] == count_in(
                    old_self.issued(),
                    old_self.badge_ids@[j]@,
                ));
                if j != i {
                    assert(old_self.badge_ids@[j]@ != old_self.badge_ids@[i as int]@);
                }
            }
            assert forall|q: Seq<char>| #[trigger] self.held(q) == if q == o {
                old_self.held(q).push(b)
            } else {
                old_self.held(q)
            } by {
                lemma_held_push(old_self.issued(), x, q);
            }
            assert forall|k: int| 0 <= k < self.owner_ids@.len() implies (
            #[trigger] self.owner_badges@[k]@).map_values(|s: String| s@) == self.held(
                self.owner_ids@[k]@,
            ) by {
                if k < old_self.owner_ids@.len() {
                    assert(self.owner_ids@[k] == old_self.owner_ids@[k]);
                    assert(old_self.owner_badges@[k]@.map_values(|s: String| s@) == old_self.held(
                        old_self.owner_ids@[k]@,
                    ));
                    if old_self.owner_ids@[k]@ == o {
                        assert(self.owner_badges@[k]@.map_values(|s: String| s@)
                            =~= old_self.owner_badges@[k]@.map_values(|s: String| s@).push(b));
                    } else {
                        assert(self.owner_badges@[k] == old_self.owner_badges@[k]);
                    }
                } else {
                    assert forall|m: int| 0 <= m < old_self.issued().len() implies (
                    #[trigger] old_self.issued()[m]).1 != o by {
                        assert(old_self.has_badge(old_self.issued()[m].0));
                        let j = choose|j: int|
                            0 <= j < old_self.owner_ids@.len() && old_self.owner_ids@[j]@
                                == old_self.issued()[m].1;
                    }
                    lemma_held_absent(old_self.issued(), o);
                    assert(self.owner_badges@[k]@.map_values(|s: String| s@) =~= seq![b]);
                    assert(Seq::<Seq<char>>::empty().push(b) =~= seq![b]);
                }
            }
            assert(self.wf());
            self.lemma_badge_index(b, i as int);
            old_self.lemma_badge_index(b, i as int);
            assert forall|q: Seq<char>| old_self.has_badge(q) implies #[trigger] self.meta_of(q) == if q
                == b {
                with_copies(old_self.meta_of(q), (old_self.copies_of(q)->0 + 1) as u64)
            } else {
                old_self.meta_of(q)
            } by {
                let j = old_self.lemma_has_badge(q);
                self.lemma_badge_index(q, j);
                assert(self.catalog_meta(j) =~= if q == b {
                    with_copies(old_self.catalog_meta(j), (old_self.copies_of(q)->0 + 1) as u64)
                } else {
                    old_self.catalog_meta(j)
                });
            }
        }
        Ok(token_id)
    }

    fn token_view(&self, b: &String, o: &String) -> (t: Token)
        requires
            self.wf(),
            self.has_badge(b@),
        ensures
            self.token_matches(t, b@, o@),
    {
        match self.find_badge(b) {
            Some(i) => Token {
                token_id: get_token_id(b, o),
                owner_id: o.clone(),
                metadata: Some(self.badge_metas[i].with_copies(self.badge_copies[i])),
            },
            None => vstd::pervasive::unreached(),
        }
    }

    /// The definition of badge `badge_id`, if it is defined.
    pub fn get_badge(&self, badge_id: BadgeId) -> (r: Option<Badge>)
        requires
            self.wf(),
        ensures
            r is Some <==> self.has_badge(badge_id@),
            r matches Some(x) ==> x.badge_id@ == badge_id@ && x.badge_metadata@ == self.meta_of(
                badge_id@,
            ),
    {
        match self.find_badge(&badge_id) {
            Some(i) => Some(
                Badge {
                    badge_id,
                    badge_metadata: self.badge_metas[i].with_copies(self.badge_copies[i]),
                },
            ),
            None => None,
        }
    }

    /// A page of the catalog, in the order of definition: at most `limit`
    /// entries (no cap when `None`) from position `from_index` (0 when `None`).
    pub fn get_badges(&self, from_index: Option<u128>, limit: Option<u64>) -> (r: Result<
        Vec<Badge>,
        BadgeError,
    >)
        requires
            self.wf(),
        ensures
            start_of(from_index) > self.catalog_ids().len() ==> r == Err::<Vec<Badge>, BadgeError>(
                BadgeError::OutOfRange,
            ),
            start_of(from_index) <= self.catalog_ids().len() && limit == Some(0u64) ==> r == Err::<
                Vec<Badge>,
                BadgeError,
            >(BadgeError::InvalidLimit),
            start_of(from_index) <= self.catalog_ids().len() && limit != Some(0u64) ==> r is Ok,
            r matches Ok(v) ==> {
                &&& v@.len() == page_len(
                    self.catalog_ids().len() as int,
                    start_of(from_index),
                    limit,
                )
                &&& forall|j: int|
                    0 <= j < v@.len() ==> {
                        let b = self.catalog_ids()[start_of(from_index) + j];
                        &&& (#[trigger] v@[j]).badge_id@ == b
                        &&& v@[j].badge_metadata@ == self.meta_of(b)
                    }
            },
    {
        let n = self.badge_ids.len();
        let from: u128 = match from_index {
            Some(f) => f,
            None => 0,
        };
        if from > n as u128 {
            return Err(BadgeError::OutOfRange);
        }
        let start = from as usize;
        let rest = n - start;
        let count: usize = match limit {
            Some(l) => {
                if l == 0 {
                    return Err(BadgeError::InvalidLimit);
                }
                if (l as u128) < (rest as u128) {
                    l as usize
                } else {
                    rest
                }
            },
            None => rest,
        };
        let mut v: Vec<Badge> = Vec::new();
        let mut j: usize = 0;
        while j < count
            invariant
                self.wf(),
                start as int == start_of(from_index),
                start + count <= n,
                n == self.badge_ids@.len(),
                j <= count,
                v@.len() == j,
                forall|q: int|
                    0 <= q < j ==> {
                        let b = self.catalog_ids()[start + q];
                        &&& (#[trigger] v@[q]).badge_id@ == b
                        &&& v@[q].badge_metadata@ == self.meta_of(b)
                    },
            decreases count - j,
        {
            let idx = start + j;
            proof {
                self.lemma_badge_index(self.badge_ids@[idx as int]@, idx as int);
                assert(self.catalog_ids()[idx as int] == self.badge_ids@[idx as int]@);
            }
            v.push(
                Badge {
                    badge_id: self.badge_ids[idx].clone(),
                    badge_metadata: self.badge_metas[idx].with_copies(self.badge_copies[idx]),
                },
            );
            j = j + 1;
        }
        Ok(v)
    }

    /// The token of `token_id`, if it decodes to an awarded (badge, owner)
    /// pair.
    pub fn nft_token(&self, token_id: TokenId) -> (r: Option<Token>)
        requires
            self.wf(),
        ensures
            match decoded(token_id@) {
                Ok((b, o)) => {
                    &&& r is Some <==> self.issued().contains((b, o))
                    &&& r matches Some(t) ==> self.token_matches(t, b, o)
                },
                Err(_) => r is None,
            },
    {
        match parse_token_id(&token_id) {
            Err(_) => None,
            Ok((badge_id, owner_id)) => {
                if !self.is_issued(&badge_id, &owner_id) {
                    return None;
                }
                proof {
                    let k = choose|k: int|
                        0 <= k < self.issued().len() && self.issued()[k] == (badge_id@, owner_id@);
                    assert(self.has_badge(self.issued()[k].0));
                }
                let t = self.token_view(&badge_id, &owner_id);
                Some(Token { token_id, owner_id: t.owner_id, metadata: t.metadata })
            },
        }
    }

    /// The number of awarded tokens.
    pub fn nft_total_supply(&self) -> (r: u128)
        requires
            self.wf(),
        ensures
            r == self.issued().len(),
    {
        self.issued_badges.len() as u128
    }

    /// A page of all awarded tokens, in award order: at most `limit` tokens
    /// (no cap when `None`) from position `from_index` (0 when `None`).
    pub fn nft_tokens(&self, from_index: Option<u128>, limit: Option<u64>) -> (r: Result<
        Vec<Token>,
        BadgeError,
    >)
        requires
            self.wf(),
        ensures
            start_of(from_index) > self.issued().len() ==> r == Err::<Vec<Token>, BadgeError>(
                BadgeError::OutOfRange,
            ),
            start_of(from_index) <= self.issued().len() && limit == Some(0u64) ==> r == Err::<
                Vec<Token>,
                BadgeError,
            >(BadgeError::InvalidLimit),
            start_of(from_index) <= self.issued().len() && limit != Some(0u64) ==> r is Ok,
            r matches Ok(v) ==> self.is_tokens_page(from_index, limit, v@),
    {
        let n = self.issued_badges.len();
        let from: u128 = match from_index {
            Some(f) => f,
            None => 0,
        };
        if from > n as u128 {
            return Err(BadgeError::OutOfRange);
        }
        let start = from as usize;
        let rest = n - start;
        let count: usize = match limit {
            Some(l) => {
                if l == 0 {
                    return Err(BadgeError::InvalidLimit);
                }
                if (l as u128) < (rest as u128) {
                    l as usize
                } else {
                    rest
                }
            },
            None => rest,
        };
        let mut v: Vec<Token> = Vec::new();
        let mut j: usize = 0;
        while j < count
            invariant
                self.wf(),
                start as int == start_of(from_index),
                start + count <= n,
                n == self.issued().len(),
                j <= count,
                v@.len() == j,
                forall|q: int|
                    0 <= q < j ==> {
                        let a = self.issued()[start + q];
                        self.token_matches(#[trigger] v@[q], a.0, a.1)
                    },
            decreases count - j,
        {
            let idx = start + j;
            proof {
                assert(self.has_badge(self.issued()[idx as int].0));
            }
            v.push(self.token_view(&self.issued_badges[idx], &self.issued_owners[idx]));
            j = j + 1;
        }
        Ok(v)
    }

    /// The number of badges awarded to `account_id` (0 for an unknown owner).
    pub fn nft_supply_for_owner(&self, account_id: &String) -> (r: u128)
        requires
            self.wf(),
        ensures
            r == self.held(account_id@).len(),
    {
        match self.find_owner(account_id) {
            Some(k) => {
                proof {
                    assert(self.owner_badges@[k as int]@.map_values(|s: String| s@) == self.held(
                        self.owner_ids@[k as int]@,
                    ));
                }
                self.owner_badges[k].len() as u128
            },
            None => {
                proof {
                    self.lemma_unknown_owner(account_id@);
                }
                0
            },
        }
    }

    proof fn lemma_unknown_owner(&self, o: Seq<char>)
        requires
            self.wf(),
            forall|k: int| 0 <= k < self.owner_ids@.len() ==> self.owner_ids@[k]@ != o,
        ensures
            self.held(o) == Seq::<Seq<char>>::empty(),
    {
        assert forall|m: int| 0 <= m < self.issued().len() implies (#[trigger] self.issued()[m]).1
            != o by {
            assert(self.has_badge(self.issued()[m].0));
            let j = choose|j: int|
                0 <= j < self.owner_ids@.len() && self.owner_ids@[j]@ == self.issued()[m].1;
        }
        lemma_held_absent(self.issued(), o);
    }

    /// A page of the tokens of `account_id`, in award order: at most `limit`
    /// tokens (no cap when `None`) from position `from_index` (0 when `None`).
    /// A start past the end gives an empty page.
    pub fn nft_tokens_for_owner(
        &self,
        account_id: &String,
        from_index: Option<u128>,
        limit: Option<u64>,
    ) -> (r: Result<Vec<Token>, BadgeError>)
        requires
            self.wf(),
        ensures
            limit == Some(0u64) ==> r == Err::<Vec<Token>, BadgeError>(BadgeError::InvalidLimit),
            limit != Some(0u64) ==> r is Ok,
            r matches Ok(v) ==> self.is_owner_page(account_id@, from_index, limit, v@),
    {
        if limit == Some(0u64) {
            return Err(BadgeError::InvalidLimit);
        }
        let k = match self.find_owner(account_id) {
            Some(k) => k,
            None => {
                proof {
                    self.lemma_unknown_owner(account_id@);
                }
                let v: Vec<Token> = Vec::new();
                proof {
                    assert(self.is_owner_page(account_id@, from_index, limit, v@));
                }
                return Ok(v);
            },
        };
        let ghost held = self.held(account_id@);
        let list = &self.owner_badges[k];
        proof {
            assert(list@.map_values(|s: String| s@) == held);
        }
        let n = list.len();
        let from: u128 = match from_index {
            Some(f) => f,
            None => 0,
        };
        if from >= n as u128 {
            return Ok(Vec::new());
        }
        let start = from as usize;
        let rest = n - start;
        let count: usize = match limit {
            Some(l) => {
                if (l as u128) < (rest as u128) {
                    l as usize
                } else {
                    rest
                }
            },
            None => rest,
        };
        let mut v: Vec<Token> = Vec::new();
        let mut j: usize = 0;
        while j < count
            invariant
                self.wf(),
                start as int == start_of(from_index),
                start + count <= n,
                n == held.len(),
                held == self.held(account_id@),
                list@.map_values(|s: String| s@) == held,
                j <= count,
                v@.len() == j,
                forall|q: int|
                    0 <= q < j ==> self.token_matches(#[trigger] v@[q], held[start + q], account_id@),
            decreases count - j,
        {
            let idx = start + j;
            proof {
                assert(list@[idx as int]@ == held[idx as int]);
                let m = lemma_held_from(self.issued(), account_id@, idx as int);
                assert(self.has_badge(self.issued()[m].0));
            }
            v.push(self.token_view(&list[idx], account_id));
            j = j + 1;
        }
        Ok(v)
    }

    /// Transfers are refused: badges stay with the account they were awarded
    /// to, and nothing changes.
    pub fn nft_transfer(
        &mut self,
        receiver_id: String,
        token_id: TokenId,
        approval_id: Option<u64>,
        memo: Option<String>,
    ) -> (r: Result<(), BadgeError>)
        ensures
            r == Err::<(), BadgeError>(BadgeError::TransfersDisabled),
            *final(self) == *old(self),
    {
        Err(BadgeError::TransfersDisabled)
    }

    /// Transfers with a call are refused as well, and nothing changes.
    pub fn nft_transfer_call(
        &mut self,
        receiver_id: String,
        token_id: TokenId,
        approval_id: Option<u64>,
        memo: Option<String>,
        msg: String,
    ) -> (r: Result<bool, BadgeError>)
        ensures
            r == Err::<bool, BadgeError>(BadgeError::TransfersDisabled),
            *final(self) == *old(self),
    {
        Err(BadgeError::TransfersDisabled)
    }

    /// There is never a transfer to resolve: refused, and nothing changes.
    pub fn nft_resolve_transfer(
        &mut self,
        previous_owner_id: String,
        receiver_id: String,
        token_id: TokenId,
        approved_account_ids: Option<Vec<(String, u64)>>,
    ) -> (r: Result<bool, BadgeError>)
        ensures
            r == Err::<bool, BadgeError>(BadgeError::TransfersDisabled),
            *final(self) == *old(self),
    {
        Err(BadgeError::TransfersDisabled)
    }
}

/// A badge is awarded to an owner at most once: after a successful award of
/// badge `b` to `o`, awarding it to `o` again fails with `AlreadyAwarded`
/// (and a failed award changes nothing, as `reward` states).
pub proof fn lemma_award_is_once(
    before: Contract,
    after: Contract,
    caller: Seq<char>,
    b: Seq<char>,
    o: Seq<char>,
)
    requires
        before.wf(),
        after.wf(),
        before.award_error(caller, b, o) is None,
        before.awarded_to(after, b, o),
    ensures
        after.award_error(caller, b, o) == Some(BadgeError::AlreadyAwarded),
{
    assert(after.issued()[before.issued().len() as int] == (b, o));
    assert(after.is_moderator(caller));
    assert(after.has_badge(b));
}

/// After `owners.len()` successful awards of badge `b`, to distinct owners,
/// the award count of `b` has grown by that number, and so has the total
/// supply.
pub proof fn lemma_award_counts(states: Seq<Contract>, b: Seq<char>, owners: Seq<Seq<char>>)
    requires
        states.len() == owners.len() + 1,
        forall|i: int| 0 <= i < states.len() ==> (#[trigger] states[i]).wf(),
        states[0].has_badge(b),
        forall|i: int, j: int| 0 <= i < j < owners.len() ==> owners[i] != owners[j],
        forall|i: int|
            0 <= i < owners.len() ==> (#[trigger] states[i]).awarded_to(states[i + 1], b, owners[i]),
    ensures
        states.last().issued().len() == states[0].issued().len() + owners.len(),
        states.last().copies_of(b) is Some,
        states.last().copies_of(b)->0 == states[0].copies_of(b)->0 + owners.len(),
    decreases owners.len(),
{
    let n = owners.len() as int;
    let i0 = states[0].lemma_has_badge(b);
    if n == 0 {
    } else {
        let prev = states.drop_last();
        assert(prev[0] == states[0]);
        assert forall|i: int| 0 <= i < prev.len() implies (#[trigger] prev[i]).wf() by {
            assert(prev[i] == states[i]);
        }
        assert forall|i: int| 0 <= i < owners.drop_last().len() implies (
        #[trigger] prev[i]).awarded_to(prev[i + 1], b, owners.drop_last()[i]) by {
            assert(prev[i] == states[i]);
            assert(prev[i + 1] == states[i + 1]);
            assert(states[i].awarded_to(states[i + 1], b, owners[i]));
        }
        lemma_award_counts(prev, b, owners.drop_last());
        let s = states[n - 1];
        let t = states[n];
        assert(s == prev.last());
        assert(t == states.last());
        assert(s.awarded_to(t, b, owners[n - 1]));
        assert forall|i: int| 0 <= i < prev.len() implies (#[trigger] prev[i]).has_badge(b) by {
            lemma_catalog_kept(prev, b, owners.drop_last(), i);
        }
        assert(s.has_badge(b));
        let i = s.lemma_has_badge(b);
        assert(t.catalog_ids()[i] == b);
        t.lemma_badge_index(b, i);
        assert(t.badge_ids@[i]@ == s.badge_ids@[i]@) by {
            assert(t.catalog_ids()[i] == s.catalog_ids()[i]);
        }
        lemma_count_push(s.issued(), (b, owners[n - 1]), b);
        assert(t.badge_copies@[i] == count_in(t.issued(), t.badge_ids@[i]@));
        assert(s.badge_copies@[i] == count_in(s.issued(), s.badge_ids@[i]@));
    }
}

proof fn lemma_catalog_kept(states: Seq<Contract>, b: Seq<char>, owners: Seq<Seq<char>>, k: int)
    requires
        states.len() == owners.len() + 1,
        0 <= k < states.len(),
        states[0].has_badge(b),
        forall|i: int|
            0 <= i < owners.len() ==> (#[trigger] states[i]).awarded_to(states[i + 1], b, owners[i]),
    ensures
        states[k].has_badge(b),
    decreases k,
{
    if k > 0 {
        lemma_catalog_kept(states, b, owners, k - 1);
        assert(states[k - 1].awarded_to(states[k], b, owners[k - 1]));
    }
}

/// Listing all tokens twice on the same state, with the same page, gives the
/// same tokens.
pub proof fn lemma_tokens_page_stable(
    s: Contract,
    from_index: Option<u128>,
    limit: Option<u64>,
    v1: Seq<Token>,
    v2: Seq<Token>,
)
    requires
        s.wf(),
        s.is_tokens_page(from_index, limit, v1),
        s.is_tokens_page(from_index, limit, v2),
    ensures
        v1.map_values(|t: Token| Contract::token_contents(t)) == v2.map_values(
            |t: Token| Contract::token_contents(t),
        ),
{
    assert(v1.map_values(|t: Token| Contract::token_contents(t)) =~= v2.map_values(
        |t: Token| Contract::token_contents(t),
    ));
}

/// Listing the tokens of an owner twice on the same state, with the same
/// page, gives the same tokens.
pub proof fn lemma_owner_page_stable(
    s: Contract,
    o: Seq<char>,
    from_index: Option<u128>,
    limit: Option<u64>,
    v1: Seq<Token>,
    v2: Seq<Token>,
)
    requires
        s.wf(),
        s.is_owner_page(o, from_index, limit, v1),
        s.is_owner_page(o, from_index, limit, v2),
    ensures
        v1.map_values(|t: Token| Contract::token_contents(t)) == v2.map_values(
            |t: Token| Contract::token_contents(t),
        ),
{
    assert(v1.map_values(|t: Token| Contract::token_contents(t)) =~= v2.map_values(
        |t: Token| Contract::token_contents(t),
    ));
}

/// A page that starts at the end of a collection is empty, whatever its
/// limit; one that starts past the end is refused by the catalog and token
/// listings, as their contracts state.
pub proof fn lemma_page_at_end(n: int, limit: Option<u64>)
    requires
        n >= 0,
    ensures
        page_len(n, n, limit) == 0,
{
}

} // verus!
