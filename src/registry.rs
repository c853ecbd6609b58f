use vstd::prelude::*;
use crate::identity::Identity;
use crate::naming::{display_name, display_name_spec};
use crate::types::{
    Approval, ApprovalForAll, Error, Event, Minted, MoodState, MoodUpdated, NFTMetadata, Transfer,
};
use vstd::string::StringExecFns;

verus! {

/// The image reference that a token carries until the curator sets one.
pub open spec fn placeholder_image() -> Seq<char> {
    "ipfs://placeholder"@
}

/// One minted token; its id is its position in the registry's token list.
struct TokenEntry {
    owner: Identity,
    approved: Option<Identity>,
    metadata: NFTMetadata,
}

/// The index-keyed token list of one owner. Positions `0..count` are the
/// listed ones; a position freed by a transfer is not compacted, so `slots`
/// may hold stale entries past `count`.
struct Holding {
    owner: Identity,
    count: u64,
    slots: Vec<u64>,
}

/// A standing approval of `operator` over all tokens of `owner`.
struct Delegation {
    owner: Identity,
    operator: Identity,
    approved: bool,
}

spec fn listed(h: Holding) -> Seq<u64> {
    h.slots@.subrange(0, h.count as int)
}

spec fn list_of(hs: Seq<Holding>, who: Identity) -> Seq<u64> {
    if exists|i: int| 0 <= i < hs.len() && #[trigger] hs[i].owner == who {
        let i = choose|i: int| 0 <= i < hs.len() && #[trigger] hs[i].owner == who;
        listed(hs[i])
    } else {
        Seq::empty()
    }
}

proof fn lemma_list_at(hs: Seq<Holding>, i: int)
    requires
        holdings_ok(hs),
        0 <= i < hs.len(),
    ensures
        list_of(hs, hs[i].owner) == listed(hs[i]),
{
    let who = hs[i].owner;
    assert(exists|k: int| 0 <= k < hs.len() && #[trigger] hs[k].owner == who);
}

proof fn lemma_list_none(hs: Seq<Holding>, who: Identity)
    requires
        forall|i: int| 0 <= i < hs.len() ==> #[trigger] hs[i].owner != who,
    ensures
        list_of(hs, who) == Seq::<u64>::empty(),
{
}

spec fn holdings_ok(hs: Seq<Holding>) -> bool {
    &&& forall|i: int, j: int|
        0 <= i < hs.len() && 0 <= j < hs.len() && i != j ==> #[trigger] hs[i].owner
            != #[trigger] hs[j].owner
    &&& forall|i: int| 0 <= i < hs.len() ==> #[trigger] hs[i].count <= hs[i].slots@.len()
}

spec fn slots_below(hs: Seq<Holding>, n: nat) -> bool {
    forall|i: int, k: int|
        0 <= i < hs.len() && 0 <= k < hs[i].slots@.len() ==> #[trigger] hs[i].slots@[k] < n
}

spec fn names_ok(ts: Seq<TokenEntry>) -> bool {
    forall|i: int|
        0 <= i < ts.len() ==> #[trigger] ts[i].metadata.name@ == display_name_spec(
            ts[i].metadata.coin@,
            i as nat,
        )
}

spec fn delegated(ds: Seq<Delegation>, owner: Identity, operator: Identity) -> bool {
    exists|i: int|
        0 <= i < ds.len() && #[trigger] ds[i].owner == owner && ds[i].operator == operator
            && ds[i].approved
}

spec fn delegations_ok(ds: Seq<Delegation>) -> bool {
    forall|i: int, j: int|
        0 <= i < ds.len() && 0 <= j < ds.len() && i != j ==> !(#[trigger] ds[i].owner
            == #[trigger] ds[j].owner && ds[i].operator == ds[j].operator)
}

/// How many entries of `s` are `true`.
pub open spec fn count_true(s: Seq<bool>) -> nat
    decreases s.len(),
{
    if s.len() == 0 {
        0
    } else {
        count_true(s.drop_last()) + if s.last() {
            1nat
        } else {
            0nat
        }
    }
}

/// How many entries of `s` equal `who`.
pub open spec fn count_of(s: Seq<Identity>, who: Identity) -> nat
    decreases s.len(),
{
    if s.len() == 0 {
        0
    } else {
        count_of(s.drop_last(), who) + if s.last() == who {
            1nat
        } else {
            0nat
        }
    }
}

proof fn lemma_count_push(s: Seq<Identity>, x: Identity, who: Identity)
    ensures
        count_of(s.push(x), who) == count_of(s, who) + if x == who {
            1nat
        } else {
            0nat
        },
{
    assert(s.push(x).drop_last() =~= s);
}

proof fn lemma_count_update(s: Seq<Identity>, t: int, x: Identity, who: Identity)
    requires
        0 <= t < s.len(),
    ensures
        count_of(s.update(t, x), who) + (if s[t] == who { 1nat } else { 0nat }) == count_of(s, who)
            + (if x == who { 1nat } else { 0nat }),
    decreases s.len(),
{
    let u = s.update(t, x);
    if t == s.len() - 1 {
        assert(u.drop_last() =~= s.drop_last());
    } else {
        lemma_count_update(s.drop_last(), t, x, who);
        assert(u.drop_last() =~= s.drop_last().update(t, x));
    }
}

proof fn lemma_count_bounds(s: Seq<Identity>, who: Identity, t: int)
    ensures
        count_of(s, who) <= s.len(),
        0 <= t < s.len() && s[t] == who ==> count_of(s, who) >= 1,
        0 <= t < s.len() && s[t] != who ==> count_of(s, who) < s.len(),
    decreases s.len(),
{
    if s.len() > 0 {
        lemma_count_bounds(s.drop_last(), who, t);
        if 0 <= t < s.len() - 1 {
            assert(s.drop_last()[t] == s[t]);
        }
    }
}

/// Position of `who`'s token list among the holdings, if it has one.
fn find_holding(hs: &Vec<Holding>, who: Identity) -> (r: Option<usize>)
    ensures
        match r {
            Some(i) => i < hs@.len() && hs@[i as int].owner == who,
            None => forall|i: int| 0 <= i < hs@.len() ==> #[trigger] hs@[i].owner != who,
        },
{
    let mut i: usize = 0;
    while i < hs.len()
        invariant
            i <= hs@.len(),
            forall|k: int| 0 <= k < i ==> #[trigger] hs@[k].owner != who,
        decreases hs@.len() - i,
    {
        if hs[i].owner == who {
            return Some(i);
        }
        i = i + 1;
    }
    None
}

/// Lists `id` at position `count` of `to`'s token list, creating the list if
/// `to` has none, and advances the count.
fn add_to_holding(hs: &mut Vec<Holding>, to: Identity, id: u64, bound: Ghost<nat>)
    requires
        holdings_ok(old(hs)@),
        slots_below(old(hs)@, bound@),
        (id as nat) < bound@,
        forall|i: int|
            0 <= i < old(hs)@.len() && #[trigger] old(hs)@[i].owner == to ==> old(hs)@[i].count
                < u64::MAX,
    ensures
        holdings_ok(final(hs)@),
        slots_below(final(hs)@, bound@),
        old(hs)@.len() <= final(hs)@.len() <= old(hs)@.len() + 1,
        forall|i: int|
            0 <= i < old(hs)@.len() ==> (#[trigger] final(hs)@[i]).owner == old(hs)@[i].owner,
        forall|i: int|
            0 <= i < old(hs)@.len() && (#[trigger] old(hs)@[i]).owner != to ==> final(hs)@[i]
                == old(hs)@[i],
        forall|i: int|
            0 <= i < old(hs)@.len() && (#[trigger] old(hs)@[i]).owner == to ==> final(hs)@[i].count
                == old(hs)@[i].count + 1 && listed(final(hs)@[i]) == listed(old(hs)@[i]).push(id),
        final(hs)@.len() == old(hs)@.len() ==> exists|i: int|
            0 <= i < old(hs)@.len() && #[trigger] old(hs)@[i].owner == to,
        final(hs)@.len() > old(hs)@.len() ==> {
            &&& forall|i: int| 0 <= i < old(hs)@.len() ==> #[trigger] old(hs)@[i].owner != to
            &&& final(hs)@.last().owner == to
            &&& final(hs)@.last().count == 1
            &&& listed(final(hs)@.last()) == seq![id]
        },
{
    match find_holding(hs, to) {
        Some(i) => {
            let c = hs[i].count;
            let n = hs[i].slots.len();
            if (c as usize) < n {
                hs[i].slots.set(c as usize, id);
            } else {
                hs[i].slots.push(id);
            }
            hs[i].count = c + 1;
            assert(listed(hs@[i as int]) =~= listed(old(hs)@[i as int]).push(id));
            assert forall|j: int, k: int|
                0 <= j < hs@.len() && 0 <= k < hs@[j].slots@.len() implies #[trigger] hs@[j].slots@[k]
                < bound@ by {
                if j != i as int || k != c as int {
                    assert(hs@[j].slots@[k] == old(hs)@[j].slots@[k]);
                }
            }
        },
        None => {
            let mut slots: Vec<u64> = Vec::new();
            slots.push(id);
            hs.push(Holding { owner: to, count: 1, slots });
            assert(listed(hs@.last()) =~= seq![id]);
            assert forall|j: int, k: int|
                0 <= j < hs@.len() && 0 <= k < hs@[j].slots@.len() implies #[trigger] hs@[j].slots@[k]
                < bound@ by {
                if j < old(hs)@.len() {
                    assert(hs@[j] == old(hs)@[j]);
                }
            }
        },
    }
}

/// Shortens `who`'s token list by one position, if it has a non-empty one.
/// The freed slot is left in place and the list is not compacted.
fn remove_from_holding(hs: &mut Vec<Holding>, who: Identity)
    requires
        holdings_ok(old(hs)@),
    ensures
        holdings_ok(final(hs)@),
        final(hs)@.len() == old(hs)@.len(),
        forall|i: int| 0 <= i < old(hs)@.len() ==> #[trigger] final(hs)@[i].slots == old(hs)@[i].slots,
        forall|i: int|
            0 <= i < old(hs)@.len() && (#[trigger] old(hs)@[i]).owner != who ==> final(hs)@[i]
                == old(hs)@[i],
        forall|i: int|
            0 <= i < old(hs)@.len() && (#[trigger] old(hs)@[i]).owner == who ==> {
                &&& final(hs)@[i].owner == who
                &&& old(hs)@[i].count > 0 ==> final(hs)@[i].count == old(hs)@[i].count - 1
                    && listed(final(hs)@[i]) == listed(old(hs)@[i]).drop_last()
                &&& old(hs)@[i].count == 0 ==> final(hs)@[i] == old(hs)@[i]
            },
{
    match find_holding(hs, who) {
        Some(i) => {
            let c = hs[i].count;
            if c > 0 {
                hs[i].count = c - 1;
                assert(listed(hs@[i as int]) =~= listed(old(hs)@[i as int]).drop_last());
            }
        },
        None => {},
    }
}

/// The token registry: ownership, approvals, metadata and a fixed curator.
/// The caller and the current time of each operation are passed in by the
/// host; notifications accumulate until the host takes them.
pub struct EchoMintNFT {
    total_supply: u64,
    tokens: Vec<TokenEntry>,
    holdings: Vec<Holding>,
    delegations: Vec<Delegation>,
    curator: Identity,
    events: Vec<Event>,
}

impl EchoMintNFT {
    /// Number of tokens ever minted; also the next id to assign.
    pub closed spec fn supply(&self) -> nat {
        self.total_supply as nat
    }

    /// The identity allowed to revise metadata.
    pub closed spec fn curator_spec(&self) -> Identity {
        self.curator
    }

    /// The owner of a token, present exactly when the token exists.
    pub closed spec fn owner_spec(&self, token_id: u64) -> Option<Identity> {
        if (token_id as int) < self.tokens@.len() {
            Some(self.tokens@[token_id as int].owner)
        } else {
            None
        }
    }

    /// The metadata of a token, present exactly when the token exists.
    pub closed spec fn metadata_spec(&self, token_id: u64) -> Option<NFTMetadata> {
        if (token_id as int) < self.tokens@.len() {
            Some(self.tokens@[token_id as int].metadata)
        } else {
            None
        }
    }

    /// The single approval of a token, if one is set.
    pub closed spec fn approved_spec(&self, token_id: u64) -> Option<Identity> {
        if (token_id as int) < self.tokens@.len() {
            self.tokens@[token_id as int].approved
        } else {
            None
        }
    }

    /// Whether `operator` holds a standing approval over all of `owner`'s tokens.
    pub closed spec fn operator_spec(&self, owner: Identity, operator: Identity) -> bool {
        delegated(self.delegations@, owner, operator)
    }

    /// The token list of `who` at positions `0..count`, in order of arrival.
    pub closed spec fn token_list_spec(&self, who: Identity) -> Seq<u64> {
        list_of(self.holdings@, who)
    }

    /// The notifications recorded and not yet taken.
    pub closed spec fn events_spec(&self) -> Seq<Event> {
        self.events@
    }

    /// The owner of each existing token, indexed by token id.
    pub closed spec fn owners(&self) -> Seq<Identity> {
        self.tokens@.map_values(|e: TokenEntry| e.owner)
    }

    /// The balance of `who`: the number of existing tokens that it owns.
    pub open spec fn balance_spec(&self, who: Identity) -> nat {
        count_of(self.owners(), who)
    }

    /// How many of the ids `0..n` are owned by `who`.
    pub open spec fn count_owned_below(&self, who: Identity, n: nat) -> nat
        decreases n,
    {
        if n == 0 {
            0
        } else {
            self.count_owned_below(who, (n - 1) as nat) + if self.owner_spec((n - 1) as u64)
                == Some(who) {
                1nat
            } else {
                0nat
            }
        }
    }

    /// Ownership is the same in `self` and `other`: supply, curator, owners,
    /// balances and token lists.
    pub open spec fn keeps_ownership(&self, other: &Self) -> bool {
        &&& self.supply() == other.supply()
        &&& self.curator_spec() == other.curator_spec()
        &&& forall|x: u64| #[trigger] self.owner_spec(x) == other.owner_spec(x)
        &&& forall|w: Identity| #[trigger] self.balance_spec(w) == other.balance_spec(w)
        &&& forall|w: Identity| #[trigger] self.token_list_spec(w) == other.token_list_spec(w)
    }

    /// Every token's metadata is the same in `self` and `other`.
    pub open spec fn keeps_metadata(&self, other: &Self) -> bool {
        forall|x: u64| #[trigger] self.metadata_spec(x) == other.metadata_spec(x)
    }

    /// Every token's single approval is the same in `self` and `other`.
    pub open spec fn keeps_approvals(&self, other: &Self) -> bool {
        forall|x: u64| #[trigger] self.approved_spec(x) == other.approved_spec(x)
    }

    /// Every standing approval is the same in `self` and `other`.
    pub open spec fn keeps_operators(&self, other: &Self) -> bool {
        forall|a: Identity, b: Identity| #[trigger] self.operator_spec(a, b) == other.operator_spec(a, b)
    }

    /// Whether `caller` may move `token_id`: the token exists and the caller
    /// is its owner, its single approval, or an operator of its owner.
    pub open spec fn may_transfer(&self, caller: Identity, token_id: u64) -> bool {
        match self.owner_spec(token_id) {
            Some(o) => caller == o || self.approved_spec(token_id) == Some(caller)
                || self.operator_spec(o, caller),
            None => false,
        }
    }

    /// Whether `caller` may set the single approval of `token_id`: the token
    /// exists and the caller is its owner or an operator of its owner.
    pub open spec fn may_approve(&self, caller: Identity, token_id: u64) -> bool {
        match self.owner_spec(token_id) {
            Some(o) => caller == o || self.operator_spec(o, caller),
            None => false,
        }
    }

    /// The registry's internal consistency.
    pub closed spec fn wf(&self) -> bool {
        &&& self.tokens@.len() == self.total_supply
        &&& holdings_ok(self.holdings@)
        &&& slots_below(self.holdings@, self.total_supply as nat)
        &&& names_ok(self.tokens@)
        &&& delegations_ok(self.delegations@)
        &&& forall|i: int|
            0 <= i < self.holdings@.len() ==> (#[trigger] self.holdings@[i]).count
                == self.balance_spec(self.holdings@[i].owner)
        &&& forall|who: Identity|
            #[trigger] self.balance_spec(who) > 0 ==> exists|i: int|
                0 <= i < self.holdings@.len() && #[trigger] self.holdings@[i].owner == who
    }

    proof fn lemma_wf_frame(a: &Self, b: &Self)
        requires
            a.wf(),
            b.owners() == a.owners(),
            b.holdings@ == a.holdings@,
            b.total_supply == a.total_supply,
            names_ok(b.tokens@),
            delegations_ok(b.delegations@),
        ensures
            b.wf(),
    {
        assert(b.tokens@.len() == b.owners().len());
        assert forall|w: Identity| #[trigger] b.balance_spec(w) == a.balance_spec(w) by {}
        assert forall|i: int| 0 <= i < b.holdings@.len() implies (#[trigger] b.holdings@[i]).count
            == b.balance_spec(b.holdings@[i].owner) by {
            assert(a.holdings@[i].count == a.balance_spec(a.holdings@[i].owner));
        }
        assert forall|w: Identity| #[trigger] b.balance_spec(w) > 0 implies exists|i: int|
            0 <= i < b.holdings@.len() && #[trigger] b.holdings@[i].owner == w by {
            assert(a.balance_spec(w) > 0);
        }
    }

    proof fn lemma_count_prefix(&self, who: Identity, n: nat)
        requires
            self.wf(),
            n <= self.supply(),
        ensures
            self.count_owned_below(who, n) == count_of(self.owners().subrange(0, n as int), who),
        decreases n,
    {
        if n > 0 {
            self.lemma_count_prefix(who, (n - 1) as nat);
            let s = self.owners().subrange(0, n as int);
            assert(s.drop_last() =~= self.owners().subrange(0, n - 1));
            assert(s.last() == self.owners()[n - 1]);
        }
    }

    /// A token id has at most one owner, and it has one exactly when the id is
    /// below the supply; a token has metadata exactly when it has an owner.
    pub proof fn lemma_owner_exclusive(&self, token_id: u64, a: Identity, b: Identity)
        requires
            self.wf(),
        ensures
            self.owner_spec(token_id) is Some <==> (token_id as nat) < self.supply(),
            self.metadata_spec(token_id) is Some <==> self.owner_spec(token_id) is Some,
            self.owner_spec(token_id) == Some(a) && self.owner_spec(token_id) == Some(b) ==> a == b,
            (token_id as nat) >= self.supply() ==> self.approved_spec(token_id) == None::<Identity>,
    {
    }

    /// Over a history of registries that starts fresh, where every step either
    /// mints one token (the supply grows by one, as a successful `mint`
    /// ensures) or keeps the supply (as every other operation ensures), the
    /// supply at the end is the number of minting steps.
    pub proof fn lemma_supply_counts_mints(history: Seq<Self>, minted: Seq<bool>)
        requires
            history.len() == minted.len() + 1,
            history[0].supply() == 0,
            forall|i: int|
                0 <= i < minted.len() ==> #[trigger] history[i + 1].supply() == history[i].supply()
                    + if minted[i] {
                    1nat
                } else {
                    0nat
                },
        ensures
            history.last().supply() == count_true(minted),
        decreases minted.len(),
    {
        if minted.len() > 0 {
            let h = history.drop_last();
            let m = minted.drop_last();
            assert forall|i: int| 0 <= i < m.len() implies #[trigger] h[i + 1].supply()
                == h[i].supply() + if m[i] {
                1nat
            } else {
                0nat
            } by {
                assert(history[i + 1].supply() == history[i].supply() + if minted[i] {
                    1nat
                } else {
                    0nat
                });
            }
            Self::lemma_supply_counts_mints(h, m);
            let j = minted.len() - 1;
            assert(h.last() == history[j]);
            assert(history[j + 1].supply() == history[j].supply() + if minted[j] {
                1nat
            } else {
                0nat
            });
            assert(history.last() == history[j + 1]);
        }
    }

    /// Over a history that starts with a successful transfer of `token_id`
    /// (which clears its single approval), where no later step sets that
    /// approval (every operation but a successful `approve` of `token_id`
    /// keeps it or clears it), the token still has no single approval.
    pub proof fn lemma_approval_stays_cleared(history: Seq<Self>, token_id: u64)
        requires
            history.len() >= 1,
            history[0].approved_spec(token_id) == None::<Identity>,
            forall|i: int|
                0 <= i < history.len() - 1 ==> #[trigger] history[i + 1].approved_spec(token_id)
                    == history[i].approved_spec(token_id) || history[i + 1].approved_spec(
                    token_id,
                ) == None::<Identity>,
        ensures
            history.last().approved_spec(token_id) == None::<Identity>,
        decreases history.len(),
    {
        if history.len() > 1 {
            let h = history.drop_last();
            assert forall|i: int| 0 <= i < h.len() - 1 implies #[trigger] h[i + 1].approved_spec(
                token_id,
            ) == h[i].approved_spec(token_id) || h[i + 1].approved_spec(token_id) == None::<
                Identity,
            > by {
                assert(history[i + 1].approved_spec(token_id) == history[i].approved_spec(token_id)
                    || history[i + 1].approved_spec(token_id) == None::<Identity>);
            }
            Self::lemma_approval_stays_cleared(h, token_id);
            let j = history.len() - 2;
            assert(history[j] == h.last());
            assert(history[j + 1].approved_spec(token_id) == history[j].approved_spec(token_id)
                || history[j + 1].approved_spec(token_id) == None::<Identity>);
            assert(history.last() == history[j + 1]);
        }
    }

    /// Over a history where no step changes the metadata of `token_id` (every
    /// operation but a successful `update_mood` or `update_image` of that
    /// token keeps it), the metadata at the end is what it was at the start,
    /// so a mood set by the curator stays until the curator changes it.
    pub proof fn lemma_metadata_stays(history: Seq<Self>, token_id: u64)
        requires
            history.len() >= 1,
            forall|i: int|
                0 <= i < history.len() - 1 ==> #[trigger] history[i + 1].metadata_spec(token_id)
                    == history[i].metadata_spec(token_id),
        ensures
            history.last().metadata_spec(token_id) == history[0].metadata_spec(token_id),
        decreases history.len(),
    {
        if history.len() > 1 {
            let h = history.drop_last();
            assert forall|i: int| 0 <= i < h.len() - 1 implies #[trigger] h[i + 1].metadata_spec(
                token_id,
            ) == h[i].metadata_spec(token_id) by {
                assert(history[i + 1].metadata_spec(token_id) == history[i].metadata_spec(token_id));
            }
            Self::lemma_metadata_stays(h, token_id);
            let j = history.len() - 2;
            assert(history[j] == h.last());
            assert(history[j + 1].metadata_spec(token_id) == history[j].metadata_spec(token_id));
            assert(history.last() == history[j + 1]);
        }
    }

    /// The token list of every identity is as long as its balance, and lists
    /// only minted ids.
    pub proof fn lemma_token_list_bounds(&self, who: Identity)
        requires
            self.wf(),
        ensures
            self.token_list_spec(who).len() == self.balance_spec(who),
            forall|i: int|
                0 <= i < self.token_list_spec(who).len() ==> (#[trigger] self.token_list_spec(
                    who,
                )[i] as nat) < self.supply(),
    {
        let hs = self.holdings@;
        if exists|k: int| 0 <= k < hs.len() && #[trigger] hs[k].owner == who {
            let k = choose|k: int| 0 <= k < hs.len() && #[trigger] hs[k].owner == who;
            lemma_list_at(hs, k);
            assert(hs[k].count == self.balance_spec(who));
            assert forall|i: int| 0 <= i < self.token_list_spec(who).len() implies (
            #[trigger] self.token_list_spec(who)[i] as nat) < self.supply() by {
                assert(self.token_list_spec(who)[i] == hs[k].slots@[i]);
            }
        } else {
            lemma_list_none(hs, who);
            if self.balance_spec(who) > 0 {
                let k = choose|k: int| 0 <= k < hs.len() && #[trigger] hs[k].owner == who;
            }
        }
    }

    /// Every token's display name is derived from its coin and its id.
    pub proof fn lemma_display_name(&self, token_id: u64)
        requires
            self.wf(),
        ensures
            self.metadata_spec(token_id) matches Some(m) ==> m.name@ == display_name_spec(
                m.coin@,
                token_id as nat,
            ),
    {
        if (token_id as int) < self.tokens@.len() {
            assert(self.tokens@[token_id as int].metadata.name@ == display_name_spec(
                self.tokens@[token_id as int].metadata.coin@,
                token_id as nat,
            ));
        }
    }

    /// The balance of every identity is the number of token ids whose owner
    /// it is.
    pub proof fn lemma_balance_counts_owned(&self, who: Identity)
        requires
            self.wf(),
        ensures
            self.balance_spec(who) == self.count_owned_below(who, self.supply()),
    {
        self.lemma_count_prefix(who, self.supply());
        assert(self.owners().subrange(0, self.supply() as int) =~= self.owners());
    }

    /// The position of an existing token in the token list: its id.
    fn position(&self, token_id: u64) -> (r: usize)
        requires
            (token_id as int) < self.tokens@.len(),
        ensures
            r as int == token_id as int,
    {
        let len = self.tokens.len();
        assert(token_id < len);
        token_id as usize
    }

    /// A registry with no tokens whose curator is `caller`.
    pub fn new(caller: Identity) -> (r: Self)
        ensures
            r.wf(),
            r.supply() == 0,
            r.curator_spec() == caller,
            forall|id: u64| #[trigger] r.owner_spec(id) == None::<Identity>,
            forall|id: u64| #[trigger] r.metadata_spec(id) == None::<NFTMetadata>,
            forall|id: u64| #[trigger] r.approved_spec(id) == None::<Identity>,
            forall|who: Identity| #[trigger] r.balance_spec(who) == 0,
            forall|who: Identity| #[trigger] r.token_list_spec(who) == Seq::<u64>::empty(),
            forall|a: Identity, b: Identity| !#[trigger] r.operator_spec(a, b),
            r.events_spec() == Seq::<Event>::empty(),
    {
        let r = EchoMintNFT {
            total_supply: 0,
            tokens: Vec::new(),
            holdings: Vec::new(),
            delegations: Vec::new(),
            curator: caller,
            events: Vec::new(),
        };
        assert(r.owners() =~= Seq::<Identity>::empty());
        r
    }

    /// Creates token `total_supply` for `to`, with the display name derived
    /// from `coin` and the id, the placeholder image, and `now` as both
    /// timestamps. Anyone may mint. The last id of the `u64` range is never
    /// assigned, so that the supply stays a count of existing tokens.
    #[verifier::rlimit(50)]
    pub fn mint(&mut self, now: u64, to: Identity, coin: String, initial_mood: MoodState) -> (r:
        Result<u64, Error>)
        requires
            old(self).wf(),
        ensures
            final(self).wf(),
            r is Ok <==> old(self).supply() < u64::MAX,
            match r {
                Ok(id) => {
                    &&& id == old(self).supply()
                    &&& final(self).supply() == old(self).supply() + 1
                    &&& final(self).curator_spec() == old(self).curator_spec()
                    &&& final(self).owner_spec(id) == Some(to)
                    &&& final(self).approved_spec(id) == None::<Identity>
                    &&& forall|x: u64|
                        x != id ==> #[trigger] final(self).owner_spec(x) == old(self).owner_spec(x)
                    &&& final(self).metadata_spec(id) matches Some(m) && m.name@ == display_name_spec(
                        coin@,
                        id as nat,
                    ) && m.coin@ == coin@ && m.mood == initial_mood && m.image_url@
                        == placeholder_image() && m.created_at == now && m.last_updated == now
                    &&& forall|x: u64|
                        x != id ==> #[trigger] final(self).metadata_spec(x) == old(
                            self,
                        ).metadata_spec(x)
                    &&& forall|x: u64| #[trigger]
                        final(self).approved_spec(x) == old(self).approved_spec(x)
                    &&& forall|a: Identity, b: Identity| #[trigger]
                        final(self).operator_spec(a, b) == old(self).operator_spec(a, b)
                    &&& forall|w: Identity| #[trigger]
                        final(self).balance_spec(w) == old(self).balance_spec(w) + if w == to {
                            1nat
                        } else {
                            0nat
                        }
                    &&& final(self).token_list_spec(to) == old(self).token_list_spec(to).push(id)
                    &&& forall|w: Identity|
                        w != to ==> #[trigger] final(self).token_list_spec(w) == old(
                            self,
                        ).token_list_spec(w)
                    &&& final(self).events_spec() == old(self).events_spec() + seq![
                        Event::Transfer(Transfer { from: None, to: Some(to), token_id: id }),
                        Event::Minted(Minted { token_id: id, owner: to, coin }),
                    ]
                },
                Err(e) => e == Error::TokenAlreadyExists && *final(self) == *old(self),
            },
    {
        let token_id = self.total_supply;
        if token_id == u64::MAX || self.owner_of(token_id).is_some() {
            return Err(Error::TokenAlreadyExists);
        }
        let ghost s0 = *self;
        let placeholder = "ipfs://placeholder";
        let metadata = NFTMetadata {
            name: display_name(coin.as_str(), token_id),
            coin: coin.clone(),
            mood: initial_mood,
            image_url: String::from_str(placeholder),
            created_at: now,
            last_updated: now,
        };
        self.tokens.push(TokenEntry { owner: to, approved: None, metadata });
        self.total_supply = token_id + 1;
        let ghost s1 = *self;
        proof {
            assert forall|w: Identity| #[trigger]
                s1.balance_spec(w) == s0.balance_spec(w) + if w == to {
                    1nat
                } else {
                    0nat
                } by {
                assert(s1.owners() =~= s0.owners().push(to));
                lemma_count_push(s0.owners(), to, w);
            }
            lemma_count_bounds(s0.owners(), to, 0);
            assert forall|i: int|
                0 <= i < s0.holdings@.len() && #[trigger] s0.holdings@[i].owner == to implies s0.holdings@[i].count
                < u64::MAX by {}
        }
        add_to_holding(&mut self.holdings, to, token_id, Ghost(self.total_supply as nat));
        let ghost s2 = *self;
        proof {
            let hs0 = s0.holdings@;
            let hs = self.holdings@;
            assert forall|i: int| 0 <= i < hs.len() implies (#[trigger] hs[i]).count
                == self.balance_spec(hs[i].owner) by {
                if i < hs0.len() {
                    let w = hs0[i].owner;
                    assert(hs[i].owner == w);
                    assert(hs0[i].count == s0.balance_spec(w));
                    assert(s2.balance_spec(w) == s1.balance_spec(w));
                } else {
                    assert(hs.len() > hs0.len());
                    assert(hs[i] == hs.last());
                    if s0.balance_spec(to) > 0 {
                        let k = choose|k: int| 0 <= k < hs0.len() && #[trigger] hs0[k].owner == to;
                        assert(hs0[k].owner != to);
                    }
                    assert(s2.balance_spec(to) == s1.balance_spec(to));
                }
            }
            assert forall|w: Identity| #[trigger] self.balance_spec(w) > 0 implies exists|i: int|
                0 <= i < hs.len() && #[trigger] hs[i].owner == w by {
                if w == to {
                    if hs.len() > hs0.len() {
                        assert(hs[hs.len() - 1].owner == w);
                    } else {
                        let k = choose|k: int| 0 <= k < hs0.len() && #[trigger] hs0[k].owner == w;
                        assert(hs[k].owner == w);
                    }
                } else {
                    assert(s2.balance_spec(w) == s1.balance_spec(w));
                    assert(s0.balance_spec(w) > 0);
                    let k = choose|k: int| 0 <= k < hs0.len() && #[trigger] hs0[k].owner == w;
                    assert(hs[k].owner == w);
                }
            }
            assert forall|w: Identity| true implies #[trigger] self.token_list_spec(w) == if w == to {
                s0.token_list_spec(to).push(token_id)
            } else {
                s0.token_list_spec(w)
            } by {
                if exists|k: int| 0 <= k < hs0.len() && #[trigger] hs0[k].owner == w {
                    let k = choose|k: int| 0 <= k < hs0.len() && #[trigger] hs0[k].owner == w;
                    lemma_list_at(s0.holdings@, k);
                    lemma_list_at(self.holdings@, k);
                } else if w == to {
                    lemma_list_none(s0.holdings@, w);
                    lemma_list_at(self.holdings@, hs.len() - 1);
                } else {
                    lemma_list_none(s0.holdings@, w);
                    assert forall|i: int| 0 <= i < hs.len() implies #[trigger] hs[i].owner != w by {
                        if i < hs0.len() {
                            assert(hs[i].owner == hs0[i].owner);
                        }
                    }
                    lemma_list_none(self.holdings@, w);
                }
            }
        }
        self.events.push(Event::Transfer(Transfer { from: None, to: Some(to), token_id }));
        self.events.push(Event::Minted(Minted { token_id, owner: to, coin }));
        proof {
            assert(self.owners() == s2.owners());
            assert forall|w: Identity| #[trigger] self.balance_spec(w) == s2.balance_spec(w) by {}
            assert forall|w: Identity| #[trigger] self.balance_spec(w) == s0.balance_spec(w) + if w == to {
                1nat
            } else {
                0nat
            } by {
                assert(s2.balance_spec(w) == s1.balance_spec(w));
            }
            assert(s2.token_list_spec(to) == s0.token_list_spec(to).push(token_id));
            assert forall|w: Identity| w != to implies #[trigger] self.token_list_spec(w) == s0.token_list_spec(w) by {
                assert(s2.token_list_spec(w) == s0.token_list_spec(w));
            }
            assert(self.events@ =~= s0.events@ + seq![
                Event::Transfer(Transfer { from: None, to: Some(to), token_id }),
                Event::Minted(Minted { token_id, owner: to, coin }),
            ]);
        }
        Ok(token_id)
    }

    /// Moves `token_id` to `to` on behalf of `caller`, who must be the owner,
    /// the token's single approval, or an operator of the owner. The single
    /// approval is cleared. The previous owner's list loses its last position,
    /// whichever token stands there; the receiver's list gains `token_id`.
    #[verifier::rlimit(50)]
    pub fn transfer(&mut self, caller: Identity, to: Identity, token_id: u64) -> (r: Result<
        (),
        Error,
    >)
        requires
            old(self).wf(),
        ensures
            final(self).wf(),
            r == if old(self).owner_spec(token_id) is None {
                Err(Error::TokenNotFound)
            } else if !old(self).may_transfer(caller, token_id) {
                Err(Error::NotApproved)
            } else if to.is_zero_spec() {
                Err(Error::TransferToZeroAddress)
            } else {
                Ok(())
            },
            r is Err ==> *final(self) == *old(self),
            r is Ok ==> {
                let from = old(self).owner_spec(token_id)->Some_0;
                &&& final(self).supply() == old(self).supply()
                &&& final(self).curator_spec() == old(self).curator_spec()
                &&& final(self).owner_spec(token_id) == Some(to)
                &&& forall|x: u64|
                    x != token_id ==> #[trigger] final(self).owner_spec(x) == old(self).owner_spec(x)
                &&& final(self).approved_spec(token_id) == None::<Identity>
                &&& forall|x: u64|
                    x != token_id ==> #[trigger] final(self).approved_spec(x) == old(
                        self,
                    ).approved_spec(x)
                &&& forall|x: u64| #[trigger]
                    final(self).metadata_spec(x) == old(self).metadata_spec(x)
                &&& forall|a: Identity, b: Identity| #[trigger]
                    final(self).operator_spec(a, b) == old(self).operator_spec(a, b)
                &&& forall|w: Identity| #[trigger]
                    final(self).balance_spec(w) + (if w == from { 1nat } else { 0nat })
                        == old(self).balance_spec(w) + (if w == to { 1nat } else { 0nat })
                &&& final(self).token_list_spec(to) == if to == from {
                    old(self).token_list_spec(from).drop_last()
                } else {
                    old(self).token_list_spec(to)
                }.push(token_id)
                &&& to != from ==> final(self).token_list_spec(from) == old(self).token_list_spec(
                    from,
                ).drop_last()
                &&& forall|w: Identity|
                    w != to && w != from ==> #[trigger] final(self).token_list_spec(w) == old(
                        self,
                    ).token_list_spec(w)
                &&& final(self).events_spec() == old(self).events_spec().push(
                    Event::Transfer(Transfer { from: Some(from), to: Some(to), token_id }),
                )
            },
    {
        let owner = match self.owner_of(token_id) {
            Some(o) => o,
            None => return Err(Error::TokenNotFound),
        };
        if !(caller == owner) && !self.is_approved_or_owner(caller, token_id) {
            return Err(Error::NotApproved);
        }
        if to.is_zero() {
            return Err(Error::TransferToZeroAddress);
        }
        let ghost s0 = *self;
        let p = self.position(token_id);
        self.tokens[p].approved = None;
        self.tokens[p].owner = to;
        let ghost s1 = *self;
        proof {
            assert(s1.owners() =~= s0.owners().update(token_id as int, to));
            assert forall|w: Identity| #[trigger]
                s1.balance_spec(w) + (if w == owner { 1nat } else { 0nat })
                    == s0.balance_spec(w) + (if w == to { 1nat } else { 0nat }) by {
                lemma_count_update(s0.owners(), token_id as int, to, w);
            }
            assert(s0.owners()[token_id as int] == owner);
            lemma_count_bounds(s0.owners(), owner, token_id as int);
            assert(s0.balance_spec(owner) > 0);
            lemma_count_bounds(s0.owners(), to, token_id as int);
        }
        remove_from_holding(&mut self.holdings, owner);
        let ghost hm = self.holdings@;
        proof {
            let hs0 = s0.holdings@;
            assert forall|i: int|
                0 <= i < hm.len() && #[trigger] hm[i].owner == to implies hm[i].count
                < u64::MAX by {
                assert(hs0[i].count == s0.balance_spec(hs0[i].owner));
            }
        }
        add_to_holding(&mut self.holdings, to, token_id, Ghost(self.total_supply as nat));
        let ghost s2 = *self;
        proof {
            let hs0 = s0.holdings@;
            let hs = s2.holdings@;
            assert(s2.owners() == s1.owners());
            assert forall|i: int| 0 <= i < hs.len() implies (#[trigger] hs[i]).count
                == s2.balance_spec(hs[i].owner) by {
                if i < hs0.len() {
                    let w = hs0[i].owner;
                    assert(hm[i].owner == w);
                    assert(hs[i].owner == w);
                    assert(hs0[i].count == s0.balance_spec(w));
                    assert(s2.balance_spec(w) == s1.balance_spec(w));
                } else {
                    assert(hs.len() > hm.len());
                    assert(hs[i] == hs.last());
                    if s0.balance_spec(to) > 0 {
                        let k = choose|k: int| 0 <= k < hs0.len() && #[trigger] hs0[k].owner == to;
                        assert(hm[k].owner == to);
                    }
                    if to == owner {
                        let k = choose|k: int| 0 <= k < hs0.len() && #[trigger] hs0[k].owner == to;
                        assert(hm[k].owner == to);
                    }
                    assert(s2.balance_spec(to) == s1.balance_spec(to));
                }
            }
            assert forall|w: Identity| #[trigger] s2.balance_spec(w) > 0 implies exists|i: int|
                0 <= i < hs.len() && #[trigger] hs[i].owner == w by {
                assert(s2.balance_spec(w) == s1.balance_spec(w));
                if w == to {
                    if hs.len() > hm.len() {
                        assert(hs[hs.len() - 1].owner == w);
                    } else {
                        let k = choose|k: int| 0 <= k < hm.len() && #[trigger] hm[k].owner == w;
                        assert(hs[k].owner == w);
                    }
                } else {
                    assert(s0.balance_spec(w) > 0);
                    let k = choose|k: int| 0 <= k < hs0.len() && #[trigger] hs0[k].owner == w;
                    assert(hm[k].owner == w);
                    assert(hs[k].owner == w);
                }
            }
            assert forall|w: Identity| true implies #[trigger] list_of(hs, w) == if w == to {
                if to == owner {
                    list_of(hs0, owner).drop_last()
                } else {
                    list_of(hs0, to)
                }.push(token_id)
            } else if w == owner {
                list_of(hs0, owner).drop_last()
            } else {
                list_of(hs0, w)
            } by {
                if exists|k: int| 0 <= k < hs0.len() && #[trigger] hs0[k].owner == w {
                    let k = choose|k: int| 0 <= k < hs0.len() && #[trigger] hs0[k].owner == w;
                    lemma_list_at(hs0, k);
                    lemma_list_at(hm, k);
                    lemma_list_at(hs, k);
                    if w == owner {
                        assert(hs0[k].count == s0.balance_spec(owner));
                    }
                } else if w == to {
                    lemma_list_none(hs0, w);
                    lemma_list_at(hs, hs.len() - 1);
                } else {
                    lemma_list_none(hs0, w);
                    assert forall|i: int| 0 <= i < hs.len() implies #[trigger] hs[i].owner != w by {
                        if i < hs0.len() {
                            assert(hm[i].owner == hs0[i].owner);
                        }
                    }
                    lemma_list_none(hs, w);
                }
            }
        }
        self.events.push(Event::Transfer(Transfer { from: Some(owner), to: Some(to), token_id }));
        proof {
            assert(self.owners() == s2.owners());
            assert forall|w: Identity| #[trigger] self.balance_spec(w) == s2.balance_spec(w) by {}
            assert forall|w: Identity| #[trigger]
                self.balance_spec(w) + (if w == owner { 1nat } else { 0nat })
                    == s0.balance_spec(w) + (if w == to { 1nat } else { 0nat }) by {
                assert(s2.balance_spec(w) == s1.balance_spec(w));
            }
        }
        Ok(())
    }

    /// Sets the single approval of `token_id` to `to` (the zero identity
    /// included) on behalf of `caller`, who must be the owner or an operator
    /// of the owner.
    pub fn approve(&mut self, caller: Identity, to: Identity, token_id: u64) -> (r: Result<
        (),
        Error,
    >)
        requires
            old(self).wf(),
        ensures
            final(self).wf(),
            r == if old(self).owner_spec(token_id) is None {
                Err(Error::TokenNotFound)
            } else if !old(self).may_approve(caller, token_id) {
                Err(Error::NotApproved)
            } else {
                Ok(())
            },
            r is Err ==> *final(self) == *old(self),
            r is Ok ==> {
                &&& final(self).keeps_ownership(old(self))
                &&& final(self).keeps_metadata(old(self))
                &&& final(self).keeps_operators(old(self))
                &&& final(self).approved_spec(token_id) == Some(to)
                &&& forall|x: u64|
                    x != token_id ==> #[trigger] final(self).approved_spec(x) == old(
                        self,
                    ).approved_spec(x)
                &&& final(self).events_spec() == old(self).events_spec().push(
                    Event::Approval(
                        Approval {
                            owner: old(self).owner_spec(token_id)->Some_0,
                            approved: to,
                            token_id,
                        },
                    ),
                )
            },
    {
        let owner = match self.owner_of(token_id) {
            Some(o) => o,
            None => return Err(Error::TokenNotFound),
        };
        if !(caller == owner) && !self.is_operator_approved(owner, caller) {
            return Err(Error::NotApproved);
        }
        let ghost s0 = *self;
        let p = self.position(token_id);
        self.tokens[p].approved = Some(to);
        self.events.push(Event::Approval(Approval { owner, approved: to, token_id }));
        proof {
            assert(self.owners() =~= s0.owners());
            Self::lemma_wf_frame(&s0, self);
        }
        Ok(())
    }

    /// Grants (`approved`) or revokes a standing approval of `operator` over
    /// all of `caller`'s tokens. It always succeeds.
    pub fn set_approval_for_all(&mut self, caller: Identity, operator: Identity, approved: bool) -> (r:
        Result<(), Error>)
        requires
            old(self).wf(),
        ensures
            final(self).wf(),
            r is Ok,
            final(self).keeps_ownership(old(self)),
            final(self).keeps_metadata(old(self)),
            final(self).keeps_approvals(old(self)),
            forall|a: Identity, b: Identity| #[trigger]
                final(self).operator_spec(a, b) == if a == caller && b == operator {
                    approved
                } else {
                    old(self).operator_spec(a, b)
                },
            final(self).events_spec() == old(self).events_spec().push(
                Event::ApprovalForAll(ApprovalForAll { owner: caller, operator, approved }),
            ),
    {
        let ghost s0 = *self;
        let ghost d0 = self.delegations@;
        match self.find_delegation(caller, operator) {
            Some(i) => {
                self.delegations[i].approved = approved;
                proof {
                    let d = self.delegations@;
                    assert forall|a: Identity, b: Identity| #[trigger]
                        delegated(d, a, b) == if a == caller && b == operator {
                            approved
                        } else {
                            delegated(d0, a, b)
                        } by {
                        if a == caller && b == operator {
                            if approved {
                                assert(d[i as int].owner == a);
                            } else if delegated(d, a, b) {
                                let k = choose|k: int|
                                    0 <= k < d.len() && #[trigger] d[k].owner == a && d[k].operator
                                        == b && d[k].approved;
                                assert(k == i);
                            }
                        } else {
                            if delegated(d, a, b) {
                                let k = choose|k: int|
                                    0 <= k < d.len() && #[trigger] d[k].owner == a && d[k].operator
                                        == b && d[k].approved;
                                assert(d0[k].owner == a);
                            }
                            if delegated(d0, a, b) {
                                let k = choose|k: int|
                                    0 <= k < d0.len() && #[trigger] d0[k].owner == a
                                        && d0[k].operator == b && d0[k].approved;
                                assert(d[k].owner == a);
                            }
                        }
                    }
                }
            },
            None => {
                self.delegations.push(Delegation { owner: caller, operator, approved });
                proof {
                    let d = self.delegations@;
                    assert forall|a: Identity, b: Identity| #[trigger]
                        delegated(d, a, b) == if a == caller && b == operator {
                            approved
                        } else {
                            delegated(d0, a, b)
                        } by {
                        if a == caller && b == operator {
                            if approved {
                                assert(d[d.len() - 1].owner == a);
                            } else if delegated(d, a, b) {
                                let k = choose|k: int|
                                    0 <= k < d.len() && #[trigger] d[k].owner == a && d[k].operator
                                        == b && d[k].approved;
                                assert(d0[k].owner == a);
                            }
                        } else {
                            if delegated(d, a, b) {
                                let k = choose|k: int|
                                    0 <= k < d.len() && #[trigger] d[k].owner == a && d[k].operator
                                        == b && d[k].approved;
                                assert(d0[k].owner == a);
                            }
                            if delegated(d0, a, b) {
                                let k = choose|k: int|
                                    0 <= k < d0.len() && #[trigger] d0[k].owner == a
                                        && d0[k].operator == b && d0[k].approved;
                                assert(d[k].owner == a);
                            }
                        }
                    }
                }
            },
        }
        self.events.push(
            Event::ApprovalForAll(ApprovalForAll { owner: caller, operator, approved }),
        );
        proof {
            let d = self.delegations@;
            assert forall|i: int, j: int|
                0 <= i < d.len() && 0 <= j < d.len() && i != j implies !(#[trigger] d[i].owner
                == #[trigger] d[j].owner && d[i].operator == d[j].operator) by {
                if i < d0.len() && j < d0.len() {
                    assert(d0[i].owner == d[i].owner && d0[j].owner == d[j].owner);
                }
            }
            Self::lemma_wf_frame(&s0, self);
        }
        Ok(())
    }

    /// Sets the mood of `token_id` and stamps it with `now`; only the curator
    /// may do so, whoever owns the token.
    pub fn update_mood(&mut self, caller: Identity, now: u64, token_id: u64, new_mood: MoodState) -> (r:
        Result<(), Error>)
        requires
            old(self).wf(),
        ensures
            final(self).wf(),
            r == if caller != old(self).curator_spec() {
                Err(Error::NotOwner)
            } else if old(self).metadata_spec(token_id) is None {
                Err(Error::TokenNotFound)
            } else {
                Ok(())
            },
            r is Err ==> *final(self) == *old(self),
            r is Ok ==> {
                let m0 = old(self).metadata_spec(token_id)->Some_0;
                &&& final(self).keeps_ownership(old(self))
                &&& final(self).keeps_approvals(old(self))
                &&& final(self).keeps_operators(old(self))
                &&& final(self).metadata_spec(token_id) == Some(
                    NFTMetadata { mood: new_mood, last_updated: now, ..m0 },
                )
                &&& forall|x: u64|
                    x != token_id ==> #[trigger] final(self).metadata_spec(x) == old(
                        self,
                    ).metadata_spec(x)
                &&& final(self).events_spec() == old(self).events_spec().push(
                    Event::MoodUpdated(MoodUpdated { token_id, new_mood }),
                )
            },
    {
        if !(caller == self.curator) {
            return Err(Error::NotOwner);
        }
        if token_id >= self.total_supply {
            return Err(Error::TokenNotFound);
        }
        let ghost s0 = *self;
        let p = self.position(token_id);
        self.tokens[p].metadata.mood = new_mood;
        self.tokens[p].metadata.last_updated = now;
        self.events.push(Event::MoodUpdated(MoodUpdated { token_id, new_mood }));
        proof {
            assert(self.owners() =~= s0.owners());
            Self::lemma_wf_frame(&s0, self);
        }
        Ok(())
    }

    /// Sets the image reference of `token_id` and stamps it with `now`; only
    /// the curator may do so. No event is recorded for this change.
    pub fn update_image(&mut self, caller: Identity, now: u64, token_id: u64, new_image_url: String) -> (r:
        Result<(), Error>)
        requires
            old(self).wf(),
        ensures
            final(self).wf(),
            r == if caller != old(self).curator_spec() {
                Err(Error::NotOwner)
            } else if old(self).metadata_spec(token_id) is None {
                Err(Error::TokenNotFound)
            } else {
                Ok(())
            },
            r is Err ==> *final(self) == *old(self),
            r is Ok ==> {
                let m0 = old(self).metadata_spec(token_id)->Some_0;
                &&& final(self).keeps_ownership(old(self))
                &&& final(self).keeps_approvals(old(self))
                &&& final(self).keeps_operators(old(self))
                &&& final(self).metadata_spec(token_id) == Some(
                    NFTMetadata { image_url: new_image_url, last_updated: now, ..m0 },
                )
                &&& forall|x: u64|
                    x != token_id ==> #[trigger] final(self).metadata_spec(x) == old(
                        self,
                    ).metadata_spec(x)
                &&& final(self).events_spec() == old(self).events_spec()
            },
    {
        if !(caller == self.curator) {
            return Err(Error::NotOwner);
        }
        if token_id >= self.total_supply {
            return Err(Error::TokenNotFound);
        }
        let ghost s0 = *self;
        let p = self.position(token_id);
        self.tokens[p].metadata.image_url = new_image_url;
        self.tokens[p].metadata.last_updated = now;
        proof {
            assert(self.owners() =~= s0.owners());
            Self::lemma_wf_frame(&s0, self);
        }
        Ok(())
    }

    /// Hands over the notifications recorded so far, oldest first, and
    /// forgets them.
    pub fn take_events(&mut self) -> (r: Vec<Event>)
        requires
            old(self).wf(),
        ensures
            final(self).wf(),
            r@ == old(self).events_spec(),
            final(self).events_spec() == Seq::<Event>::empty(),
            final(self).keeps_ownership(old(self)),
            final(self).keeps_metadata(old(self)),
            final(self).keeps_approvals(old(self)),
            final(self).keeps_operators(old(self)),
    {
        let mut out: Vec<Event> = Vec::new();
        let ghost s0 = *self;
        std::mem::swap(&mut out, &mut self.events);
        proof {
            Self::lemma_wf_frame(&s0, self);
        }
        out
    }

    pub fn total_supply(&self) -> (r: u64)
        ensures
            r == self.supply(),
    {
        self.total_supply
    }

    pub fn owner_of(&self, token_id: u64) -> (r: Option<Identity>)
        requires
            self.wf(),
        ensures
            r == self.owner_spec(token_id),
    {
        if token_id < self.total_supply {
            Some(self.tokens[self.position(token_id)].owner)
        } else {
            None
        }
    }

    pub fn get_metadata(&self, token_id: u64) -> (r: Option<NFTMetadata>)
        requires
            self.wf(),
        ensures
            r == self.metadata_spec(token_id),
            r matches Some(m) ==> m.name@ == display_name_spec(m.coin@, token_id as nat),
    {
        proof {
            self.lemma_display_name(token_id);
        }
        if token_id < self.total_supply {
            Some(self.tokens[self.position(token_id)].metadata.duplicate())
        } else {
            None
        }
    }

    pub fn get_approved(&self, token_id: u64) -> (r: Option<Identity>)
        requires
            self.wf(),
        ensures
            r == self.approved_spec(token_id),
    {
        if token_id < self.total_supply {
            self.tokens[self.position(token_id)].approved
        } else {
            None
        }
    }

    /// Position of the `(owner, operator)` delegation, if there is one.
    fn find_delegation(&self, owner: Identity, operator: Identity) -> (r: Option<usize>)
        ensures
            match r {
                Some(i) => i < self.delegations@.len() && self.delegations@[i as int].owner
                    == owner && self.delegations@[i as int].operator == operator,
                None => forall|i: int|
                    0 <= i < self.delegations@.len() ==> !(#[trigger] self.delegations@[i].owner
                        == owner && self.delegations@[i].operator == operator),
            },
    {
        let mut i: usize = 0;
        while i < self.delegations.len()
            invariant
                i <= self.delegations@.len(),
                forall|k: int|
                    0 <= k < i ==> !(#[trigger] self.delegations@[k].owner == owner
                        && self.delegations@[k].operator == operator),
            decreases self.delegations@.len() - i,
        {
            if self.delegations[i].owner == owner && self.delegations[i].operator == operator {
                return Some(i);
            }
            i = i + 1;
        }
        None
    }

    pub fn balance_of(&self, owner: Identity) -> (r: u64)
        requires
            self.wf(),
        ensures
            r == self.balance_spec(owner),
            r == self.count_owned_below(owner, self.supply()),
    {
        proof {
            self.lemma_balance_counts_owned(owner);
        }
        match find_holding(&self.holdings, owner) {
            Some(i) => self.holdings[i].count,
            None => 0,
        }
    }

    pub fn is_approved_for_all(&self, owner: Identity, operator: Identity) -> (r: bool)
        requires
            self.wf(),
        ensures
            r == self.operator_spec(owner, operator),
    {
        self.is_operator_approved(owner, operator)
    }

    fn is_operator_approved(&self, owner: Identity, operator: Identity) -> (r: bool)
        requires
            self.wf(),
        ensures
            r == self.operator_spec(owner, operator),
    {
        match self.find_delegation(owner, operator) {
            Some(i) => self.delegations[i].approved,
            None => false,
        }
    }

    fn is_approved_or_owner(&self, caller: Identity, token_id: u64) -> (r: bool)
        requires
            self.wf(),
        ensures
            r == self.may_transfer(caller, token_id),
    {
        let owner = match self.owner_of(token_id) {
            Some(o) => o,
            None => return false,
        };
        if caller == owner {
            return true;
        }
        let single = match self.get_approved(token_id) {
            Some(a) => a == caller,
            None => false,
        };
        single || self.is_approved_for_all(owner, caller)
    }

    pub fn tokens_of_owner(&self, owner: Identity) -> (r: Vec<u64>)
        requires
            self.wf(),
        ensures
            r@ == self.token_list_spec(owner),
            r@.len() == self.balance_spec(owner),
            forall|i: int| 0 <= i < r@.len() ==> (#[trigger] r@[i] as nat) < self.supply(),
    {
        proof {
            self.lemma_token_list_bounds(owner);
        }
        let mut tokens: Vec<u64> = Vec::new();
        match find_holding(&self.holdings, owner) {
            Some(i) => {
                proof {
                    lemma_list_at(self.holdings@, i as int);
                }
                let h = &self.holdings[i];
                let slot_count = h.slots.len();
                let mut k: u64 = 0;
                while k < h.count
                    invariant
                        slot_count == h.slots@.len(),
                        h.count <= h.slots@.len(),
                        k <= h.count,
                        tokens@ == h.slots@.subrange(0, k as int),
                    decreases h.count - k,
                {
                    tokens.push(h.slots[k as usize]);
                    k = k + 1;
                    assert(tokens@ =~= h.slots@.subrange(0, k as int));
                }
            },
            None => {
                proof {
                    lemma_list_none(self.holdings@, owner);
                }
            },
        }
        tokens
    }
}

} // verus!
