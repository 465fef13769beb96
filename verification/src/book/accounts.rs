use vstd::prelude::*;

use std::collections::HashMap;

use crate::types::{AccountId, Qty, Side};

verus! {

broadcast use vstd::std_specs::hash::group_hash_axioms;

/// Per-account aggregates: the realised net position and the open volume on each side.
#[derive(Clone, Copy, Debug, PartialEq, Eq, Structural)]
pub struct AccountState {
    pub net: i128,
    pub open_buy: Qty,
    pub open_sell: Qty,
}

impl AccountState {
    pub open spec fn zero() -> AccountState {
        AccountState { net: 0, open_buy: 0, open_sell: 0 }
    }

    pub open spec fn open_on(self, side: Side) -> Qty {
        match side {
            Side::Buy => self.open_buy,
            Side::Sell => self.open_sell,
        }
    }
}

/// The state of `owner` in `m`; an account that was never touched is all zero.
pub open spec fn state_of(m: Map<AccountId, AccountState>, owner: AccountId) -> AccountState {
    if m.contains_key(owner) {
        m[owner]
    } else {
        AccountState::zero()
    }
}

/// `add_open`: the open volume of `owner` on `side` grows by `qty`.
pub open spec fn add_open_spec(
    m: Map<AccountId, AccountState>,
    owner: AccountId,
    side: Side,
    qty: Qty,
) -> Map<AccountId, AccountState> {
    if owner == 0 || qty == 0 {
        m
    } else {
        let s = state_of(m, owner);
        match side {
            Side::Buy => m.insert(owner, AccountState { open_buy: (s.open_buy + qty) as u64, ..s }),
            Side::Sell => m.insert(
                owner,
                AccountState { open_sell: (s.open_sell + qty) as u64, ..s },
            ),
        }
    }
}

pub open spec fn sat_sub(a: Qty, b: Qty) -> Qty {
    if a >= b {
        (a - b) as u64
    } else {
        0
    }
}

/// `sub_open`: the open volume of a known `owner` on `side` shrinks by `qty`, stopping at zero.
pub open spec fn sub_open_spec(
    m: Map<AccountId, AccountState>,
    owner: AccountId,
    side: Side,
    qty: Qty,
) -> Map<AccountId, AccountState> {
    if owner == 0 || qty == 0 || !m.contains_key(owner) {
        m
    } else {
        let s = m[owner];
        match side {
            Side::Buy => m.insert(owner, AccountState { open_buy: sat_sub(s.open_buy, qty), ..s }),
            Side::Sell => m.insert(
                owner,
                AccountState { open_sell: sat_sub(s.open_sell, qty), ..s },
            ),
        }
    }
}

/// `fill`: a buy of `qty` raises the net position of `owner`, a sell lowers it.
pub open spec fn fill_spec(
    m: Map<AccountId, AccountState>,
    owner: AccountId,
    side: Side,
    qty: Qty,
) -> Map<AccountId, AccountState> {
    if owner == 0 || qty == 0 {
        m
    } else {
        let s = state_of(m, owner);
        match side {
            Side::Buy => m.insert(owner, AccountState { net: (s.net + qty) as i128, ..s }),
            Side::Sell => m.insert(owner, AccountState { net: (s.net - qty) as i128, ..s }),
        }
    }
}

/// `restore_net`: the net position of `owner` is set to `net`.
pub open spec fn restore_net_spec(
    m: Map<AccountId, AccountState>,
    owner: AccountId,
    net: i128,
) -> Map<AccountId, AccountState> {
    if owner == 0 || net == 0 {
        m
    } else {
        m.insert(owner, AccountState { net, ..state_of(m, owner) })
    }
}

/// Every net position in `m` stays `slack` away from the bounds of `i128`.
pub open spec fn nets_within(m: Map<AccountId, AccountState>, slack: nat) -> bool {
    forall|o: AccountId|
        #![trigger m[o]]
        m.contains_key(o) ==> -(i128::MAX - slack) <= m[o].net <= i128::MAX - slack
}


pub proof fn lemma_nets_within_mono(m: Map<AccountId, AccountState>, a: nat, b: nat)
    requires
        nets_within(m, a),
        b <= a,
    ensures
        nets_within(m, b),
{
    assert forall|o: AccountId| #[trigger] m.contains_key(o) implies -(i128::MAX - b) <= m[o].net <= i128::MAX - b by {
        assert(-(i128::MAX - a) <= m[o].net <= i128::MAX - a);
    }
}

pub proof fn lemma_nets_open(m: Map<AccountId, AccountState>, owner: AccountId, side: Side, qty: Qty, k: nat)
    requires
        nets_within(m, k),
        k <= i128::MAX,
    ensures
        nets_within(add_open_spec(m, owner, side, qty), k),
        nets_within(sub_open_spec(m, owner, side, qty), k),
{
    let a = add_open_spec(m, owner, side, qty);
    assert forall|o: AccountId| #[trigger] a.contains_key(o) implies -(i128::MAX - k) <= a[o].net <= i128::MAX - k by {
        if m.contains_key(o) {
            assert(-(i128::MAX - k) <= m[o].net <= i128::MAX - k);
        }
    }
    let b = sub_open_spec(m, owner, side, qty);
    assert forall|o: AccountId| #[trigger] b.contains_key(o) implies -(i128::MAX - k) <= b[o].net <= i128::MAX - k by {
        assert(-(i128::MAX - k) <= m[o].net <= i128::MAX - k);
    }
}

/// The accounts index of the book: the state of each account by id, and the ids in
/// ascending order for listing them.
#[derive(Debug)]
pub struct AccountBook {
    states: HashMap<AccountId, AccountState>,
    owners: Vec<AccountId>,
}

impl AccountBook {
    pub closed spec fn wf(&self) -> bool {
        &&& forall|i: int, j: int|
            0 <= i < j < self.owners@.len() ==> (#[trigger] self.owners@[i]) < (#[trigger] self.owners@[j])
        &&& forall|i: int| 0 <= i < self.owners@.len() ==> self.states@.contains_key(#[trigger] self.owners@[i])
        &&& forall|o: AccountId| #[trigger] self.states@.contains_key(o) ==> self.owners@.contains(o)
        &&& !self.states@.contains_key(0)
    }

    pub closed spec fn view(&self) -> Map<AccountId, AccountState> {
        self.states@
    }

    pub proof fn lemma_no_zero(&self)
        requires
            self.wf(),
        ensures
            !self@.contains_key(0),
    {
    }

    pub fn new() -> (r: Self)
        ensures
            r.wf(),
            r@ == Map::<AccountId, AccountState>::empty(),
    {
        AccountBook { states: HashMap::new(), owners: Vec::new() }
    }

    /// Where a new account id joins the ascending list of ids.
    fn owner_pos(&self, owner: AccountId) -> (k: usize)
        requires
            self.wf(),
            !self.owners@.contains(owner),
        ensures
            k <= self.owners@.len(),
            forall|j: int| 0 <= j < k ==> (#[trigger] self.owners@[j]) < owner,
            forall|j: int| k <= j < self.owners@.len() ==> owner < (#[trigger] self.owners@[j]),
    {
        let mut lo: usize = 0;
        let mut hi: usize = self.owners.len();
        while lo < hi
            invariant
                self.wf(),
                !self.owners@.contains(owner),
                lo <= hi <= self.owners@.len(),
                forall|j: int| 0 <= j < lo ==> (#[trigger] self.owners@[j]) < owner,
                forall|j: int| hi <= j < self.owners@.len() ==> owner < (#[trigger] self.owners@[j]),
            decreases hi - lo,
        {
            let mid = lo + (hi - lo) / 2;
            if self.owners[mid] < owner {
                proof {
                    assert forall|j: int| 0 <= j < mid + 1 implies (#[trigger] self.owners@[j]) < owner by {
                        if j < mid {
                            assert(self.owners@[j] < self.owners@[mid as int]);
                        }
                    }
                }
                lo = mid + 1;
            } else {
                proof {
                    assert(self.owners@[mid as int] != owner);
                    assert forall|j: int| mid <= j < self.owners@.len() implies owner < (#[trigger] self.owners@[j]) by {
                        if j > mid {
                            assert(self.owners@[mid as int] < self.owners@[j]);
                        }
                    }
                }
                hi = mid;
            }
        }
        lo
    }

    /// The state of `owner`, all zero when the account is unknown.
    pub fn state(&self, owner: AccountId) -> (r: AccountState)
        requires
            self.wf(),
        ensures
            r == state_of(self@, owner),
    {
        match self.states.get(&owner) {
            Some(s) => *s,
            None => AccountState { net: 0, open_buy: 0, open_sell: 0 },
        }
    }

    /// Stores `state` for `owner` (a known or new account).
    fn put(&mut self, owner: AccountId, state: AccountState)
        requires
            old(self).wf(),
            owner != 0,
        ensures
            final(self).wf(),
            final(self)@ == old(self)@.insert(owner, state),
    {
        if !self.states.contains_key(&owner) {
            proof {
                assert(!self.owners@.contains(owner)) by {
                    if self.owners@.contains(owner) {
                        let i = choose|i: int| 0 <= i < self.owners@.len() && self.owners@[i] == owner;
                        assert(self.states@.contains_key(self.owners@[i]));
                    }
                }
            }
            let k = self.owner_pos(owner);
            let ghost before = self.owners@;
            self.owners.insert(k, owner);
            proof {
                let after = self.owners@;
                assert(after == before.insert(k as int, owner));
                assert forall|i: int, j: int| 0 <= i < j < after.len() implies (#[trigger] after[i]) < (#[trigger] after[j]) by {
                    if j < k {
                        assert(after[i] == before[i] && after[j] == before[j]);
                    } else if j == k {
                        assert(after[i] == before[i]);
                    } else if i < k {
                        assert(after[i] == before[i] && after[j] == before[j - 1]);
                    } else if i == k {
                        assert(after[j] == before[j - 1]);
                    } else {
                        assert(after[i] == before[i - 1] && after[j] == before[j - 1]);
                    }
                }
                assert forall|o: AccountId| after.contains(o) <==> before.contains(o) || o == owner by {
                    if after.contains(o) {
                        let i = choose|i: int| 0 <= i < after.len() && after[i] == o;
                        if i < k {
                            assert(before[i] == o);
                        } else if i > k {
                            assert(before[i - 1] == o);
                        }
                    }
                    if before.contains(o) {
                        let i = choose|i: int| 0 <= i < before.len() && before[i] == o;
                        if i < k {
                            assert(after[i] == o);
                        } else {
                            assert(after[i + 1] == o);
                        }
                    }
                    if o == owner {
                        assert(after[k as int] == o);
                    }
                }
            }
        }
        let ghost owners = self.owners@;
        self.states.insert(owner, state);
        proof {
            assert forall|i: int| 0 <= i < owners.len() implies self.states@.contains_key(#[trigger] owners[i]) by {
                if owners[i] != owner {
                    assert(old(self).owners@.contains(owners[i]) || owners[i] == owner);
                }
            }
        }
    }

    pub fn add_open(&mut self, owner: AccountId, side: Side, qty: Qty)
        requires
            old(self).wf(),
            state_of(old(self)@, owner).open_on(side) + qty <= u64::MAX,
        ensures
            final(self).wf(),
            final(self)@ == add_open_spec(old(self)@, owner, side, qty),
    {
        if owner == 0 || qty == 0 {
            return ;
        }
        let s = self.state(owner);
        let next = match side {
            Side::Buy => AccountState { open_buy: s.open_buy + qty, ..s },
            Side::Sell => AccountState { open_sell: s.open_sell + qty, ..s },
        };
        self.put(owner, next);
    }

    pub fn sub_open(&mut self, owner: AccountId, side: Side, qty: Qty)
        requires
            old(self).wf(),
        ensures
            final(self).wf(),
            final(self)@ == sub_open_spec(old(self)@, owner, side, qty),
    {
        if owner == 0 || qty == 0 {
            return ;
        }
        let s = match self.states.get(&owner) {
            Some(s) => *s,
            None => {
                return ;
            },
        };
        let next = match side {
            Side::Buy => AccountState { open_buy: s.open_buy.saturating_sub(qty), ..s },
            Side::Sell => AccountState { open_sell: s.open_sell.saturating_sub(qty), ..s },
        };
        self.put(owner, next);
    }

    pub fn fill(&mut self, owner: AccountId, side: Side, qty: Qty)
        requires
            old(self).wf(),
            match side {
                Side::Buy => state_of(old(self)@, owner).net + qty <= i128::MAX,
                Side::Sell => -i128::MAX <= state_of(old(self)@, owner).net - qty,
            },
        ensures
            final(self).wf(),
            final(self)@ == fill_spec(old(self)@, owner, side, qty),
    {
        if owner == 0 || qty == 0 {
            return ;
        }
        let s = self.state(owner);
        let next = match side {
            Side::Buy => AccountState { net: s.net + qty as i128, ..s },
            Side::Sell => AccountState { net: s.net - qty as i128, ..s },
        };
        self.put(owner, next);
    }

    pub fn net(&self, owner: AccountId) -> (r: i128)
        requires
            self.wf(),
        ensures
            r == state_of(self@, owner).net,
    {
        self.state(owner).net
    }

    pub fn open(&self, owner: AccountId, side: Side) -> (r: Qty)
        requires
            self.wf(),
        ensures
            r == state_of(self@, owner).open_on(side),
    {
        let s = self.state(owner);
        match side {
            Side::Buy => s.open_buy,
            Side::Sell => s.open_sell,
        }
    }

    pub fn restore_net(&mut self, owner: AccountId, net: i128)
        requires
            old(self).wf(),
        ensures
            final(self).wf(),
            final(self)@ == restore_net_spec(old(self)@, owner, net),
    {
        if owner == 0 || net == 0 {
            return ;
        }
        let s = self.state(owner);
        self.put(owner, AccountState { net, ..s });
    }

    /// The accounts with a non-zero net position, ordered by account id.
    pub fn nets_sorted(&self) -> (r: Vec<(AccountId, i128)>)
        requires
            self.wf(),
        ensures
            forall|i: int, j: int| 0 <= i < j < r@.len() ==> (#[trigger] r@[i]).0 < (#[trigger] r@[j]).0,
            forall|i: int|
                0 <= i < r@.len() ==> self@.contains_key((#[trigger] r@[i]).0) && self@[r@[i].0].net
                    == r@[i].1 && r@[i].1 != 0,
            forall|o: AccountId|
                self@.contains_key(o) && #[trigger] self@[o].net != 0 ==> exists|i: int|
                    0 <= i < r@.len() && r@[i].0 == o,
    {
        let mut out: Vec<(AccountId, i128)> = Vec::new();
        let mut i: usize = 0;
        while i < self.owners.len()
            invariant
                self.wf(),
                i <= self.owners@.len(),
                forall|a: int, b: int| 0 <= a < b < out@.len() ==> (#[trigger] out@[a]).0 < (#[trigger] out@[b]).0,
                forall|a: int| 0 <= a < out@.len() ==> exists|k: int| 0 <= k < i && self.owners@[k] == (#[trigger] out@[a]).0,
                forall|a: int|
                    0 <= a < out@.len() ==> self@.contains_key((#[trigger] out@[a]).0) && self@[out@[a].0].net
                        == out@[a].1 && out@[a].1 != 0,
                forall|k: int|
                    0 <= k < i && self@[#[trigger] self.owners@[k]].net != 0 ==> exists|a: int|
                        0 <= a < out@.len() && out@[a].0 == self.owners@[k],
            decreases self.owners@.len() - i,
        {
            let owner = self.owners[i];
            let s = self.state(owner);
            proof {
                assert(self.states@.contains_key(self.owners@[i as int]));
            }
            if s.net != 0 {
                let ghost prev = out@;
                out.push((owner, s.net));
                proof {
                    assert forall|a: int, b: int| 0 <= a < b < out@.len() implies (#[trigger] out@[a]).0 < (#[trigger] out@[b]).0 by {
                        if b == prev.len() {
                            assert(out@[a] == prev[a]);
                            let k = choose|k: int| 0 <= k < i && self.owners@[k] == prev[a].0;
                            assert(self.owners@[k] < self.owners@[i as int]);
                        } else {
                            assert(out@[a] == prev[a] && out@[b] == prev[b]);
                        }
                    }
                    assert forall|a: int| 0 <= a < out@.len() implies exists|k: int| 0 <= k < i + 1 && self.owners@[k] == (#[trigger] out@[a]).0 by {
                        if a < prev.len() {
                            assert(out@[a] == prev[a]);
                            let k = choose|k: int| 0 <= k < i && self.owners@[k] == prev[a].0;
                            assert(self.owners@[k] == out@[a].0);
                        } else {
                            assert(self.owners@[i as int] == out@[a].0);
                        }
                    }
                    assert forall|k: int| 0 <= k < i + 1 && self@[#[trigger] self.owners@[k]].net != 0 implies exists|a: int|
                        0 <= a < out@.len() && out@[a].0 == self.owners@[k] by {
                        if k < i {
                            let a = choose|a: int| 0 <= a < prev.len() && prev[a].0 == self.owners@[k];
                            assert(out@[a] == prev[a]);
                        } else {
                            assert(out@[prev.len() as int].0 == self.owners@[k]);
                        }
                    }
                }
            }
            i = i + 1;
        }
        proof {
            assert forall|o: AccountId| self@.contains_key(o) && #[trigger] self@[o].net != 0 implies exists|a: int|
                0 <= a < out@.len() && out@[a].0 == o by {
                assert(self.owners@.contains(o));
                let k = choose|k: int| 0 <= k < self.owners@.len() && self.owners@[k] == o;
                assert(self@[self.owners@[k]].net != 0);
            }
        }
        out
    }
}

impl Default for AccountState {
    fn default() -> (r: Self)
        ensures
            r == AccountState::zero(),
    {
        AccountState { net: 0, open_buy: 0, open_sell: 0 }
    }
}

impl Default for AccountBook {
    fn default() -> (r: Self)
        ensures
            r.wf(),
            r@ == Map::<AccountId, AccountState>::empty(),
    {
        AccountBook::new()
    }
}

} // verus!
