use crate::error::Error;
use crate::identity::{all_distinct, Identity};
use crate::order::{is_newest_first, newest_first, page_indices, page_of};
use vstd::prelude::*;
use vstd::string::*;

verus! {

/// What one identity holds.
#[derive(Clone, Copy, Debug, PartialEq, Eq)]
pub struct Account {
    pub owner: Identity,
    pub amount: u128,
}

/// A movement of tokens. A movement without a sender is a mint.
#[derive(Clone, Copy, Debug, PartialEq, Eq)]
pub struct Tx {
    pub id: u64,
    pub from: Option<Identity>,
    pub to: Identity,
    pub amount: u128,
    pub timestamp_ns: u64,
}

/// How a movement looks from one identity's side.
#[derive(Clone, Copy, Debug, PartialEq, Eq, Structural)]
pub enum Direction {
    Mint,
    In,
    Out,
}

impl Direction {
    pub open spec fn spec_label(&self) -> Seq<char> {
        match *self {
            Direction::Mint => "mint"@,
            Direction::In => "in"@,
            Direction::Out => "out"@,
        }
    }

    /// The word for the direction.
    pub fn label(&self) -> (r: String)
        ensures
            r@ == self.spec_label(),
    {
        match *self {
            Direction::Mint => String::from_str("mint"),
            Direction::In => String::from_str("in"),
            Direction::Out => String::from_str("out"),
        }
    }
}

/// A movement as its owner's history shows it.
#[derive(Clone, Copy, Debug, PartialEq, Eq)]
pub struct HistoryEntry {
    pub id: u64,
    pub direction: Direction,
    pub counterparty: Option<Identity>,
    pub amount: u128,
    pub timestamp_ns: u64,
}

/// An account to open at first start.
#[derive(Clone, Copy, Debug, PartialEq, Eq)]
pub struct InitAccount {
    pub owner: Identity,
    pub amount: u128,
}

/// The seed of a ledger.
#[derive(Clone, Debug)]
pub struct InitArg {
    pub initial_accounts: Vec<InitAccount>,
    pub airdrop_amount: u128,
}

/// The ledger: balances, the log of movements, and who has had the airdrop.
#[derive(Debug)]
pub struct Ledger {
    pub name: String,
    pub symbol: String,
    pub balances: Vec<Account>,
    pub txs: Vec<Tx>,
    pub airdropped: Vec<Identity>,
    pub airdrop_amount: u128,
}

/// The sum of all balances.
pub open spec fn total(accounts: Seq<Account>) -> nat
    decreases accounts.len(),
{
    if accounts.len() == 0 {
        0
    } else {
        total(accounts.drop_last()) + accounts.last().amount as nat
    }
}

/// What `who` holds: the sum of the entries under that owner (there is at
/// most one in a well-formed ledger, and none means nothing held).
pub open spec fn holding(accounts: Seq<Account>, who: Identity) -> nat
    decreases accounts.len(),
{
    if accounts.len() == 0 {
        0
    } else {
        holding(accounts.drop_last(), who) + if accounts.last().owner == who {
            accounts.last().amount as nat
        } else {
            0
        }
    }
}

/// The sum of the amounts of all mints in a log.
pub open spec fn minted(txs: Seq<Tx>) -> nat
    decreases txs.len(),
{
    if txs.len() == 0 {
        0
    } else {
        minted(txs.drop_last()) + if txs.last().from.is_none() {
            txs.last().amount as nat
        } else {
            0
        }
    }
}

/// No owner has two entries.
pub open spec fn distinct_owners(accounts: Seq<Account>) -> bool {
    forall|i: int, j: int|
        0 <= i < j < accounts.len() ==> (#[trigger] accounts[i]).owner != (#[trigger] accounts[j]).owner
}

/// The movements are numbered from one, in the order of the log.
pub open spec fn numbered(txs: Seq<Tx>) -> bool {
    forall|i: int| 0 <= i < txs.len() ==> (#[trigger] txs[i]).id == i + 1
}

/// How a movement shows in the history of `owner`, if it does.
pub open spec fn entry_for(tx: Tx, owner: Identity) -> Option<HistoryEntry> {
    if tx.to == owner {
        Some(
            HistoryEntry {
                id: tx.id,
                direction: if tx.from.is_none() {
                    Direction::Mint
                } else {
                    Direction::In
                },
                counterparty: tx.from,
                amount: tx.amount,
                timestamp_ns: tx.timestamp_ns,
            },
        )
    } else if tx.from == Some(owner) {
        Some(
            HistoryEntry {
                id: tx.id,
                direction: Direction::Out,
                counterparty: Some(tx.to),
                amount: tx.amount,
                timestamp_ns: tx.timestamp_ns,
            },
        )
    } else {
        None
    }
}

/// The history of `owner`, in the order of the log.
pub open spec fn history(txs: Seq<Tx>, owner: Identity) -> Seq<HistoryEntry>
    decreases txs.len(),
{
    if txs.len() == 0 {
        Seq::empty()
    } else {
        match entry_for(txs.last(), owner) {
            Some(e) => history(txs.drop_last(), owner).push(e),
            None => history(txs.drop_last(), owner),
        }
    }
}

/// The times of the entries of a history.
pub open spec fn stamps_of(entries: Seq<HistoryEntry>) -> Seq<u64> {
    entries.map_values(|e: HistoryEntry| e.timestamp_ns)
}

/// The page of a history that `order` arranges.
pub open spec fn shown(entries: Seq<HistoryEntry>, order: Seq<usize>, offset: u64, limit: u64) -> Seq<
    HistoryEntry,
> {
    page_of(order, offset, limit).map_values(|i: usize| entries[i as int])
}

/// The seed accounts as balances entries.
pub open spec fn as_accounts(seed: Seq<InitAccount>) -> Seq<Account> {
    seed.map_values(|a: InitAccount| Account { owner: a.owner, amount: a.amount })
}

/// The log that seeding leaves: one mint for each seed account, all at one time.
pub open spec fn seed_log(seed: Seq<InitAccount>, now: u64) -> Seq<Tx> {
    Seq::new(
        seed.len(),
        |i: int|
            Tx {
                id: (i + 1) as u64,
                from: None,
                to: seed[i].owner,
                amount: seed[i].amount,
                timestamp_ns: now,
            },
    )
}

/// A mint of `amount` to `to`, as the movement numbered `n + 1`.
pub open spec fn mint_tx(n: nat, to: Identity, amount: u128, now: u64) -> Tx {
    Tx { id: (n + 1) as u64, from: None, to, amount, timestamp_ns: now }
}

proof fn lemma_set(a: Seq<Account>, i: int, x: Account, who: Identity)
    requires
        0 <= i < a.len(),
        x.owner == a[i].owner,
    ensures
        total(a.update(i, x)) + a[i].amount == total(a) + x.amount,
        holding(a.update(i, x), who) + (if who == x.owner {
            a[i].amount as nat
        } else {
            0
        }) == holding(a, who) + (if who == x.owner {
            x.amount as nat
        } else {
            0
        }),
    decreases a.len(),
{
    if i == a.len() - 1 {
        assert(a.update(i, x).drop_last() =~= a.drop_last());
    } else {
        assert(a.update(i, x).drop_last() =~= a.drop_last().update(i, x));
        lemma_set(a.drop_last(), i, x, who);
    }
}

proof fn lemma_absent(a: Seq<Account>, who: Identity)
    requires
        forall|i: int| 0 <= i < a.len() ==> (#[trigger] a[i]).owner != who,
    ensures
        holding(a, who) == 0,
    decreases a.len(),
{
    if a.len() > 0 {
        assert(a.last() == a[a.len() - 1]);
        assert forall|i: int| 0 <= i < a.drop_last().len() implies (#[trigger] a.drop_last()[i]).owner
            != who by {
            assert(a.drop_last()[i] == a[i]);
        }
        lemma_absent(a.drop_last(), who);
    }
}

proof fn lemma_holding_at(a: Seq<Account>, i: int)
    requires
        distinct_owners(a),
        0 <= i < a.len(),
    ensures
        holding(a, a[i].owner) == a[i].amount,
    decreases a.len(),
{
    let rest = a.drop_last();
    assert(a.last() == a[a.len() - 1]);
    if i == a.len() - 1 {
        assert forall|k: int| 0 <= k < rest.len() implies (#[trigger] rest[k]).owner != a[i].owner by {
            assert(rest[k] == a[k]);
        }
        lemma_absent(rest, a[i].owner);
    } else {
        assert forall|p: int, q: int| 0 <= p < q < rest.len() implies (#[trigger] rest[p]).owner != (
        #[trigger] rest[q]).owner by {
            assert(rest[p] == a[p] && rest[q] == a[q]);
        }
        assert(rest[i] == a[i]);
        lemma_holding_at(rest, i);
    }
}

proof fn lemma_holding_le_total(a: Seq<Account>, who: Identity)
    ensures
        holding(a, who) <= total(a),
    decreases a.len(),
{
    if a.len() > 0 {
        lemma_holding_le_total(a.drop_last(), who);
    }
}

proof fn lemma_prefix_total(a: Seq<Account>, i: int)
    requires
        0 <= i <= a.len(),
    ensures
        total(a.take(i)) <= total(a),
    decreases a.len() - i,
{
    if i < a.len() {
        assert(a.take(i + 1).drop_last() =~= a.take(i));
        lemma_prefix_total(a, i + 1);
    } else {
        assert(a.take(i) =~= a);
    }
}

proof fn lemma_prefix_minted(txs: Seq<Tx>, i: int)
    requires
        0 <= i <= txs.len(),
    ensures
        minted(txs.take(i)) <= minted(txs),
    decreases txs.len() - i,
{
    if i < txs.len() {
        assert(txs.take(i + 1).drop_last() =~= txs.take(i));
        lemma_prefix_minted(txs, i + 1);
    } else {
        assert(txs.take(i) =~= txs);
    }
}

/// Whether no owner has two entries.
fn owners_distinct(accounts: &Vec<Account>) -> (r: bool)
    ensures
        r == distinct_owners(accounts@),
{
    let mut j: usize = 0;
    while j < accounts.len()
        invariant
            j <= accounts@.len(),
            forall|p: int, q: int|
                0 <= p < q < j ==> (#[trigger] accounts@[p]).owner != (#[trigger] accounts@[q]).owner,
        decreases accounts@.len() - j,
    {
        let mut i: usize = 0;
        while i < j
            invariant
                i <= j < accounts@.len(),
                forall|p: int| 0 <= p < i ==> (#[trigger] accounts@[p]).owner != accounts@[j as int].owner,
            decreases j - i,
        {
            if accounts[i].owner.same(&accounts[j].owner) {
                assert(accounts@[i as int].owner == accounts@[j as int].owner);
                return false;
            }
            i += 1;
        }
        j += 1;
    }
    true
}

/// Whether the movements are numbered from one.
fn log_numbered(txs: &Vec<Tx>) -> (r: bool)
    ensures
        r == numbered(txs@),
{
    let mut i: usize = 0;
    while i < txs.len()
        invariant
            i <= txs@.len(),
            forall|k: int| 0 <= k < i ==> (#[trigger] txs@[k]).id == k + 1,
        decreases txs@.len() - i,
    {
        if txs[i].id != i as u64 + 1 {
            assert(txs@[i as int].id != i + 1);
            return false;
        }
        i += 1;
    }
    true
}

/// The sum of all balances, where it fits.
fn sum_of_balances(accounts: &Vec<Account>) -> (r: Option<u128>)
    ensures
        match r {
            Some(sum) => sum == total(accounts@),
            None => total(accounts@) > u128::MAX,
        },
{
    let mut acc: u128 = 0;
    let mut i: usize = 0;
    while i < accounts.len()
        invariant
            i <= accounts@.len(),
            acc == total(accounts@.take(i as int)),
        decreases accounts@.len() - i,
    {
        proof {
            assert(accounts@.take(i + 1).drop_last() =~= accounts@.take(i as int));
            lemma_prefix_total(accounts@, i + 1);
        }
        if accounts[i].amount > u128::MAX - acc {
            return None;
        }
        acc = acc + accounts[i].amount;
        i += 1;
    }
    proof {
        assert(accounts@.take(i as int) =~= accounts@);
    }
    Some(acc)
}

/// The sum of all mints, where it fits.
fn sum_of_mints(txs: &Vec<Tx>) -> (r: Option<u128>)
    ensures
        match r {
            Some(sum) => sum == minted(txs@),
            None => minted(txs@) > u128::MAX,
        },
{
    let mut acc: u128 = 0;
    let mut i: usize = 0;
    while i < txs.len()
        invariant
            i <= txs@.len(),
            acc == minted(txs@.take(i as int)),
        decreases txs@.len() - i,
    {
        proof {
            assert(txs@.take(i + 1).drop_last() =~= txs@.take(i as int));
            lemma_prefix_minted(txs@, i + 1);
        }
        if txs[i].from.is_none() {
            if txs[i].amount > u128::MAX - acc {
                return None;
            }
            acc = acc + txs[i].amount;
        }
        i += 1;
    }
    proof {
        assert(txs@.take(i as int) =~= txs@);
    }
    Some(acc)
}

/// The index of the entry of `who`, if there is one.
fn position(accounts: &Vec<Account>, who: &Identity) -> (r: Option<usize>)
    ensures
        match r {
            Some(i) => i < accounts@.len() && accounts@[i as int].owner == *who,
            None => forall|i: int| 0 <= i < accounts@.len() ==> (#[trigger] accounts@[i]).owner != *who,
        },
{
    let mut i: usize = 0;
    while i < accounts.len()
        invariant
            i <= accounts@.len(),
            forall|k: int| 0 <= k < i ==> (#[trigger] accounts@[k]).owner != *who,
        decreases accounts@.len() - i,
    {
        if accounts[i].owner.same(who) {
            return Some(i);
        }
        i += 1;
    }
    None
}

/// Adds `amount` to what `who` holds, opening an entry where there is none.
fn credit(accounts: &mut Vec<Account>, who: Identity, amount: u128)
    requires
        distinct_owners(old(accounts)@),
        total(old(accounts)@) + amount <= u128::MAX,
    ensures
        distinct_owners(final(accounts)@),
        total(final(accounts)@) == total(old(accounts)@) + amount,
        forall|w: Identity|
            #![trigger holding(final(accounts)@, w)]
            #![trigger holding(old(accounts)@, w)]
            holding(final(accounts)@, w) == holding(old(accounts)@, w) + (if w == who {
                amount as nat
            } else {
                0
            }),
{
    let ghost before = accounts@;
    match position(accounts, &who) {
        Some(i) => {
            let held: u128 = accounts[i].amount;
            proof {
                lemma_holding_at(before, i as int);
                lemma_holding_le_total(before, who);
            }
            let next = Account { owner: who, amount: held + amount };
            accounts.set(i, next);
            proof {
                assert forall|w: Identity|
                    holding(accounts@, w) == #[trigger] holding(before, w) + (if w == who {
                        amount as nat
                    } else {
                        0
                    }) by {
                    lemma_set(before, i as int, next, w);
                }
                lemma_set(before, i as int, next, who);
            }
        },
        None => {
            accounts.push(Account { owner: who, amount });
            proof {
                assert(accounts@.drop_last() =~= before);
            }
        },
    }
}

/// Whether `who` is in the list.
fn listed(list: &Vec<Identity>, who: &Identity) -> (r: bool)
    ensures
        r == list@.contains(*who),
{
    let mut i: usize = 0;
    while i < list.len()
        invariant
            i <= list@.len(),
            forall|k: int| 0 <= k < i ==> list@[k] != *who,
        decreases list@.len() - i,
    {
        if list[i].same(who) {
            return true;
        }
        i += 1;
    }
    false
}

impl Ledger {
    /// The invariant of a ledger: one entry for each owner, movements
    /// numbered from one, nobody twice among those who had the airdrop, and
    /// conservation: the balances add up to what was minted.
    pub open spec fn wf(&self) -> bool {
        &&& distinct_owners(self.balances@)
        &&& numbered(self.txs@)
        &&& self.airdropped@.no_duplicates()
        &&& total(self.balances@) == minted(self.txs@)
        &&& total(self.balances@) <= u128::MAX
    }

    /// The log can take one more movement.
    pub open spec fn has_room(&self) -> bool {
        self.txs@.len() < u64::MAX
    }

    /// What the airdrop and the metadata are: the part that no movement changes.
    pub open spec fn same_settings(&self, other: &Ledger) -> bool {
        &&& self.name == other.name
        &&& self.symbol == other.symbol
        &&& self.airdrop_amount == other.airdrop_amount
    }

    /// A mint took `pre` to `post` and was logged as `tx`.
    pub open spec fn mint_step(pre: &Ledger, post: &Ledger, to: Identity, amount: u128, now: u64, tx: Tx) -> bool {
        &&& tx == mint_tx(pre.txs@.len(), to, amount, now)
        &&& post.txs@ == pre.txs@.push(tx)
        &&& forall|w: Identity|
            #![trigger holding(post.balances@, w)]
            #![trigger holding(pre.balances@, w)]
            holding(post.balances@, w) == holding(pre.balances@, w) + (if w == to {
                amount as nat
            } else {
                0
            })
        &&& post.same_settings(pre)
    }

    /// The airdrop operation took `pre` to `post` and answered `out`.
    pub open spec fn airdrop_step(pre: &Ledger, post: &Ledger, caller: Identity, now: u64, out: Option<Tx>) -> bool {
        if pre.airdropped@.contains(caller) {
            out.is_none() && *post == *pre
        } else {
            &&& out.is_some()
            &&& post.airdropped@ == pre.airdropped@.push(caller)
            &&& Ledger::mint_step(pre, post, caller, pre.airdrop_amount, now, out.unwrap())
        }
    }

    /// A ledger at first start: the seed's accounts are minted in order;
    /// without a seed nothing is held and the airdrop is 1000.
    pub fn init(arg: Option<InitArg>, now: u64) -> (r: Ledger)
        requires
            arg.is_some() ==> total(as_accounts(arg.unwrap().initial_accounts@)) <= u128::MAX,
        ensures
            r.wf(),
            r.name@ == "DeepToken"@,
            r.symbol@ == "DTX"@,
            r.airdropped@.len() == 0,
            match arg {
                Some(seed) => {
                    &&& r.airdrop_amount == seed.airdrop_amount
                    &&& r.txs@ == seed_log(seed.initial_accounts@, now)
                    &&& forall|w: Identity|
                        #![trigger holding(r.balances@, w)]
                        #![trigger holding(as_accounts(seed.initial_accounts@), w)]
                        holding(r.balances@, w) == holding(as_accounts(seed.initial_accounts@), w)
                },
                None => {
                    &&& r.airdrop_amount == 1000
                    &&& r.txs@.len() == 0
                    &&& r.balances@.len() == 0
                },
            },
    {
        let mut ledger = Ledger {
            name: String::from_str("DeepToken"),
            symbol: String::from_str("DTX"),
            balances: Vec::new(),
            txs: Vec::new(),
            airdropped: Vec::new(),
            airdrop_amount: 1000,
        };
        if let Some(seed) = arg {
            ledger.airdrop_amount = seed.airdrop_amount;
            let ghost all = seed.initial_accounts@;
            let mut i: usize = 0;
            assert(ledger.txs@ =~= seed_log(all.take(0), now));
            while i < seed.initial_accounts.len()
                invariant
                    i <= all.len(),
                    all == seed.initial_accounts@,
                    total(as_accounts(all)) <= u128::MAX,
                    ledger.wf(),
                    ledger.name@ == "DeepToken"@,
                    ledger.symbol@ == "DTX"@,
                    ledger.airdropped@.len() == 0,
                    ledger.airdrop_amount == seed.airdrop_amount,
                    ledger.txs@ == seed_log(all.take(i as int), now),
                    total(ledger.balances@) == total(as_accounts(all.take(i as int))),
                    forall|w: Identity|
                        holding(ledger.balances@, w) == #[trigger] holding(as_accounts(all.take(i as int)), w),
                decreases all.len() - i,
            {
                let acc = seed.initial_accounts[i];
                proof {
                    assert(as_accounts(all.take(i + 1)).drop_last() =~= as_accounts(all.take(i as int)));
                    assert(as_accounts(all.take(i + 1)) =~= as_accounts(all).take(i + 1));
                    lemma_prefix_total(as_accounts(all), i + 1);
                }
                let ghost held = ledger.balances@;
                ledger.mint(acc.owner, acc.amount, now);
                proof {
                    assert(ledger.txs@ =~= seed_log(all.take(i + 1), now));
                    assert forall|w: Identity|
                        holding(ledger.balances@, w) == #[trigger] holding(
                            as_accounts(all.take(i + 1)),
                            w,
                        ) by {
                        assert(holding(held, w) == holding(as_accounts(all.take(i as int)), w));
                        assert(as_accounts(all.take(i + 1)).last().owner == acc.owner);
                    }
                }
                i += 1;
            }
            assert(all.take(i as int) =~= all);
        }
        ledger
    }

    /// A ledger that has seen nothing: the state before any seed.
    pub open spec fn is_blank(&self) -> bool {
        &&& self.name@ == "DeepToken"@
        &&& self.symbol@ == "DTX"@
        &&& self.balances@.len() == 0
        &&& self.txs@.len() == 0
        &&& self.airdropped@.len() == 0
        &&& self.airdrop_amount == 1000
    }

    /// Whether the invariant holds of this state.
    pub fn is_valid(&self) -> (r: bool)
        ensures
            r == self.wf(),
    {
        if !owners_distinct(&self.balances) || !log_numbered(&self.txs) || !all_distinct(&self.airdropped) {
            return false;
        }
        match sum_of_balances(&self.balances) {
            Some(held) => match sum_of_mints(&self.txs) {
                Some(made) => held == made,
                None => false,
            },
            None => false,
        }
    }

    /// The whole state as one bundle, for safekeeping.
    pub fn snapshot(&self) -> (r: Ledger)
        ensures
            r.name@ == self.name@,
            r.symbol@ == self.symbol@,
            r.balances@ == self.balances@,
            r.txs@ == self.txs@,
            r.airdropped@ == self.airdropped@,
            r.airdrop_amount == self.airdrop_amount,
            r.wf() == self.wf(),
    {
        let mut balances: Vec<Account> = Vec::new();
        let mut i: usize = 0;
        while i < self.balances.len()
            invariant
                i <= self.balances@.len(),
                balances@ == self.balances@.take(i as int),
            decreases self.balances@.len() - i,
        {
            balances.push(self.balances[i]);
            assert(balances@ =~= self.balances@.take(i + 1));
            i += 1;
        }
        assert(self.balances@.take(i as int) =~= self.balances@);
        let mut txs: Vec<Tx> = Vec::new();
        let mut j: usize = 0;
        while j < self.txs.len()
            invariant
                j <= self.txs@.len(),
                txs@ == self.txs@.take(j as int),
            decreases self.txs@.len() - j,
        {
            txs.push(self.txs[j]);
            assert(txs@ =~= self.txs@.take(j + 1));
            j += 1;
        }
        assert(self.txs@.take(j as int) =~= self.txs@);
        let mut airdropped: Vec<Identity> = Vec::new();
        let mut k: usize = 0;
        while k < self.airdropped.len()
            invariant
                k <= self.airdropped@.len(),
                airdropped@ == self.airdropped@.take(k as int),
            decreases self.airdropped@.len() - k,
        {
            airdropped.push(self.airdropped[k]);
            assert(airdropped@ =~= self.airdropped@.take(k + 1));
            k += 1;
        }
        assert(self.airdropped@.take(k as int) =~= self.airdropped@);
        Ledger {
            name: self.name.clone(),
            symbol: self.symbol.clone(),
            balances,
            txs,
            airdropped,
            airdrop_amount: self.airdrop_amount,
        }
    }

    /// The state after a restart: the bundle that was kept, whole, where
    /// there is one and the invariant holds of it; else the blank ledger.
    /// Nothing is ever restored in part.
    pub fn restore(saved: Option<Ledger>) -> (r: Ledger)
        ensures
            r.wf(),
            match saved {
                Some(s) => if s.wf() {
                    r == s
                } else {
                    r.is_blank()
                },
                None => r.is_blank(),
            },
    {
        match saved {
            Some(s) => {
                if s.is_valid() {
                    s
                } else {
                    Ledger::init(None, 0)
                }
            },
            None => Ledger::init(None, 0),
        }
    }

    /// The token's name.
    pub fn name(&self) -> (r: String)
        ensures
            r@ == self.name@,
    {
        self.name.clone()
    }

    /// The token's symbol.
    pub fn symbol(&self) -> (r: String)
        ensures
            r@ == self.symbol@,
    {
        self.symbol.clone()
    }

    /// The sum of all balances, which is the sum of all mints.
    pub fn supply(&self) -> (r: u128)
        requires
            self.wf(),
        ensures
            r == total(self.balances@),
            r == minted(self.txs@),
    {
        let mut acc: u128 = 0;
        let mut i: usize = self.balances.len();
        assert(self.balances@.take(i as int) =~= self.balances@);
        while i > 0
            invariant
                i <= self.balances@.len(),
                total(self.balances@) <= u128::MAX,
                acc + total(self.balances@.take(i as int)) == total(self.balances@),
            decreases i,
        {
            assert(self.balances@.take(i as int).drop_last() =~= self.balances@.take(i - 1));
            i -= 1;
            acc = acc + self.balances[i].amount;
        }
        assert(self.balances@.take(0).len() == 0);
        acc
    }

    /// What `owner` holds; nothing where the ledger does not know the identity.
    pub fn balance_of(&self, owner: Identity) -> (r: u128)
        requires
            self.wf(),
        ensures
            r == holding(self.balances@, owner),
    {
        match position(&self.balances, &owner) {
            Some(i) => {
                proof {
                    lemma_holding_at(self.balances@, i as int);
                }
                self.balances[i].amount
            },
            None => {
                proof {
                    lemma_absent(self.balances@, owner);
                }
                0
            },
        }
    }

    /// Creates `amount` for `to` and logs the mint.
    pub fn mint(&mut self, to: Identity, amount: u128, now: u64) -> (tx: Tx)
        requires
            old(self).wf(),
            old(self).has_room(),
            total(old(self).balances@) + amount <= u128::MAX,
        ensures
            final(self).wf(),
            Ledger::mint_step(old(self), final(self), to, amount, now, tx),
            final(self).airdropped == old(self).airdropped,
            total(final(self).balances@) == total(old(self).balances@) + amount,
    {
        credit(&mut self.balances, to, amount);
        let id: u64 = self.txs.len() as u64 + 1;
        let tx = Tx { id, from: None, to, amount, timestamp_ns: now };
        self.txs.push(tx);
        proof {
            assert(self.txs@.drop_last() =~= old(self).txs@);
        }
        tx
    }

    /// Moves `amount` from the caller to `to`, in one step.
    pub fn transfer(&mut self, caller: Identity, to: Identity, amount: u128, now: u64) -> (r: Result<Tx, Error>)
        requires
            old(self).wf(),
            old(self).has_room(),
        ensures
            final(self).wf(),
            r.is_ok() <==> amount > 0 && amount <= holding(old(self).balances@, caller),
            match r {
                Ok(tx) => {
                    &&& tx == Tx {
                        id: (old(self).txs@.len() + 1) as u64,
                        from: Some(caller),
                        to,
                        amount,
                        timestamp_ns: now,
                    }
                    &&& final(self).txs@ == old(self).txs@.push(tx)
                    &&& forall|w: Identity|
                        #![trigger holding(final(self).balances@, w)]
                        #![trigger holding(old(self).balances@, w)]
                        holding(final(self).balances@, w) + (if w == caller {
                            amount as nat
                        } else {
                            0
                        }) == holding(old(self).balances@, w) + (if w == to {
                            amount as nat
                        } else {
                            0
                        })
                    &&& total(final(self).balances@) == total(old(self).balances@)
                    &&& final(self).same_settings(old(self))
                    &&& final(self).airdropped == old(self).airdropped
                },
                Err(e) => {
                    &&& *final(self) == *old(self)
                    &&& e == if amount == 0 {
                        Error::ZeroAmount
                    } else {
                        Error::InsufficientFunds
                    }
                },
            },
    {
        if amount == 0 {
            return Err(Error::ZeroAmount);
        }
        let found = position(&self.balances, &caller);
        let i: usize = match found {
            Some(i) => i,
            None => {
                proof {
                    lemma_absent(self.balances@, caller);
                }
                return Err(Error::InsufficientFunds);
            },
        };
        proof {
            lemma_holding_at(self.balances@, i as int);
        }
        let held: u128 = self.balances[i].amount;
        if held < amount {
            return Err(Error::InsufficientFunds);
        }
        let ghost before = self.balances@;
        let less = Account { owner: caller, amount: held - amount };
        self.balances.set(i, less);
        let ghost between = self.balances@;
        proof {
            lemma_set(before, i as int, less, caller);
            assert forall|w: Identity|
                holding(between, w) + (if w == caller {
                    amount as nat
                } else {
                    0
                }) == #[trigger] holding(before, w) by {
                lemma_set(before, i as int, less, w);
            }
            assert forall|p: int, q: int| 0 <= p < q < between.len() implies (#[trigger] between[p]).owner
                != (#[trigger] between[q]).owner by {
                assert(before[p].owner != before[q].owner);
            }
        }
        credit(&mut self.balances, to, amount);
        let id: u64 = self.txs.len() as u64 + 1;
        let tx = Tx { id, from: Some(caller), to, amount, timestamp_ns: now };
        self.txs.push(tx);
        proof {
            assert(self.txs@.drop_last() =~= old(self).txs@);
            assert forall|w: Identity|
                holding(self.balances@, w) + (if w == caller {
                    amount as nat
                } else {
                    0
                }) == #[trigger] holding(before, w) + (if w == to {
                    amount as nat
                } else {
                    0
                }) by {
                assert(holding(self.balances@, w) == holding(between, w) + (if w == to {
                    amount as nat
                } else {
                    0
                }));
            }
        }
        Ok(tx)
    }

    /// Whether the airdrop would fit: the caller has had it, or the supply
    /// can grow by the airdrop amount.
    pub open spec fn airdrop_fits(&self, caller: Identity) -> bool {
        self.airdropped@.contains(caller) || total(self.balances@) + self.airdrop_amount <= u128::MAX
    }

    /// Gives the caller the airdrop, once: the caller is recorded first
    /// and the amount minted then; a caller who is recorded gets nothing.
    pub fn airdrop_for_caller(&mut self, caller: Identity, now: u64) -> (r: Option<Tx>)
        requires
            old(self).wf(),
            old(self).has_room(),
            old(self).airdrop_fits(caller),
        ensures
            final(self).wf(),
            Ledger::airdrop_step(old(self), final(self), caller, now, r),
            final(self).airdropped@.contains(caller),
    {
        if listed(&self.airdropped, &caller) {
            return None;
        }
        self.airdropped.push(caller);
        proof {
            let list = self.airdropped@;
            assert forall|p: int, q: int| 0 <= p < list.len() && 0 <= q < list.len() && p != q implies list[p]
                != list[q] by {
                if p < list.len() - 1 && q < list.len() - 1 {
                    assert(old(self).airdropped@[p] != old(self).airdropped@[q]);
                } else if p < list.len() - 1 {
                    assert(old(self).airdropped@[p] != caller);
                } else {
                    assert(old(self).airdropped@[q] != caller);
                }
            }
        }
        assert(self.airdropped@.last() == caller);
        let amount: u128 = self.airdrop_amount;
        let tx = self.mint(caller, amount, now);
        Some(tx)
    }

    /// The page of the history of `owner` that starts at `offset` and
    /// holds up to `limit` entries, newest first.
    pub fn get_history(&self, owner: Identity, offset: u64, limit: u64) -> (r: Vec<HistoryEntry>)
        ensures
            exists|order: Seq<usize>|
                is_newest_first(stamps_of(history(self.txs@, owner)), order) && r@ == shown(
                    history(self.txs@, owner),
                    order,
                    offset,
                    limit,
                ),
    {
        let mut entries: Vec<HistoryEntry> = Vec::new();
        let mut stamps: Vec<u64> = Vec::new();
        let mut i: usize = 0;
        while i < self.txs.len()
            invariant
                i <= self.txs@.len(),
                entries@ == history(self.txs@.take(i as int), owner),
                stamps@ == stamps_of(entries@),
            decreases self.txs@.len() - i,
        {
            let tx = self.txs[i];
            proof {
                assert(self.txs@.take(i + 1).drop_last() =~= self.txs@.take(i as int));
            }
            if tx.to.same(&owner) {
                let direction = if tx.from.is_none() {
                    Direction::Mint
                } else {
                    Direction::In
                };
                entries.push(
                    HistoryEntry {
                        id: tx.id,
                        direction,
                        counterparty: tx.from,
                        amount: tx.amount,
                        timestamp_ns: tx.timestamp_ns,
                    },
                );
                stamps.push(tx.timestamp_ns);
            } else {
                let sent: bool = match tx.from {
                    Some(sender) => sender.same(&owner),
                    None => false,
                };
                if sent {
                    entries.push(
                        HistoryEntry {
                            id: tx.id,
                            direction: Direction::Out,
                            counterparty: Some(tx.to),
                            amount: tx.amount,
                            timestamp_ns: tx.timestamp_ns,
                        },
                    );
                    stamps.push(tx.timestamp_ns);
                }
            }
            proof {
                assert(stamps@ =~= stamps_of(entries@));
            }
            i += 1;
        }
        proof {
            assert(self.txs@.take(i as int) =~= self.txs@);
        }
        let order = newest_first(&stamps);
        let chosen = page_indices(&order, offset, limit);
        let mut out: Vec<HistoryEntry> = Vec::new();
        let mut k: usize = 0;
        while k < chosen.len()
            invariant
                k <= chosen@.len(),
                chosen@ == page_of(order@, offset, limit),
                is_newest_first(stamps@, order@),
                stamps@.len() == entries@.len(),
                out@ == chosen@.take(k as int).map_values(|i: usize| entries@[i as int]),
            decreases chosen@.len() - k,
        {
            let at: usize = chosen[k];
            proof {
                let start = crate::order::page_start(order@.len(), offset) as int;
                assert(chosen@[k as int] == order@[start + k]);
                assert(at < entries@.len());
            }
            out.push(entries[at]);
            proof {
                assert(out@ =~= chosen@.take(k + 1).map_values(|i: usize| entries@[i as int]));
            }
            k += 1;
        }
        proof {
            assert(chosen@.take(k as int) =~= chosen@);
        }
        out
    }
}

/// Conservation: in a well-formed ledger the balances add up to the mints,
/// and every operation above keeps a ledger well formed.
pub proof fn conservation(ledger: Ledger)
    requires
        ledger.wf(),
    ensures
        total(ledger.balances@) == minted(ledger.txs@),
{
}

/// The airdrop is given once: of two airdrop calls by one identity, one
/// after the other, the second answers nothing and changes nothing, and the
/// caller holds exactly the airdrop amount more than before the first.
pub proof fn airdrop_is_once(
    start: Ledger,
    middle: Ledger,
    end: Ledger,
    caller: Identity,
    first_time: u64,
    second_time: u64,
    first: Option<Tx>,
    second: Option<Tx>,
)
    requires
        Ledger::airdrop_step(&start, &middle, caller, first_time, first),
        Ledger::airdrop_step(&middle, &end, caller, second_time, second),
    ensures
        second.is_none(),
        end == middle,
        first.is_some() ==> first.unwrap().from.is_none() && first.unwrap().to == caller
            && first.unwrap().amount == start.airdrop_amount && holding(end.balances@, caller)
            == holding(start.balances@, caller) + start.airdrop_amount,
        first.is_none() ==> end == start,
        first.is_some() <==> !start.airdropped@.contains(caller),
{
    if !start.airdropped@.contains(caller) {
        assert(middle.airdropped@.last() == caller);
        assert(middle.airdropped@.contains(caller));
    }
}

} // verus!
