//! Planning a payment, and what follows its broadcast.
use crate::bytes::byte_views;
use crate::db::model::{
    names_native, of_token, set_spent, total, total_fits, with_commitment, with_nullifier,
    WalletState,
};
use crate::db::rows::{opt_str, Note, TxRecord};
use crate::db::{DbError, WalletDb};
use crate::text::{eq_ignore_ascii_case, same_ignoring_case, str_eq};
use vstd::prelude::*;

verus! {

/// An unspent note as listed: transaction hash, output index, value and token id.
pub type ListedCoin = (String, u32, i64, String);

/// A coin picked as an input: transaction hash, output index and value.
pub type PickedCoin = (String, u32, i64);

/// Why a payment was not planned.
#[derive(Debug)]
pub enum SendRefusal {
    /// The token is not the native one.
    UnsupportedToken,
    /// The amount is zero.
    ZeroAmount,
    /// The balance is below what is needed.
    InsufficientFunds { have: i64, need: u64 },
    /// The listed coins do not add up to what is needed.
    CannotSelect { selected: u64, coins: usize, need: u64 },
    /// The database failed.
    Database(DbError),
}

/// A payment with the coins that cover it.
#[derive(Debug)]
pub struct SendPlan {
    pub amount: u64,
    pub fee: u64,
    /// Amount and fee together.
    pub total_needed: u64,
    pub inputs: Vec<PickedCoin>,
    pub input_total: u64,
    /// What the inputs hold beyond the need.
    pub change: u64,
}

/// What a listed coin holds.
pub open spec fn coin_view(c: ListedCoin) -> (Seq<char>, u32, i64, Seq<char>) {
    (c.0@, c.1, c.2, c.3@)
}

/// What listed coins hold.
pub open spec fn coin_views(coins: Seq<ListedCoin>) -> Seq<(Seq<char>, u32, i64, Seq<char>)> {
    Seq::new(coins.len(), |i: int| coin_view(coins[i]))
}

/// What a note is listed as.
pub open spec fn listed_as(n: Note) -> (Seq<char>, u32, i64, Seq<char>) {
    (n.tx_hash, n.output_index, n.value_raw, n.token_id)
}

/// Notes as they are listed.
pub open spec fn listing(notes: Seq<Note>) -> Seq<(Seq<char>, u32, i64, Seq<char>)> {
    Seq::new(notes.len(), |i: int| listed_as(notes[i]))
}

/// The coins of a token: those stored under its name, and for the native token those stored
/// under any of its names.
pub open spec fn of_kind(token: Seq<char>, native_hex: Seq<char>) -> spec_fn(
    (Seq<char>, u32, i64, Seq<char>),
) -> bool {
    |c: (Seq<char>, u32, i64, Seq<char>)|
        (names_native(token, native_hex) && names_native(c.3, native_hex)) || c.3 == token
}

/// The values of coins added up, each taken as unsigned.
pub open spec fn coin_sum(coins: Seq<(Seq<char>, u32, i64, Seq<char>)>) -> nat
    decreases coins.len(),
{
    if coins.len() == 0 {
        0
    } else {
        coin_sum(coins.drop_last()) + (coins.last().2 as u64) as nat
    }
}

/// The first `m` of the coins are what greedy selection takes: it goes on until the need is
/// met, or takes all.
pub open spec fn is_greedy(
    coins: Seq<(Seq<char>, u32, i64, Seq<char>)>,
    need: u64,
    m: int,
) -> bool {
    &&& 0 <= m <= coins.len()
    &&& forall|j: int| 1 <= j < m ==> coin_sum(#[trigger] coins.take(j)) < need
    &&& m < coins.len() ==> m >= 1 && coin_sum(coins.take(m)) >= need
}

/// What greedy selection takes adds up within the unsigned 64-bit range.
pub open spec fn selection_fits(
    coins: Seq<(Seq<char>, u32, i64, Seq<char>)>,
    need: u64,
) -> bool {
    forall|m: int| #[trigger] is_greedy(coins, need, m) ==> coin_sum(coins.take(m)) <= u64::MAX
}

/// What picked coins hold is what these coins hold.
pub open spec fn picks(
    picked: Seq<PickedCoin>,
    coins: Seq<(Seq<char>, u32, i64, Seq<char>)>,
) -> bool {
    &&& picked.len() == coins.len()
    &&& forall|i: int|
        0 <= i < picked.len() ==> (#[trigger] picked[i]).0@ == coins[i].0 && picked[i].1
            == coins[i].1 && picked[i].2 == coins[i].2
}

/// Whether a token is the native one, by its name or its id in hex.
fn is_native(token: &str, native_hex: &str) -> (native: bool)
    ensures
        native == names_native(token@, native_hex@),
{
    eq_ignore_ascii_case(token, "DRK") || eq_ignore_ascii_case(token, native_hex)
}

/// Whether a listed coin is of a token.
fn is_of_kind(coin: &ListedCoin, token: &str, native_hex: &str) -> (hit: bool)
    ensures
        hit == of_kind(token@, native_hex@)(coin_view(*coin)),
{
    (is_native(token, native_hex) && is_native(coin.3.as_str(), native_hex)) || str_eq(
        coin.3.as_str(),
        token,
    )
}

/// Greedy selection and the plain sum it comes to, which may leave the unsigned 64-bit range
/// with the last coin.
fn select(unspent: &Vec<ListedCoin>, token: &str, native_hex: &str, need: u64) -> (selection: (
    Vec<PickedCoin>,
    u128,
))
    ensures
        ({
            let coins = coin_views(unspent@).filter(of_kind(token@, native_hex@));
            let m = selection.0@.len() as int;
            &&& is_greedy(coins, need, m)
            &&& picks(selection.0@, coins.take(m))
            &&& selection.1 == coin_sum(coins.take(m))
        }),
{
    let ghost p = of_kind(token@, native_hex@);
    let ghost views = coin_views(unspent@);
    let ghost coins = views.filter(p);
    let mut inputs: Vec<PickedCoin> = Vec::new();
    let mut sum: u128 = 0;
    let mut i: usize = 0;
    proof {
        reveal(Seq::filter);
        assert(views.take(0) =~= Seq::empty());
        assert(coins.take(0) =~= Seq::empty());
    }
    while i < unspent.len()
        invariant
            p == of_kind(token@, native_hex@),
            views == coin_views(unspent@),
            coins == views.filter(p),
            i <= unspent.len(),
            inputs@.len() == views.take(i as int).filter(p).len(),
            inputs@.len() <= coins.len(),
            views.take(i as int).filter(p) == coins.take(inputs@.len() as int),
            picks(inputs@, coins.take(inputs@.len() as int)),
            sum == coin_sum(coins.take(inputs@.len() as int)),
            inputs@.len() > 0 ==> sum < need,
            inputs@.len() == 0 ==> sum == 0,
            forall|j: int| 1 <= j <= inputs@.len() ==> coin_sum(#[trigger] coins.take(j)) < need,
        decreases unspent.len() - i,
    {
        let ghost before = inputs@;
        let ghost m = inputs@.len() as int;
        proof {
            crate::db::model::lemma_filter_step(views, i as int, p);
            lemma_filter_prefix(views, i as int + 1, p);
        }
        if is_of_kind(&unspent[i], token, native_hex) {
            let value: u64 = #[verifier::truncate] (unspent[i].2 as u64);
            proof {
                let longer = views.take(i as int + 1).filter(p);
                assert(longer == coins.take(m).push(views[i as int]));
                assert(coins.take(m + 1) =~= longer);
                assert(coins.take(m + 1).drop_last() =~= coins.take(m));
            }
            inputs.push((unspent[i].0.clone(), unspent[i].1, unspent[i].2));
            sum = sum + value as u128;
            assert(picks(inputs@, coins.take(m + 1)));
            if sum >= need as u128 {
                assert(is_greedy(coins, need, m + 1));
                return (inputs, sum);
            }
        }
        i += 1;
    }
    assert(views.take(i as int) =~= views);
    assert(coins.take(inputs@.len() as int) =~= coins);
    (inputs, sum)
}

/// Selecting from a prefix selects a prefix.
proof fn lemma_filter_prefix<A>(s: Seq<A>, i: int, p: spec_fn(A) -> bool)
    requires
        0 <= i <= s.len(),
    ensures
        s.take(i).filter(p).len() <= s.filter(p).len(),
        s.take(i).filter(p) == s.filter(p).take(s.take(i).filter(p).len() as int),
    decreases s.len() - i,
{
    if i == s.len() {
        assert(s.take(i) =~= s);
        assert(s.filter(p).take(s.filter(p).len() as int) =~= s.filter(p));
    } else {
        lemma_filter_prefix(s, i + 1, p);
        crate::db::model::lemma_filter_step(s, i, p);
        let here = s.take(i).filter(p);
        let next = s.take(i + 1).filter(p);
        assert(here =~= next.take(here.len() as int));
        assert(here =~= s.filter(p).take(here.len() as int));
    }
}

/// Greedy selection stops in one place only.
proof fn lemma_greedy_unique(
    coins: Seq<(Seq<char>, u32, i64, Seq<char>)>,
    need: u64,
    m: int,
    n: int,
)
    requires
        is_greedy(coins, need, m),
        is_greedy(coins, need, n),
    ensures
        m == n,
{
    if m < n {
        assert(coin_sum(coins.take(m)) < need);
    } else if n < m {
        assert(coin_sum(coins.take(n)) < need);
    }
}

/// Whether the coins that greedy selection takes add up within the unsigned 64-bit range.
pub fn can_select(unspent: &Vec<ListedCoin>, token: &str, native_hex: &str, need: u64) -> (fits: bool)
    ensures
        fits == selection_fits(
            coin_views(unspent@).filter(of_kind(token@, native_hex@)),
            need,
        ),
{
    let (inputs, sum) = select(unspent, token, native_hex, need);
    proof {
        let coins = coin_views(unspent@).filter(of_kind(token@, native_hex@));
        let n = inputs@.len() as int;
        assert forall|m: int| #[trigger] is_greedy(coins, need, m) implies m == n by {
            lemma_greedy_unique(coins, need, m, n);
        }
    }
    sum <= u64::MAX as u128
}

/// Picks coins of a token, in the order of the listing, until they cover the need.
pub fn select_coins(unspent: &Vec<ListedCoin>, token: &str, native_hex: &str, need: u64) -> (
selection: (Vec<PickedCoin>, u64))
    requires
        selection_fits(coin_views(unspent@).filter(of_kind(token@, native_hex@)), need),
    ensures
        ({
            let coins = coin_views(unspent@).filter(of_kind(token@, native_hex@));
            let m = selection.0@.len() as int;
            &&& is_greedy(coins, need, m)
            &&& picks(selection.0@, coins.take(m))
            &&& selection.1 == coin_sum(coins.take(m))
        }),
{
    let (inputs, sum) = select(unspent, token, native_hex, need);
    (inputs, sum as u64)
}

impl WalletState {
    /// The listed coins of a token.
    pub open spec fn coins_of(self, token: Seq<char>) -> Seq<(Seq<char>, u32, i64, Seq<char>)> {
        listing(self.unspent_notes()).filter(of_kind(token, self.native_hex()))
    }
}

/// The payment `plan` of `amount` and `fee` is covered by the listed coins of the token.
pub open spec fn covers(
    plan: SendPlan,
    state: WalletState,
    token: Seq<char>,
    amount: u64,
    fee: u64,
) -> bool {
    let coins = state.coins_of(token);
    let m = plan.inputs@.len() as int;
    &&& plan.amount == amount
    &&& plan.fee == fee
    &&& plan.total_needed == amount + fee
    &&& is_greedy(coins, plan.total_needed, m)
    &&& picks(plan.inputs@, coins.take(m))
    &&& plan.input_total == coin_sum(coins.take(m))
    &&& plan.input_total >= plan.total_needed
    &&& plan.change == plan.input_total - plan.total_needed
}

/// A payment passes the checks of token, amount and balance, so that coins are selected for it.
pub open spec fn reaches_selection(
    state: WalletState,
    token: Seq<char>,
    amount: u64,
    fee: u64,
) -> bool {
    &&& names_native(token, state.native_hex())
    &&& amount > 0
    &&& total_fits(state.notes_of(token))
    &&& (state.balance(token) as i64) as u64 >= amount + fee
}

/// Plans a payment: checks token, amount and balance, and picks the coins that cover it.
pub fn plan_send(db: &WalletDb, token: &str, amount: u64, fee: u64) -> (plan: Result<
    SendPlan,
    SendRefusal,
>)
    requires
        names_native(token@, db@.native_hex()) && amount > 0 ==> amount + fee <= u64::MAX,
        reaches_selection(db@, token@, amount, fee) ==> selection_fits(
            db@.coins_of(token@),
            (amount + fee) as u64,
        ),
    ensures
        match plan {
            Ok(p) => reaches_selection(db@, token@, amount, fee) && covers(
                p,
                db@,
                token@,
                amount,
                fee,
            ),
            Err(SendRefusal::UnsupportedToken) => !names_native(token@, db@.native_hex()),
            Err(SendRefusal::ZeroAmount) => names_native(token@, db@.native_hex()) && amount == 0,
            Err(SendRefusal::Database(e)) => {
                &&& e is IntegerOverflow
                &&& names_native(token@, db@.native_hex())
                &&& amount > 0
                &&& !total_fits(db@.notes_of(token@))
            },
            Err(SendRefusal::InsufficientFunds { have, need }) => {
                &&& names_native(token@, db@.native_hex())
                &&& amount > 0
                &&& total_fits(db@.notes_of(token@))
                &&& have == db@.balance(token@)
                &&& need == amount + fee
                &&& (have as u64) < need
            },
            Err(SendRefusal::CannotSelect { selected, coins, need }) => {
                &&& reaches_selection(db@, token@, amount, fee)
                &&& need == amount + fee
                &&& coins == db@.coins_of(token@).len()
                &&& selected == coin_sum(db@.coins_of(token@))
                &&& selected < need
            },
        },
{
    if !db.is_drk_token(token) {
        return Err(SendRefusal::UnsupportedToken);
    }
    if amount == 0 {
        return Err(SendRefusal::ZeroAmount);
    }
    let need: u64 = amount + fee;
    let balance: i64 = match db.confirmed_balance(token) {
        Ok(b) => b,
        Err(e) => {
            return Err(SendRefusal::Database(e));
        },
    };
    if (#[verifier::truncate] (balance as u64)) < need {
        return Err(SendRefusal::InsufficientFunds { have: balance, need });
    }
    let unspent = match db.list_unspent() {
        Ok(v) => v,
        Err(e) => {
            return Err(SendRefusal::Database(e));
        },
    };
    let hex = db.dark_token_id_hex();
    assert(coin_views(unspent@) =~= listing(db@.unspent_notes()));
    let (inputs, input_total) = select_coins(&unspent, token, hex.as_str(), need);
    proof {
        let coins = db@.coins_of(token@);
        assert(coins.take(coins.len() as int) =~= coins);
    }
    if input_total < need {
        return Err(
            SendRefusal::CannotSelect { selected: input_total, coins: inputs.len(), need },
        );
    }
    Ok(
        SendPlan {
            amount,
            fee,
            total_needed: need,
            inputs,
            input_total,
            change: input_total - need,
        },
    )
}

/// A planned payment balances: the inputs are the amount, the fee and the change.
pub proof fn law_plan_balances(
    plan: SendPlan,
    state: WalletState,
    token: Seq<char>,
    amount: u64,
    fee: u64,
)
    requires
        covers(plan, state, token, amount, fee),
    ensures
        coin_sum(state.coins_of(token).take(plan.inputs@.len() as int)) == amount + fee
            + plan.change,
{
}

/// A planned payment takes no coin more than it needs: without the last input the rest would
/// not do.
pub proof fn law_plan_is_no_larger_than_needed(
    plan: SendPlan,
    state: WalletState,
    token: Seq<char>,
    amount: u64,
    fee: u64,
)
    requires
        covers(plan, state, token, amount, fee),
        amount > 0,
    ensures
        plan.inputs@.len() > 0,
        coin_sum(state.coins_of(token).take(plan.inputs@.len() - 1)) < amount + fee,
{
    let coins = state.coins_of(token);
    let m = plan.inputs@.len() as int;
    if m == 0 {
        assert(coins.take(0).len() == 0);
    } else if m == 1 {
        assert(coins.take(0).len() == 0);
    } else {
        assert(coin_sum(coins.take(m - 1)) < plan.total_needed);
    }
}

/// Where no note has a negative value, the coins of the native token hold at least its balance:
/// a balance that covers a payment is never refused for want of coins.
pub proof fn law_balance_is_selectable(state: WalletState, token: Seq<char>)
    requires
        names_native(token, state.native_hex()),
        forall|i: int|
            0 <= i < state.notes.len() ==> (#[trigger] state.notes[i]).value_raw >= 0,
    ensures
        coin_sum(state.coins_of(token)) >= state.balance(token),
{
    let hex = state.native_hex();
    let notes = state.unspent_notes();
    crate::db::laws::law_balance_is_what_is_listed(state, token);
    assert forall|k: int| 0 <= k < notes.len() implies (#[trigger] notes[k]).value_raw >= 0 by {
        let f = state.notes.filter(crate::db::model::unspent());
        crate::db::spending::lemma_by_height_member(f, k);
        let j = choose|j: int| 0 <= j < f.len() && f[j] == notes[k];
        crate::db::model::lemma_filter_member(state.notes, crate::db::model::unspent(), j);
        let i = choose|i: int| 0 <= i < state.notes.len() && state.notes[i] == f[j];
        assert(state.notes[i].value_raw >= 0);
    }
    lemma_coins_outweigh(notes, token, hex);
}

proof fn lemma_coins_outweigh(notes: Seq<Note>, token: Seq<char>, hex: Seq<char>)
    requires
        names_native(token, hex),
        forall|k: int| 0 <= k < notes.len() ==> (#[trigger] notes[k]).value_raw >= 0,
    ensures
        coin_sum(listing(notes).filter(of_kind(token, hex))) >= total(
            notes.filter(of_token(token, hex)),
        ),
    decreases notes.len(),
{
    reveal(Seq::filter);
    let p = of_kind(token, hex);
    let q = of_token(token, hex);
    if notes.len() > 0 {
        let rest = notes.drop_last();
        let n = notes.last();
        assert(notes[notes.len() - 1] == n);
        assert forall|k: int| 0 <= k < rest.len() implies (#[trigger] rest[k]).value_raw >= 0 by {
            assert(rest[k] == notes[k]);
        }
        lemma_coins_outweigh(rest, token, hex);
        assert(listing(notes).drop_last() =~= listing(rest));
        let had = listing(rest).filter(p);
        if p(listed_as(n)) {
            assert(had.push(listed_as(n)).drop_last() =~= had);
        }
        if q(n) {
            assert(rest.filter(q).push(n).drop_last() =~= rest.filter(q));
            assert(names_native(n.token_id, hex)) by {
                reveal_strlit("DRK");
                reveal_strlit("drk");
            }
        }
    }
}

/// What the server said to a broadcast.
#[derive(Debug, Clone, Copy, PartialEq, Eq, Structural)]
pub enum BroadcastVerdict {
    /// The server reported an error.
    Refused,
    /// The transaction was taken, its clue was not.
    ClueRefused,
    /// All was taken; a clue was stored or not.
    Accepted { clue_stored: bool },
}

/// An error report that stands for no error: an empty one, or `0`.
pub open spec fn no_error(error: Seq<char>) -> bool {
    error.len() == 0 || error == "0"@
}

/// The verdict on a broadcast with or without a clue.
pub open spec fn verdict(error: Seq<char>, has_clue: bool, clue_accepted: bool) -> BroadcastVerdict {
    if !no_error(error) {
        BroadcastVerdict::Refused
    } else if has_clue && !clue_accepted {
        BroadcastVerdict::ClueRefused
    } else {
        BroadcastVerdict::Accepted { clue_stored: clue_accepted }
    }
}

/// Whether an error report stands for no error.
pub fn reports_no_error(error: &str) -> (none: bool)
    ensures
        none == no_error(error@),
{
    proof {
        reveal_strlit("");
        assert(error@.len() == 0 ==> error@ =~= ""@);
    }
    str_eq(error, "") || str_eq(error, "0")
}

/// Judges the server's answer to a payment's broadcast. A payment whose clue was not taken is
/// not a success: its recipient would not find it.
pub fn judge_broadcast(error: &str, omr_clue: &[u8], clue_accepted: bool) -> (judged:
    BroadcastVerdict)
    ensures
        judged == verdict(error@, omr_clue@.len() > 0, clue_accepted),
{
    if !reports_no_error(error) {
        BroadcastVerdict::Refused
    } else if omr_clue.len() > 0 && !clue_accepted {
        BroadcastVerdict::ClueRefused
    } else {
        BroadcastVerdict::Accepted { clue_stored: clue_accepted }
    }
}

/// A broadcast with a clue succeeds only if the clue was taken.
pub proof fn law_clue_is_never_lost(error: Seq<char>, clue_accepted: bool)
    ensures
        verdict(error, true, clue_accepted) is Accepted ==> clue_accepted && no_error(error),
{
}

/// The database after the notes with these commitments were marked as spent.
pub open spec fn commitments_spent(state: WalletState, spent: Seq<Seq<u8>>) -> WalletState
    decreases spent.len(),
{
    if spent.len() == 0 {
        state
    } else {
        commitments_spent(state, spent.drop_last()).notes_updated(
            with_commitment(spent.last()),
            set_spent(true),
        )
    }
}

/// The database after the notes with these nullifiers were marked as spent.
pub open spec fn nullifiers_spent(state: WalletState, spent: Seq<Seq<u8>>) -> WalletState
    decreases spent.len(),
{
    if spent.len() == 0 {
        state
    } else {
        nullifiers_spent(state, spent.drop_last()).notes_updated(
            with_nullifier(spent.last()),
            set_spent(true),
        )
    }
}

/// The history entry of a payment that waits in the mempool.
pub open spec fn outgoing(
    tx_hash: Seq<char>,
    amount: u64,
    token: Seq<char>,
    to: Seq<char>,
    memo: Option<Seq<char>>,
    timestamp: Seq<char>,
) -> TxRecord {
    TxRecord {
        hash: tx_hash,
        block_height: 0,
        direction: "outgoing"@,
        value_raw: amount as i64,
        token_id: token,
        counterparty: Some(to),
        memo,
        timestamp,
    }
}

/// Records a payment that was broadcast: its coins are marked as spent, so that the next payment
/// cannot publish their nullifiers again, and it enters the history at height `0`.
pub fn record_sent(
    db: &mut WalletDb,
    tx_hash: &str,
    amount: u64,
    token: &str,
    to: &str,
    memo: Option<&str>,
    timestamp: &str,
    spent_commitments: &Vec<Vec<u8>>,
    spent_nullifiers: &Vec<Vec<u8>>,
) -> (done: Result<(), DbError>)
    requires
        old(db).wf(),
    ensures
        final(db).wf(),
        done is Ok,
        final(db)@ == nullifiers_spent(
            commitments_spent(old(db)@, byte_views(spent_commitments@)),
            byte_views(spent_nullifiers@),
        ).recorded(outgoing(tx_hash@, amount, token@, to@, opt_str(memo), timestamp@)),
{
    let ghost start = db@;
    let ghost cs = byte_views(spent_commitments@);
    let ghost ns = byte_views(spent_nullifiers@);
    let mut i: usize = 0;
    assert(cs.take(0) =~= Seq::empty());
    while i < spent_commitments.len()
        invariant
            db.wf(),
            i <= spent_commitments.len(),
            cs == byte_views(spent_commitments@),
            db@ == commitments_spent(start, cs.take(i as int)),
        decreases spent_commitments.len() - i,
    {
        assert(cs.take(i as int + 1).drop_last() =~= cs.take(i as int));
        let _ = db.mark_note_spent_by_commitment(spent_commitments[i].as_slice());
        i += 1;
    }
    assert(cs.take(i as int) =~= cs);
    let ghost middle = db@;
    let mut j: usize = 0;
    assert(ns.take(0) =~= Seq::empty());
    while j < spent_nullifiers.len()
        invariant
            db.wf(),
            j <= spent_nullifiers.len(),
            ns == byte_views(spent_nullifiers@),
            db@ == nullifiers_spent(middle, ns.take(j as int)),
        decreases spent_nullifiers.len() - j,
    {
        assert(ns.take(j as int + 1).drop_last() =~= ns.take(j as int));
        let _ = db.mark_note_spent(spent_nullifiers[j].as_slice());
        j += 1;
    }
    assert(ns.take(j as int) =~= ns);
    db.insert_transaction(
        tx_hash,
        0,
        "outgoing",
        #[verifier::truncate] (amount as i64),
        token,
        Some(to),
        memo,
        timestamp,
    )
}

proof fn lemma_commitments_spent(state: WalletState, spent: Seq<Seq<u8>>, i: int)
    requires
        0 <= i < state.notes.len(),
    ensures
        ({
            let after = commitments_spent(state, spent);
            &&& after.notes.len() == state.notes.len()
            &&& after.notes[i] == (Note { spent: after.notes[i].spent, ..state.notes[i] })
            &&& state.notes[i].spent ==> after.notes[i].spent
            &&& forall|k: int|
                0 <= k < spent.len() && state.notes[i].commitment == Some(#[trigger] spent[k])
                    ==> after.notes[i].spent
        }),
    decreases spent.len(),
{
    if spent.len() > 0 {
        let rest = spent.drop_last();
        lemma_commitments_spent(state, rest, i);
        assert forall|k: int|
            0 <= k < spent.len() && state.notes[i].commitment == Some(
                #[trigger] spent[k],
            ) implies commitments_spent(state, spent).notes[i].spent by {
            if k < rest.len() {
                assert(rest[k] == spent[k]);
            }
        }
    }
}

proof fn lemma_nullifiers_spent(state: WalletState, spent: Seq<Seq<u8>>, i: int)
    requires
        0 <= i < state.notes.len(),
    ensures
        ({
            let after = nullifiers_spent(state, spent);
            &&& after.notes.len() == state.notes.len()
            &&& after.notes[i] == (Note { spent: after.notes[i].spent, ..state.notes[i] })
            &&& state.notes[i].spent ==> after.notes[i].spent
            &&& forall|k: int|
                0 <= k < spent.len() && state.notes[i].nullifier == Some(#[trigger] spent[k])
                    ==> after.notes[i].spent
        }),
    decreases spent.len(),
{
    if spent.len() > 0 {
        let rest = spent.drop_last();
        lemma_nullifiers_spent(state, rest, i);
        assert forall|k: int|
            0 <= k < spent.len() && state.notes[i].nullifier == Some(
                #[trigger] spent[k],
            ) implies nullifiers_spent(state, spent).notes[i].spent by {
            if k < rest.len() {
                assert(rest[k] == spent[k]);
            }
        }
    }
}

/// After a payment was recorded, every note with one of its commitments or nullifiers is spent,
/// every other note is as it was, and no note changed in anything else.
pub proof fn law_recorded_coins_are_spent(
    state: WalletState,
    commitments: Seq<Seq<u8>>,
    nullifiers: Seq<Seq<u8>>,
    entry: TxRecord,
    i: int,
)
    requires
        0 <= i < state.notes.len(),
    ensures
        ({
            let after = nullifiers_spent(
                commitments_spent(state, commitments),
                nullifiers,
            ).recorded(entry);
            let was = state.notes[i];
            let now = after.notes[i];
            &&& after.notes.len() == state.notes.len()
            &&& now == (Note { spent: now.spent, ..was })
            &&& forall|k: int|
                0 <= k < commitments.len() && was.commitment == Some(#[trigger] commitments[k])
                    ==> now.spent
            &&& forall|k: int|
                0 <= k < nullifiers.len() && was.nullifier == Some(#[trigger] nullifiers[k])
                    ==> now.spent
            &&& now.spent && !was.spent ==> (was.commitment matches Some(c) && commitments.contains(
                c,
            )) || (was.nullifier matches Some(nf) && nullifiers.contains(nf))
        }),
{
    let middle = commitments_spent(state, commitments);
    lemma_commitments_spent(state, commitments, i);
    lemma_nullifiers_spent(middle, nullifiers, i);
    lemma_only_named_commitments(state, commitments, i);
    lemma_only_named_nullifiers(middle, nullifiers, i);
}

proof fn lemma_only_named_commitments(state: WalletState, spent: Seq<Seq<u8>>, i: int)
    requires
        0 <= i < state.notes.len(),
    ensures
        commitments_spent(state, spent).notes[i].spent && !state.notes[i].spent
            ==> (state.notes[i].commitment matches Some(c) && spent.contains(c)),
    decreases spent.len(),
{
    if spent.len() > 0 {
        let rest = spent.drop_last();
        lemma_only_named_commitments(state, rest, i);
        lemma_commitments_spent(state, rest, i);
        assert(spent[spent.len() - 1] == spent.last());
        if let Some(c) = state.notes[i].commitment {
            if rest.contains(c) {
                let k = choose|k: int| 0 <= k < rest.len() && rest[k] == c;
                assert(spent[k] == c);
            }
        }
    }
}

proof fn lemma_only_named_nullifiers(state: WalletState, spent: Seq<Seq<u8>>, i: int)
    requires
        0 <= i < state.notes.len(),
    ensures
        nullifiers_spent(state, spent).notes[i].spent && !state.notes[i].spent
            ==> (state.notes[i].nullifier matches Some(nf) && spent.contains(nf)),
    decreases spent.len(),
{
    if spent.len() > 0 {
        let rest = spent.drop_last();
        lemma_only_named_nullifiers(state, rest, i);
        lemma_nullifiers_spent(state, rest, i);
        assert(spent[spent.len() - 1] == spent.last());
        if let Some(c) = state.notes[i].nullifier {
            if rest.contains(c) {
                let k = choose|k: int| 0 <= k < rest.len() && rest[k] == c;
                assert(spent[k] == c);
            }
        }
    }
}

// ---- What a payment promises, over inputs and results ----

/// A recorded payment's entry says what was paid: its hash, the amount and the token, to whom,
/// with which memo and when, as outgoing and not yet in a block.
pub proof fn law_payment_entry(
    tx_hash: Seq<char>,
    amount: u64,
    token: Seq<char>,
    to: Seq<char>,
    memo: Option<Seq<char>>,
    timestamp: Seq<char>,
)
    ensures
        ({
            let entry = outgoing(tx_hash, amount, token, to, memo, timestamp);
            &&& entry.hash == tx_hash
            &&& entry.block_height == 0
            &&& entry.direction == "outgoing"@
            &&& amount <= i64::MAX ==> entry.value_raw == amount
            &&& entry.value_raw == amount as i64
            &&& entry.token_id == token
            &&& entry.counterparty == Some(to)
            &&& entry.memo == memo
            &&& entry.timestamp == timestamp
        }),
{
}

proof fn lemma_only_notes_change(state: WalletState, commitments: Seq<Seq<u8>>, nullifiers: Seq<Seq<u8>>)
    ensures
        commitments_spent(state, commitments) == (WalletState {
            notes: commitments_spent(state, commitments).notes,
            ..state
        }),
        nullifiers_spent(state, nullifiers) == (WalletState {
            notes: nullifiers_spent(state, nullifiers).notes,
            ..state
        }),
    decreases commitments.len() + nullifiers.len(),
{
    if commitments.len() > 0 {
        lemma_only_notes_change(state, commitments.drop_last(), Seq::empty());
    }
    if nullifiers.len() > 0 {
        lemma_only_notes_change(state, Seq::empty(), nullifiers.drop_last());
    }
}

/// A payment with a new hash is recorded at the end of the history, with the given amount, token,
/// recipient, memo and time, as outgoing at height zero. Every other entry, and everything but
/// notes and history, stays as it was.
pub proof fn law_payment_is_recorded(
    state: WalletState,
    commitments: Seq<Seq<u8>>,
    nullifiers: Seq<Seq<u8>>,
    tx_hash: Seq<char>,
    amount: u64,
    token: Seq<char>,
    to: Seq<char>,
    memo: Option<Seq<char>>,
    timestamp: Seq<char>,
)
    requires
        forall|i: int|
            0 <= i < state.transactions.len() ==> (#[trigger] state.transactions[i]).hash
                != tx_hash,
    ensures
        ({
            let after = nullifiers_spent(
                commitments_spent(state, commitments),
                nullifiers,
            ).recorded(outgoing(tx_hash, amount, token, to, memo, timestamp));
            let entry = after.transactions.last();
            &&& after == (WalletState {
                notes: after.notes,
                transactions: after.transactions,
                ..state
            })
            &&& after.transactions.len() == state.transactions.len() + 1
            &&& after.transactions.drop_last() == state.transactions
            &&& entry.hash == tx_hash
            &&& entry.block_height == 0
            &&& entry.direction == "outgoing"@
            &&& entry.value_raw == amount as i64
            &&& entry.token_id == token
            &&& entry.counterparty == Some(to)
            &&& entry.memo == memo
            &&& entry.timestamp == timestamp
        }),
{
    let middle = commitments_spent(state, commitments);
    lemma_only_notes_change(state, commitments, Seq::empty());
    lemma_only_notes_change(middle, Seq::empty(), nullifiers);
    let before = nullifiers_spent(middle, nullifiers);
    let entry = outgoing(tx_hash, amount, token, to, memo, timestamp);
    assert(before.transactions == state.transactions);
    crate::db::effects::law_new_entry_is_kept(before, entry);
    assert((state.transactions + seq![entry]).drop_last() =~= state.transactions);
}

/// A payment with a hash that the history knows leaves every entry's contents as they were.
pub proof fn law_payment_recorded_again(
    state: WalletState,
    commitments: Seq<Seq<u8>>,
    nullifiers: Seq<Seq<u8>>,
    entry: TxRecord,
    k: int,
    i: int,
)
    requires
        0 <= k < state.transactions.len(),
        state.transactions[k].hash == entry.hash,
        entry.block_height == 0,
        0 <= i < state.transactions.len(),
    ensures
        ({
            let after = nullifiers_spent(
                commitments_spent(state, commitments),
                nullifiers,
            ).recorded(entry);
            &&& after.transactions.len() == state.transactions.len()
            &&& after.transactions[i] == state.transactions[i]
        }),
{
    let middle = commitments_spent(state, commitments);
    lemma_only_notes_change(state, commitments, Seq::empty());
    lemma_only_notes_change(middle, Seq::empty(), nullifiers);
    let before = nullifiers_spent(middle, nullifiers);
    crate::db::effects::law_known_entry_moves_once(before, entry, i, k);
}

/// After a payment was recorded a note is spent exactly where it was so before, or has one of the
/// payment's commitments or nullifiers.
pub proof fn law_recorded_coins_and_no_others(
    state: WalletState,
    commitments: Seq<Seq<u8>>,
    nullifiers: Seq<Seq<u8>>,
    entry: TxRecord,
    i: int,
)
    requires
        0 <= i < state.notes.len(),
    ensures
        ({
            let after = nullifiers_spent(
                commitments_spent(state, commitments),
                nullifiers,
            ).recorded(entry);
            let (was, now) = (state.notes[i], after.notes[i]);
            &&& after.notes.len() == state.notes.len()
            &&& now == (Note { spent: now.spent, ..was })
            &&& now.spent <==> was.spent || (was.commitment is Some && commitments.contains(
                was.commitment->0,
            )) || (was.nullifier is Some && nullifiers.contains(was.nullifier->0))
        }),
{
    law_recorded_coins_are_spent(state, commitments, nullifiers, entry, i);
    let middle = commitments_spent(state, commitments);
    lemma_commitments_spent(state, commitments, i);
    lemma_nullifiers_spent(middle, nullifiers, i);
    let was = state.notes[i];
    if was.commitment is Some && commitments.contains(was.commitment->0) {
        let k = choose|k: int| 0 <= k < commitments.len() && commitments[k] == was.commitment->0;
        assert(was.commitment == Some(commitments[k]));
    }
    if was.nullifier is Some && nullifiers.contains(was.nullifier->0) {
        let k = choose|k: int| 0 <= k < nullifiers.len() && nullifiers[k] == was.nullifier->0;
        assert(was.nullifier == Some(nullifiers[k]));
    }
}

/// A broadcast is refused exactly where the server reports an error other than none or `0`; it
/// lost its clue exactly where there was one that the server did not take; else it is accepted,
/// and a clue is stored exactly where the server took it.
pub proof fn law_verdict(error: Seq<char>, has_clue: bool, clue_accepted: bool)
    ensures
        ({
            let none = error.len() == 0 || error == seq!['0'];
            &&& verdict(error, has_clue, clue_accepted) == BroadcastVerdict::Refused <==> !none
            &&& verdict(error, has_clue, clue_accepted) == BroadcastVerdict::ClueRefused <==> none
                && has_clue && !clue_accepted
            &&& verdict(error, has_clue, clue_accepted) == (BroadcastVerdict::Accepted {
                clue_stored: true,
            }) <==> none && clue_accepted
            &&& verdict(error, has_clue, clue_accepted) == (BroadcastVerdict::Accepted {
                clue_stored: false,
            }) <==> none && !has_clue && !clue_accepted
        }),
        no_error(error) <==> error.len() == 0 || error == seq!['0'],
{
    reveal_strlit("0");
    assert("0"@ =~= seq!['0']);
}

/// A listed coin and a listed note show hash, output, value and token.
pub proof fn law_listing_shows(c: ListedCoin, coins: Seq<ListedCoin>, notes: Seq<Note>, i: int)
    ensures
        coin_view(c).0 == c.0@,
        coin_view(c).1 == c.1,
        coin_view(c).2 == c.2,
        coin_view(c).3 == c.3@,
        coin_views(coins).len() == coins.len(),
        0 <= i < coins.len() ==> coin_views(coins)[i] == (
            coins[i].0@,
            coins[i].1,
            coins[i].2,
            coins[i].3@,
        ),
        listing(notes).len() == notes.len(),
        0 <= i < notes.len() ==> listing(notes)[i] == (
            notes[i].tx_hash,
            notes[i].output_index,
            notes[i].value_raw,
            notes[i].token_id,
        ),
{
}

/// A coin is of a token where it is stored under the token's name, or both name the native token:
/// by `DRK` or by the token's id in hex, each in any case.
pub proof fn law_coins_of_a_kind(
    token: Seq<char>,
    native_hex: Seq<char>,
    c: (Seq<char>, u32, i64, Seq<char>),
)
    ensures
        of_kind(token, native_hex)(c) <==> c.3 == token || ((same_ignoring_case(token, "DRK"@)
            || same_ignoring_case(token, native_hex)) && (same_ignoring_case(c.3, "DRK"@)
            || same_ignoring_case(c.3, native_hex))),
{
}

/// The sum of coins is that of their values, coin by coin.
pub proof fn law_coin_sum(
    coins: Seq<(Seq<char>, u32, i64, Seq<char>)>,
    more: Seq<(Seq<char>, u32, i64, Seq<char>)>,
    c: (Seq<char>, u32, i64, Seq<char>),
)
    ensures
        coin_sum(Seq::empty()) == 0,
        c.2 >= 0 ==> coin_sum(coins.push(c)) == coin_sum(coins) + c.2,
        c.2 < 0 ==> coin_sum(coins.push(c)) == coin_sum(coins) + c.2 as u64,
        coin_sum(coins + more) == coin_sum(coins) + coin_sum(more),
    decreases more.len(),
{
    assert(coins.push(c).drop_last() =~= coins);
    if more.len() == 0 {
        assert(coins + more =~= coins);
    } else {
        assert((coins + more).drop_last() =~= coins + more.drop_last());
        law_coin_sum(coins, more.drop_last(), c);
    }
}

/// For a need above zero greedy selection takes as few of the first coins as cover it, and all of
/// them where they do not; for no need it takes one coin where there is one.
pub proof fn law_greedy_takes_the_fewest(
    coins: Seq<(Seq<char>, u32, i64, Seq<char>)>,
    need: u64,
    m: int,
    k: int,
)
    requires
        is_greedy(coins, need, m),
        0 <= k <= coins.len(),
    ensures
        0 <= m <= coins.len(),
        need > 0 && k < m ==> coin_sum(coins.take(k)) < need,
        need > 0 && coin_sum(coins.take(k)) >= need ==> m <= k && coin_sum(coins.take(m)) >= need,
        need > 0 && coin_sum(coins.take(m)) < need ==> m == coins.len(),
        need == 0 && coins.len() > 0 ==> m == 1,
{
    assert(coins.take(0).len() == 0);
    if need == 0 && coins.len() > 0 && m > 1 {
        assert(coin_sum(coins.take(1)) < need);
    }
    if need > 0 && 1 <= k < m {
        assert(coin_sum(coins.take(k)) < need);
    }
    if need > 0 && coin_sum(coins.take(k)) >= need && coin_sum(coins.take(m)) < need {
        assert(m == coins.len());
        assert(coins.take(k) + coins.skip(k) =~= coins);
        law_coin_sum(coins.take(k), coins.skip(k), (Seq::empty(), 0u32, 0i64, Seq::empty()));
        assert(coins.take(m) =~= coins);
    }
}

/// A selection of as few of the first coins as cover the need is what greedy selection takes.
pub proof fn law_fewest_is_greedy(
    coins: Seq<(Seq<char>, u32, i64, Seq<char>)>,
    need: u64,
    m: int,
)
    requires
        need > 0,
        0 <= m <= coins.len(),
        forall|k: int| 0 <= k < m ==> coin_sum(#[trigger] coins.take(k)) < need,
        m == coins.len() || coin_sum(coins.take(m)) >= need,
    ensures
        is_greedy(coins, need, m),
{
    assert(coins.take(0).len() == 0);
}

/// Whether a selection fits is whether the coins that are taken add up within the unsigned 64-bit
/// range.
pub proof fn law_selection_fits(
    coins: Seq<(Seq<char>, u32, i64, Seq<char>)>,
    need: u64,
    m: int,
)
    requires
        is_greedy(coins, need, m),
    ensures
        selection_fits(coins, need) <==> coin_sum(coins.take(m)) <= u64::MAX,
{
    assert forall|n: int| #[trigger] is_greedy(coins, need, n) implies n == m by {
        lemma_greedy_unique(coins, need, m, n);
    }
}

/// Picked coins show hash, output and value of the coins they stand for, in their order.
pub proof fn law_picked_coins(
    picked: Seq<PickedCoin>,
    coins: Seq<(Seq<char>, u32, i64, Seq<char>)>,
    i: int,
)
    requires
        picks(picked, coins),
    ensures
        picked.len() == coins.len(),
        0 <= i < picked.len() ==> picked[i].0@ == coins[i].0 && picked[i].1 == coins[i].1
            && picked[i].2 == coins[i].2,
{
}

/// Coins of a token are reached for exactly where the token is native, something is paid, and the
/// balance can be told and covers amount and fee.
pub proof fn law_when_coins_are_selected(
    state: WalletState,
    token: Seq<char>,
    amount: u64,
    fee: u64,
)
    ensures
        reaches_selection(state, token, amount, fee) ==> (same_ignoring_case(token, "DRK"@)
            || same_ignoring_case(token, state.native_hex())) && amount > 0 && i64::MIN
            <= state.balance(token) <= i64::MAX,
        reaches_selection(state, token, amount, fee) && state.balance(token) >= 0
            ==> state.balance(token) >= amount + fee,
        (same_ignoring_case(token, "DRK"@) || same_ignoring_case(token, state.native_hex()))
            && amount > 0 && total_fits(state.notes_of(token)) && state.balance(token) >= amount
            + fee ==> reaches_selection(state, token, amount, fee),
        reaches_selection(state, token, amount, fee) ==> total_fits(state.notes_of(token)),
{
    let notes = state.notes_of(token);
    if total_fits(notes) {
        assert(notes.len() == 0 ==> total(notes) == 0);
    }
}

/// A planned payment is for the amount and fee asked for, and each of its inputs is an unspent
/// note of the wallet that is stored under a name of the native token.
pub proof fn law_plan_spends_own_notes(
    plan: SendPlan,
    state: WalletState,
    token: Seq<char>,
    amount: u64,
    fee: u64,
    i: int,
)
    requires
        covers(plan, state, token, amount, fee),
        same_ignoring_case(token, "DRK"@) || same_ignoring_case(token, state.native_hex()),
    ensures
        plan.amount == amount,
        plan.fee == fee,
        plan.total_needed == amount + fee,
        plan.input_total == amount + fee + plan.change,
        plan.input_total == coin_sum(state.coins_of(token).take(plan.inputs@.len() as int)),
        0 <= i < plan.inputs@.len() ==> exists|n: Note|
            {
                &&& #[trigger] state.notes.contains(n)
                &&& !n.spent
                &&& plan.inputs@[i].0@ == n.tx_hash
                &&& plan.inputs@[i].1 == n.output_index
                &&& plan.inputs@[i].2 == n.value_raw
                &&& n.token_id == token || same_ignoring_case(n.token_id, "DRK"@)
                    || same_ignoring_case(n.token_id, state.native_hex())
            },
{
    if 0 <= i < plan.inputs@.len() {
        let notes = state.unspent_notes();
        let coins = state.coins_of(token);
        let p = of_kind(token, state.native_hex());
        assert(coins.take(plan.inputs@.len() as int)[i] == coins[i]);
        crate::db::model::lemma_filter_member(listing(notes), p, i);
        let k = choose|k: int| 0 <= k < listing(notes).len() && listing(notes)[k] == coins[i];
        crate::db::effects::law_unspent_notes_are_complete(state, 0, k);
        law_coins_of_a_kind(token, state.native_hex(), coins[i]);
        assert(state.notes.contains(notes[k]));
    }
}

/// The coins of a token are the listed unspent notes of it, in the order of the listing.
pub proof fn law_coins_are_listed(state: WalletState, token: Seq<char>)
    ensures
        state.coins_of(token) == listing(state.unspent_notes()).filter(
            of_kind(token, state.native_hex()),
        ),
{
}

} // verus!
