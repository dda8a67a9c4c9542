//! What a payment's transaction is made of.
//!
//! Proofs, notes and signatures come from the chain's own crates. Which coins are spent, where
//! the fee comes from, how the published roots are held against the wallet's tree and how the
//! calls are laid out in bytes is settled here.
use crate::bytes::{append_bytes, byte_views, copy_bytes};
use crate::coins::SpendCoin;
use crate::field::{is_scalar, le_value, scalar_add, scalar_modulus, scalar_sub};
use crate::hexcodec::{hex_encode, hex_text};
use crate::serial::{law_le_bytes_read_back, le_bytes, serialize_u64};
use crate::text::{append_decimal, bytes_eq, decimal, str_eq};
use vstd::arithmetic::power2::{lemma2_to64, lemma_pow2_pos, lemma_pow2_unfold, pow2};
use vstd::prelude::*;

verus! {

// ---- Merkle paths ----

/// Bit `level` of a number, the least first.
pub open spec fn bit(n: nat, level: nat) -> bool
    decreases level,
{
    if level == 0 {
        n % 2 == 1
    } else {
        bit(n / 2, (level - 1) as nat)
    }
}

/// `combine` takes any two nodes at any level.
pub open spec fn can_combine<C: Fn(u8, &[u8; 32], &[u8; 32]) -> [u8; 32]>(combine: C) -> bool {
    forall|level: u8, l: &[u8; 32], r: &[u8; 32]| call_requires(combine, (level, l, r))
}

/// `combine` can give this parent for these children.
pub open spec fn combines<C: Fn(u8, &[u8; 32], &[u8; 32]) -> [u8; 32]>(
    combine: C,
    level: u8,
    left: Seq<u8>,
    right: Seq<u8>,
    parent: Seq<u8>,
) -> bool {
    exists|l: &[u8; 32], r: &[u8; 32], p: [u8; 32]|
        l@ == left && r@ == right && p@ == parent && #[trigger] call_ensures(
            combine,
            (level, l, r),
            p,
        )
}

/// The nodes of a path.
pub open spec fn nodes_of(path: Seq<[u8; 32]>) -> Seq<Seq<u8>> {
    Seq::new(path.len(), |i: int| path[i]@)
}

/// `climb` goes from a leaf at this position up along the siblings of a path: a node stands left
/// of its sibling where the position's bit of that level is clear.
pub open spec fn climbs<C: Fn(u8, &[u8; 32], &[u8; 32]) -> [u8; 32]>(
    combine: C,
    leaf: Seq<u8>,
    position: u64,
    path: Seq<Seq<u8>>,
    climb: Seq<Seq<u8>>,
) -> bool {
    &&& climb.len() == path.len() + 1
    &&& climb[0] == leaf
    &&& forall|i: int|
        0 <= i < path.len() ==> if bit(position as nat, i as nat) {
            combines(combine, i as u8, #[trigger] path[i], climb[i], climb[i + 1])
        } else {
            combines(combine, i as u8, climb[i], path[i], climb[i + 1])
        }
}

/// A path can lead from a leaf at this position to a root.
pub open spec fn leads_to<C: Fn(u8, &[u8; 32], &[u8; 32]) -> [u8; 32]>(
    combine: C,
    leaf: Seq<u8>,
    position: u64,
    path: Seq<Seq<u8>>,
    root: Seq<u8>,
) -> bool {
    exists|climb: Seq<Seq<u8>>| #[trigger]
        climbs(combine, leaf, position, path, climb) && climb.last() == root
}

/// The root that a path leads to from a coin at this position.
pub fn merkle_root_from_path<C: Fn(u8, &[u8; 32], &[u8; 32]) -> [u8; 32]>(
    coin: [u8; 32],
    position: u64,
    path: &Vec<[u8; 32]>,
    combine: &C,
) -> (root: [u8; 32])
    requires
        path@.len() <= 64,
        can_combine(*combine),
    ensures
        leads_to(*combine, coin@, position, nodes_of(path@), root@),
{
    let ghost nodes = nodes_of(path@);
    let ghost mut climb: Seq<Seq<u8>> = seq![coin@];
    let mut current: [u8; 32] = coin;
    let mut rest: u64 = position;
    let mut level: usize = 0;
    while level < path.len()
        invariant
            path@.len() <= 64,
            can_combine(*combine),
            level <= path.len(),
            nodes == nodes_of(path@),
            climb.len() == level + 1,
            climb[0] == coin@,
            climb[level as int] == current@,
            forall|j: nat| #[trigger] bit(rest as nat, j) == bit(position as nat, level as nat + j),
            forall|i: int|
                0 <= i < level ==> if bit(position as nat, i as nat) {
                    combines(*combine, i as u8, #[trigger] nodes[i], climb[i], climb[i + 1])
                } else {
                    combines(*combine, i as u8, climb[i], nodes[i], climb[i + 1])
                },
        decreases path.len() - level,
    {
        let ghost before = climb;
        let sibling: [u8; 32] = path[level];
        assert(nodes[level as int] == sibling@);
        assert(bit(rest as nat, 0) == bit(position as nat, level as nat));
        let next: [u8; 32] = if rest % 2 == 0 {
            let p = combine(level as u8, &current, &sibling);
            assert(combines(*combine, level as u8, current@, sibling@, p@));
            p
        } else {
            let p = combine(level as u8, &sibling, &current);
            assert(combines(*combine, level as u8, sibling@, current@, p@));
            p
        };
        proof {
            climb = climb.push(next@);
            assert forall|j: nat| #[trigger]
                bit((rest / 2) as nat, j) == bit(position as nat, (level + 1) as nat + j) by {
                assert(bit(rest as nat, j + 1) == bit(position as nat, level as nat + (j + 1)));
            }
            assert forall|i: int| 0 <= i < level + 1 implies if bit(position as nat, i as nat) {
                combines(*combine, i as u8, #[trigger] nodes[i], climb[i], climb[i + 1])
            } else {
                combines(*combine, i as u8, climb[i], nodes[i], climb[i + 1])
            } by {
                if i < level {
                    assert(climb[i] == before[i] && climb[i + 1] == before[i + 1]);
                }
            }
        }
        current = next;
        rest = rest / 2;
        level += 1;
    }
    proof {
        assert(climbs(*combine, coin@, position, nodes, climb));
        assert(climb.last() == current@);
    }
    current
}

/// `combine` gives one parent for the same children at the same level.
pub open spec fn combines_steadily<C: Fn(u8, &[u8; 32], &[u8; 32]) -> [u8; 32]>(
    combine: C,
) -> bool {
    forall|level: u8, l: Seq<u8>, r: Seq<u8>, a: Seq<u8>, b: Seq<u8>| #[trigger]
        combines(combine, level, l, r, a) && #[trigger] combines(combine, level, l, r, b) ==> a
            == b
}

/// `combine` can give this parent for a node and its sibling at this level of a position.
pub open spec fn steps_to<C: Fn(u8, &[u8; 32], &[u8; 32]) -> [u8; 32]>(
    combine: C,
    position: u64,
    level: nat,
    node: Seq<u8>,
    sibling: Seq<u8>,
    parent: Seq<u8>,
) -> bool {
    if bit(position as nat, level) {
        combines(combine, level as u8, sibling, node, parent)
    } else {
        combines(combine, level as u8, node, sibling, parent)
    }
}

/// Without siblings a leaf is its own root.
pub proof fn law_empty_path_leads_to_leaf<C: Fn(u8, &[u8; 32], &[u8; 32]) -> [u8; 32]>(
    combine: C,
    leaf: Seq<u8>,
    position: u64,
    root: Seq<u8>,
)
    ensures
        leads_to(combine, leaf, position, Seq::empty(), root) == (root == leaf),
{
    if root == leaf {
        assert(climbs(combine, leaf, position, Seq::empty(), seq![leaf]));
    }
}

/// One more sibling takes the root one step further: the root below stands left of the sibling
/// where the position's bit of that level is clear.
pub proof fn law_path_leads_step_by_step<C: Fn(u8, &[u8; 32], &[u8; 32]) -> [u8; 32]>(
    combine: C,
    leaf: Seq<u8>,
    position: u64,
    path: Seq<Seq<u8>>,
    sibling: Seq<u8>,
    root: Seq<u8>,
)
    ensures
        leads_to(combine, leaf, position, path.push(sibling), root) == exists|below: Seq<u8>|
            #[trigger] leads_to(combine, leaf, position, path, below) && steps_to(
                combine,
                position,
                path.len(),
                below,
                sibling,
                root,
            ),
{
    let longer = path.push(sibling);
    let n = path.len() as int;
    if leads_to(combine, leaf, position, longer, root) {
        let climb = choose|climb: Seq<Seq<u8>>| #[trigger]
            climbs(combine, leaf, position, longer, climb) && climb.last() == root;
        let lower = climb.drop_last();
        assert forall|i: int| 0 <= i < path.len() implies if bit(position as nat, i as nat) {
            combines(combine, i as u8, #[trigger] path[i], lower[i], lower[i + 1])
        } else {
            combines(combine, i as u8, lower[i], path[i], lower[i + 1])
        } by {
            assert(longer[i] == path[i]);
        }
        assert(climbs(combine, leaf, position, path, lower));
        assert(leads_to(combine, leaf, position, path, lower.last()));
        assert(longer[n] == sibling);
        assert(steps_to(combine, position, path.len(), lower.last(), sibling, root));
    }
    if exists|below: Seq<u8>| #[trigger]
        leads_to(combine, leaf, position, path, below) && steps_to(
            combine,
            position,
            path.len(),
            below,
            sibling,
            root,
        ) {
        let below = choose|below: Seq<u8>| #[trigger]
            leads_to(combine, leaf, position, path, below) && steps_to(
                combine,
                position,
                path.len(),
                below,
                sibling,
                root,
            );
        let lower = choose|climb: Seq<Seq<u8>>| #[trigger]
            climbs(combine, leaf, position, path, climb) && climb.last() == below;
        let climb = lower.push(root);
        assert forall|i: int| 0 <= i < longer.len() implies if bit(position as nat, i as nat) {
            combines(combine, i as u8, #[trigger] longer[i], climb[i], climb[i + 1])
        } else {
            combines(combine, i as u8, climb[i], longer[i], climb[i + 1])
        } by {
            if i < n {
                assert(longer[i] == path[i]);
            }
        }
        assert(climbs(combine, leaf, position, longer, climb));
    }
}

/// With a `combine` that gives one parent, a path leads to one root.
pub proof fn law_path_leads_to_one_root<C: Fn(u8, &[u8; 32], &[u8; 32]) -> [u8; 32]>(
    combine: C,
    leaf: Seq<u8>,
    position: u64,
    path: Seq<Seq<u8>>,
    a: Seq<u8>,
    b: Seq<u8>,
)
    requires
        combines_steadily(combine),
        leads_to(combine, leaf, position, path, a),
        leads_to(combine, leaf, position, path, b),
    ensures
        a == b,
    decreases path.len(),
{
    if path.len() == 0 {
        assert(path =~= Seq::empty());
        law_empty_path_leads_to_leaf(combine, leaf, position, a);
        law_empty_path_leads_to_leaf(combine, leaf, position, b);
    } else {
        let lower = path.drop_last();
        let s = path.last();
        assert(lower.push(s) =~= path);
        law_path_leads_step_by_step(combine, leaf, position, lower, s, a);
        law_path_leads_step_by_step(combine, leaf, position, lower, s, b);
        let x = choose|x: Seq<u8>| #[trigger]
            leads_to(combine, leaf, position, lower, x) && steps_to(
                combine,
                position,
                lower.len(),
                x,
                s,
                a,
            );
        let y = choose|y: Seq<u8>| #[trigger]
            leads_to(combine, leaf, position, lower, y) && steps_to(
                combine,
                position,
                lower.len(),
                y,
                s,
                b,
            );
        law_path_leads_to_one_root(combine, leaf, position, lower, x, y);
    }
}

proof fn lemma_same_climb<C: Fn(u8, &[u8; 32], &[u8; 32]) -> [u8; 32]>(
    combine: C,
    leaf: Seq<u8>,
    p: u64,
    q: u64,
    path: Seq<Seq<u8>>,
    climb: Seq<Seq<u8>>,
)
    requires
        forall|k: nat| k < path.len() ==> #[trigger] bit(p as nat, k) == bit(q as nat, k),
        climbs(combine, leaf, p, path, climb),
    ensures
        climbs(combine, leaf, q, path, climb),
{
    assert forall|i: int| 0 <= i < path.len() implies if bit(q as nat, i as nat) {
        combines(combine, i as u8, #[trigger] path[i], climb[i], climb[i + 1])
    } else {
        combines(combine, i as u8, climb[i], path[i], climb[i + 1])
    } by {
        assert(bit(p as nat, i as nat) == bit(q as nat, i as nat));
    }
}

/// Only as many bits of a position matter as a path has siblings.
pub proof fn law_higher_bits_do_not_matter<C: Fn(u8, &[u8; 32], &[u8; 32]) -> [u8; 32]>(
    combine: C,
    leaf: Seq<u8>,
    p: u64,
    q: u64,
    path: Seq<Seq<u8>>,
    root: Seq<u8>,
)
    requires
        forall|k: nat| k < path.len() ==> #[trigger] bit(p as nat, k) == bit(q as nat, k),
    ensures
        leads_to(combine, leaf, p, path, root) == leads_to(combine, leaf, q, path, root),
{
    if leads_to(combine, leaf, p, path, root) {
        let climb = choose|climb: Seq<Seq<u8>>| #[trigger]
            climbs(combine, leaf, p, path, climb) && climb.last() == root;
        lemma_same_climb(combine, leaf, p, q, path, climb);
    }
    if leads_to(combine, leaf, q, path, root) {
        let climb = choose|climb: Seq<Seq<u8>>| #[trigger]
            climbs(combine, leaf, q, path, climb) && climb.last() == root;
        assert forall|k: nat| k < path.len() implies #[trigger] bit(q as nat, k) == bit(
            p as nat,
            k,
        ) by {
            assert(bit(p as nat, k) == bit(q as nat, k));
        }
        lemma_same_climb(combine, leaf, q, p, path, climb);
    }
}

/// Why a coin is not authenticated to the wallet's tree.
#[derive(Debug, Clone, Copy)]
pub enum WitnessError {
    /// The tree has no root.
    NoRoot,
    /// The tree has no path for the leaf.
    NoPath(u64),
    /// The leaf's path leads to another root than the tree's.
    Mismatch { position: u64, witnessed: [u8; 32], tip: [u8; 32] },
}

/// A coin is authenticated: the tree's path for it leads to the tree's root.
pub open spec fn authenticates<C: Fn(u8, &[u8; 32], &[u8; 32]) -> [u8; 32]>(
    combine: C,
    tip_root: Option<[u8; 32]>,
    path: Option<Vec<[u8; 32]>>,
    coin: Seq<u8>,
    position: u64,
) -> bool {
    tip_root matches Some(tip) && (path matches Some(p) && leads_to(
        combine,
        coin,
        position,
        nodes_of(p@),
        tip@,
    ))
}

/// A coin is found wanting: root or path is missing, or the path leads elsewhere.
pub open spec fn fails_with<C: Fn(u8, &[u8; 32], &[u8; 32]) -> [u8; 32]>(
    combine: C,
    tip_root: Option<[u8; 32]>,
    path: Option<Vec<[u8; 32]>>,
    coin: Seq<u8>,
    position: u64,
    error: WitnessError,
) -> bool {
    match error {
        WitnessError::NoRoot => tip_root is None,
        WitnessError::NoPath(at) => tip_root is Some && path is None && at == position,
        WitnessError::Mismatch { position: at, witnessed, tip } => {
            &&& tip_root matches Some(t) && t@ == tip@
            &&& at == position
            &&& witnessed@ != tip@
            &&& path matches Some(p) && leads_to(
                combine,
                coin,
                position,
                nodes_of(p@),
                witnessed@,
            )
        },
    }
}

/// Holds the tree's path for a coin against the tree's current root. A mismatch means that the
/// stored position is not the coin's: the root a proof would publish is not on chain.
pub fn assert_witness_at_tip<C: Fn(u8, &[u8; 32], &[u8; 32]) -> [u8; 32]>(
    tip_root: &Option<[u8; 32]>,
    path: &Option<Vec<[u8; 32]>>,
    coin: [u8; 32],
    position: u64,
    combine: &C,
) -> (root: Result<[u8; 32], WitnessError>)
    requires
        *path matches Some(p) ==> p@.len() <= 64,
        can_combine(*combine),
    ensures
        match root {
            Ok(r) => authenticates(*combine, *tip_root, *path, coin@, position) && (
            *tip_root matches Some(t) && t@ == r@),
            Err(e) => fails_with(*combine, *tip_root, *path, coin@, position, e),
        },
{
    match tip_root {
        None => Err(WitnessError::NoRoot),
        Some(tip) => match path {
            None => Err(WitnessError::NoPath(position)),
            Some(p) => {
                let witnessed = merkle_root_from_path(coin, position, p, combine);
                if bytes_eq(witnessed.as_slice(), tip.as_slice()) {
                    Ok(*tip)
                } else {
                    Err(WitnessError::Mismatch { position, witnessed, tip: *tip })
                }
            },
        },
    }
}

impl WitnessError {
    /// The error in words.
    pub open spec fn text(self) -> Seq<char> {
        match self {
            WitnessError::NoRoot => "Merkle tree has no current root"@,
            WitnessError::NoPath(at) => "Merkle witness missing for leaf Position("@ + decimal(
                at as nat,
            ) + ")"@,
            WitnessError::Mismatch { position, witnessed, tip } => "Merkle witness for leaf "@
                + decimal(position as nat) + " hashes to "@ + hex_text(witnessed@)
                + " but tree tip is "@ + hex_text(tip@)
                + ". Rebuild with: moonshine sync --rebuild-merkle --allow-trial"@,
        }
    }

    /// The error in words.
    pub fn message(&self) -> (text: String)
        ensures
            text@ == self.text(),
    {
        match self {
            WitnessError::NoRoot => "Merkle tree has no current root".to_owned(),
            WitnessError::NoPath(at) => {
                let mut s = "Merkle witness missing for leaf Position(".to_owned();
                append_decimal(&mut s, *at);
                s.append(")");
                s
            },
            WitnessError::Mismatch { position, witnessed, tip } => {
                let mut s = "Merkle witness for leaf ".to_owned();
                append_decimal(&mut s, *position);
                s.append(" hashes to ");
                s.append(hex_encode(witnessed.as_slice()).as_str());
                s.append(" but tree tip is ");
                s.append(hex_encode(tip.as_slice()).as_str());
                s.append(". Rebuild with: moonshine sync --rebuild-merkle --allow-trial");
                s
            },
        }
    }
}

/// The coins that nothing was found wanting of, in their order.
pub open spec fn kept(coins: Seq<SpendCoin>, outcomes: Seq<Option<WitnessError>>) -> Seq<SpendCoin>
    decreases coins.len(),
{
    if coins.len() == 0 {
        Seq::empty()
    } else if outcomes[coins.len() - 1] is None {
        kept(coins.drop_last(), outcomes).push(coins.last())
    } else {
        kept(coins.drop_last(), outcomes)
    }
}

/// What was found wanting, in the order of the coins.
pub open spec fn reasons(outcomes: Seq<Option<WitnessError>>) -> Seq<WitnessError>
    decreases outcomes.len(),
{
    if outcomes.len() == 0 {
        Seq::empty()
    } else {
        match outcomes.last() {
            Some(e) => reasons(outcomes.drop_last()).push(e),
            None => reasons(outcomes.drop_last()),
        }
    }
}

/// Checking a coin can come out like this.
pub open spec fn judged<C: Fn(u8, &[u8; 32], &[u8; 32]) -> [u8; 32]>(
    combine: C,
    tip_root: Option<[u8; 32]>,
    path: Option<Vec<[u8; 32]>>,
    c: SpendCoin,
    outcome: Option<WitnessError>,
) -> bool {
    match outcome {
        None => authenticates(combine, tip_root, path, c.coin@, c.leaf_position),
        Some(e) => fails_with(combine, tip_root, path, c.coin@, c.leaf_position, e),
    }
}

/// Checking all coins can come out like this.
pub open spec fn all_judged<C: Fn(u8, &[u8; 32], &[u8; 32]) -> [u8; 32]>(
    combine: C,
    tip_root: Option<[u8; 32]>,
    paths: Seq<Option<Vec<[u8; 32]>>>,
    coins: Seq<SpendCoin>,
    outcomes: Seq<Option<WitnessError>>,
) -> bool {
    &&& outcomes.len() == coins.len()
    &&& forall|i: int|
        0 <= i < coins.len() ==> judged(
            combine,
            tip_root,
            paths[i],
            coins[i],
            #[trigger] outcomes[i],
        )
}

/// Keeps the coins that are authenticated to the tree's current root, and gives the reasons for
/// leaving the others out. `paths` holds the tree's path for each coin. Where no coin is left
/// there is nothing to spend.
pub fn authentic_coins<C: Fn(u8, &[u8; 32], &[u8; 32]) -> [u8; 32]>(
    coins: &Vec<SpendCoin>,
    tip_root: &Option<[u8; 32]>,
    paths: &Vec<Option<Vec<[u8; 32]>>>,
    combine: &C,
) -> (found: Result<(Vec<SpendCoin>, Vec<WitnessError>), Vec<WitnessError>>)
    requires
        paths@.len() == coins@.len(),
        forall|i: int|
            0 <= i < paths@.len() ==> ((#[trigger] paths@[i]) matches Some(p) ==> p@.len() <= 64),
        can_combine(*combine),
    ensures
        exists|outcomes: Seq<Option<WitnessError>>|
            {
                &&& #[trigger] all_judged(*combine, *tip_root, paths@, coins@, outcomes)
                &&& match found {
                    Ok((left, skipped)) => left@.len() > 0 && left@ == kept(coins@, outcomes)
                        && skipped@ == reasons(outcomes),
                    Err(skipped) => kept(coins@, outcomes).len() == 0 && skipped@ == reasons(
                        outcomes,
                    ),
                }
            },
{
    let mut out: Vec<SpendCoin> = Vec::new();
    let mut skipped: Vec<WitnessError> = Vec::new();
    let ghost mut outcomes: Seq<Option<WitnessError>> = Seq::empty();
    let mut i: usize = 0;
    assert(coins@.take(0) =~= Seq::empty());
    while i < coins.len()
        invariant
            i <= coins.len(),
            paths@.len() == coins@.len(),
            forall|j: int|
                0 <= j < paths@.len() ==> ((#[trigger] paths@[j]) matches Some(p) ==> p@.len()
                    <= 64),
            can_combine(*combine),
            outcomes.len() == i,
            out@ == kept(coins@.take(i as int), outcomes),
            skipped@ == reasons(outcomes),
            forall|j: int|
                0 <= j < i ==> judged(
                    *combine,
                    *tip_root,
                    paths@[j],
                    coins@[j],
                    #[trigger] outcomes[j],
                ),
        decreases coins.len() - i,
    {
        let c = coins[i];
        let ghost before = outcomes;
        proof {
            assert(coins@.take(i as int + 1).drop_last() =~= coins@.take(i as int));
            assert(coins@.take(i as int + 1).last() == c);
        }
        match assert_witness_at_tip(tip_root, &paths[i], c.coin, c.leaf_position, combine) {
            Ok(_) => {
                proof {
                    outcomes = outcomes.push(None);
                    lemma_kept_prefix(coins@.take(i as int), before, None);
                    assert(outcomes.drop_last() =~= before);
                }
                out.push(c);
            },
            Err(e) => {
                proof {
                    outcomes = outcomes.push(Some(e));
                    lemma_kept_prefix(coins@.take(i as int), before, Some(e));
                    assert(outcomes.drop_last() =~= before);
                }
                skipped.push(e);
            },
        }
        i += 1;
    }
    assert(coins@.take(i as int) =~= coins@);
    assert(all_judged(*combine, *tip_root, paths@, coins@, outcomes));
    if out.len() == 0 {
        Err(skipped)
    } else {
        Ok((out, skipped))
    }
}

proof fn lemma_kept_prefix(
    coins: Seq<SpendCoin>,
    outcomes: Seq<Option<WitnessError>>,
    next: Option<WitnessError>,
)
    requires
        coins.len() <= outcomes.len(),
    ensures
        kept(coins, outcomes.push(next)) == kept(coins, outcomes),
    decreases coins.len(),
{
    if coins.len() > 0 {
        lemma_kept_prefix(coins.drop_last(), outcomes, next);
        assert(outcomes.push(next)[coins.len() - 1] == outcomes[coins.len() - 1]);
    }
}

/// Every coin kept was among the coins and is authenticated: a proof publishes a root that the
/// wallet's tree has.
pub proof fn law_kept_coins_are_authentic<C: Fn(u8, &[u8; 32], &[u8; 32]) -> [u8; 32]>(
    combine: C,
    tip_root: Option<[u8; 32]>,
    paths: Seq<Option<Vec<[u8; 32]>>>,
    coins: Seq<SpendCoin>,
    outcomes: Seq<Option<WitnessError>>,
    k: int,
)
    requires
        all_judged(combine, tip_root, paths, coins, outcomes),
        0 <= k < kept(coins, outcomes).len(),
    ensures
        exists|i: int|
            0 <= i < coins.len() && kept(coins, outcomes)[k] == #[trigger] coins[i]
                && authenticates(
                combine,
                tip_root,
                paths[i],
                coins[i].coin@,
                coins[i].leaf_position,
            ),
{
    let i = lemma_kept_member(coins, outcomes, k);
    assert(judged(combine, tip_root, paths[i], coins[i], outcomes[i]));
}

proof fn lemma_kept_member(
    coins: Seq<SpendCoin>,
    outcomes: Seq<Option<WitnessError>>,
    k: int,
) -> (i: int)
    requires
        coins.len() <= outcomes.len(),
        0 <= k < kept(coins, outcomes).len(),
    ensures
        0 <= i < coins.len(),
        kept(coins, outcomes)[k] == coins[i],
        outcomes[i] is None,
    decreases coins.len(),
{
    let rest = coins.drop_last();
    if k < kept(rest, outcomes).len() {
        lemma_kept_member(rest, outcomes, k)
    } else {
        coins.len() - 1
    }
}

// ---- Circuits ----

/// The first entry of a namespace stands at `i`.
pub open spec fn first_of(
    bins: Seq<(String, Vec<u8>)>,
    namespace: Seq<char>,
    i: int,
) -> bool {
    &&& 0 <= i < bins.len()
    &&& bins[i].0@ == namespace
    &&& forall|j: int| 0 <= j < i ==> (#[trigger] bins[j]).0@ != namespace
}

/// No entry is of a namespace.
pub open spec fn none_of(bins: Seq<(String, Vec<u8>)>, namespace: Seq<char>) -> bool {
    forall|j: int| 0 <= j < bins.len() ==> (#[trigger] bins[j]).0@ != namespace
}

/// The position of the first circuit of a namespace.
pub fn find_circuit(bins: &Vec<(String, Vec<u8>)>, namespace: &str) -> (found: Option<usize>)
    ensures
        match found {
            Some(i) => first_of(bins@, namespace@, i as int),
            None => none_of(bins@, namespace@),
        },
{
    let mut i: usize = 0;
    while i < bins.len()
        invariant
            i <= bins.len(),
            forall|j: int| 0 <= j < i ==> (#[trigger] bins@[j]).0@ != namespace@,
        decreases bins.len() - i,
    {
        if str_eq(bins[i].0.as_str(), namespace) {
            return Some(i);
        }
        i += 1;
    }
    None
}

/// A circuit that a payment needs.
#[derive(Debug, Clone, Copy, PartialEq, Eq, Structural)]
pub enum Circuit {
    Mint,
    Burn,
    Fee,
}

/// The first circuit that is missing.
pub open spec fn circuit_missing(
    bins: Seq<(String, Vec<u8>)>,
    mint: Seq<char>,
    burn: Seq<char>,
    fee: Seq<char>,
    missing: Circuit,
) -> bool {
    match missing {
        Circuit::Mint => none_of(bins, mint),
        Circuit::Burn => !none_of(bins, mint) && none_of(bins, burn),
        Circuit::Fee => !none_of(bins, mint) && !none_of(bins, burn) && none_of(bins, fee),
    }
}

/// The positions of the three circuits that a payment needs, or the first that is missing.
pub fn find_circuits(
    bins: &Vec<(String, Vec<u8>)>,
    mint: &str,
    burn: &str,
    fee: &str,
) -> (found: Result<(usize, usize, usize), Circuit>)
    ensures
        match found {
            Ok((m, b, f)) => first_of(bins@, mint@, m as int) && first_of(bins@, burn@, b as int)
                && first_of(bins@, fee@, f as int),
            Err(c) => circuit_missing(bins@, mint@, burn@, fee@, c),
        },
{
    let m: usize = match find_circuit(bins, mint) {
        Some(i) => i,
        None => {
            return Err(Circuit::Mint);
        },
    };
    assert(bins@[m as int].0@ == mint@);
    let b: usize = match find_circuit(bins, burn) {
        Some(i) => i,
        None => {
            return Err(Circuit::Burn);
        },
    };
    assert(bins@[b as int].0@ == burn@);
    match find_circuit(bins, fee) {
        Some(f) => Ok((m, b, f)),
        None => Err(Circuit::Fee),
    }
}

/// Why a payment cannot be prepared.
#[derive(Debug)]
pub enum PrepareError {
    /// A circuit is missing.
    CircuitMissing(Circuit),
    /// No coin is authenticated to the current tree. The reasons are given coin by coin.
    NoSpendableCoins(Vec<WitnessError>),
}

impl PrepareError {
    /// What is said of the refusal.
    pub open spec fn text(self) -> Seq<char> {
        match self {
            PrepareError::CircuitMissing(Circuit::Mint) => "Mint circuit missing"@,
            PrepareError::CircuitMissing(Circuit::Burn) => "Burn circuit missing"@,
            PrepareError::CircuitMissing(Circuit::Fee) => "Fee circuit missing"@,
            PrepareError::NoSpendableCoins(_) => "No spendable coins with a valid Merkle witness. Rebuild with: moonshine sync --rebuild-merkle --allow-trial"@,
        }
    }

    /// What is said of the refusal.
    pub fn message(&self) -> (text: String)
        ensures
            text@ == self.text(),
    {
        match self {
            PrepareError::CircuitMissing(Circuit::Mint) => "Mint circuit missing".to_owned(),
            PrepareError::CircuitMissing(Circuit::Burn) => "Burn circuit missing".to_owned(),
            PrepareError::CircuitMissing(Circuit::Fee) => "Fee circuit missing".to_owned(),
            PrepareError::NoSpendableCoins(_) => "No spendable coins with a valid Merkle witness. Rebuild with: moonshine sync --rebuild-merkle --allow-trial".to_owned(),
        }
    }
}

/// A payment that can be proved: the positions of its circuits, its coins, and the reasons for
/// leaving out others.
#[derive(Debug)]
pub struct Prepared {
    pub mint: usize,
    pub burn: usize,
    pub fee: usize,
    pub spendable: Vec<SpendCoin>,
    pub skipped: Vec<WitnessError>,
}

/// Prepares a payment: finds its circuits and keeps the coins that are authenticated.
pub fn prepare_transfer<C: Fn(u8, &[u8; 32], &[u8; 32]) -> [u8; 32]>(
    bins: &Vec<(String, Vec<u8>)>,
    mint_namespace: &str,
    burn_namespace: &str,
    fee_namespace: &str,
    coins: &Vec<SpendCoin>,
    tip_root: &Option<[u8; 32]>,
    paths: &Vec<Option<Vec<[u8; 32]>>>,
    combine: &C,
) -> (prepared: Result<Prepared, PrepareError>)
    requires
        paths@.len() == coins@.len(),
        forall|i: int|
            0 <= i < paths@.len() ==> ((#[trigger] paths@[i]) matches Some(p) ==> p@.len() <= 64),
        can_combine(*combine),
    ensures
        match prepared {
            Ok(p) => {
                &&& first_of(bins@, mint_namespace@, p.mint as int)
                &&& first_of(bins@, burn_namespace@, p.burn as int)
                &&& first_of(bins@, fee_namespace@, p.fee as int)
                &&& p.spendable@.len() > 0
                &&& exists|outcomes: Seq<Option<WitnessError>>| #[trigger]
                    all_judged(*combine, *tip_root, paths@, coins@, outcomes) && p.spendable@
                        == kept(coins@, outcomes) && p.skipped@ == reasons(outcomes)
            },
            Err(PrepareError::CircuitMissing(c)) => circuit_missing(
                bins@,
                mint_namespace@,
                burn_namespace@,
                fee_namespace@,
                c,
            ),
            Err(PrepareError::NoSpendableCoins(skipped)) => {
                &&& !none_of(bins@, mint_namespace@)
                &&& !none_of(bins@, burn_namespace@)
                &&& !none_of(bins@, fee_namespace@)
                &&& exists|outcomes: Seq<Option<WitnessError>>| #[trigger]
                    all_judged(*combine, *tip_root, paths@, coins@, outcomes) && kept(
                        coins@,
                        outcomes,
                    ).len() == 0 && skipped@ == reasons(outcomes)
            },
        },
{
    let (mint, burn, fee) = match find_circuits(
        bins,
        mint_namespace,
        burn_namespace,
        fee_namespace,
    ) {
        Ok(found) => found,
        Err(c) => {
            return Err(PrepareError::CircuitMissing(c));
        },
    };
    proof {
        assert(bins@[mint as int].0@ == mint_namespace@);
        assert(bins@[burn as int].0@ == burn_namespace@);
        assert(bins@[fee as int].0@ == fee_namespace@);
    }
    match authentic_coins(coins, tip_root, paths, combine) {
        Ok((spendable, skipped)) => Ok(Prepared { mint, burn, fee, spendable, skipped }),
        Err(skipped) => Err(PrepareError::NoSpendableCoins(skipped)),
    }
}

// ---- Where the fee comes from ----

/// An output of the transfer, as far as the payer can read it.
#[derive(Debug, Clone, Copy)]
pub struct ReadableOutput {
    /// The output's coin.
    pub coin: [u8; 32],
    /// The note in it, where it decrypts under the payer's key.
    pub note: Option<OwnNote>,
}

/// A note that goes back to the payer.
#[derive(Debug, Clone, Copy)]
pub struct OwnNote {
    pub value: u64,
    pub token_id: [u8; 32],
    /// The coin that the note's fields make up.
    pub derived_coin: [u8; 32],
}

/// Where the fee of a payment comes from.
#[derive(Debug, Clone, Copy, PartialEq, Eq, Structural)]
pub enum FeeSource {
    /// No fee is paid.
    NoFee,
    /// A coin that the transfer does not spend, by its position among the spendable ones.
    Leftover(usize),
    /// The transfer's change, by its position among the outputs.
    Change(usize),
}

/// Why no fee can be paid.
#[derive(Debug, Clone, Copy)]
pub enum FeeError {
    /// Neither a leftover coin nor the change holds the fee.
    NotEnough,
    /// A change output is not the coin that its note makes up.
    CoinMismatch { output: [u8; 32], derived: [u8; 32] },
}

/// A coin can pay the fee.
pub open spec fn pays(c: SpendCoin, fee: u64, token_id: Seq<u8>) -> bool {
    c.value >= fee && c.token_id@ == token_id
}

/// A coin is among those spent.
pub open spec fn is_spent(c: SpendCoin, spent: Seq<[u8; 32]>) -> bool {
    exists|k: int| 0 <= k < spent.len() && (#[trigger] spent[k])@ == c.coin@
}

/// A coin can pay the fee and is not spent by the transfer.
pub open spec fn is_leftover(
    c: SpendCoin,
    fee: u64,
    token_id: Seq<u8>,
    spent: Seq<[u8; 32]>,
) -> bool {
    pays(c, fee, token_id) && !is_spent(c, spent)
}

/// An output goes back to the payer and can pay the fee.
pub open spec fn is_change(o: ReadableOutput, fee: u64, token_id: Seq<u8>) -> bool {
    o.note matches Some(n) && n.value >= fee && n.token_id@ == token_id
}

/// Whether a coin is among those spent.
fn spends(spent: &Vec<[u8; 32]>, coin: &[u8; 32]) -> (hit: bool)
    ensures
        hit == exists|k: int| 0 <= k < spent@.len() && (#[trigger] spent@[k])@ == coin@,
{
    let mut k: usize = 0;
    while k < spent.len()
        invariant
            k <= spent.len(),
            forall|j: int| 0 <= j < k ==> (#[trigger] spent@[j])@ != coin@,
        decreases spent.len() - k,
    {
        if bytes_eq(spent[k].as_slice(), coin.as_slice()) {
            return true;
        }
        k += 1;
    }
    false
}

/// The coins that can pay the fee, by their positions.
pub fn fee_candidates(coins: &Vec<SpendCoin>, fee: u64, token_id: &[u8; 32]) -> (at: Vec<usize>)
    ensures
        forall|k: int|
            0 <= k < at@.len() ==> (#[trigger] at@[k]) < coins@.len() && pays(
                coins@[at@[k] as int],
                fee,
                token_id@,
            ),
        forall|j: int, k: int| 0 <= j < k < at@.len() ==> #[trigger] at@[j] < #[trigger] at@[k],
        forall|i: int|
            0 <= i < coins@.len() && pays(#[trigger] coins@[i], fee, token_id@) ==> exists|k: int|
                0 <= k < at@.len() && #[trigger] at@[k] == i,
{
    let mut at: Vec<usize> = Vec::new();
    let mut i: usize = 0;
    while i < coins.len()
        invariant
            i <= coins.len(),
            forall|k: int|
                0 <= k < at@.len() ==> (#[trigger] at@[k]) < i && pays(
                    coins@[at@[k] as int],
                    fee,
                    token_id@,
                ),
            forall|j: int, k: int| 0 <= j < k < at@.len() ==> #[trigger] at@[j] < #[trigger] at@[k],
            forall|x: int|
                0 <= x < i && pays(#[trigger] coins@[x], fee, token_id@) ==> exists|k: int|
                    0 <= k < at@.len() && #[trigger] at@[k] == x,
        decreases coins.len() - i,
    {
        let ghost before = at@;
        if coins[i].value >= fee && bytes_eq(coins[i].token_id.as_slice(), token_id.as_slice()) {
            at.push(i);
            assert forall|x: int|
                0 <= x < i + 1 && pays(#[trigger] coins@[x], fee, token_id@) implies exists|k: int|
                0 <= k < at@.len() && #[trigger] at@[k] == x by {
                if x < i {
                    let k = choose|k: int| 0 <= k < before.len() && #[trigger] before[k] == x;
                    assert(at@[k] == x);
                } else {
                    assert(at@[before.len() as int] == x);
                }
            }
        }
        i += 1;
    }
    at
}

/// The first coin that can pay the fee and that the transfer does not spend.
pub fn leftover_coin(
    coins: &Vec<SpendCoin>,
    fee: u64,
    token_id: &[u8; 32],
    spent: &Vec<[u8; 32]>,
) -> (found: Option<usize>)
    ensures
        match found {
            Some(i) => {
                &&& i < coins@.len()
                &&& is_leftover(coins@[i as int], fee, token_id@, spent@)
                &&& forall|j: int|
                    0 <= j < i ==> !is_leftover(#[trigger] coins@[j], fee, token_id@, spent@)
            },
            None => forall|j: int|
                0 <= j < coins@.len() ==> !is_leftover(
                    #[trigger] coins@[j],
                    fee,
                    token_id@,
                    spent@,
                ),
        },
{
    let candidates = fee_candidates(coins, fee, token_id);
    let mut k: usize = 0;
    while k < candidates.len()
        invariant
            k <= candidates.len(),
            forall|j: int|
                0 <= j < candidates@.len() ==> (#[trigger] candidates@[j]) < coins@.len() && pays(
                    coins@[candidates@[j] as int],
                    fee,
                    token_id@,
                ),
            forall|a: int, b: int|
                0 <= a < b < candidates@.len() ==> #[trigger] candidates@[a]
                    < #[trigger] candidates@[b],
            forall|i: int|
                0 <= i < coins@.len() && pays(#[trigger] coins@[i], fee, token_id@)
                    ==> exists|j: int| 0 <= j < candidates@.len() && #[trigger] candidates@[j] == i,
            forall|j: int|
                0 <= j < k ==> is_spent(coins@[(#[trigger] candidates@[j]) as int], spent@),
        decreases candidates.len() - k,
    {
        let i: usize = candidates[k];
        if !spends(spent, &coins[i].coin) {
            assert forall|j: int| 0 <= j < i implies !is_leftover(
                #[trigger] coins@[j],
                fee,
                token_id@,
                spent@,
            ) by {
                if pays(coins@[j], fee, token_id@) {
                    let x = choose|x: int|
                        0 <= x < candidates@.len() && #[trigger] candidates@[x] == j;
                    if x >= k {
                        if x > k {
                            assert(candidates@[k as int] < candidates@[x]);
                        }
                    }
                    assert(is_spent(coins@[candidates@[x] as int], spent@));
                }
            }
            return Some(i);
        }
        assert(is_spent(coins@[candidates@[k as int] as int], spent@));
        k += 1;
    }
    assert forall|j: int| 0 <= j < coins@.len() implies !is_leftover(
        #[trigger] coins@[j],
        fee,
        token_id@,
        spent@,
    ) by {
        if pays(coins@[j], fee, token_id@) {
            let x = choose|x: int| 0 <= x < candidates@.len() && #[trigger] candidates@[x] == j;
            assert(is_spent(coins@[candidates@[x] as int], spent@));
        }
    }
    None
}

/// The first output that goes back to the payer and can pay the fee. Its coin must be the one
/// that its note makes up.
pub fn change_output(outputs: &Vec<ReadableOutput>, fee: u64, token_id: &[u8; 32]) -> (found: Result<
    Option<usize>,
    FeeError,
>)
    ensures
        match found {
            Ok(Some(i)) => first_change(outputs@, fee, token_id@, i as int)
                && outputs@[i as int].note->0.derived_coin@ == outputs@[i as int].coin@,
            Ok(None) => forall|j: int|
                0 <= j < outputs@.len() ==> !is_change(#[trigger] outputs@[j], fee, token_id@),
            Err(FeeError::CoinMismatch { output, derived }) => exists|i: int| #[trigger]
                first_change(outputs@, fee, token_id@, i) && mismatch(outputs@[i], output, derived),
            Err(FeeError::NotEnough) => false,
        },
{
    let mut i: usize = 0;
    while i < outputs.len()
        invariant
            i <= outputs.len(),
            forall|j: int| 0 <= j < i ==> !is_change(#[trigger] outputs@[j], fee, token_id@),
        decreases outputs.len() - i,
    {
        let o = outputs[i];
        if let Some(n) = o.note {
            if n.value >= fee && bytes_eq(n.token_id.as_slice(), token_id.as_slice()) {
                assert(first_change(outputs@, fee, token_id@, i as int));
                if !bytes_eq(n.derived_coin.as_slice(), o.coin.as_slice()) {
                    return Err(
                        FeeError::CoinMismatch { output: o.coin, derived: n.derived_coin },
                    );
                }
                return Ok(Some(i));
            }
        }
        i += 1;
    }
    Ok(None)
}

/// The fee comes from here, or cannot be paid for this reason: a coin that the transfer leaves
/// over comes first, the transfer's own change second.
pub open spec fn fee_source_ok(
    source: Result<FeeSource, FeeError>,
    coins: Seq<SpendCoin>,
    outputs: Seq<ReadableOutput>,
    fee: u64,
    token_id: Seq<u8>,
    spent: Seq<[u8; 32]>,
) -> bool {
    match source {
        Ok(FeeSource::NoFee) => fee == 0,
        Ok(FeeSource::Leftover(i)) => {
            &&& fee > 0
            &&& i < coins.len()
            &&& is_leftover(coins[i as int], fee, token_id, spent)
            &&& forall|j: int| 0 <= j < i ==> !is_leftover(#[trigger] coins[j], fee, token_id, spent)
        },
        Ok(FeeSource::Change(i)) => {
            &&& fee > 0
            &&& no_leftover(coins, fee, token_id, spent)
            &&& first_change(outputs, fee, token_id, i as int)
            &&& outputs[i as int].note->0.derived_coin@ == outputs[i as int].coin@
        },
        Err(FeeError::NotEnough) => {
            &&& fee > 0
            &&& no_leftover(coins, fee, token_id, spent)
            &&& forall|j: int|
                0 <= j < outputs.len() ==> !is_change(#[trigger] outputs[j], fee, token_id)
        },
        Err(FeeError::CoinMismatch { output, derived }) => {
            &&& fee > 0
            &&& no_leftover(coins, fee, token_id, spent)
            &&& exists|i: int| #[trigger]
                first_change(outputs, fee, token_id, i) && mismatch(outputs[i], output, derived)
        },
    }
}

/// The first output that can pay the fee stands at `i`.
pub open spec fn first_change(
    outputs: Seq<ReadableOutput>,
    fee: u64,
    token_id: Seq<u8>,
    i: int,
) -> bool {
    &&& 0 <= i < outputs.len()
    &&& is_change(outputs[i], fee, token_id)
    &&& forall|j: int| 0 <= j < i ==> !is_change(#[trigger] outputs[j], fee, token_id)
}

/// An output's coin is not the one that its note makes up.
pub open spec fn mismatch(o: ReadableOutput, output: [u8; 32], derived: [u8; 32]) -> bool {
    &&& output@ == o.coin@
    &&& derived@ == o.note->0.derived_coin@
    &&& derived@ != output@
}

/// Chooses where the fee of a payment comes from.
pub fn choose_fee_source(
    coins: &Vec<SpendCoin>,
    outputs: &Vec<ReadableOutput>,
    fee: u64,
    token_id: &[u8; 32],
    spent: &Vec<[u8; 32]>,
) -> (source: Result<FeeSource, FeeError>)
    ensures
        fee_source_ok(source, coins@, outputs@, fee, token_id@, spent@),
{
    if fee == 0 {
        return Ok(FeeSource::NoFee);
    }
    match leftover_coin(coins, fee, token_id, spent) {
        Some(i) => Ok(FeeSource::Leftover(i)),
        None => match change_output(outputs, fee, token_id) {
            Ok(Some(i)) => Ok(FeeSource::Change(i)),
            Ok(None) => Err(FeeError::NotEnough),
            Err(e) => Err(e),
        },
    }
}

/// No coin is left over that can pay the fee.
pub open spec fn no_leftover(
    coins: Seq<SpendCoin>,
    fee: u64,
    token_id: Seq<u8>,
    spent: Seq<[u8; 32]>,
) -> bool {
    forall|j: int|
        0 <= j < coins.len() ==> !is_leftover(#[trigger] coins[j], fee, token_id, spent)
}

impl FeeError {
    /// The error in words.
    pub open spec fn text(self) -> Seq<char> {
        match self {
            FeeError::NotEnough =>
                "Not enough native tokens to pay for fee (need a leftover coin or change >= fee)"@,
            FeeError::CoinMismatch { output, derived } => "tx-local change coin mismatch: output="@
                + hex_text(output@) + " derived="@ + hex_text(derived@),
        }
    }

    /// The error in words.
    pub fn message(&self) -> (text: String)
        ensures
            text@ == self.text(),
    {
        match self {
            FeeError::NotEnough =>
                "Not enough native tokens to pay for fee (need a leftover coin or change >= fee)".to_owned(),
            FeeError::CoinMismatch { output, derived } => {
                let mut s = "tx-local change coin mismatch: output=".to_owned();
                s.append(hex_encode(output.as_slice()).as_str());
                s.append(" derived=");
                s.append(hex_encode(derived.as_slice()).as_str());
                s
            },
        }
    }
}

/// Holds the root that a fee proof publishes against the one the wallet expects.
pub fn check_fee_root(expected: &Option<[u8; 32]>, published: &[u8; 32]) -> (checked: Result<
    (),
    String,
>)
    ensures
        match checked {
            Ok(_) => *expected matches Some(e) ==> e@ == published@,
            Err(m) => *expected matches Some(e) && e@ != published@ && m@
                == "fee proof Merkle root "@ + hex_text(published@) + " != wallet tree root "@
                + hex_text(e@),
        },
{
    if let Some(e) = expected {
        if !bytes_eq(e.as_slice(), published.as_slice()) {
            let mut m = "fee proof Merkle root ".to_owned();
            m.append(hex_encode(published.as_slice()).as_str());
            m.append(" != wallet tree root ");
            m.append(hex_encode(e.as_slice()).as_str());
            return Err(m);
        }
    }
    Ok(())
}

// ---- Value blinds ----

/// The sum of the numbers that blinds stand for.
pub open spec fn blind_sum(blinds: Seq<[u8; 32]>) -> nat
    decreases blinds.len(),
{
    if blinds.len() == 0 {
        0
    } else {
        blind_sum(blinds.drop_last()) + le_value(blinds.last()@)
    }
}

/// All blinds are canonical scalars.
pub open spec fn all_scalars(blinds: Seq<[u8; 32]>) -> bool {
    forall|i: int| 0 <= i < blinds.len() ==> is_scalar((#[trigger] blinds[i])@)
}

proof fn lemma_zeros(n: nat)
    ensures
        le_value(Seq::new(n, |i: int| 0u8)) == 0,
    decreases n,
{
    let s = Seq::new(n, |i: int| 0u8);
    if n > 0 {
        lemma_zeros((n - 1) as nat);
        assert(s.skip(1) =~= Seq::new((n - 1) as nat, |i: int| 0u8));
    }
}

/// The blind that balances inputs against outputs: the inputs' sum less the outputs' sum, modulo
/// the order of the scalar field.
pub fn compute_remainder_blind(inputs: &Vec<[u8; 32]>, outputs: &Vec<[u8; 32]>) -> (remainder: [u8;
    32])
    requires
        all_scalars(inputs@),
        all_scalars(outputs@),
    ensures
        is_scalar(remainder@),
        le_value(remainder@) == (blind_sum(inputs@) - blind_sum(outputs@))
            % scalar_modulus() as int,
{
    let ghost q = scalar_modulus() as int;
    let mut sum: [u8; 32] = [0u8;32];
    proof {
        assert(sum@ =~= Seq::new(32, |i: int| 0u8));
        lemma_zeros(32);
        assert(inputs@.take(0) =~= Seq::empty());
        vstd::arithmetic::div_mod::lemma_small_mod(0, scalar_modulus());
    }
    let mut i: usize = 0;
    while i < inputs.len()
        invariant
            i <= inputs.len(),
            q == scalar_modulus() as int,
            all_scalars(inputs@),
            is_scalar(sum@),
            le_value(sum@) == blind_sum(inputs@.take(i as int)) as int % q,
        decreases inputs.len() - i,
    {
        let ghost was = le_value(sum@) as int;
        let ghost x = le_value(inputs@[i as int]@) as int;
        proof {
            assert(inputs@.take(i as int + 1).drop_last() =~= inputs@.take(i as int));
            vstd::arithmetic::div_mod::lemma_add_mod_noop_right(
                x,
                blind_sum(inputs@.take(i as int)) as int,
                q,
            );
        }
        sum = scalar_add(&sum, &inputs[i]);
        i += 1;
    }
    assert(inputs@.take(i as int) =~= inputs@);
    let ghost all = blind_sum(inputs@) as int;
    let mut j: usize = 0;
    assert(outputs@.take(0) =~= Seq::empty());
    while j < outputs.len()
        invariant
            j <= outputs.len(),
            q == scalar_modulus() as int,
            all_scalars(outputs@),
            is_scalar(sum@),
            le_value(sum@) == (all - blind_sum(outputs@.take(j as int))) % q,
        decreases outputs.len() - j,
    {
        let ghost x = le_value(outputs@[j as int]@) as int;
        proof {
            assert(outputs@.take(j as int + 1).drop_last() =~= outputs@.take(j as int));
            vstd::arithmetic::div_mod::lemma_add_mod_noop_right(
                -x,
                all - blind_sum(outputs@.take(j as int)),
                q,
            );
        }
        sum = scalar_sub(&sum, &outputs[j]);
        j += 1;
    }
    assert(outputs@.take(j as int) =~= outputs@);
    sum
}

/// The outputs with the remainder among them balance the inputs.
pub proof fn law_remainder_balances(
    inputs: Seq<[u8; 32]>,
    outputs: Seq<[u8; 32]>,
    remainder: [u8; 32],
)
    requires
        le_value(remainder@) == (blind_sum(inputs) - blind_sum(outputs)) % scalar_modulus() as int,
    ensures
        blind_sum(outputs.push(remainder)) as int % scalar_modulus() as int == blind_sum(
            inputs,
        ) as int % scalar_modulus() as int,
{
    let q = scalar_modulus() as int;
    let out = blind_sum(outputs) as int;
    assert(outputs.push(remainder).drop_last() =~= outputs);
    vstd::arithmetic::div_mod::lemma_add_mod_noop_right(out, blind_sum(inputs) - out, q);
}

// ---- What was spent ----

/// A built transaction with the coins it spends. Whoever broadcasts it marks them as spent.
#[derive(Debug)]
pub struct BuiltTransfer {
    /// The serialised transaction.
    pub tx: Vec<u8>,
    pub spent_commitments: Vec<Vec<u8>>,
    pub spent_nullifiers: Vec<Vec<u8>>,
}

/// A coin that the transfer spends.
#[derive(Debug, Clone, Copy)]
pub struct SpentCoin {
    pub commitment: [u8; 32],
    pub nullifier: [u8; 32],
}

/// The commitments of spent coins.
pub open spec fn commitments_of(spent: Seq<SpentCoin>) -> Seq<Seq<u8>> {
    Seq::new(spent.len(), |i: int| spent[i].commitment@)
}

/// The nullifiers of spent coins.
pub open spec fn nullifiers_of(spent: Seq<SpentCoin>) -> Seq<Seq<u8>> {
    Seq::new(spent.len(), |i: int| spent[i].nullifier@)
}

/// The commitments of spent coins, as arrays.
pub open spec fn coins_spent(spent: Seq<SpentCoin>) -> Seq<[u8; 32]> {
    Seq::new(spent.len(), |i: int| spent[i].commitment)
}

/// What a payment does about its fee, and what it spends in all.
#[derive(Debug)]
pub struct FeePlan {
    pub source: FeeSource,
    /// What the fee's coin holds beyond the fee.
    pub change_value: u64,
    pub spent_commitments: Vec<Vec<u8>>,
    pub spent_nullifiers: Vec<Vec<u8>>,
}

/// What is spent in all: the transfer's coins and, where it pays the fee, the leftover coin. The
/// transfer's change is none of the wallet's notes yet and is not among them.
pub open spec fn spends_in_all(
    plan: FeePlan,
    coins: Seq<SpendCoin>,
    nullifiers: Seq<[u8; 32]>,
    spent: Seq<SpentCoin>,
) -> bool {
    match plan.source {
        FeeSource::Leftover(i) => {
            &&& byte_views(plan.spent_commitments@) == commitments_of(spent).push(
                coins[i as int].coin@,
            )
            &&& byte_views(plan.spent_nullifiers@) == nullifiers_of(spent).push(
                nullifiers[i as int]@,
            )
        },
        _ => {
            &&& byte_views(plan.spent_commitments@) == commitments_of(spent)
            &&& byte_views(plan.spent_nullifiers@) == nullifiers_of(spent)
        },
    }
}

/// Plans the fee of a payment whose transfer has been made: where it comes from, what is left of
/// it, and what the payment spends in all. `nullifiers` holds the nullifier of each coin.
pub fn plan_fee(
    coins: &Vec<SpendCoin>,
    nullifiers: &Vec<[u8; 32]>,
    outputs: &Vec<ReadableOutput>,
    spent: &Vec<SpentCoin>,
    fee: u64,
    token_id: &[u8; 32],
) -> (plan: Result<FeePlan, FeeError>)
    requires
        nullifiers@.len() == coins@.len(),
    ensures
        match plan {
            Ok(p) => {
                &&& fee_source_ok(
                    Ok(p.source),
                    coins@,
                    outputs@,
                    fee,
                    token_id@,
                    coins_spent(spent@),
                )
                &&& spends_in_all(p, coins@, nullifiers@, spent@)
                &&& p.change_value == match p.source {
                    FeeSource::NoFee => 0,
                    FeeSource::Leftover(i) => coins@[i as int].value - fee,
                    FeeSource::Change(i) => outputs@[i as int].note->0.value - fee,
                }
            },
            Err(e) => fee_source_ok(
                Err(e),
                coins@,
                outputs@,
                fee,
                token_id@,
                coins_spent(spent@),
            ),
        },
{
    let mut marks: Vec<[u8; 32]> = Vec::new();
    let mut spent_commitments: Vec<Vec<u8>> = Vec::new();
    let mut spent_nullifiers: Vec<Vec<u8>> = Vec::new();
    let mut i: usize = 0;
    while i < spent.len()
        invariant
            i <= spent.len(),
            marks@.len() == i,
            spent_commitments@.len() == i,
            spent_nullifiers@.len() == i,
            forall|j: int| 0 <= j < i ==> (#[trigger] marks@[j]) == spent@[j].commitment,
            forall|j: int|
                0 <= j < i ==> (#[trigger] spent_commitments@[j])@ == spent@[j].commitment@,
            forall|j: int|
                0 <= j < i ==> (#[trigger] spent_nullifiers@[j])@ == spent@[j].nullifier@,
        decreases spent.len() - i,
    {
        marks.push(spent[i].commitment);
        spent_commitments.push(copy_bytes(spent[i].commitment.as_slice()));
        spent_nullifiers.push(copy_bytes(spent[i].nullifier.as_slice()));
        i += 1;
    }
    proof {
        assert(marks@ =~= coins_spent(spent@));
        assert(byte_views(spent_commitments@) =~= commitments_of(spent@));
        assert(byte_views(spent_nullifiers@) =~= nullifiers_of(spent@));
    }
    let source = match choose_fee_source(coins, outputs, fee, token_id, &marks) {
        Ok(s) => s,
        Err(e) => {
            return Err(e);
        },
    };
    let change_value: u64 = match source {
        FeeSource::NoFee => 0,
        FeeSource::Leftover(k) => {
            let ghost was_commitments = spent_commitments@;
            let ghost was_nullifiers = spent_nullifiers@;
            spent_commitments.push(copy_bytes(coins[k].coin.as_slice()));
            spent_nullifiers.push(copy_bytes(nullifiers[k].as_slice()));
            proof {
                assert(byte_views(spent_commitments@) =~= byte_views(was_commitments).push(
                    coins@[k as int].coin@,
                ));
                assert(byte_views(spent_nullifiers@) =~= byte_views(was_nullifiers).push(
                    nullifiers@[k as int]@,
                ));
            }
            coins[k].value - fee
        },
        FeeSource::Change(k) => match outputs[k].note {
            Some(n) => n.value - fee,
            None => 0,
        },
    };
    Ok(FeePlan { source, change_value, spent_commitments, spent_nullifiers })
}

/// The coin that pays the fee is not one that the transfer spends: no coin is spent twice.
pub proof fn law_fee_coin_is_spent_once(
    plan: FeePlan,
    coins: Seq<SpendCoin>,
    outputs: Seq<ReadableOutput>,
    nullifiers: Seq<[u8; 32]>,
    spent: Seq<SpentCoin>,
    fee: u64,
    token_id: Seq<u8>,
    j: int,
)
    requires
        fee_source_ok(Ok(plan.source), coins, outputs, fee, token_id, coins_spent(spent)),
        spends_in_all(plan, coins, nullifiers, spent),
        plan.source is Leftover,
        0 <= j < spent.len(),
    ensures
        plan.spent_commitments@.len() == spent.len() + 1,
        plan.spent_commitments@.last()@ != spent[j].commitment@,
{
    let all = byte_views(plan.spent_commitments@);
    assert(all.last() == plan.spent_commitments@.last()@);
    assert(coins_spent(spent)[j]@ == spent[j].commitment@);
}

// ---- Contract calls ----

/// The data of a call: the function's number and its parameters.
pub fn call_data(function: u8, params: &[u8]) -> (data: Vec<u8>)
    ensures
        data@ == seq![function] + params@,
{
    let mut data: Vec<u8> = Vec::new();
    data.push(function);
    append_bytes(&mut data, params);
    assert(data@ =~= seq![function] + params@);
    data
}

/// The data of a fee call.
pub open spec fn fee_data(function: u8, fee: u64, params: Seq<u8>) -> Seq<u8> {
    seq![function] + le_bytes(fee as nat, 8) + params
}

/// The data of a fee call: the function's number, the fee in eight bytes, and the parameters.
pub fn fee_call_data(function: u8, fee: u64, params: &[u8]) -> (data: Vec<u8>)
    ensures
        data@ == fee_data(function, fee, params@),
{
    let mut data: Vec<u8> = Vec::new();
    data.push(function);
    append_bytes(&mut data, serialize_u64(fee).as_slice());
    append_bytes(&mut data, params);
    assert(data@ =~= fee_data(function, fee, params@));
    data
}

/// The fee stands in a fee call's data behind the function's number, and the parameters behind
/// the fee.
pub proof fn law_fee_reads_back(function: u8, fee: u64, params: Seq<u8>)
    ensures
        fee_data(function, fee, params)[0] == function,
        le_value(fee_data(function, fee, params).subrange(1, 9)) == fee,
        fee_data(function, fee, params).skip(9) == params,
{
    reveal_with_fuel(vstd::arithmetic::power::pow, 9);
    assert(vstd::arithmetic::power::pow(256, 8) == 0x1_0000_0000_0000_0000);
    law_le_bytes_read_back(fee as nat, 8);
    let data = fee_data(function, fee, params);
    assert(data.subrange(1, 9) =~= le_bytes(fee as nat, 8));
    assert(data.skip(9) =~= params);
}

// ---- What the builder promises, over inputs and results ----

/// A parent is one that `combine` gives for these two children at this level.
pub proof fn law_parents_come_from_combine<C: Fn(u8, &[u8; 32], &[u8; 32]) -> [u8; 32]>(
    combine: C,
    level: u8,
    l: [u8; 32],
    r: [u8; 32],
    p: [u8; 32],
    left: Seq<u8>,
    right: Seq<u8>,
    parent: Seq<u8>,
)
    ensures
        call_ensures(combine, (level, &l, &r), p) ==> combines(combine, level, l@, r@, p@),
        combines(combine, level, left, right, parent) ==> exists|a: &[u8; 32], b: &[u8; 32], c: [u8;
            32]|
            a@ == left && b@ == right && c@ == parent && #[trigger] call_ensures(
                combine,
                (level, a, b),
                c,
            ),
{
}

/// The bit of a position at a level is the parity of the position divided by that power of two.
pub proof fn law_bit_is_parity(n: nat, level: nat)
    ensures
        bit(n, level) == (n / pow2(level) % 2 == 1),
    decreases level,
{
    lemma2_to64();
    if level > 0 {
        let k = (level - 1) as nat;
        law_bit_is_parity(n / 2, k);
        lemma_pow2_pos(k);
        lemma_pow2_unfold(level);
        vstd::arithmetic::div_mod::lemma_div_denominator(n as int, 2, pow2(k) as int);
        let power = pow2(level);
        assert(power == 2 * pow2(k));
        assert((n / 2) / pow2(k) == n / power);
    } else {
        assert(pow2(0) == 1);
        assert(n / 1 == n);
    }
}

/// The root of a path is the leaf where it has no sibling; each further sibling is combined with
/// the root so far, on the side that the position's bit of its level says.
pub proof fn law_root_of_a_path<C: Fn(u8, &[u8; 32], &[u8; 32]) -> [u8; 32]>(
    combine: C,
    leaf: Seq<u8>,
    position: u64,
    path: Seq<[u8; 32]>,
    sibling: [u8; 32],
    root: Seq<u8>,
)
    ensures
        leads_to(combine, leaf, position, nodes_of(Seq::empty()), root) == (root == leaf),
        leads_to(combine, leaf, position, nodes_of(path.push(sibling)), root) == exists|
            below: Seq<u8>,
        |
            #[trigger] leads_to(combine, leaf, position, nodes_of(path), below) && if position as nat
                / pow2(path.len()) % 2 == 1 {
                combines(combine, path.len() as u8, sibling@, below, root)
            } else {
                combines(combine, path.len() as u8, below, sibling@, root)
            },
{
    assert(nodes_of(Seq::empty()) =~= Seq::empty());
    law_empty_path_leads_to_leaf(combine, leaf, position, root);
    assert(nodes_of(path.push(sibling)) =~= nodes_of(path).push(sibling@));
    law_path_leads_step_by_step(combine, leaf, position, nodes_of(path), sibling@, root);
    law_bit_is_parity(position as nat, path.len());
}

proof fn lemma_kept_places(coins: Seq<SpendCoin>, outcomes: Seq<Option<WitnessError>>) -> (at: Seq<
    int,
>)
    requires
        coins.len() <= outcomes.len(),
    ensures
        at.len() == kept(coins, outcomes).len(),
        forall|k: int|
            0 <= k < at.len() ==> 0 <= #[trigger] at[k] < coins.len() && outcomes[at[k]] is None
                && kept(coins, outcomes)[k] == coins[at[k]],
        forall|j: int, k: int| 0 <= j < k < at.len() ==> #[trigger] at[j] < #[trigger] at[k],
        forall|i: int|
            0 <= i < coins.len() && (#[trigger] outcomes[i]) is None ==> at.contains(i),
        kept(coins, outcomes).len() + reasons(outcomes.take(coins.len() as int)).len()
            == coins.len(),
    decreases coins.len(),
{
    if coins.len() == 0 {
        assert(outcomes.take(0) =~= Seq::empty());
        Seq::empty()
    } else {
        let n = coins.len() - 1;
        let rest = coins.drop_last();
        let before = lemma_kept_places(rest, outcomes);
        assert(outcomes.take(n + 1).drop_last() =~= outcomes.take(n));
        assert(outcomes.take(n + 1).last() == outcomes[n]);
        if outcomes[n] is None {
            let at = before.push(n);
            assert forall|i: int|
                0 <= i < coins.len() && (#[trigger] outcomes[i]) is None implies at.contains(i) by {
                if i < n {
                    let k = choose|k: int| 0 <= k < before.len() && before[k] == i;
                    assert(at[k] == i);
                } else {
                    assert(at[before.len() as int] == i);
                }
            }
            at
        } else {
            before
        }
    }
}

proof fn lemma_reason_places(outcomes: Seq<Option<WitnessError>>) -> (at: Seq<int>)
    ensures
        at.len() == reasons(outcomes).len(),
        forall|k: int|
            0 <= k < at.len() ==> 0 <= #[trigger] at[k] < outcomes.len() && outcomes[at[k]] == Some(
                reasons(outcomes)[k],
            ),
        forall|j: int, k: int| 0 <= j < k < at.len() ==> #[trigger] at[j] < #[trigger] at[k],
        forall|i: int|
            0 <= i < outcomes.len() && (#[trigger] outcomes[i]) is Some ==> at.contains(i),
    decreases outcomes.len(),
{
    if outcomes.len() == 0 {
        Seq::empty()
    } else {
        let n = outcomes.len() - 1;
        let rest = outcomes.drop_last();
        let before = lemma_reason_places(rest);
        let at = if outcomes[n] is Some {
            before.push(n)
        } else {
            before
        };
        assert forall|i: int|
            0 <= i < outcomes.len() && (#[trigger] outcomes[i]) is Some implies at.contains(i) by {
            if i < n {
                assert(rest[i] is Some);
                let k = choose|k: int| 0 <= k < before.len() && before[k] == i;
                assert(at[k] == i);
            } else {
                assert(at[before.len() as int] == i);
            }
        }
        assert forall|k: int| 0 <= k < at.len() implies 0 <= #[trigger] at[k] < outcomes.len()
            && outcomes[at[k]] == Some(reasons(outcomes)[k]) by {
            if k < before.len() {
                assert(at[k] == before[k]);
                assert(rest[before[k]] == outcomes[before[k]]);
            }
        }
        at
    }
}

/// No coin is lost: a coin that nothing was found wanting of is kept, any other has its reason
/// given, and both lists keep the order of the coins.
pub proof fn law_no_coin_is_lost(coins: Seq<SpendCoin>, outcomes: Seq<Option<WitnessError>>)
    requires
        outcomes.len() == coins.len(),
    ensures
        kept(coins, outcomes).len() + reasons(outcomes).len() == coins.len(),
        forall|i: int|
            0 <= i < coins.len() && (#[trigger] outcomes[i]) is None ==> kept(
                coins,
                outcomes,
            ).contains(coins[i]),
        forall|i: int|
            0 <= i < coins.len() ==> ((#[trigger] outcomes[i]) matches Some(e) ==> reasons(
                outcomes,
            ).contains(e)),
        exists|at: Seq<int>|
            {
                &&& #[trigger] at.len() == kept(coins, outcomes).len()
                &&& forall|k: int|
                    0 <= k < at.len() ==> 0 <= #[trigger] at[k] < coins.len() && outcomes[at[k]]
                        is None && kept(coins, outcomes)[k] == coins[at[k]]
                &&& forall|j: int, k: int|
                    0 <= j < k < at.len() ==> #[trigger] at[j] < #[trigger] at[k]
            },
        exists|at: Seq<int>|
            {
                &&& #[trigger] at.len() == reasons(outcomes).len()
                &&& forall|k: int|
                    0 <= k < at.len() ==> 0 <= #[trigger] at[k] < coins.len() && outcomes[at[k]]
                        == Some(reasons(outcomes)[k])
                &&& forall|j: int, k: int|
                    0 <= j < k < at.len() ==> #[trigger] at[j] < #[trigger] at[k]
            },
{
    assert(outcomes.take(coins.len() as int) =~= outcomes);
    let at = lemma_kept_places(coins, outcomes);
    let why = lemma_reason_places(outcomes);
    assert forall|i: int| 0 <= i < coins.len() && (#[trigger] outcomes[i]) is None implies kept(
        coins,
        outcomes,
    ).contains(coins[i]) by {
        let k = choose|k: int| 0 <= k < at.len() && at[k] == i;
        assert(kept(coins, outcomes)[k] == coins[at[k]]);
    }
    assert forall|i: int| 0 <= i < coins.len() implies ((#[trigger] outcomes[i]) matches Some(e)
        ==> reasons(outcomes).contains(e)) by {
        if outcomes[i] is Some {
            let k = choose|k: int| 0 <= k < why.len() && why[k] == i;
            assert(outcomes[why[k]] == Some(reasons(outcomes)[k]));
        }
    }
}

/// A coin passes exactly where the tree has a root and a path for it, and the path leads from the
/// coin at its position to that root. A coin that fails is said to fail for what it lacks: the
/// root, the path at its position, or a path that leads to the root.
pub proof fn law_coins_pass_by_their_witness<C: Fn(u8, &[u8; 32], &[u8; 32]) -> [u8; 32]>(
    combine: C,
    tip_root: Option<[u8; 32]>,
    paths: Seq<Option<Vec<[u8; 32]>>>,
    coins: Seq<SpendCoin>,
    outcomes: Seq<Option<WitnessError>>,
    i: int,
)
    requires
        all_judged(combine, tip_root, paths, coins, outcomes),
        0 <= i < coins.len(),
        forall|level: u8, l: Seq<u8>, r: Seq<u8>, a: Seq<u8>, b: Seq<u8>| #[trigger]
            combines(combine, level, l, r, a) && #[trigger] combines(combine, level, l, r, b) ==> a
                == b,
    ensures
        outcomes.len() == coins.len(),
        outcomes[i] is None <==> tip_root is Some && paths[i] is Some && leads_to(
            combine,
            coins[i].coin@,
            coins[i].leaf_position,
            nodes_of(paths[i]->0@),
            tip_root->0@,
        ),
        tip_root is None ==> outcomes[i] == Some(WitnessError::NoRoot),
        tip_root is Some && paths[i] is None ==> outcomes[i] == Some(
            WitnessError::NoPath(coins[i].leaf_position),
        ),
        tip_root is Some && paths[i] is Some && outcomes[i] is Some ==> (outcomes[i]->0 matches
            WitnessError::Mismatch { position, witnessed, tip } && {
            &&& position == coins[i].leaf_position
            &&& tip@ == tip_root->0@
            &&& witnessed@ != tip_root->0@
            &&& leads_to(
                combine,
                coins[i].coin@,
                coins[i].leaf_position,
                nodes_of(paths[i]->0@),
                witnessed@,
            )
        }),
{
    assert(judged(combine, tip_root, paths[i], coins[i], outcomes[i]));
    if let Some(WitnessError::Mismatch { position, witnessed, tip }) = outcomes[i] {
        let path = nodes_of(paths[i]->0@);
        if leads_to(combine, coins[i].coin@, coins[i].leaf_position, path, tip_root->0@) {
            law_path_leads_to_one_root(
                combine,
                coins[i].coin@,
                coins[i].leaf_position,
                path,
                witnessed@,
                tip_root->0@,
            );
        }
    }
}

/// The circuit found in a namespace is of that namespace and the first such; one that is said to
/// be missing is in no entry, and those asked for before it are in some.
pub proof fn law_circuits_are_found(
    bins: Seq<(String, Vec<u8>)>,
    mint: Seq<char>,
    burn: Seq<char>,
    fee: Seq<char>,
    namespace: Seq<char>,
    i: int,
)
    ensures
        first_of(bins, namespace, i) <==> 0 <= i < bins.len() && bins[i].0@ == namespace
            && !exists|j: int| 0 <= j < i && (#[trigger] bins[j]).0@ == namespace,
        none_of(bins, namespace) <==> !exists|j: int|
            0 <= j < bins.len() && (#[trigger] bins[j]).0@ == namespace,
        circuit_missing(bins, mint, burn, fee, Circuit::Mint) <==> !exists|j: int|
            0 <= j < bins.len() && (#[trigger] bins[j]).0@ == mint,
        circuit_missing(bins, mint, burn, fee, Circuit::Burn) <==> (exists|j: int|
            0 <= j < bins.len() && (#[trigger] bins[j]).0@ == mint) && !exists|j: int|
            0 <= j < bins.len() && (#[trigger] bins[j]).0@ == burn,
        circuit_missing(bins, mint, burn, fee, Circuit::Fee) <==> (exists|j: int|
            0 <= j < bins.len() && (#[trigger] bins[j]).0@ == mint) && (exists|j: int|
            0 <= j < bins.len() && (#[trigger] bins[j]).0@ == burn) && !exists|j: int|
            0 <= j < bins.len() && (#[trigger] bins[j]).0@ == fee,
{
}

/// The fee is paid by the first coin that holds it, is of the token and is not spent already;
/// failing that by the first output that goes back to the payer with as much of the token, which
/// must be the coin its note makes up; failing that not at all. Nothing pays a fee of zero.
pub proof fn law_fee_source(
    source: Result<FeeSource, FeeError>,
    coins: Seq<SpendCoin>,
    outputs: Seq<ReadableOutput>,
    fee: u64,
    token_id: Seq<u8>,
    spent: Seq<[u8; 32]>,
)
    requires
        fee_source_ok(source, coins, outputs, fee, token_id, spent),
    ensures
        source == Ok::<FeeSource, FeeError>(FeeSource::NoFee) <==> fee == 0,
        (source matches Ok(FeeSource::Leftover(i)) && {
            &&& i < coins.len()
            &&& coins[i as int].value >= fee
            &&& coins[i as int].token_id@ == token_id
            &&& forall|k: int| 0 <= k < spent.len() ==> (#[trigger] spent[k])@ != coins[i as int].coin@
            &&& forall|j: int|
                0 <= j < i ==> (#[trigger] coins[j]).value < fee || coins[j].token_id@ != token_id
                    || exists|k: int| 0 <= k < spent.len() && (#[trigger] spent[k])@ == coins[j].coin@
        }) <==> source matches Ok(FeeSource::Leftover(_)),
        source matches Ok(FeeSource::Leftover(_)) <==> fee > 0 && exists|j: int|
            {
                &&& 0 <= j < coins.len()
                &&& (#[trigger] coins[j]).value >= fee
                &&& coins[j].token_id@ == token_id
                &&& forall|k: int| 0 <= k < spent.len() ==> (#[trigger] spent[k])@ != coins[j].coin@
            },
        source matches Ok(FeeSource::Change(i)) ==> {
            &&& i < outputs.len()
            &&& outputs[i as int].note matches Some(n) && n.value >= fee && n.token_id@ == token_id
                && n.derived_coin@ == outputs[i as int].coin@
            &&& forall|j: int|
                0 <= j < i ==> ((#[trigger] outputs[j]).note matches Some(n) ==> n.value < fee
                    || n.token_id@ != token_id)
        },
        source matches Err(FeeError::NotEnough) ==> forall|j: int|
            0 <= j < outputs.len() ==> ((#[trigger] outputs[j]).note matches Some(n) ==> n.value
                < fee || n.token_id@ != token_id),
        source matches Err(FeeError::CoinMismatch { output, derived }) ==> output@ != derived@
            && exists|i: int|
            {
                &&& 0 <= i < outputs.len()
                &&& (#[trigger] outputs[i]).coin@ == output@
                &&& outputs[i].note matches Some(n) && n.derived_coin@ == derived@ && n.value >= fee
                    && n.token_id@ == token_id
                &&& forall|j: int|
                    0 <= j < i ==> ((#[trigger] outputs[j]).note matches Some(n) ==> n.value < fee
                        || n.token_id@ != token_id)
            },
{
    if exists|j: int|
        {
            &&& 0 <= j < coins.len()
            &&& (#[trigger] coins[j]).value >= fee
            &&& coins[j].token_id@ == token_id
            &&& forall|k: int| 0 <= k < spent.len() ==> (#[trigger] spent[k])@ != coins[j].coin@
        } {
        let j = choose|j: int|
            {
                &&& 0 <= j < coins.len()
                &&& (#[trigger] coins[j]).value >= fee
                &&& coins[j].token_id@ == token_id
                &&& forall|k: int| 0 <= k < spent.len() ==> (#[trigger] spent[k])@ != coins[j].coin@
            };
        assert(is_leftover(coins[j], fee, token_id, spent));
    }
    if let Ok(FeeSource::Leftover(i)) = source {
        assert forall|j: int| 0 <= j < i implies (#[trigger] coins[j]).value < fee
            || coins[j].token_id@ != token_id || exists|k: int|
            0 <= k < spent.len() && (#[trigger] spent[k])@ == coins[j].coin@ by {
            assert(!is_leftover(coins[j], fee, token_id, spent));
        }
        assert(is_leftover(coins[i as int], fee, token_id, spent));
    }
    if let Ok(FeeSource::Change(i)) = source {
        assert(is_change(outputs[i as int], fee, token_id));
    }
    if let Err(FeeError::CoinMismatch { output, derived }) = source {
        let i = choose|i: int| #[trigger]
            first_change(outputs, fee, token_id, i) && mismatch(outputs[i], output, derived);
        assert(is_change(outputs[i], fee, token_id));
        assert(outputs[i].coin@ == output@);
    }
}

/// Whatever pays the fee, a payment reports the commitment and the nullifier of every coin that
/// its transfer spends, at the same place of the two lists, and nothing else but the leftover
/// coin that pays the fee with the nullifier of that coin.
pub proof fn law_spent_coins_are_reported(
    plan: FeePlan,
    coins: Seq<SpendCoin>,
    nullifiers: Seq<[u8; 32]>,
    spent: Seq<SpentCoin>,
)
    requires
        spends_in_all(plan, coins, nullifiers, spent),
    ensures
        plan.spent_commitments@.len() == plan.spent_nullifiers@.len(),
        plan.spent_commitments@.len() == spent.len() + if plan.source is Leftover {
            1int
        } else {
            0
        },
        forall|j: int|
            0 <= j < spent.len() ==> (#[trigger] plan.spent_commitments@[j])@
                == spent[j].commitment@,
        forall|j: int|
            0 <= j < spent.len() ==> (#[trigger] plan.spent_nullifiers@[j])@ == spent[j].nullifier@,
        plan.source matches FeeSource::Leftover(i) ==> plan.spent_commitments@.last()@
            == coins[i as int].coin@ && plan.spent_nullifiers@.last()@ == nullifiers[i as int]@,
{
    let cs = byte_views(plan.spent_commitments@);
    let ns = byte_views(plan.spent_nullifiers@);
    assert(cs.len() == plan.spent_commitments@.len());
    assert(ns.len() == plan.spent_nullifiers@.len());
    assert forall|j: int| 0 <= j < spent.len() implies (#[trigger] plan.spent_commitments@[j])@
        == spent[j].commitment@ by {
        assert(cs[j] == plan.spent_commitments@[j]@);
    }
    assert forall|j: int| 0 <= j < spent.len() implies (#[trigger] plan.spent_nullifiers@[j])@
        == spent[j].nullifier@ by {
        assert(ns[j] == plan.spent_nullifiers@[j]@);
    }
    if plan.source is Leftover {
        let n = spent.len() as int;
        assert(cs[n] == plan.spent_commitments@[n]@);
        assert(ns[n] == plan.spent_nullifiers@[n]@);
    }
}

/// The coins that a fee's source must not be among are the commitments that the transfer spends.
pub proof fn law_transfer_coins_are_marked(spent: Seq<SpentCoin>, i: int)
    ensures
        coins_spent(spent).len() == spent.len(),
        0 <= i < spent.len() ==> coins_spent(spent)[i]@ == spent[i].commitment@,
{
}

/// Each blind counts once with its value in the sum of blinds, wherever it stands.
pub proof fn law_blind_sum(blinds: Seq<[u8; 32]>, more: Seq<[u8; 32]>, blind: [u8; 32])
    ensures
        blind_sum(Seq::empty()) == 0,
        blind_sum(blinds + more) == blind_sum(blinds) + blind_sum(more),
        blind_sum(blinds.push(blind)) == blind_sum(blinds) + le_value(blind@),
    decreases more.len(),
{
    assert(blinds.push(blind).drop_last() =~= blinds);
    if more.len() == 0 {
        assert(blinds + more =~= blinds);
    } else {
        assert((blinds + more).drop_last() =~= blinds + more.drop_last());
        law_blind_sum(blinds, more.drop_last(), blind);
    }
}

/// A coin pays a fee of its token that is not above its value, and is spent where its commitment
/// is among those spent; change is an output whose note the payer can read, judged likewise.
pub proof fn law_who_can_pay(
    coin: SpendCoin,
    output: ReadableOutput,
    fee: u64,
    token_id: Seq<u8>,
    spent: Seq<[u8; 32]>,
)
    ensures
        pays(coin, fee, token_id) <==> fee <= coin.value && token_id == coin.token_id@,
        is_spent(coin, spent) <==> exists|k: int|
            0 <= k < spent.len() && coin.coin@ == (#[trigger] spent[k])@,
        is_change(output, fee, token_id) <==> output.note is Some && fee <= output.note->0.value
            && token_id == output.note->0.token_id@,
{
}

/// The words for a coin that does not lead to the tip name the leaf, the root it leads to and the
/// tip, and how to mend it.
pub proof fn law_witness_words(at: u64, witnessed: [u8; 32], tip: [u8; 32])
    ensures
        WitnessError::NoRoot.text() == "Merkle tree has no current root"@,
        WitnessError::NoPath(at).text() == "Merkle witness missing for leaf Position("@ + decimal(
            at as nat,
        ) + ")"@,
        (WitnessError::Mismatch { position: at, witnessed, tip }).text()
            == "Merkle witness for leaf "@ + decimal(at as nat) + " hashes to "@ + hex_text(
            witnessed@,
        ) + " but tree tip is "@ + hex_text(tip@)
            + ". Rebuild with: moonshine sync --rebuild-merkle --allow-trial"@,
{
}

/// The words for a payment that cannot be prepared name the circuit that is missing, or how to
/// mend the coins.
pub proof fn law_preparation_words(skipped: Vec<WitnessError>)
    ensures
        PrepareError::CircuitMissing(Circuit::Mint).text() == "Mint circuit missing"@,
        PrepareError::CircuitMissing(Circuit::Burn).text() == "Burn circuit missing"@,
        PrepareError::CircuitMissing(Circuit::Fee).text() == "Fee circuit missing"@,
        PrepareError::NoSpendableCoins(skipped).text()
            == "No spendable coins with a valid Merkle witness. Rebuild with: moonshine sync --rebuild-merkle --allow-trial"@,
{
}

/// The words for a fee that cannot be paid name the two coins that differ.
pub proof fn law_fee_words(output: [u8; 32], derived: [u8; 32])
    ensures
        FeeError::NotEnough.text()
            == "Not enough native tokens to pay for fee (need a leftover coin or change >= fee)"@,
        (FeeError::CoinMismatch { output, derived }).text()
            == "tx-local change coin mismatch: output="@ + hex_text(output@) + " derived="@
            + hex_text(derived@),
{
}

} // verus!
