//! Exhaustive chain search: every way to bridge a start endpoint to an end
//! endpoint with the pieces of an inventory, each piece used at most once.

use vstd::prelude::*;
use crate::chain::{add_result, adapters_view, Chain};
use crate::model::{flip, reversed_model, same_piece, Adapter, AdapterModel, Thread, ThreadModel};

verus! {

/// The unordered pair of ends of an adapter, in stored order.
pub type Ends = (ThreadModel, ThreadModel);

pub open spec fn ends_of(x: AdapterModel) -> Ends {
    (x.end_a, x.end_b)
}

/// The two pairs name the same unordered pair of threads.
pub open spec fn pair_same(p: Ends, q: Ends) -> bool {
    ||| (p.0 == q.0 && p.1 == q.1)
    ||| (p.0 == q.1 && p.1 == q.0)
}

/// Whether the inventory holds a piece with these ends.
pub open spec fn piece_in_inventory(inv: Seq<AdapterModel>, x: AdapterModel) -> bool {
    exists|m: int| 0 <= m < inv.len() && #[trigger] same_piece(inv[m], x)
}

/// Whether some flagged inventory entry is the same piece as `x`.
pub open spec fn flagged_cover(inv: Seq<AdapterModel>, u: Seq<bool>, x: AdapterModel) -> bool {
    exists|j: int| 0 <= j < inv.len() && u[j] && #[trigger] same_piece(inv[j], x)
}

/// Whether a pair naming the same unordered pair as `q` is in the used set.
pub open spec fn spent(used: Set<Ends>, q: Ends) -> bool {
    exists|r: Ends| used.contains(r) && pair_same(r, q)
}

/// The pairs of ends of the pieces a partial chain has already consumed
/// (everything after the synthetic start marker at position 0), closed under
/// orientation.
pub open spec fn used_pairs(c: Seq<AdapterModel>) -> Set<Ends> {
    Set::new(|q: Ends| exists|k: int| 1 <= k < c.len() && #[trigger] pair_same(ends_of(c[k]), q))
}

/// The synthetic boundary adapter that opens a chain at `start`.
pub open spec fn start_marker(start: ThreadModel) -> AdapterModel {
    AdapterModel { end_a: ThreadModel::Nil, end_b: start, label: "start"@, reversed: false }
}

/// The synthetic boundary adapter that closes a chain at `end`.
pub open spec fn end_marker(end: ThreadModel) -> AdapterModel {
    AdapterModel { end_a: end, end_b: ThreadModel::Nil, label: "end"@, reversed: false }
}

/// Consecutive adapters are compatible: each one's second end mates with the
/// next one's first end.
pub open spec fn linked(c: Seq<AdapterModel>) -> bool {
    forall|i: int| 0 <= i < c.len() - 1 ==> (#[trigger] c[i]).end_b == flip(c[i + 1].end_a)
}

/// There is a chain from the open end `open_end` to `end` that places, in
/// order, pieces with exactly the oriented end pairs `p`: each placed pair
/// fits the open end left by the one before, is carried (in some orientation)
/// by an inventory piece not yet consumed, and the chain closes at `end`
/// exactly with its last pair — never earlier, since the search retires a
/// branch the moment it completes.
#[verifier::opaque]
pub open spec fn chain_exists(
    inv: Seq<AdapterModel>,
    used: Set<Ends>,
    open_end: ThreadModel,
    end: ThreadModel,
    p: Seq<Ends>,
) -> bool
    decreases p.len(),
{
    &&& p.len() >= 1
    &&& p[0].0 == flip(open_end)
    &&& exists|m: int| 0 <= m < inv.len() && #[trigger] pair_same(ends_of(inv[m]), p[0])
    &&& !spent(used, p[0])
    &&& if flip(p[0].1) == end {
        p.len() == 1
    } else {
        chain_exists(inv, used.insert(p[0]), p[0].1, end, p.drop_first())
    }
}

/// Some chain of unused inventory pieces bridges `start` to `end`.
pub open spec fn reachable(inv: Seq<AdapterModel>, start: ThreadModel, end: ThreadModel) -> bool {
    exists|p: Seq<Ends>| chain_exists(inv, Set::empty(), start, end, p)
}

/// The chain `c` completes the partial chain `prefix`: it extends it by at
/// least one real adapter, closes with the end marker, keeps consecutive
/// adapters compatible, draws every real adapter from the inventory with no
/// piece used twice, and reaches `end` only at its last real adapter.
pub open spec fn extends_complete(
    inv: Seq<AdapterModel>,
    end: ThreadModel,
    prefix: Seq<AdapterModel>,
    c: Seq<AdapterModel>,
) -> bool {
    &&& c.len() >= prefix.len() + 2
    &&& c.subrange(0, prefix.len() as int) == prefix
    &&& c.last() == end_marker(end)
    &&& linked(c)
    &&& forall|k: int| 1 <= k < c.len() - 1 ==> piece_in_inventory(inv, #[trigger] c[k])
    &&& forall|j: int, k: int| 1 <= j < k < c.len() - 1 ==> !same_piece(#[trigger] c[j], #[trigger] c[k])
    &&& forall|k: int| 1 <= k < c.len() - 2 ==> flip((#[trigger] c[k]).end_b) != end
}

/// A full result chain for `make_chain(start, end, inv)`: the start marker,
/// at least one real adapter, and the end marker, linked throughout, drawing
/// each inventory piece at most once and reaching `end` only at the last
/// real adapter.
pub open spec fn complete_chain(
    inv: Seq<AdapterModel>,
    start: ThreadModel,
    end: ThreadModel,
    c: Seq<AdapterModel>,
) -> bool {
    &&& c.len() >= 3
    &&& c[0] == start_marker(start)
    &&& extends_complete(inv, end, c.subrange(0, 1), c)
}

/// The chain `c` is the completion of `prefix` whose placed pieces carry, in
/// order, exactly the oriented end pairs `p`.
pub open spec fn emits(
    prefix: Seq<AdapterModel>,
    end: ThreadModel,
    p: Seq<Ends>,
    c: Seq<AdapterModel>,
) -> bool {
    &&& c.len() == prefix.len() + p.len() + 1
    &&& c.subrange(0, prefix.len() as int) == prefix
    &&& forall|j: int| 0 <= j < p.len() ==> ends_of(c[prefix.len() + j]) == #[trigger] p[j]
    &&& c.last() == end_marker(end)
}

/// The oriented end pairs of a sequence of adapters, in order.
pub open spec fn trace_of(c: Seq<AdapterModel>) -> Seq<Ends> {
    c.map_values(|x: AdapterModel| ends_of(x))
}

/// Well-formedness of a search state: the partial chain starts with one
/// boundary adapter, is linked, never completes early, and its consumed
/// pieces are exactly the flagged inventory entries (up to piece identity).
pub open spec fn prefix_ok(
    inv: Seq<AdapterModel>,
    u: Seq<bool>,
    end: ThreadModel,
    c: Seq<AdapterModel>,
) -> bool {
    &&& u.len() == inv.len()
    &&& c.len() >= 1
    &&& linked(c)
    &&& forall|k: int| 1 <= k < c.len() ==> piece_in_inventory(inv, #[trigger] c[k])
    &&& forall|j: int, k: int| 1 <= j < k < c.len() ==> !same_piece(#[trigger] c[j], #[trigger] c[k])
    &&& forall|k: int| 1 <= k < c.len() ==> flip((#[trigger] c[k]).end_b) != end
    &&& forall|k: int| 1 <= k < c.len() ==> flagged_cover(inv, u, #[trigger] c[k])
    &&& forall|j: int| 0 <= j < inv.len() && #[trigger] u[j] ==> exists|k: int|
        1 <= k < c.len() && #[trigger] same_piece(inv[j], c[k])
}

/// How many flags are still clear.
pub open spec fn count_false(u: Seq<bool>) -> nat
    decreases u.len(),
{
    if u.len() == 0 {
        0
    } else {
        count_false(u.drop_last()) + (if u.last() {
            0nat
        } else {
            1nat
        })
    }
}

proof fn lemma_count_false_update(u: Seq<bool>, i: int)
    requires
        0 <= i < u.len(),
        !u[i],
    ensures
        count_false(u.update(i, true)) + 1 == count_false(u),
    decreases u.len(),
{
    let v = u.update(i, true);
    if i == u.len() - 1 {
        assert(v.drop_last() =~= u.drop_last());
    } else {
        assert(v.drop_last() =~= u.drop_last().update(i, true));
        lemma_count_false_update(u.drop_last(), i);
    }
}

/// `spent` over the consumed pairs of a chain is membership of some consumed
/// piece's pair, in either orientation.
proof fn lemma_spent_used_pairs(c: Seq<AdapterModel>, q: Ends)
    ensures
        spent(used_pairs(c), q) == exists|k: int|
            1 <= k < c.len() && #[trigger] pair_same(ends_of(c[k]), q),
{
    if spent(used_pairs(c), q) {
        let r = choose|r: Ends| used_pairs(c).contains(r) && pair_same(r, q);
        let k = choose|k: int| 1 <= k < c.len() && #[trigger] pair_same(ends_of(c[k]), r);
        assert(pair_same(ends_of(c[k]), q));
    }
    if exists|k: int| 1 <= k < c.len() && #[trigger] pair_same(ends_of(c[k]), q) {
        let k = choose|k: int| 1 <= k < c.len() && #[trigger] pair_same(ends_of(c[k]), q);
        assert(pair_same(ends_of(c[k]), ends_of(c[k])));
        assert(used_pairs(c).contains(ends_of(c[k])));
    }
}

/// Consuming one more piece adds exactly its pair (in both orientations) to
/// the consumed set.
proof fn lemma_used_pairs_push(c: Seq<AdapterModel>, x: AdapterModel, q: Ends)
    requires
        c.len() >= 1,
    ensures
        spent(used_pairs(c.push(x)), q) == (spent(used_pairs(c), q) || pair_same(ends_of(x), q)),
{
    let c2 = c.push(x);
    lemma_spent_used_pairs(c, q);
    lemma_spent_used_pairs(c2, q);
    assert(c2[c.len() as int] == x);
    if exists|k: int| 1 <= k < c.len() && #[trigger] pair_same(ends_of(c[k]), q) {
        let k = choose|k: int| 1 <= k < c.len() && #[trigger] pair_same(ends_of(c[k]), q);
        assert(pair_same(ends_of(c2[k]), q));
    }
    if exists|k: int| 1 <= k < c2.len() && #[trigger] pair_same(ends_of(c2[k]), q) {
        let k = choose|k: int| 1 <= k < c2.len() && #[trigger] pair_same(ends_of(c2[k]), q);
        if k < c.len() {
            assert(pair_same(ends_of(c[k]), q));
        }
    }
}

/// Inserting a pair into the used set spends exactly that unordered pair.
proof fn lemma_spent_insert(used: Set<Ends>, p0: Ends, q: Ends)
    ensures
        spent(used.insert(p0), q) == (spent(used, q) || pair_same(p0, q)),
{
    if spent(used.insert(p0), q) {
        let r = choose|r: Ends| used.insert(p0).contains(r) && pair_same(r, q);
        if r != p0 {
            assert(used.contains(r));
        }
    }
    if spent(used, q) {
        let r = choose|r: Ends| used.contains(r) && pair_same(r, q);
        assert(used.insert(p0).contains(r));
    }
    if pair_same(p0, q) {
        assert(used.insert(p0).contains(p0));
    }
}

/// `chain_exists` reads the used set only through `spent`.
proof fn lemma_chain_exists_used(
    inv: Seq<AdapterModel>,
    u1: Set<Ends>,
    u2: Set<Ends>,
    open_end: ThreadModel,
    end: ThreadModel,
    p: Seq<Ends>,
)
    requires
        forall|q: Ends| spent(u1, q) == spent(u2, q),
    ensures
        chain_exists(inv, u1, open_end, end, p) == chain_exists(inv, u2, open_end, end, p),
    decreases p.len(),
{
    reveal(chain_exists);
    if p.len() >= 1 {
        assert(spent(u1, p[0]) == spent(u2, p[0]));
        if flip(p[0].1) != end {
            assert forall|q: Ends| spent(u1.insert(p[0]), q) == spent(u2.insert(p[0]), q) by {
                lemma_spent_insert(u1, p[0], q);
                lemma_spent_insert(u2, p[0], q);
                assert(spent(u1, q) == spent(u2, q));
            }
            lemma_chain_exists_used(inv, u1.insert(p[0]), u2.insert(p[0]), p[0].1, end,
                p.drop_first());
        }
    }
}

/// A longer inventory admits every chain the shorter one admits.
proof fn lemma_chain_exists_inv_push(
    inv: Seq<AdapterModel>,
    x: AdapterModel,
    used: Set<Ends>,
    open_end: ThreadModel,
    end: ThreadModel,
    p: Seq<Ends>,
)
    requires
        chain_exists(inv, used, open_end, end, p),
    ensures
        chain_exists(inv.push(x), used, open_end, end, p),
    decreases p.len(),
{
    reveal(chain_exists);
    let m = choose|m: int| 0 <= m < inv.len() && #[trigger] pair_same(ends_of(inv[m]), p[0]);
    assert(inv.push(x)[m] == inv[m]);
    if flip(p[0].1) != end {
        lemma_chain_exists_inv_push(inv, x, used.insert(p[0]), p[0].1, end, p.drop_first());
    }
}

/// Adding a piece to the inventory never severs a connection: every endpoint
/// pair reachable before is still reachable after.
pub proof fn lemma_addition_keeps_reachable(
    inv: Seq<AdapterModel>,
    x: AdapterModel,
    start: ThreadModel,
    end: ThreadModel,
)
    requires
        reachable(inv, start, end),
    ensures
        reachable(inv.push(x), start, end),
{
    let p = choose|p: Seq<Ends>| chain_exists(inv, Set::empty(), start, end, p);
    lemma_chain_exists_inv_push(inv, x, Set::empty(), start, end, p);
}

/// From position `t` (counting placed pieces after the start marker), a
/// complete chain witnesses `chain_exists` for its own remaining trace.
proof fn lemma_complete_tail_exists(
    inv: Seq<AdapterModel>,
    end: ThreadModel,
    c: Seq<AdapterModel>,
    t: int,
    open_end: ThreadModel,
    used: Set<Ends>,
    p: Seq<Ends>,
)
    requires
        extends_complete(inv, end, c.subrange(0, 1), c),
        c.len() >= 3,
        0 <= t < c.len() - 2,
        open_end == c[t].end_b,
        forall|q: Ends| spent(used, q) == exists|k: int|
            1 <= k < t + 1 && #[trigger] pair_same(ends_of(c[k]), q),
        p == trace_of(c.subrange(t + 1, c.len() - 1)),
    ensures
        chain_exists(inv, used, open_end, end, p),
    decreases c.len() - t,
{
    reveal(chain_exists);
    let head = c[t + 1];
    assert(p[0] == ends_of(head));
    assert(c[t].end_b == flip(head.end_a));
    crate::model::lemma_opposite_involution(head.end_a);
    assert(p[0].0 == flip(open_end));
    assert(piece_in_inventory(inv, head));
    let m = choose|m: int| 0 <= m < inv.len() && #[trigger] same_piece(inv[m], head);
    assert(pair_same(ends_of(inv[m]), p[0]));
    assert(!spent(used, p[0])) by {
        if spent(used, p[0]) {
            let k = choose|k: int| 1 <= k < t + 1 && #[trigger] pair_same(ends_of(c[k]), p[0]);
            assert(!same_piece(c[k], c[t + 1]));
        }
    }
    if t + 1 == c.len() - 2 {
        // the last placed piece: the chain closes right after it
        assert(c[t + 1].end_b == flip(c[t + 2].end_a));
        assert(c[t + 2] == end_marker(end));
        crate::model::lemma_opposite_involution(head.end_b);
        assert(flip(p[0].1) == end);
        assert(p.len() == 1);
    } else {
        assert(flip(head.end_b) != end);
        assert forall|q: Ends| spent(used.insert(p[0]), q) == exists|k: int|
            1 <= k < t + 2 && #[trigger] pair_same(ends_of(c[k]), q) by {
            lemma_spent_insert(used, p[0], q);
            if pair_same(p[0], q) {
                assert(pair_same(ends_of(c[t + 1]), q));
            }
            if exists|k: int| 1 <= k < t + 2 && #[trigger] pair_same(ends_of(c[k]), q) {
                let k = choose|k: int| 1 <= k < t + 2 && #[trigger] pair_same(ends_of(c[k]), q);
                if k == t + 1 {
                    assert(pair_same(p[0], q));
                }
            }
        }
        assert(p.drop_first() =~= trace_of(c.subrange(t + 2, c.len() - 1)));
        lemma_complete_tail_exists(inv, end, c, t + 1, head.end_b, used.insert(p[0]),
            p.drop_first());
        assert(chain_exists(inv, used.insert(p[0]), p[0].1, end, p.drop_first()));
    }
}

/// A full chain shape, stated over its own prefix, yields a valid trace for
/// an untouched used set.
proof fn lemma_complete_entry(
    inv: Seq<AdapterModel>,
    end: ThreadModel,
    c: Seq<AdapterModel>,
    start: ThreadModel,
)
    requires
        extends_complete(inv, end, c.subrange(0, 1), c),
        c.len() >= 3,
        start == c[0].end_b,
    ensures
        chain_exists(inv, Set::empty(), start, end, trace_of(c.subrange(0int + 1, c.len() - 1))),
{
    assert forall|q: Ends| spent(Set::<Ends>::empty(), q) == (exists|k: int|
        1 <= k < 0int + 1 && #[trigger] pair_same(ends_of(c[k]), q)) by {
        if spent(Set::<Ends>::empty(), q) {
            let r = choose|r: Ends| Set::<Ends>::empty().contains(r) && pair_same(r, q);
        }
    }
    lemma_complete_tail_exists(inv, end, c, 0, start, Set::empty(),
        trace_of(c.subrange(0int + 1, c.len() - 1)));
}

/// The placed pieces of a full result chain are a valid trace from its
/// start.
#[verifier::spinoff_prover]
#[verifier::rlimit(100)]
proof fn lemma_complete_trace(
    inv: Seq<AdapterModel>,
    start: ThreadModel,
    end: ThreadModel,
    c: Seq<AdapterModel>,
)
    requires
        complete_chain(inv, start, end, c),
    ensures
        chain_exists(inv, Set::empty(), start, end, trace_of(c.subrange(0int + 1, c.len() - 1))),
{
    assert(c[0].end_b == start);
    lemma_complete_entry(inv, end, c, start);
}

/// Every full result chain witnesses reachability of its endpoints.
pub proof fn lemma_complete_chain_reachable(
    inv: Seq<AdapterModel>,
    start: ThreadModel,
    end: ThreadModel,
    c: Seq<AdapterModel>,
)
    requires
        complete_chain(inv, start, end, c),
    ensures
        reachable(inv, start, end),
{
    lemma_complete_trace(inv, start, end, c);
}

fn flags_with(v: &Vec<bool>, i: usize) -> (r: Vec<bool>)
    requires
        i < v@.len(),
    ensures
        r@ == v@.update(i as int, true),
{
    let mut r: Vec<bool> = Vec::new();
    let mut j: usize = 0;
    while j < v.len()
        invariant
            j <= v@.len(),
            i < v@.len(),
            r@.len() == j as int,
            forall|k: int| 0 <= k < j as int ==> r@[k] == (if k == i as int {
                true
            } else {
                v@[k]
            }),
        decreases v@.len() - j,
    {
        if j == i {
            r.push(true);
        } else {
            r.push(v[j]);
        }
        j = j + 1;
    }
    proof {
        assert(r@ =~= v@.update(i as int, true));
    }
    r
}

fn is_blocked(equipment: &Vec<Adapter>, used: &Vec<bool>, i: usize) -> (r: bool)
    requires
        used@.len() == equipment@.len(),
        i < equipment@.len(),
    ensures
        r == flagged_cover(adapters_view(equipment@), used@, adapters_view(equipment@)[i as int]),
{
    let ghost inv = adapters_view(equipment@);
    let mut j: usize = 0;
    while j < equipment.len()
        invariant
            j <= equipment@.len(),
            i < equipment@.len(),
            used@.len() == equipment@.len(),
            inv == adapters_view(equipment@),
            forall|j2: int| 0 <= j2 < j as int ==> !(#[trigger] used@[j2] && same_piece(
                inv[j2],
                inv[i as int],
            )),
        decreases equipment@.len() - j,
    {
        if used[j] && equipment[j].same_ends(&equipment[i]) {
            proof {
                assert(same_piece(inv[j as int], inv[i as int]));
            }
            return true;
        }
        proof {
            if j < equipment@.len() {
                assert(inv[j as int] == equipment@[j as int]@);
            }
        }
        j = j + 1;
    }
    false
}

/// A piece equal to a flagged one has already been consumed by the chain.
proof fn lemma_blocked_spent(
    inv: Seq<AdapterModel>,
    u: Seq<bool>,
    end: ThreadModel,
    c: Seq<AdapterModel>,
    this: AdapterModel,
    q: Ends,
)
    requires
        prefix_ok(inv, u, end, c),
        flagged_cover(inv, u, this),
        pair_same(ends_of(this), q),
    ensures
        spent(used_pairs(c), q),
{
    let j = choose|j: int| 0 <= j < inv.len() && u[j] && #[trigger] same_piece(inv[j], this);
    let k = choose|k: int| 1 <= k < c.len() && #[trigger] same_piece(inv[j], c[k]);
    lemma_spent_used_pairs(c, q);
    assert(pair_same(ends_of(c[k]), q));
}

/// What a successful extension placed: the stored or the reversed
/// orientation of the candidate, fitting the open end.
proof fn lemma_add_placed(c: Seq<AdapterModel>, this: AdapterModel, placed: AdapterModel)
    requires
        c.len() >= 1,
        add_result(c, this) == Some(c.push(placed)),
    ensures
        c.last().end_b == flip(placed.end_a),
        same_piece(placed, this),
        placed == this || placed == reversed_model(this),
{
    assert(c.push(placed)[c.len() as int] == placed);
    if c.last().end_b == flip(this.end_a) {
        assert(c.push(this)[c.len() as int] == this);
    } else {
        assert(c.push(reversed_model(this))[c.len() as int] == reversed_model(this));
    }
}

/// The open end determines the orientation in which a matching piece can be
/// placed: any valid trace led by that piece starts with the placed pair.
proof fn lemma_first_pair_determined(
    open_end: ThreadModel,
    this: AdapterModel,
    placed: AdapterModel,
    p0: Ends,
)
    requires
        open_end == flip(placed.end_a),
        same_piece(placed, this),
        pair_same(ends_of(this), p0),
        p0.0 == flip(open_end),
    ensures
        p0 == ends_of(placed),
{
    crate::model::lemma_opposite_involution(placed.end_a);
    assert(p0.0 == placed.end_a);
    assert(pair_same(ends_of(placed), p0));
}

/// Nothing already placed equals a piece that is not flagged.
proof fn lemma_new_piece_fresh(
    inv: Seq<AdapterModel>,
    u: Seq<bool>,
    end: ThreadModel,
    c: Seq<AdapterModel>,
    this: AdapterModel,
    k: int,
)
    requires
        prefix_ok(inv, u, end, c),
        !flagged_cover(inv, u, this),
        1 <= k < c.len(),
    ensures
        !same_piece(c[k], this),
{
    assert(flagged_cover(inv, u, c[k]));
    let j = choose|j: int| 0 <= j < inv.len() && u[j] && #[trigger] same_piece(inv[j], c[k]);
    if same_piece(c[k], this) {
        assert(same_piece(inv[j], this));
        assert(flagged_cover(inv, u, this));
    }
}

/// A successful, incomplete extension yields a well-formed deeper state.
proof fn lemma_step_extend(
    inv: Seq<AdapterModel>,
    u: Seq<bool>,
    end: ThreadModel,
    c: Seq<AdapterModel>,
    this: AdapterModel,
    placed: AdapterModel,
    i: int,
)
    requires
        prefix_ok(inv, u, end, c),
        0 <= i < inv.len(),
        inv[i] == this,
        !flagged_cover(inv, u, this),
        add_result(c, this) == Some(c.push(placed)),
        flip(placed.end_b) != end,
    ensures
        prefix_ok(inv, u.update(i, true), end, c.push(placed)),
        !u[i],
{
    lemma_add_placed(c, this, placed);
    let e = c.push(placed);
    let u2 = u.update(i, true);
    if u[i] {
        assert(u[i] && same_piece(inv[i], this));
        assert(flagged_cover(inv, u, this));
    }
    assert forall|idx: int| 0 <= idx < e.len() - 1 implies (#[trigger] e[idx]).end_b == flip(
        e[idx + 1].end_a,
    ) by {
        if idx + 1 < c.len() {
            assert(e[idx] == c[idx] && e[idx + 1] == c[idx + 1]);
        } else {
            assert(e[idx] == c.last() && e[idx + 1] == placed);
        }
    }
    assert forall|k: int| 1 <= k < e.len() implies piece_in_inventory(inv, #[trigger] e[k]) by {
        if k < c.len() {
            assert(e[k] == c[k]);
        } else {
            assert(e[k] == placed);
            assert(same_piece(inv[i], placed));
        }
    }
    assert forall|j: int, k: int| 1 <= j < k < e.len() implies !same_piece(
        #[trigger] e[j],
        #[trigger] e[k],
    ) by {
        if k < c.len() {
            assert(e[j] == c[j] && e[k] == c[k]);
        } else {
            assert(e[j] == c[j] && e[k] == placed);
            lemma_new_piece_fresh(inv, u, end, c, this, j);
        }
    }
    assert forall|k: int| 1 <= k < e.len() implies flip((#[trigger] e[k]).end_b) != end by {
        if k < c.len() {
            assert(e[k] == c[k]);
        } else {
            assert(e[k] == placed);
        }
    }
    assert forall|k: int| 1 <= k < e.len() implies flagged_cover(inv, u2, #[trigger] e[k]) by {
        if k < c.len() {
            assert(e[k] == c[k]);
            assert(flagged_cover(inv, u, c[k]));
            let j = choose|j: int| 0 <= j < inv.len() && u[j] && #[trigger] same_piece(
                inv[j],
                c[k],
            );
            assert(u2[j] && same_piece(inv[j], e[k]));
        } else {
            assert(e[k] == placed);
            assert(u2[i] && same_piece(inv[i], placed));
        }
    }
    assert forall|j: int| 0 <= j < inv.len() && #[trigger] u2[j] implies exists|k: int|
        1 <= k < e.len() && same_piece(inv[j], #[trigger] e[k]) by {
        if j == i {
            assert(e[c.len() as int] == placed);
            assert(same_piece(inv[j], e[c.len() as int]));
        } else {
            assert(u[j]);
            let k = choose|k: int| 1 <= k < c.len() && #[trigger] same_piece(inv[j], c[k]);
            assert(same_piece(inv[j], e[k]));
        }
    }
}

/// Completing a branch: the chain closed with the end marker is a valid full
/// result, and it emits every valid trace led by this piece.
proof fn lemma_step_complete(
    inv: Seq<AdapterModel>,
    u: Seq<bool>,
    end: ThreadModel,
    c: Seq<AdapterModel>,
    this: AdapterModel,
    placed: AdapterModel,
    d: Seq<AdapterModel>,
)
    requires
        prefix_ok(inv, u, end, c),
        piece_in_inventory(inv, this),
        !flagged_cover(inv, u, this),
        add_result(c, this) == Some(c.push(placed)),
        flip(placed.end_b) == end,
        d == c.push(placed).push(end_marker(end)),
    ensures
        extends_complete(inv, end, c, d),
        forall|p: Seq<Ends>| (#[trigger] chain_exists(inv, used_pairs(c), c.last().end_b, end, p)
            && pair_same(ends_of(this), p[0])) ==> emits(c, end, p, d),
{
    reveal(chain_exists);
    lemma_add_placed(c, this, placed);
    crate::model::lemma_opposite_involution(placed.end_b);
    assert(d.subrange(0, c.len() as int) =~= c);
    assert(d[c.len() as int] == placed);
    assert(d.last() == end_marker(end));
    assert forall|idx: int| 0 <= idx < d.len() - 1 implies (#[trigger] d[idx]).end_b == flip(
        d[idx + 1].end_a,
    ) by {
        if idx + 1 < c.len() {
            assert(d[idx] == c[idx] && d[idx + 1] == c[idx + 1]);
        } else if idx + 1 == c.len() {
            assert(d[idx] == c.last() && d[idx + 1] == placed);
        } else {
            assert(d[idx] == placed && d[idx + 1] == end_marker(end));
            assert(placed.end_b == flip(end));
        }
    }
    assert forall|k: int| 1 <= k < d.len() - 1 implies piece_in_inventory(inv, #[trigger] d[k]) by {
        if k < c.len() {
            assert(d[k] == c[k]);
        } else {
            assert(d[k] == placed);
            let m = choose|m: int| 0 <= m < inv.len() && #[trigger] same_piece(inv[m], this);
            assert(same_piece(inv[m], placed));
        }
    }
    assert forall|j: int, k: int| 1 <= j < k < d.len() - 1 implies !same_piece(
        #[trigger] d[j],
        #[trigger] d[k],
    ) by {
        if k < c.len() {
            assert(d[j] == c[j] && d[k] == c[k]);
        } else {
            assert(d[j] == c[j] && d[k] == placed);
            lemma_new_piece_fresh(inv, u, end, c, this, j);
        }
    }
    assert forall|k: int| 1 <= k < d.len() - 2 implies flip((#[trigger] d[k]).end_b) != end by {
        assert(d[k] == c[k]);
    }
    assert(extends_complete(inv, end, c, d));
    assert forall|p: Seq<Ends>| (#[trigger] chain_exists(inv, used_pairs(c), c.last().end_b, end,
        p) && pair_same(ends_of(this), p[0])) implies emits(c, end, p, d) by {
        lemma_first_pair_determined(c.last().end_b, this, placed, p[0]);
        assert(flip(p[0].1) == end);
        assert(p.len() == 1);
        assert(ends_of(d[c.len() as int + 0]) == p[0]);
        assert(emits(c, end, p, d));
    }
}

/// Descending into the extended state: the remaining trace after its first
/// pair is valid there.
proof fn lemma_step_tail(
    inv: Seq<AdapterModel>,
    c: Seq<AdapterModel>,
    placed: AdapterModel,
    end: ThreadModel,
    p: Seq<Ends>,
)
    requires
        c.len() >= 1,
        chain_exists(inv, used_pairs(c), c.last().end_b, end, p),
        p[0] == ends_of(placed),
        flip(p[0].1) != end,
    ensures
        chain_exists(inv, used_pairs(c.push(placed)), placed.end_b, end, p.drop_first()),
{
    reveal(chain_exists);
    let uset = used_pairs(c);
    assert(chain_exists(inv, uset.insert(p[0]), p[0].1, end, p.drop_first()));
    assert forall|q: Ends| spent(used_pairs(c.push(placed)), q) == spent(
        uset.insert(p[0]),
        q,
    ) by {
        lemma_used_pairs_push(c, placed, q);
        lemma_spent_insert(uset, p[0], q);
    }
    lemma_chain_exists_used(inv, uset.insert(p[0]), used_pairs(c.push(placed)), p[0].1, end,
        p.drop_first());
    assert(p[0].1 == placed.end_b);
}

/// Results of the deeper search are results here as well.
proof fn lemma_step_lift_sound(
    inv: Seq<AdapterModel>,
    end: ThreadModel,
    c: Seq<AdapterModel>,
    placed: AdapterModel,
    x: Seq<AdapterModel>,
)
    requires
        c.len() >= 1,
        extends_complete(inv, end, c.push(placed), x),
    ensures
        extends_complete(inv, end, c, x),
{
    let e = c.push(placed);
    assert forall|idx: int| 0 <= idx < e.len() implies x[idx] == e[idx] by {
        assert(x.subrange(0, e.len() as int)[idx] == x[idx]);
    }
    assert(x.subrange(0, c.len() as int) =~= c);
}

/// An emission for the deeper state is an emission here, with the placed
/// pair prepended.
proof fn lemma_step_lift_emits(
    end: ThreadModel,
    c: Seq<AdapterModel>,
    placed: AdapterModel,
    p: Seq<Ends>,
    x: Seq<AdapterModel>,
)
    requires
        c.len() >= 1,
        p.len() >= 1,
        p[0] == ends_of(placed),
        emits(c.push(placed), end, p.drop_first(), x),
    ensures
        emits(c, end, p, x),
{
    let e = c.push(placed);
    assert forall|idx: int| 0 <= idx < e.len() implies x[idx] == e[idx] by {
        assert(x.subrange(0, e.len() as int)[idx] == x[idx]);
    }
    assert(x.subrange(0, c.len() as int) =~= c);
    assert forall|j: int| 0 <= j < p.len() implies ends_of(x[c.len() + j]) == #[trigger] p[j] by {
        if j == 0 {
            assert(x[c.len() as int] == placed);
        } else {
            assert(ends_of(x[e.len() + (j - 1)]) == p.drop_first()[j - 1]);
        }
    }
}

/// A piece that does not fit the open end cannot lead any valid trace.
proof fn lemma_step_no_fit(c: Seq<AdapterModel>, this: AdapterModel, p0: Ends)
    requires
        c.len() >= 1,
        add_result(c, this) is None,
        pair_same(ends_of(this), p0),
    ensures
        p0.0 != flip(c.last().end_b),
{
    crate::model::lemma_opposite_involution(this.end_a);
    crate::model::lemma_opposite_involution(this.end_b);
    crate::model::lemma_opposite_involution(c.last().end_b);
}

#[verifier::rlimit(100)]
fn search(
    end: &Thread,
    equipment: &Vec<Adapter>,
    used: &Vec<bool>,
    chain: &Chain,
    found: &mut Vec<Chain>,
)
    requires
        prefix_ok(adapters_view(equipment@), used@, end@, chain@),
    ensures
        final(found)@.len() >= old(found)@.len(),
        forall|k: int| 0 <= k < old(found)@.len() ==> final(found)@[k] == old(found)@[k],
        forall|k: int| old(found)@.len() <= k < final(found)@.len() ==> extends_complete(
            adapters_view(equipment@),
            end@,
            chain@,
            (#[trigger] final(found)@[k])@,
        ),
        forall|p: Seq<Ends>| #[trigger] chain_exists(
            adapters_view(equipment@),
            used_pairs(chain@),
            chain@.last().end_b,
            end@,
            p,
        ) ==> exists|k: int| 0 <= k < final(found)@.len() && emits(
            chain@,
            end@,
            p,
            (#[trigger] final(found)@[k])@,
        ),
    decreases count_false(used@),
{
    let ghost inv = adapters_view(equipment@);
    let ghost c = chain@;
    let ghost uset = used_pairs(chain@);
    let ghost open0 = chain@.last().end_b;
    let ghost found0 = found@;
    let mut i: usize = 0;
    while i < equipment.len()
        invariant
            prefix_ok(inv, used@, end@, c),
            inv == adapters_view(equipment@),
            c == chain@,
            uset == used_pairs(c),
            open0 == c.last().end_b,
            i <= equipment@.len(),
            found@.len() >= found0.len(),
            forall|k: int| 0 <= k < found0.len() ==> found@[k] == found0[k],
            forall|k: int| found0.len() <= k < found@.len() ==> extends_complete(
                inv,
                end@,
                c,
                (#[trigger] found@[k])@,
            ),
            forall|p: Seq<Ends>| (#[trigger] chain_exists(inv, uset, open0, end@, p) && exists|
                m: int,
            | 0 <= m < i as int && pair_same(ends_of(#[trigger] inv[m]), p[0])) ==> exists|k: int|
                0 <= k < found@.len() && emits(c, end@, p, (#[trigger] found@[k])@),
        decreases equipment@.len() - i,
    {
        let ghost found_at_entry = found@;
        let ghost this = inv[i as int];
        proof {
            assert(this == equipment@[i as int]@);
        }
        if !is_blocked(equipment, used, i) {
            match chain.add(equipment[i].duplicate()) {
                Some(extended) => {
                    let ghost placed = extended@.last();
                    proof {
                        assert(add_result(c, this) == Some(extended@));
                        assert(extended@ == c.push(placed)) by {
                            if c.last().end_b == flip(this.end_a) {
                                assert(extended@ == c.push(this));
                                assert(extended@.last() == this);
                            } else {
                                assert(extended@ == c.push(reversed_model(this)));
                                assert(extended@.last() == reversed_model(this));
                            }
                        }
                        lemma_add_placed(c, this, placed);
                        assert(same_piece(inv[i as int], this));
                    }
                    if end.mates_with(&extended.last_link().end_b) {
                        let mut done = extended;
                        done.push_link(Adapter::new(end.duplicate(), Thread::Nil).with_name("end"));
                        let ghost dv = done@;
                        proof {
                            assert(dv == c.push(placed).push(end_marker(end@)));
                            lemma_step_complete(inv, used@, end@, c, this, placed, dv);
                        }
                        found.push(done);
                        proof {
                            let ghost last = found@.len() - 1;
                            assert((found@[last])@ == dv);
                            assert forall|p: Seq<Ends>| (#[trigger] chain_exists(inv, uset, open0,
                                end@, p) && pair_same(ends_of(this), p[0])) implies exists|k: int|
                                0 <= k < found@.len() && emits(c, end@, p, (
                            #[trigger] found@[k])@) by {
                                assert(emits(c, end@, p, dv));
                                assert(emits(c, end@, p, (found@[last])@));
                            }
                        }
                    } else {
                        let used2 = flags_with(used, i);
                        proof {
                            assert(flip(placed.end_b) != end@);
                            lemma_step_extend(inv, used@, end@, c, this, placed, i as int);
                            lemma_count_false_update(used@, i as int);
                        }
                        search(end, equipment, &used2, &extended, found);
                        proof {
                            assert forall|k: int|
                                found_at_entry.len() <= k < found@.len() implies extends_complete(
                                inv,
                                end@,
                                c,
                                (#[trigger] found@[k])@,
                            ) by {
                                lemma_step_lift_sound(inv, end@, c, placed, (found@[k])@);
                            }
                            assert forall|p: Seq<Ends>| (#[trigger] chain_exists(inv, uset, open0,
                                end@, p) && pair_same(ends_of(this), p[0])) implies exists|k: int|
                                0 <= k < found@.len() && emits(c, end@, p, (
                            #[trigger] found@[k])@) by {
                                reveal(chain_exists);
                                lemma_first_pair_determined(open0, this, placed, p[0]);
                                assert(flip(p[0].1) != end@);
                                lemma_step_tail(inv, c, placed, end@, p);
                                assert(chain_exists(inv, used_pairs(extended@),
                                    extended@.last().end_b, end@, p.drop_first()));
                                let k = choose|k: int|
                                    0 <= k < found@.len() && emits(extended@, end@, p.drop_first(),
                                    (#[trigger] found@[k])@);
                                lemma_step_lift_emits(end@, c, placed, p, (found@[k])@);
                            }
                        }
                    }
                }
                None => {
                    proof {
                        assert forall|p: Seq<Ends>| (#[trigger] chain_exists(inv, uset, open0,
                            end@, p) && pair_same(ends_of(this), p[0])) implies exists|k: int|
                            0 <= k < found@.len() && emits(c, end@, p, (
                        #[trigger] found@[k])@) by {
                            reveal(chain_exists);
                            assert(add_result(c, this) is None);
                            lemma_step_no_fit(c, this, p[0]);
                            assert(p[0].0 == flip(open0));
                        }
                    }
                }
            }
        } else {
            proof {
                assert forall|p: Seq<Ends>| (#[trigger] chain_exists(inv, uset, open0, end@, p)
                    && pair_same(ends_of(this), p[0])) implies exists|k: int|
                    0 <= k < found@.len() && emits(c, end@, p, (#[trigger] found@[k])@) by {
                    reveal(chain_exists);
                    lemma_blocked_spent(inv, used@, end@, c, this, p[0]);
                    assert(spent(uset, p[0]));
                }
            }
        }
        i = i + 1;
        proof {
            assert forall|p: Seq<Ends>| (#[trigger] chain_exists(inv, uset, open0, end@, p)
                && exists|m: int| 0 <= m < i as int && pair_same(ends_of(#[trigger] inv[m]), p[0]))
                implies exists|k: int| 0 <= k < found@.len() && emits(c, end@, p, (
            #[trigger] found@[k])@) by {
                let m = choose|m: int| 0 <= m < i as int && pair_same(
                    ends_of(#[trigger] inv[m]),
                    p[0],
                );
                if m < i as int - 1 {
                    let k = choose|k: int|
                        0 <= k < found_at_entry.len() && emits(c, end@, p, (
                        #[trigger] found_at_entry[k])@);
                    assert(found@[k] == found_at_entry[k]);
                    assert(emits(c, end@, p, (found@[k])@));
                } else {
                    assert(inv[m] == this);
                    assert(pair_same(ends_of(this), p[0]));
                }
            }
        }
    }
    proof {
        assert forall|p: Seq<Ends>| #[trigger] chain_exists(inv, uset, open0, end@, p)
            implies exists|k: int| 0 <= k < found@.len() && emits(c, end@, p, (
        #[trigger] found@[k])@) by {
            reveal(chain_exists);
            let m = choose|m: int| 0 <= m < inv.len() && #[trigger] pair_same(
                ends_of(inv[m]),
                p[0],
            );
        }
    }
}
/// Every way to connect the `start` endpoint to the `end` endpoint using each
/// inventory adapter at most once.  Each result chain begins with a synthetic
/// `(Nil, start)` marker, ends with a synthetic `(end, Nil)` marker, is
/// compatible at every joint, and reaches `end` only at its final real
/// adapter; and every trace of pieces that could form such a chain is
/// represented among the results.  A direct `start`-to-`end` fit with no
/// adapter in between is not reported: the search completes a branch only
/// after placing at least one real adapter.
pub fn make_chain(start: Thread, end: Thread, equipment: &Vec<Adapter>) -> (r: Vec<Chain>)
    ensures
        forall|i: int| 0 <= i < r@.len() ==> complete_chain(
            adapters_view(equipment@),
            start@,
            end@,
            (#[trigger] r@[i])@,
        ),
        forall|p: Seq<Ends>| #[trigger] chain_exists(
            adapters_view(equipment@),
            Set::empty(),
            start@,
            end@,
            p,
        ) ==> exists|i: int| 0 <= i < r@.len() && emits(
            seq![start_marker(start@)],
            end@,
            p,
            (#[trigger] r@[i])@,
        ),
{
    let ghost inv = adapters_view(equipment@);
    let ghost start_v = start@;
    let marker = Adapter::new(Thread::Nil, start).with_name("start");
    let chain = Chain::new(marker);
    let mut used: Vec<bool> = Vec::new();
    let mut j: usize = 0;
    while j < equipment.len()
        invariant
            j <= equipment@.len(),
            used@.len() == j as int,
            forall|k: int| 0 <= k < j as int ==> !(#[trigger] used@[k]),
        decreases equipment@.len() - j,
    {
        used.push(false);
        j = j + 1;
    }
    let mut found: Vec<Chain> = Vec::new();
    proof {
        assert(inv.len() == equipment@.len());
        assert(chain@ =~= seq![start_marker(start_v)]);
        let c0 = chain@;
        assert(c0.len() == 1);
        assert(used@.len() == inv.len());
        assert(linked(c0));
        assert(forall|k: int| 1 <= k < c0.len() ==> piece_in_inventory(inv, #[trigger] c0[k]));
        assert(forall|j: int, k: int| 1 <= j < k < c0.len() ==> !same_piece(
            #[trigger] c0[j],
            #[trigger] c0[k],
        ));
        assert(forall|k: int| 1 <= k < c0.len() ==> flip((#[trigger] c0[k]).end_b) != end@);
        assert(forall|k: int| 1 <= k < c0.len() ==> flagged_cover(inv, used@, #[trigger] c0[k]));
        assert(prefix_ok(inv, used@, end@, chain@));
    }
    search(&end, equipment, &used, &chain, &mut found);
    proof {
        assert forall|i: int| 0 <= i < found@.len() implies complete_chain(
            inv,
            start_v,
            end@,
            (#[trigger] found@[i])@,
        ) by {
            let x = found@[i]@;
            assert(extends_complete(inv, end@, chain@, x));
            assert(x.subrange(0, chain@.len() as int) == chain@);
            assert(x.subrange(0, 1) == chain@);
            assert(x[0] == chain@[0]) by {
                assert(x.subrange(0, 1)[0] == x[0]);
            }
            assert(extends_complete(inv, end@, x.subrange(0, 1), x));
        }
        assert forall|q: Ends| spent(used_pairs(chain@), q) == spent(Set::<Ends>::empty(), q) by {
            lemma_spent_used_pairs(chain@, q);
        }
        assert forall|p: Seq<Ends>| #[trigger] chain_exists(inv, Set::empty(), start_v, end@, p)
            implies exists|i: int| 0 <= i < found@.len() && emits(
            seq![start_marker(start_v)],
            end@,
            p,
            (#[trigger] found@[i])@,
        ) by {
            lemma_chain_exists_used(inv, Set::empty(), used_pairs(chain@), start_v, end@, p);
            assert(chain@.last().end_b == start_v);
        }
    }
    found
}

} // verus!

