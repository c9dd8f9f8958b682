//! Scoring hypothetical new adapters: for every adapter that can be formed
//! from the thread standards an inventory can connect to, how many endpoint
//! pairs become newly reachable when it is added.

use vstd::prelude::*;
use crate::chain::adapters_view;
use crate::model::{flip, same_piece, Adapter, AdapterModel, Thread, ThreadModel};
use crate::search::{
    chain_exists, ends_of, lemma_addition_keeps_reachable, lemma_complete_chain_reachable,
    make_chain, pair_same, reachable, trace_of, Ends,
};

verus! {

/// The thread standards the inventory can connect to or from: the opposites
/// of every end of every inventory adapter.
pub open spec fn in_vocab(inv: Seq<AdapterModel>, t: ThreadModel) -> bool {
    exists|m: int| 0 <= m < inv.len() && (t == flip((#[trigger] inv[m]).end_a) || t == flip(
        inv[m].end_b,
    ))
}

/// A well-formed synthesized candidate: an unlabelled, unreversed adapter
/// whose ends are both drawn from the inventory's vocabulary.
pub open spec fn candidate_ok(inv: Seq<AdapterModel>, x: AdapterModel) -> bool {
    &&& in_vocab(inv, x.end_a)
    &&& in_vocab(inv, x.end_b)
    &&& x.label.len() == 0
    &&& !x.reversed
}

/// The thread `t` is listed.
pub open spec fn has_thread(s: Seq<Thread>, t: ThreadModel) -> bool {
    exists|k: int| 0 <= k < s.len() && (#[trigger] s[k])@ == t
}

/// Some listed piece has exactly the unordered pair of ends `(a, b)`.
pub open spec fn has_pair(s: Seq<Adapter>, a: ThreadModel, b: ThreadModel) -> bool {
    exists|k: int| 0 <= k < s.len() && #[trigger] pair_same(ends_of(s[k]@), (a, b))
}

/// Some scored entry carries a piece with exactly the unordered pair of ends
/// `(a, b)`.
pub open spec fn pair_listed(s: Seq<(Adapter, usize)>, a: ThreadModel, b: ThreadModel) -> bool {
    exists|i: int| 0 <= i < s.len() && #[trigger] pair_same(ends_of(s[i].0@), (a, b))
}

/// The oriented end pairs of a sequence of adapter pieces.
pub open spec fn pieces_trace(s: Seq<Adapter>) -> Seq<Ends> {
    trace_of(adapters_view(s))
}

/// How many of the endpoint pairs in `cands` the inventory can bridge,
/// counted once per pair.
pub open spec fn reach_count(cands: Seq<Ends>, inv: Seq<AdapterModel>) -> nat
    decreases cands.len(),
{
    if cands.len() == 0 {
        0
    } else {
        reach_count(cands.drop_last(), inv) + (if reachable(
            inv,
            cands.last().0,
            cands.last().1,
        ) {
            1nat
        } else {
            0nat
        })
    }
}

/// Adding a piece to the inventory never lowers the number of reachable
/// pairs.
pub proof fn lemma_reach_count_monotone(cands: Seq<Ends>, inv: Seq<AdapterModel>, x: AdapterModel)
    ensures
        reach_count(cands, inv) <= reach_count(cands, inv.push(x)),
    decreases cands.len(),
{
    if cands.len() > 0 {
        lemma_reach_count_monotone(cands.drop_last(), inv, x);
        if reachable(inv, cands.last().0, cands.last().1) {
            lemma_addition_keeps_reachable(inv, x, cands.last().0, cands.last().1);
        }
    }
}

/// A listed thread stays listed when the list only grows at its end.
proof fn lemma_has_thread_extend(s0: Seq<Thread>, s1: Seq<Thread>, t: ThreadModel)
    requires
        s0.len() <= s1.len(),
        forall|k: int| 0 <= k < s0.len() ==> s1[k] == s0[k],
        has_thread(s0, t),
    ensures
        has_thread(s1, t),
{
    let k = choose|k: int| 0 <= k < s0.len() && (#[trigger] s0[k])@ == t;
    assert((s1[k])@ == t);
}

/// A listed pair stays listed when the list only grows at its end.
proof fn lemma_has_pair_extend(s0: Seq<Adapter>, s1: Seq<Adapter>, a: ThreadModel, b: ThreadModel)
    requires
        s0.len() <= s1.len(),
        forall|k: int| 0 <= k < s0.len() ==> s1[k] == s0[k],
        has_pair(s0, a, b),
    ensures
        has_pair(s1, a, b),
{
    let k = choose|k: int| 0 <= k < s0.len() && #[trigger] pair_same(ends_of(s0[k]@), (a, b));
    assert(pair_same(ends_of(s1[k]@), (a, b)));
}

fn contains_thread(v: &Vec<Thread>, t: &Thread) -> (r: bool)
    ensures
        r == has_thread(v@, t@),
{
    let mut j: usize = 0;
    while j < v.len()
        invariant
            j <= v@.len(),
            forall|k: int| 0 <= k < j as int ==> (#[trigger] v@[k])@ != t@,
        decreases v@.len() - j,
    {
        if *t == v[j] {
            return true;
        }
        j = j + 1;
    }
    false
}

fn contains_piece(v: &Vec<Adapter>, a: &Adapter) -> (r: bool)
    ensures
        r == exists|k: int| 0 <= k < v@.len() && #[trigger] same_piece(v@[k]@, a@),
{
    let mut j: usize = 0;
    while j < v.len()
        invariant
            j <= v@.len(),
            forall|k: int| 0 <= k < j as int ==> !(#[trigger] same_piece(v@[k]@, a@)),
        decreases v@.len() - j,
    {
        if v[j].same_ends(a) {
            return true;
        }
        j = j + 1;
    }
    false
}

/// Record a thread in the vocabulary list unless it is already there.
fn note_thread(v: &mut Vec<Thread>, t: Thread)
    ensures
        has_thread(old(v)@, t@) ==> final(v)@ == old(v)@,
        !has_thread(old(v)@, t@) ==> final(v)@ == old(v)@.push(t),
        has_thread(final(v)@, t@),
{
    if !contains_thread(v, &t) {
        v.push(t);
        proof {
            assert((v@[v@.len() - 1])@ == t@);
        }
    }
}

/// All thread standards the inventory can connect to or from, once each.
fn collect_threads(equipment: &Vec<Adapter>) -> (r: Vec<Thread>)
    ensures
        forall|k: int| 0 <= k < r@.len() ==> in_vocab(
            adapters_view(equipment@),
            (#[trigger] r@[k])@,
        ),
        forall|k1: int, k2: int| 0 <= k1 < k2 < r@.len() ==> (#[trigger] r@[k1])@ != (
        #[trigger] r@[k2])@,
        forall|t: ThreadModel| #[trigger] in_vocab(adapters_view(equipment@), t) ==> has_thread(
            r@,
            t,
        ),
{
    let ghost inv = adapters_view(equipment@);
    let mut r: Vec<Thread> = Vec::new();
    let mut m: usize = 0;
    while m < equipment.len()
        invariant
            m <= equipment@.len(),
            inv == adapters_view(equipment@),
            forall|k: int| 0 <= k < r@.len() ==> in_vocab(inv, (#[trigger] r@[k])@),
            forall|k1: int, k2: int| 0 <= k1 < k2 < r@.len() ==> (#[trigger] r@[k1])@ != (
            #[trigger] r@[k2])@,
            forall|m2: int| 0 <= m2 < m as int ==> has_thread(
                r@,
                flip((#[trigger] inv[m2]).end_a),
            ),
            forall|m2: int| 0 <= m2 < m as int ==> has_thread(
                r@,
                flip((#[trigger] inv[m2]).end_b),
            ),
        decreases equipment@.len() - m,
    {
        let ghost r0 = r@;
        let first = equipment[m].end_a.duplicate().opposite();
        proof {
            assert(first@ == flip(inv[m as int].end_a));
            assert(in_vocab(inv, first@));
        }
        note_thread(&mut r, first);
        let ghost r1 = r@;
        let second = equipment[m].end_b.duplicate().opposite();
        proof {
            assert(second@ == flip(inv[m as int].end_b));
            assert(in_vocab(inv, second@));
        }
        note_thread(&mut r, second);
        proof {
            assert forall|m2: int| 0 <= m2 < m as int + 1 implies has_thread(
                r@,
                flip((#[trigger] inv[m2]).end_a),
            ) && has_thread(r@, flip(inv[m2].end_b)) by {
                if m2 < m as int {
                    lemma_has_thread_extend(r0, r1, flip(inv[m2].end_a));
                    lemma_has_thread_extend(r1, r@, flip(inv[m2].end_a));
                    lemma_has_thread_extend(r0, r1, flip(inv[m2].end_b));
                    lemma_has_thread_extend(r1, r@, flip(inv[m2].end_b));
                } else {
                    lemma_has_thread_extend(r1, r@, flip(inv[m2].end_a));
                }
            }
        }
        m = m + 1;
    }
    proof {
        assert forall|t: ThreadModel| #[trigger] in_vocab(inv, t) implies has_thread(r@, t) by {
            let m2 = choose|m2: int|
                0 <= m2 < inv.len() && (t == flip((#[trigger] inv[m2]).end_a) || t == flip(
                    inv[m2].end_b,
                ));
        }
    }
    r
}

/// Every adapter that can be formed from the listed threads, one per
/// unordered pair.
fn build_candidates(threads: &Vec<Thread>, Ghost(inv): Ghost<Seq<AdapterModel>>) -> (r: Vec<
    Adapter,
>)
    requires
        forall|k: int| 0 <= k < threads@.len() ==> in_vocab(inv, (#[trigger] threads@[k])@),
    ensures
        forall|k: int| 0 <= k < r@.len() ==> candidate_ok(inv, (#[trigger] r@[k])@),
        forall|k1: int, k2: int| 0 <= k1 < k2 < r@.len() ==> !same_piece(
            (#[trigger] r@[k1])@,
            (#[trigger] r@[k2])@,
        ),
        forall|i: int, j: int|
            #![trigger threads@[i], threads@[j]]
            0 <= i < threads@.len() && 0 <= j < threads@.len() ==> has_pair(
                r@,
                threads@[i]@,
                threads@[j]@,
            ),
{
    let mut r: Vec<Adapter> = Vec::new();
    let mut i: usize = 0;
    while i < threads.len()
        invariant
            i <= threads@.len(),
            forall|k: int| 0 <= k < threads@.len() ==> in_vocab(inv, (#[trigger] threads@[k])@),
            forall|k: int| 0 <= k < r@.len() ==> candidate_ok(inv, (#[trigger] r@[k])@),
            forall|k1: int, k2: int| 0 <= k1 < k2 < r@.len() ==> !same_piece(
                (#[trigger] r@[k1])@,
                (#[trigger] r@[k2])@,
            ),
            forall|i2: int, j2: int|
                #![trigger threads@[i2], threads@[j2]]
                0 <= i2 < i as int && 0 <= j2 < threads@.len() ==> has_pair(
                    r@,
                    threads@[i2]@,
                    threads@[j2]@,
                ),
        decreases threads@.len() - i,
    {
        let mut j: usize = 0;
        while j < threads.len()
            invariant
                i < threads@.len(),
                j <= threads@.len(),
                forall|k: int| 0 <= k < threads@.len() ==> in_vocab(inv, (#[trigger] threads@[k])@),
                forall|k: int| 0 <= k < r@.len() ==> candidate_ok(inv, (#[trigger] r@[k])@),
                forall|k1: int, k2: int| 0 <= k1 < k2 < r@.len() ==> !same_piece(
                    (#[trigger] r@[k1])@,
                    (#[trigger] r@[k2])@,
                ),
                forall|i2: int, j2: int|
                    #![trigger threads@[i2], threads@[j2]]
                    0 <= i2 < i as int && 0 <= j2 < threads@.len() ==> has_pair(
                        r@,
                        threads@[i2]@,
                        threads@[j2]@,
                    ),
                forall|j2: int| 0 <= j2 < j as int ==> has_pair(
                    r@,
                    threads@[i as int]@,
                    (#[trigger] threads@[j2])@,
                ),
            decreases threads@.len() - j,
        {
            let ghost rs = r@;
            let cand = Adapter::new(threads[i].duplicate(), threads[j].duplicate());
            if !contains_piece(&r, &cand) {
                r.push(cand);
            }
            proof {
                let a = threads@[i as int]@;
                let b = threads@[j as int]@;
                assert(has_pair(r@, a, b)) by {
                    if exists|k: int| 0 <= k < rs.len() && #[trigger] same_piece(rs[k]@, cand@) {
                        let k = choose|k: int|
                            0 <= k < rs.len() && #[trigger] same_piece(rs[k]@, cand@);
                        assert(pair_same(ends_of(r@[k]@), (a, b)));
                    } else {
                        assert(r@[r@.len() - 1]@ == cand@);
                        assert(pair_same(ends_of(r@[r@.len() - 1]@), (a, b)));
                    }
                }
                assert forall|i2: int, j2: int|
                    #![trigger threads@[i2], threads@[j2]]
                    0 <= i2 < i as int && 0 <= j2 < threads@.len() implies has_pair(
                    r@,
                    threads@[i2]@,
                    threads@[j2]@,
                ) by {
                    lemma_has_pair_extend(rs, r@, threads@[i2]@, threads@[j2]@);
                }
                assert forall|j2: int| 0 <= j2 < j as int + 1 implies has_pair(
                    r@,
                    threads@[i as int]@,
                    (#[trigger] threads@[j2])@,
                ) by {
                    if j2 < j as int {
                        lemma_has_pair_extend(rs, r@, threads@[i as int]@, threads@[j2]@);
                    }
                }
            }
            j = j + 1;
        }
        i = i + 1;
    }
    r
}

/// How many of the candidates' endpoint pairs the given inventory can
/// bridge.
fn count_reachable(cands: &Vec<Adapter>, equipment: &Vec<Adapter>) -> (n: usize)
    ensures
        n as nat == reach_count(pieces_trace(cands@), adapters_view(equipment@)),
        n <= cands@.len(),
{
    let ghost tr = pieces_trace(cands@);
    let ghost inv = adapters_view(equipment@);
    let mut n: usize = 0;
    let mut i: usize = 0;
    while i < cands.len()
        invariant
            i <= cands@.len(),
            n <= i,
            tr == pieces_trace(cands@),
            inv == adapters_view(equipment@),
            n as nat == reach_count(tr.take(i as int), inv),
        decreases cands@.len() - i,
    {
        let results = make_chain(
            cands[i].end_a.duplicate(),
            cands[i].end_b.duplicate(),
            equipment,
        );
        let ghost a = cands@[i as int]@.end_a;
        let ghost b = cands@[i as int]@.end_b;
        let reached = results.len() > 0;
        proof {
            if reached {
                lemma_complete_chain_reachable(inv, a, b, (results@[0])@);
                assert(reachable(inv, a, b));
            } else {
                if reachable(inv, a, b) {
                    let p = choose|p: Seq<Ends>| chain_exists(inv, Set::empty(), a, b, p);
                    assert(false);
                }
            }
            assert(tr.take(i as int + 1).drop_last() =~= tr.take(i as int));
            assert(tr.take(i as int + 1).last() == tr[i as int]);
            assert(tr[i as int] == ends_of(cands@[i as int]@));
        }
        if reached {
            n = n + 1;
        }
        i = i + 1;
    }
    proof {
        assert(tr.take(cands@.len() as int) =~= tr);
    }
    n
}

/// Entries carrying the same candidate piece and the same count.
pub open spec fn entry_like(x: (Adapter, usize), y: (Adapter, usize)) -> bool {
    x.0@ == y.0@ && x.1 == y.1
}

/// `x` matches some entry of `s`.
pub open spec fn appears(x: (Adapter, usize), s: Seq<(Adapter, usize)>) -> bool {
    exists|j: int| 0 <= j < s.len() && #[trigger] entry_like(x, s[j])
}

/// `x` stays represented when the list only grows at its end.
proof fn lemma_appears_extend(
    x: (Adapter, usize),
    s0: Seq<(Adapter, usize)>,
    s1: Seq<(Adapter, usize)>,
)
    requires
        s0.len() <= s1.len(),
        forall|k: int| 0 <= k < s0.len() ==> s1[k] == s0[k],
        appears(x, s0),
    ensures
        appears(x, s1),
{
    let j = choose|j: int| 0 <= j < s0.len() && #[trigger] entry_like(x, s0[j]);
    assert(entry_like(x, s1[j]));
}

/// Reorder the scored entries so the counts ascend, keeping exactly the same
/// entries: repeated selection of a least remaining count.
fn sort_by_gain(input: Vec<(Adapter, usize)>) -> (r: Vec<(Adapter, usize)>)
    requires
        forall|i: int, j: int| 0 <= i < j < input@.len() ==> !same_piece(
            (#[trigger] input@[i]).0@,
            (#[trigger] input@[j]).0@,
        ),
    ensures
        r@.len() == input@.len(),
        forall|i: int, j: int| 0 <= i < j < r@.len() ==> (#[trigger] r@[i]).1 <= (
        #[trigger] r@[j]).1,
        forall|i: int, j: int| 0 <= i < j < r@.len() ==> !same_piece(
            (#[trigger] r@[i]).0@,
            (#[trigger] r@[j]).0@,
        ),
        forall|i: int| 0 <= i < r@.len() ==> appears(#[trigger] r@[i], input@),
        forall|j: int| 0 <= j < input@.len() ==> appears(#[trigger] input@[j], r@),
{
    let mut rest = input;
    let mut out: Vec<(Adapter, usize)> = Vec::new();
    let ghost n = rest@.len();
    let ghost orig = rest@;
    proof {
        assert forall|j: int| 0 <= j < orig.len() implies appears(#[trigger] orig[j], rest@) by {
            assert(entry_like(orig[j], rest@[j]));
        }
    }
    while rest.len() > 0
        invariant
            out@.len() + rest@.len() == n,
            orig.len() == n,
            forall|i: int, j: int| 0 <= i < j < out@.len() ==> (#[trigger] out@[i]).1 <= (
            #[trigger] out@[j]).1,
            forall|i: int, j: int| 0 <= i < out@.len() && 0 <= j < rest@.len() ==> (
            #[trigger] out@[i]).1 <= (#[trigger] rest@[j]).1,
            forall|i: int, j: int| 0 <= i < j < out@.len() ==> !same_piece(
                (#[trigger] out@[i]).0@,
                (#[trigger] out@[j]).0@,
            ),
            forall|i: int, j: int| 0 <= i < j < rest@.len() ==> !same_piece(
                (#[trigger] rest@[i]).0@,
                (#[trigger] rest@[j]).0@,
            ),
            forall|i: int, j: int| 0 <= i < out@.len() && 0 <= j < rest@.len() ==> !same_piece(
                (#[trigger] out@[i]).0@,
                (#[trigger] rest@[j]).0@,
            ),
            forall|i: int| 0 <= i < out@.len() ==> appears(#[trigger] out@[i], orig),
            forall|i: int| 0 <= i < rest@.len() ==> appears(#[trigger] rest@[i], orig),
            forall|j: int| 0 <= j < orig.len() ==> appears(#[trigger] orig[j], out@) || appears(
                orig[j],
                rest@,
            ),
        decreases rest@.len(),
    {
        let mut m: usize = 0;
        let mut k: usize = 1;
        while k < rest.len()
            invariant
                rest@.len() > 0,
                m < k,
                k <= rest@.len(),
                forall|t: int| 0 <= t < k as int ==> (#[trigger] rest@[t]).1 >= rest@[m as int].1,
            decreases rest@.len() - k,
        {
            if rest[k].1 < rest[m].1 {
                m = k;
            }
            k = k + 1;
        }
        let ghost rest0 = rest@;
        let ghost out0 = out@;
        let e = rest.remove(m);
        out.push(e);
        proof {
            assert forall|i: int| 0 <= i < rest@.len() implies #[trigger] rest@[i] == rest0[
                if i < m as int {
                    i
                } else {
                    i + 1
                }] by {
                assert(rest@ == rest0.remove(m as int));
            }
            assert forall|i: int| 0 <= i < out@.len() implies appears(
                #[trigger] out@[i],
                orig,
            ) by {
                if i < out0.len() {
                    assert(out@[i] == out0[i]);
                } else {
                    assert(out@[i] == rest0[m as int]);
                }
            }
            assert forall|j: int| 0 <= j < orig.len() implies appears(
                #[trigger] orig[j],
                out@,
            ) || appears(orig[j], rest@) by {
                if appears(orig[j], out0) {
                    lemma_appears_extend(orig[j], out0, out@);
                } else if appears(orig[j], rest0) {
                    let i = choose|i: int|
                        0 <= i < rest0.len() && #[trigger] entry_like(orig[j], rest0[i]);
                    if i == m as int {
                        assert(entry_like(orig[j], out@[out@.len() - 1]));
                    } else if i < m as int {
                        assert(entry_like(orig[j], rest@[i]));
                    } else {
                        assert(entry_like(orig[j], rest@[i - 1]));
                    }
                }
            }
        }
    }
    proof {
        assert forall|j: int| 0 <= j < orig.len() implies appears(#[trigger] orig[j], out@) by {
            assert(rest@.len() == 0);
        }
    }
    out
}

/// For every adapter that could be formed over the inventory's thread
/// vocabulary, how many previously unreachable endpoint pairs (drawn from the
/// same candidate set) its addition makes reachable.  One entry per unordered
/// candidate pair, ascending by that count.
pub fn find_useful_additions(equipment: &Vec<Adapter>) -> (r: Vec<(Adapter, usize)>)
    ensures
        forall|i: int, j: int| 0 <= i < j < r@.len() ==> (#[trigger] r@[i]).1 <= (
        #[trigger] r@[j]).1,
        forall|i: int| 0 <= i < r@.len() ==> candidate_ok(
            adapters_view(equipment@),
            (#[trigger] r@[i]).0@,
        ),
        forall|i: int, j: int| 0 <= i < j < r@.len() ==> !same_piece(
            (#[trigger] r@[i]).0@,
            (#[trigger] r@[j]).0@,
        ),
        forall|a: ThreadModel, b: ThreadModel|
            #![trigger in_vocab(adapters_view(equipment@), a), in_vocab(adapters_view(equipment@), b)]
            in_vocab(adapters_view(equipment@), a) && in_vocab(adapters_view(equipment@), b)
                ==> pair_listed(r@, a, b),
        exists|cands: Seq<Ends>|
            #![trigger cands.len()]
            cands.len() == r@.len() && forall|i: int| 0 <= i < r@.len() ==> (#[trigger] r@[i]).1
                + reach_count(cands, adapters_view(equipment@)) == reach_count(
                cands,
                adapters_view(equipment@).push(r@[i].0@),
            ),
{
    let ghost inv = adapters_view(equipment@);
    let threads = collect_threads(equipment);
    let cands = build_candidates(&threads, Ghost(inv));
    let base = count_reachable(&cands, equipment);
    let ghost tr = pieces_trace(cands@);
    let mut working: Vec<Adapter> = Vec::new();
    let mut w: usize = 0;
    while w < equipment.len()
        invariant
            w <= equipment@.len(),
            working@.len() == w as int,
            forall|k: int| 0 <= k < w as int ==> (#[trigger] working@[k])@ == equipment@[k]@,
        decreases equipment@.len() - w,
    {
        working.push(equipment[w].duplicate());
        w = w + 1;
    }
    proof {
        assert(adapters_view(working@) =~= inv);
    }
    let mut results: Vec<(Adapter, usize)> = Vec::new();
    let mut k: usize = 0;
    while k < cands.len()
        invariant
            k <= cands@.len(),
            results@.len() == k as int,
            inv == adapters_view(equipment@),
            adapters_view(working@) == inv,
            working@.len() == equipment@.len(),
            base as nat == reach_count(tr, inv),
            base <= cands@.len(),
            tr == pieces_trace(cands@),
            forall|t: int| 0 <= t < k as int ==> (#[trigger] results@[t]).0@ == cands@[t]@,
            forall|t: int| 0 <= t < k as int ==> (#[trigger] results@[t]).1 + base as int
                == reach_count(tr, inv.push(cands@[t]@)),
        decreases cands@.len() - k,
    {
        let ghost w0 = working@;
        working.push(cands[k].duplicate());
        proof {
            assert(adapters_view(working@) =~= inv.push(cands@[k as int]@));
        }
        let cnt = count_reachable(&cands, &working);
        proof {
            lemma_reach_count_monotone(tr, inv, cands@[k as int]@);
        }
        let gain: usize = cnt - base;
        results.push((cands[k].duplicate(), gain));
        let _ = working.pop();
        proof {
            assert(working@ =~= w0);
            assert(adapters_view(working@) =~= inv);
        }
        k = k + 1;
    }
    proof {
        assert forall|i: int, j: int| 0 <= i < j < results@.len() implies !same_piece(
            (#[trigger] results@[i]).0@,
            (#[trigger] results@[j]).0@,
        ) by {
            assert(results@[i].0@ == cands@[i]@ && results@[j].0@ == cands@[j]@);
        }
    }
    let r = sort_by_gain(results);
    proof {
        assert forall|a: ThreadModel, b: ThreadModel|
            #![trigger in_vocab(inv, a), in_vocab(inv, b)]
            in_vocab(inv, a) && in_vocab(inv, b) implies pair_listed(r@, a, b) by {
            let ka = choose|ka: int| 0 <= ka < threads@.len() && (#[trigger] threads@[ka])@ == a;
            let kb = choose|kb: int| 0 <= kb < threads@.len() && (#[trigger] threads@[kb])@ == b;
            assert(has_pair(cands@, threads@[ka]@, threads@[kb]@));
            let kc = choose|kc: int|
                0 <= kc < cands@.len() && #[trigger] pair_same(ends_of(cands@[kc]@), (a, b));
            assert(results@[kc].0@ == cands@[kc]@);
            assert(appears(results@[kc], r@));
            let i = choose|i: int| 0 <= i < r@.len() && #[trigger] entry_like(results@[kc], r@[i]);
            assert(pair_same(ends_of(r@[i].0@), (a, b)));
        }
        assert forall|i: int| 0 <= i < r@.len() implies candidate_ok(inv, (#[trigger] r@[i]).0@)
            && r@[i].1 + reach_count(tr, inv) == reach_count(tr, inv.push(r@[i].0@)) by {
            assert(appears(r@[i], results@));
            let j = choose|j: int|
                0 <= j < results@.len() && #[trigger] entry_like(r@[i], results@[j]);
            assert(results@[j].0@ == cands@[j]@);
            assert(candidate_ok(inv, cands@[j]@));
        }
        assert(tr.len() == r@.len()) by {
            assert(tr.len() == cands@.len());
        }
    }
    r
}

} // verus!
