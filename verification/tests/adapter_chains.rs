use adapter_chains::analysis::find_useful_additions;
use adapter_chains::chain::Chain;
use adapter_chains::model::{Adapter, Thread};
use adapter_chains::search::make_chain;

fn m(name: &str) -> Thread {
    Thread::M(String::from(name))
}

fn f(name: &str) -> Thread {
    Thread::F(String::from(name))
}

fn piece(a: Thread, b: Thread) -> Adapter {
    Adapter::new(a, b)
}

#[test]
fn unordered_pair_symmetry() {
    let x = piece(m("A"), f("B"));
    let y = piece(f("B"), m("A"));
    assert_eq!(x, y);
    assert_eq!(y, x);
    let z = piece(m("A"), f("C"));
    assert!(x != z);
}

#[test]
fn equality_ignores_label() {
    let x = piece(m("A"), f("B")).with_name("labelled");
    let y = piece(m("A"), f("B"));
    assert_eq!(x, y);
}

#[test]
fn reverse_round_trip() {
    let a = piece(m("A"), f("B")).with_name("step ring");
    let r = a.duplicate().reverse().reverse();
    assert_eq!(r.end_a, a.end_a);
    assert_eq!(r.end_b, a.end_b);
    assert_eq!(r.label, a.label);
    assert_eq!(r.reversed, a.reversed);
}

#[test]
fn reverse_marks_label() {
    let a = piece(m("A"), f("B")).with_name("step ring");
    let r = a.reverse();
    assert_eq!(r.label_string(), "step ring (reversed)");
    assert_eq!(r.end_a, f("B"));
    assert_eq!(r.end_b, m("A"));
    let back = r.reverse();
    assert_eq!(back.label_string(), "step ring");
}

#[test]
fn reverse_of_unlabelled_stays_unlabelled() {
    let a = piece(m("A"), f("B")).reverse();
    assert_eq!(a.label_string(), "");
}

#[test]
fn opposite_involution() {
    let t = m("52");
    assert_eq!(t.duplicate().opposite().opposite(), t);
    let u = f("EF");
    assert_eq!(u.duplicate().opposite().opposite(), u);
    assert_eq!(m("52").opposite(), f("52"));
}

#[test]
fn chain_add_straight() {
    let chain = Chain::new(piece(Thread::Nil, f("A")).with_name("start"));
    let extended = chain.add(piece(m("A"), f("B"))).expect("fits");
    assert_eq!(extended.links.len(), 2);
    assert_eq!(extended.links[1].end_a, m("A"));
    assert_eq!(extended.links[1].end_b, f("B"));
    assert!(!extended.links[1].reversed);
    // the original chain is untouched
    assert_eq!(chain.links.len(), 1);
}

#[test]
fn chain_add_reversed() {
    let chain = Chain::new(piece(Thread::Nil, f("B")).with_name("start"));
    let extended = chain.add(piece(f("C"), m("B"))).expect("fits reversed");
    assert_eq!(extended.links[1].end_a, m("B"));
    assert_eq!(extended.links[1].end_b, f("C"));
    assert!(extended.links[1].reversed);
}

#[test]
fn chain_add_no_fit() {
    let chain = Chain::new(piece(Thread::Nil, f("A")).with_name("start"));
    assert!(chain.add(piece(m("B"), f("C"))).is_none());
}

#[test]
fn completeness_small_fixture() {
    let inventory = vec![piece(m("A"), f("B")), piece(m("B"), f("C"))];
    let chains = make_chain(f("A"), m("C"), &inventory);
    assert_eq!(chains.len(), 1);
    let links = &chains[0].links;
    assert_eq!(links.len(), 4);
    assert_eq!(links[0].end_a, Thread::Nil);
    assert_eq!(links[0].end_b, f("A"));
    assert_eq!(links[1].end_a, m("A"));
    assert_eq!(links[1].end_b, f("B"));
    assert_eq!(links[2].end_a, m("B"));
    assert_eq!(links[2].end_b, f("C"));
    assert_eq!(links[3].end_a, m("C"));
    assert_eq!(links[3].end_b, Thread::Nil);
}

#[test]
fn female_end_cannot_mate_female_open_end() {
    // The chain's open end after both pieces is F("C"), which cannot mate a
    // female C endpoint: the end argument names the end device's own thread.
    let inventory = vec![piece(m("A"), f("B")), piece(m("B"), f("C"))];
    let chains = make_chain(f("A"), f("C"), &inventory);
    assert!(chains.is_empty());
}

#[test]
fn unreachable_pair() {
    let inventory = vec![piece(m("A"), f("B"))];
    let chains = make_chain(f("X"), f("Y"), &inventory);
    assert!(chains.is_empty());
}

#[test]
fn no_degenerate_chain_without_adapters() {
    // Even when start.opposite() equals the end thread, a chain is completed
    // only after placing at least one real adapter.
    let chains = make_chain(f("A"), m("A"), &Vec::new());
    assert!(chains.is_empty());
}

#[test]
fn reversed_piece_is_used() {
    let inventory = vec![piece(f("B"), m("A"))];
    let chains = make_chain(f("A"), m("B"), &inventory);
    assert_eq!(chains.len(), 1);
    let links = &chains[0].links;
    assert_eq!(links.len(), 3);
    assert_eq!(links[1].end_a, m("A"));
    assert_eq!(links[1].end_b, f("B"));
    assert!(links[1].reversed);
}

#[test]
fn both_orientations_give_distinct_chains() {
    // A gender changer can sit in a chain directly, and two equal pieces
    // block each other: only one chain comes back.
    let inventory = vec![piece(m("58"), m("58")), piece(m("58"), m("58"))];
    let chains = make_chain(f("58"), f("58"), &inventory);
    assert_eq!(chains.len(), 2);
    for chain in &chains {
        assert_eq!(chain.links.len(), 3);
    }
}

#[test]
fn useful_additions_tiny_inventory() {
    // Vocabulary of {M("A")-F("B")} is {F("A"), M("B")}; the three unordered
    // candidate pairs all add nothing new.
    let inventory = vec![piece(m("A"), f("B"))];
    let results = find_useful_additions(&inventory);
    assert_eq!(results.len(), 3);
    for (adapter, count) in &results {
        assert_eq!(*count, 0);
        for end in [&adapter.end_a, &adapter.end_b] {
            assert!(*end == f("A") || *end == m("B"));
        }
    }
}

#[test]
fn useful_additions_sorted_ascending() {
    let inventory = vec![piece(m("A"), f("B")), piece(m("B"), f("C"))];
    let results = find_useful_additions(&inventory);
    // four vocabulary threads give ten unordered candidate pairs
    assert_eq!(results.len(), 10);
    for w in results.windows(2) {
        assert!(w[0].1 <= w[1].1);
    }
}

#[test]
fn useful_additions_empty_inventory() {
    let results = find_useful_additions(&Vec::new());
    assert!(results.is_empty());
}

#[test]
fn thread_rendering() {
    assert_eq!(m("52").render(), "52(M)");
    assert_eq!(f("EF").render(), "EF(F)");
    assert_eq!(Thread::Nil.render(), "");
}

#[test]
fn adapter_rendering() {
    assert_eq!(piece(m("40.5"), f("46")).render(), "40.5(M) -> 46(F)");
    assert_eq!(
        piece(m("LTM"), f("40.5")).with_name("enlarger lens").render(),
        "enlarger lens"
    );
    assert_eq!(
        piece(Thread::Nil, f("EF")).with_name("start").render(),
        "start: EF(F)"
    );
    assert_eq!(
        piece(m("52"), Thread::Nil).with_name("end").render(),
        "end: 52(M)"
    );
    assert_eq!(
        piece(m("A"), f("B")).with_name("ring").reverse().render(),
        "ring (reversed)"
    );
}

#[test]
fn chain_rendering() {
    let inventory = vec![piece(m("A"), f("B")), piece(m("B"), f("C"))];
    let chains = make_chain(f("A"), m("C"), &inventory);
    assert_eq!(
        chains[0].render(),
        "[start: A(F)] [A(M) -> B(F)] [B(M) -> C(F)] [end: C(M)] "
    );
}
