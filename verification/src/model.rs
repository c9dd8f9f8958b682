//! Threads (gendered, named endpoint standards) and adapters (unordered pairs
//! of threads with an optional display label).

use vstd::prelude::*;
use vstd::string::StringExecFns;

verus! {

/// Mathematical value of a thread endpoint: a gender tag and a name, or the
/// sentinel that marks the open side of a synthetic boundary adapter.
#[verifier::ext_equal]
pub enum ThreadModel {
    M(Seq<char>),
    F(Seq<char>),
    Nil,
}

/// A thread endpoint: a named standard tagged with gender (`M`ale or
/// `F`emale), or the `Nil` sentinel meaning "no endpoint".  `Nil` is a
/// distinct constructor, so it cannot collide with any real thread name.
#[derive(Debug)]
pub enum Thread {
    M(String),
    F(String),
    Nil,
}

impl View for Thread {
    type V = ThreadModel;

    open spec fn view(&self) -> ThreadModel {
        match self {
            Thread::M(name) => ThreadModel::M(name@),
            Thread::F(name) => ThreadModel::F(name@),
            Thread::Nil => ThreadModel::Nil,
        }
    }
}

/// The gender flip: a male thread mates with the female thread of the same
/// name, and vice versa.  The sentinel is its own opposite.
pub open spec fn flip(t: ThreadModel) -> ThreadModel {
    match t {
        ThreadModel::M(name) => ThreadModel::F(name),
        ThreadModel::F(name) => ThreadModel::M(name),
        ThreadModel::Nil => ThreadModel::Nil,
    }
}

/// Rendering of a thread: its name followed by a gender suffix; the sentinel
/// renders as nothing.
pub open spec fn thread_text(t: ThreadModel) -> Seq<char> {
    match t {
        ThreadModel::M(name) => name + "(M)"@,
        ThreadModel::F(name) => name + "(F)"@,
        ThreadModel::Nil => Seq::<char>::empty(),
    }
}

impl Thread {
    /// The thread this one mates with: same name, opposite gender.
    pub fn opposite(self) -> (r: Self)
        ensures
            r@ == flip(self@),
    {
        match self {
            Thread::M(name) => Thread::F(name),
            Thread::F(name) => Thread::M(name),
            Thread::Nil => Thread::Nil,
        }
    }

    /// A fresh thread with the same value.
    pub fn duplicate(&self) -> (r: Self)
        ensures
            r@ == self@,
    {
        match self {
            Thread::M(name) => Thread::M(name.clone()),
            Thread::F(name) => Thread::F(name.clone()),
            Thread::Nil => Thread::Nil,
        }
    }

    /// Whether this thread is the sentinel.
    pub fn is_nil(&self) -> (r: bool)
        ensures
            r == (self@ is Nil),
    {
        match self {
            Thread::Nil => true,
            _ => false,
        }
    }

    /// Whether `self` is exactly the thread that `other` mates with.
    pub fn mates_with(&self, other: &Thread) -> (r: bool)
        ensures
            r == (self@ == flip(other@)),
    {
        match (self, other) {
            (Thread::M(a), Thread::F(b)) => *a == *b,
            (Thread::F(a), Thread::M(b)) => *a == *b,
            (Thread::Nil, Thread::Nil) => true,
            _ => false,
        }
    }

    /// Display form of the thread, e.g. `52(M)`; the sentinel renders empty.
    pub fn render(&self) -> (r: String)
        ensures
            r@ == thread_text(self@),
    {
        match self {
            Thread::M(name) => name.clone().concat("(M)"),
            Thread::F(name) => name.clone().concat("(F)"),
            Thread::Nil => String::new(),
        }
    }
}

impl PartialEq for Thread {
    fn eq(&self, other: &Self) -> (r: bool) {
        match (self, other) {
            (Thread::M(a), Thread::M(b)) => *a == *b,
            (Thread::F(a), Thread::F(b)) => *a == *b,
            (Thread::Nil, Thread::Nil) => true,
            _ => false,
        }
    }
}

impl vstd::std_specs::cmp::PartialEqSpecImpl for Thread {
    open spec fn obeys_eq_spec() -> bool {
        true
    }

    open spec fn eq_spec(&self, other: &Thread) -> bool {
        self@ == other@
    }
}

/// Opposite is an involution: flipping a thread's gender twice restores it.
pub proof fn lemma_opposite_involution(t: ThreadModel)
    ensures
        flip(flip(t)) == t,
{
}

/// Mathematical value of an adapter: its two end threads in stored order,
/// its label, and whether it is currently held in reversed orientation.
#[verifier::ext_equal]
pub struct AdapterModel {
    pub end_a: ThreadModel,
    pub end_b: ThreadModel,
    pub label: Seq<char>,
    pub reversed: bool,
}

/// A physical adapter piece: an unordered pair of two threads, with an
/// optional display label.  Reversing it swaps the stored ends without
/// changing its identity.
#[derive(Debug)]
pub struct Adapter {
    pub end_a: Thread,
    pub end_b: Thread,
    pub label: String,
    pub reversed: bool,
}

impl View for Adapter {
    type V = AdapterModel;

    open spec fn view(&self) -> AdapterModel {
        AdapterModel {
            end_a: self.end_a@,
            end_b: self.end_b@,
            label: self.label@,
            reversed: self.reversed,
        }
    }
}

/// The same physical piece: the two adapters have the same unordered pair of
/// end threads.  Labels and orientation play no part in identity.
pub open spec fn same_piece(x: AdapterModel, y: AdapterModel) -> bool {
    ||| (x.end_a == y.end_a && x.end_b == y.end_b)
    ||| (x.end_a == y.end_b && x.end_b == y.end_a)
}

/// The model of an adapter used in the opposite orientation.
pub open spec fn reversed_model(x: AdapterModel) -> AdapterModel {
    AdapterModel { end_a: x.end_b, end_b: x.end_a, label: x.label, reversed: !x.reversed }
}

impl Adapter {
    /// An unlabelled adapter joining threads `a` and `b`.
    pub fn new(a: Thread, b: Thread) -> (r: Self)
        ensures
            r@ == (AdapterModel {
                end_a: a@,
                end_b: b@,
                label: Seq::<char>::empty(),
                reversed: false,
            }),
    {
        Adapter { end_a: a, end_b: b, label: String::new(), reversed: false }
    }

    /// The same adapter carrying the given display label.
    pub fn with_name(self, name: &str) -> (r: Self)
        ensures
            r@ == (AdapterModel {
                end_a: self@.end_a,
                end_b: self@.end_b,
                label: name@,
                reversed: false,
            }),
    {
        Adapter {
            end_a: self.end_a,
            end_b: self.end_b,
            label: String::from_str(name),
            reversed: false,
        }
    }

    /// The same physical piece used in the opposite orientation: the ends
    /// swap and the reversal marker toggles, so reversing twice restores the
    /// adapter exactly.
    pub fn reverse(self) -> (r: Self)
        ensures
            r@ == reversed_model(self@),
    {
        Adapter {
            end_a: self.end_b,
            end_b: self.end_a,
            label: self.label,
            reversed: !self.reversed,
        }
    }

    /// A fresh adapter with the same value.
    pub fn duplicate(&self) -> (r: Self)
        ensures
            r@ == self@,
    {
        Adapter {
            end_a: self.end_a.duplicate(),
            end_b: self.end_b.duplicate(),
            label: self.label.clone(),
            reversed: self.reversed,
        }
    }

    /// Whether the two adapters are the same physical piece, in either
    /// orientation.
    pub fn same_ends(&self, other: &Adapter) -> (r: bool)
        ensures
            r == same_piece(self@, other@),
    {
        (self.end_a == other.end_a && self.end_b == other.end_b) || (self.end_a == other.end_b
            && self.end_b == other.end_a)
    }

    /// The label as shown: the reversal marker is appended when the piece is
    /// held reversed, and an unlabelled piece stays unlabelled.
    pub fn label_string(&self) -> (r: String)
        ensures
            r@ == label_text(self@),
    {
        if self.label.as_str().is_empty() {
            self.label.clone()
        } else if self.reversed {
            self.label.clone().concat(" (reversed)")
        } else {
            self.label.clone()
        }
    }

    /// Display form of the adapter: a labelled piece with two real ends shows
    /// only its label; otherwise the label (if any, followed by `: `) and then
    /// the real end(s), joined by ` -> `.  The sentinel is never printed.
    pub fn render(&self) -> (r: String)
        ensures
            r@ == adapter_text(self@),
    {
        let label = self.label_string();
        if !label.as_str().is_empty() && !self.end_a.is_nil() && !self.end_b.is_nil() {
            label
        } else {
            let mut out = String::new();
            if !label.as_str().is_empty() {
                out.append(label.as_str());
                out.append(": ");
            }
            if !self.end_a.is_nil() {
                let first = self.end_a.render();
                out.append(first.as_str());
                if !self.end_b.is_nil() {
                    out.append(" -> ");
                }
            }
            if !self.end_b.is_nil() {
                let second = self.end_b.render();
                out.append(second.as_str());
            }
            proof {
                assert(out@ =~= adapter_text(self@));
            }
            out
        }
    }
}

/// The label as rendered, reversal marker included.
pub open spec fn label_text(x: AdapterModel) -> Seq<char> {
    if x.label.len() == 0 {
        x.label
    } else if x.reversed {
        x.label + " (reversed)"@
    } else {
        x.label
    }
}

/// Rendering of an adapter, per the rules of `Adapter::render`.
pub open spec fn adapter_text(x: AdapterModel) -> Seq<char> {
    let label = label_text(x);
    if label.len() > 0 && !(x.end_a is Nil) && !(x.end_b is Nil) {
        label
    } else {
        let head = if label.len() > 0 {
            label + ": "@
        } else {
            Seq::<char>::empty()
        };
        let first = if !(x.end_a is Nil) {
            thread_text(x.end_a) + (if !(x.end_b is Nil) {
                " -> "@
            } else {
                Seq::<char>::empty()
            })
        } else {
            Seq::<char>::empty()
        };
        let second = if !(x.end_b is Nil) {
            thread_text(x.end_b)
        } else {
            Seq::<char>::empty()
        };
        head + first + second
    }
}

impl PartialEq for Adapter {
    fn eq(&self, other: &Self) -> (r: bool) {
        self.same_ends(other)
    }
}

impl vstd::std_specs::cmp::PartialEqSpecImpl for Adapter {
    open spec fn obeys_eq_spec() -> bool {
        true
    }

    open spec fn eq_spec(&self, other: &Adapter) -> bool {
        same_piece(self@, other@)
    }
}

/// An adapter made of the pair `(a, b)` and one made of `(b, a)` are the same
/// piece: identity is the unordered pair of ends.
pub proof fn lemma_pair_symmetry(x: AdapterModel, y: AdapterModel)
    requires
        x.end_a == y.end_b,
        x.end_b == y.end_a,
    ensures
        same_piece(x, y),
        same_piece(y, x),
{
}

/// Reversing an adapter twice yields the adapter it started as, label
/// included.
pub proof fn lemma_reverse_round_trip(x: AdapterModel)
    ensures
        reversed_model(reversed_model(x)) == x,
{
}

} // verus!
