//! Frontiers over `u64` timestamps, backed by timely's `Antichain`.
use differential_dataflow::lattice::Lattice;
use timely::progress::Antichain;
use vstd::prelude::*;

verus! {

/// timely's `Antichain`: a set of times none of which is before another.
/// Nothing is known of a value but through the functions below.
#[verifier::external_type_specification]
#[verifier::external_body]
#[verifier::reject_recursive_types(T)]
pub struct ExAntichain<T>(Antichain<T>);

/// The elements that an antichain of `u64` times holds, in stored order.
pub uninterp spec fn antichain_elements(a: Antichain<u64>) -> Seq<u64>;

/// What `==` on two antichains computes from their element lists: equal
/// lengths, and every element of the first found in the second.
pub open spec fn antichain_eq_spec(a: Seq<u64>, b: Seq<u64>) -> bool {
    a.len() == b.len() && forall|i: int| 0 <= i < a.len() ==> b.contains(#[trigger] a[i])
}

/// The least upper bound of two frontiers that hold at most one time each:
/// empty if either is empty, else the larger of the two times.
pub open spec fn join_spec(a: Seq<u64>, b: Seq<u64>) -> Seq<u64> {
    if a.len() == 0 || b.len() == 0 {
        Seq::empty()
    } else if a[0] >= b[0] {
        seq![a[0]]
    } else {
        seq![b[0]]
    }
}

/// Whether frontier `a` is at or before frontier `b`: every time of `b` is at
/// or after some time of `a`.
pub open spec fn frontier_le(a: Seq<u64>, b: Seq<u64>) -> bool {
    forall|j: int| 0 <= j < b.len() ==> exists|i: int| 0 <= i < a.len() && a[i] <= #[trigger] b[j]
}

/// `Antichain::from_elem`: the antichain that holds exactly the given time.
#[verifier::external_body]
fn antichain_from_elem(t: u64) -> (r: Antichain<u64>)
    ensures
        antichain_elements(r) == seq![t],
{
    Antichain::from_elem(t)
}

/// `Antichain::new`: the antichain that holds no time.
#[verifier::external_body]
fn antichain_new() -> (r: Antichain<u64>)
    ensures
        antichain_elements(r) == Seq::<u64>::empty(),
{
    Antichain::new()
}

/// `Antichain::elements`, asked for its length: the number of elements.
#[verifier::external_body]
fn antichain_len(a: &Antichain<u64>) -> (r: usize)
    ensures
        r == antichain_elements(*a).len(),
{
    a.elements().len()
}

/// `PartialEq::eq` of `Antichain`: the lengths agree and every element of
/// `a` occurs in `b`.
#[verifier::external_body]
fn antichain_eq(a: &Antichain<u64>, b: &Antichain<u64>) -> (r: bool)
    ensures
        r == antichain_eq_spec(antichain_elements(*a), antichain_elements(*b)),
{
    a.eq(b)
}

/// `Clone::clone` of `Antichain`: the copy holds the same elements.
#[verifier::external_body]
fn antichain_clone(a: &Antichain<u64>) -> (r: Antichain<u64>)
    ensures
        antichain_elements(r) == antichain_elements(*a),
{
    a.clone()
}

/// `Lattice::join` of `Antichain<u64>`: it inserts the larger time of every
/// pair into a fresh antichain, which keeps the least one. On inputs of at
/// most one element that is the larger of the two times, or nothing when
/// either input is empty.
#[verifier::external_body]
fn antichain_join(a: &Antichain<u64>, b: &Antichain<u64>) -> (r: Antichain<u64>)
    requires
        antichain_elements(*a).len() <= 1,
        antichain_elements(*b).len() <= 1,
    ensures
        antichain_elements(r) == join_spec(antichain_elements(*a), antichain_elements(*b)),
{
    a.join(b)
}

/// A boundary in time: either a single `u64` time or nothing (a closed
/// boundary that no time reaches).
pub struct Frontier {
    inner: Antichain<u64>,
}

impl View for Frontier {
    type V = Seq<u64>;

    closed spec fn view(&self) -> Seq<u64> {
        antichain_elements(self.inner)
    }
}

impl Frontier {
    /// A frontier over a total order holds at most one time.
    pub open spec fn wf(&self) -> bool {
        self@.len() <= 1
    }

    /// The frontier at the single time `t`.
    pub fn from_elem(t: u64) -> (r: Frontier)
        ensures
            r@ == seq![t],
            r.wf(),
    {
        Frontier { inner: antichain_from_elem(t) }
    }

    /// The empty frontier.
    pub fn new() -> (r: Frontier)
        ensures
            r@ == Seq::<u64>::empty(),
            r.wf(),
    {
        Frontier { inner: antichain_new() }
    }

    /// Takes an antichain as a frontier, if it holds at most one time.
    pub fn from_antichain(a: Antichain<u64>) -> (r: Option<Frontier>)
        ensures
            r is Some <==> antichain_elements(a).len() <= 1,
            r is Some ==> r->0@ == antichain_elements(a) && r->0.wf(),
    {
        if antichain_len(&a) <= 1 {
            Some(Frontier { inner: a })
        } else {
            None
        }
    }

    /// Hands the frontier out as an antichain.
    pub fn into_antichain(self) -> (r: Antichain<u64>)
        ensures
            antichain_elements(r) == self@,
    {
        self.inner
    }

    /// The number of times that the frontier holds.
    pub fn len(&self) -> (r: usize)
        ensures
            r == self@.len(),
    {
        antichain_len(&self.inner)
    }

    /// Whether the frontier holds no time.
    pub fn is_empty(&self) -> (r: bool)
        ensures
            r == (self@.len() == 0),
    {
        antichain_len(&self.inner) == 0
    }

    /// Whether two frontiers hold the same time.
    pub fn eq(&self, other: &Frontier) -> (r: bool)
        requires
            self.wf(),
            other.wf(),
        ensures
            r == (self@ == other@),
    {
        let r = antichain_eq(&self.inner, &other.inner);
        proof {
            let a = self@;
            let b = other@;
            if r {
                assert(a.len() == b.len());
                if a.len() == 1 {
                    assert(b.contains(a[0]));
                }
                assert(a =~= b);
            } else {
                if a == b {
                    assert forall|i: int| 0 <= i < a.len() implies b.contains(#[trigger] a[i]) by {
                        assert(b[i] == a[i]);
                    }
                }
            }
        }
        r
    }

    /// The least upper bound of two frontiers.
    pub fn join(&self, other: &Frontier) -> (r: Frontier)
        requires
            self.wf(),
            other.wf(),
        ensures
            r@ == join_spec(self@, other@),
            r.wf(),
    {
        Frontier { inner: antichain_join(&self.inner, &other.inner) }
    }
}

impl Clone for Frontier {
    fn clone(&self) -> (r: Frontier)
        ensures
            r@ == self@,
    {
        Frontier { inner: antichain_clone(&self.inner) }
    }
}

/// A join is at or after both of its arguments.
pub proof fn lemma_join_upper_bound(a: Seq<u64>, b: Seq<u64>)
    requires
        a.len() <= 1,
        b.len() <= 1,
    ensures
        join_spec(a, b).len() <= 1,
        frontier_le(a, join_spec(a, b)),
        frontier_le(b, join_spec(a, b)),
        join_spec(a, b) == join_spec(b, a),
{
    let j = join_spec(a, b);
    assert forall|k: int| 0 <= k < j.len() implies exists|i: int|
        0 <= i < a.len() && a[i] <= #[trigger] j[k] by {
        assert(0 <= 0 < a.len() && a[0] <= j[k]);
    }
    assert forall|k: int| 0 <= k < j.len() implies exists|i: int|
        0 <= i < b.len() && b[i] <= #[trigger] j[k] by {
        assert(0 <= 0 < b.len() && b[0] <= j[k]);
    }
    assert(join_spec(a, b) =~= join_spec(b, a));
}

} // verus!
