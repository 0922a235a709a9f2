//! The random draws of a simulation: whether a vertex sends a message, where
//! to, the order in which edges are served and the choice among neighbours.
use rand::distr::uniform::Error as UniformError;
use rand::distr::{Bernoulli, Distribution, Uniform};
use rand::seq::{IndexedRandom, SliceRandom};
use rand_pcg::Pcg64;
use vstd::prelude::*;

verus! {

#[verifier::external_type_specification]
#[verifier::external_body]
pub struct ExPcg64(Pcg64);

#[verifier::external_type_specification]
#[verifier::external_body]
pub struct ExBernoulli(Bernoulli);

/// The uniform distribution over `usize` that destinations are drawn from.
/// Its inner value is hidden from proofs: what they know of it is its
/// support, `uniform_support`.
#[verifier::external_body]
pub struct DestinationDistribution {
    inner: Uniform<usize>,
}

#[verifier::external_type_specification]
#[verifier::external_body]
pub struct ExUniformError(UniformError);

/// The values a uniform distribution over `usize` can produce.
pub uninterp spec fn uniform_support(u: DestinationDistribution) -> Set<usize>;

/// `Uniform::new(low, high)`: the uniform distribution over `low..high`; it
/// fails exactly when the range is empty.
#[verifier::external_body]
fn uniform_usize_new(low: usize, high: usize) -> (r: Result<DestinationDistribution, UniformError>)
    ensures
        r is Ok <==> low < high,
        r matches Ok(u) ==> uniform_support(u) == Set::new(|x: usize| low <= x < high),
{
    match Uniform::new(low, high) {
        Ok(inner) => Ok(DestinationDistribution { inner }),
        Err(e) => Err(e),
    }
}

/// One draw the engine made, as it records it.
pub enum Draw {
    /// Whether a vertex creates a message: one sample of the engine's
    /// Bernoulli distribution.
    Send(bool),
    /// One sample `x` of the engine's uniform distribution of destinations.
    Destination(usize),
    /// The index of the item drawn from a slice.
    Pick(usize),
    /// The order a shuffle put the items in: item `i` afterwards is item
    /// `order[i]` before.
    Shuffle(Seq<usize>),
}

/// `order` lists each index below `len` exactly once.
pub open spec fn is_permutation(order: Seq<usize>, len: nat) -> bool {
    &&& order.len() == len
    &&& order.no_duplicates()
    &&& forall|i: int| 0 <= i < len ==> #[trigger] order[i] < len
}

/// The items of `s` in the order `order`.
pub open spec fn permuted<T>(s: Seq<T>, order: Seq<usize>) -> Seq<T> {
    Seq::new(order.len(), |i: int| s[order[i] as int])
}

/// `Distribution::sample` for the engine's uniform distribution of
/// destinations: a value the distribution can produce, recorded as the
/// engine's next draw. Only the generator moves on.
#[verifier::external_body]
fn uniform_usize_sample(engine: &mut RandomEngine) -> (r: usize)
    ensures
        uniform_support(old(engine).destination_distr).contains(r),
        final(engine).draws@ == old(engine).draws@.push(Draw::Destination(r)),
        final(engine).destination_distr == old(engine).destination_distr,
        final(engine).will_send_msg_distr == old(engine).will_send_msg_distr,
        final(engine).num_vertices == old(engine).num_vertices,
{
    engine.destination_distr.inner.sample(&mut engine.rng)
}

/// `Distribution::sample` for the engine's Bernoulli distribution of message
/// creation: one sample, recorded as the engine's next draw. Nothing more is
/// stated of the outcome, which depends on the state of the generator and on
/// a probability that is a floating-point number. Only the generator moves on.
#[verifier::external_body]
fn bernoulli_sample(engine: &mut RandomEngine) -> (r: bool)
    ensures
        final(engine).draws@ == old(engine).draws@.push(Draw::Send(r)),
        final(engine).destination_distr == old(engine).destination_distr,
        final(engine).will_send_msg_distr == old(engine).will_send_msg_distr,
        final(engine).num_vertices == old(engine).num_vertices,
{
    engine.will_send_msg_distr.sample(&mut engine.rng)
}

/// `SliceRandom::shuffle`: reorders the items (it only swaps them); the
/// order it puts them in is recorded as the engine's next draw. Only the
/// generator moves on.
#[verifier::external_body]
fn shuffle_items<T>(items: &mut Vec<T>, engine: &mut RandomEngine)
    ensures
        final(items)@.to_multiset() == old(items)@.to_multiset(),
        exists|order: Seq<usize>| {
            &&& is_permutation(order, old(items)@.len())
            &&& final(items)@ == permuted(old(items)@, order)
            &&& final(engine).draws@ == old(engine).draws@.push(Draw::Shuffle(order))
        },
        final(engine).destination_distr == old(engine).destination_distr,
        final(engine).will_send_msg_distr == old(engine).will_send_msg_distr,
        final(engine).num_vertices == old(engine).num_vertices,
{
    items.shuffle(&mut engine.rng)
}

/// `IndexedRandom::choose`: the item at a drawn index, recorded as the
/// engine's next draw, or `None`, with no draw, when there is no item. Only
/// the generator moves on.
#[verifier::external_body]
fn choose_item<'a, T>(items: &'a [T], engine: &mut RandomEngine) -> (r: Option<&'a T>)
    ensures
        r is None <==> items@.len() == 0,
        r matches Some(x) ==> items@.contains(*x),
        r is None ==> final(engine).draws@ == old(engine).draws@,
        r matches Some(x) ==> exists|k: usize| {
            &&& k < items@.len()
            &&& items@[k as int] == *x
            &&& final(engine).draws@ == old(engine).draws@.push(Draw::Pick(k))
        },
        final(engine).destination_distr == old(engine).destination_distr,
        final(engine).will_send_msg_distr == old(engine).will_send_msg_distr,
        final(engine).num_vertices == old(engine).num_vertices,
{
    items.choose(&mut engine.rng)
}

/// A generator with the distributions a simulation draws from.
pub struct RandomEngine {
    rng: Pcg64,
    will_send_msg_distr: Bernoulli,
    destination_distr: DestinationDistribution,
    num_vertices: Ghost<nat>,
    draws: Ghost<Seq<Draw>>,
}

impl RandomEngine {
    /// The number of vertices destinations are drawn among.
    pub closed spec fn vertex_count(&self) -> nat {
        self.num_vertices@
    }

    pub closed spec fn generator(&self) -> Pcg64 {
        self.rng
    }

    /// The draws the engine has made, oldest first.
    pub closed spec fn draws(&self) -> Seq<Draw> {
        self.draws@
    }

    /// The distribution that decides whether a vertex creates a message.
    pub closed spec fn send_distribution(&self) -> Bernoulli {
        self.will_send_msg_distr
    }

    pub closed spec fn wf(&self) -> bool {
        &&& 2 <= self.num_vertices@ <= usize::MAX
        &&& uniform_support(self.destination_distr) == Set::new(|x: usize| x < self.num_vertices@ - 1)
    }

    pub proof fn lemma_wf(&self)
        requires
            self.wf(),
        ensures
            2 <= self.vertex_count() <= usize::MAX,
    {
    }

    /// An engine for `v` vertices from a generator and the distribution of
    /// message creation; `None` when there is no vertex.
    pub fn from_parts(rng: Pcg64, will_send_msg_distr: Bernoulli, v: usize) -> (r: Option<Self>)
        requires
            v != 1,
        ensures
            r is None <==> v == 0,
            r matches Some(e) ==> e.wf() && e.vertex_count() == v && e.generator() == rng
                && e.send_distribution() == will_send_msg_distr,
            r matches Some(e) ==> e.draws() == Seq::<Draw>::empty(),
    {
        if v == 0 {
            return None;
        }
        match uniform_usize_new(0, v - 1) {
            Ok(destination_distr) => {
                proof {
                    assert(Set::new(|x: usize| 0 <= x < v - 1) =~= Set::new(|x: usize| x < v - 1));
                }
                Some(RandomEngine {
                    rng,
                    will_send_msg_distr,
                    destination_distr,
                    num_vertices: Ghost(v as nat),
                    draws: Ghost(Seq::empty()),
                })
            },
            Err(_) => None,
        }
    }

    /// Puts `items` in a random order: the order of the engine's next draw,
    /// a shuffle.
    pub fn shuffle_slice<T>(&mut self, items: &mut Vec<T>)
        ensures
            final(items)@.to_multiset() == old(items)@.to_multiset(),
            final(self).wf() == old(self).wf(),
            final(self).vertex_count() == old(self).vertex_count(),
            final(self).send_distribution() == old(self).send_distribution(),
            final(self).draws().len() == old(self).draws().len() + 1,
            final(self).draws().take(old(self).draws().len() as int) == old(self).draws(),
            final(self).draws().last() matches Draw::Shuffle(order) && is_permutation(order, old(items)@.len())
                && final(items)@ == permuted(old(items)@, order),
    {
        shuffle_items(items, self);
        proof {
            assert(self.draws@.take(old(self).draws@.len() as int) =~= old(self).draws@);
        }
    }

    /// One of the items: the item at the index of the engine's next draw.
    pub fn choose_from<T: Copy>(&mut self, items: &[T]) -> (r: T)
        requires
            items@.len() > 0,
        ensures
            items@.contains(r),
            final(self).wf() == old(self).wf(),
            final(self).vertex_count() == old(self).vertex_count(),
            final(self).send_distribution() == old(self).send_distribution(),
            final(self).draws().len() == old(self).draws().len() + 1,
            final(self).draws().take(old(self).draws().len() as int) == old(self).draws(),
            final(self).draws().last() matches Draw::Pick(k) && k < items@.len() && r == items@[k as int],
    {
        match choose_item(items, self) {
            Some(x) => {
                proof {
                    assert(self.draws@.take(old(self).draws@.len() as int) =~= old(self).draws@);
                }
                *x
            },
            None => items[0],
        }
    }

    /// Whether a vertex creates a message at this step: the engine's next
    /// draw, one sample of its distribution of message creation, which stays
    /// as it is.
    pub fn sample_will_send_msg(&mut self) -> (r: bool)
        ensures
            final(self).wf() == old(self).wf(),
            final(self).vertex_count() == old(self).vertex_count(),
            final(self).send_distribution() == old(self).send_distribution(),
            final(self).draws() == old(self).draws().push(Draw::Send(r)),
    {
        bernoulli_sample(self)
    }

    /// A destination drawn uniformly among the vertices other than
    /// `vertex_to_exclude`: the engine's next draw `x`, below
    /// `vertex_count - 1`, shifted up by one from `vertex_to_exclude` on.
    pub fn sample_destination(&mut self, vertex_to_exclude: usize) -> (r: usize)
        requires
            old(self).wf(),
        ensures
            final(self).wf(),
            final(self).vertex_count() == old(self).vertex_count(),
            final(self).send_distribution() == old(self).send_distribution(),
            exists|x: usize| x < old(self).vertex_count() - 1 && r == #[trigger] shift_past(x, vertex_to_exclude),
            r < old(self).vertex_count(),
            r != vertex_to_exclude,
            final(self).draws().len() == old(self).draws().len() + 1,
            final(self).draws().take(old(self).draws().len() as int) == old(self).draws(),
            final(self).draws().last() matches Draw::Destination(x) && x < old(self).vertex_count() - 1
                && r == shift_past(x, vertex_to_exclude),
    {
        let x = uniform_usize_sample(self);
        assert(Set::new(|y: usize| y < self.num_vertices@ - 1).contains(x));
        let r = if x >= vertex_to_exclude { x + 1 } else { x };
        assert(r == shift_past(x, vertex_to_exclude));
        assert(self.draws@.take(old(self).draws@.len() as int) =~= old(self).draws@);
        r
    }

    /// The generator itself, for draws the engine does not offer.
    pub fn rng_mut(&mut self) -> (r: &mut Pcg64)
        ensures
            *r == old(self).generator(),
            final(self).generator() == *final(r),
            final(self).wf() == old(self).wf(),
            final(self).vertex_count() == old(self).vertex_count(),
            final(self).send_distribution() == old(self).send_distribution(),
            final(self).draws() == old(self).draws(),
    {
        &mut self.rng
    }
}

/// `x`, moved up by one if it is at or above `excluded`.
pub open spec fn shift_past(x: usize, excluded: usize) -> int {
    if x >= excluded { x + 1 } else { x as int }
}

/// A destination draw maps the draws below `n - 1` one to one onto the
/// vertices below `n` other than the excluded one: each draw gives another
/// vertex, two different draws give two different vertices, and every other
/// vertex is given by some draw. So a uniform draw gives a uniform
/// destination among the other vertices.
pub proof fn lemma_destination_draws_cover_other_vertices(n: nat, excluded: usize, x: usize, y: usize, d: usize)
    requires
        excluded < n,
        n <= usize::MAX,
    ensures
        x < n - 1 ==> 0 <= shift_past(x, excluded) < n && shift_past(x, excluded) != excluded,
        x < n - 1 && y < n - 1 && x != y ==> shift_past(x, excluded) != shift_past(y, excluded),
        d < n && d != excluded ==> exists|z: usize| z < n - 1 && #[trigger] shift_past(z, excluded) == d,
{
    if d < n && d != excluded {
        let z: usize = if d > excluded { (d - 1) as usize } else { d };
        assert(shift_past(z, excluded) == d);
    }
}

/// A shuffle only reorders: the items after it are as many as before, each
/// is an item from before (the one its index in `order` names), and no item
/// appears twice when none did before. With the multiset equality that
/// `RandomEngine::shuffle_slice` states, every item keeps its count.
pub proof fn lemma_shuffle_reorders<T>(items: Seq<T>, order: Seq<usize>)
    requires
        is_permutation(order, items.len()),
    ensures
        permuted(items, order).len() == items.len(),
        forall|j: int| 0 <= j < items.len() ==> #[trigger] permuted(items, order)[j] == items[order[j] as int]
            && 0 <= order[j] < items.len(),
        items.no_duplicates() ==> permuted(items, order).no_duplicates(),
{
    let p = permuted(items, order);
    let n = items.len();
    if items.no_duplicates() {
        assert forall|a: int, b: int| 0 <= a < b < n implies p[a] != p[b] by {
            assert(order[a] != order[b]);
            assert(order[a] < n && order[b] < n);
        }
    }
}

} // verus!
