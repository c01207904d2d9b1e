//! The database that carries the enumeration from one size to the next.

use std::collections::VecDeque;
use vstd::prelude::*;
use crate::grid::Grid;
use crate::polyomino::Polyomino;
use crate::shape::{trivial_shape, Shape};

verus! {

/// The database as a value of the model.
pub struct DatabaseView {
    /// The number of polyominoes with some square amount, for the amounts
    /// that have been processed; the amount 1 comes first.
    pub counts: Seq<u128>,
    /// The unprocessed polyominoes of the last square amount.
    pub queue: Seq<Shape>,
    /// The polyominoes found so far for the next square amount, in the
    /// order in which they will be queued.
    pub cache: Seq<Shape>,
    /// How often a polyomino was registered, by square amount.
    pub stats: Seq<u128>,
}

/// Whether two polyominoes have the same place in the cache: the same
/// dimension and the same squares.
pub open spec fn same_key(a: Shape, b: Shape) -> bool {
    a.dimension == b.dimension && a.repr == b.repr
}

/// The order of the dimensions: by width first, then by height.
pub open spec fn dimension_before(a: (int, int), b: (int, int)) -> bool {
    a.0 < b.0 || (a.0 == b.0 && a.1 < b.1)
}

/// The place at which a polyomino of dimension `d` is put into the cache:
/// behind the polyominoes whose dimension does not come after `d`.
pub open spec fn slot(cache: Seq<Shape>, d: (int, int)) -> int
    decreases cache.len(),
{
    if cache.len() == 0 {
        0
    } else if dimension_before(d, cache[0].dimension) {
        0
    } else {
        1 + slot(cache.subrange(1, cache.len() as int), d)
    }
}

/// Whether the cache holds a polyomino with the key of `p`.
pub open spec fn holds(cache: Seq<Shape>, p: Shape) -> bool {
    exists|i: int| 0 <= i < cache.len() && same_key(#[trigger] cache[i], p)
}

/// The polyomino `a` with the frontier of `b` added to its own.
pub open spec fn merged(a: Shape, b: Shape) -> Shape {
    Shape { mask: a.mask.union(b.mask), ..a }
}

/// The cache after the polyomino `p` has been registered: where its key is
/// there already the frontiers are merged, else `p` takes its place among
/// the polyominoes of its dimension, behind them.
pub open spec fn registered(cache: Seq<Shape>, p: Shape) -> Seq<Shape> {
    if holds(cache, p) {
        let i = choose|i: int| 0 <= i < cache.len() && same_key(#[trigger] cache[i], p);
        cache.update(i, merged(cache[i], p))
    } else {
        cache.insert(slot(cache, p.dimension), p)
    }
}

impl DatabaseView {
    /// The invariant: there is a counter of attempts for the square
    /// amount in work, all polyominoes are sound, and the cache is ordered
    /// by dimension and holds no key twice.
    pub open spec fn wf(self) -> bool {
        &&& self.stats.len() > 0
        &&& forall|i: int| 0 <= i < self.queue.len() ==> (#[trigger] self.queue[i]).sound()
        &&& cache_wf(self.cache)
    }

    /// The database after `p` has been registered.
    pub open spec fn after_register(self, p: Shape) -> DatabaseView {
        DatabaseView {
            cache: registered(self.cache, p),
            stats: self.stats.update(
                self.stats.len() - 1,
                (self.stats[self.stats.len() - 1] + 1) as u128,
            ),
            ..self
        }
    }

    /// The database after the cache has been flushed into the empty queue.
    pub open spec fn after_flush(self) -> DatabaseView {
        DatabaseView {
            counts: self.counts.push(self.cache.len() as u128),
            queue: self.cache,
            cache: Seq::empty(),
            stats: self.stats.push(0),
        }
    }

    /// The database after the front of the queue has been taken.
    pub open spec fn after_pop(self) -> DatabaseView {
        if self.queue.len() > 0 {
            DatabaseView { queue: self.queue.subrange(1, self.queue.len() as int), ..self }
        } else {
            self
        }
    }
}

/// The invariant of the cache: sound polyominoes, ordered by dimension, no
/// key twice.
pub open spec fn cache_wf(cache: Seq<Shape>) -> bool {
    &&& forall|i: int| 0 <= i < cache.len() ==> (#[trigger] cache[i]).sound()
    &&& forall|i: int, j: int|
        0 <= i < j < cache.len() ==> !dimension_before(
            (#[trigger] cache[j]).dimension,
            (#[trigger] cache[i]).dimension,
        )
    &&& forall|i: int, j: int|
        0 <= i < j < cache.len() ==> !same_key(#[trigger] cache[i], #[trigger] cache[j])
}

/// Merging the frontiers of two sound polyominoes with the same squares
/// gives a sound polyomino, and a well-formed one where both are.
pub proof fn lemma_merged_wf(a: Shape, b: Shape)
    requires
        a.sound(),
        b.sound(),
        same_key(a, b),
    ensures
        merged(a, b).sound(),
        a.wf() && b.wf() ==> merged(a, b).wf(),
        same_key(merged(a, b), a),
{
}

/// The place for a dimension lies in the cache, behind every polyomino
/// whose dimension does not come after it and before every other.
pub proof fn lemma_slot(cache: Seq<Shape>, d: (int, int))
    requires
        forall|i: int, j: int|
            0 <= i < j < cache.len() ==> !dimension_before(
                (#[trigger] cache[j]).dimension,
                (#[trigger] cache[i]).dimension,
            ),
    ensures
        0 <= slot(cache, d) <= cache.len(),
        forall|i: int|
            0 <= i < slot(cache, d) ==> !dimension_before(d, (#[trigger] cache[i]).dimension),
        forall|i: int|
            slot(cache, d) <= i < cache.len() ==> dimension_before(
                d,
                (#[trigger] cache[i]).dimension,
            ),
    decreases cache.len(),
{
    if cache.len() == 0 {
    } else if dimension_before(d, cache[0].dimension) {
        assert forall|i: int| 0 <= i < cache.len() implies dimension_before(
            d,
            (#[trigger] cache[i]).dimension,
        ) by {
            if i > 0 {
                assert(!dimension_before(cache[i].dimension, cache[0].dimension));
            }
        }
    } else {
        let rest = cache.subrange(1, cache.len() as int);
        assert forall|i: int, j: int| 0 <= i < j < rest.len() implies !dimension_before(
            (#[trigger] rest[j]).dimension,
            (#[trigger] rest[i]).dimension,
        ) by {
            assert(rest[i] == cache[i + 1] && rest[j] == cache[j + 1]);
        }
        lemma_slot(rest, d);
        assert forall|i: int| 0 <= i < slot(cache, d) implies !dimension_before(
            d,
            (#[trigger] cache[i]).dimension,
        ) by {
            if i > 0 {
                assert(cache[i] == rest[i - 1]);
            }
        }
        assert forall|i: int| slot(cache, d) <= i < cache.len() implies dimension_before(
            d,
            (#[trigger] cache[i]).dimension,
        ) by {
            assert(cache[i] == rest[i - 1]);
        }
    }
}

/// A place that parts the cache as the place for a dimension does is that
/// place.
pub proof fn lemma_slot_found(cache: Seq<Shape>, d: (int, int), k: int)
    requires
        0 <= k <= cache.len(),
        forall|i: int| 0 <= i < k ==> !dimension_before(d, (#[trigger] cache[i]).dimension),
        k < cache.len() ==> dimension_before(d, cache[k].dimension),
    ensures
        slot(cache, d) == k,
    decreases cache.len(),
{
    if cache.len() == 0 {
    } else if k == 0 {
    } else {
        let rest = cache.subrange(1, cache.len() as int);
        assert forall|i: int| 0 <= i < k - 1 implies !dimension_before(
            d,
            (#[trigger] rest[i]).dimension,
        ) by {
            assert(rest[i] == cache[i + 1]);
        }
        if k < cache.len() {
            assert(rest[k - 1] == cache[k]);
        }
        assert(!dimension_before(d, cache[0].dimension));
        lemma_slot_found(rest, d, k - 1);
    }
}

/// Registering keeps the cache in order and free of double keys.
pub proof fn lemma_registered_wf(cache: Seq<Shape>, p: Shape)
    requires
        cache_wf(cache),
        p.sound(),
    ensures
        cache_wf(registered(cache, p)),
        holds(registered(cache, p), p),
        registered(cache, p).len() == cache.len() + (if holds(cache, p) {
            0int
        } else {
            1int
        }),
{
    let after = registered(cache, p);
    if holds(cache, p) {
        let i = choose|i: int| 0 <= i < cache.len() && same_key(#[trigger] cache[i], p);
        lemma_merged_wf(cache[i], p);
        assert(same_key(after[i], p));
    } else {
        lemma_slot(cache, p.dimension);
        let k = slot(cache, p.dimension);
        assert(after[k] == p);
        assert(same_key(after[k], p));
        assert forall|i: int, j: int| 0 <= i < j < after.len() implies !dimension_before(
            (#[trigger] after[j]).dimension,
            (#[trigger] after[i]).dimension,
        ) && !same_key(after[i], after[j]) by {
            let a = if i < k {
                i
            } else {
                i - 1
            };
            let b = if j < k {
                j
            } else {
                j - 1
            };
            if i != k {
                assert(after[i] == cache[a]);
            }
            if j != k {
                assert(after[j] == cache[b]);
            }
        }
        assert forall|i: int| 0 <= i < after.len() implies (#[trigger] after[i]).sound() by {
            if i < k {
                assert(after[i] == cache[i]);
            } else if i > k {
                assert(after[i] == cache[i - 1]);
            }
        }
    }
}

/// Registering two polyominoes with the same dimension and the same
/// squares counts two attempts, but the flush that follows queues and counts
/// one polyomino for them, whose frontier is the union of both frontiers.
pub proof fn lemma_register_twice(v: DatabaseView, p: Shape, q: Shape)
    requires
        v.wf(),
        p.sound(),
        q.sound(),
        same_key(p, q),
        !holds(v.cache, p),
        v.stats[v.stats.len() - 1] + 2 <= u128::MAX,
        v.cache.len() < u128::MAX,
    ensures
        ({
            let after = v.after_register(p).after_register(q).after_flush();
            let last = v.stats.len() - 1;
            &&& after.stats == v.stats.update(last, (v.stats[last] + 2) as u128).push(0)
            &&& after.counts == v.counts.push((v.cache.len() + 1) as u128)
            &&& after.queue.len() == v.cache.len() + 1
            &&& exists|i: int|
                0 <= i < after.queue.len() && same_key(#[trigger] after.queue[i], p)
                    && after.queue[i].mask == p.mask.union(q.mask)
            &&& after.cache.len() == 0
        }),
{
    let once = registered(v.cache, p);
    let twice = registered(once, q);
    let after = v.after_register(p).after_register(q).after_flush();
    let last = v.stats.len() - 1;
    lemma_registered_wf(v.cache, p);
    lemma_slot(v.cache, p.dimension);
    let k = slot(v.cache, p.dimension);
    assert(once[k] == p);
    assert(same_key(once[k], q));
    assert(holds(once, q));
    let i = choose|i: int| 0 <= i < once.len() && same_key(#[trigger] once[i], q);
    assert(i == k) by {
        if i < k {
            assert(!same_key(once[i], once[k]));
        } else if i > k {
            assert(!same_key(once[k], once[i]));
        }
    }
    assert(twice[k] == merged(p, q));
    assert(same_key(after.queue[k], p));
    assert(after.stats =~= v.stats.update(last, (v.stats[last] + 2) as u128).push(0));
    assert(after.counts =~= v.counts.push((v.cache.len() + 1) as u128));
}

/// The database holds three things:
/// - the number of polyominoes with some square amount, if all have been
///   processed
/// - the queue of unprocessed polyominoes of the last square amount
/// - the cache of polyominoes for the next amount
/// - stats by square amount
pub struct Database<T> where T: Grid {
    counts: Vec<u128>,
    queue: VecDeque<Polyomino<T>>,
    cache: Vec<Polyomino<T>>,
    stats: Vec<u128>,
}

impl<T> View for Database<T> where T: Grid {
    type V = DatabaseView;

    closed spec fn view(&self) -> DatabaseView {
        DatabaseView {
            counts: self.counts@,
            queue: Seq::new(self.queue@.len(), |i: int| self.queue@[i]@),
            cache: Seq::new(self.cache@.len(), |i: int| self.cache@[i]@),
            stats: self.stats@,
        }
    }
}

impl<T> Database<T> where T: Grid {
    /// The invariant: the model is well formed, and every polyomino in the
    /// database is sound.
    pub closed spec fn wf(&self) -> bool {
        &&& self@.wf()
        &&& forall|i: int| 0 <= i < self.queue@.len() ==> (#[trigger] self.queue@[i]).sound()
        &&& forall|i: int| 0 <= i < self.cache@.len() ==> (#[trigger] self.cache@[i]).sound()
    }

    /// Whether every polyomino in the database is well formed, as those
    /// are that growth has made.
    pub closed spec fn grown(&self) -> bool {
        &&& forall|i: int| 0 <= i < self.queue@.len() ==> (#[trigger] self.queue@[i]).wf()
        &&& forall|i: int| 0 <= i < self.cache@.len() ==> (#[trigger] self.cache@[i]).wf()
    }

    /// The model of the database at the start of the enumeration.
    pub open spec fn initial() -> DatabaseView {
        DatabaseView {
            counts: seq![1u128],
            queue: seq![trivial_shape()],
            cache: Seq::empty(),
            stats: seq![1u128, 0u128],
        }
    }

    /// What the invariant says of the model.
    pub proof fn lemma_view(&self)
        requires
            self.wf(),
        ensures
            self@.wf(),
    {
    }

    /// The database at the start of the enumeration: the polyomino of one
    /// square waits in the queue and has been counted.
    pub fn new() -> (db: Self)
        ensures
            db.wf(),
            db.grown(),
            db@ == Self::initial(),
    {
        let mut queue = VecDeque::new();
        queue.push_back(Polyomino::trivial());
        let mut counts = Vec::new();
        counts.push(1u128);
        let mut stats = Vec::new();
        stats.push(1u128);
        stats.push(0u128);
        let db = Database { counts, queue, cache: Vec::new(), stats };
        proof {
            assert(db@.counts =~= seq![1u128]);
            assert(db@.queue =~= seq![trivial_shape()]);
            assert(db@.cache =~= Seq::<Shape>::empty());
            assert(db@.stats =~= seq![1u128, 0u128]);
        }
        db
    }

    /// The number of polyominoes that wait in the queue.
    pub fn pending(&self) -> (n: usize)
        ensures
            n == self@.queue.len(),
    {
        self.queue.len()
    }

    /// The next polyomino of the queue, if there is one; it stays there.
    pub fn front(&self) -> (res: Option<&Polyomino<T>>)
        requires
            self.wf(),
        ensures
            self@.queue.len() == 0 <==> res is None,
            res matches Some(p) ==> p.held(self.grown()) && p@ == self@.queue[0],
    {
        if self.queue.len() == 0 {
            None
        } else {
            Some(&self.queue[0])
        }
    }

    /// Take the next polyomino from the queue, if there is one.
    pub fn pop(&mut self) -> (res: Option<Polyomino<T>>)
        requires
            old(self).wf(),
        ensures
            final(self).wf(),
            old(self).grown() ==> final(self).grown(),
            final(self)@ == old(self)@.after_pop(),
            old(self)@.queue.len() == 0 <==> res is None,
            res matches Some(p) ==> p.held(old(self).grown()) && p@ == old(self)@.queue[0],
    {
        let ghost g = old(self).grown();
        let res = self.queue.pop_front();
        proof {
            assert(self@.queue =~= old(self)@.after_pop().queue);
            assert(self@.cache =~= old(self)@.cache);
            if res is Some {
                {
                    assert(res->Some_0 == old(self).queue@[0]);
                    assert forall|i: int| 0 <= i < self.queue@.len() implies (
                    #[trigger] self.queue@[i]).held(g) by {
                        assert(self.queue@[i] == old(self).queue@[i + 1]);
                    }
                    assert forall|i: int| 0 <= i < self@.queue.len() implies (
                    #[trigger] self@.queue[i]).sound() by {
                        assert(self@.queue[i] == old(self)@.queue[i + 1]);
                    }
                }
            }
        }
        res
    }

    /// Register the polyomino in the cache, and count the attempt.
    pub fn register(&mut self, p: Polyomino<T>)
        requires
            old(self).wf(),
            p.sound(),
            old(self)@.stats[old(self)@.stats.len() - 1] < u128::MAX,
        ensures
            final(self).wf(),
            old(self).grown() && p.wf() ==> final(self).grown(),
            final(self)@ == old(self)@.after_register(p@),
    {
        let ghost g = old(self).grown() && p.wf();
        let ghost before = self@;
        let ghost goal = before.after_register(p@);
        proof {
            lemma_registered_wf(before.cache, p@);
        }
        let last = self.stats.len() - 1;
        let attempts = self.stats[last] + 1;
        self.stats[last] = attempts;

        let n = self.cache.len();
        let mut i: usize = 0;
        while i < n
            invariant
                i <= n,
                n == self.cache@.len(),
                p.held(g),
                g ==> old(self).grown(),
                self.cache == old(self).cache,
                self.queue == old(self).queue,
                self.counts == old(self).counts,
                self.stats@ == goal.stats,
                before == old(self)@,
                old(self).wf(),
                goal == before.after_register(p@),
                forall|k: int| 0 <= k < i ==> !same_key(#[trigger] before.cache[k], p@),
            decreases n - i,
        {
            let same = self.cache[i].dimension.0 == p.dimension.0 && self.cache[i].dimension.1
                == p.dimension.1 && self.cache[i].repr.same_cells(&p.repr);
            proof {
                assert(before.cache[i as int] == self.cache@[i as int]@);
                assert(same == same_key(before.cache[i as int], p@));
            }
            if same {
                let ghost found = self.cache@[i as int];
                self.cache[i].mask.merge(&p.mask);
                proof {
                    let j = choose|j: int|
                        0 <= j < before.cache.len() && same_key(#[trigger] before.cache[j], p@);
                    assert(holds(before.cache, p@));
                    if j != i {
                        if j < i {
                            assert(!same_key(before.cache[j], before.cache[i as int]));
                        } else {
                            assert(!same_key(before.cache[i as int], before.cache[j]));
                        }
                    }
                    lemma_merged_wf(found@, p@);
                    assert(old(self).cache@[i as int].sound());
                    if g {
                        assert(old(self).cache@[i as int].wf());
                    }
                    assert(found.held(g));
                    assert(self.cache@[i as int]@ == merged(found@, p@));
                    assert(self@.cache =~= goal.cache);
                    assert(self@.queue =~= goal.queue);
                    assert forall|k: int| 0 <= k < self.cache@.len() implies (
                    #[trigger] self.cache@[k]).held(g) by {
                        if k != i {
                            assert(self.cache@[k] == old(self).cache@[k]);
                            assert(old(self).cache@[k].sound());
                            if g {
                                assert(old(self).cache@[k].wf());
                            }
                        }
                    }
                }
                return ;
            }
            i += 1;
        }
        let mut k: usize = 0;
        while k < n && !(p.dimension.0 < self.cache[k].dimension.0 || (p.dimension.0
            == self.cache[k].dimension.0 && p.dimension.1 < self.cache[k].dimension.1))
            invariant
                k <= n,
                n == self.cache@.len(),
                self.cache == old(self).cache,
                before == old(self)@,
                forall|j: int|
                    0 <= j < k ==> !dimension_before(
                        p@.dimension,
                        (#[trigger] before.cache[j]).dimension,
                    ),
            decreases n - k,
        {
            proof {
                assert(before.cache[k as int] == self.cache@[k as int]@);
            }
            k += 1;
        }
        proof {
            if k < n {
                assert(before.cache[k as int] == self.cache@[k as int]@);
            }
            lemma_slot_found(before.cache, p@.dimension, k as int);
            assert(!holds(before.cache, p@));
        }
        self.cache.insert(k, p);
        proof {
            assert(self@.cache =~= goal.cache);
            assert(self@.queue =~= goal.queue);
            assert forall|j: int| 0 <= j < self.cache@.len() implies (#[trigger] self.cache@[j]).held(g) by {
                if j < k {
                    assert(self.cache@[j] == old(self).cache@[j]);
                } else if j > k {
                    assert(self.cache@[j] == old(self).cache@[j - 1]);
                }
            }
        }
    }

    /// Flush the cache into the queue, ready to start processing the new
    /// polyominoes with a new square, and add the number of polyominoes to
    /// the counts. The queue has to be empty.
    ///
    /// If the last polyomino of the queue has been taken but not yet grown
    /// and registered when the cache is flushed, the count is wrong.
    pub fn flush(&mut self)
        requires
            old(self).wf(),
            old(self)@.queue.len() == 0,
        ensures
            final(self).wf(),
            old(self).grown() ==> final(self).grown(),
            final(self)@ == old(self)@.after_flush(),
    {
        let ghost g = old(self).grown();
        let ghost before = self@;
        let ghost cached = self.cache@;
        let mut cache: Vec<Polyomino<T>> = Vec::new();
        std::mem::swap(&mut self.cache, &mut cache);
        let total = cache.len();
        while cache.len() > 0
            invariant
                cache@.len() <= total,
                total == cached.len(),
                cache@ == cached.subrange(0, cache@.len() as int),
                self.queue@.len() == total - cache@.len(),
                forall|i: int|
                    0 <= i < self.queue@.len() ==> (#[trigger] self.queue@[i]).held(g)
                        && self.queue@[i]@ == cached[cache@.len() + i]@,
                forall|i: int| 0 <= i < cached.len() ==> (#[trigger] cached[i]).held(g),
                self.cache@.len() == 0,
                self.counts == old(self).counts,
                self.stats == old(self).stats,
            decreases cache@.len(),
        {
            let ghost queued = self.queue@;
            let ghost left = cache@.len() - 1;
            let e = cache.pop().unwrap();
            proof {
                assert(e == cached[left]);
                e.repr.lemma_wf();
            }
            let Polyomino { square_count: _, dimension, repr, mask } = e;
            let p = Polyomino::from(dimension, repr, mask);
            self.queue.push_front(p);
            proof {
                assert(p@ == cached[left]@);
                assert forall|i: int| 0 <= i < self.queue@.len() implies (
                #[trigger] self.queue@[i]).held(g) && self.queue@[i]@ == cached[left + i]@ by {
                    if i > 0 {
                        assert(self.queue@[i] == queued[i - 1]);
                    }
                }
            }
        }
        self.counts.push(self.queue.len() as u128);
        self.stats.push(0);
        proof {
            let goal = before.after_flush();
            assert(self@.queue =~= goal.queue);
            assert(self@.cache =~= goal.cache);
            assert(self@.counts =~= goal.counts);
            assert(self@.stats =~= goal.stats);
            assert forall|i: int| 0 <= i < self@.queue.len() implies (#[trigger] self@.queue[i]).sound() by {
                assert(self.queue@[i].held(g));
            }
        }
    }

    /// The number of polyominoes with `n` squares, or nothing if the count
    /// is not known yet. There are no polyominoes with zero squares.
    pub fn count(&self, n: usize) -> (res: Option<&u128>)
        requires
            n > 0,
        ensures
            n <= self@.counts.len() ==> res == Some(&self@.counts[n - 1]),
            n > self@.counts.len() ==> res is None,
    {
        if n - 1 < self.counts.len() {
            Some(&self.counts[n - 1])
        } else {
            None
        }
    }

    /// All counts, the one for a single square first.
    pub fn counts(&self) -> (res: &[u128])
        ensures
            res@ == self@.counts,
    {
        self.counts.as_slice()
    }

    /// How often a polyomino was registered, by square amount.
    pub fn stats(&self) -> (res: &[u128])
        ensures
            res@ == self@.stats,
    {
        self.stats.as_slice()
    }
}

} // verus!
