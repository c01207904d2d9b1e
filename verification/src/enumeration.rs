//! The enumeration itself: every polyomino of the queue is grown, its
//! children are brought to their canonical rotation and registered, and once
//! the queue is empty the cache is flushed into it for the next size.

use vstd::prelude::*;
use crate::database::{Database, DatabaseView};
use crate::grid::Grid;
use crate::polyomino::{decline, smallest_rotation, Polyomino};
use crate::shape::{canonical_rotation, children_of, turned, Shape};

verus! {

/// The polyomino `v` in its canonical rotation.
pub open spec fn canonical(v: Shape) -> Shape {
    turned(v, canonical_rotation(v.repr, v.dimension.0, v.dimension.1))
}

/// The database after the canonical forms of the first `n` of `shapes` have
/// been registered, one after the other.
pub open spec fn registered_all(db: DatabaseView, shapes: Seq<Shape>, n: int) -> DatabaseView
    decreases n,
{
    if n <= 0 {
        db
    } else {
        registered_all(db, shapes, n - 1).after_register(canonical(shapes[n - 1]))
    }
}

/// The database after the polyomino `p` has been grown and all its children
/// have been registered.
pub open spec fn expanded(db: DatabaseView, p: Shape) -> DatabaseView {
    registered_all(db, children_of(p), children_of(p).len() as int)
}

/// Whether the enumeration is at a point from which it goes on: a
/// polyomino waits to be grown, or the cache waits to be flushed.
pub open spec fn unfinished(db: DatabaseView, sizes: int) -> bool {
    db.counts.len() < sizes
}

/// The database once the polyominoes of the first `sizes` sizes have been
/// counted, starting from `db`: as long as sizes are missing, the front of
/// the queue is grown, or the cache is flushed where the queue is empty.
pub open spec fn counted(db: DatabaseView, sizes: int) -> DatabaseView
    decreases sizes - db.counts.len(), db.queue.len(),
{
    if !unfinished(db, sizes) {
        db
    } else if db.queue.len() == 0 {
        counted(db.after_flush(), sizes)
    } else {
        proof {
            lemma_registered_frame(
                db.after_pop(),
                children_of(db.queue[0]),
                children_of(db.queue[0]).len() as int,
            );
        }
        counted(expanded(db.after_pop(), db.queue[0]), sizes)
    }
}

/// Registering leaves the counts and the queue as they are.
pub proof fn lemma_registered_frame(db: DatabaseView, shapes: Seq<Shape>, n: int)
    ensures
        registered_all(db, shapes, n).counts == db.counts,
        registered_all(db, shapes, n).queue == db.queue,
    decreases n,
{
    if n > 0 {
        lemma_registered_frame(db, shapes, n - 1);
    }
}

/// Registering keeps the counts and the queue as they are, and counts one
/// attempt.
pub proof fn lemma_registered_all(db: DatabaseView, shapes: Seq<Shape>, n: int)
    requires
        db.stats.len() > 0,
        0 <= n,
        db.stats[db.stats.len() - 1] + n <= u128::MAX,
    ensures
        registered_all(db, shapes, n).counts == db.counts,
        registered_all(db, shapes, n).queue == db.queue,
        registered_all(db, shapes, n).stats == db.stats.update(
            db.stats.len() - 1,
            (db.stats[db.stats.len() - 1] + n) as u128,
        ),
    decreases n,
{
    if n > 0 {
        lemma_registered_all(db, shapes, n - 1);
    }
    assert(registered_all(db, shapes, n).stats =~= db.stats.update(
        db.stats.len() - 1,
        (db.stats[db.stats.len() - 1] + n) as u128,
    ));
}

/// Whether the polyomino `p` can be grown on the grid `T`: there is room
/// for one more square, in number and on every side.
pub fn can_grow<T>(p: &Polyomino<T>) -> (b: bool) where T: Grid
    ensures
        b == (p.square_count < u8::MAX && p.dimension.0 + 1 < T::limit() && p.dimension.1 + 1
            < T::limit()),
{
    p.square_count < u8::MAX && (p.dimension.0 as usize) + 1 < T::capacity() && (
    p.dimension.1 as usize) + 1 < T::capacity()
}

/// Grow the polyomino `p` and register each of its children in its
/// canonical rotation.
pub fn expand<T>(db: &mut Database<T>, p: &Polyomino<T>) where T: Grid
    requires
        old(db).wf(),
        old(db).grown(),
        p.wf(),
        p.square_count < u8::MAX,
        p.dimension.0 + 1 < T::limit(),
        p.dimension.1 + 1 < T::limit(),
        old(db)@.stats[old(db)@.stats.len() - 1] + p@.mask.len() <= u128::MAX,
    ensures
        final(db).wf(),
        final(db).grown(),
        final(db)@ == expanded(old(db)@, p@),
{
    let ghost shapes = children_of(p@);
    let ghost start = db@;
    let declinaison = decline(p);
    proof {
        db.lemma_view();
    }
    for child in iter: declinaison
        invariant
            iter.seq().len() == shapes.len(),
            forall|i: int|
                0 <= i < shapes.len() ==> (#[trigger] iter.seq()[i]).wf() && iter.seq()[i]@
                    == shapes[i],
            db.wf(),
            db.grown(),
            start.stats.len() > 0,
            start.stats[start.stats.len() - 1] + shapes.len() <= u128::MAX,
            db@ == registered_all(start, shapes, iter.index() as int),
    {
        proof {
            lemma_registered_all(start, shapes, iter.index() as int);
        }
        let (smallest, _) = smallest_rotation(child);
        db.register(smallest);
    }
}

/// Whether the enumeration can take its next step from `db` on the grid
/// `T`: the front of the queue, if there is one, has room to grow, and its
/// children can be counted.
pub open spec fn can_step<T: Grid>(db: DatabaseView) -> bool {
    db.queue.len() > 0 ==> {
        let p = db.queue[0];
        &&& p.square_count < u8::MAX
        &&& p.dimension.0 + 1 < T::limit()
        &&& p.dimension.1 + 1 < T::limit()
        &&& db.stats[db.stats.len() - 1] + p.mask.len() <= u128::MAX
    }
}

/// Count the polyominoes of the first `sizes` sizes.
///
/// The enumeration stops early, and says so, before a polyomino that has
/// outgrown the grid or where a counter is full. The database is then as the
/// enumeration has left it, with that polyomino at the front of the queue.
pub fn enumerate<T>(sizes: usize) -> (res: (Database<T>, bool)) where T: Grid
    ensures
        res.0.wf(),
        res.0.grown(),
        counted(res.0@, sizes as int) == counted(Database::<T>::initial(), sizes as int),
        res.1 <==> res.0@.counts.len() >= sizes,
        res.1 ==> res.0@ == counted(Database::<T>::initial(), sizes as int),
        !res.1 ==> !can_step::<T>(res.0@),
{
    let mut db = Database::<T>::new();
    loop
        invariant
            db.wf(),
            db.grown(),
            counted(db@, sizes as int) == counted(Database::<T>::initial(), sizes as int),
        ensures
            db@.counts.len() >= sizes,
        decreases sizes - db@.counts.len(), db@.queue.len(),
    {
        proof {
            db.lemma_view();
        }
        if db.counts().len() >= sizes {
            break ;
        }
        let ghost before = db@;
        let ready = match db.front() {
            None => true,
            Some(p) => {
                proof {
                    p.mask.lemma_wf();
                }
                let frontier = p.mask.count();
                let attempts = db.stats()[db.stats().len() - 1];
                can_grow(p) && attempts <= u128::MAX - frontier as u128
            },
        };
        if !ready {
            return (db, false);
        }
        match db.pop() {
            None => {
                db.flush();
            },
            Some(p) => {
                expand(&mut db, &p);
                proof {
                    lemma_registered_all(
                        before.after_pop(),
                        children_of(p@),
                        children_of(p@).len() as int,
                    );
                }
            },
        }
    }
    (db, true)
}

} // verus!
