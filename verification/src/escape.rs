//! The escape-time iteration: how many steps a point takes to leave a
//! bounded region. The points and the arithmetic on them belong to the
//! caller; the counting and the stopping rule are fixed here.

use vstd::prelude::*;

verus! {

/// `path` is a run of the iteration for the parameter `c`: it starts at
/// `origin`, and each further point is one that `square_add` may answer for
/// the point before it and `c`.
pub open spec fn is_orbit<P, S: Fn(&P, &P) -> P>(
    path: Seq<P>,
    c: P,
    origin: P,
    square_add: S,
) -> bool {
    &&& path.len() > 0
    &&& path[0] == origin
    &&& forall|k: int|
        0 <= k < path.len() - 1 ==> #[trigger] square_add.ensures((&path[k], &c), path[k + 1])
}

/// `escaped` and `square_add` may be called on every point that a run of
/// the iteration for `c` can reach.
pub open spec fn callable_along<P, E: Fn(&P) -> bool, S: Fn(&P, &P) -> P>(
    c: P,
    origin: P,
    escaped: E,
    square_add: S,
) -> bool {
    forall|path: Seq<P>| #[trigger]
        is_orbit(path, c, origin, square_add) ==> escaped.requires((&path.last(),))
            && square_add.requires((&path.last(), &c))
}

/// `escaped` may have answered "not yet" for each of the first `n` points
/// of `path`.
pub open spec fn stays_for<P, E: Fn(&P) -> bool>(path: Seq<P>, n: int, escaped: E) -> bool {
    forall|k: int| 0 <= k < n ==> #[trigger] escaped.ensures((&path[k],), false)
}

/// The iteration for `c` has a run in which the point reached after `i`
/// steps is the first that has escaped.
pub open spec fn escapes_at<P, E: Fn(&P) -> bool, S: Fn(&P, &P) -> P>(
    c: P,
    origin: P,
    escaped: E,
    square_add: S,
    i: int,
) -> bool {
    exists|path: Seq<P>|
        {
            &&& path.len() == i + 1
            &&& #[trigger] is_orbit(path, c, origin, square_add)
            &&& stays_for(path, i, escaped)
            &&& escaped.ensures((&path[i],), true)
        }
}

/// The iteration for `c` has a run of `limit` steps in which no point
/// before the last has escaped.
pub open spec fn stays_through<P, E: Fn(&P) -> bool, S: Fn(&P, &P) -> P>(
    c: P,
    origin: P,
    escaped: E,
    square_add: S,
    limit: int,
) -> bool {
    exists|path: Seq<P>|
        {
            &&& path.len() == limit + 1
            &&& #[trigger] is_orbit(path, c, origin, square_add)
            &&& stays_for(path, limit, escaped)
        }
}

/// Iterates `z = square_add(z, c)` from `z = origin`, at most `limit`
/// times, testing `z` before each step. Returns `Some(i)` where the point
/// reached after `i` steps is the first for which `escaped` holds, and
/// `None` where none of the `limit` points tested has escaped, so that `c`
/// is taken to stay inside for ever.
pub fn escape_time<P, E: Fn(&P) -> bool, S: Fn(&P, &P) -> P>(
    c: P,
    limit: usize,
    origin: P,
    escaped: E,
    square_add: S,
) -> (r: Option<usize>)
    requires
        callable_along(c, origin, escaped, square_add),
    ensures
        match r {
            Some(i) => i < limit && escapes_at(c, origin, escaped, square_add, i as int),
            None => stays_through(c, origin, escaped, square_add, limit as int),
        },
{
    let mut z = origin;
    let ghost mut path: Seq<P> = seq![origin];
    let mut i: usize = 0;
    while i < limit
        invariant
            i <= limit,
            callable_along(c, origin, escaped, square_add),
            path.len() == i + 1,
            is_orbit(path, c, origin, square_add),
            stays_for(path, i as int, escaped),
            path[i as int] == z,
        decreases limit - i,
    {
        if escaped(&z) {
            return Some(i);
        }
        let next = square_add(&z, &c);
        proof {
            let longer = path.push(next);
            assert forall|k: int| 0 <= k < longer.len() - 1 implies #[trigger] square_add.ensures(
                (&longer[k], &c),
                longer[k + 1],
            ) by {
                if k < i {
                    assert(square_add.ensures((&path[k], &c), path[k + 1]));
                }
            }
            assert forall|k: int| 0 <= k < i + 1 implies #[trigger] escaped.ensures(
                (&longer[k],),
                false,
            ) by {
                if k < i {
                    assert(escaped.ensures((&path[k],), false));
                }
            }
            path = longer;
        }
        z = next;
        i = i + 1;
    }
    None
}

/// Number of steps that `complex_square_add_loop` takes.
pub const ROUNDS: usize = 10;

/// The point that the iteration for `c` reaches from `origin` after
/// `ROUNDS` steps of `square_add`, with no test on the way.
pub fn complex_square_add_loop<P, S: Fn(&P, &P) -> P>(c: P, origin: P, square_add: S) -> (z: P)
    requires
        forall|path: Seq<P>| #[trigger]
            is_orbit(path, c, origin, square_add) ==> square_add.requires((&path.last(), &c)),
    ensures
        exists|path: Seq<P>|
            {
                &&& path.len() == ROUNDS + 1
                &&& #[trigger] is_orbit(path, c, origin, square_add)
                &&& path[ROUNDS as int] == z
            },
{
    let mut z = origin;
    let ghost mut path: Seq<P> = seq![origin];
    let mut i: usize = 0;
    while i < ROUNDS
        invariant
            i <= ROUNDS,
            forall|path: Seq<P>| #[trigger]
                is_orbit(path, c, origin, square_add) ==> square_add.requires((&path.last(), &c)),
            path.len() == i + 1,
            is_orbit(path, c, origin, square_add),
            path[i as int] == z,
        decreases ROUNDS - i,
    {
        let next = square_add(&z, &c);
        proof {
            let longer = path.push(next);
            assert forall|k: int| 0 <= k < longer.len() - 1 implies #[trigger] square_add.ensures(
                (&longer[k], &c),
                longer[k + 1],
            ) by {
                if k < i {
                    assert(square_add.ensures((&path[k], &c), path[k + 1]));
                }
            }
            path = longer;
        }
        z = next;
        i = i + 1;
    }
    z
}

/// A point that the step leaves where it is, and that has not escaped,
/// never escapes: where `square_add` answers `origin` for `origin` and `c`
/// and `escaped` denies `origin`, the iteration for `c` escapes at no step.
pub proof fn lemma_fixed_origin_never_escapes<P, E: Fn(&P) -> bool, S: Fn(&P, &P) -> P>(
    c: P,
    origin: P,
    escaped: E,
    square_add: S,
    i: int,
)
    requires
        forall|z: P| #[trigger] square_add.ensures((&origin, &c), z) ==> z == origin,
        !escaped.ensures((&origin,), true),
    ensures
        !escapes_at(c, origin, escaped, square_add, i),
{
    if escapes_at(c, origin, escaped, square_add, i) {
        let path = choose|path: Seq<P>|
            {
                &&& path.len() == i + 1
                &&& #[trigger] is_orbit(path, c, origin, square_add)
                &&& stays_for(path, i, escaped)
                &&& escaped.ensures((&path[i],), true)
            };
        lemma_orbit_of_fixed_origin(path, c, origin, square_add, i);
    }
}

/// Every point of a run from a point that the step leaves where it is, is
/// that point.
proof fn lemma_orbit_of_fixed_origin<P, S: Fn(&P, &P) -> P>(
    path: Seq<P>,
    c: P,
    origin: P,
    square_add: S,
    k: int,
)
    requires
        is_orbit(path, c, origin, square_add),
        forall|z: P| #[trigger] square_add.ensures((&origin, &c), z) ==> z == origin,
        0 <= k < path.len(),
    ensures
        path[k] == origin,
    decreases k,
{
    if k > 0 {
        lemma_orbit_of_fixed_origin(path, c, origin, square_add, k - 1);
        assert(square_add.ensures((&path[k - 1], &c), path[k - 1 + 1]));
    }
}

} // verus!
