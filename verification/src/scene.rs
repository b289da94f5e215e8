//! The scene as an ordered list of objects, and its nearest-hit query.
//!
//! The query is a linear scan with a shrinking upper bound: each object is
//! asked for a hit inside `(t_min, closest)`, where `closest` starts at
//! `t_max` and drops to the parameter of every hit that is found. What is
//! left at the end is the hit nearest to the ray's origin.
use vstd::prelude::*;
use crate::scalar::Scalar;
use crate::sphere::{Root, Roots};

verus! {

/// Where a ray strikes the scene.
#[derive(Clone, Copy, Debug, PartialEq, Eq, Structural)]
pub struct Hit {
    /// Index of the struck object in the scene.
    pub object: usize,
    /// Which solution of that object's quadratic was accepted.
    pub root: Root,
    /// The ray parameter there.
    pub t: Scalar,
}

/// The upper bound that the scan applies after `best` was found.
pub open spec fn closest(best: Option<Hit>, t_max: Scalar) -> Scalar {
    match best {
        Some(hit) => hit.t,
        None => t_max,
    }
}

/// The running best after the first `n` objects were scanned.
pub open spec fn scanned(roots: Seq<Roots>, t_min: Scalar, t_max: Scalar, n: int) -> Option<Hit>
    decreases n,
{
    if n <= 0 {
        None
    } else {
        let before = scanned(roots, t_min, t_max, n - 1);
        match roots[n - 1].accepted(t_min, closest(before, t_max)) {
            Some(root) => Some(
                Hit { object: (n - 1) as usize, root, t: roots[n - 1].parameter(root) },
            ),
            None => before,
        }
    }
}

/// The nearest hit of a ray whose quadratics gave `roots`, one entry per
/// object in scene order, within the open range `(t_min, t_max)`.
pub open spec fn nearest(roots: Seq<Roots>, t_min: Scalar, t_max: Scalar) -> Option<Hit> {
    scanned(roots, t_min, t_max, roots.len() as int)
}

/// Whether `hit` names an object of the scene and a solution of that
/// object's quadratic that lies inside `(t_min, t_max)`.
pub open spec fn is_hit_of(roots: Seq<Roots>, t_min: Scalar, t_max: Scalar, hit: Hit) -> bool {
    &&& 0 <= hit.object < roots.len()
    &&& roots[hit.object as int].discriminant.positive()
    &&& hit.t == roots[hit.object as int].parameter(hit.root)
    &&& hit.t.inside(t_min, t_max)
}

/// What the scan holds is a hit of one of the objects it has passed.
proof fn lemma_scanned_is_a_hit(roots: Seq<Roots>, t_min: Scalar, t_max: Scalar, n: int)
    requires
        0 <= n <= roots.len(),
        roots.len() <= usize::MAX,
    ensures
        scanned(roots, t_min, t_max, n) matches Some(hit) ==> hit.object < n && is_hit_of(
            roots,
            t_min,
            t_max,
            hit,
        ),
    decreases n,
{
    if n > 0 {
        lemma_scanned_is_a_hit(roots, t_min, t_max, n - 1);
    }
}

/// Whatever the solutions are, a hit that the query gives names an object
/// of the scene and lies inside the range at one of that object's two
/// solutions.
pub proof fn lemma_nearest_is_a_hit(roots: Seq<Roots>, t_min: Scalar, t_max: Scalar)
    requires
        roots.len() <= usize::MAX,
    ensures
        nearest(roots, t_min, t_max) matches Some(hit) ==> is_hit_of(roots, t_min, t_max, hit),
{
    lemma_scanned_is_a_hit(roots, t_min, t_max, roots.len() as int);
}

/// Whether object `j` of the scene is hit inside `(t_min, t_max)` at `t`.
pub open spec fn hit_at(roots: Seq<Roots>, t_min: Scalar, t_max: Scalar, j: int, t: Scalar) -> bool {
    roots[j].accepted(t_min, t_max) matches Some(root) && roots[j].parameter(root) == t
}

/// Whether `best` is the nearest hit among the first `n` objects: it is
/// the hit of the object it names, no object is hit nearer, and every
/// object before it is hit strictly farther; or there is no hit at all.
pub open spec fn is_nearest_of(
    roots: Seq<Roots>,
    t_min: Scalar,
    t_max: Scalar,
    n: int,
    best: Option<Hit>,
) -> bool {
    match best {
        Some(hit) => {
            &&& 0 <= hit.object < n
            &&& roots[hit.object as int].accepted(t_min, t_max) == Some(hit.root)
            &&& hit.t == roots[hit.object as int].parameter(hit.root)
            &&& hit.t.inside(t_min, t_max)
            &&& forall|j: int, t: Scalar|
                0 <= j < n && #[trigger] hit_at(roots, t_min, t_max, j, t) ==> !t.below(hit.t)
            &&& forall|j: int, t: Scalar|
                0 <= j < hit.object && #[trigger] hit_at(roots, t_min, t_max, j, t)
                    ==> hit.t.below(t)
        },
        None => forall|j: int| 0 <= j < n ==> (#[trigger] roots[j]).accepted(t_min, t_max) is None,
    }
}

/// The scan keeps the nearest hit of the objects it has passed.
proof fn lemma_scanned_is_nearest(roots: Seq<Roots>, t_min: Scalar, t_max: Scalar, n: int)
    requires
        0 <= n <= roots.len(),
        roots.len() <= usize::MAX,
        forall|j: int| 0 <= j < roots.len() ==> !(#[trigger] roots[j]).far.below(roots[j].near),
    ensures
        is_nearest_of(roots, t_min, t_max, n, scanned(roots, t_min, t_max, n)),
    decreases n,
{
    if n > 0 {
        lemma_scanned_is_nearest(roots, t_min, t_max, n - 1);
        let before = scanned(roots, t_min, t_max, n - 1);
        let bound = closest(before, t_max);
        let entry = roots[n - 1];
        let after = scanned(roots, t_min, t_max, n);
        assert(!entry.far.below(entry.near));
        match entry.accepted(t_min, bound) {
            Some(root) => {
                let hit = after->Some_0;
                assert(hit.object == n - 1);
                assert(hit.t.inside(t_min, bound));
                assert(hit.t.inside(t_min, t_max));
                assert(entry.accepted(t_min, t_max) == Some(root));
                assert forall|j: int, t: Scalar|
                    0 <= j < n && #[trigger] hit_at(roots, t_min, t_max, j, t) implies !t.below(
                    hit.t,
                ) by {
                    if j < n - 1 {
                        assert(before is Some);
                    }
                }
                assert forall|j: int, t: Scalar|
                    0 <= j < hit.object && #[trigger] hit_at(
                        roots,
                        t_min,
                        t_max,
                        j,
                        t,
                    ) implies hit.t.below(t) by {
                    assert(before is Some);
                    assert(!t.below(bound));
                }
            },
            None => {
                match before {
                    Some(hit) => {
                        assert forall|j: int, t: Scalar|
                            0 <= j < n && #[trigger] hit_at(
                                roots,
                                t_min,
                                t_max,
                                j,
                                t,
                            ) implies !t.below(hit.t) by {
                            if j == n - 1 {
                                assert(!t.inside(t_min, bound));
                            }
                        }
                    },
                    None => {
                        assert(bound == t_max);
                    },
                }
            },
        }
    }
}

/// The nearest-hit query returns the hit nearest to the ray's origin, never
/// a farther one. Where each object's near solution is not beyond its far
/// one, the hit that the query gives is the hit of the object it names, no
/// object of the scene is hit at a smaller parameter, and every object
/// before it in the scene is hit at a strictly greater one; the query gives
/// no hit only where no object is hit.
pub proof fn lemma_nearest_is_least(roots: Seq<Roots>, t_min: Scalar, t_max: Scalar)
    requires
        roots.len() <= usize::MAX,
        forall|j: int| 0 <= j < roots.len() ==> !(#[trigger] roots[j]).far.below(roots[j].near),
    ensures
        is_nearest_of(roots, t_min, t_max, roots.len() as int, nearest(roots, t_min, t_max)),
{
    lemma_scanned_is_nearest(roots, t_min, t_max, roots.len() as int);
}

/// Scans the objects' quadratics for the nearest hit inside `(t_min, t_max)`.
pub fn nearest_hit(roots: &Vec<Roots>, t_min: Scalar, t_max: Scalar) -> (hit: Option<Hit>)
    ensures
        hit == nearest(roots@, t_min, t_max),
        hit matches Some(h) ==> is_hit_of(roots@, t_min, t_max, h),
        (forall|j: int| 0 <= j < roots.len() ==> !(#[trigger] roots[j]).far.below(roots[j].near))
            ==> is_nearest_of(roots@, t_min, t_max, roots.len() as int, hit),
{
    proof {
        lemma_nearest_is_a_hit(roots@, t_min, t_max);
        if forall|j: int| 0 <= j < roots.len() ==> !(#[trigger] roots[j]).far.below(roots[j].near) {
            lemma_nearest_is_least(roots@, t_min, t_max);
        }
    }
    let mut best: Option<Hit> = None;
    let mut bound = t_max;
    let mut i: usize = 0;
    while i < roots.len()
        invariant
            i <= roots.len(),
            best == scanned(roots@, t_min, t_max, i as int),
            bound == closest(best, t_max),
        decreases roots.len() - i,
    {
        let entry = &roots[i];
        match entry.select(t_min, bound) {
            Some(root) => {
                let t = entry.at(root);
                best = Some(Hit { object: i, root, t });
                bound = t;
            },
            None => {},
        }
        i += 1;
    }
    best
}

/// An ordered collection of scene objects.
#[derive(Clone)]
pub struct HittableList<T> {
    pub hittable: Vec<T>,
}

impl<T> View for HittableList<T> {
    type V = Seq<T>;

    /// The objects, in scene order.
    open spec fn view(&self) -> Seq<T> {
        self.hittable@
    }
}

impl<T> HittableList<T> {
    /// A scene of the given objects, in the given order.
    pub fn new(hittable: Vec<T>) -> (list: HittableList<T>)
        ensures
            list.hittable == hittable,
            list@ == hittable@,
    {
        HittableList { hittable }
    }

    /// The nearest hit of one ray inside `(t_min, t_max)`. `solve` is asked
    /// once per object, in scene order, for that object's quadratic.
    pub fn intersect<F: Fn(&T) -> Roots>(&self, t_min: Scalar, t_max: Scalar, solve: F) -> (hit:
        Option<Hit>)
        requires
            forall|i: int| 0 <= i < self@.len() ==> call_requires(solve, (&#[trigger] self@[i],)),
        ensures
            exists|roots: Seq<Roots>|
                {
                    &&& roots.len() == self@.len()
                    &&& forall|i: int|
                        0 <= i < roots.len() ==> call_ensures(
                            solve,
                            (&self@[i],),
                            #[trigger] roots[i],
                        )
                    &&& hit == nearest(roots, t_min, t_max)
                },
            hit matches Some(h) ==> h.object < self@.len(),
    {
        let mut roots: Vec<Roots> = Vec::new();
        let mut i: usize = 0;
        while i < self.hittable.len()
            invariant
                i <= self.hittable.len(),
                roots.len() == i,
                forall|k: int|
                    0 <= k < self@.len() ==> call_requires(solve, (&#[trigger] self@[k],)),
                forall|k: int| 0 <= k < i ==> call_ensures(solve, (&self@[k],), #[trigger] roots[k]),
            decreases self.hittable.len() - i,
        {
            assert(self@[i as int] == self.hittable[i as int]);
            let entry = solve(&self.hittable[i]);
            roots.push(entry);
            i += 1;
        }
        let hit = nearest_hit(&roots, t_min, t_max);
        proof {
            let witness = roots@;
            assert(witness.len() == self.hittable.len());
            assert(hit == nearest(witness, t_min, t_max));
        }
        hit
    }
}

} // verus!
