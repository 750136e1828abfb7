//! The scene, an unordered collection of surfaces, and the choice of the
//! nearest hit: between the two points at which a ray's line crosses a
//! sphere, and among the surfaces of a scene.
//!
//! A ray meets each surface at some distance or not at all. The scene answers
//! with the surface whose hit is nearest; of several at the same distance, the
//! one that was added first. Distances are compared as keys: integers that
//! grow with the distance they stand for.

use vstd::prelude::*;

verus! {

/// A collection of surfaces that a ray can hit. What a surface is, is for the
/// caller to say.
///
/// The view of a scene is its surfaces in the order in which they were added.
pub struct Hittables<T> {
    objects: Vec<T>,
}

impl<T> View for Hittables<T> {
    type V = Seq<T>;

    closed spec fn view(&self) -> Seq<T> {
        self.objects@
    }
}

impl<T> Hittables<T> {
    /// A scene without surfaces.
    pub fn new() -> (scene: Self)
        ensures
            scene@ == Seq::<T>::empty(),
    {
        Self { objects: Vec::new() }
    }

    /// Adds a surface to the scene, behind those that it holds.
    pub fn add(&mut self, object: T)
        ensures
            final(self)@ == old(self)@.push(object),
    {
        self.objects.push(object);
    }

    /// Removes every surface from the scene.
    pub fn clear(&mut self)
        ensures
            final(self)@ == Seq::<T>::empty(),
    {
        self.objects.clear();
    }

    /// The number of surfaces in the scene.
    pub fn len(&self) -> (count: usize)
        ensures
            count == self@.len(),
    {
        self.objects.len()
    }

    /// The surface that was added as the `index`-th, counting from zero.
    pub fn get(&self, index: usize) -> (object: &T)
        requires
            index < self@.len(),
        ensures
            *object == self@[index as int],
    {
        &self.objects[index]
    }
}

/// Defaults to a scene without surfaces.
impl<T> Default for Hittables<T> {
    fn default() -> (scene: Self)
        ensures
            scene@ == Seq::<T>::empty(),
    {
        Self::new()
    }
}

/// One of the two points at which the line of a ray crosses a sphere.
#[derive(Clone, Copy, Debug, PartialEq, Eq, Structural)]
pub enum Root {
    /// The crossing with the smaller ray parameter.
    Near,
    /// The crossing with the larger ray parameter.
    Far,
}

/// The crossing that counts as the hit, given for each of the two whether it
/// lies strictly inside the valid range of the ray parameter: the near one if
/// it does, else the far one if that does, else none.
pub open spec fn preferred_root(near_inside: bool, far_inside: bool) -> Option<Root> {
    if near_inside {
        Some(Root::Near)
    } else if far_inside {
        Some(Root::Far)
    } else {
        None
    }
}

/// Picks the crossing that counts as the hit.
pub fn choose_root(near_inside: bool, far_inside: bool) -> (root: Option<Root>)
    ensures
        root == preferred_root(near_inside, far_inside),
{
    if near_inside {
        Some(Root::Near)
    } else if far_inside {
        Some(Root::Far)
    } else {
        None
    }
}

/// Whether the surface at `index` is the scene's answer: the ray hits it, no
/// surface is hit nearer, and every earlier surface that is hit is hit
/// strictly farther away.
pub open spec fn is_nearest(distances: Seq<Option<u64>>, index: int) -> bool {
    &&& 0 <= index < distances.len()
    &&& distances[index] is Some
    &&& forall|i: int|
        0 <= i < distances.len() && distances[i] is Some ==> distances[index]->0
            <= (#[trigger] distances[i])->0
    &&& forall|i: int|
        0 <= i < index && distances[i] is Some ==> distances[index]->0
            < (#[trigger] distances[i])->0
}

/// Whether the ray misses every surface.
pub open spec fn all_missed(distances: Seq<Option<u64>>) -> bool {
    forall|i: int| 0 <= i < distances.len() ==> (#[trigger] distances[i]) is None
}

/// Picks the nearest hit. `distances` holds, for each surface in the order in
/// which the scene holds them, the key of the distance at which the ray hits
/// it, or `None` where the ray misses it. The answer is the index of the
/// surface with the smallest key, the first of them where several share it,
/// or `None` where the ray misses them all.
pub fn nearest(distances: &Vec<Option<u64>>) -> (found: Option<usize>)
    ensures
        match found {
            Some(index) => is_nearest(distances@, index as int),
            None => all_missed(distances@),
        },
{
    let mut current: Option<(usize, u64)> = None;
    let mut at: usize = 0;
    while at < distances.len()
        invariant
            at <= distances@.len(),
            match current {
                Some((index, key)) => {
                    &&& index < at
                    &&& distances@[index as int] == Some(key)
                    &&& is_nearest(distances@.take(at as int), index as int)
                },
                None => all_missed(distances@.take(at as int)),
            },
        decreases distances@.len() - at,
    {
        if let Some(key) = distances[at] {
            current =
            match current {
                None => Some((at, key)),
                Some((index, best)) => {
                    if best > key {
                        Some((at, key))
                    } else {
                        Some((index, best))
                    }
                },
            };
        }
        at += 1;
    }
    assert(distances@.take(at as int) =~= distances@);
    match current {
        Some((index, _)) => Some(index),
        None => None,
    }
}

/// A scene has at most one answer: two surfaces that both qualify as the
/// nearest hit are the same surface.
pub proof fn lemma_nearest_is_unique(distances: Seq<Option<u64>>, first: int, second: int)
    requires
        is_nearest(distances, first),
        is_nearest(distances, second),
    ensures
        first == second,
{
}

/// A scene has an answer exactly when the ray hits one of its surfaces.
pub proof fn lemma_nearest_exists_iff_hit(distances: Seq<Option<u64>>)
    ensures
        (exists|index: int| is_nearest(distances, index)) <==> !all_missed(distances),
    decreases distances.len(),
{
    if !all_missed(distances) {
        let front = distances.drop_last();
        let last = distances.len() - 1;
        assert(forall|i: int| 0 <= i < last ==> front[i] == distances[i]);
        if all_missed(front) {
            assert(is_nearest(distances, last));
        } else {
            lemma_nearest_exists_iff_hit(front);
            let best = choose|index: int| is_nearest(front, index);
            if distances[last] is Some && distances[last]->0 < front[best]->0 {
                assert(is_nearest(distances, last));
            } else {
                assert(is_nearest(distances, best));
            }
        }
    }
}

} // verus!
