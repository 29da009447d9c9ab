use vstd::prelude::*;

verus! {

/// A rectangle of the screen: its upper left corner, and how wide and how high it is, in
/// pixels.
#[derive(Debug, Clone, Copy, PartialEq, Eq, Structural)]
pub struct Rect {
    pub x: i32,
    pub y: i32,
    pub width: u32,
    pub height: u32,
}

/// The part of a screen `width` wide and `height` high that the ground is painted on: a
/// rectangle as large as the screen that starts at the horizon, or at the upper edge where
/// the horizon lies above it.
pub fn ground_rect(horizon: i32, width: u32, height: u32) -> (rect: Rect)
    ensures
        rect == (Rect { x: 0, y: if horizon >= 0 { horizon } else { 0 }, width, height }),
{
    let y = if horizon >= 0 {
        horizon
    } else {
        0
    };
    Rect { x: 0, y, width, height }
}

/// The slice of wall to paint in the screen column `column`: one pixel wide, reaching
/// `pixel_height` pixels up and as many down from the horizon. There is none where
/// `pixel_height` is negative or the upper end of the slice is no screen coordinate.
pub fn wall_slice(column: i32, pixel_height: i32, horizon: i32) -> (slice: Option<Rect>)
    ensures
        slice is Some <==> 0 <= pixel_height && i32::MIN <= horizon - pixel_height,
        slice matches Some(rect) ==> rect == (Rect {
            x: column,
            y: (horizon - pixel_height) as i32,
            width: 1,
            height: (2 * pixel_height) as u32,
        }),
{
    if pixel_height < 0 {
        return None;
    }
    match horizon.checked_sub(pixel_height) {
        Some(y) => {
            let half = pixel_height as u32;
            Some(Rect { x: column, y, width: 1, height: 2 * half })
        },
        None => None,
    }
}

/// Whether the wall at place `i` is the one that a ray meets first: it is hit, no wall is hit
/// nearer, and of the walls hit as near it is the first. A wall that the ray misses has no
/// distance.
pub open spec fn is_nearest(distances: Seq<Option<u64>>, i: int) -> bool {
    &&& 0 <= i < distances.len()
    &&& distances[i] is Some
    &&& forall|j: int|
        0 <= j < distances.len() && (#[trigger] distances[j]) is Some ==> distances[i].unwrap()
            <= distances[j].unwrap()
    &&& forall|j: int|
        0 <= j < i && (#[trigger] distances[j]) is Some ==> distances[i].unwrap()
            < distances[j].unwrap()
}

/// No two walls are both the one that a ray meets first.
pub proof fn lemma_nearest_unique(distances: Seq<Option<u64>>, i: int, j: int)
    requires
        is_nearest(distances, i),
        is_nearest(distances, j),
    ensures
        i == j,
{
}

/// The place of the wall that a ray meets first, given for each wall how far along the ray it
/// is hit, if it is hit at all. Of walls hit equally near the first listed is taken. Where the
/// ray hits no wall there is none.
pub fn nearest(distances: &Vec<Option<u64>>) -> (found: Option<usize>)
    ensures
        match found {
            Some(i) => is_nearest(distances@, i as int),
            None => forall|j: int| 0 <= j < distances@.len() ==> distances@[j] is None,
        },
{
    let mut closest: Option<(usize, u64)> = None;
    let mut i: usize = 0;
    while i < distances.len()
        invariant
            i <= distances@.len(),
            match closest {
                Some((at, distance)) => at < i && distances@[at as int] == Some(distance)
                    && is_nearest(distances@.take(i as int), at as int),
                None => forall|j: int| 0 <= j < i ==> distances@[j] is None,
            },
        decreases distances@.len() - i,
    {
        let ghost seen = distances@.take(i as int);
        let ghost next = distances@.take(i + 1);
        assert forall|j: int| 0 <= j < i implies seen[j] == next[j] by {}
        if let Some(distance) = distances[i] {
            let nearer = match closest {
                Some((_, closest_distance)) => distance < closest_distance,
                None => true,
            };
            if nearer {
                closest = Some((i, distance));
            }
        }
        i += 1;
    }
    assert(distances@.take(i as int) =~= distances@);
    match closest {
        Some((at, _)) => Some(at),
        None => None,
    }
}

} // verus!
