//! Which column a table is sorted by, and in which direction.
use std::cmp::Ordering;
use std::hash::Hash;
use vstd::prelude::*;
use vstd::std_specs::cmp::PartialEqSpec;

verus! {

/// Direction of sorting.
#[derive(Copy, Clone, Debug, PartialEq, Eq, Structural)]
pub enum Direction {
    Asc,
    Desc,
}

/// The active sort column and its direction.
#[derive(Clone)]
pub struct Sorter<F: Copy + Eq + Hash> {
    pub active: F,
    pub direction: Direction,
}

/// The other direction.
pub open spec fn flipped(d: Direction) -> Direction {
    match d {
        Direction::Asc => Direction::Desc,
        Direction::Desc => Direction::Asc,
    }
}

/// An ordering turned around.
pub open spec fn reversed(o: Ordering) -> Ordering {
    match o {
        Ordering::Less => Ordering::Greater,
        Ordering::Equal => Ordering::Equal,
        Ordering::Greater => Ordering::Less,
    }
}

fn reverse(o: Ordering) -> (r: Ordering)
    ensures
        r == reversed(o),
{
    match o {
        Ordering::Less => Ordering::Greater,
        Ordering::Equal => Ordering::Equal,
        Ordering::Greater => Ordering::Less,
    }
}

impl<F: Copy + Eq + Hash> Sorter<F> {
    /// Sorting by `field`, ascending.
    pub fn new(field: F) -> (r: Self)
        ensures
            r.active == field,
            r.direction == Direction::Asc,
    {
        Self { active: field, direction: Direction::Asc }
    }

    /// Toggles sorting for a column: the active column flips its direction,
    /// another column becomes active, ascending.
    pub fn toggle(&mut self, field: F)
        ensures
            F::obeys_eq_spec() ==> if field.eq_spec(&old(self).active) {
                final(self).active == old(self).active && final(self).direction == flipped(
                    old(self).direction,
                )
            } else {
                final(self).active == field && final(self).direction == Direction::Asc
            },
    {
        if field == self.active {
            self.direction = match self.direction {
                Direction::Asc => Direction::Desc,
                Direction::Desc => Direction::Asc,
            };
        } else {
            self.active = field;
            self.direction = Direction::Asc;
        }
    }

    /// Compares two values with `cmp_fn`, turned around when `field` is the
    /// active column sorted descending.
    pub fn cmp_by<T, C: Fn(&T, &T, F) -> Ordering>(&self, a: &T, b: &T, field: F, cmp_fn: C) -> (r: Ordering)
        requires
            cmp_fn.requires((a, b, field)),
        ensures
            exists|o: Ordering|
                {
                    &&& #[trigger] cmp_fn.ensures((a, b, field), o)
                    &&& r == o || r == reversed(o)
                    &&& F::obeys_eq_spec() ==> r == if self.active.eq_spec(&field)
                        && self.direction == Direction::Desc {
                        reversed(o)
                    } else {
                        o
                    }
                },
    {
        let o = cmp_fn(a, b, field);
        let r = if self.direction == Direction::Desc && self.active == field {
            reverse(o)
        } else {
            o
        };
        assert(cmp_fn.ensures((a, b, field), o));
        r
    }
}

} // verus!
