//! Orders of racers by a column of the racer table.
use crate::race::{Category, Racer, RacerField};
use crate::restclient::{cmp_timestamp, cmp_u64, int_cmp, timestamp_cmp};
use crate::text::{
    compare_text, lemma_text_order_total, lemma_text_order_transitive, text_before, text_cmp, text_lt,
};
use crate::time_utils::Timestamp;
use std::cmp::Ordering;
use vstd::prelude::*;

verus! {

/// Order of two optional ranks: a rank sorts before none.
pub open spec fn opt_rank_cmp(a: Option<u32>, b: Option<u32>) -> Ordering {
    match (a, b) {
        (Some(x), Some(y)) => int_cmp(x as int, y as int),
        (Some(_), None) => Ordering::Less,
        (None, Some(_)) => Ordering::Greater,
        (None, None) => Ordering::Equal,
    }
}

/// Order of two optional times: none sorts first.
pub open spec fn opt_timestamp_cmp(a: Option<Timestamp>, b: Option<Timestamp>) -> Ordering {
    match (a, b) {
        (Some(x), Some(y)) => timestamp_cmp(x, y),
        (Some(_), None) => Ordering::Greater,
        (None, Some(_)) => Ordering::Less,
        (None, None) => Ordering::Equal,
    }
}

/// Order of two optional durations: none sorts first.
pub open spec fn opt_duration_cmp(a: Option<i128>, b: Option<i128>) -> Ordering {
    match (a, b) {
        (Some(x), Some(y)) => int_cmp(x as int, y as int),
        (Some(_), None) => Ordering::Greater,
        (None, Some(_)) => Ordering::Less,
        (None, None) => Ordering::Equal,
    }
}

/// Rank a category-rank list holds for the category named `k`: that of its
/// first entry with that name.
pub open spec fn cat_rank_of(v: Seq<(Category, u32)>, k: Seq<char>) -> Option<u32>
    decreases v.len(),
{
    if v.len() == 0 {
        None
    } else if v[0].0.0@ == k {
        Some(v[0].1)
    } else {
        cat_rank_of(v.skip(1), k)
    }
}

/// The two lists hold different ranks for the category named `k`.
pub open spec fn rank_differs(a: Seq<(Category, u32)>, b: Seq<(Category, u32)>, k: Seq<char>) -> bool {
    cat_rank_of(a, k) != cat_rank_of(b, k)
}

/// `k` is the first category name, in text order, for which the two lists
/// hold different ranks.
pub open spec fn first_difference(a: Seq<(Category, u32)>, b: Seq<(Category, u32)>, k: Seq<char>) -> bool {
    rank_differs(a, b, k) && forall|k2: Seq<char>| #[trigger] rank_differs(a, b, k2) ==> !text_lt(k2, k)
}

/// Order of two category-rank lists: decided by the first category name,
/// in text order, whose ranks differ; equal when there is none.
pub open spec fn categories_rank_cmp(a: Seq<(Category, u32)>, b: Seq<(Category, u32)>) -> Ordering {
    if exists|k: Seq<char>| first_difference(a, b, k) {
        let k = choose|k: Seq<char>| first_difference(a, b, k);
        opt_rank_cmp(cat_rank_of(a, k), cat_rank_of(b, k))
    } else {
        Ordering::Equal
    }
}

/// Order of two racers by one column of the racer table.
pub open spec fn racer_cmp(a: Racer, b: Racer, field: RacerField) -> Ordering {
    match field {
        RacerField::StartNumber => int_cmp(a.start_number.0 as int, b.start_number.0 as int),
        RacerField::FirstName => text_cmp(a.first_name@, b.first_name@),
        RacerField::LastName => text_cmp(a.last_name@, b.last_name@),
        RacerField::TagId => text_cmp(a.tag@, b.tag@),
        RacerField::Track => text_cmp(a.track.0@, b.track.0@),
        RacerField::TrackRank => opt_rank_cmp(a.track_rank, b.track_rank),
        RacerField::CategoriesRank => categories_rank_cmp(a.categories_rank@, b.categories_rank@),
        RacerField::Start => opt_timestamp_cmp(a.start, b.start),
        RacerField::Finish => opt_timestamp_cmp(a.finish, b.finish),
        RacerField::Time => opt_duration_cmp(a.time, b.time),
    }
}

proof fn lemma_cat_rank_of_named(v: Seq<(Category, u32)>, k: Seq<char>)
    requires
        cat_rank_of(v, k) is Some,
    ensures
        exists|i: int| 0 <= i < v.len() && #[trigger] v[i].0.0@ == k,
    decreases v.len(),
{
    if v[0].0.0@ != k {
        lemma_cat_rank_of_named(v.skip(1), k);
        let i = choose|i: int| 0 <= i < v.skip(1).len() && #[trigger] v.skip(1)[i].0.0@ == k;
        assert(v[i + 1].0.0@ == k);
    }
}

fn category_rank_in(v: &Vec<(Category, u32)>, name: &String) -> (r: Option<u32>)
    ensures
        r == cat_rank_of(v@, name@),
{
    let mut i: usize = 0;
    assert(v@.skip(0) =~= v@);
    while i < v.len()
        invariant
            i <= v@.len(),
            cat_rank_of(v@, name@) == cat_rank_of(v@.skip(i as int), name@),
        decreases v@.len() - i,
    {
        if v[i].0.0 == *name {
            return Some(v[i].1);
        }
        assert(v@.skip(i as int).skip(1) =~= v@.skip(i + 1));
        i = i + 1;
    }
    None
}

fn cmp_opt_rank(a: Option<u32>, b: Option<u32>) -> (r: Ordering)
    ensures
        r == opt_rank_cmp(a, b),
{
    match (a, b) {
        (Some(x), Some(y)) => cmp_u64(x as u64, y as u64),
        (Some(_), None) => Ordering::Less,
        (None, Some(_)) => Ordering::Greater,
        (None, None) => Ordering::Equal,
    }
}

fn same_rank(a: Option<u32>, b: Option<u32>) -> (r: bool)
    ensures
        r == (a == b),
{
    match (a, b) {
        (Some(x), Some(y)) => x == y,
        (None, None) => true,
        _ => false,
    }
}

/// Category names of a category-rank list, in order.
spec fn entry_names(v: Seq<(Category, u32)>) -> Seq<Seq<char>> {
    v.map_values(|e: (Category, u32)| e.0.0@)
}

/// The first difference found among the names scanned so far: its name and
/// both ranks.
spec fn best_so_far(
    a: Seq<(Category, u32)>,
    b: Seq<(Category, u32)>,
    scanned: Seq<Seq<char>>,
    best: Option<(String, Option<u32>, Option<u32>)>,
) -> bool {
    match best {
        Some((n, ra, rb)) => {
            &&& rank_differs(a, b, n@)
            &&& ra == cat_rank_of(a, n@)
            &&& rb == cat_rank_of(b, n@)
            &&& forall|k2: Seq<char>| #[trigger] scanned.contains(k2) && rank_differs(a, b, k2) ==> !text_lt(k2, n@)
        },
        None => forall|k2: Seq<char>| #[trigger] scanned.contains(k2) ==> !rank_differs(a, b, k2),
    }
}

fn consider_name(
    a: &Vec<(Category, u32)>,
    b: &Vec<(Category, u32)>,
    name: &String,
    best: Option<(String, Option<u32>, Option<u32>)>,
    Ghost(scanned): Ghost<Seq<Seq<char>>>,
) -> (r: Option<(String, Option<u32>, Option<u32>)>)
    requires
        best_so_far(a@, b@, scanned, best),
    ensures
        best_so_far(a@, b@, scanned.push(name@), r),
{
    let ra = category_rank_in(a, name);
    let rb = category_rank_in(b, name);
    proof {
        assert forall|k2: Seq<char>| #[trigger] scanned.push(name@).contains(k2) implies scanned.contains(k2) || k2 == name@ by {
            let i = choose|i: int| 0 <= i < scanned.push(name@).len() && scanned.push(name@)[i] == k2;
            if i < scanned.len() {
                assert(scanned[i] == k2);
            }
        }
        lemma_text_order_total(name@, name@);
    }
    if same_rank(ra, rb) {
        return best;
    }
    match best {
        None => Some((name.clone(), ra, rb)),
        Some((n, xa, xb)) => {
            if text_before(name.as_str(), n.as_str()) {
                proof {
                    assert forall|k2: Seq<char>|
                        #[trigger] scanned.push(name@).contains(k2) && rank_differs(a@, b@, k2) implies !text_lt(k2, name@) by {
                        if text_lt(k2, name@) && k2 != name@ {
                            lemma_text_order_transitive(k2, name@, n@);
                        }
                    }
                }
                Some((name.clone(), ra, rb))
            } else {
                Some((n, xa, xb))
            }
        },
    }
}

fn cmp_categories_rank(a: &Vec<(Category, u32)>, b: &Vec<(Category, u32)>) -> (r: Ordering)
    ensures
        r == categories_rank_cmp(a@, b@),
{
    let mut best: Option<(String, Option<u32>, Option<u32>)> = None;
    let mut i: usize = 0;
    assert(entry_names(a@.subrange(0, 0)) =~= Seq::<Seq<char>>::empty());
    while i < a.len()
        invariant
            i <= a@.len(),
            best_so_far(a@, b@, entry_names(a@.subrange(0, i as int)), best),
        decreases a@.len() - i,
    {
        let ghost seen = entry_names(a@.subrange(0, i as int));
        best = consider_name(a, b, &a[i].0.0, best, Ghost(seen));
        assert(entry_names(a@.subrange(0, i + 1)) =~= seen.push(a@[i as int].0.0@));
        i = i + 1;
    }
    assert(a@.subrange(0, a@.len() as int) =~= a@);
    let mut j: usize = 0;
    assert(entry_names(a@) + entry_names(b@.subrange(0, 0)) =~= entry_names(a@));
    while j < b.len()
        invariant
            j <= b@.len(),
            best_so_far(a@, b@, entry_names(a@) + entry_names(b@.subrange(0, j as int)), best),
        decreases b@.len() - j,
    {
        let ghost seen = entry_names(a@) + entry_names(b@.subrange(0, j as int));
        best = consider_name(a, b, &b[j].0.0, best, Ghost(seen));
        assert(entry_names(a@) + entry_names(b@.subrange(0, j + 1)) =~= seen.push(b@[j as int].0.0@));
        j = j + 1;
    }
    assert(b@.subrange(0, b@.len() as int) =~= b@);
    let ghost all = entry_names(a@) + entry_names(b@);
    proof {
        assert forall|k2: Seq<char>| #[trigger] rank_differs(a@, b@, k2) implies all.contains(k2) by {
            if cat_rank_of(a@, k2) is Some {
                lemma_cat_rank_of_named(a@, k2);
                let m = choose|m: int| 0 <= m < a@.len() && #[trigger] a@[m].0.0@ == k2;
                assert(all[m] == k2);
            } else {
                lemma_cat_rank_of_named(b@, k2);
                let m = choose|m: int| 0 <= m < b@.len() && #[trigger] b@[m].0.0@ == k2;
                assert(all[a@.len() + m] == k2);
            }
        }
    }
    match best {
        Some((n, ra, rb)) => {
            proof {
                assert forall|k2: Seq<char>| #[trigger] rank_differs(a@, b@, k2) implies !text_lt(k2, n@) by {
                    assert(all.contains(k2));
                }
                assert(first_difference(a@, b@, n@));
                let k = choose|k: Seq<char>| first_difference(a@, b@, k);
                lemma_text_order_total(k, n@);
                assert(k == n@);
            }
            cmp_opt_rank(ra, rb)
        },
        None => {
            proof {
                assert forall|k: Seq<char>| !first_difference(a@, b@, k) by {
                    if rank_differs(a@, b@, k) {
                        assert(all.contains(k));
                    }
                }
            }
            Ordering::Equal
        },
    }
}

impl Racer {
    /// Orders two racers by one column of the racer table.
    pub fn cmp_by(&self, other: &Self, field: RacerField) -> (r: Ordering)
        ensures
            r == racer_cmp(*self, *other, field),
    {
        match field {
            RacerField::StartNumber => cmp_u64(self.start_number.0 as u64, other.start_number.0 as u64),
            RacerField::FirstName => compare_text(self.first_name.as_str(), other.first_name.as_str()),
            RacerField::LastName => compare_text(self.last_name.as_str(), other.last_name.as_str()),
            RacerField::TagId => compare_text(self.tag.as_str(), other.tag.as_str()),
            RacerField::Track => compare_text(self.track.0.as_str(), other.track.0.as_str()),
            RacerField::TrackRank => cmp_opt_rank(self.track_rank, other.track_rank),
            RacerField::CategoriesRank => cmp_categories_rank(&self.categories_rank, &other.categories_rank),
            RacerField::Start => cmp_opt_timestamp(self.start, other.start),
            RacerField::Finish => cmp_opt_timestamp(self.finish, other.finish),
            RacerField::Time => match (self.time, other.time) {
                (Some(x), Some(y)) => if x < y {
                    Ordering::Less
                } else if x == y {
                    Ordering::Equal
                } else {
                    Ordering::Greater
                },
                (Some(_), None) => Ordering::Greater,
                (None, Some(_)) => Ordering::Less,
                (None, None) => Ordering::Equal,
            },
        }
    }
}

fn cmp_opt_timestamp(a: Option<Timestamp>, b: Option<Timestamp>) -> (r: Ordering)
    ensures
        r == opt_timestamp_cmp(a, b),
{
    match (a, b) {
        (Some(x), Some(y)) => cmp_timestamp(&x, &y),
        (Some(_), None) => Ordering::Greater,
        (None, Some(_)) => Ordering::Less,
        (None, None) => Ordering::Equal,
    }
}

} // verus!
