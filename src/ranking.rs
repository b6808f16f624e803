//! The ranking model: who is ranked in a track or category, in which order,
//! at which position; the code that computes ranks; and what holds of them.
use crate::race::{Category, Racer};
use crate::time_utils::earlier;
use vstd::prelude::*;

verus! {

/// A ranking dimension: one track or one category, by name.
pub enum Group {
    OnTrack(Seq<char>),
    InCategory(Seq<char>),
}

/// The racer belongs to the group.
pub open spec fn in_group(r: Racer, g: Group) -> bool {
    match g {
        Group::OnTrack(t) => r.track.0@ == t,
        Group::InCategory(c) => exists|k: int|
            0 <= k < r.categories@.len() && #[trigger] r.categories@[k].0@ == c,
    }
}

/// The racer takes part in the group's ranking: it belongs to the group and
/// has both a start and a finish.
pub open spec fn ranked(r: Racer, g: Group) -> bool {
    in_group(r, g) && r.start is Some && r.finish is Some
}

/// `a` ranks strictly ahead of `b` by key: earlier finish, then lower start
/// number.
pub open spec fn ahead(a: Racer, b: Racer) -> bool {
    earlier(a.finish->0, b.finish->0) || (a.finish == b.finish && a.start_number.0
        < b.start_number.0)
}

/// Racer `j` comes before racer `i` in the ranking order; equal keys keep
/// their order in the racer list.
pub open spec fn precedes(rs: Seq<Racer>, j: int, i: int) -> bool {
    ahead(rs[j], rs[i]) || (rs[j].finish == rs[i].finish && rs[j].start_number == rs[i].start_number
        && j < i)
}

/// Number of ranked racers of the group among the first `n` that come before
/// racer `i`.
pub open spec fn count_ahead(rs: Seq<Racer>, g: Group, i: int, n: int) -> nat
    decreases n,
{
    if n <= 0 {
        0
    } else {
        count_ahead(rs, g, i, n - 1) + if ranked(rs[n - 1], g) && precedes(rs, n - 1, i) {
            1nat
        } else {
            0nat
        }
    }
}

/// 1-based rank of racer `i` in the group.
pub open spec fn rank_spec(rs: Seq<Racer>, g: Group, i: int) -> nat {
    count_ahead(rs, g, i, rs.len() as int) + 1
}

/// The track rank racer `i` should hold: its rank on its own track when it is
/// ranked there, none otherwise.
pub open spec fn track_rank_spec(rs: Seq<Racer>, i: int) -> Option<u32> {
    let g = Group::OnTrack(rs[i].track.0@);
    if ranked(rs[i], g) {
        Some(rank_spec(rs, g, i) as u32)
    } else {
        None
    }
}

/// The category ranks racer `i` should hold: for each of `cats` in order in
/// which it is ranked, the category and its rank there.
pub open spec fn category_ranks_spec(cats: Seq<Category>, rs: Seq<Racer>, i: int) -> Seq<
    (Category, u32),
>
    decreases cats.len(),
{
    if cats.len() == 0 {
        Seq::empty()
    } else {
        let prev = category_ranks_spec(cats.drop_last(), rs, i);
        let g = Group::InCategory(cats.last().0@);
        if ranked(rs[i], g) {
            prev.push((cats.last(), rank_spec(rs, g, i) as u32))
        } else {
            prev
        }
    }
}

/// Two racer entries agree on everything but their ranks.
pub open spec fn same_entry(a: Racer, b: Racer) -> bool {
    &&& a.id == b.id
    &&& a.start_number == b.start_number
    &&& a.tag == b.tag
    &&& a.first_name == b.first_name
    &&& a.last_name == b.last_name
    &&& a.track == b.track
    &&& a.categories@ == b.categories@
    &&& a.start == b.start
    &&& a.finish == b.finish
    &&& a.time == b.time
}

/// Two racer lists agree on everything but ranks.
pub open spec fn same_entries(a: Seq<Racer>, b: Seq<Racer>) -> bool {
    a.len() == b.len() && forall|i: int| 0 <= i < a.len() ==> same_entry(#[trigger] a[i], b[i])
}

/// Every racer holds the track rank and category ranks the ranking gives.
pub open spec fn ranks_consistent(rs: Seq<Racer>, cats: Seq<Category>) -> bool {
    forall|i: int|
        0 <= i < rs.len() ==> (#[trigger] rs[i]).track_rank == track_rank_spec(rs, i)
            && rs[i].categories_rank@ == category_ranks_spec(cats, rs, i)
}

proof fn lemma_count_ahead_same_entries(a: Seq<Racer>, b: Seq<Racer>, g: Group, i: int, n: int)
    requires
        same_entries(a, b),
        0 <= i < a.len(),
        n <= a.len(),
    ensures
        count_ahead(a, g, i, n) == count_ahead(b, g, i, n),
    decreases n,
{
    if n > 0 {
        lemma_count_ahead_same_entries(a, b, g, i, n - 1);
        assert(same_entry(a[n - 1], b[n - 1]));
        assert(same_entry(a[i], b[i]));
        assert(in_group(a[n - 1], g) == in_group(b[n - 1], g));
    }
}

/// A count among the first `n` racers is at most `n`.
pub proof fn lemma_count_ahead_bound(rs: Seq<Racer>, g: Group, i: int, n: int)
    requires
        0 <= n,
    ensures
        count_ahead(rs, g, i, n) <= n,
    decreases n,
{
    if n > 0 {
        lemma_count_ahead_bound(rs, g, i, n - 1);
    }
}

proof fn lemma_category_ranks_same_entries(cats: Seq<Category>, a: Seq<Racer>, b: Seq<Racer>, i: int)
    requires
        same_entries(a, b),
        0 <= i < a.len(),
    ensures
        category_ranks_spec(cats, a, i) == category_ranks_spec(cats, b, i),
    decreases cats.len(),
{
    if cats.len() > 0 {
        lemma_category_ranks_same_entries(cats.drop_last(), a, b, i);
        let g = Group::InCategory(cats.last().0@);
        lemma_count_ahead_same_entries(a, b, g, i, a.len() as int);
        assert(same_entry(a[i], b[i]));
        assert(in_group(a[i], g) == in_group(b[i], g));
    }
}

/// Ranks depend on the entries alone: two racer lists that agree on all but
/// their ranks give every racer the same track rank and category ranks.
pub proof fn lemma_ranks_depend_on_entries_only(cats: Seq<Category>, a: Seq<Racer>, b: Seq<Racer>, i: int)
    requires
        same_entries(a, b),
        0 <= i < a.len(),
    ensures
        track_rank_spec(a, i) == track_rank_spec(b, i),
        category_ranks_spec(cats, a, i) == category_ranks_spec(cats, b, i),
{
    assert(same_entry(a[i], b[i]));
    lemma_count_ahead_same_entries(a, b, Group::OnTrack(a[i].track.0@), i, a.len() as int);
    lemma_category_ranks_same_entries(cats, a, b, i);
}

/// No two ranked racers of the group share both finish and start number.
pub open spec fn distinct_keys(rs: Seq<Racer>, g: Group) -> bool {
    forall|j: int, k: int|
        0 <= j < rs.len() && 0 <= k < rs.len() && j != k && ranked(#[trigger] rs[j], g) && ranked(
            #[trigger] rs[k],
            g,
        ) ==> !(rs[j].finish == rs[k].finish && rs[j].start_number == rs[k].start_number)
}

/// Number of racers in `s` that are ranked in the group and ahead of `t`.
pub open spec fn count_ahead_of(s: Seq<Racer>, g: Group, t: Racer) -> nat
    decreases s.len(),
{
    if s.len() == 0 {
        0
    } else {
        count_ahead_of(s.drop_last(), g, t) + if ranked(s.last(), g) && ahead(s.last(), t) {
            1nat
        } else {
            0nat
        }
    }
}

/// Number of ranked racers of the group among the first `n`.
pub open spec fn count_ranked(rs: Seq<Racer>, g: Group, n: int) -> nat
    decreases n,
{
    if n <= 0 {
        0
    } else {
        count_ranked(rs, g, n - 1) + if ranked(rs[n - 1], g) {
            1nat
        } else {
            0nat
        }
    }
}

/// Re-running the ranking gives the same ranks: two racer lists that agree on
/// their entries and both hold the ranks the ranking gives hold the same
/// ranks.
pub proof fn lemma_rerank_idempotent(cats: Seq<Category>, a: Seq<Racer>, b: Seq<Racer>)
    requires
        same_entries(a, b),
        ranks_consistent(a, cats),
        ranks_consistent(b, cats),
    ensures
        forall|i: int|
            0 <= i < a.len() ==> (#[trigger] a[i]).track_rank == b[i].track_rank
                && a[i].categories_rank@ == b[i].categories_rank@,
{
    assert forall|i: int| 0 <= i < a.len() implies (#[trigger] a[i]).track_rank == b[i].track_rank
        && a[i].categories_rank@ == b[i].categories_rank@ by {
        lemma_ranks_depend_on_entries_only(cats, a, b, i);
    }
}

proof fn lemma_count_ahead_is_count_of(rs: Seq<Racer>, g: Group, i: int, n: int)
    requires
        distinct_keys(rs, g),
        0 <= i < rs.len(),
        ranked(rs[i], g),
        0 <= n <= rs.len(),
    ensures
        count_ahead(rs, g, i, n) == count_ahead_of(rs.subrange(0, n), g, rs[i]),
    decreases n,
{
    if n > 0 {
        lemma_count_ahead_is_count_of(rs, g, i, n - 1);
        assert(rs.subrange(0, n).drop_last() =~= rs.subrange(0, n - 1));
        let j = n - 1;
        if j != i && ranked(rs[j], g) {
            assert(!(rs[j].finish == rs[i].finish && rs[j].start_number == rs[i].start_number));
        }
    }
}

proof fn lemma_count_of_remove(s: Seq<Racer>, g: Group, t: Racer, k: int)
    requires
        0 <= k < s.len(),
    ensures
        count_ahead_of(s, g, t) == count_ahead_of(s.remove(k), g, t) + if ranked(s[k], g) && ahead(
            s[k],
            t,
        ) {
            1nat
        } else {
            0nat
        },
    decreases s.len(),
{
    if k < s.len() - 1 {
        lemma_count_of_remove(s.drop_last(), g, t, k);
        assert(s.remove(k).drop_last() =~= s.drop_last().remove(k));
        assert(s.remove(k).last() == s.last());
    } else {
        assert(s.remove(k) =~= s.drop_last());
    }
}

proof fn lemma_count_of_permutation(a: Seq<Racer>, b: Seq<Racer>, g: Group, t: Racer)
    requires
        a.to_multiset() == b.to_multiset(),
    ensures
        count_ahead_of(a, g, t) == count_ahead_of(b, g, t),
    decreases a.len(),
{
    broadcast use vstd::seq_lib::group_to_multiset_ensures;

    if a.len() == 0 {
        assert(b.len() == 0) by {
            vstd::seq_lib::to_multiset_len(a);
            vstd::seq_lib::to_multiset_len(b);
        }
    } else {
        let x = a.last();
        let a1 = a.drop_last();
        assert(a1.push(x) =~= a);
        vstd::seq_lib::to_multiset_build(a1, x);
        assert(b.to_multiset().count(x) > 0);
        assert(b.contains(x));
        let k = choose|k: int| 0 <= k < b.len() && b[k] == x;
        vstd::seq_lib::to_multiset_remove(b, k);
        assert(a1.to_multiset() =~= b.remove(k).to_multiset());
        lemma_count_of_permutation(a1, b.remove(k), g, t);
        lemma_count_of_remove(b, g, t, k);
    }
}

/// The ranking does not depend on the order of the racer list: when no two
/// ranked racers of a group share both finish and start number, a racer has
/// the same rank in the group in any reordering of the list.
pub proof fn lemma_rank_stable_under_reordering(a: Seq<Racer>, b: Seq<Racer>, g: Group, i: int, k: int)
    requires
        a.to_multiset() == b.to_multiset(),
        distinct_keys(a, g),
        distinct_keys(b, g),
        0 <= i < a.len(),
        0 <= k < b.len(),
        b[k] == a[i],
        ranked(a[i], g),
    ensures
        rank_spec(a, g, i) == rank_spec(b, g, k),
{
    lemma_count_ahead_is_count_of(a, g, i, a.len() as int);
    lemma_count_ahead_is_count_of(b, g, k, b.len() as int);
    assert(a.subrange(0, a.len() as int) =~= a);
    assert(b.subrange(0, b.len() as int) =~= b);
    lemma_count_of_permutation(a, b, g, a[i]);
}

/// Ranking a reordered racer list gives each racer the same track rank, when
/// no two ranked racers of its track share both finish and start number.
pub proof fn lemma_track_rank_stable_under_reordering(s1: Seq<Racer>, s2: Seq<Racer>, i: int, k: int)
    requires
        s1.to_multiset() == s2.to_multiset(),
        0 <= i < s1.len(),
        0 <= k < s2.len(),
        s2[k] == s1[i],
        distinct_keys(s1, Group::OnTrack(s1[i].track.0@)),
        distinct_keys(s2, Group::OnTrack(s1[i].track.0@)),
    ensures
        track_rank_spec(s1, i) == track_rank_spec(s2, k),
{
    let g = Group::OnTrack(s1[i].track.0@);
    if ranked(s1[i], g) {
        lemma_rank_stable_under_reordering(s1, s2, g, i, k);
    }
}

/// Ranking a reordered racer list gives each racer the same category ranks,
/// when in no category do two ranked racers share both finish and start
/// number.
pub proof fn lemma_category_ranks_stable_under_reordering(
    cats: Seq<Category>,
    s1: Seq<Racer>,
    s2: Seq<Racer>,
    i: int,
    k: int,
)
    requires
        s1.to_multiset() == s2.to_multiset(),
        0 <= i < s1.len(),
        0 <= k < s2.len(),
        s2[k] == s1[i],
        forall|c: Seq<char>| #[trigger] distinct_keys(s1, Group::InCategory(c)),
        forall|c: Seq<char>| #[trigger] distinct_keys(s2, Group::InCategory(c)),
    ensures
        category_ranks_spec(cats, s1, i) == category_ranks_spec(cats, s2, k),
    decreases cats.len(),
{
    if cats.len() > 0 {
        lemma_category_ranks_stable_under_reordering(cats.drop_last(), s1, s2, i, k);
        let g = Group::InCategory(cats.last().0@);
        assert(distinct_keys(s1, g));
        assert(distinct_keys(s2, g));
        if ranked(s1[i], g) {
            lemma_rank_stable_under_reordering(s1, s2, g, i, k);
        }
    }
}

proof fn lemma_count_ahead_clear(a: Seq<Racer>, b: Seq<Racer>, g: Group, i: int, j: int, n: int)
    requires
        b.len() == a.len(),
        0 <= i < a.len(),
        0 <= j < a.len(),
        i != j,
        b[i].finish is None,
        forall|x: int| 0 <= x < a.len() && x != i ==> #[trigger] b[x] == a[x],
        0 <= n <= a.len(),
    ensures
        count_ahead(b, g, j, n) + if i < n && ranked(a[i], g) && precedes(a, i, j) {
            1nat
        } else {
            0nat
        } == count_ahead(a, g, j, n),
    decreases n,
{
    if n > 0 {
        lemma_count_ahead_clear(a, b, g, i, j, n - 1);
        assert(b[j] == a[j]);
        if n - 1 != i {
            assert(b[n - 1] == a[n - 1]);
        }
    }
}

/// Clearing a racer's finish takes it out of every ranking, and each other
/// ranked racer of a group it was ranked in moves up by one exactly when the
/// cleared racer came before it; all other ranks stay.
pub proof fn lemma_clear_finish_shifts_ranks(a: Seq<Racer>, b: Seq<Racer>, i: int, g: Group, j: int)
    requires
        b.len() == a.len(),
        0 <= i < a.len(),
        b[i].finish is None,
        forall|x: int| 0 <= x < a.len() && x != i ==> #[trigger] b[x] == a[x],
        0 <= j < a.len(),
        j != i,
    ensures
        !ranked(b[i], g),
        ranked(b[j], g) == ranked(a[j], g),
        rank_spec(b, g, j) == if ranked(a[i], g) && precedes(a, i, j) {
            (rank_spec(a, g, j) - 1) as nat
        } else {
            rank_spec(a, g, j)
        },
        ranked(a[i], g) && ranked(a[j], g) ==> rank_spec(b, g, j) == if rank_spec(a, g, j)
            > rank_spec(a, g, i) {
            (rank_spec(a, g, j) - 1) as nat
        } else {
            rank_spec(a, g, j)
        },
{
    lemma_count_ahead_clear(a, b, g, i, j, a.len() as int);
    if ranked(a[i], g) && ranked(a[j], g) {
        lemma_precedes_iff_lower_rank(a, g, i, j);
    }
}

proof fn lemma_precedes_total(rs: Seq<Racer>, g: Group, j: int, k: int)
    requires
        0 <= j < rs.len(),
        0 <= k < rs.len(),
        j != k,
        ranked(rs[j], g),
        ranked(rs[k], g),
    ensures
        precedes(rs, j, k) != precedes(rs, k, j),
{
}

proof fn lemma_precedes_transitive(rs: Seq<Racer>, x: int, j: int, k: int)
    requires
        0 <= x < rs.len(),
        0 <= j < rs.len(),
        0 <= k < rs.len(),
        rs[x].finish is Some,
        rs[j].finish is Some,
        rs[k].finish is Some,
        precedes(rs, x, j),
        precedes(rs, j, k),
    ensures
        precedes(rs, x, k),
{
}

proof fn lemma_count_ahead_grows(rs: Seq<Racer>, g: Group, j: int, k: int, n: int)
    requires
        0 <= j < rs.len(),
        0 <= k < rs.len(),
        ranked(rs[j], g),
        ranked(rs[k], g),
        precedes(rs, j, k),
        0 <= n <= rs.len(),
    ensures
        count_ahead(rs, g, k, n) >= count_ahead(rs, g, j, n) + if j < n {
            1nat
        } else {
            0nat
        },
    decreases n,
{
    if n > 0 {
        lemma_count_ahead_grows(rs, g, j, k, n - 1);
        let x = n - 1;
        if ranked(rs[x], g) && precedes(rs, x, j) {
            lemma_precedes_transitive(rs, x, j, k);
        }
    }
}

proof fn lemma_count_ahead_below_ranked(rs: Seq<Racer>, g: Group, k: int, n: int)
    requires
        0 <= k < rs.len(),
        ranked(rs[k], g),
        0 <= n <= rs.len(),
    ensures
        count_ahead(rs, g, k, n) + if k < n {
            1nat
        } else {
            0nat
        } <= count_ranked(rs, g, n),
    decreases n,
{
    if n > 0 {
        lemma_count_ahead_below_ranked(rs, g, k, n - 1);
    }
}

/// Among the ranked racers of a group, one comes before another exactly when
/// its rank is lower.
pub proof fn lemma_precedes_iff_lower_rank(rs: Seq<Racer>, g: Group, j: int, k: int)
    requires
        0 <= j < rs.len(),
        0 <= k < rs.len(),
        j != k,
        ranked(rs[j], g),
        ranked(rs[k], g),
    ensures
        precedes(rs, j, k) <==> rank_spec(rs, g, j) < rank_spec(rs, g, k),
{
    lemma_precedes_total(rs, g, j, k);
    if precedes(rs, j, k) {
        lemma_count_ahead_grows(rs, g, j, k, rs.len() as int);
    } else {
        lemma_count_ahead_grows(rs, g, k, j, rs.len() as int);
    }
}

/// Ranks have no gaps: the ranked racers of a group hold pairwise different
/// ranks, each between 1 and the number of ranked racers of the group, so
/// they hold exactly the ranks 1 to that number.
pub proof fn lemma_ranks_distinct_and_dense(rs: Seq<Racer>, g: Group, j: int, k: int)
    requires
        0 <= j < rs.len(),
        0 <= k < rs.len(),
        ranked(rs[j], g),
        ranked(rs[k], g),
    ensures
        1 <= rank_spec(rs, g, j) <= count_ranked(rs, g, rs.len() as int),
        j != k ==> rank_spec(rs, g, j) != rank_spec(rs, g, k),
{
    lemma_count_ahead_below_ranked(rs, g, j, rs.len() as int);
    if j != k {
        lemma_precedes_total(rs, g, j, k);
        if precedes(rs, j, k) {
            lemma_count_ahead_grows(rs, g, j, k, rs.len() as int);
        } else {
            lemma_count_ahead_grows(rs, g, k, j, rs.len() as int);
        }
    }
}

/// A ranking group given by a track or category name.
pub(crate) enum GroupKey<'a> {
    OnTrack(&'a String),
    InCategory(&'a String),
}

impl<'a> GroupKey<'a> {
    pub(crate) open spec fn group(&self) -> Group {
        match self {
            GroupKey::OnTrack(t) => Group::OnTrack(t@),
            GroupKey::InCategory(c) => Group::InCategory(c@),
        }
    }
}

pub(crate) fn has_category(r: &Racer, name: &String) -> (b: bool)
    ensures
        b == in_group(*r, Group::InCategory(name@)),
{
    let mut k: usize = 0;
    while k < r.categories.len()
        invariant
            k <= r.categories@.len(),
            forall|m: int| 0 <= m < k ==> r.categories@[m].0@ != name@,
        decreases r.categories@.len() - k,
    {
        if r.categories[k].0 == *name {
            return true;
        }
        k = k + 1;
    }
    false
}

pub(crate) fn in_group_exec(r: &Racer, g: &GroupKey) -> (b: bool)
    ensures
        b == in_group(*r, g.group()),
{
    match g {
        GroupKey::OnTrack(t) => r.track.0 == **t,
        GroupKey::InCategory(c) => has_category(r, c),
    }
}

pub(crate) fn is_ranked(r: &Racer, g: &GroupKey) -> (b: bool)
    ensures
        b == ranked(*r, g.group()),
{
    r.start.is_some() && r.finish.is_some() && in_group_exec(r, g)
}

pub(crate) fn precedes_exec(racers: &Vec<Racer>, j: usize, i: usize) -> (b: bool)
    requires
        j < racers@.len(),
        i < racers@.len(),
        racers@[j as int].finish is Some,
        racers@[i as int].finish is Some,
    ensures
        b == precedes(racers@, j as int, i as int),
{
    let a = &racers[j];
    let b = &racers[i];
    let fa = a.finish.unwrap();
    let fb = b.finish.unwrap();
    if fa.is_before(&fb) {
        true
    } else if fa == fb {
        a.start_number.0 < b.start_number.0 || (a.start_number.0 == b.start_number.0 && j < i)
    } else {
        false
    }
}

/// Rank of a ranked racer `i` in the group.
pub(crate) fn rank_of(racers: &Vec<Racer>, g: &GroupKey, i: usize) -> (r: u32)
    requires
        i < racers@.len(),
        racers@.len() < u32::MAX,
        racers@[i as int].finish is Some,
    ensures
        r == rank_spec(racers@, g.group(), i as int),
{
    let mut count: u32 = 0;
    let mut j: usize = 0;
    while j < racers.len()
        invariant
            j <= racers@.len(),
            i < racers@.len(),
            racers@.len() < u32::MAX,
            racers@[i as int].finish is Some,
            count == count_ahead(racers@, g.group(), i as int, j as int),
        decreases racers@.len() - j,
    {
        proof {
            lemma_count_ahead_bound(racers@, g.group(), i as int, j as int);
        }
        if is_ranked(&racers[j], g) && precedes_exec(racers, j, i) {
            count = count + 1;
        }
        j = j + 1;
    }
    proof {
        lemma_count_ahead_bound(racers@, g.group(), i as int, j as int);
    }
    count + 1
}

} // verus!
