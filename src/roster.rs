//! The tracks and categories of a roster: each name once, in display order.
use crate::race::{Category, Track};
use crate::restclient;
use crate::text::{leading_number, leading_number_spec, lemma_text_order_total, text_before, text_lt};
use vstd::prelude::*;

verus! {

/// Names of a category list, in order.
pub open spec fn category_names(cats: Seq<Category>) -> Seq<Seq<char>> {
    cats.map_values(|c: Category| c.0@)
}

/// Names of a track list, in order.
pub open spec fn track_names(tracks: Seq<Track>) -> Seq<Seq<char>> {
    tracks.map_values(|t: Track| t.0@)
}

/// The category names of all roster entries, entry by entry.
pub open spec fn roster_category_names(roster: Seq<restclient::Racer>) -> Seq<Seq<char>>
    decreases roster.len(),
{
    if roster.len() == 0 {
        Seq::empty()
    } else {
        roster_category_names(roster.drop_last()) + roster.last().categories@.map_values(
            |c: restclient::Category| c.name@,
        )
    }
}

/// The track name of each roster entry.
pub open spec fn roster_track_names(roster: Seq<restclient::Racer>) -> Seq<Seq<char>> {
    roster.map_values(|r: restclient::Racer| r.track.name@)
}

/// `cats` lists the roster's category names, each once, in lexicographic
/// order.
pub open spec fn categories_extracted(roster: Seq<restclient::Racer>, cats: Seq<Category>) -> bool {
    &&& forall|k: int| 0 <= k < cats.len() - 1 ==> text_lt(#[trigger] cats[k].0@, cats[k + 1].0@)
    &&& category_names(cats).to_set() == roster_category_names(roster).to_set()
}

/// `tracks` lists the roster's track names, each once, ordered by the number
/// each name starts with (0 for a name that starts with none); names with
/// the same number may come in any order.
pub open spec fn tracks_extracted(roster: Seq<restclient::Racer>, tracks: Seq<Track>) -> bool {
    &&& forall|k: int|
        0 <= k < tracks.len() - 1 ==> leading_number_spec(#[trigger] tracks[k].0@)
            <= leading_number_spec(tracks[k + 1].0@)
    &&& track_names(tracks).no_duplicates()
    &&& track_names(tracks).to_set() == roster_track_names(roster).to_set()
}

proof fn lemma_insert_to_set<A>(s: Seq<A>, p: int, x: A)
    requires
        0 <= p <= s.len(),
    ensures
        s.insert(p, x).to_set() == s.to_set().insert(x),
{
    let t = s.insert(p, x);
    assert forall|a: A| #[trigger] t.contains(a) <==> s.to_set().insert(x).contains(a) by {
        if t.contains(a) {
            let i = choose|i: int| 0 <= i < t.len() && t[i] == a;
            if i < p {
                assert(s[i] == a);
            } else if i > p {
                assert(s[i - 1] == a);
            }
        }
        if s.contains(a) {
            let i = choose|i: int| 0 <= i < s.len() && s[i] == a;
            if i < p {
                assert(t[i] == a);
            } else {
                assert(t[i + 1] == a);
            }
        }
        if a == x {
            assert(t[p] == x);
        }
    }
    assert(t.to_set() =~= s.to_set().insert(x));
}

/// Adds a category name to a list kept in strict lexicographic order, unless
/// it is there already.
fn insert_category(cats: &mut Vec<Category>, name: &String)
    requires
        forall|k: int| 0 <= k < old(cats)@.len() - 1 ==> text_lt(#[trigger] old(cats)@[k].0@, old(cats)@[k + 1].0@),
    ensures
        forall|k: int| 0 <= k < final(cats)@.len() - 1 ==> text_lt(#[trigger] final(cats)@[k].0@, final(cats)@[k + 1].0@),
        category_names(final(cats)@).to_set() == category_names(old(cats)@).to_set().insert(name@),
{
    let mut p: usize = 0;
    while p < cats.len() && text_before(cats[p].0.as_str(), name.as_str())
        invariant
            cats@ == old(cats)@,
            p <= cats@.len(),
            forall|k: int| 0 <= k < p ==> text_lt(#[trigger] cats@[k].0@, name@),
        decreases cats@.len() - p,
    {
        p = p + 1;
    }
    if p < cats.len() && cats[p].0 == *name {
        proof {
            assert(category_names(cats@)[p as int] == name@);
            assert(category_names(cats@).to_set() =~= category_names(cats@).to_set().insert(name@));
        }
        return;
    }
    proof {
        if p < cats@.len() {
            lemma_text_order_total(cats@[p as int].0@, name@);
        }
    }
    let ghost before = cats@;
    cats.insert(p, Category(name.clone()));
    proof {
        assert(category_names(cats@) =~= category_names(before).insert(p as int, name@));
        lemma_insert_to_set(category_names(before), p as int, name@);
        assert forall|k: int| 0 <= k < cats@.len() - 1 implies text_lt(#[trigger] cats@[k].0@, cats@[k + 1].0@) by {
            if k + 1 < p {
                assert(text_lt(before[k].0@, before[k + 1].0@));
            } else if k + 1 == p {
                assert(text_lt(before[k].0@, name@));
            } else if k == p {
                assert(cats@[k + 1] == before[k]);
            } else {
                assert(text_lt(before[k - 1].0@, before[k].0@));
            }
        }
    }
}

fn track_position(tracks: &Vec<Track>, name: &String) -> (r: Option<usize>)
    ensures
        match r {
            Some(q) => q < tracks@.len() && tracks@[q as int].0@ == name@,
            None => forall|k: int| 0 <= k < tracks@.len() ==> (#[trigger] tracks@[k]).0@ != name@,
        },
{
    let mut q: usize = 0;
    while q < tracks.len()
        invariant
            q <= tracks@.len(),
            forall|k: int| 0 <= k < q ==> (#[trigger] tracks@[k]).0@ != name@,
        decreases tracks@.len() - q,
    {
        if tracks[q].0 == *name {
            return Some(q);
        }
        q = q + 1;
    }
    None
}

/// Adds a track name to a list kept ordered by leading number, after the
/// names with the same number, unless it is there already.
fn insert_track(tracks: &mut Vec<Track>, name: &String)
    requires
        forall|k: int|
            0 <= k < old(tracks)@.len() - 1 ==> leading_number_spec(#[trigger] old(tracks)@[k].0@)
                <= leading_number_spec(old(tracks)@[k + 1].0@),
        track_names(old(tracks)@).no_duplicates(),
    ensures
        forall|k: int|
            0 <= k < final(tracks)@.len() - 1 ==> leading_number_spec(#[trigger] final(tracks)@[k].0@)
                <= leading_number_spec(final(tracks)@[k + 1].0@),
        track_names(final(tracks)@).no_duplicates(),
        track_names(final(tracks)@).to_set() == track_names(old(tracks)@).to_set().insert(name@),
{
    if let Some(q) = track_position(tracks, name) {
        proof {
            assert(track_names(tracks@)[q as int] == name@);
            assert(track_names(tracks@).to_set() =~= track_names(tracks@).to_set().insert(name@));
        }
        return;
    }
    let key = leading_number(name.as_str());
    let mut p: usize = 0;
    while p < tracks.len() && leading_number(tracks[p].0.as_str()) <= key
        invariant
            tracks@ == old(tracks)@,
            p <= tracks@.len(),
            key == leading_number_spec(name@),
            forall|k: int| 0 <= k < p ==> leading_number_spec(#[trigger] tracks@[k].0@) <= key,
        decreases tracks@.len() - p,
    {
        p = p + 1;
    }
    let ghost before = tracks@;
    tracks.insert(p, Track(name.clone()));
    proof {
        assert(track_names(tracks@) =~= track_names(before).insert(p as int, name@));
        lemma_insert_to_set(track_names(before), p as int, name@);
        let ns = track_names(tracks@);
        assert forall|k: int, l: int| 0 <= k < ns.len() && 0 <= l < ns.len() && k != l implies ns[k] != ns[l] by {
            if k == p {
                assert(before[if l < p { l } else { l - 1 }].0@ != name@);
            } else if l == p {
                assert(before[if k < p { k } else { k - 1 }].0@ != name@);
            } else {
                let k0 = if k < p { k } else { k - 1 };
                let l0 = if l < p { l } else { l - 1 };
                assert(track_names(before)[k0] != track_names(before)[l0]);
            }
        }
    }
}

/// All the roster's tracks, each once, ordered by the number each name
/// starts with.
pub fn extract_tracks(api_result: &[restclient::Racer]) -> (r: Vec<Track>)
    ensures
        tracks_extracted(api_result@, r@),
{
    let mut tracks: Vec<Track> = Vec::new();
    let mut i: usize = 0;
    proof {
        assert(track_names(tracks@).to_set() =~= roster_track_names(api_result@.subrange(0, 0)).to_set());
    }
    while i < api_result.len()
        invariant
            i <= api_result@.len(),
            forall|k: int|
                0 <= k < tracks@.len() - 1 ==> leading_number_spec(#[trigger] tracks@[k].0@)
                    <= leading_number_spec(tracks@[k + 1].0@),
            track_names(tracks@).no_duplicates(),
            track_names(tracks@).to_set() == roster_track_names(api_result@.subrange(0, i as int)).to_set(),
        decreases api_result@.len() - i,
    {
        insert_track(&mut tracks, &api_result[i].track.name);
        proof {
            let prev = roster_track_names(api_result@.subrange(0, i as int));
            assert(roster_track_names(api_result@.subrange(0, i + 1)) =~= prev.push(
                api_result@[i as int].track.name@,
            ));
            prev.lemma_push_to_set_commute(api_result@[i as int].track.name@);
        }
        i = i + 1;
    }
    assert(api_result@.subrange(0, i as int) =~= api_result@);
    tracks
}

/// All the roster's categories, each once, in lexicographic order.
pub fn extract_categories(api_result: &[restclient::Racer]) -> (r: Vec<Category>)
    ensures
        categories_extracted(api_result@, r@),
{
    let mut cats: Vec<Category> = Vec::new();
    let mut i: usize = 0;
    proof {
        assert(category_names(cats@).to_set() =~= roster_category_names(api_result@.subrange(0, 0)).to_set());
    }
    while i < api_result.len()
        invariant
            i <= api_result@.len(),
            forall|k: int| 0 <= k < cats@.len() - 1 ==> text_lt(#[trigger] cats@[k].0@, cats@[k + 1].0@),
            category_names(cats@).to_set() == roster_category_names(api_result@.subrange(0, i as int)).to_set(),
        decreases api_result@.len() - i,
    {
        let entry = &api_result[i];
        let ghost prefix = roster_category_names(api_result@.subrange(0, i as int));
        let mut j: usize = 0;
        proof {
            assert(prefix + entry.categories@.subrange(0, 0).map_values(|c: restclient::Category| c.name@) =~= prefix);
        }
        while j < entry.categories.len()
            invariant
                j <= entry.categories@.len(),
                forall|k: int| 0 <= k < cats@.len() - 1 ==> text_lt(#[trigger] cats@[k].0@, cats@[k + 1].0@),
                category_names(cats@).to_set() == (prefix + entry.categories@.subrange(0, j as int).map_values(
                    |c: restclient::Category| c.name@,
                )).to_set(),
            decreases entry.categories@.len() - j,
        {
            insert_category(&mut cats, &entry.categories[j].name);
            proof {
                let before = prefix + entry.categories@.subrange(0, j as int).map_values(
                    |c: restclient::Category| c.name@,
                );
                assert(prefix + entry.categories@.subrange(0, j + 1).map_values(
                    |c: restclient::Category| c.name@,
                ) =~= before.push(entry.categories@[j as int].name@));
                before.lemma_push_to_set_commute(entry.categories@[j as int].name@);
            }
            j = j + 1;
        }
        proof {
            assert(entry.categories@.subrange(0, j as int) =~= entry.categories@);
            assert(api_result@.subrange(0, i + 1).drop_last() =~= api_result@.subrange(0, i as int));
        }
        i = i + 1;
    }
    assert(api_result@.subrange(0, i as int) =~= api_result@);
    cats
}

} // verus!
