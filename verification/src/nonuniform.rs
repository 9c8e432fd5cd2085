//! Searching several files with one budget of clusters: the closest clusters over
//! all the files are probed, however many of them lie in one file.
//!
//! A file goes by a number of the caller's; the same file has the same number.

use crate::heap::{compare_distances, distance_order};
use crate::index::{contents, law_probed_clusters_are_closest, probed, rows_in, IvfIndex};
use crate::order::{
    law_sorted_indices, law_sorting_is_stable, lemma_reordered_multiset, precedes, ranks_of, sorted_indices, stable_order,
};
use crate::ranges::{chunk_ranges, law_ranges_partition, lemma_no_range, lemma_range_start, range_count, range_end, splits};
use crate::scalar::Scalar;
use crate::sums::total;
use std::cmp::Ordering;
use vstd::prelude::*;

verus! {

/// How many rows are read at a time.
pub const CHUNK_ROWS: usize = 1000;

/// The distance of each centroid of a file from the query.
#[derive(Debug)]
pub struct FileDistances {
    pub file: usize,
    pub distances: Vec<Scalar>,
}

/// A cluster of a file and the distance of its centroid from the query. Items
/// compare by distance alone, and a NaN counts as equal to every distance.
#[derive(Clone, Copy, Debug)]
pub struct ClusterItem {
    pub file: usize,
    pub cluster: u32,
    pub distance: Scalar,
}

impl ClusterItem {
    /// How two items compare.
    pub fn cmp(&self, other: &Self) -> (r: Ordering)
        ensures
            r == distance_order(self.distance, other.distance),
    {
        compare_distances(self.distance, other.distance)
    }
}

impl PartialEq for ClusterItem {
    fn eq(&self, other: &Self) -> (r: bool) {
        self.distance.equals(other.distance)
    }
}

impl vstd::std_specs::cmp::PartialEqSpecImpl for ClusterItem {
    open spec fn obeys_eq_spec() -> bool {
        true
    }

    open spec fn eq_spec(&self, other: &Self) -> bool {
        self.distance.same(other.distance)
    }
}

impl Eq for ClusterItem {

}

impl PartialOrd for ClusterItem {
    fn partial_cmp(&self, other: &Self) -> (r: Option<Ordering>) {
        Some(self.cmp(other))
    }
}

impl vstd::std_specs::cmp::PartialOrdSpecImpl for ClusterItem {
    open spec fn obeys_partial_cmp_spec() -> bool {
        true
    }

    open spec fn partial_cmp_spec(&self, other: &Self) -> Option<Ordering> {
        Some(distance_order(self.distance, other.distance))
    }
}

/// The clusters to probe in a file.
#[derive(Debug)]
pub struct FileClusters {
    pub file: usize,
    pub clusters: Vec<u32>,
}

/// A range of the rows of one group, to be read at once.
#[derive(Clone, Copy, PartialEq, Eq, Structural, Debug)]
pub struct ChunkRead {
    pub group: usize,
    pub start: usize,
    pub end: usize,
}

/// How many clusters are probed over all the files; `None` where that exceeds a
/// `usize`.
pub fn probe_budget(nprobe: usize, files: usize) -> (r: Option<usize>)
    ensures
        r is None <==> nprobe * files > usize::MAX,
        r matches Some(budget) ==> budget == nprobe * files,
{
    nprobe.checked_mul(files)
}

/// The clusters of one file.
pub open spec fn clusters_in(file: FileDistances) -> Seq<ClusterItem> {
    Seq::new(
        file.distances@.len(),
        |c: int| ClusterItem { file: file.file, cluster: c as u32, distance: file.distances@[c] },
    )
}

/// The clusters of all files, one file after the other.
pub open spec fn all_clusters(files: Seq<FileDistances>) -> Seq<ClusterItem>
    decreases files.len(),
{
    if files.len() == 0 {
        Seq::empty()
    } else {
        all_clusters(files.drop_last()) + clusters_in(files.last())
    }
}

/// The distances of `items`.
pub open spec fn item_distances(items: Seq<ClusterItem>) -> Seq<Scalar> {
    items.map_values(|item: ClusterItem| item.distance)
}

/// The first `budget` of `items` by ascending distance, or all where there are
/// fewer.
pub open spec fn closest_items(items: Seq<ClusterItem>, budget: nat) -> Seq<ClusterItem> {
    probed(item_distances(items), budget).map_values(|i: usize| items[i as int])
}

/// The budget goes to the closest clusters: none that is passed over is closer
/// than one that is selected, and with a budget for all of them none is passed
/// over.
pub proof fn law_budget_goes_to_closest(items: Seq<ClusterItem>, budget: nat)
    requires
        items.len() <= usize::MAX,
    ensures
        closest_items(items, budget).len() == if budget < items.len() {
            budget
        } else {
            items.len()
        },
        forall|p: int, i: int|
            0 <= p < closest_items(items, budget).len() && 0 <= i < items.len() && !closest_items(items, budget).contains(
                items[i],
            ) ==> !(#[trigger] items[i]).distance.lt((#[trigger] closest_items(items, budget)[p]).distance),
        budget >= items.len() ==> closest_items(items, budget).to_multiset() == items.to_multiset(),
{
    let keys = item_distances(items);
    let picked = probed(keys, budget);
    let closest = closest_items(items, budget);
    law_probed_clusters_are_closest(keys, budget);
    assert forall|p: int, i: int|
        0 <= p < closest.len() && 0 <= i < items.len() && !closest.contains(items[i]) implies !(
    #[trigger] items[i]).distance.lt((#[trigger] closest[p]).distance) by {
        if picked.contains(i as usize) {
            let q = choose|q: int| 0 <= q < picked.len() && picked[q] == i as usize;
            assert(closest[q] == items[i]);
        }
        assert(!keys[i as usize as int].lt(keys[picked[p] as int]));
    }
    if budget >= items.len() {
        law_sorted_indices(keys);
        assert(picked =~= sorted_indices(keys));
        assert forall|p: int, q: int| 0 <= p < q < picked.len() implies #[trigger] picked[p] != #[trigger] picked[q] by {
            assert(precedes(ranks_of(keys), picked[p] as int, picked[q] as int));
        }
        lemma_reordered_multiset(items, picked, closest);
    }
}

/// Where each of the clusters of all files comes from: its place among the files,
/// and in its file.
proof fn lemma_places(files: Seq<FileDistances>) -> (places: Seq<(int, int)>)
    ensures
        places.len() == all_clusters(files).len(),
        places.len() == total(Seq::new(files.len(), |f: int| files[f].distances@.len() as int)),
        forall|i: int|
            0 <= i < places.len() ==> {
                &&& 0 <= (#[trigger] places[i]).0 < files.len()
                &&& 0 <= places[i].1 < files[places[i].0].distances@.len()
                &&& all_clusters(files)[i].file == files[places[i].0].file
                &&& all_clusters(files)[i].cluster == places[i].1 as u32
                &&& all_clusters(files)[i].distance == files[places[i].0].distances@[places[i].1]
            },
        forall|i: int, j: int|
            0 <= i < j < places.len() ==> (#[trigger] places[i]).0 < (#[trigger] places[j]).0 || (places[i].0
                == places[j].0 && places[i].1 < places[j].1),
        forall|f: int, c: int|
            0 <= f < files.len() && 0 <= c < files[f].distances@.len() ==> #[trigger] places.contains((f, c)),
    decreases files.len(),
{
    let sizes = Seq::new(files.len(), |f: int| files[f].distances@.len() as int);
    if files.len() == 0 {
        assert(sizes =~= Seq::<int>::empty());
        Seq::empty()
    } else {
        let front = files.drop_last();
        let before = lemma_places(front);
        let n = files.len() - 1;
        let last = files[n];
        let own = Seq::new(last.distances@.len(), |c: int| (n, c));
        let places = before + own;
        assert(sizes.drop_last() =~= Seq::new(front.len(), |f: int| front[f].distances@.len() as int));
        assert(files.last() == last);
        assert forall|i: int| 0 <= i < places.len() implies {
            &&& 0 <= (#[trigger] places[i]).0 < files.len()
            &&& 0 <= places[i].1 < files[places[i].0].distances@.len()
            &&& all_clusters(files)[i].file == files[places[i].0].file
            &&& all_clusters(files)[i].cluster == places[i].1 as u32
            &&& all_clusters(files)[i].distance == files[places[i].0].distances@[places[i].1]
        } by {
            if i < before.len() {
                assert(places[i] == before[i]);
                assert(front[before[i].0] == files[before[i].0]);
                assert(all_clusters(files)[i] == all_clusters(front)[i]);
            } else {
                assert(places[i] == own[i - before.len()]);
                assert(all_clusters(files)[i] == clusters_in(last)[i - before.len()]);
            }
        }
        assert forall|i: int, j: int| 0 <= i < j < places.len() implies (#[trigger] places[i]).0 < (
        #[trigger] places[j]).0 || (places[i].0 == places[j].0 && places[i].1 < places[j].1) by {
            if j < before.len() {
                assert(places[i] == before[i] && places[j] == before[j]);
            } else if i < before.len() {
                assert(places[i] == before[i] && places[j] == own[j - before.len()]);
            }
        }
        assert forall|f: int, c: int| 0 <= f < files.len() && 0 <= c < files[f].distances@.len() implies #[trigger] places.contains(
            (f, c),
        ) by {
            if f < n {
                assert(front[f] == files[f]);
                assert(before.contains((f, c)));
                let i = choose|i: int| 0 <= i < before.len() && before[i] == (f, c);
                assert(places[i] == (f, c));
            } else {
                assert(places[before.len() + c] == (f, c));
            }
        }
        places
    }
}

/// Every cluster of every file competes for the budget. Those selected are
/// different clusters, as many as the budget allows of all there are, each with
/// its own distance; none is followed by a closer one, or by one of the same
/// distance from an earlier place; and no cluster of any file that is passed over
/// is closer than one of them.
///
/// Gives the place of each selected cluster: that of its file among `files`, and
/// its own in the file.
pub proof fn law_every_cluster_of_every_file_competes(
    files: Seq<FileDistances>,
    budget: nat,
    chosen: Seq<ClusterItem>,
) -> (places: Seq<(int, int)>)
    requires
        total(Seq::new(files.len(), |f: int| files[f].distances@.len() as int)) <= usize::MAX,
        chosen == closest_items(all_clusters(files), budget),
    ensures
        chosen.len() == places.len(),
        chosen.len() == if budget < total(Seq::new(files.len(), |f: int| files[f].distances@.len() as int)) {
            budget as int
        } else {
            total(Seq::new(files.len(), |f: int| files[f].distances@.len() as int))
        },
        places.no_duplicates(),
        forall|p: int|
            0 <= p < places.len() ==> {
                &&& 0 <= (#[trigger] places[p]).0 < files.len()
                &&& 0 <= places[p].1 < files[places[p].0].distances@.len()
                &&& chosen[p].file == files[places[p].0].file
                &&& chosen[p].cluster == places[p].1 as u32
                &&& chosen[p].distance == files[places[p].0].distances@[places[p].1]
            },
        forall|p: int, q: int|
            0 <= p < q < chosen.len() ==> !(#[trigger] chosen[q]).distance.lt((#[trigger] chosen[p]).distance),
        forall|p: int, q: int|
            0 <= p < q < chosen.len() && (#[trigger] chosen[p]).distance.same((#[trigger] chosen[q]).distance)
                ==> places[p].0 < places[q].0 || (places[p].0 == places[q].0 && places[p].1 < places[q].1),
        forall|p: int, f: int, c: int|
            0 <= p < chosen.len() && 0 <= f < files.len() && 0 <= c < files[f].distances@.len() && !places.contains(
                (f, c),
            ) ==> !(#[trigger] files[f].distances@[c]).lt((#[trigger] chosen[p]).distance),
{
    let items = all_clusters(files);
    let all = lemma_places(files);
    let keys = item_distances(items);
    let order = sorted_indices(keys);
    let picked = probed(keys, budget);
    law_sorting_is_stable(keys);
    let places = picked.map_values(|i: usize| all[i as int]);
    assert forall|p: int| 0 <= p < picked.len() implies picked[p] == order[p] && chosen[p] == items[order[p] as int]
        && #[trigger] places[p] == all[order[p] as int] && chosen[p].distance == keys[order[p] as int] && order[p]
        < items.len() by {}
    assert forall|p: int, q: int| 0 <= p < q < places.len() implies places[p] != places[q] by {
        assert(order[p] != order[q]);
        assert(all[order[p] as int] == places[p] && all[order[q] as int] == places[q]);
        if order[p] < order[q] {
            assert(all[order[p] as int] != all[order[q] as int]);
        } else {
            assert(all[order[q] as int] != all[order[p] as int]);
        }
    }
    assert forall|p: int, q: int| 0 <= p < q < chosen.len() implies !(#[trigger] chosen[q]).distance.lt(
        (#[trigger] chosen[p]).distance,
    ) by {
        assert(places[p] == all[order[p] as int] && places[q] == all[order[q] as int]);
        assert(!keys[order[q] as int].lt(keys[order[p] as int]));
    }
    assert forall|p: int, q: int|
        0 <= p < q < chosen.len() && (#[trigger] chosen[p]).distance.same((#[trigger] chosen[q]).distance) implies places[p].0
        < places[q].0 || (places[p].0 == places[q].0 && places[p].1 < places[q].1) by {
        assert(places[p] == all[order[p] as int] && places[q] == all[order[q] as int]);
        assert(order[p] < order[q]);
    }
    assert forall|p: int, f: int, c: int|
        0 <= p < chosen.len() && 0 <= f < files.len() && 0 <= c < files[f].distances@.len() && !places.contains(
            (f, c),
        ) implies !(#[trigger] files[f].distances@[c]).lt((#[trigger] chosen[p]).distance) by {
        assert(all.contains((f, c)));
        let i = choose|i: int| 0 <= i < all.len() && all[i] == (f, c);
        assert(order.contains(i as usize));
        let q = choose|q: int| 0 <= q < order.len() && order[q] == i as usize;
        if q < places.len() {
            assert(places[q] == (f, c));
        }
        assert(places[p] == all[order[p] as int]);
        assert(!keys[order[q] as int].lt(keys[order[p] as int]));
    }
    places
}

proof fn lemma_clusters_of_one_file(items: Seq<ClusterItem>, file: usize)
    requires
        forall|i: int| 0 <= i < items.len() ==> (#[trigger] items[i]).file == file,
    ensures
        clusters_of(items, file) == items.map_values(|item: ClusterItem| item.cluster),
    decreases items.len(),
{
    if items.len() > 0 {
        let shorter = items.drop_last();
        lemma_clusters_of_one_file(shorter, file);
        assert(clusters_of(items, file) =~= items.map_values(|item: ClusterItem| item.cluster));
    } else {
        assert(clusters_of(items, file) =~= items.map_values(|item: ClusterItem| item.cluster));
    }
}

/// In a single file the clusters selected are those that a search of that file
/// probes.
pub proof fn law_one_file_is_probed_as_by_itself(file: FileDistances, nprobe: nat)
    requires
        file.distances@.len() <= u32::MAX,
    ensures
        cluster_positions(clusters_of(closest_items(all_clusters(seq![file]), nprobe), file.file)) == probed(
            file.distances@,
            nprobe,
        ),
{
    let items = all_clusters(seq![file]);
    assert(seq![file].drop_last() =~= Seq::<FileDistances>::empty());
    assert(items =~= clusters_in(file)) by {
        assert(all_clusters(Seq::<FileDistances>::empty()) =~= Seq::<ClusterItem>::empty());
        assert(seq![file].last() == file);
    }
    let keys = item_distances(items);
    assert(keys =~= file.distances@);
    let closest = closest_items(items, nprobe);
    law_probed_clusters_are_closest(keys, nprobe);
    lemma_clusters_of_one_file(closest, file.file);
    assert(cluster_positions(clusters_of(closest, file.file)) =~= probed(file.distances@, nprobe));
}

/// The clusters of all files.
fn collect_clusters(files: &Vec<FileDistances>) -> (r: Vec<ClusterItem>)
    requires
        forall|f: int| 0 <= f < files@.len() ==> (#[trigger] files@[f]).distances@.len() <= u32::MAX,
    ensures
        r@ == all_clusters(files@),
{
    let mut items: Vec<ClusterItem> = Vec::new();
    let mut f: usize = 0;
    while f < files.len()
        invariant
            f <= files@.len(),
            forall|f: int| 0 <= f < files@.len() ==> (#[trigger] files@[f]).distances@.len() <= u32::MAX,
            items@ == all_clusters(files@.take(f as int)),
        decreases files@.len() - f,
    {
        let file = &files[f];
        let ghost before = items@;
        let mut c: usize = 0;
        assert(items@ =~= before + clusters_in(*file).take(0));
        while c < file.distances.len()
            invariant
                c <= file.distances@.len() <= u32::MAX,
                items@ == before + clusters_in(*file).take(c as int),
            decreases file.distances@.len() - c,
        {
            items.push(ClusterItem { file: file.file, cluster: c as u32, distance: file.distances[c] });
            assert(items@ =~= before + clusters_in(*file).take(c + 1));
            c = c + 1;
        }
        proof {
            assert(clusters_in(*file).take(c as int) =~= clusters_in(*file));
            assert(files@.take(f + 1).drop_last() =~= files@.take(f as int));
        }
        f = f + 1;
    }
    assert(files@.take(f as int) =~= files@);
    items
}

/// The `budget` clusters over all files whose centroids are closest, closest
/// first.
pub fn select_clusters(files: &Vec<FileDistances>, budget: usize) -> (r: Vec<ClusterItem>)
    requires
        forall|f: int| 0 <= f < files@.len() ==> (#[trigger] files@[f]).distances@.len() <= u32::MAX,
    ensures
        r@ == closest_items(all_clusters(files@), budget as nat),
{
    let items = collect_clusters(files);
    let mut keys: Vec<Scalar> = Vec::with_capacity(items.len());
    let mut i: usize = 0;
    while i < items.len()
        invariant
            i <= items@.len(),
            keys@.len() == i,
            forall|j: int| 0 <= j < i ==> #[trigger] keys@[j] == items@[j].distance,
        decreases items@.len() - i,
    {
        keys.push(items[i].distance);
        i = i + 1;
    }
    assert(keys@ =~= item_distances(items@));
    let order = stable_order(keys.as_slice());
    let count: usize = if budget < order.len() {
        budget
    } else {
        order.len()
    };
    let mut selected: Vec<ClusterItem> = Vec::with_capacity(count);
    let mut p: usize = 0;
    while p < count
        invariant
            p <= count <= order@.len(),
            forall|q: int| 0 <= q < order@.len() ==> (#[trigger] order@[q]) < items@.len(),
            selected@.len() == p,
            forall|q: int| 0 <= q < p ==> #[trigger] selected@[q] == items@[order@[q] as int],
        decreases count - p,
    {
        selected.push(items[order[p]]);
        p = p + 1;
    }
    assert(selected@ =~= closest_items(items@, budget as nat));
    selected
}

/// The clusters of `items` that lie in `file`, in order.
pub open spec fn clusters_of(items: Seq<ClusterItem>, file: usize) -> Seq<u32>
    decreases items.len(),
{
    if items.len() == 0 {
        Seq::empty()
    } else {
        let front = clusters_of(items.drop_last(), file);
        if items.last().file == file {
            front.push(items.last().cluster)
        } else {
            front
        }
    }
}

/// The files of `items`, each once, in the order in which they first appear.
pub open spec fn files_of(items: Seq<ClusterItem>) -> Seq<usize>
    decreases items.len(),
{
    if items.len() == 0 {
        Seq::empty()
    } else {
        let front = files_of(items.drop_last());
        if front.contains(items.last().file) {
            front
        } else {
            front.push(items.last().file)
        }
    }
}

/// Whether `groups` hold the clusters of `items`, one group for each file.
pub open spec fn groups_by_file(items: Seq<ClusterItem>, groups: Seq<FileClusters>) -> bool {
    &&& groups.len() == files_of(items).len()
    &&& forall|g: int|
        0 <= g < groups.len() ==> (#[trigger] groups[g]).file == files_of(items)[g] && groups[g].clusters@
            == clusters_of(items, groups[g].file)
}

/// The files of `items` are different, and another has no clusters among them.
pub proof fn lemma_files_of(items: Seq<ClusterItem>)
    ensures
        files_of(items).no_duplicates(),
        forall|file: usize| !#[trigger] files_of(items).contains(file) ==> clusters_of(items, file).len() == 0,
    decreases items.len(),
{
    if items.len() > 0 {
        let shorter = items.drop_last();
        lemma_files_of(shorter);
        let front = files_of(shorter);
        let last = items.last().file;
        assert forall|file: usize| !#[trigger] files_of(items).contains(file) implies clusters_of(items, file).len()
            == 0 by {
            if front.contains(file) {
                let i = choose|i: int| 0 <= i < front.len() && front[i] == file;
                assert(files_of(items)[i] == file);
            }
            if file == last && !front.contains(last) {
                assert(files_of(items)[front.len() as int] == file);
            }
        }
    }
}

/// Every cluster selected is in the group of its file, no group is empty, and no
/// two groups are of one file.
pub proof fn law_groups_hold_all_clusters(items: Seq<ClusterItem>, groups: Seq<FileClusters>)
    requires
        groups_by_file(items, groups),
    ensures
        forall|a: int, b: int| 0 <= a < b < groups.len() ==> (#[trigger] groups[a]).file != (#[trigger] groups[b]).file,
        forall|i: int|
            0 <= i < items.len() ==> exists|g: int|
                0 <= g < groups.len() && (#[trigger] groups[g]).file == (#[trigger] items[i]).file
                    && groups[g].clusters@.contains(items[i].cluster),
        forall|g: int| 0 <= g < groups.len() ==> (#[trigger] groups[g]).clusters@.len() > 0,
{
    let files = files_of(items);
    lemma_files_of(items);
    assert forall|a: int, b: int| 0 <= a < b < groups.len() implies (#[trigger] groups[a]).file != (
    #[trigger] groups[b]).file by {
        assert(files[a] != files[b]);
    }
    assert forall|i: int| 0 <= i < items.len() implies exists|g: int|
        0 <= g < groups.len() && (#[trigger] groups[g]).file == (#[trigger] items[i]).file
            && groups[g].clusters@.contains(items[i].cluster) by {
        lemma_item_is_grouped(items, i);
        let g = choose|g: int| 0 <= g < files.len() && files[g] == items[i].file;
        assert(groups[g].file == items[i].file);
    }
    assert forall|g: int| 0 <= g < groups.len() implies (#[trigger] groups[g]).clusters@.len() > 0 by {
        lemma_files_have_clusters(items, g);
    }
}

/// The file and the cluster of each of `items` are among those grouped.
pub proof fn lemma_item_is_grouped(items: Seq<ClusterItem>, i: int)
    requires
        0 <= i < items.len(),
    ensures
        files_of(items).contains(items[i].file),
        clusters_of(items, items[i].file).contains(items[i].cluster),
    decreases items.len(),
{
    let shorter = items.drop_last();
    let front = files_of(shorter);
    let file = items[i].file;
    let some = clusters_of(shorter, file);
    if i < items.len() - 1 {
        lemma_item_is_grouped(shorter, i);
        let g = choose|g: int| 0 <= g < front.len() && front[g] == file;
        assert(files_of(items)[g] == file);
        let c = choose|c: int| 0 <= c < some.len() && some[c] == items[i].cluster;
        assert(clusters_of(items, file)[c] == items[i].cluster);
    } else {
        if !front.contains(file) {
            assert(files_of(items)[front.len() as int] == file);
        }
        assert(clusters_of(items, file)[some.len() as int] == items[i].cluster);
    }
}

proof fn lemma_files_have_clusters(items: Seq<ClusterItem>, g: int)
    requires
        0 <= g < files_of(items).len(),
    ensures
        clusters_of(items, files_of(items)[g]).len() > 0,
    decreases items.len(),
{
    let shorter = items.drop_last();
    if g < files_of(shorter).len() {
        lemma_files_have_clusters(shorter, g);
    }
}

/// Groups `items` by file.
pub fn group_by_file(items: &[ClusterItem]) -> (r: Vec<FileClusters>)
    ensures
        groups_by_file(items@, r@),
{
    let mut groups: Vec<FileClusters> = Vec::new();
    let mut i: usize = 0;
    while i < items.len()
        invariant
            i <= items@.len(),
            groups_by_file(items@.take(i as int), groups@),
        decreases items@.len() - i,
    {
        let item = items[i];
        let ghost before = items@.take(i as int);
        let ghost after = items@.take(i + 1);
        let ghost files = files_of(before);
        let ghost known = groups@;
        proof {
            assert(after.drop_last() =~= before);
            lemma_files_of(before);
        }
        let mut g: usize = 0;
        while g < groups.len() && groups[g].file != item.file
            invariant
                g <= groups@.len(),
                groups@ == known,
                forall|h: int| 0 <= h < g ==> (#[trigger] groups@[h]).file != item.file,
            decreases groups@.len() - g,
        {
            g = g + 1;
        }
        if g < groups.len() {
            groups[g].clusters.push(item.cluster);
            proof {
                assert(files[g as int] == item.file);
                assert(files.contains(item.file));
                assert forall|h: int| 0 <= h < groups@.len() implies (#[trigger] groups@[h]).file == files_of(after)[h]
                    && groups@[h].clusters@ == clusters_of(after, groups@[h].file) by {
                    assert(known[h].file == files[h]);
                    if h == g {
                        assert(groups@[h].clusters@ =~= known[h].clusters@.push(item.cluster));
                    } else {
                        assert(files[h] != files[g as int]);
                    }
                }
            }
        } else {
            let mut clusters: Vec<u32> = Vec::new();
            clusters.push(item.cluster);
            groups.push(FileClusters { file: item.file, clusters });
            proof {
                assert(!files.contains(item.file)) by {
                    if files.contains(item.file) {
                        let h = choose|h: int| 0 <= h < files.len() && files[h] == item.file;
                        assert(known[h].file == files[h]);
                    }
                }
                assert(clusters_of(after, item.file) =~= seq![item.cluster]);
                assert forall|h: int| 0 <= h < groups@.len() implies (#[trigger] groups@[h]).file == files_of(after)[h]
                    && groups@[h].clusters@ == clusters_of(after, groups@[h].file) by {
                    if h < known.len() {
                        assert(groups@[h] == known[h]);
                    }
                }
            }
        }
        i = i + 1;
    }
    assert(items@.take(i as int) =~= items@);
    groups
}

/// The clusters as positions.
pub open spec fn cluster_positions(clusters: Seq<u32>) -> Seq<usize> {
    clusters.map_values(|c: u32| c as usize)
}

/// The rows of `clusters`, one cluster after the other.
pub fn rows_of_clusters(index: &IvfIndex, clusters: &[u32]) -> (r: Vec<u32>)
    requires
        index@.well_formed(),
        forall|p: int| 0 <= p < clusters@.len() ==> (#[trigger] clusters@[p]) < index@.n_clusters,
    ensures
        r@ == rows_in(index@.lists, cluster_positions(clusters@)),
{
    let mut rows: Vec<u32> = Vec::new();
    let mut p: usize = 0;
    assert(cluster_positions(clusters@.take(0)) =~= Seq::<usize>::empty());
    while p < clusters.len()
        invariant
            index@.well_formed(),
            index@.n_clusters <= usize::MAX,
            forall|p: int| 0 <= p < clusters@.len() ==> (#[trigger] clusters@[p]) < index@.n_clusters,
            p <= clusters@.len(),
            rows@ == rows_in(index@.lists, cluster_positions(clusters@.take(p as int))),
        decreases clusters@.len() - p,
    {
        let list = index.get_rows_for_cluster(clusters[p]);
        let ghost before = rows@;
        rows.extend_from_slice(list.as_slice());
        proof {
            assert(rows@ =~= before + list@);
            assert(cluster_positions(clusters@.take(p + 1)).drop_last() =~= cluster_positions(clusters@.take(p as int)));
        }
        p = p + 1;
    }
    assert(clusters@.take(p as int) =~= clusters@);
    rows
}

/// What the reads that succeeded gave, one after the other.
pub open spec fn joined<T>(parts: Seq<Option<Vec<T>>>) -> Seq<T>
    decreases parts.len(),
{
    if parts.len() == 0 {
        Seq::empty()
    } else {
        let front = joined(parts.drop_last());
        match parts.last() {
            Some(values) => front + values@,
            None => front,
        }
    }
}

/// What the reads that succeeded gave, one after the other.
pub fn join_parts<T: Copy>(parts: &Vec<Option<Vec<T>>>) -> (r: Vec<T>)
    ensures
        r@ == joined(parts@),
{
    let mut all: Vec<T> = Vec::new();
    let mut i: usize = 0;
    while i < parts.len()
        invariant
            i <= parts@.len(),
            all@ == joined(parts@.take(i as int)),
        decreases parts@.len() - i,
    {
        assert(parts@.take(i + 1).drop_last() =~= parts@.take(i as int));
        if let Some(values) = &parts[i] {
            let ghost before = all@;
            let mut j: usize = 0;
            assert(all@ =~= before + values@.take(0));
            while j < values.len()
                invariant
                    j <= values@.len(),
                    all@ == before + values@.take(j as int),
                decreases values@.len() - j,
            {
                all.push(values[j]);
                assert(all@ =~= before + values@.take(j + 1));
                j = j + 1;
            }
            assert(values@.take(j as int) =~= values@);
        }
        i = i + 1;
    }
    assert(parts@.take(i as int) =~= parts@);
    all
}

/// The chunks of a group of `len` rows.
pub open spec fn chunks_of(group: int, len: nat) -> Seq<ChunkRead> {
    Seq::new(
        range_count(len, CHUNK_ROWS as nat),
        |c: int|
            ChunkRead {
                group: group as usize,
                start: (c * CHUNK_ROWS) as usize,
                end: range_end(len, CHUNK_ROWS as nat, c) as usize,
            },
    )
}

/// The chunks of all groups, one group after the other. `rows` holds the rows of
/// each group.
pub open spec fn planned<X>(rows: Seq<Seq<X>>) -> Seq<ChunkRead>
    decreases rows.len(),
{
    if rows.len() == 0 {
        Seq::empty()
    } else {
        planned(rows.drop_last()) + chunks_of(rows.len() - 1, rows.last().len())
    }
}

/// Whether `read` is a chunk of the rows of its group: not empty, and no longer
/// than a chunk may be.
pub open spec fn within<X>(rows: Seq<Seq<X>>, read: ChunkRead) -> bool {
    &&& read.group < rows.len()
    &&& read.start < read.end <= rows[read.group as int].len()
    &&& read.end - read.start <= CHUNK_ROWS
}

/// The rows of a chunk.
pub open spec fn chunk_rows<X>(rows: Seq<Seq<X>>, read: ChunkRead) -> Seq<X> {
    rows[read.group as int].subrange(read.start as int, read.end as int)
}

proof fn lemma_chunks_of(group: usize, len: nat, ranges: Seq<(usize, usize)>)
    requires
        splits(ranges, len, CHUNK_ROWS as nat),
        len <= usize::MAX,
    ensures
        chunks_of(group as int, len).len() == ranges.len(),
        forall|c: int|
            0 <= c < ranges.len() ==> #[trigger] chunks_of(group as int, len)[c] == (ChunkRead {
                group,
                start: ranges[c].0,
                end: ranges[c].1,
            }),
{
    assert forall|c: int| 0 <= c < ranges.len() implies #[trigger] chunks_of(group as int, len)[c] == (ChunkRead {
        group,
        start: ranges[c].0,
        end: ranges[c].1,
    }) by {
        assert(ranges[c].0 == c * CHUNK_ROWS);
    }
}

/// The reads of the rows of each group, a chunk at a time: no chunk holds rows of
/// two groups.
pub fn plan_reads(rows: &Vec<Vec<u32>>) -> (r: Vec<ChunkRead>)
    ensures
        r@ == planned(contents(rows@)),
        forall|c: int| 0 <= c < r@.len() ==> within(contents(rows@), #[trigger] r@[c]),
{
    let ghost all = contents(rows@);
    let mut reads: Vec<ChunkRead> = Vec::new();
    let mut group: usize = 0;
    while group < rows.len()
        invariant
            group <= rows@.len(),
            all == contents(rows@),
            reads@ == planned(all.take(group as int)),
            forall|c: int| 0 <= c < reads@.len() ==> within(all, #[trigger] reads@[c]),
        decreases rows@.len() - group,
    {
        let len: usize = rows[group].len();
        let ranges = chunk_ranges(len, CHUNK_ROWS);
        let ghost before = reads@;
        let ghost chunks = chunks_of(group as int, len as nat);
        proof {
            law_ranges_partition(ranges@, len as nat, CHUNK_ROWS as nat);
            lemma_chunks_of(group, len as nat, ranges@);
            assert(all[group as int].len() == len);
        }
        let mut c: usize = 0;
        assert(reads@ =~= before + chunks.take(0));
        while c < ranges.len()
            invariant
                c <= ranges@.len(),
                group < all.len(),
                all[group as int].len() == len,
                splits(ranges@, len as nat, CHUNK_ROWS as nat),
                forall|b: int|
                    0 <= b < ranges@.len() ==> (#[trigger] ranges@[b]).0 < ranges@[b].1 && ranges@[b].1 - ranges@[b].0
                        <= CHUNK_ROWS,
                chunks.len() == ranges@.len(),
                forall|b: int|
                    0 <= b < ranges@.len() ==> #[trigger] chunks[b] == (ChunkRead {
                        group,
                        start: ranges@[b].0,
                        end: ranges@[b].1,
                    }),
                reads@ == before + chunks.take(c as int),
                forall|b: int| 0 <= b < reads@.len() ==> within(all, #[trigger] reads@[b]),
            decreases ranges@.len() - c,
        {
            let (start, end) = ranges[c];
            let ghost earlier = reads@;
            let read = ChunkRead { group, start, end };
            reads.push(read);
            proof {
                assert(chunks[c as int] == read);
                assert(reads@ =~= before + chunks.take(c + 1));
                assert(ranges@[c as int].1 == range_end(len as nat, CHUNK_ROWS as nat, c as int));
                assert forall|b: int| 0 <= b < reads@.len() implies within(all, #[trigger] reads@[b]) by {
                    if b < earlier.len() {
                        assert(within(all, earlier[b]));
                    }
                }
            }
            c = c + 1;
        }
        proof {
            assert(chunks.take(c as int) =~= chunks);
            assert(all.take(group + 1).drop_last() =~= all.take(group as int));
        }
        group = group + 1;
    }
    assert(all.take(group as int) =~= all);
    reads
}

/// The rows of all groups, one group after the other.
pub open spec fn listed<X>(rows: Seq<Seq<X>>) -> Seq<X>
    decreases rows.len(),
{
    if rows.len() == 0 {
        Seq::empty()
    } else {
        listed(rows.drop_last()) + rows.last()
    }
}

/// The rows of the chunks whose reads succeeded, one chunk after the other.
pub open spec fn rows_read<X, T>(rows: Seq<Seq<X>>, plan: Seq<ChunkRead>, parts: Seq<Option<Vec<T>>>) -> Seq<X>
    decreases plan.len(),
{
    if plan.len() == 0 {
        Seq::empty()
    } else {
        let front = rows_read(rows, plan.drop_last(), parts.drop_last());
        match parts.last() {
            Some(_) => front + chunk_rows(rows, plan.last()),
            None => front,
        }
    }
}

/// The rows of the chunks whose reads, given by `parts`, succeeded.
pub fn keep_rows_read<T>(rows: &Vec<Vec<u32>>, plan: &Vec<ChunkRead>, parts: &Vec<Option<Vec<T>>>) -> (r: Vec<u32>)
    requires
        parts@.len() == plan@.len(),
        forall|c: int| 0 <= c < plan@.len() ==> within(contents(rows@), #[trigger] plan@[c]),
    ensures
        r@ == rows_read(contents(rows@), plan@, parts@),
{
    let ghost all = contents(rows@);
    let mut kept: Vec<u32> = Vec::new();
    let mut c: usize = 0;
    while c < plan.len()
        invariant
            c <= plan@.len() == parts@.len(),
            all == contents(rows@),
            forall|c: int| 0 <= c < plan@.len() ==> within(all, #[trigger] plan@[c]),
            kept@ == rows_read(all, plan@.take(c as int), parts@.take(c as int)),
        decreases plan@.len() - c,
    {
        proof {
            assert(plan@.take(c + 1).drop_last() =~= plan@.take(c as int));
            assert(parts@.take(c + 1).drop_last() =~= parts@.take(c as int));
            assert(within(all, plan@[c as int]));
        }
        let read = plan[c];
        if let Some(_) = &parts[c] {
            let ghost before = kept@;
            let chunk = vstd::slice::slice_subrange(rows[read.group].as_slice(), read.start, read.end);
            kept.extend_from_slice(chunk);
            assert(kept@ =~= before + chunk_rows(all, read));
        }
        c = c + 1;
    }
    proof {
        assert(plan@.take(c as int) =~= plan@);
        assert(parts@.take(c as int) =~= parts@);
    }
    kept
}

/// A chunk starts where the one before it ends, the first at the first row, and
/// the last ends with the last row.
proof fn lemma_chunk_at(group: int, len: nat, c: int)
    requires
        0 <= c < chunks_of(group, len).len(),
        0 <= group <= usize::MAX,
        len <= usize::MAX,
    ensures
        ({
            let chunks = chunks_of(group, len);
            &&& chunks[c].group == group
            &&& chunks[c].start < chunks[c].end <= len
            &&& chunks[c].end - chunks[c].start <= CHUNK_ROWS
            &&& chunks[c].start == if c == 0 {
                0
            } else {
                chunks[c - 1].end as int
            }
            &&& c == chunks.len() - 1 ==> chunks[c].end == len
        }),
{
    let size = CHUNK_ROWS as nat;
    let chunks = chunks_of(group, len);
    let ranges = Seq::new(chunks.len(), |c: int| (chunks[c].start, chunks[c].end));
    assert forall|b: int| 0 <= b < ranges.len() implies (#[trigger] ranges[b]).0 == b * size && ranges[b].1 == range_end(
        len,
        size,
        b,
    ) by {
        lemma_range_start(len, size, b);
        assert(chunks[b].start == (b * CHUNK_ROWS) as usize);
    }
    law_ranges_partition(ranges, len, size);
    assert(ranges[c].0 < ranges[c].1);
    if c > 0 {
        assert(ranges[c - 1].1 == ranges[c - 1 + 1].0);
    }
}

/// Every chunk is one of the rows of a single group.
pub proof fn law_chunks_lie_in_one_group<X>(rows: Seq<Seq<X>>)
    requires
        rows.len() <= usize::MAX,
        forall|g: int| 0 <= g < rows.len() ==> (#[trigger] rows[g]).len() <= usize::MAX,
    ensures
        forall|c: int| 0 <= c < planned(rows).len() ==> within(rows, #[trigger] planned(rows)[c]),
    decreases rows.len(),
{
    if rows.len() > 0 {
        let front = rows.drop_last();
        assert forall|g: int| 0 <= g < front.len() implies (#[trigger] front[g]).len() <= usize::MAX by {
            assert(front[g] == rows[g]);
        }
        law_chunks_lie_in_one_group(front);
        let before = planned(front);
        let group = rows.len() - 1;
        assert(rows[group].len() <= usize::MAX);
        assert forall|c: int| 0 <= c < planned(rows).len() implies within(rows, #[trigger] planned(rows)[c]) by {
            if c < before.len() {
                assert(within(front, before[c]));
                assert(planned(rows)[c] == before[c]);
            } else {
                lemma_chunk_at(group, rows[group].len(), c - before.len());
                assert(planned(rows)[c] == chunks_of(group, rows[group].len())[c - before.len()]);
            }
        }
    }
}

/// The rows of the first `count` chunks of a group are its first rows.
proof fn lemma_chunks_cover<X, T>(
    rows: Seq<Seq<X>>,
    group: int,
    front: Seq<ChunkRead>,
    before: Seq<Option<Vec<T>>>,
    parts: Seq<Option<Vec<T>>>,
    count: int,
) -> (end: int)
    requires
        0 <= group < rows.len() <= usize::MAX,
        rows[group].len() <= usize::MAX,
        before.len() == front.len(),
        parts.len() == chunks_of(group, rows[group].len()).len(),
        forall|c: int| 0 <= c < parts.len() ==> #[trigger] parts[c] is Some,
        0 <= count <= parts.len(),
    ensures
        count == 0 ==> end == 0,
        count > 0 ==> end == chunks_of(group, rows[group].len())[count - 1].end,
        0 <= end <= rows[group].len(),
        rows_read(
            rows,
            front + chunks_of(group, rows[group].len()).take(count),
            before + parts.take(count),
        ) == rows_read(rows, front, before) + rows[group].take(end),
    decreases count,
{
    let len = rows[group].len();
    let chunks = chunks_of(group, len);
    if count == 0 {
        assert(front + chunks.take(0) =~= front);
        assert(before + parts.take(0) =~= before);
        assert(rows_read(rows, front, before) + rows[group].take(0) =~= rows_read(rows, front, before));
        0
    } else {
        let start = lemma_chunks_cover(rows, group, front, before, parts, count - 1);
        lemma_chunk_at(group, len, count - 1);
        let plan = front + chunks.take(count);
        let given = before + parts.take(count);
        assert(plan.drop_last() =~= front + chunks.take(count - 1));
        assert(given.drop_last() =~= before + parts.take(count - 1));
        let last = chunks[count - 1];
        assert(plan.last() == last);
        assert(given.last() == parts[count - 1]);
        let end = last.end as int;
        assert(rows[group].take(start) + chunk_rows(rows, last) =~= rows[group].take(end));
        assert(rows_read(rows, front, before) + rows[group].take(start) + chunk_rows(rows, last) =~= rows_read(
            rows,
            front,
            before,
        ) + rows[group].take(end));
        end
    }
}

/// The chunks cover the rows of all groups, in order: where every read succeeds,
/// no row is left out and none comes twice.
pub proof fn law_chunks_cover_all_rows<X, T>(rows: Seq<Seq<X>>, parts: Seq<Option<Vec<T>>>)
    requires
        rows.len() <= usize::MAX,
        forall|g: int| 0 <= g < rows.len() ==> (#[trigger] rows[g]).len() <= usize::MAX,
        parts.len() == planned(rows).len(),
        forall|c: int| 0 <= c < parts.len() ==> #[trigger] parts[c] is Some,
    ensures
        rows_read(rows, planned(rows), parts) == listed(rows),
{
    assert(rows.take(rows.len() as int) =~= rows);
    lemma_chunks_cover_to(rows, parts, rows.len() as int);
    assert(parts.take(parts.len() as int) =~= parts);
}

proof fn lemma_chunks_cover_to<X, T>(rows: Seq<Seq<X>>, parts: Seq<Option<Vec<T>>>, count: int)
    requires
        rows.len() <= usize::MAX,
        forall|g: int| 0 <= g < rows.len() ==> (#[trigger] rows[g]).len() <= usize::MAX,
        0 <= count <= rows.len(),
        parts.len() >= planned(rows.take(count)).len(),
        forall|c: int| 0 <= c < parts.len() ==> #[trigger] parts[c] is Some,
    ensures
        rows_read(rows, planned(rows.take(count)), parts.take(planned(rows.take(count)).len() as int)) == listed(
            rows.take(count),
        ),
    decreases count,
{
    if count > 0 {
        let shorter = rows.take(count - 1);
        let some = rows.take(count);
        assert(some.drop_last() =~= shorter);
        let front = planned(shorter);
        let chunks = chunks_of(count - 1, rows[count - 1].len());
        assert(planned(some) == front + chunks);
        lemma_chunks_cover_to(rows, parts, count - 1);
        let before = parts.take(front.len() as int);
        let own = parts.subrange(front.len() as int, (front.len() + chunks.len()) as int);
        let end = lemma_chunks_cover(rows, count - 1, front, before, own, chunks.len() as int);
        if chunks.len() > 0 {
            lemma_chunk_at(count - 1, rows[count - 1].len(), chunks.len() - 1);
        } else {
            lemma_no_range(rows[count - 1].len(), CHUNK_ROWS as nat);
        }
        assert(chunks.take(chunks.len() as int) =~= chunks);
        assert(before + own.take(chunks.len() as int) =~= parts.take(planned(some).len() as int));
        assert(rows[count - 1].take(rows[count - 1].len() as int) =~= rows[count - 1]);
    }
}

} // verus!
