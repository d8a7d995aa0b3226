use crate::bin::{empty_bin, fits_any, place, Bin, BinView};
use crate::cuboid::fits;
use crate::error::Error;
use crate::item::{item_views, Item, ItemId, ItemView};
use crate::sorting::{lemma_insert_position, lemma_sort_by_key, lemma_sort_maps, sort_by_key};
use vstd::multiset::Multiset;
use vstd::prelude::*;
use vstd::string::StringExecFns;

verus! {

/// The key by which the items are brought into the order in which they are
/// packed: the longest edge, negated, so that the longest item comes first.
pub open spec fn longest_first() -> spec_fn(ItemView) -> int {
    |item: ItemView| -item.dims[2]
}

/// Whether each of the items, by itself, fits into an empty bin of the given
/// shape.
pub open spec fn all_fit(shape: Seq<int>, items: Seq<ItemView>) -> bool {
    forall|k: int| 0 <= k < items.len() ==> fits(shape, (#[trigger] items[k]).dims)
}

/// Whether `j` is the first of the items `rest` that fits into some free
/// space of `bin`.
pub open spec fn is_first_placeable(bin: BinView, rest: Seq<ItemView>, j: int) -> bool {
    &&& 0 <= j < rest.len()
    &&& fits_any(bin.free, rest[j].dims)
    &&& forall|i: int| 0 <= i < j ==> !fits_any(bin.free, (#[trigger] rest[i]).dims)
}

/// Whether any of the items `rest` fits into some free space of `bin`.
pub open spec fn any_placeable(bin: BinView, rest: Seq<ItemView>) -> bool {
    exists|j: int| is_first_placeable(bin, rest, j)
}

/// The index of the first of the items `rest` that fits into `bin`, if there
/// is one.
pub open spec fn first_placeable(bin: BinView, rest: Seq<ItemView>) -> int {
    choose|j: int| is_first_placeable(bin, rest, j)
}

/// The labels of a sequence of items.
pub open spec fn labels(items: Seq<ItemView>) -> Seq<Seq<char>> {
    items.map_values(|item: ItemView| item.id)
}

/// The bins that come of packing the items `rest`, in their order, into the
/// open bin `bin` and then into further bins of the given shape: one sequence
/// of labels for each bin.
///
/// As long as one of the remaining items fits into the open bin, the first
/// that does is placed. When none does, the bin is closed and an empty one is
/// opened. When no item remains, the open bin is closed, unless it is empty.
/// An empty bin that none of the remaining items fits into ends the packing:
/// this does not come about where each item fits an empty bin.
pub open spec fn pack_rest(shape: Seq<int>, bin: BinView, rest: Seq<ItemView>) -> Seq<
    Seq<Seq<char>>,
>
    decreases rest.len(), (if bin.placed.len() == 0 {
        0int
    } else {
        1int
    }),
{
    if rest.len() == 0 {
        if bin.placed.len() == 0 {
            Seq::empty()
        } else {
            seq![labels(bin.placed)]
        }
    } else if any_placeable(bin, rest) {
        let j = first_placeable(bin, rest);
        pack_rest(shape, place(bin, rest[j]), rest.remove(j))
    } else if bin.placed.len() == 0 {
        Seq::empty()
    } else {
        seq![labels(bin.placed)] + pack_rest(shape, empty_bin(shape), rest)
    }
}

/// The bins that come of packing the items into bins of the given shape,
/// longest item first, or `None` where some item does not fit such a bin.
pub open spec fn packing(shape: Seq<int>, items: Seq<ItemView>) -> Option<Seq<Seq<Seq<char>>>> {
    if all_fit(shape, items) {
        Some(pack_rest(shape, empty_bin(shape), sort_by_key(items, longest_first())))
    } else {
        None
    }
}

/// Whether `k` is the first of the items that does not fit an empty bin of
/// the given shape.
pub open spec fn is_first_misfit(shape: Seq<int>, items: Seq<ItemView>, k: int) -> bool {
    &&& 0 <= k < items.len()
    &&& !fits(shape, items[k].dims)
    &&& forall|j: int| 0 <= j < k ==> fits(shape, (#[trigger] items[j]).dims)
}

/// The index of the first item that does not fit an empty bin of the given
/// shape, if there is one.
pub open spec fn first_misfit(shape: Seq<int>, items: Seq<ItemView>) -> int {
    choose|k: int| is_first_misfit(shape, items, k)
}

/// The message of the error that is returned where the item with the given
/// label does not fit.
pub open spec fn misfit_message(label: Seq<char>) -> Seq<char> {
    "All items must fit within the bin dimensions. Item `"@ + label + "` does not fit."@
}

/// What a list of labels holds.
pub open spec fn label_views(ids: Seq<ItemId>) -> Seq<Seq<char>> {
    ids.map_values(|id: ItemId| id@)
}

/// What a list of packed bins holds: the labels in each bin.
pub open spec fn bin_views(bins: Seq<Vec<ItemId>>) -> Seq<Seq<Seq<char>>> {
    bins.map_values(|bin: Vec<ItemId>| label_views(bin@))
}

/// There is only one first item that does not fit.
pub proof fn lemma_first_misfit(shape: Seq<int>, items: Seq<ItemView>, k: int)
    requires
        is_first_misfit(shape, items, k),
    ensures
        first_misfit(shape, items) == k,
        !all_fit(shape, items),
{
    let chosen = first_misfit(shape, items);
    assert(is_first_misfit(shape, items, chosen));
    if chosen < k {
        assert(fits(shape, items[chosen].dims));
    }
    if k < chosen {
        assert(fits(shape, items[k].dims));
    }
}

/// There is only one first item that fits.
pub proof fn lemma_first_placeable(bin: BinView, rest: Seq<ItemView>, j: int)
    requires
        is_first_placeable(bin, rest, j),
    ensures
        first_placeable(bin, rest) == j,
        any_placeable(bin, rest),
{
    let chosen = first_placeable(bin, rest);
    assert(is_first_placeable(bin, rest, chosen));
    if chosen < j {
        assert(!fits_any(bin.free, rest[chosen].dims));
    }
    if j < chosen {
        assert(!fits_any(bin.free, rest[j].dims));
    }
}

/// Packs the items into bins of the shape of `bin`, in a first fit decreasing
/// manner, and returns the labels of the items in each bin.
///
/// The items are taken longest first. Each goes into the first free space of
/// the open bin that it fits into, which is then cut into the free spaces
/// that are left around it. When no item that is left fits into the open
/// bin, a new bin is opened. The first list of the result holds the labels
/// in the first bin, in the order in which they were packed, and so on.
///
/// Where an item does not fit an empty bin, nothing is packed and
/// `Error::AllItemsMustFit` is returned, with a message that names the first
/// such item.
pub fn packing_algorithm(bin: Bin, items: &[Item]) -> (packed: Result<Vec<Vec<ItemId>>, Error>)
    ensures
        packed is Ok <==> all_fit(bin@.shape, item_views(items@)),
        match packed {
            Ok(bins) => {
                &&& packing(bin@.shape, item_views(items@)) == Some(bin_views(bins@))
                &&& bin_views(bins@).flatten().to_multiset() == labels(
                    item_views(items@),
                ).to_multiset()
            },
            Err(Error::AllItemsMustFit(message)) => {
                &&& packing(bin@.shape, item_views(items@)) is None
                &&& message@ == misfit_message(
                    item_views(items@)[first_misfit(bin@.shape, item_views(items@))].id,
                )
            },
        },
{
    let ghost shape = bin@.shape;
    let mut bin_currently_packing = bin.clone_as_empty_bin();
    if let Some(misfit) = first_misfit_index(&bin_currently_packing, items) {
        proof {
            lemma_first_misfit(shape, item_views(items@), misfit as int);
        }
        let message = "All items must fit within the bin dimensions. Item `".to_owned().concat(
            items[misfit].id.as_str(),
        ).concat("` does not fit.");
        return Err(Error::AllItemsMustFit(message));
    }
    // Sort the items in descending order, where order is based on the
    // longest dimension:

    let mut items_to_pack = sort_longest_first(items);
    let mut packed_bins: Vec<Vec<ItemId>> = Vec::new();
    proof {
        assert(bin_views(packed_bins@) =~= Seq::empty());
        assert(bin_views(packed_bins@) + pack_rest(
            shape,
            bin_currently_packing@,
            item_views(items_to_pack@),
        ) =~= pack_rest(shape, bin_currently_packing@, item_views(items_to_pack@)));
        lemma_sorted_items_fit(shape, item_views(items@));
        lemma_packing_keeps_every_item(shape, item_views(items@));
    }

    loop
        invariant_except_break
            bin@.shape == shape,
            bin_currently_packing@.shape == shape,
            bin_currently_packing@.placed.len() == 0 ==> bin_currently_packing@ == empty_bin(
                shape,
            ),
            all_fit(shape, item_views(items_to_pack@)),
            bin_views(packed_bins@) + pack_rest(
                shape,
                bin_currently_packing@,
                item_views(items_to_pack@),
            ) == pack_rest(
                shape,
                empty_bin(shape),
                sort_by_key(item_views(items@), longest_first()),
            ),
        ensures
            bin_views(packed_bins@) == pack_rest(
                shape,
                empty_bin(shape),
                sort_by_key(item_views(items@), longest_first()),
            ),
        decreases items_to_pack.len(), (if bin_currently_packing@.placed.len() == 0 {
            0int
        } else {
            1int
        }),
    {
        let ghost closed = bin_views(packed_bins@);
        let ghost open = bin_currently_packing@;
        let ghost rest = item_views(items_to_pack@);
        if items_to_pack.is_empty() {
            if !bin_currently_packing.items().is_empty() {
                // no more items to pack:
                let ids = labels_of(&bin_currently_packing);
                packed_bins.push(ids);
                assert(bin_views(packed_bins@) =~= closed + seq![labels(open.placed)]);
            } else {
                assert(closed + Seq::<Seq<Seq<char>>>::empty() =~= closed);
            }
            break ;
        }
        match first_placeable_index(&bin_currently_packing, &items_to_pack) {
            Some(packed_item_index) => {
                proof {
                    lemma_first_placeable(open, rest, packed_item_index as int);
                }
                let item = items_to_pack.remove(packed_item_index);
                assert(item_views(items_to_pack@) =~= rest.remove(packed_item_index as int));
                bin_currently_packing.try_packing(item);
            },
            None => {
                // We can't fit any more items into the current bin: add it
                // to our packed bins, and open up a new bin to pack.
                proof {
                    if open.placed.len() == 0 {
                        assert(fits(shape, rest[0].dims));
                        assert(open.free[0] == shape);
                        assert(fits_any(open.free, rest[0].dims));
                        assert(is_first_placeable(open, rest, 0));
                    }
                    assert(!any_placeable(open, rest)) by {
                        if any_placeable(open, rest) {
                            let j = first_placeable(open, rest);
                            assert(is_first_placeable(open, rest, j));
                        }
                    }
                }
                let ids = labels_of(&bin_currently_packing);
                packed_bins.push(ids);
                bin_currently_packing = bin.clone_as_empty_bin();
                proof {
                    assert(bin_views(packed_bins@) =~= closed + seq![labels(open.placed)]);
                    assert((closed + seq![labels(open.placed)]) + pack_rest(
                        shape,
                        empty_bin(shape),
                        rest,
                    ) =~= closed + (seq![labels(open.placed)] + pack_rest(
                        shape,
                        empty_bin(shape),
                        rest,
                    )));
                }
            },
        }
    }

    Ok(packed_bins)
}

/// The index of the first of the items that does not fit into the empty bin.
fn first_misfit_index(bin: &Bin, items: &[Item]) -> (found: Option<usize>)
    requires
        bin@ == empty_bin(bin@.shape),
    ensures
        found matches Some(k) ==> k < items.len() && is_first_misfit(
            bin@.shape,
            item_views(items@),
            k as int,
        ),
        found is None ==> all_fit(bin@.shape, item_views(items@)),
{
    let mut n: usize = 0;
    while n < items.len()
        invariant
            n <= items.len(),
            bin@ == empty_bin(bin@.shape),
            forall|k: int| 0 <= k < n ==> fits(bin@.shape, (#[trigger] item_views(items@)[k]).dims),
        decreases items.len() - n,
    {
        let fit = bin.fits(&items[n]);
        assert(fit == fits(bin@.shape, item_views(items@)[n as int].dims)) by {
            let free = bin@.free;
            let dims = item_views(items@)[n as int].dims;
            if fits_any(free, dims) {
                let k = choose|k: int| 0 <= k < free.len() && fits(#[trigger] free[k], dims);
                assert(free[k] == bin@.shape);
            }
            if fits(bin@.shape, dims) {
                assert(fits(free[0], dims));
            }
        }
        if !fit {
            return Some(n);
        }
        n += 1;
    }
    None
}

/// The items, longest first; items that are equally long keep their order.
fn sort_longest_first(items: &[Item]) -> (sorted: Vec<Item>)
    ensures
        item_views(sorted@) == sort_by_key(item_views(items@), longest_first()),
{
    let mut sorted: Vec<Item> = Vec::new();
    let mut n: usize = 0;
    proof {
        assert(item_views(items@).take(0) =~= Seq::empty());
        assert(item_views(sorted@) =~= Seq::empty());
    }
    while n < items.len()
        invariant
            n <= items.len(),
            sorted.len() == n,
            item_views(sorted@) == sort_by_key(
                item_views(items@).take(n as int),
                longest_first(),
            ),
        decreases items.len() - n,
    {
        let item = items[n].clone();
        let longest = item.get_largest_dim();
        let mut p: usize = sorted.len();
        while p > 0 && sorted[p - 1].get_largest_dim() < longest
            invariant
                p <= sorted.len(),
                longest as int == item@.dims[2],
                forall|k: int|
                    p <= k < sorted.len() ==> (#[trigger] sorted@[k])@.dims[2] < item@.dims[2],
            decreases p,
        {
            p -= 1;
        }
        let ghost prev = sorted@;
        let ghost before = item_views(sorted@);
        let ghost view = item@;
        sorted.insert(p, item);
        proof {
            let seen = item_views(items@).take(n as int);
            assert(item_views(items@).take(n + 1) =~= seen.push(view));
            assert(item_views(items@).take(n + 1).drop_last() =~= seen);
            assert forall|k: int| p <= k < before.len() implies (longest_first())(before[k]) > (
            longest_first())(view) by {
                assert(before[k] == prev[k]@);
            }
            lemma_insert_position(before, view, longest_first(), p as int);
            assert(item_views(sorted@) =~= before.insert(p as int, view));
        }
        n += 1;
    }
    assert(item_views(items@).take(n as int) =~= item_views(items@));
    sorted
}

/// The index of the first of the items that fits into the bin.
fn first_placeable_index(bin: &Bin, items: &Vec<Item>) -> (found: Option<usize>)
    ensures
        found matches Some(j) ==> j < items.len() && is_first_placeable(
            bin@,
            item_views(items@),
            j as int,
        ),
        found is None ==> forall|i: int|
            0 <= i < items.len() ==> !fits_any(bin@.free, (#[trigger] item_views(items@)[i]).dims),
{
    let mut j: usize = 0;
    while j < items.len()
        invariant
            j <= items.len(),
            forall|i: int|
                0 <= i < j ==> !fits_any(bin@.free, (#[trigger] item_views(items@)[i]).dims),
        decreases items.len() - j,
    {
        if bin.fits(&items[j]) {
            return Some(j);
        }
        j += 1;
    }
    None
}

/// The labels of the items in the bin, in the order in which they were
/// packed.
fn labels_of(bin: &Bin) -> (ids: Vec<ItemId>)
    ensures
        label_views(ids@) == labels(bin@.placed),
{
    let items = bin.items();
    let mut ids: Vec<ItemId> = Vec::new();
    let mut n: usize = 0;
    while n < items.len()
        invariant
            n <= items.len(),
            ids.len() == n,
            forall|k: int| 0 <= k < n ==> (#[trigger] ids@[k])@ == items@[k]@.id,
        decreases items.len() - n,
    {
        ids.push(items[n].id.clone());
        n += 1;
    }
    assert(label_views(ids@) =~= labels(item_views(items@)));
    ids
}

/// Sorting the items does not change whether each of them fits.
proof fn lemma_sorted_items_fit(shape: Seq<int>, items: Seq<ItemView>)
    requires
        all_fit(shape, items),
    ensures
        all_fit(shape, sort_by_key(items, longest_first())),
{
    let sorted = sort_by_key(items, longest_first());
    lemma_sort_by_key(items, longest_first());
    assert forall|k: int| 0 <= k < sorted.len() implies fits(shape, (#[trigger] sorted[k]).dims) by {
        assert(sorted.contains(sorted[k]));
        assert(items.contains(sorted[k]));
        let m = choose|m: int| 0 <= m < items.len() && items[m] == sorted[k];
        assert(fits(shape, items[m].dims));
    }
}

/// The label that an item carries.
pub open spec fn label() -> spec_fn(ItemView) -> Seq<char> {
    |item: ItemView| item.id
}

/// Packing the rest loses no item and makes none up: the labels in the bins
/// that come of it are those of the items in the open bin and of the items
/// that were left, each as often as it occurred there.
proof fn lemma_pack_rest_keeps_every_item(shape: Seq<int>, bin: BinView, rest: Seq<ItemView>)
    requires
        all_fit(shape, rest),
        bin.placed.len() == 0 ==> bin == empty_bin(shape),
    ensures
        pack_rest(shape, bin, rest).flatten().to_multiset() == labels(bin.placed).to_multiset().add(
            labels(rest).to_multiset(),
        ),
        forall|k: int|
            0 <= k < pack_rest(shape, bin, rest).len() ==> (#[trigger] pack_rest(
                shape,
                bin,
                rest,
            )[k]).len() > 0,
    decreases rest.len(), (if bin.placed.len() == 0 {
        0int
    } else {
        1int
    }),
{
    broadcast use vstd::seq_lib::group_to_multiset_ensures;

    let bins = pack_rest(shape, bin, rest);
    let here = labels(bin.placed);
    if rest.len() == 0 {
        assert(labels(rest).to_multiset() =~= Multiset::empty());
        if bin.placed.len() == 0 {
            assert(bins.flatten() =~= here);
        } else {
            bins.lemma_flatten_one_element();
        }
        assert(bins.flatten().to_multiset() =~= here.to_multiset().add(
            labels(rest).to_multiset(),
        ));
    } else if any_placeable(bin, rest) {
        let j = first_placeable(bin, rest);
        assert(is_first_placeable(bin, rest, j));
        let next = place(bin, rest[j]);
        let left = rest.remove(j);
        lemma_pack_rest_keeps_every_item(shape, next, left);
        assert(labels(next.placed) =~= here.push(rest[j].id));
        assert(labels(left) =~= labels(rest).remove(j));
        assert(labels(rest)[j] == rest[j].id);
        assert(labels(rest).to_multiset().count(rest[j].id) > 0);
        assert(bins.flatten().to_multiset() =~= here.to_multiset().add(
            labels(rest).to_multiset(),
        ));
    } else if bin.placed.len() == 0 {
        assert(fits(shape, rest[0].dims));
        assert(fits(bin.free[0], rest[0].dims));
        assert(is_first_placeable(bin, rest, 0));
    } else {
        let fresh = empty_bin(shape);
        let later = pack_rest(shape, fresh, rest);
        lemma_pack_rest_keeps_every_item(shape, fresh, rest);
        vstd::seq_lib::lemma_flatten_concat(seq![here], later);
        seq![here].lemma_flatten_one_element();
        vstd::seq_lib::lemma_multiset_commutative(here, later.flatten());
        assert(labels(fresh.placed).to_multiset() =~= Multiset::empty());
        assert(bins.flatten().to_multiset() =~= here.to_multiset().add(
            labels(rest).to_multiset(),
        ));
    }
}

/// No item is lost and none is made up. Where each item fits an empty bin,
/// the items are packed, and the labels in the bins, taken together, are the
/// labels of the items, each as often as it occurs among them. No bin is
/// empty.
pub proof fn lemma_packing_keeps_every_item(shape: Seq<int>, items: Seq<ItemView>)
    requires
        all_fit(shape, items),
    ensures
        packing(shape, items) is Some,
        packing(shape, items).unwrap().flatten().to_multiset() == labels(items).to_multiset(),
        forall|k: int|
            0 <= k < packing(shape, items).unwrap().len() ==> (#[trigger] packing(
                shape,
                items,
            ).unwrap()[k]).len() > 0,
{
    broadcast use vstd::seq_lib::group_to_multiset_ensures;

    let sorted = sort_by_key(items, longest_first());
    lemma_sorted_items_fit(shape, items);
    lemma_pack_rest_keeps_every_item(shape, empty_bin(shape), sorted);
    lemma_sort_maps(items, longest_first(), label());
    assert(labels(sorted) =~= sorted.map_values(label()));
    assert(labels(items) =~= items.map_values(label()));
    assert(labels(empty_bin(shape).placed) =~= Seq::empty());
    assert(labels(empty_bin(shape).placed).to_multiset() =~= Multiset::empty());
    assert(Multiset::<Seq<char>>::empty().add(labels(sorted).to_multiset()) =~= labels(
        sorted,
    ).to_multiset());
}

/// An item that does not fit an empty bin stops the packing: no bins come
/// of it.
pub proof fn lemma_packing_rejects_misfit(shape: Seq<int>, items: Seq<ItemView>, k: int)
    requires
        0 <= k < items.len(),
        !fits(shape, items[k].dims),
    ensures
        packing(shape, items) is None,
{
}

/// Packing is a function of what it is given: the same shape of bin and the
/// same items, in the same order, are packed in the same way.
pub proof fn lemma_packing_is_deterministic(
    bin_1: Bin,
    items_1: Seq<Item>,
    bin_2: Bin,
    items_2: Seq<Item>,
)
    requires
        bin_1@.shape == bin_2@.shape,
        item_views(items_1) == item_views(items_2),
    ensures
        packing(bin_1@.shape, item_views(items_1)) == packing(bin_2@.shape, item_views(items_2)),
{
}

} // verus!
