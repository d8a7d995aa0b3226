use bin_packer_3d::bin::Bin;
use bin_packer_3d::error::Error;
use bin_packer_3d::item::{Item, ItemId};
use bin_packer_3d::packing_algorithm::packing_algorithm;
use std::cmp::Ordering;

fn sorted(mut labels: Vec<ItemId>) -> Vec<ItemId> {
    labels.sort();
    labels
}

fn assorted_items() -> Vec<Item> {
    let mut items = Vec::new();
    for n in 0..40u32 {
        let dims = [1 + n % 4, 1 + (n * 7) % 5, 1 + (n * 3) % 6];
        items.push(Item::new(&format!("item{}", n % 25), dims));
    }
    items
}

#[test]
fn packing_loses_no_item_and_makes_none_up() {
    let items = assorted_items();
    let bins = packing_algorithm(Bin::new([4, 5, 6]), &items).unwrap();
    let packed: Vec<ItemId> = bins.iter().flatten().cloned().collect();
    let given: Vec<ItemId> = items.iter().map(|item| item.id.clone()).collect();
    assert_eq!(packed.len(), 40);
    assert_eq!(sorted(packed), sorted(given));
}

#[test]
fn packing_leaves_no_bin_empty() {
    let items = assorted_items();
    let bins = packing_algorithm(Bin::new([4, 5, 6]), &items).unwrap();
    assert!(bins.len() > 1);
    assert!(bins.len() <= items.len());
    for bin in &bins {
        assert!(!bin.is_empty());
    }
}

#[test]
fn packing_the_same_items_twice_gives_the_same_bins() {
    let items = assorted_items();
    let first = packing_algorithm(Bin::new([4, 5, 6]), &items);
    let second = packing_algorithm(Bin::new([6, 4, 5]), &items.clone());
    assert!(first.is_ok());
    assert_eq!(first, second);
}

#[test]
fn packing_takes_the_longest_item_first() {
    let items = vec![
        Item::new("short", [1, 1, 3]),
        Item::new("long", [9, 1, 1]),
        Item::new("middle", [1, 5, 1]),
    ];
    let bins = packing_algorithm(Bin::new([50, 50, 50]), &items).unwrap();
    assert_eq!(bins, vec![vec!["long", "middle", "short"]]);
}

#[test]
fn packing_keeps_the_order_of_equally_long_items() {
    let items = vec![
        Item::new("c", [2, 2, 5]),
        Item::new("tall", [1, 1, 8]),
        Item::new("a", [1, 1, 5]),
        Item::new("b", [5, 2, 1]),
    ];
    let bins = packing_algorithm(Bin::new([50, 50, 50]), &items).unwrap();
    assert_eq!(bins, vec![vec!["tall", "c", "a", "b"]]);
}

#[test]
fn packing_fills_the_open_bin_before_it_opens_another() {
    // The second item does not fit beside the first, the third does.
    let items = vec![
        Item::new("big", [4, 4, 6]),
        Item::new("wide", [4, 4, 5]),
        Item::new("flat", [4, 4, 2]),
    ];
    let bins = packing_algorithm(Bin::new([4, 4, 8]), &items).unwrap();
    assert_eq!(bins, vec![vec!["big", "flat"], vec!["wide"]]);
}

#[test]
fn packing_rejects_an_item_that_fits_no_empty_bin() {
    let fine = Item::new("fine", [1, 1, 1]);
    let long = Item::new("long", [1, 1, 6]);
    let wide = Item::new("wide", [4, 4, 4]);
    for items in [
        vec![long.clone()],
        vec![long.clone(), fine.clone()],
        vec![fine.clone(), long.clone()],
        vec![fine.clone(), fine.clone(), long.clone(), wide.clone()],
    ] {
        assert_eq!(
            packing_algorithm(Bin::new([3, 4, 5]), &items),
            Err(Error::AllItemsMustFit(
                "All items must fit within the bin dimensions. Item `long` does not fit."
                    .to_string()
            ))
        );
    }
}

#[test]
fn packing_names_the_first_item_that_does_not_fit() {
    let items = vec![
        Item::new("fine", [5, 4, 3]),
        Item::new("wide", [4, 4, 4]),
        Item::new("long", [1, 1, 6]),
    ];
    assert_eq!(
        packing_algorithm(Bin::new([3, 4, 5]), &items),
        Err(Error::AllItemsMustFit(
            "All items must fit within the bin dimensions. Item `wide` does not fit.".to_string()
        ))
    );
}

#[test]
fn packing_goes_by_the_shape_of_the_bin_not_by_what_is_in_it() {
    let mut used = Bin::new([2, 2, 2]);
    assert_eq!(used.try_packing(Item::new("first", [2, 2, 2])), Some(()));
    let items = vec![Item::new("a", [2, 2, 2]), Item::new("b", [2, 2, 1])];
    let bins = packing_algorithm(used, &items).unwrap();
    assert_eq!(bins, vec![vec!["a"], vec!["b"]]);
}

#[test]
fn packing_items_without_volume() {
    let items = vec![Item::new("a", [0, 0, 0]), Item::new("b", [0, 0, 0])];
    let bins = packing_algorithm(Bin::new([0, 0, 0]), &items).unwrap();
    assert_eq!(bins, vec![vec!["a"], vec!["b"]]);
    let bins = packing_algorithm(Bin::new([1, 1, 1]), &items).unwrap();
    assert_eq!(bins, vec![vec!["a", "b"]]);
}

#[test]
fn bin_fits_what_fits_one_of_its_free_blocks() {
    let mut bin = Bin::new([24, 10, 4]);
    let item = Item::new("item", [24, 10, 2]);
    assert!(bin.fits(&item));
    assert!(!bin.fits(&Item::new("tall", [24, 10, 5])));
    assert_eq!(bin.try_packing(item.clone()), Some(()));
    assert!(bin.fits(&item));
    assert!(!bin.fits(&Item::new("thick", [24, 10, 3])));
    assert_eq!(bin.try_packing(item.clone()), Some(()));
    assert!(!bin.fits(&item));
    assert!(!bin.fits(&Item::new("small", [1, 1, 1])));
}

#[test]
fn bin_is_left_as_it_is_when_an_item_does_not_fit() {
    let mut bin = Bin::new([4, 4, 8]);
    assert_eq!(bin.try_packing(Item::new("big", [4, 4, 6])), Some(()));
    assert_eq!(bin.try_packing(Item::new("wide", [4, 4, 5])), None);
    assert_eq!(bin.items().len(), 1);
    assert_eq!(bin.items()[0].id, "big");
    assert!(bin.fits(&Item::new("flat", [4, 4, 2])));
    assert!(!bin.fits(&Item::new("thick", [4, 4, 3])));
}

#[test]
fn bin_takes_the_first_free_block_that_fits() {
    // What is left of the bin comes smallest first: (2, 4, 4), (4, 4, 4).
    let mut bin = Bin::new([4, 4, 8]);
    assert_eq!(bin.try_packing(Item::new("a", [2, 4, 4])), Some(()));
    // This item goes into the smaller block, which it fills.
    assert_eq!(bin.try_packing(Item::new("b", [2, 4, 4])), Some(()));
    assert!(bin.fits(&Item::new("c", [4, 4, 4])));
    assert_eq!(bin.try_packing(Item::new("c", [4, 4, 4])), Some(()));
    assert!(!bin.fits(&Item::new("d", [1, 1, 1])));
}

#[test]
fn empty_clone_has_the_shape_that_the_bin_was_made_with() {
    let mut bin = Bin::new([2, 3, 4]);
    assert_eq!(bin.try_packing(Item::new("all", [4, 3, 2])), Some(()));
    assert!(!bin.fits(&Item::new("more", [1, 1, 1])));
    let empty = bin.clone_as_empty_bin();
    assert!(empty.items().is_empty());
    assert!(empty.fits(&Item::new("all", [2, 3, 4])));
    assert!(!empty.fits(&Item::new("more", [2, 3, 5])));
    assert_eq!(bin.items().len(), 1);
}

#[test]
fn item_has_its_label_and_its_sorted_edges() {
    let item = Item::new("deck", [12, 2, 8]);
    assert_eq!(item.id, "deck");
    assert_eq!(item.block.dims(), [2, 8, 12]);
    assert_eq!(item.get_largest_dim(), 12);
    let copy = item.clone();
    assert_eq!(copy.id, "deck");
    assert_eq!(copy.block, item.block);
}

#[test]
fn items_are_equal_where_their_labels_are() {
    assert!(Item::new("a", [1, 2, 3]) == Item::new("a", [4, 5, 6]));
    assert!(Item::new("a", [1, 2, 3]) != Item::new("b", [1, 2, 3]));
}

#[test]
fn items_are_ordered_by_their_longest_edge() {
    let short = Item::new("short", [3, 3, 3]);
    let long = Item::new("long", [1, 4, 1]);
    let other = Item::new("other", [4, 4, 4]);
    assert_eq!(short.partial_cmp(&long), Some(Ordering::Less));
    assert_eq!(long.partial_cmp(&short), Some(Ordering::Greater));
    assert_eq!(long.partial_cmp(&other), Some(Ordering::Equal));
    assert!(short < long);
    assert!(long > short);
    assert!(long <= other && long >= other);
}
