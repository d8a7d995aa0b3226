use crate::block::{Block, Dimension};
use crate::cuboid::sort3;
use std::cmp::Ordering;
use vstd::prelude::*;
use vstd::std_specs::cmp::{PartialEqSpecImpl, PartialOrdSpecImpl};

verus! {

/// The label by which a caller tells its items apart. Nothing requires two
/// items to have different labels, though it is wise to give each its own.
pub type ItemId = String;

/// What an item is to the packer: its label and the edges of its cuboid, in
/// ascending order.
pub struct ItemView {
    pub id: Seq<char>,
    pub dims: Seq<int>,
}

/// An item to be packed: a label and a cuboid.
#[derive(Debug)]
pub struct Item {
    /// The label.
    pub id: ItemId,
    /// The cuboid that the item takes up.
    pub block: Block,
}

impl View for Item {
    type V = ItemView;

    open spec fn view(&self) -> ItemView {
        ItemView { id: self.id@, dims: self.block@ }
    }
}

/// What a sequence of items is to the packer.
pub open spec fn item_views(items: Seq<Item>) -> Seq<ItemView> {
    items.map_values(|item: Item| item@)
}

impl Item {
    /// Creates an item from its label and its three edges, in any order.
    pub fn new(id: &str, dims: [Dimension; 3]) -> (item: Self)
        ensures
            item@.id == id@,
            item@.dims == sort3(dims[0] as int, dims[1] as int, dims[2] as int),
            item.block.wf(),
    {
        Self { id: id.to_owned(), block: Block::new(dims[0], dims[1], dims[2]) }
    }

    /// The longest edge of the item.
    pub fn get_largest_dim(&self) -> (longest: Dimension)
        ensures
            longest as int == self@.dims[2],
    {
        let dims = self.block.dims();
        dims[2]
    }
}

impl Clone for Item {
    fn clone(&self) -> (copy: Self)
        ensures
            copy == *self,
    {
        Item { id: self.id.clone(), block: self.block }
    }
}

/// Two items are the same item where their labels are the same.
impl PartialEq for Item {
    fn eq(&self, other: &Self) -> (same: bool) {
        self.id == other.id
    }
}

impl PartialEqSpecImpl for Item {
    open spec fn obeys_eq_spec() -> bool {
        true
    }

    open spec fn eq_spec(&self, other: &Self) -> bool {
        self.id@ == other.id@
    }
}

impl Eq for Item {

}

/// How two longest edges compare.
pub open spec fn edge_order(left: int, right: int) -> Ordering {
    if left < right {
        Ordering::Less
    } else if left == right {
        Ordering::Equal
    } else {
        Ordering::Greater
    }
}

/// Items are ordered by their longest edge.
impl PartialOrd for Item {
    fn partial_cmp(&self, other: &Self) -> (order: Option<Ordering>) {
        let left = self.get_largest_dim();
        let right = other.get_largest_dim();
        if left < right {
            Some(Ordering::Less)
        } else if left == right {
            Some(Ordering::Equal)
        } else {
            Some(Ordering::Greater)
        }
    }
}

impl PartialOrdSpecImpl for Item {
    open spec fn obeys_partial_cmp_spec() -> bool {
        true
    }

    open spec fn partial_cmp_spec(&self, other: &Self) -> Option<Ordering> {
        Some(edge_order(self@.dims[2], other@.dims[2]))
    }
}

} // verus!
