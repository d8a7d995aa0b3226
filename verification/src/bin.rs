use crate::block::{leftovers, lemma_leftovers, shapes, Block, Dimension};
use crate::cuboid::{
    fits, is_cuboid, lemma_total_volume_add, lemma_total_volume_remove, sort3, total_volume,
    volume_of,
};
use crate::item::{item_views, Item, ItemView};
use vstd::prelude::*;

verus! {

/// What a bin is to the packer: the cuboid that it was made as, the cuboids
/// of free space that are left of it, and the items put into it so far, in
/// the order in which they were put.
pub struct BinView {
    pub shape: Seq<int>,
    pub free: Seq<Seq<int>>,
    pub placed: Seq<ItemView>,
}

/// The bin of the given shape with nothing in it: all of it is free.
pub open spec fn empty_bin(shape: Seq<int>) -> BinView {
    BinView { shape, free: seq![shape], placed: Seq::empty() }
}

/// The volume of a sequence of items, taken together.
pub open spec fn placed_volume(placed: Seq<ItemView>) -> int
    decreases placed.len(),
{
    if placed.len() == 0 {
        0
    } else {
        placed_volume(placed.drop_last()) + volume_of(placed.last().dims)
    }
}

/// Whether `item` fits into one of the free cuboids.
pub open spec fn fits_any(free: Seq<Seq<int>>, item: Seq<int>) -> bool {
    exists|k: int| 0 <= k < free.len() && fits(#[trigger] free[k], item)
}

/// Whether `k` is the first of the free cuboids that `item` fits into.
pub open spec fn is_first_fit(free: Seq<Seq<int>>, item: Seq<int>, k: int) -> bool {
    &&& 0 <= k < free.len()
    &&& fits(free[k], item)
    &&& forall|j: int| 0 <= j < k ==> !fits(#[trigger] free[j], item)
}

/// The index of the first free cuboid that `item` fits into, if there is one.
pub open spec fn first_fit(free: Seq<Seq<int>>, item: Seq<int>) -> int {
    choose|k: int| is_first_fit(free, item, k)
}

/// The bin after `item` has gone into the first free cuboid that it fits
/// into: that cuboid is taken out, what is left of it around the item is
/// added behind the others, and the item is added behind the items placed
/// before it.
pub open spec fn place(bin: BinView, item: ItemView) -> BinView {
    let k = first_fit(bin.free, item.dims);
    BinView {
        shape: bin.shape,
        free: bin.free.remove(k) + leftovers(bin.free[k], item.dims),
        placed: bin.placed.push(item),
    }
}

/// What holds of every bin. Its shape and its free cuboids are cuboids, none
/// of the free ones longer than the bin; unless the bin itself has no volume,
/// every free cuboid takes up space; and the free space and the items placed
/// make up the volume of the bin exactly.
pub open spec fn is_bin(bin: BinView) -> bool {
    &&& is_cuboid(bin.shape)
    &&& bin.shape[2] <= Dimension::MAX
    &&& forall|k: int|
        0 <= k < bin.free.len() ==> is_cuboid(#[trigger] bin.free[k]) && bin.free[k][2]
            <= bin.shape[2]
    &&& volume_of(bin.shape) > 0 ==> forall|k: int|
        0 <= k < bin.free.len() ==> volume_of(#[trigger] bin.free[k]) > 0
    &&& total_volume(bin.free) + placed_volume(bin.placed) == volume_of(bin.shape)
}

/// There is only one first fit.
pub proof fn lemma_first_fit(free: Seq<Seq<int>>, item: Seq<int>, k: int)
    requires
        is_first_fit(free, item, k),
    ensures
        first_fit(free, item) == k,
        fits_any(free, item),
{
    let chosen = first_fit(free, item);
    assert(is_first_fit(free, item, chosen));
    if chosen < k {
        assert(!fits(free[chosen], item));
    }
    if k < chosen {
        assert(!fits(free[k], item));
    }
}

/// A bin that items can be put into.
#[derive(Debug)]
pub struct Bin {
    /// The cuboid that the bin was made as.
    shape: Block,
    /// The cuboids of free space that are left in the bin.
    blocks: Vec<Block>,
    /// The items that are packed inside the bin.
    items: Vec<Item>,
}

impl View for Bin {
    type V = BinView;

    closed spec fn view(&self) -> BinView {
        BinView { shape: self.shape@, free: shapes(self.blocks@), placed: item_views(self.items@) }
    }
}

impl Bin {
    /// Every bin is well formed: see `is_bin`.
    #[verifier::type_invariant]
    pub open spec fn wf(&self) -> bool {
        is_bin(self@)
    }

    /// Creates an empty bin from its three edges, in any order.
    pub fn new(dims: [Dimension; 3]) -> (bin: Self)
        ensures
            bin@ == empty_bin(sort3(dims[0] as int, dims[1] as int, dims[2] as int)),
            bin.wf(),
    {
        Self::with_shape(Block::new(dims[0], dims[1], dims[2]))
    }

    /// The empty bin of the given shape.
    fn with_shape(shape: Block) -> (bin: Self)
        ensures
            bin@ == empty_bin(shape@),
            bin.wf(),
    {
        proof {
            use_type_invariant(&shape);
        }
        let mut blocks: Vec<Block> = Vec::new();
        blocks.push(shape);
        let items: Vec<Item> = Vec::new();
        proof {
            assert(shapes(blocks@) =~= seq![shape@]);
            assert(item_views(items@) =~= Seq::empty());
            assert(shapes(blocks@).drop_last() =~= Seq::empty());
            assert(total_volume(shapes(blocks@).drop_last()) == 0);
        }
        Self { shape, blocks, items }
    }

    /// A bin without volume and without free space.
    fn without_volume() -> (bin: Self)
        ensures
            bin@.shape == sort3(0, 0, 0),
            bin@.free == Seq::<Seq<int>>::empty(),
            bin@.placed == Seq::<ItemView>::empty(),
            bin.wf(),
    {
        let shape = Block::new(0, 0, 0);
        let blocks: Vec<Block> = Vec::new();
        let items: Vec<Item> = Vec::new();
        proof {
            assert(shapes(blocks@) =~= Seq::empty());
            assert(item_views(items@) =~= Seq::empty());
            assert(shape@[0] == 0 && shape@[1] == 0 && shape@[2] == 0);
            assert(volume_of(shape@) == 0);
        }
        Self { shape, blocks, items }
    }

    /// The items that were packed into the bin, in the order in which they
    /// were packed.
    pub fn items(&self) -> (items: &Vec<Item>)
        ensures
            item_views(items@) == self@.placed,
    {
        &self.items
    }

    /// Whether the item fits into some free space of the bin, in some
    /// orientation.
    pub fn fits(&self, item: &Item) -> (fit: bool)
        ensures
            fit == fits_any(self@.free, item@.dims),
    {
        self.first_fit_index(item).is_some()
    }

    /// The index of the first free block that the item fits into.
    fn first_fit_index(&self, item: &Item) -> (found: Option<usize>)
        ensures
            found is Some <==> fits_any(self@.free, item@.dims),
            found matches Some(k) ==> k < self.blocks.len() && is_first_fit(
                self@.free,
                item@.dims,
                k as int,
            ),
    {
        let mut k: usize = 0;
        while k < self.blocks.len()
            invariant
                k <= self.blocks.len(),
                forall|j: int| 0 <= j < k ==> !fits(#[trigger] self@.free[j], item@.dims),
            decreases self.blocks.len() - k,
        {
            if self.blocks[k].does_it_fit(&item.block) {
                assert(fits(self@.free[k as int], item@.dims));
                return Some(k);
            }
            k += 1;
        }
        None
    }

    /// Puts the item into the first free space that it fits into, and cuts
    /// what is left of that space into new free blocks. Returns `None`, and
    /// leaves the bin as it is, where the item fits nowhere.
    pub fn try_packing(&mut self, item: Item) -> (packed: Option<()>)
        ensures
            packed is Some <==> fits_any(old(self)@.free, item@.dims),
            packed is Some ==> final(self)@ == place(old(self)@, item@),
            packed is None ==> final(self)@ == old(self)@,
            final(self).wf(),
    {
        proof {
            use_type_invariant(&*self);
        }
        let index = match self.first_fit_index(&item) {
            Some(index) => index,
            None => {
                return None;
            },
        };
        proof {
            use_type_invariant(&item.block);
            lemma_first_fit(self@.free, item@.dims, index as int);
        }
        let ghost before = self@;

        // The bin is taken apart and put together again, with a bin without
        // volume in its place meanwhile, so that it is well formed throughout.
        let mut bin = Self::without_volume();
        std::mem::swap(self, &mut bin);
        let Bin { shape, mut blocks, mut items } = bin;

        let block_to_pack = blocks.remove(index);
        let ghost others = shapes(blocks@);
        assert(others =~= before.free.remove(index as int));
        if let Some(mut rest) = block_to_pack.best_fit(&item.block) {
            let ghost cut = shapes(rest@);
            blocks.append(&mut rest);
            assert(shapes(blocks@) =~= others + cut);
        }
        items.push(item);

        proof {
            let after = place(before, item@);
            assert(shapes(blocks@) == after.free);
            assert(item_views(items@) =~= after.placed);
            assert(after.placed.drop_last() =~= before.placed);
            lemma_leftovers(block_to_pack@, item@.dims);
            lemma_total_volume_remove(before.free, index as int);
            lemma_total_volume_add(others, leftovers(block_to_pack@, item@.dims));
            assert(is_bin(after));
        }
        *self = Bin { shape, blocks, items };
        Some(())
    }

    /// A new bin of the same shape as this one was made with, with nothing
    /// in it.
    pub fn clone_as_empty_bin(&self) -> (bin: Self)
        ensures
            bin@ == empty_bin(self@.shape),
            bin.wf(),
    {
        Self::with_shape(self.shape)
    }
}

impl Clone for Bin {
    fn clone(&self) -> (copy: Self)
        ensures
            copy@ == self@,
    {
        proof {
            use_type_invariant(self);
        }
        let mut blocks: Vec<Block> = Vec::new();
        let mut n: usize = 0;
        while n < self.blocks.len()
            invariant
                n <= self.blocks.len(),
                blocks@ == self.blocks@.take(n as int),
            decreases self.blocks.len() - n,
        {
            blocks.push(self.blocks[n]);
            assert(self.blocks@.take(n + 1) =~= self.blocks@.take(n as int).push(self.blocks@[n as int]));
            n += 1;
        }
        let mut items: Vec<Item> = Vec::new();
        let mut m: usize = 0;
        while m < self.items.len()
            invariant
                m <= self.items.len(),
                items@ == self.items@.take(m as int),
            decreases self.items.len() - m,
        {
            items.push(self.items[m].clone());
            assert(self.items@.take(m + 1) =~= self.items@.take(m as int).push(self.items@[m as int]));
            m += 1;
        }
        assert(blocks@ =~= self.blocks@);
        assert(items@ =~= self.items@);
        Bin { shape: self.shape, blocks, items }
    }
}

} // verus!
