use crate::cuboid::{
    fits, is_cuboid, lemma_sort3, lemma_total_volume_add, max3, same_edges, sort3, total_volume,
    volume_of,
};
use crate::sorting::{
    insert_by_key, lemma_insert_position, lemma_sort_by_key, sort_by_key, sorted_by_key,
};
use vstd::prelude::*;

verus! {

/// One edge length of a cuboid, as a whole number of the unit of length that
/// the caller picks. Lengths with decimals are given in a smaller unit.
pub type Dimension = u32;

/// The volume of a cuboid. The product of any three edge lengths fits.
pub type Volume = u128;

/// How a side of the container relates to the longest edge of the item that
/// is laid along it. Each variant holds the index of that side.
#[derive(Debug, Clone, Copy, PartialEq, Eq)]
pub enum BestFitKind {
    /// The side is at least twice as long as the item's longest edge.
    DoubledFit(usize),
    /// The side is exactly as long as the item's longest edge.
    ExactFit(usize),
    /// The side is longer than the item's longest edge, but not twice as long.
    GreaterThanFit(usize),
}

impl BestFitKind {
    /// The index of the container's side that was chosen.
    pub open spec fn side(self) -> int {
        match self {
            BestFitKind::DoubledFit(side) => side as int,
            BestFitKind::ExactFit(side) => side as int,
            BestFitKind::GreaterThanFit(side) => side as int,
        }
    }
}

/// The first side of `container` that is at least `bound` long.
pub open spec fn first_side_at_least(container: Seq<int>, bound: int) -> Option<usize> {
    if container[0] >= bound {
        Some(0)
    } else if container[1] >= bound {
        Some(1)
    } else if container[2] >= bound {
        Some(2)
    } else {
        None
    }
}

/// The first side of `container` that is exactly `length` long.
pub open spec fn first_side_equal_to(container: Seq<int>, length: int) -> Option<usize> {
    if container[0] == length {
        Some(0)
    } else if container[1] == length {
        Some(1)
    } else if container[2] == length {
        Some(2)
    } else {
        None
    }
}

/// The side of `container` along which the longest edge of `item` is laid,
/// with the way it fits there. A side on which the item can be stacked twice
/// and a side that it fills exactly are preferred, the one with the lower
/// index first; failing both, it is the first side that is long enough.
pub open spec fn best_fit_kind(container: Seq<int>, item: Seq<int>) -> BestFitKind {
    match (first_side_at_least(container, 2 * item[2]), first_side_equal_to(container, item[2])) {
        (Some(doubled), Some(exact)) => if doubled <= exact {
            BestFitKind::DoubledFit(doubled)
        } else {
            BestFitKind::ExactFit(exact)
        },
        (Some(doubled), None) => BestFitKind::DoubledFit(doubled),
        (None, Some(exact)) => BestFitKind::ExactFit(exact),
        (None, None) => match first_side_at_least(container, item[2]) {
            Some(greater) => BestFitKind::GreaterThanFit(greater),
            None => BestFitKind::GreaterThanFit(2),
        },
    }
}

/// The side of `container`, other than `side_1`, along which the middle edge
/// of `item` is laid: the side that follows `side_1`, unless that one is too
/// short for the middle edge and the remaining side is not.
pub open spec fn middle_side(container: Seq<int>, item: Seq<int>, side_1: int) -> int {
    let next = (side_1 + 1) % 3;
    let last = (side_1 + 2) % 3;
    if item[1] <= container[last] && item[1] > container[next] {
        last
    } else {
        next
    }
}

/// The slab of `container` beyond the longest edge of `item`, along the side
/// on which that edge is laid: the full cross-section of the container where
/// the side is doubled, only the item's own cross-section where it is merely
/// longer, and nothing where the item fills the side exactly.
pub open spec fn slab(container: Seq<int>, item: Seq<int>) -> Seq<Seq<int>> {
    let kind = best_fit_kind(container, item);
    let side_1 = kind.side();
    let over = container[side_1] - item[2];
    match kind {
        BestFitKind::DoubledFit(_) => seq![
            sort3(over, container[(side_1 + 2) % 3], container[(side_1 + 1) % 3]),
        ],
        BestFitKind::ExactFit(_) => Seq::empty(),
        BestFitKind::GreaterThanFit(_) => seq![sort3(over, item[0], item[1])],
    }
}

/// How deep the layer is that holds the item: as deep as the item is long
/// where the side was doubled, else the whole side.
pub open spec fn layer_depth(container: Seq<int>, item: Seq<int>) -> int {
    let kind = best_fit_kind(container, item);
    if kind is DoubledFit {
        item[2]
    } else {
        container[kind.side()]
    }
}

/// The two cuboids that are left of a layer `depth` deep, with a face of
/// `length_2` by `length_3`, around the footprint of `item`, whose middle edge
/// lies along `length_2`. Of the two ways to cut the face, the one with the
/// smaller first piece is taken.
pub open spec fn face_cut(depth: int, length_2: int, length_3: int, item: Seq<int>) -> Seq<
    Seq<int>,
> {
    let block_2a = sort3(depth, length_2, length_3 - item[0]);
    let block_3a = sort3(depth, length_2 - item[1], item[0]);
    let block_2b = sort3(depth, length_2 - item[1], length_3);
    let block_3b = sort3(depth, length_3 - item[0], item[1]);
    if volume_of(block_2a) < volume_of(block_2b) {
        seq![block_2a, block_3a]
    } else {
        seq![block_2b, block_3b]
    }
}

/// The cuboids into which the space of `container` around `item` is cut,
/// before the empty ones are dropped, in the order in which they are cut:
/// the slab beyond the item, then the two pieces around its footprint.
pub open spec fn leftover_candidates(container: Seq<int>, item: Seq<int>) -> Seq<Seq<int>> {
    let side_1 = best_fit_kind(container, item).side();
    let side_2 = middle_side(container, item, side_1);
    let side_3 = 3 - side_1 - side_2;
    slab(container, item) + face_cut(
        layer_depth(container, item),
        container[side_2],
        container[side_3],
        item,
    )
}

/// The test that a cuboid takes up space: its shortest edge is not zero.
pub open spec fn has_volume() -> spec_fn(Seq<int>) -> bool {
    |cuboid: Seq<int>| cuboid[0] > 0
}

/// The key by which leftover cuboids are ordered: their volume.
pub open spec fn volume_key() -> spec_fn(Seq<int>) -> int {
    |cuboid: Seq<int>| volume_of(cuboid)
}

/// The free space that is left of `container` once `item` has been put into
/// it: the cuboids it is cut into that take up space, smallest volume first,
/// those of equal volume in the order in which they were cut.
pub open spec fn leftovers(container: Seq<int>, item: Seq<int>) -> Seq<Seq<int>> {
    sort_by_key(leftover_candidates(container, item).filter(has_volume()), volume_key())
}

/// The cuboids that a sequence of blocks stands for.
pub open spec fn shapes(blocks: Seq<Block>) -> Seq<Seq<int>> {
    blocks.map_values(|block: Block| block@)
}

/// A cuboid whose edges are kept in ascending order.
#[derive(Debug, PartialEq, Eq, Clone, Copy)]
pub struct Block {
    dims: [Dimension; 3],
}

impl View for Block {
    type V = Seq<int>;

    closed spec fn view(&self) -> Seq<int> {
        seq![self.dims[0] as int, self.dims[1] as int, self.dims[2] as int]
    }
}

impl Block {
    /// Every block is a cuboid whose edges fit the `Dimension` type.
    #[verifier::type_invariant]
    pub open spec fn wf(&self) -> bool {
        is_cuboid(self@) && self@[2] <= Dimension::MAX
    }

    /// Builds the block with the three given edges, in any order.
    pub fn new(d1: Dimension, d2: Dimension, d3: Dimension) -> (block: Self)
        ensures
            block@ == sort3(d1 as int, d2 as int, d3 as int),
            block.wf(),
    {
        let mut a: Dimension = d1;
        let mut b: Dimension = d2;
        let mut c: Dimension = d3;
        if a > b {
            let t: Dimension = a;
            a = b;
            b = t;
        }
        if b > c {
            let t: Dimension = b;
            b = c;
            c = t;
        }
        if a > b {
            let t: Dimension = a;
            a = b;
            b = t;
        }
        Block { dims: [a, b, c] }
    }

    /// The edges, in ascending order.
    pub fn dims(&self) -> (dims: [Dimension; 3])
        ensures
            dims@.len() == 3,
            forall|k: int| 0 <= k < 3 ==> dims@[k] as int == self@[k],
    {
        self.dims
    }

    /// The product of the three edges.
    pub fn volume(&self) -> (volume: Volume)
        ensures
            volume as int == volume_of(self@),
    {
        let a: Volume = self.dims[0] as Volume;
        let b: Volume = self.dims[1] as Volume;
        let c: Volume = self.dims[2] as Volume;
        assert(a * b <= 0xffff_ffff * 0xffff_ffff) by (nonlinear_arith)
            requires
                a <= 0xffff_ffff,
                b <= 0xffff_ffff,
        ;
        assert(a * b * c <= 0xffff_ffff * 0xffff_ffff * 0xffff_ffff) by (nonlinear_arith)
            requires
                a * b <= 0xffff_ffff * 0xffff_ffff,
                c <= 0xffff_ffff,
        ;
        a * b * c
    }

    /// Whether `other` fits into this block in some orientation.
    pub fn does_it_fit(&self, other: &Block) -> (fit: bool)
        ensures
            fit == fits(self@, other@),
    {
        self.dims[0] >= other.dims[0] && self.dims[1] >= other.dims[1] && self.dims[2]
            >= other.dims[2]
    }

    /// Cuts the space of this block around `item` into the cuboids that are
    /// left free, smallest first. Returns `None` where the item does not fit.
    pub fn best_fit(self, item: &Block) -> (rest: Option<Vec<Block>>)
        ensures
            rest is Some <==> fits(self@, item@),
            rest matches Some(blocks) ==> {
                &&& shapes(blocks@) == leftovers(self@, item@)
                &&& volume_of(item@) + total_volume(shapes(blocks@)) == volume_of(self@)
            },
    {
        if !self.does_it_fit(item) {
            return None;
        }
        proof {
            use_type_invariant(&self);
            use_type_invariant(item);
            lemma_leftovers(self@, item@);
        }
        let kind = self._get_best_fit(item);
        let (side_1, depth, mut blocks) = self.cut_slab(item, kind);
        let ghost slab = shapes(blocks@);
        let (side_2, side_3) = self._get_side_2_side_3(item, side_1);
        let (block_2, block_3) = Self::cut_face(
            depth,
            self.dims[side_2],
            self.dims[side_3],
            item,
        );
        blocks.push(block_2);
        blocks.push(block_3);
        assert(shapes(blocks@) =~= slab + seq![block_2@, block_3@]);

        let kept = Self::keep_with_volume(&blocks);
        Some(Self::sort_by_volume(&kept))
    }

    /// Cuts off the slab beyond the item's longest edge. Returns the side
    /// along which that edge lies, the depth of the layer that holds the item,
    /// and the slab, if there is one.
    fn cut_slab(&self, item: &Block, kind: BestFitKind) -> (cut: (usize, Dimension, Vec<Block>))
        requires
            fits(self@, item@),
            kind == best_fit_kind(self@, item@),
            0 <= kind.side() < 3,
            self@[kind.side()] >= item@[2],
        ensures
            cut.0 as int == kind.side(),
            cut.1 as int == layer_depth(self@, item@),
            shapes(cut.2@) == slab(self@, item@),
    {
        let mut blocks: Vec<Block> = Vec::new();
        match kind {
            BestFitKind::DoubledFit(i) => {
                // The item can be stacked twice along this side: the whole
                // cross-section beyond it stays free, and the rest is cut at
                // the height of the item.
                let block_1 = Block::new(
                    self.dims[i] - item.dims[2],
                    self.dims[(i + 2) % 3],
                    self.dims[(i + 1) % 3],
                );
                blocks.push(block_1);
                assert(shapes(blocks@) =~= seq![block_1@]);
                (i, item.dims[2], blocks)
            },
            BestFitKind::ExactFit(i) => {
                assert(shapes(blocks@) =~= Seq::empty());
                (i, self.dims[i], blocks)
            },
            BestFitKind::GreaterThanFit(i) => {
                let block_1 = Block::new(self.dims[i] - item.dims[2], item.dims[0], item.dims[1]);
                blocks.push(block_1);
                assert(shapes(blocks@) =~= seq![block_1@]);
                (i, self.dims[i], blocks)
            },
        }
    }

    /// Cuts the face of the layer around the item's footprint in two.
    fn cut_face(depth: Dimension, length_2: Dimension, length_3: Dimension, item: &Block) -> (cut:
        (Block, Block))
        requires
            length_2 >= item@[1],
            length_3 >= item@[0],
        ensures
            seq![cut.0@, cut.1@] == face_cut(
                depth as int,
                length_2 as int,
                length_3 as int,
                item@,
            ),
    {
        // option one for the remaining blocks
        let block_2a = Block::new(depth, length_2, length_3 - item.dims[0]);
        let block_3a = Block::new(depth, length_2 - item.dims[1], item.dims[0]);

        // option two for the remaining blocks
        let block_2b = Block::new(depth, length_2 - item.dims[1], length_3);
        let block_3b = Block::new(depth, length_3 - item.dims[0], item.dims[1]);

        // select the option whose first block is the smaller one
        if block_2a.volume() < block_2b.volume() {
            (block_2a, block_3a)
        } else {
            (block_2b, block_3b)
        }
    }

    /// The blocks among `blocks` that take up space, in their order.
    fn keep_with_volume(blocks: &Vec<Block>) -> (kept: Vec<Block>)
        ensures
            shapes(kept@) == shapes(blocks@).filter(has_volume()),
    {
        let mut kept: Vec<Block> = Vec::new();
        let mut n: usize = 0;
        proof {
            reveal(Seq::filter);
            assert(shapes(blocks@).take(0) =~= Seq::empty());
            assert(shapes(kept@) =~= Seq::empty());
        }
        while n < blocks.len()
            invariant
                n <= blocks.len(),
                shapes(kept@) == shapes(blocks@).take(n as int).filter(has_volume()),
            decreases blocks.len() - n,
        {
            let block = blocks[n];
            let ghost before = shapes(kept@);
            proof {
                let seen = shapes(blocks@).take(n as int);
                seen.lemma_filter_push(block@, has_volume());
                assert(shapes(blocks@).take(n + 1) =~= seen.push(block@));
            }
            if block.dims[0] != 0 {
                kept.push(block);
                assert(shapes(kept@) =~= before.push(block@));
            }
            n += 1;
        }
        assert(shapes(blocks@).take(n as int) =~= shapes(blocks@));
        kept
    }

    /// The blocks in ascending order of volume; blocks of equal volume keep
    /// their order.
    fn sort_by_volume(blocks: &Vec<Block>) -> (sorted: Vec<Block>)
        ensures
            shapes(sorted@) == sort_by_key(shapes(blocks@), volume_key()),
    {
        let mut sorted: Vec<Block> = Vec::new();
        let mut n: usize = 0;
        proof {
            assert(shapes(blocks@).take(0) =~= Seq::empty());
            assert(shapes(sorted@) =~= Seq::empty());
        }
        while n < blocks.len()
            invariant
                n <= blocks.len(),
                sorted.len() == n,
                shapes(sorted@) == sort_by_key(shapes(blocks@).take(n as int), volume_key()),
            decreases blocks.len() - n,
        {
            let block = blocks[n];
            let volume = block.volume();
            let mut p: usize = sorted.len();
            while p > 0 && sorted[p - 1].volume() > volume
                invariant
                    p <= sorted.len(),
                    volume as int == volume_of(block@),
                    forall|k: int|
                        p <= k < sorted.len() ==> volume_of(#[trigger] sorted@[k]@) > volume_of(
                            block@,
                        ),
                decreases p,
            {
                p -= 1;
            }
            let ghost prev = sorted@;
            let ghost before = shapes(sorted@);
            sorted.insert(p, block);
            proof {
                let seen = shapes(blocks@).take(n as int);
                assert(shapes(blocks@).take(n + 1) =~= seen.push(block@));
                assert(shapes(blocks@).take(n + 1).drop_last() =~= seen);
                assert forall|k: int| p <= k < before.len() implies (volume_key())(before[k]) > (
                volume_key())(block@) by {
                    assert(before[k] == prev[k]@);
                }
                lemma_insert_position(before, block@, volume_key(), p as int);
                assert(shapes(sorted@) =~= before.insert(p as int, block@));
            }
            n += 1;
        }
        assert(shapes(blocks@).take(n as int) =~= shapes(blocks@));
        sorted
    }

    /// The two sides of the container other than `side_1`: first the one for
    /// the item's middle edge, then the one for its shortest edge. The middle
    /// edge is turned away from a side that is too short for it.
    fn _get_side_2_side_3(&self, item: &Block, side_1: usize) -> (sides: (usize, usize))
        requires
            side_1 < 3,
            fits(self@, item@),
        ensures
            sides.0 as int == middle_side(self@, item@, side_1 as int),
            sides.1 as int == 3 - side_1 - sides.0,
            sides.0 < 3,
            sides.1 < 3,
            self@[sides.0 as int] >= item@[1],
            self@[sides.1 as int] >= item@[0],
    {
        proof {
            use_type_invariant(self);
            use_type_invariant(item);
        }
        if item.dims[1] > self.dims[(side_1 + 2) % 3] {
            ((side_1 + 1) % 3, (side_1 + 2) % 3)
        } else if item.dims[1] > self.dims[(side_1 + 1) % 3] {
            ((side_1 + 2) % 3, (side_1 + 1) % 3)
        } else {
            ((side_1 + 1) % 3, (side_1 + 2) % 3)
        }
    }

    /// Finds the side of this block along which the longest edge of `item`
    /// is laid, and how it fits there.
    fn _get_best_fit(&self, item: &Block) -> (kind: BestFitKind)
        requires
            fits(self@, item@),
        ensures
            kind == best_fit_kind(self@, item@),
            0 <= kind.side() < 3,
            self@[kind.side()] >= item@[2],
    {
        let longest: u64 = item.dims[2] as u64;
        let doubled_fit_side = self.first_side_at_least(2 * longest);
        let exact_fit_side = self.first_side_equal_to(item.dims[2]);

        match (doubled_fit_side, exact_fit_side) {
            (Some(i), None) => BestFitKind::DoubledFit(i),
            (None, Some(i)) => BestFitKind::ExactFit(i),
            (Some(doubled_i), Some(exact_i)) => {
                if doubled_i <= exact_i {
                    BestFitKind::DoubledFit(doubled_i)
                } else {
                    BestFitKind::ExactFit(exact_i)
                }
            },
            (None, None) => {
                match self.first_side_at_least(longest) {
                    Some(i) => BestFitKind::GreaterThanFit(i),
                    None => BestFitKind::GreaterThanFit(2),
                }
            },
        }
    }

    /// The first side that is at least `bound` long.
    fn first_side_at_least(&self, bound: u64) -> (side: Option<usize>)
        ensures
            side == first_side_at_least(self@, bound as int),
    {
        let mut i: usize = 0;
        while i < 3
            invariant
                i <= 3,
                forall|k: int| 0 <= k < i ==> self@[k] < bound,
            decreases 3 - i,
        {
            if self.dims[i] as u64 >= bound {
                return Some(i);
            }
            i += 1;
        }
        None
    }

    /// The first side that is exactly `length` long.
    fn first_side_equal_to(&self, length: Dimension) -> (side: Option<usize>)
        ensures
            side == first_side_equal_to(self@, length as int),
    {
        let mut i: usize = 0;
        while i < 3
            invariant
                i <= 3,
                forall|k: int| 0 <= k < i ==> self@[k] != length,
            decreases 3 - i,
        {
            if self.dims[i] == length {
                return Some(i);
            }
            i += 1;
        }
        None
    }
}

/// Dropping the cuboids that take up no space does not change the volume.
proof fn lemma_total_volume_filter(cuboids: Seq<Seq<int>>)
    requires
        forall|k: int| 0 <= k < cuboids.len() ==> is_cuboid(#[trigger] cuboids[k]),
    ensures
        total_volume(cuboids.filter(has_volume())) == total_volume(cuboids),
    decreases cuboids.len(),
{
    reveal(Seq::filter);
    if cuboids.len() > 0 {
        let front = cuboids.drop_last();
        let last = cuboids.last();
        lemma_total_volume_filter(front);
        if has_volume()(last) {
            assert(front.filter(has_volume()).push(last).drop_last() =~= front.filter(has_volume()));
        } else {
            assert(is_cuboid(last));
            assert(last[0] * last[1] * last[2] == 0) by (nonlinear_arith)
                requires
                    last[0] == 0,
            ;
        }
    }
}

/// Putting a cuboid into a sequence by its volume raises the total volume
/// by that volume.
proof fn lemma_total_volume_insert(sorted: Seq<Seq<int>>, cuboid: Seq<int>)
    ensures
        total_volume(insert_by_key(sorted, cuboid, volume_key())) == total_volume(sorted)
            + volume_of(cuboid),
    decreases sorted.len(),
{
    if sorted.len() == 0 || volume_key()(sorted.last()) <= volume_key()(cuboid) {
        assert(sorted.push(cuboid).drop_last() =~= sorted);
    } else {
        lemma_total_volume_insert(sorted.drop_last(), cuboid);
        let mid = insert_by_key(sorted.drop_last(), cuboid, volume_key());
        assert(mid.push(sorted.last()).drop_last() =~= mid);
    }
}

/// Sorting cuboids by volume does not change their total volume.
proof fn lemma_total_volume_sort(cuboids: Seq<Seq<int>>)
    ensures
        total_volume(sort_by_key(cuboids, volume_key())) == total_volume(cuboids),
    decreases cuboids.len(),
{
    if cuboids.len() > 0 {
        lemma_total_volume_sort(cuboids.drop_last());
        lemma_total_volume_insert(
            sort_by_key(cuboids.drop_last(), volume_key()),
            cuboids.last(),
        );
    }
}

/// The two pieces around the item's footprint are cuboids, none of them
/// longer than the longest of the layer's three edges, and together they
/// hold the volume of the layer less that of the footprint.
proof fn lemma_face_cut(depth: int, length_2: int, length_3: int, item: Seq<int>)
    requires
        0 <= depth,
        0 <= item[0] <= length_3,
        0 <= item[1] <= length_2,
    ensures
        face_cut(depth, length_2, length_3, item).len() == 2,
        forall|k: int|
            #![trigger face_cut(depth, length_2, length_3, item)[k]]
            0 <= k < 2 ==> is_cuboid(face_cut(depth, length_2, length_3, item)[k]) && face_cut(
                depth,
                length_2,
                length_3,
                item,
            )[k][2] <= max3(depth, length_2, length_3),
        total_volume(face_cut(depth, length_2, length_3, item)) == depth * length_2 * length_3
            - depth * item[1] * item[0],
{
    let i0 = item[0];
    let i1 = item[1];
    let cut = face_cut(depth, length_2, length_3, item);
    lemma_sort3(depth, length_2, length_3 - i0);
    lemma_sort3(depth, length_2 - i1, i0);
    lemma_sort3(depth, length_2 - i1, length_3);
    lemma_sort3(depth, length_3 - i0, i1);
    assert(cut.drop_last().drop_last() =~= Seq::empty());
    assert(total_volume(cut) == volume_of(cut[0]) + volume_of(cut[1])) by {
        assert(total_volume(cut.drop_last().drop_last()) == 0);
        assert(cut.drop_last().last() == cut[0]);
        assert(total_volume(cut.drop_last()) == volume_of(cut[0]));
    }
    assert(depth * length_2 * (length_3 - i0) + depth * (length_2 - i1) * i0 == depth * length_2
        * length_3 - depth * i1 * i0) by (nonlinear_arith);
    assert(depth * (length_2 - i1) * length_3 + depth * (length_3 - i0) * i1 == depth * length_2
        * length_3 - depth * i1 * i0) by (nonlinear_arith);
}

/// What the cut pieces are, before the empty ones are dropped: cuboids no
/// longer than the container, which together with the item hold exactly the
/// volume of the container.
proof fn lemma_leftover_candidates(container: Seq<int>, item: Seq<int>)
    requires
        is_cuboid(container),
        is_cuboid(item),
        fits(container, item),
    ensures
        leftover_candidates(container, item).len() <= 3,
        forall|k: int|
            #![trigger leftover_candidates(container, item)[k]]
            0 <= k < leftover_candidates(container, item).len() ==> is_cuboid(
                leftover_candidates(container, item)[k],
            ) && leftover_candidates(container, item)[k][2] <= container[2],
        volume_of(item) + total_volume(leftover_candidates(container, item)) == volume_of(
            container,
        ),
{
    let kind = best_fit_kind(container, item);
    let side_1 = kind.side();
    let side_2 = middle_side(container, item, side_1);
    let side_3 = 3 - side_1 - side_2;
    let depth = layer_depth(container, item);
    let over = container[side_1] - item[2];
    let first = slab(container, item);
    let cut = face_cut(depth, container[side_2], container[side_3], item);
    let (i0, i1, i2) = (item[0], item[1], item[2]);
    let (l1, l2, l3) = (container[side_1], container[side_2], container[side_3]);
    assert(0 <= side_1 < 3 && l1 >= i2);
    assert(l2 >= i1 && l3 >= i0);
    assert(same_edges(container[0], container[1], container[2], l1, l2, l3));
    lemma_face_cut(depth, l2, l3, item);
    lemma_total_volume_add(first, cut);
    assert(l1 * l2 * l3 == volume_of(container)) by (nonlinear_arith)
        requires
            same_edges(container[0], container[1], container[2], l1, l2, l3),
            volume_of(container) == container[0] * container[1] * container[2],
    ;
    assert(volume_of(item) == i2 * i1 * i0) by (nonlinear_arith)
        requires
            volume_of(item) == i0 * i1 * i2,
    ;
    match kind {
        BestFitKind::DoubledFit(_) => {
            lemma_sort3(over, container[(side_1 + 2) % 3], container[(side_1 + 1) % 3]);
            assert(first.drop_last() =~= Seq::empty());
            assert(total_volume(first.drop_last()) == 0);
            assert(total_volume(first) == volume_of(first.last()));
            assert(total_volume(first) == over * container[(side_1 + 2) % 3] * container[(side_1
                + 1) % 3]);
            assert(total_volume(first) == (l1 - i2) * l2 * l3) by (nonlinear_arith)
                requires
                    total_volume(first) == over * container[(side_1 + 2) % 3] * container[(side_1
                        + 1) % 3],
                    over == l1 - i2,
                    (container[(side_1 + 2) % 3] == l2 && container[(side_1 + 1) % 3] == l3) || (
                    container[(side_1 + 2) % 3] == l3 && container[(side_1 + 1) % 3] == l2),
            ;
            assert(i2 * i1 * i0 + (l1 - i2) * l2 * l3 + (i2 * l2 * l3 - i2 * i1 * i0) == l1 * l2
                * l3) by (nonlinear_arith);
        },
        BestFitKind::ExactFit(_) => {
            assert(total_volume(first) == 0);
        },
        BestFitKind::GreaterThanFit(_) => {
            lemma_sort3(over, i0, i1);
            assert(first.drop_last() =~= Seq::empty());
            assert(total_volume(first.drop_last()) == 0);
            assert(total_volume(first) == volume_of(first.last()));
            assert(total_volume(first) == over * i0 * i1);
            assert(i2 * i1 * i0 + (l1 - i2) * i0 * i1 + (l1 * l2 * l3 - l1 * i1 * i0) == l1 * l2
                * l3) by (nonlinear_arith);
        },
    }
    assert forall|k: int| 0 <= k < leftover_candidates(container, item).len() implies is_cuboid(
        #[trigger] leftover_candidates(container, item)[k],
    ) && leftover_candidates(container, item)[k][2] <= container[2] by {
        if k >= first.len() {
            assert(leftover_candidates(container, item)[k] == cut[k - first.len()]);
        }
    }
}

/// What is left free of a container once an item has been put into it.
///
/// The pieces are at most three cuboids, each of which takes up space and is
/// no longer than the container; they come in ascending order of volume; and
/// the volume of the item and that of the pieces add up to exactly the volume
/// of the container.
pub proof fn lemma_leftovers(container: Seq<int>, item: Seq<int>)
    requires
        is_cuboid(container),
        is_cuboid(item),
        fits(container, item),
    ensures
        leftovers(container, item).len() <= 3,
        forall|k: int|
            #![trigger leftovers(container, item)[k]]
            0 <= k < leftovers(container, item).len() ==> {
                &&& is_cuboid(leftovers(container, item)[k])
                &&& leftovers(container, item)[k][0] > 0
                &&& leftovers(container, item)[k][2] <= container[2]
                &&& volume_of(leftovers(container, item)[k]) > 0
            },
        sorted_by_key(leftovers(container, item), volume_key()),
        volume_of(item) + total_volume(leftovers(container, item)) == volume_of(container),
{
    let cut = leftover_candidates(container, item);
    let kept = cut.filter(has_volume());
    let sorted = leftovers(container, item);
    lemma_leftover_candidates(container, item);
    lemma_total_volume_filter(cut);
    lemma_total_volume_sort(kept);
    lemma_sort_by_key(kept, volume_key());
    cut.lemma_filter_len(has_volume());
    assert forall|k: int| 0 <= k < sorted.len() implies {
        &&& is_cuboid(#[trigger] sorted[k])
        &&& sorted[k][0] > 0
        &&& sorted[k][2] <= container[2]
        &&& volume_of(sorted[k]) > 0
    } by {
        let piece = sorted[k];
        assert(sorted.contains(piece));
        assert(kept.contains(piece));
        let m = choose|m: int| 0 <= m < kept.len() && kept[m] == piece;
        cut.lemma_filter_pred(has_volume(), m);
        cut.lemma_filter_contains_rev(has_volume(), piece);
        let n = choose|n: int| 0 <= n < cut.len() && cut[n] == piece;
        assert(is_cuboid(cut[n]));
        assert(piece[0] * piece[1] * piece[2] > 0) by (nonlinear_arith)
            requires
                0 < piece[0] <= piece[1] <= piece[2],
        ;
    }
}

} // verus!
