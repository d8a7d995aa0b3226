use bin_packer_3d::block::{Block, Volume};

const ORDERS: [[usize; 3]; 6] = [
    [0, 1, 2],
    [0, 2, 1],
    [1, 0, 2],
    [1, 2, 0],
    [2, 0, 1],
    [2, 1, 0],
];

fn turned(edges: [u32; 3], order: [usize; 3]) -> Block {
    Block::new(edges[order[0]], edges[order[1]], edges[order[2]])
}

fn total(blocks: &[Block]) -> Volume {
    blocks.iter().map(|block| block.volume()).sum()
}

#[test]
fn block_keeps_its_edges_in_ascending_order() {
    for order in ORDERS {
        assert_eq!(turned([7, 3, 5], order).dims(), [3, 5, 7]);
    }
    assert_eq!(Block::new(4, 4, 1).dims(), [1, 4, 4]);
    assert_eq!(Block::new(0, 9, 0).dims(), [0, 0, 9]);
}

#[test]
fn block_does_not_depend_on_the_order_of_its_edges() {
    for order in ORDERS {
        assert_eq!(turned([7, 3, 5], order), Block::new(3, 5, 7));
    }
}

#[test]
fn fit_does_not_depend_on_the_order_of_the_edges() {
    let containers = [[4, 22, 14], [3, 14, 14], [5, 5, 5], [1, 2, 3]];
    let items = [[4, 12, 14], [14, 4, 12], [5, 5, 6], [3, 2, 1], [1, 1, 1]];
    for container in containers {
        for item in items {
            let expected = Block::new(container[0], container[1], container[2])
                .does_it_fit(&Block::new(item[0], item[1], item[2]));
            for container_order in ORDERS {
                for item_order in ORDERS {
                    assert_eq!(
                        turned(container, container_order).does_it_fit(&turned(item, item_order)),
                        expected
                    );
                }
            }
        }
    }
}

#[test]
fn fit_compares_the_sorted_edges_one_by_one() {
    let container = Block::new(3, 14, 14);
    assert!(container.does_it_fit(&Block::new(3, 14, 14)));
    assert!(container.does_it_fit(&Block::new(14, 3, 13)));
    assert!(!container.does_it_fit(&Block::new(4, 4, 4)));
    assert!(!container.does_it_fit(&Block::new(1, 1, 15)));
    assert!(!container.does_it_fit(&Block::new(1, 15, 1)));
    assert!(container.does_it_fit(&Block::new(0, 0, 0)));
}

#[test]
fn volume_is_the_product_of_the_edges() {
    assert_eq!(Block::new(0, 5, 7).volume(), 0);
    assert_eq!(Block::new(1, 1, 1).volume(), 1);
    assert_eq!(Block::new(2, 3, 7).volume(), 42);
    assert_eq!(
        Block::new(u32::MAX, u32::MAX, u32::MAX).volume(),
        79_228_162_458_924_105_385_300_197_375
    );
}

#[test]
fn splitting_a_doubled_side_leaves_three_blocks() {
    let container = Block::new(10, 10, 10);
    assert_eq!(
        container.best_fit(&Block::new(5, 5, 5)),
        Some(vec![
            Block::new(5, 5, 5),
            Block::new(5, 5, 10),
            Block::new(5, 10, 10)
        ])
    );
}

#[test]
fn splitting_a_longer_side_leaves_a_slab_over_the_item() {
    let container = Block::new(4, 5, 5);
    assert_eq!(
        container.best_fit(&Block::new(1, 2, 3)),
        Some(vec![
            Block::new(1, 1, 2),
            Block::new(2, 4, 4),
            Block::new(3, 4, 5)
        ])
    );
}

#[test]
fn splitting_prefers_the_exact_side_with_the_lower_index() {
    // The shortest side fits the item exactly, the next one twice.
    let container = Block::new(2, 4, 4);
    assert_eq!(
        container.best_fit(&Block::new(1, 1, 2)),
        Some(vec![Block::new(1, 2, 3), Block::new(2, 3, 4)])
    );
}

#[test]
fn splitting_turns_the_middle_edge_to_the_side_that_holds_it() {
    let container = Block::new(2, 5, 6);
    assert_eq!(
        container.best_fit(&Block::new(1, 4, 6)),
        Some(vec![Block::new(1, 2, 6), Block::new(1, 4, 6)])
    );
}

#[test]
fn splitting_takes_the_cut_with_the_smaller_first_block() {
    let container = Block::new(3, 10, 12);
    assert_eq!(
        container.best_fit(&Block::new(2, 4, 12)),
        Some(vec![Block::new(1, 10, 12), Block::new(2, 6, 12)])
    );
}

#[test]
fn splitting_drops_blocks_without_volume() {
    let container = Block::new(1, 1, 1);
    assert_eq!(
        container.best_fit(&Block::new(0, 0, 0)),
        Some(vec![Block::new(1, 1, 1)])
    );
    assert_eq!(
        Block::new(0, 0, 0).best_fit(&Block::new(0, 0, 0)),
        Some(vec![])
    );
    assert_eq!(
        Block::new(0, 3, 3).best_fit(&Block::new(0, 1, 2)),
        Some(vec![])
    );
}

#[test]
fn splitting_refuses_an_item_that_does_not_fit() {
    assert_eq!(Block::new(2, 2, 2).best_fit(&Block::new(1, 1, 3)), None);
    assert_eq!(Block::new(0, 0, 0).best_fit(&Block::new(0, 0, 1)), None);
}

#[test]
fn splitting_conserves_volume() {
    let mut pairs = 0;
    for c1 in 0..=6 {
        for c2 in c1..=6 {
            for c3 in c2..=7 {
                for i1 in 0..=c1 {
                    for i2 in i1..=c2 {
                        for i3 in i2..=c3 {
                            let container = Block::new(c1, c2, c3);
                            let item = Block::new(i1, i2, i3);
                            let rest = container.best_fit(&item).unwrap();
                            assert_eq!(item.volume() + total(&rest), container.volume());
                            pairs += 1;
                        }
                    }
                }
            }
        }
    }
    assert!(pairs > 1000);
}

#[test]
fn splitting_conserves_volume_at_the_limit() {
    let container = Block::new(u32::MAX, u32::MAX, u32::MAX);
    let item = Block::new(1, u32::MAX / 2, u32::MAX - 1);
    let rest = container.best_fit(&item).unwrap();
    assert_eq!(item.volume() + total(&rest), container.volume());
}

#[test]
fn leftovers_take_up_space_and_come_smallest_first() {
    for c1 in 1..=5 {
        for c2 in c1..=6 {
            for c3 in c2..=9 {
                for i1 in 0..=c1 {
                    for i2 in i1..=c2 {
                        for i3 in i2..=c3 {
                            let container = Block::new(c1, c2, c3);
                            let rest = container.best_fit(&Block::new(i1, i2, i3)).unwrap();
                            assert!(rest.len() <= 3);
                            for block in &rest {
                                assert!(block.volume() > 0);
                                assert!(container.does_it_fit(block));
                            }
                            for pair in rest.windows(2) {
                                assert!(pair[0].volume() <= pair[1].volume());
                            }
                        }
                    }
                }
            }
        }
    }
}
