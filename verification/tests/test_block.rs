use bin_packer_3d::bin::Bin;
use bin_packer_3d::block::{Block, Dimension};
use bin_packer_3d::error::Error;
use bin_packer_3d::item::Item;

/// Edge lengths are whole numbers of a unit that the caller picks. Lengths
/// with decimals are given in hundredths.
fn scaled(length: f64) -> Dimension {
    (length * 100.0).round() as Dimension
}

#[test]
fn test_block_creation() -> Result<(), Error> {
    Block::new(1, 2, 3);
    Ok(())
}

#[test]
fn test_item_creation() -> Result<(), Error> {
    Item::new("asdf", [1, 2, 3]);
    Ok(())
}

#[test]
fn test_bin_creation() -> Result<(), Error> {
    Bin::new([1 as Dimension, 2 as Dimension, 3 as Dimension]);
    Ok(())
}

#[test]
fn test_block_volume() -> Result<(), Error> {
    let b = Block::new(3 as Dimension, 4 as Dimension, 5 as Dimension);
    assert_eq!(b.volume(), 60);
    Ok(())
}

#[test]
fn test_block_volume_large_values() -> Result<(), Error> {
    let b = Block::new(200 as Dimension, 100 as Dimension, 200 as Dimension);
    assert_eq!(b.volume(), 4_000_000);
    Ok(())
}

#[test]
fn test_block_does_it_fit() -> Result<(), Error> {
    // test that when an item fits, it returns true
    let item = Block::new(scaled(3.5), scaled(14.0), scaled(12.7));
    let container = Block::new(scaled(4.0), scaled(22.0), scaled(14.0));
    assert!(container.does_it_fit(&item));
    Ok(())
}

#[test]
fn test_block_does_it_fit_false() -> Result<(), Error> {
    // test that when a item does not fit, it returns false
    let item = Block::new(4 as Dimension, 12 as Dimension, 14 as Dimension);
    let container = Block::new(3 as Dimension, 14 as Dimension, 14 as Dimension);
    assert!(!container.does_it_fit(&item));
    Ok(())
}

#[test]
fn tests_test_best_fit_nil() -> Result<(), Error> {
    // assert that if a item does not fit in the container,
    // we get None returned
    let item = Block::new(4 as Dimension, 12 as Dimension, 14 as Dimension);
    let container = Block::new(3 as Dimension, 14 as Dimension, 14 as Dimension);
    assert_eq!(container.best_fit(&item), None);
    Ok(())
}

#[test]
fn tests_test_best_fit_exact_size() -> Result<(), Error> {
    // assert that if a item is the same size as the container, the
    // remaining dimensions come back empty

    let item = Block::new(13 as Dimension, 13 as Dimension, 31 as Dimension);
    let container = Block::new(13 as Dimension, 13 as Dimension, 31 as Dimension);
    assert_eq!(container.best_fit(&item), Some(vec![]));
    Ok(())
}

#[test]
fn tests_test_best_fit_half_size() -> Result<(), Error> {
    // Assert that if a item is smaller than the container, but has two
    // dimensions the same, it will return the empty space

    let item = Block::new(13 as Dimension, 13 as Dimension, 31 as Dimension);
    let container = Block::new(13 as Dimension, 26 as Dimension, 31 as Dimension);
    assert_eq!(
        container.best_fit(&item),
        Some(vec![Block::new(
            13 as Dimension,
            13 as Dimension,
            31 as Dimension
        )])
    );
    Ok(())
}

#[test]
fn test_best_fit_first_fit_greater_than() -> Result<(), Error> {
    // test that the "greater than" match clause of the first fit returns the
    // correct remaining space.
    let item = Block::new(scaled(1.25), scaled(7.0), scaled(10.0));
    let container = Block::new(scaled(3.5), scaled(9.5), scaled(12.5));
    assert_eq!(
        container.best_fit(&item),
        Some(vec![
            Block::new(scaled(1.25), scaled(2.5), scaled(7.0)),
            Block::new(scaled(2.5), scaled(3.5), scaled(12.5)),
            Block::new(scaled(2.25), scaled(7.0), scaled(12.5))
        ])
    );
    Ok(())
}

#[test]
fn tests_test_best_fit_multiple_spaces_1_2_2() -> Result<(), Error> {
    // test to ensure that our 2x theorem is working
    let item = Block::new(1 as Dimension, 1 as Dimension, 1 as Dimension);
    let container = Block::new(1 as Dimension, 2 as Dimension, 2 as Dimension);
    assert_eq!(
        container.best_fit(&item),
        Some(vec![
            Block::new(1 as Dimension, 1 as Dimension, 1 as Dimension),
            Block::new(1 as Dimension, 1 as Dimension, 2 as Dimension)
        ])
    );
    Ok(())
}

#[test]
fn tests_test_best_fit_multiple_spaces() -> Result<(), Error> {
    // assert that if a item is smaller than the container, but has two
    // dimensions the same, it will return the empty space
    let item = Block::new(13 as Dimension, 13 as Dimension, 31 as Dimension);
    let (x, y, z) = (20 as Dimension, 20 as Dimension, 31 as Dimension);
    let container = Block::new(x, y, z);
    assert_eq!(
        container.best_fit(&item),
        Some(vec![
            Block::new(7 as Dimension, 13 as Dimension, 31 as Dimension),
            Block::new(7 as Dimension, 20 as Dimension, 31 as Dimension)
        ])
    );
    Ok(())
}
