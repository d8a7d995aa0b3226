use bin_packer_3d::block::Block;
use bin_packer_3d::error::Error;

#[test]
fn test_box_creation() -> Result<(), Error> {
    Block::new(1, 2, 3);
    Ok(())
}

#[test]
fn test_box_creation_sorts() -> Result<(), Error> {
    let b = Block::new(2, 1, 3);
    assert_eq!(b.dims(), [1, 2, 3]);
    Ok(())
}

#[test]
fn test_box_volume() -> Result<(), Error> {
    let b = Block::new(3, 4, 5);
    assert_eq!(b.volume(), 60);
    Ok(())
}

#[test]
fn test_box_volume_large_values() -> Result<(), Error> {
    let b = Block::new(200, 100, 200);
    assert_eq!(b.volume(), 4_000_000);
    Ok(())
}

#[test]
fn test_box_does_it_fit() -> Result<(), Error> {
    // test that when an item fits, it returns true
    let item = Block::new(4, 12, 14);
    let container = Block::new(4, 22, 14);
    assert!(container.does_it_fit(&item));
    Ok(())
}

#[test]
fn test_box_does_it_fit_false() -> Result<(), Error> {
    // test that when a item does not fit, it returns false
    let item = Block::new(4, 12, 14);
    let container = Block::new(3, 14, 14);
    assert!(!container.does_it_fit(&item));
    Ok(())
}

#[test]
fn cuboid_test_best_fit_nil() -> Result<(), Error> {
    // assert that if a item does not fit in the container,
    // we get None returned
    let item = Block::new(4, 12, 14);
    let container = Block::new(3, 14, 14);
    assert_eq!(container.best_fit(&item), None);
    Ok(())
}

#[test]
fn cuboid_test_best_fit_exact_size() -> Result<(), Error> {
    // assert that if a item is the same size as the container, the
    // remaining dimensions come back empty

    let item = Block::new(13, 13, 31);
    let container = Block::new(13, 13, 31);
    assert_eq!(container.best_fit(&item), Some(vec![]));
    Ok(())
}

#[test]
fn cuboid_test_best_fit_half_size() -> Result<(), Error> {
    // Assert that if a item is smaller than the container, but has two
    // dimensions the same, it will return the empty space

    let item = Block::new(13, 13, 31);
    let container = Block::new(13, 26, 31);
    assert_eq!(
        container.best_fit(&item),
        Some(vec![Block::new(13, 13, 31)])
    );
    Ok(())
}

#[test]
fn cuboid_test_best_fit_multiple_spaces_1_2_2() -> Result<(), Error> {
    // test to ensure that our 2x theorem is working
    let item = Block::new(1, 1, 1);
    let container = Block::new(1, 2, 2);
    assert_eq!(
        container.best_fit(&item),
        Some(vec![Block::new(1, 1, 1), Block::new(1, 1, 2)])
    );
    Ok(())
}

#[test]
fn cuboid_test_best_fit_multiple_spaces() -> Result<(), Error> {
    // assert that if a item is smaller than the container, but has two
    // dimensions the same, it will return the empty space
    let item = Block::new(13, 13, 31);
    let container = Block::new(20, 20, 31);
    assert_eq!(
        container.best_fit(&item),
        Some(vec![Block::new(7, 13, 31), Block::new(7, 20, 31)])
    );
    Ok(())
}
