use std::io::Cursor;

use ped_nav::calc_utils::{isqrt, normalize_motion_vector};
use ped_nav::object_grid_loader::{read_raster, RasterError};
use ped_nav::utility_types::{to_grid, to_simulation, NavError, Num2D, Sim2D};

#[test]
fn to_grid_floors_to_the_cell() {
    assert_eq!(to_grid(Sim2D { x: 2500, y: 999 }), Ok(Num2D { x: 2, y: 0 }));
    assert_eq!(to_grid(Sim2D { x: 3000, y: 3000 }), Ok(Num2D { x: 3, y: 3 }));
    assert_eq!(
        to_grid(Sim2D { x: -1, y: 0 }),
        Err(NavError::CoordinateConversionFailure)
    );
}

#[test]
fn to_simulation_promotes_to_the_cell_corner() {
    assert_eq!(to_simulation(Num2D { x: 3, y: 7 }), Ok(Sim2D { x: 3000, y: 7000 }));
    assert_eq!(
        to_simulation(Num2D { x: -1, y: 0 }),
        Err(NavError::CoordinateConversionFailure)
    );
    assert_eq!(
        to_simulation(Num2D { x: 2_000_000, y: 0 }),
        Err(NavError::CoordinateConversionFailure)
    );
}

#[test]
fn aligned_round_trip_is_lossless() {
    let p = Sim2D { x: 12000, y: 0 };
    let cell = to_grid(p).unwrap();
    assert_eq!(to_simulation(cell), Ok(p));
}

#[test]
fn unaligned_round_trip_discards_the_sub_cell_offset() {
    let p = Sim2D { x: 12345, y: 678 };
    let cell = to_grid(p).unwrap();
    assert_eq!(to_simulation(cell), Ok(Sim2D { x: 12000, y: 0 }));
}

#[test]
fn integer_square_root_is_exact() {
    assert_eq!(isqrt(0), 0);
    assert_eq!(isqrt(1), 1);
    assert_eq!(isqrt(24), 4);
    assert_eq!(isqrt(25), 5);
    assert_eq!(isqrt(26), 5);
    assert_eq!(isqrt(1_000_000_000_000), 1_000_000);
}

#[test]
fn motion_vector_is_normalized_in_fixed_point() {
    let origin = Sim2D { x: 0, y: 0 };
    assert_eq!(normalize_motion_vector(origin, Sim2D { x: 3000, y: 4000 }), (600, 800));
    assert_eq!(normalize_motion_vector(origin, Sim2D { x: -3000, y: 4000 }), (-600, 800));
    assert_eq!(normalize_motion_vector(origin, Sim2D { x: 5000, y: 0 }), (1000, 0));
    assert_eq!(normalize_motion_vector(origin, origin), (0, 0));
}

#[test]
fn raster_pixels_become_occupancy_bits() {
    let buf: image::GrayImage =
        image::ImageBuffer::from_raw(2, 2, vec![0u8, 255, 255, 0]).unwrap();
    let img = image::DynamicImage::ImageLuma8(buf);
    let mut bytes: Vec<u8> = Vec::new();
    img.write_to(&mut Cursor::new(&mut bytes), image::ImageOutputFormat::Png)
        .unwrap();
    let grid = match read_raster(&bytes) {
        Ok(g) => g,
        Err(_) => panic!("decoding a valid raster failed"),
    };
    assert_eq!(grid.width, 2);
    assert_eq!(grid.height, 2);
    assert!(!grid.is_traversable(Num2D { x: 0, y: 0 }));
    assert!(grid.is_traversable(Num2D { x: 1, y: 0 }));
    assert!(grid.is_traversable(Num2D { x: 0, y: 1 }));
    assert!(!grid.is_traversable(Num2D { x: 1, y: 1 }));
}

#[test]
fn oversized_rasters_are_rejected() {
    let buf: image::GrayImage = image::ImageBuffer::from_raw(40000, 1, vec![255u8; 40000]).unwrap();
    let img = image::DynamicImage::ImageLuma8(buf);
    let mut bytes: Vec<u8> = Vec::new();
    img.write_to(&mut Cursor::new(&mut bytes), image::ImageOutputFormat::Png)
        .unwrap();
    assert_eq!(read_raster(&bytes).err(), Some(RasterError::DimensionsTooLarge));
}

#[test]
fn undecodable_bytes_are_rejected() {
    let bytes = vec![1u8, 2, 3, 4];
    assert_eq!(read_raster(&bytes).err(), Some(RasterError::DecodeFailure));
}
