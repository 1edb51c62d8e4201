use upskill::geometry::{frame_edges, quad_indices};
use upskill::gpu_setup::{
    choose_device, choose_surface_format, clamp_extent, find_queue_families, next_frame_slot,
    swapchain_image_count, window_dimension, FamilyProbe, QueueFamilies,
};
use upskill::raster::{color_b, color_g, color_r, pack_rgb, pixel_index};

#[test]
fn edges_of_groups() {
    assert_eq!(frame_edges(&vec![vec![0, 1]], 2), vec![(0, 1)]);
    assert_eq!(frame_edges(&vec![vec![0, 1, 2]], 3), vec![(0, 1), (1, 2), (2, 0)]);
    assert_eq!(frame_edges(&vec![vec![0]], 3), vec![]);
    assert_eq!(frame_edges(&vec![vec![0, 5], vec![1, 0]], 2), vec![(1, 0)]);
    assert_eq!(
        frame_edges(&vec![vec![0, 1, 2, 3]], 4),
        vec![(0, 1), (1, 2), (2, 3), (3, 0)]
    );
}

#[test]
fn quad_index_list() {
    assert_eq!(quad_indices(4), [4, 5, 6, 4, 6, 7]);
    assert_eq!(quad_indices(0), [0, 1, 2, 0, 2, 3]);
}

#[test]
fn pixel_addressing() {
    assert_eq!(pixel_index(3, 2, 2, 1), Some(5));
    assert_eq!(pixel_index(3, 2, 0, 0), Some(0));
    assert_eq!(pixel_index(3, 2, -1, 0), None);
    assert_eq!(pixel_index(3, 2, 3, 0), None);
    assert_eq!(pixel_index(3, 2, 0, 2), None);
}

#[test]
fn colour_channels() {
    let c = 0x80123456u32;
    assert_eq!(color_r(c), 0x12);
    assert_eq!(color_g(c), 0x34);
    assert_eq!(color_b(c), 0x56);
    assert_eq!(pack_rgb(0x12, 0x34, 0x56), 0xFF123456);
    let p = pack_rgb(color_r(c), color_g(c), color_b(c));
    assert_eq!(p, c | 0xFF00_0000);
    assert_eq!(pack_rgb(255, 255, 255), 0xFFFF_FFFF);
}

fn probe(graphics: bool, present: Option<bool>) -> FamilyProbe {
    FamilyProbe { graphics, present }
}

#[test]
fn queue_family_choice() {
    let q = find_queue_families(&vec![
        probe(true, Some(false)),
        probe(false, Some(true)),
        probe(true, Some(false)),
    ])
    .unwrap();
    assert_eq!((q.graphics, q.present), (2, 1));
    assert!(find_queue_families(&vec![probe(true, Some(true)), probe(true, None)]).is_none());
    assert!(find_queue_families(&vec![probe(false, Some(true))]).is_none());
    assert!(find_queue_families(&vec![]).is_none());
}

#[test]
fn device_choice() {
    let f = QueueFamilies { graphics: 0, present: 1 };
    let r = choose_device(&vec![None, Some(f), Some(QueueFamilies { graphics: 3, present: 3 })]);
    let (k, q) = r.unwrap();
    assert_eq!(k, 1);
    assert_eq!((q.graphics, q.present), (0, 1));
    assert!(choose_device(&vec![None, None]).is_none());
}

#[test]
fn surface_format_choice() {
    assert_eq!(choose_surface_format(&vec![(44, 0), (50, 0)]), 1);
    assert_eq!(choose_surface_format(&vec![(44, 0)]), 0);
    assert_eq!(choose_surface_format(&vec![(50, 1), (50, 0), (50, 0)]), 1);
}

#[test]
fn swapchain_sizes() {
    assert_eq!(clamp_extent(500, 1, 400), 400);
    assert_eq!(clamp_extent(0, 1, 400), 1);
    assert_eq!(clamp_extent(200, 1, 400), 200);
    assert_eq!(swapchain_image_count(2, 3), 3);
    assert_eq!(swapchain_image_count(2, 0), 3);
    assert_eq!(swapchain_image_count(2, 2), 2);
    assert_eq!(next_frame_slot(0), 1);
    assert_eq!(next_frame_slot(1), 0);
    assert_eq!(window_dimension(0), 1);
    assert_eq!(window_dimension(500), 500);
}
