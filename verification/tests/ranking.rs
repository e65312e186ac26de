use rinha_rust_api::ieee::Single;
use rinha_rust_api::search::{count_top_frauds, insert_candidate, insert_probe, insert_refined};

fn single(v: f32) -> Single {
    Single { bits: v.to_bits() }
}

#[test]
fn the_nearest_refined_stay_in_order() {
    let mut dist = [i64::MAX; 5];
    let mut idx = [0u32; 5];
    for (i, d) in [50i64, 10, 40, 10, 30, 20, 60].iter().enumerate() {
        insert_refined(&mut dist, &mut idx, i as u32, *d);
    }
    assert_eq!(dist, [10, 10, 20, 30, 40]);
    assert_eq!(idx, [1, 3, 5, 4, 2]);
}

#[test]
fn an_item_as_far_as_the_last_is_left_out() {
    let mut dist = [1i64, 2, 3, 4, 5];
    let mut idx = [1u32, 2, 3, 4, 5];
    insert_refined(&mut dist, &mut idx, 9, 5);
    assert_eq!(idx, [1, 2, 3, 4, 5]);
    insert_refined(&mut dist, &mut idx, 9, 4);
    assert_eq!(dist, [1, 2, 3, 4, 4]);
    assert_eq!(idx, [1, 2, 3, 4, 9]);
}

#[test]
fn candidates_fill_up_in_order() {
    let mut dist = [u64::MAX; 16];
    let mut idx = [0u32; 16];
    for i in 0..40u32 {
        insert_candidate(&mut dist, &mut idx, i, u64::from((i * 17) % 40));
    }
    for k in 0..16 {
        assert_eq!(dist[k], k as u64);
        assert_eq!((idx[k] * 17) % 40, k as u32);
    }
}

#[test]
fn probes_fill_the_places_that_are_asked_for() {
    let mut dist = [single(f32::INFINITY); 24];
    let mut idx = [0u32; 24];
    for (i, d) in [5.0f32, 1.0, 4.0, 2.0, 3.0].iter().enumerate() {
        insert_probe(&mut dist, &mut idx, 3, i as u32, single(*d));
    }
    assert_eq!(&idx[..4], &[1, 3, 4, 0]);
    assert_eq!(dist[3], single(f32::INFINITY));
}

#[test]
fn what_is_not_a_number_is_not_kept_out() {
    let mut dist = [single(f32::INFINITY); 24];
    let mut idx = [0u32; 24];
    insert_probe(&mut dist, &mut idx, 2, 7, single(1.0));
    insert_probe(&mut dist, &mut idx, 2, 8, single(f32::NAN));
    assert_eq!(&idx[..2], &[7, 8]);
    insert_probe(&mut dist, &mut idx, 2, 9, single(0.5));
    assert_eq!(&idx[..2], &[9, 7]);
    insert_probe(&mut dist, &mut idx, 2, 3, single(f32::INFINITY));
    assert_eq!(&idx[..2], &[9, 7]);
}

#[test]
fn votes_are_counted_up_to_the_first_empty_place() {
    let labels = [0u8, 1, 2, 0, 1];
    let mut dist = [u64::MAX; 16];
    let mut idx = [0u32; 16];
    for i in 0..5u32 {
        dist[i as usize] = u64::from(i);
        idx[i as usize] = i;
    }
    assert_eq!(count_top_frauds(&labels, &dist, &idx, 5), 3);
    assert_eq!(count_top_frauds(&labels, &dist, &idx, 2), 1);
    dist[1] = u64::MAX;
    assert_eq!(count_top_frauds(&labels, &dist, &idx, 5), 0);
}
