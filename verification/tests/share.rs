use maprando::single::key_item_share;

#[test]
fn share_matches_single_precision_for_every_count_of_items() {
    for part in 1..=21usize {
        for whole in part..=100 {
            for places in 1..=100usize {
                let expected =
                    f32::ceil((part as f32) / (whole as f32) * (places as f32)) as usize;
                assert_eq!(key_item_share(part, whole, places), expected);
            }
        }
    }
}

#[test]
fn share_matches_single_precision_for_large_counts() {
    let samples = [1usize, 2, 3, 7, 100, 4095, 65537, 999_999, 8_388_607, 16_777_215];
    for &part in &samples {
        for &whole in &samples {
            for &places in &samples {
                if part <= whole {
                    let expected =
                        f32::ceil((part as f32) / (whole as f32) * (places as f32)) as usize;
                    assert_eq!(key_item_share(part, whole, places), expected);
                }
            }
        }
    }
}

#[test]
fn share_differs_from_the_exact_ceiling_where_rounding_does() {
    let mut differences = 0;
    for part in 1..=21usize {
        for whole in part..=100 {
            for places in 1..=100usize {
                let exact = (part * places + whole - 1) / whole;
                if key_item_share(part, whole, places) != exact {
                    differences += 1;
                }
            }
        }
    }
    assert!(differences > 0);
}

#[test]
fn share_of_five_places() {
    assert_eq!(key_item_share(21, 100, 5), 2);
    assert_eq!(key_item_share(21, 100, 4), 1);
    assert_eq!(key_item_share(1, 100, 1), 1);
    assert_eq!(key_item_share(21, 21, 21), 21);
}
