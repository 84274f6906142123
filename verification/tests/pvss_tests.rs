use rusting::pvss_agreement::{encoder, from_shards, slice_bytes, to_shards};

#[test]
fn shards_hold_the_padded_data() {
    let data: Vec<u8> = (1..=10).collect();
    let shards = to_shards(&data, 4, 2);
    assert_eq!(shards.len(), 4);
    assert_eq!(shards[0], vec![1, 2, 3, 4, 5]);
    assert_eq!(shards[1], vec![6, 7, 8, 9, 10]);
    assert!(shards.iter().all(|s| s.len() == 5));
    let shards = to_shards(&[9, 8, 7], 3, 1);
    assert_eq!(shards[0], vec![9, 8]);
    assert_eq!(shards[1], vec![7, 0]);
}

#[test]
fn reconstruction_from_enough_shards() {
    let data: Vec<u8> = vec![5, 6, 7, 8, 9, 10, 2];
    let shards = to_shards(&data, 4, 2);
    let received: Vec<Option<Vec<u8>>> = vec![None, Some(shards[1].clone()), None, Some(shards[3].clone())];
    let recovered = from_shards(received, 4, 2);
    let mut joined = shards[0].clone();
    joined.extend(shards[1].clone());
    let keep = joined.len() - *joined.last().unwrap() as usize;
    assert_eq!(recovered, joined[..keep].to_vec());
}

#[test]
fn encoder_writes_one_codeword_per_member() {
    let data: Vec<u8> = vec![1, 2, 3, 4];
    let leaves = encoder(&data, 4, "prod".to_string());
    assert_eq!(leaves.len(), 4);
    let shards = to_shards(&data, 4, 2);
    for k in 0..4 {
        assert_eq!(leaves[k], format!("{:?}", shards[k]));
    }
    let pair = encoder(&data, 7, "dev_init".to_string());
    assert_eq!(pair, vec!["[1, 2, 3, 4]".to_string(), "[1, 2, 3, 4]".to_string()]);
    let two = encoder(&data, 2, "prod".to_string());
    assert_eq!(two.len(), 2);
}

#[test]
fn slicing_bytes() {
    assert_eq!(slice_bytes(&vec![1, 2, 3, 4], 1, 3), vec![2, 3]);
    assert_eq!(slice_bytes(&vec![1, 2], 2, 2), Vec::<u8>::new());
}

#[test]
fn any_enough_shards_recover_the_same_bytes() {
    let data: Vec<u8> = vec![4, 8, 15, 16, 23, 42, 7, 1];
    let shards = to_shards(&data, 5, 2);
    let mut results = Vec::new();
    for missing_a in 0..5 {
        for missing_b in (missing_a + 1)..5 {
            let received: Vec<Option<Vec<u8>>> = (0..5)
                .map(|i| if i == missing_a || i == missing_b { None } else { Some(shards[i].clone()) })
                .collect();
            results.push(from_shards(received, 5, 2));
        }
    }
    let all: Vec<Option<Vec<u8>>> = shards.iter().cloned().map(Some).collect();
    let expected = from_shards(all, 5, 2);
    assert!(results.iter().all(|r| *r == expected));
    // the padded data is [4, 8, 15, 16, 23, 42, 7, 1, 0]; its last byte is 0
    assert_eq!(expected, vec![4, 8, 15, 16, 23, 42, 7, 1, 0]);
}
