use cs140::erasure::{erase_redundancy, make_redundancy, ErasureError};

fn message() -> Vec<u8> {
    (0..=255u8).cycle().take(1000).collect()
}

#[test]
fn shards_lead_with_their_index_and_keep_the_data() {
    let data = message();
    // Shards of 99 bytes: 11 data shards (the last one filled up with zeros) and 3 parity.
    let (shards, _) = make_redundancy(&data, 100, 3);
    assert_eq!(shards.len(), 14);
    for (i, s) in shards.iter().enumerate() {
        assert_eq!(s.len(), 100);
        assert_eq!(s[0], i as u8);
    }
    assert_eq!(&shards[0][1..], &data[0..99]);
    assert_eq!(&shards[10][1..11], &data[990..1000]);
    assert!(shards[10][11..].iter().all(|&b| b == 0));
}

#[test]
fn any_missing_shards_up_to_the_parity_count_are_recovered() {
    let data = message();
    let (shards, r) = make_redundancy(&data, 100, 3);
    let mut kept: Vec<Option<Vec<u8>>> = shards.into_iter().map(Some).collect();
    kept[2] = None;
    kept[11] = None;
    kept[13] = None;
    assert_eq!(erase_redundancy(kept, r, 1000), Ok(data));
}

#[test]
fn a_shorter_length_gives_a_prefix() {
    let data = message();
    let (shards, r) = make_redundancy(&data, 100, 3);
    let kept: Vec<Option<Vec<u8>>> = shards.into_iter().map(Some).collect();
    assert_eq!(erase_redundancy(kept, r, 5), Ok(data[0..5].to_vec()));
}

#[test]
fn too_few_present_shards_fail() {
    let data = message();
    let (shards, r) = make_redundancy(&data, 100, 3);
    let mut kept: Vec<Option<Vec<u8>>> = shards.into_iter().map(Some).collect();
    for i in 0..4 {
        kept[i] = None;
    }
    assert_eq!(erase_redundancy(kept, r, 1000), Err(ErasureError::TooFewShardsPresent));
}

#[test]
fn a_wrong_number_of_shards_fails() {
    let data = message();
    let (shards, r) = make_redundancy(&data, 100, 3);
    let mut kept: Vec<Option<Vec<u8>>> = shards.clone().into_iter().map(Some).collect();
    kept.pop();
    assert_eq!(erase_redundancy(kept, r, 1000), Err(ErasureError::TooFewShards));
    let (shards, r) = make_redundancy(&data, 100, 3);
    let mut kept: Vec<Option<Vec<u8>>> = shards.into_iter().map(Some).collect();
    kept.push(None);
    assert_eq!(erase_redundancy(kept, r, 1000), Err(ErasureError::TooManyShards));
}

#[test]
fn shards_of_different_lengths_fail() {
    let data = message();
    let (shards, r) = make_redundancy(&data, 100, 3);
    let mut kept: Vec<Option<Vec<u8>>> = shards.into_iter().map(Some).collect();
    kept[5].as_mut().unwrap().pop();
    assert_eq!(erase_redundancy(kept, r, 1000), Err(ErasureError::IncorrectShardSize));
}

#[test]
fn a_shard_of_only_its_index_fails() {
    let data = message();
    let (shards, r) = make_redundancy(&data, 100, 3);
    let mut kept: Vec<Option<Vec<u8>>> = shards.into_iter().map(Some).collect();
    kept[0] = Some(vec![0]);
    assert_eq!(erase_redundancy(kept, r, 1000), Err(ErasureError::EmptyShard));
}
