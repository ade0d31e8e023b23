use bstseal::cache::{DecodeCache, CACHE_LIMIT};

fn lengths_for(i: usize) -> [u8; 256] {
    let mut lengths = [0u8; 256];
    lengths[i] = 1;
    lengths[i + 1] = 1;
    lengths
}

#[test]
fn cache_finds_what_it_was_given() {
    let mut cache = DecodeCache::new();
    assert_eq!(cache.len(), 0);
    assert_eq!(cache.lookup(&lengths_for(0)), None);
    let at = cache.lookup_or_insert(&lengths_for(0));
    assert_eq!(at, 0);
    assert_eq!(cache.len(), 1);
    assert_eq!(cache.lookup(&lengths_for(0)), Some(0));
    assert_eq!(cache.lookup_or_insert(&lengths_for(0)), 0);
    assert_eq!(cache.len(), 1);
    assert_eq!(cache.book(0).get_code(1), (1, 1));
}

#[test]
fn full_cache_drops_its_oldest_codebook() {
    let mut cache = DecodeCache::new();
    for i in 0..CACHE_LIMIT {
        assert_eq!(cache.lookup_or_insert(&lengths_for(i)), i);
    }
    assert_eq!(cache.len(), CACHE_LIMIT);
    assert_eq!(cache.lookup_or_insert(&lengths_for(100)), CACHE_LIMIT - 1);
    assert_eq!(cache.len(), CACHE_LIMIT);
    assert_eq!(cache.lookup(&lengths_for(0)), None);
    assert_eq!(cache.lookup(&lengths_for(1)), Some(0));
    assert_eq!(cache.lookup(&lengths_for(100)), Some(CACHE_LIMIT - 1));
}
