use exl3::cpu_cache::CpuPageCache;
use exl3::paged::{chain_hash, pages_for, PageError, PageHash, PageTable, PAGE_SIZE};
use std::collections::hash_map::DefaultHasher;
use std::hash::{Hash, Hasher};

fn page(first: i64) -> Vec<i64> {
    (first..first + 256).collect()
}

/// The hash of a page, by std's own traits.
fn plain_hash(prev: Option<PageHash>, tokens: &[i64]) -> PageHash {
    let mut out = [0u8; 16];
    for (k, seed) in [0x9E37_79B9_7F4A_7C15u64, 0xC2B2_AE3D_27D4_EB4F].iter().enumerate() {
        let mut h = DefaultHasher::new();
        seed.hash(&mut h);
        prev.hash(&mut h);
        tokens.hash(&mut h);
        out[8 * k..8 * k + 8].copy_from_slice(&h.finish().to_le_bytes());
    }
    out
}

#[test]
fn tokens_round_up_to_pages() {
    assert_eq!(PAGE_SIZE, 256);
    assert_eq!(pages_for(0), 0);
    assert_eq!(pages_for(1), 1);
    assert_eq!(pages_for(256), 1);
    assert_eq!(pages_for(257), 2);
    assert_eq!(pages_for(-255), 0);
    assert_eq!(pages_for(-600), -1);
}

#[test]
fn page_hashes_are_chained() {
    let a = chain_hash(None, &page(0));
    assert_eq!(a, chain_hash(None, &page(0)));
    assert_ne!(a, chain_hash(None, &page(1)));
    let b = chain_hash(Some(a), &page(256));
    assert_ne!(b, chain_hash(None, &page(256)));
    assert_ne!(a[..8], a[8..]);
}

#[test]
fn page_hashes_are_those_of_the_standard_hasher() {
    let a = chain_hash(None, &page(7));
    assert_eq!(a, plain_hash(None, &page(7)));
    assert_eq!(chain_hash(Some(a), &[3, -1]), plain_hash(Some(a), &[3, -1]));
}

#[test]
fn pages_are_handed_out_from_the_first() {
    let mut t = PageTable::new(4);
    assert_eq!((t.num_pages(), t.num_free()), (4, 4));
    assert_eq!(t.alloc_pages(3).unwrap(), vec![0, 1, 2]);
    assert_eq!(t.num_free(), 1);
    assert_eq!(t.alloc_pages(2).unwrap_err(), PageError::Exhausted { need: 2, free: 1 });
    t.release(&[1]);
    assert_eq!(t.alloc_pages(2).unwrap(), vec![1, 3]);
    assert!(t.counts_below(1));
    assert!(!t.counts_below(0));
    assert!(!t.dedup());
}

#[test]
fn pages_are_not_shared_unless_asked_for() {
    let mut t = PageTable::new(4);
    let (ids, matched) = t.alloc_prefix(&page(0), 1).unwrap();
    assert_eq!((ids.len(), matched), (2, 0));
    t.register_page_hash(ids[0], None, &page(0));
    let (again, matched) = t.alloc_prefix(&page(0), 1).unwrap();
    assert_eq!((again, matched), (vec![2, 3], 0));
    assert_eq!(t.prefix_stats(), (0, 0));
    assert_eq!(t.alloc_prefix(&[1], 0).unwrap_err(), PageError::Exhausted { need: 1, free: 0 });
}

#[test]
fn complete_prefixes_are_shared() {
    let mut t = PageTable::new(8);
    t.set_dedup(true);
    let prompt: Vec<i64> = (0..600).collect();
    let (a, matched) = t.alloc_prefix(&prompt, 10).unwrap();
    assert_eq!((a.clone(), matched), (vec![0, 1, 2], 0));
    t.register_page_hash(a[0], None, &prompt[..256]);
    let h = t.page_hash(a[0]);
    assert_eq!(h, Some(chain_hash(None, &prompt[..256])));
    t.register_page_hash(a[1], h, &prompt[256..512]);
    // a partial page has no hash
    t.register_page_hash(a[2], t.page_hash(a[1]), &prompt[512..]);
    assert_eq!(t.page_hash(a[2]), None);
    let (b, matched) = t.alloc_prefix(&prompt, 10).unwrap();
    assert_eq!((b, matched), (vec![0, 1, 3], 512));
    assert_eq!(t.prefix_stats(), (512, 1200));
    // as many leading pages are shared as are the same
    let half: Vec<i64> = (0..256).chain(1000..1300).collect();
    let (d, matched) = t.alloc_prefix(&half, 1).unwrap();
    assert_eq!((d.clone(), matched), (vec![0, 4, 5], 256));
    t.release(&d);
    // another start shares nothing
    let other: Vec<i64> = (1..601).collect();
    let (c, matched) = t.alloc_prefix(&other, 10).unwrap();
    assert_eq!((c.len(), matched), (3, 0));
    assert!(c.iter().all(|p| *p > 3));
}

#[test]
fn released_pages_are_shared_until_they_are_needed() {
    let mut t = PageTable::new(3);
    t.set_dedup(true);
    let (a, _) = t.alloc_prefix(&page(0), 0).unwrap();
    t.register_page_hash(a[0], None, &page(0));
    t.release(&a);
    assert_eq!(t.num_free(), 3);
    // it comes back
    let (b, matched) = t.alloc_prefix(&page(0), 0).unwrap();
    assert_eq!((b.clone(), matched), (vec![0], 256));
    t.release(&b);
    // the unhashed pages go first, then it is taken, and its hash is told
    assert_eq!(t.evicted_count(), 0);
    assert_eq!(t.alloc_pages(3).unwrap(), vec![1, 2, 0]);
    assert_eq!(t.evicted_count(), 1);
    assert_eq!(t.drain_evicted(), vec![(0, chain_hash(None, &page(0)))]);
    assert_eq!(t.drain_evicted(), vec![]);
    assert_eq!(t.page_hash(0), None);
}

#[test]
fn shared_pages_outlive_one_of_their_jobs() {
    let mut t = PageTable::new(2);
    t.set_dedup(true);
    let (a, _) = t.alloc_prefix(&page(0), 0).unwrap();
    t.register_page_hash(a[0], None, &page(0));
    let (b, _) = t.alloc_prefix(&page(0), 0).unwrap();
    assert_eq!(a, b);
    t.release(&a);
    assert_eq!(t.num_free(), 1);
    t.release(&b);
    assert_eq!(t.num_free(), 2);
}

#[test]
fn restored_pages_are_shared() {
    let mut t = PageTable::new(4);
    t.set_dedup(true);
    let ids = t.alloc_pages(1).unwrap();
    t.register_restored(ids[0], chain_hash(None, &page(0)));
    let (b, matched) = t.alloc_prefix(&page(0), 0).unwrap();
    assert_eq!((b, matched), (ids, 256));
}

#[test]
fn spare_and_held_pages_are_all() {
    let mut t = PageTable::new(6);
    t.set_dedup(true);
    let (a, _) = t.alloc_prefix(&page(0), 1).unwrap();
    assert_eq!(t.num_free() + a.len(), 6);
    t.register_page_hash(a[0], None, &page(0));
    let (b, matched) = t.alloc_prefix(&page(0), 1).unwrap();
    assert_eq!((b[0], matched), (a[0], 256));
    // three pages are held, one of them twice
    assert_eq!(t.num_free() + 3, 6);
    t.release(&a);
    assert_eq!(t.num_free() + b.len(), 6);
    let c = t.alloc_pages(4).unwrap();
    assert_eq!(t.num_free() + b.len() + c.len(), 6);
    t.release(&c);
    t.release(&b);
    assert_eq!(t.num_free(), 6);
}

#[test]
fn a_hash_restored_over_another_one_loses_no_page() {
    let mut t = PageTable::new(2);
    t.set_dedup(true);
    let (a, _) = t.alloc_prefix(&page(0), 0).unwrap();
    t.register_page_hash(a[0], None, &page(0));
    t.register_restored(a[0], chain_hash(None, &page(1)));
    assert_eq!(t.page_hash(a[0]), Some(chain_hash(None, &page(1))));
    assert_eq!(t.num_free(), 1);
    t.release(&a);
    assert_eq!(t.num_free(), 2);
    let mut all = t.alloc_pages(2).unwrap();
    all.sort();
    assert_eq!((all, t.num_free()), (vec![0, 1], 0));
}

fn h(n: u8) -> PageHash {
    [n; 16]
}

#[test]
fn host_pages_come_back() {
    let mut c = CpuPageCache::new(512);
    assert_eq!(c.push(h(1)), Some(0));
    assert_eq!(c.push(h(1)), None);
    assert_eq!(c.push(h(2)), Some(1));
    assert_eq!(c.restore(&h(1)), Some(0));
    assert_eq!(c.restore(&h(3)), None);
    assert_eq!(c.stats(), (1, 2));
}

#[test]
fn the_least_recently_used_host_page_gives_way() {
    let mut c = CpuPageCache::new(512);
    c.push(h(1));
    c.push(h(2));
    c.restore(&h(1));
    // the second is now the oldest
    assert_eq!(c.push(h(3)), Some(1));
    assert_eq!(c.restore(&h(2)), None);
    assert_eq!(c.restore(&h(1)), Some(0));
}

#[test]
fn host_caches_hold_a_page_at_least() {
    let mut c = CpuPageCache::new(0);
    assert_eq!(c.push(h(1)), Some(0));
    assert_eq!(c.push(h(2)), Some(0));
    assert_eq!(c.restore(&h(1)), None);
    assert_eq!(c.restore(&h(2)), Some(0));
}
