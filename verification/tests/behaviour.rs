use packed_index_set::combinators::bin_ops::{And, Without, Xor};
use packed_index_set::combinators::EmptyIndexSet;
use core::cmp::Ordering;
use packed_index_set::{Chunk, ChunkRead, ChunkReadExt, IndexSet};

fn members<A: ChunkRead>(a: &A) -> Vec<usize> {
    let mut out = Vec::new();
    let mut it = a.iter();
    while let Some(i) = it.next() {
        out.push(i);
    }
    out
}

#[test]
fn duplicates_collapse_in_count() {
    let set = IndexSet::<2>::from_index_slice(&[3, 3, 4]);
    assert_eq!(set.len(), 2);
    assert!(set.contains(3) && set.contains(4));
}

#[test]
fn range_insert_grows_past_inline_capacity() {
    let mut set = IndexSet::<1>::default();
    set.insert_all_in_range(0..128);
    assert_eq!(set.len(), 128);
    for i in 0..128 {
        assert!(set.contains(i));
    }
    assert!(!set.contains(128));
    assert_eq!(set.chunk_capacity(), 2);
}

#[test]
fn empty_set_has_no_extremes() {
    let set = IndexSet::<2>::default();
    assert!(set.is_empty());
    assert_eq!(set.min_element(), None);
    assert_eq!(set.max_element(), None);
    assert_eq!(set.len(), 0);
}

#[test]
fn out_of_range_queries_are_absent() {
    let mut set = IndexSet::<1>::from_index_slice(&[5]);
    assert!(!set.contains(1_000_000));
    assert!(!set.remove(1_000_000));
    assert!(set.contains(5));
}

#[test]
fn inverted_and_empty_ranges_are_no_ops() {
    let mut set = IndexSet::<2>::from_index_slice(&[7, 70]);
    set.insert_all_in_range(50..50);
    set.insert_all_in_range(90..20);
    set.remove_all_in_range(8..8);
    set.remove_all_in_range(80..3);
    assert_eq!(members(&set), vec![7, 70]);
}

#[test]
fn range_ending_on_chunk_boundary() {
    let mut set = IndexSet::<2>::default();
    set.insert_all_in_range(10..64);
    assert_eq!(set.len(), 54);
    assert!(set.contains(63));
    assert!(!set.contains(64));
    set.remove_all_in_range(0..64);
    assert!(set.is_empty());
}

#[test]
fn shrink_keeps_members_and_is_idempotent() {
    let mut set = IndexSet::<2>::default();
    set.insert_all_in_range(0..300);
    set.remove_all_in_range(100..300);
    let before = members(&set);
    set.shrink_to_fit();
    assert_eq!(members(&set), before);
    let size_after_first = set.chunk_capacity();
    set.shrink_to_fit();
    assert_eq!(set.chunk_capacity(), size_after_first);
    assert_eq!(members(&set), before);
}

#[test]
fn shrink_never_goes_below_inline_capacity() {
    let mut set = IndexSet::<4>::with_chunk_capacity(9);
    set.insert(2);
    set.shrink_to_fit();
    assert_eq!(set.chunk_capacity(), 4);
    assert!(set.contains(2));
}

#[test]
fn clear_keeps_storage() {
    let mut set = IndexSet::<1>::with_chunk_capacity(6);
    set.insert(99);
    set.clear();
    assert!(set.is_empty());
    assert_eq!(set.chunk_capacity(), 6);
}

#[test]
fn insert_grows_to_the_next_power_of_two() {
    let mut set = IndexSet::<1>::default();
    assert_eq!(set.chunk_capacity(), 1);
    set.insert(64);
    assert_eq!(set.chunk_capacity(), 2);
    set.insert(300);
    assert_eq!(set.chunk_capacity(), 8);
    set.insert(5);
    assert_eq!(set.chunk_capacity(), 8);
    let far = IndexSet::<1>::from_index_slice(&[70]);
    let mut grown = IndexSet::<1>::default();
    grown.insert_all(&far);
    assert_eq!(grown.chunk_capacity(), 2);
    assert!(grown.contains(70));
}

#[test]
fn insert_reports_change() {
    let mut set = IndexSet::<1>::default();
    assert!(set.insert(9));
    assert!(!set.insert(9));
    assert!(set.remove(9));
    assert!(!set.remove(9));
}

#[test]
fn capacity_counts_indices() {
    let set = IndexSet::<2>::with_chunk_capacity(3);
    assert_eq!(set.chunk_capacity(), 3);
    assert_eq!(set.capacity().end, 192);
    let roomy = IndexSet::<1>::with_min_capacity(65);
    assert!(65 <= roomy.capacity().end);
}

#[test]
fn set_cmp_is_reflexive_and_orders_inclusion() {
    let a = IndexSet::<2>::from_index_slice(&[1, 5, 77]);
    let sub = IndexSet::<2>::from_index_slice(&[5, 77]);
    let other = IndexSet::<2>::from_index_slice(&[5, 78]);
    assert_eq!(a.set_cmp(&a), Some(Ordering::Equal));
    assert_eq!(sub.set_cmp(&a), Some(Ordering::Less));
    assert_eq!(a.set_cmp(&sub), Some(Ordering::Greater));
    assert_eq!(a.set_cmp(&other), None);
    assert!(sub.is_subset_of(&a));
    assert!(a.is_superset_of(&sub));
    assert!(!a.is_subset_of(&other));
}

#[test]
fn equality_ignores_trailing_padding() {
    let small = IndexSet::<1>::from_chunk_slice(&[0b101]);
    let padded = IndexSet::<1>::from_chunk_slice(&[0b101, 0, 0, 0]);
    assert_eq!(small, padded);
    assert_eq!(small.chunk_list_cmp(&padded), Ordering::Equal);
}

#[test]
fn chunk_list_cmp_orders_by_pattern_not_inclusion() {
    let low = IndexSet::<1>::from_chunk_slice(&[0b0111]);
    let high = IndexSet::<1>::from_chunk_slice(&[0b1000]);
    assert_eq!(low.chunk_list_cmp(&high), Ordering::Less);
    assert_eq!(high.chunk_list_cmp(&low), Ordering::Greater);
    assert_eq!(low.set_cmp(&high), None);
}

#[test]
fn disjointness() {
    let evens = IndexSet::<1>::from_index_slice(&[0, 2, 4, 6]);
    let odds = IndexSet::<1>::from_index_slice(&[1, 3, 5, 7]);
    assert!(evens.is_disjoint_with(&odds));
    let touching = IndexSet::<1>::from_index_slice(&[4, 9]);
    assert!(!evens.is_disjoint_with(&touching));
}

#[test]
fn empty_reader_and_single_chunk_reader() {
    assert!(EmptyIndexSet.is_empty());
    assert_eq!(EmptyIndexSet.len(), 0);
    let c: Chunk = 0b1001;
    assert!(c.contains(0) && c.contains(3) && !c.contains(1));
    assert_eq!(c.len(), 2);
    let as_set = c.to_index_set::<1>();
    assert_eq!(members(&as_set), vec![0, 3]);
}

#[test]
fn lazy_combinators_do_not_materialize() {
    let a = IndexSet::<1>::from_index_slice(&[0, 65, 130]);
    let b = IndexSet::<1>::from_index_slice(&[65]);
    let view = a.without(&b);
    assert!(view.contains(0));
    assert!(!view.contains(65));
    assert!(view.contains(130));
    assert_eq!(view.len(), 2);
    let owned = view.to_index_set::<1>();
    assert_eq!(members(&owned), vec![0, 130]);
}

#[test]
fn insert_all_and_remove_all_follow_sources() {
    let mut set = IndexSet::<1>::from_index_slice(&[1, 2]);
    let more = IndexSet::<1>::from_index_slice(&[2, 200]);
    set.insert_all(&more);
    assert_eq!(members(&set), vec![1, 2, 200]);
    let gone = IndexSet::<1>::from_index_slice(&[1, 200, 999]);
    set.remove_all(&gone);
    assert_eq!(members(&set), vec![2]);
}

#[test]
fn overwrite_with_intersection_and_difference() {
    let a = IndexSet::<1>::from_index_slice(&[1, 2, 3, 100]);
    let b = IndexSet::<1>::from_index_slice(&[2, 100, 300]);

    let mut inter = a.clone();
    inter.overwrite_from_combination(And, &b);
    assert_eq!(members(&inter), vec![2, 100]);

    let mut diff = a.clone();
    diff.overwrite_from_combination(Without, &b);
    assert_eq!(members(&diff), vec![1, 3]);

    let mut sym = a.clone();
    sym.overwrite_from_combination(Xor, &b);
    assert_eq!(members(&sym), vec![1, 3, 300]);
}

#[test]
fn powerset_enumeration_counts_down_the_pattern() {
    for k in 0u64..40 {
        let mut set = IndexSet::<1>::from_chunk_slice(&[k]);
        let mut steps: u64 = 0;
        while set.try_decrease_in_powerset_order() {
            steps += 1;
        }
        assert_eq!(steps, k);
        assert!(set.is_empty());
    }
}

#[test]
fn powerset_decrement_borrows_across_chunks() {
    // The pattern is one bit in the second chunk: its predecessor is every
    // bit of the first chunk.
    let mut set = IndexSet::<1>::from_chunk_slice(&[0, 1]);
    assert!(set.try_decrease_in_powerset_order());
    assert_eq!(set.len(), 64);
    for i in 0..64 {
        assert!(set.contains(i));
    }
    assert!(!set.contains(64));
}

#[test]
fn exact_bound_tightens_conservative_bound() {
    let set = IndexSet::<1>::from_chunk_slice(&[0b1, 0, 0, 0]);
    assert_eq!(set.zero_chunks_from_conservative(), 4);
    assert_eq!(set.zero_chunks_from_exact(), 1);
}

#[test]
fn displayable_lists_members_in_order() {
    let set = IndexSet::<2>::from_index_slice(&[93, 2, 19, 1, 91]);
    let listed = set.displayable().index_list();
    assert_eq!(listed, vec![1, 2, 19, 91, 93]);
}

#[test]
fn buffered_chunks_match_slice_roundtrip() {
    let chunks: Vec<Chunk> = vec![0b1010, 0, 7];
    let set = IndexSet::<1>::from_chunk_slice(&chunks);
    let mut buf = Vec::new();
    set.buffer_chunks_into(&mut buf);
    assert_eq!(buf, chunks);
}
