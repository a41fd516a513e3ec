use fraud_detection_api::distance::{accumulate, key_of_bits, square_of, square_outside};
use fraud_detection_api::index::{IndexError, INDEX_MAGIC, INDEX_VERSION};
use fraud_detection_api::rounding::round_to_24_bits;
use fraud_detection_api::search::VectorStore;
use fraud_detection_api::selection::{is_nearer, sort_by_rank, Shortlist, BEYOND};
use fraud_detection_api::wire::DIM;

const SCALE: f32 = 10_000.0;

fn quantize_value(value: f32) -> i16 {
    let rounded4 = (value * SCALE).round() / SCALE;
    let scaled = (rounded4 * SCALE).round();
    scaled.clamp(i16::MIN as f32, i16::MAX as f32) as i16
}

fn centroid_distances(store: &VectorStore, query: &[i16; DIM]) -> Vec<u32> {
    let inv_scale = 1.0 / store.scale() as f32;
    store
        .centroids()
        .iter()
        .map(|centroid| {
            let mut dist = 0.0f32;
            for dim in 0..DIM {
                let d = query[dim] as f32 * inv_scale - f32::from_bits(centroid[dim]);
                dist += d * d;
            }
            dist.to_bits()
        })
        .collect()
}

fn push_u32(buf: &mut Vec<u8>, value: u32) {
    buf.extend_from_slice(&value.to_le_bytes());
}

fn push_f32(buf: &mut Vec<u8>, value: f32) {
    buf.extend_from_slice(&value.to_le_bytes());
}

fn push_i16(buf: &mut Vec<u8>, value: i16) {
    buf.extend_from_slice(&value.to_le_bytes());
}

fn tiny_index_bytes(version: u32) -> Vec<u8> {
    let mut buf = Vec::new();
    push_u32(&mut buf, INDEX_MAGIC);
    push_u32(&mut buf, version);
    push_u32(&mut buf, 2);
    push_u32(&mut buf, DIM as u32);
    push_u32(&mut buf, 2);
    push_u32(&mut buf, SCALE as u32);
    push_u32(&mut buf, 0);
    push_u32(&mut buf, 0);

    for value in [0.0f32; DIM] {
        push_f32(&mut buf, value);
    }
    for value in [1.0f32; DIM] {
        push_f32(&mut buf, value);
    }

    if version >= INDEX_VERSION {
        for _ in 0..DIM {
            push_i16(&mut buf, 0);
        }
        for _ in 0..DIM {
            push_i16(&mut buf, SCALE as i16);
        }
        for _ in 0..DIM {
            push_i16(&mut buf, 0);
        }
        for _ in 0..DIM {
            push_i16(&mut buf, SCALE as i16);
        }
    }

    for value in [1u32, 1] {
        push_u32(&mut buf, value);
    }
    for value in [0u32, 1, 2] {
        push_u32(&mut buf, value);
    }
    for value in [0u32, DIM as u32, (DIM * 2) as u32] {
        push_u32(&mut buf, value);
    }

    for _ in 0..DIM {
        push_i16(&mut buf, 0);
    }
    for _ in 0..DIM {
        push_i16(&mut buf, SCALE as i16);
    }
    buf.extend_from_slice(&[0, 1]);
    buf
}

fn error_of(data: Vec<u8>) -> IndexError {
    match VectorStore::from_bytes(data) {
        Ok(_) => panic!("expected an error"),
        Err(e) => e,
    }
}

fn store_of(data: Vec<u8>) -> VectorStore {
    match VectorStore::from_bytes(data) {
        Ok(store) => store,
        Err(e) => panic!("{:?}", e),
    }
}

#[test]
fn find_k_nearest_reads_int16_index() {
    let store = store_of(tiny_index_bytes(INDEX_VERSION));
    let query = [quantize_value(0.01); DIM];
    let distances = centroid_distances(&store, &query);
    for fused in [false, true] {
        let nearest = store.find_k_nearest(&query, 2, &distances, 2, fused);

        assert_eq!(nearest.len(), 2);
        assert!(nearest.contains(&true));
        assert!(nearest.contains(&false));
    }
}

#[test]
fn legacy_index_gets_computed_bounds() {
    let store = store_of(tiny_index_bytes(1));
    assert_eq!(store.cluster_mins().len(), 2);
    assert_eq!(store.cluster_maxs().len(), 2);
    assert_eq!(store.cluster_mins()[0], [0; DIM]);
    assert_eq!(store.cluster_maxs()[0], [0; DIM]);
    assert_eq!(store.cluster_mins()[1], [10_000; DIM]);
    assert_eq!(store.cluster_maxs()[1], [10_000; DIM]);
}

#[test]
fn an_index_holds_what_the_stream_says() {
    let store = store_of(tiny_index_bytes(INDEX_VERSION));
    assert_eq!(store.len(), 2);
    assert_eq!(store.n_clusters(), 2);
    assert_eq!(store.scale(), 10_000);
    assert_eq!(store.centroids()[1], [1.0f32.to_bits(); DIM]);
    assert!(store.is_laid_out());
}

#[test]
fn the_magic_is_rivf() {
    assert_eq!(INDEX_MAGIC, u32::from_le_bytes(*b"RIVF"));
}

#[test]
fn broken_streams_are_told() {
    assert_eq!(error_of(vec![0; 31]), IndexError::TooSmall);
    assert_eq!(error_of(vec![0; 32]), IndexError::BadMagic);
    let with = |at: usize, value: u32| {
        let mut data = tiny_index_bytes(INDEX_VERSION);
        data[at..at + 4].copy_from_slice(&value.to_le_bytes());
        data
    };
    assert_eq!(error_of(with(4, 3)), IndexError::UnsupportedVersion(3));
    assert_eq!(error_of(with(12, 15)), IndexError::UnsupportedDimension(15));
    assert_eq!(error_of(with(8, 0)), IndexError::EmptyCounts);
    assert_eq!(error_of(with(16, 0)), IndexError::EmptyCounts);
    assert_eq!(error_of(with(16, 3)), IndexError::UnexpectedEnd);
    assert_eq!(error_of(with(8, 3)), IndexError::MissingLabels);
    assert_eq!(error_of(with(8, 1)), IndexError::TrailingBytes(1));
    let mut longer = tiny_index_bytes(INDEX_VERSION);
    longer.extend_from_slice(&[0; 7]);
    assert_eq!(error_of(longer), IndexError::TrailingBytes(7));
    let offsets = 32 + 112 + 112 + 8;
    assert_eq!(error_of(with(offsets + 8, 5)), IndexError::OffsetsMismatch);
    let mut outside = tiny_index_bytes(1);
    let sizes = 32 + 112;
    outside[sizes..sizes + 4].copy_from_slice(&9u32.to_le_bytes());
    assert_eq!(error_of(outside), IndexError::ClusterOutside);
    let unlaid = store_of(with(32 + 112 + 112, 9));
    assert!(!unlaid.is_laid_out());
}

#[test]
fn every_cut_of_a_stream_is_refused() {
    let whole = tiny_index_bytes(1);
    for cut in 0..whole.len() {
        let error = error_of(whole[..cut].to_vec());
        let expected = if cut < 32 {
            IndexError::TooSmall
        } else if cut < whole.len() - 2 {
            IndexError::UnexpectedEnd
        } else {
            IndexError::MissingLabels
        };
        assert_eq!(error, expected);
    }
}

#[test]
fn rounding_is_that_of_single_precision() {
    let mut n: u64 = 1;
    for step in 0..200_000u64 {
        n = n.wrapping_mul(6364136223846793005).wrapping_add(step) % (1 << 40);
        assert_eq!(round_to_24_bits(n) as f32, n as f32);
        assert_eq!(round_to_24_bits(n), n as f32 as u64);
    }
    assert_eq!(round_to_24_bits(16_777_217), 16_777_216);
    assert_eq!(round_to_24_bits(16_777_219), 16_777_220);
    assert_eq!(round_to_24_bits(16_777_215), 16_777_215);
}

#[test]
fn accumulation_is_that_of_single_precision() {
    let mut seed: u64 = 7;
    for _ in 0..20_000 {
        let mut plain = 0.0f32;
        let mut fused = 0.0f32;
        let mut a: u64 = 0;
        let mut b: u64 = 0;
        for _ in 0..DIM {
            seed = seed.wrapping_mul(6364136223846793005).wrapping_add(1442695040888963407);
            let q = (seed >> 33) as i16;
            let v = (seed >> 17) as i16;
            let d = q as f32 - v as f32;
            plain += d * d;
            fused = d.mul_add(d, fused);
            a = accumulate(a, square_of(q, v), false);
            b = accumulate(b, square_of(q, v), true);
        }
        assert_eq!(a as f32, plain);
        assert_eq!(b as f32, fused);
    }
}

#[test]
fn components_outside_a_range() {
    assert_eq!(square_outside(5, 1, 9), 0);
    assert_eq!(square_outside(-2, 1, 9), 9);
    assert_eq!(square_outside(12, 1, 9), 9);
    assert_eq!(square_outside(i16::MIN, i16::MAX, i16::MAX), 65535 * 65535);
    assert_eq!(square_of(i16::MIN, i16::MAX), 65535 * 65535);
}

#[test]
fn keys_order_single_precision_numbers() {
    let numbers = [f32::NEG_INFINITY, -2.0, -0.0, 0.0, 1e-40, 0.5, 3.0, f32::MAX, f32::INFINITY];
    for a in numbers {
        for b in numbers {
            assert_eq!(
                is_nearer(key_of_bits(a.to_bits()), key_of_bits(b.to_bits())),
                a < b
            );
        }
        assert!(!is_nearer(key_of_bits(f32::NAN.to_bits()), key_of_bits(a.to_bits())));
        assert!(!is_nearer(key_of_bits(a.to_bits()), key_of_bits(f32::NAN.to_bits())));
    }
}

#[test]
fn shortlists_keep_the_nearest() {
    let mut list: Shortlist<u8> = Shortlist::new(3);
    assert_eq!(list.max_dist(), Some(BEYOND));
    for (d, tag) in [(5, 1), (3, 2), (9, 3), (4, 4), (9, 5), (1, 6)] {
        list.push(Some(d), tag);
    }
    let kept: Vec<(Option<i64>, u8)> = (0..list.len()).map(|i| list.get(i)).collect();
    assert_eq!(kept, vec![(Some(1), 6), (Some(3), 2), (Some(4), 4)]);
    assert_eq!(list.max_dist(), Some(4));
    let mut none: Shortlist<u8> = Shortlist::new(0);
    none.push(Some(1), 1);
    assert_eq!(none.len(), 0);
}

#[test]
fn equal_distances_stay_with_the_first() {
    let mut list: Shortlist<u8> = Shortlist::new(2);
    for tag in 1..6 {
        list.push(Some(7), tag);
    }
    assert_eq!(list.get(0).1, 1);
    assert_eq!(list.get(1).1, 2);
    list.push(Some(6), 9);
    assert_eq!(list.get(0).1, 9);
}

#[test]
fn distances_that_are_no_numbers_stay() {
    let mut list: Shortlist<u8> = Shortlist::new(2);
    list.push(None, 1);
    list.push(Some(4), 2);
    list.push(Some(1), 3);
    assert_eq!(list.get(0), (None, 1));
    assert_eq!(list.get(1), (Some(4), 2));
}

#[test]
fn ranks_are_sorted_and_ties_keep_their_order() {
    let items = vec![(3, 'a'), (1, 'b'), (3, 'c'), (2, 'd'), (1, 'e')];
    assert_eq!(
        sort_by_rank(&items),
        vec![(1, 'b'), (1, 'e'), (2, 'd'), (3, 'a'), (3, 'c')]
    );
}

#[test]
fn rounding_keeps_the_order() {
    let mut last = 0;
    for n in (1u64 << 24) - 100..(1u64 << 26) + 100 {
        if n % 7 == 0 || n % 1024 < 2 {
            let rounded = round_to_24_bits(n);
            assert!(last <= rounded);
            last = rounded;
        }
    }
}

#[test]
fn small_sums_are_exact_either_way() {
    let mut plain: u64 = 0;
    let mut fused: u64 = 0;
    let mut sum: u64 = 0;
    for d in 0..14i16 {
        let square = square_of(d * 70, -d * 7);
        assert_eq!(square, square_of(-d * 7, d * 70));
        plain = accumulate(plain, square, false);
        fused = accumulate(fused, square, true);
        sum += square;
    }
    assert!(sum < 1 << 24);
    assert_eq!((plain, fused), (sum, sum));
}

#[test]
fn a_box_is_no_farther_than_what_it_holds() {
    for q in (-300i16..300).step_by(7) {
        for lo in (-200i16..200).step_by(31) {
            for v in lo..lo + 20 {
                assert!(square_outside(q, lo, lo + 20) <= square_of(q, v));
            }
        }
    }
}

#[test]
fn a_cluster_outside_matters_only_where_it_is_visited() {
    let mut data = Vec::new();
    for value in [INDEX_MAGIC, INDEX_VERSION, 6, DIM as u32, 2, SCALE as u32, 0, 0] {
        push_u32(&mut data, value);
    }
    for value in [0.0f32, 1.0] {
        for _ in 0..DIM {
            push_f32(&mut data, value);
        }
    }
    for _ in 0..2 {
        for value in [0i16, SCALE as i16] {
            for _ in 0..DIM {
                push_i16(&mut data, value);
            }
        }
    }
    for value in [5u32, 1, 0, 5, 6, 0, 84, 70] {
        push_u32(&mut data, value);
    }
    for _ in 0..70 {
        push_i16(&mut data, 0);
    }
    data.extend_from_slice(&[0; 6]);

    let store = store_of(data);
    assert!(!store.is_laid_out());
    let query = [0i16; DIM];
    let distances = centroid_distances(&store, &query);
    for fused in [false, true] {
        assert!(store.can_answer(&query, &distances, 1, fused));
        assert_eq!(store.fraud_count_nearest_i16(&query, &distances, 1, fused), 0);
        assert_eq!(store.find_k_nearest(&query, 5, &distances, 1, fused), vec![false; 5]);
        assert!(!store.can_answer(&query, &distances, 2, fused));
    }
    let far = [SCALE as i16; DIM];
    let distances = centroid_distances(&store, &far);
    assert!(!store.can_answer(&far, &distances, 1, false));
}
