use fraud_detection_api::preprocessing::{
    encode_cluster, goes_on, group_by_cluster, has_settled, initial_centroids, is_fraud_label,
    nearest_centroid, vectors_of, write_specialist_index, ClusterBuffer, RawVector, Reference,
    SETTLED_BITS,
};
use fraud_detection_api::search::VectorStore;
use fraud_detection_api::wire::{
    push_i16, push_u32, read_i16, read_i16_vec, read_u32, read_u32_vec, read_u8_vec, DIM,
};

struct Numbers(u64);

impl Numbers {
    fn next(&mut self) -> u64 {
        self.0 = self.0.wrapping_mul(6364136223846793005).wrapping_add(1442695040888963407);
        self.0 >> 33
    }
}

fn row(numbers: &mut Numbers, spread: i64) -> Reference {
    let mut vector = [0i16; DIM];
    for slot in vector.iter_mut() {
        *slot = (numbers.next() as i64 % spread) as i16;
    }
    Reference {
        vector,
        is_fraud: numbers.next() % 2 == 0,
    }
}

fn clusters(sizes: &[usize], spread: i64) -> Vec<Vec<Reference>> {
    let mut numbers = Numbers(42);
    sizes
        .iter()
        .map(|&n| (0..n).map(|_| row(&mut numbers, spread)).collect())
        .collect()
}

fn centroid_of(cluster: &[Reference]) -> [u32; DIM] {
    let mut centroid = [0.0f32; DIM];
    for reference in cluster {
        for d in 0..DIM {
            centroid[d] += reference.vector[d] as f32 / 10_000.0 / cluster.len() as f32;
        }
    }
    centroid.map(f32::to_bits)
}

fn written(clusters: &[Vec<Reference>]) -> Vec<u8> {
    let centroids: Vec<[u32; DIM]> = clusters.iter().map(|c| centroid_of(c)).collect();
    let buffers: Vec<ClusterBuffer> = clusters.iter().map(|c| encode_cluster(c)).collect();
    write_specialist_index(&centroids, &buffers)
}

fn store_of(data: Vec<u8>) -> VectorStore {
    match VectorStore::from_bytes(data) {
        Ok(store) => store,
        Err(e) => panic!("{:?}", e),
    }
}

fn centroid_distances(store: &VectorStore, query: &[i16; DIM]) -> Vec<u32> {
    let inv_scale = 1.0 / store.scale() as f32;
    store
        .centroids()
        .iter()
        .map(|centroid| {
            let mut dist = 0.0f32;
            for dim in 0..DIM {
                let d = query[dim] as f32 * inv_scale - f32::from_bits(centroid[dim]);
                dist += d * d;
            }
            dist.to_bits()
        })
        .collect()
}

fn exact_labels(clusters: &[Vec<Reference>], query: &[i16; DIM]) -> Vec<(i64, bool)> {
    let mut all: Vec<(i64, bool)> = clusters
        .iter()
        .flatten()
        .map(|reference| {
            let mut sum = 0i64;
            for d in 0..DIM {
                let diff = query[d] as i64 - reference.vector[d] as i64;
                sum += diff * diff;
            }
            (sum, reference.is_fraud)
        })
        .collect();
    all.sort_by_key(|item| item.0);
    all.truncate(5);
    all
}

#[test]
fn written_indexes_are_read_back() {
    let clusters = clusters(&[3, 0, 8, 17, 1], 10_000);
    let store = store_of(written(&clusters));
    assert_eq!(store.len(), 29);
    assert_eq!(store.n_clusters(), 5);
    assert_eq!(store.scale(), 10_000);
    assert!(store.is_laid_out());
    for (c, cluster) in clusters.iter().enumerate() {
        assert_eq!(store.centroids()[c], centroid_of(cluster));
        for d in 0..DIM {
            let least = cluster.iter().map(|r| r.vector[d]).min().unwrap_or(i16::MAX);
            let greatest = cluster.iter().map(|r| r.vector[d]).max().unwrap_or(i16::MIN);
            assert_eq!(store.cluster_mins()[c][d], least);
            assert_eq!(store.cluster_maxs()[c][d], greatest);
        }
    }
}

#[test]
fn probing_all_clusters_finds_the_nearest() {
    let clusters = clusters(&[3, 0, 8, 17, 1, 40], 1_000);
    let store = store_of(written(&clusters));
    let mut numbers = Numbers(7);
    for _ in 0..200 {
        let query = row(&mut numbers, 1_000).vector;
        let distances = centroid_distances(&store, &query);
        let expected = exact_labels(&clusters, &query);
        let frauds = expected.iter().filter(|item| item.1).count();
        for fused in [false, true] {
            let count = store.fraud_count_nearest_i16(&query, &distances, 6, fused);
            assert_eq!(count, frauds);
            let labels = store.find_k_nearest(&query, 5, &distances, 6, fused);
            assert_eq!(labels.len(), 5);
            assert_eq!(labels.iter().filter(|l| **l).count(), frauds);
        }
    }
}

#[test]
fn mixed_results_are_exact_with_few_probes() {
    let clusters = clusters(&[9, 4, 8, 17, 1, 40, 12, 3], 1_000);
    let store = store_of(written(&clusters));
    let mut numbers = Numbers(11);
    let mut mixed = 0;
    for _ in 0..300 {
        let query = row(&mut numbers, 1_000).vector;
        let distances = centroid_distances(&store, &query);
        for n_probes in 0..4 {
            let count = store.fraud_count_nearest_i16(&query, &distances, n_probes, false);
            assert!(count <= 5);
            if (1..=4).contains(&count) {
                let expected = exact_labels(&clusters, &query);
                assert_eq!(count, expected.iter().filter(|item| item.1).count());
                mixed += 1;
            }
        }
    }
    assert!(mixed > 100);
}

#[test]
fn few_vectors_are_all_neighbours() {
    let clusters = clusters(&[2, 1], 1_000);
    let store = store_of(written(&clusters));
    let query = [0i16; DIM];
    let distances = centroid_distances(&store, &query);
    assert_eq!(store.find_k_nearest(&query, 5, &distances, 1, true).len(), 3);
    assert_eq!(store.find_k_nearest(&query, 5, &distances, 0, true).len(), 3);
}

#[test]
fn equal_vectors_count_once_each() {
    let at = |value: i16, is_fraud: bool| Reference {
        vector: [value; DIM],
        is_fraud,
    };
    let clusters = vec![
        vec![at(5, true), at(5, true), at(900, false), at(901, false)],
        vec![at(6, true), at(902, false), at(903, false), at(904, false)],
    ];
    let store = store_of(written(&clusters));
    let query = [5i16; DIM];
    let distances = centroid_distances(&store, &query);
    for fused in [false, true] {
        assert_eq!(store.fraud_count_nearest_i16(&query, &distances, 2, fused), 3);
    }
}

#[test]
fn panels_stand_component_by_component() {
    let clusters = clusters(&[9], 10_000);
    let buffer = encode_cluster(&clusters[0]);
    assert_eq!(buffer.units, 9 * 14);
    assert_eq!(buffer.vectors.len(), 9 * 14 * 2);
    let unit = |u: usize| i16::from_le_bytes([buffer.vectors[2 * u], buffer.vectors[2 * u + 1]]);
    for d in 0..DIM {
        for lane in 0..8 {
            assert_eq!(unit(d * 8 + lane), clusters[0][lane].vector[d]);
        }
        assert_eq!(unit(8 * 14 + d), clusters[0][8].vector[d]);
    }
    for (i, reference) in clusters[0].iter().enumerate() {
        assert_eq!(buffer.labels[i], reference.is_fraud as u8);
    }
}

#[test]
fn numbers_are_read_back() {
    let mut data = Vec::new();
    push_u32(&mut data, 0xdead_beef);
    push_i16(&mut data, -2);
    push_i16(&mut data, 300);
    data.push(7);
    let mut cursor = 0;
    assert!(matches!(read_u32(&data, &mut cursor), Ok(0xdead_beef)));
    assert!(matches!(read_i16(&data, &mut cursor), Ok(-2)));
    assert!(matches!(read_i16_vec(&data, &mut cursor, 1), Ok(v) if v == vec![300]));
    assert!(read_u32(&data, &mut cursor).is_err());
    assert!(read_u32_vec(&data, &mut cursor, 1).is_err());
    assert!(matches!(read_u8_vec(&data, &mut cursor, 1), Ok(v) if v == vec![7]));
    assert_eq!(cursor, data.len());
}

#[test]
fn centroids_begin_as_references_none_twice() {
    let references: Vec<RawVector> = (0..50u32)
        .map(|i| RawVector {
            vector: [i; DIM],
            is_fraud: i % 2 == 0,
        })
        .collect();
    let mut orders = Vec::new();
    for _ in 0..20 {
        let centroids = initial_centroids(&references, 20);
        assert_eq!(centroids.len(), 20);
        let mut seen: Vec<u32> = centroids.iter().map(|c| c[0]).collect();
        assert!(centroids.iter().all(|c| *c == [c[0]; DIM] && c[0] < 50));
        orders.push(seen.clone());
        seen.sort();
        seen.dedup();
        assert_eq!(seen.len(), 20);
    }
    let first: Vec<u32> = (0..20).collect();
    assert!(orders.iter().any(|order| *order != first));
    assert_eq!(vectors_of(&references)[7], [7; DIM]);
    assert_eq!(vectors_of(&references).len(), 50);
    assert_eq!(initial_centroids(&references, 80).len(), 50);
    assert!(initial_centroids(&Vec::new(), 3).is_empty());
}

#[test]
fn the_first_of_the_closest_centroids_is_taken() {
    let bits: Vec<u32> = [3.0f32, 1.0, 2.0, 1.0].iter().map(|d| d.to_bits()).collect();
    assert_eq!(nearest_centroid(&bits), 1);
    assert_eq!(nearest_centroid(&[]), 0);
    let strange: Vec<u32> = [f32::NAN, f32::INFINITY, 5.0].iter().map(|d| d.to_bits()).collect();
    assert_eq!(nearest_centroid(&strange), 2);
    let hopeless: Vec<u32> = [f32::NAN, f32::INFINITY, f32::MAX].iter().map(|d| d.to_bits()).collect();
    assert_eq!(nearest_centroid(&hopeless), 0);
}

#[test]
fn vectors_are_grouped_by_cluster() {
    assert_eq!(
        group_by_cluster(&[2, 0, 2, 1, 2], 4),
        vec![vec![1], vec![3], vec![0, 2, 4], vec![]]
    );
}

#[test]
fn labels_say_fraud_or_not() {
    assert!(is_fraud_label(b"fraud"));
    assert!(!is_fraud_label(b"legit"));
    assert!(!is_fraud_label(b"Fraud"));
}

#[test]
fn readers_stop_where_the_data_ends() {
    let data = [1u8, 0, 2, 0, 3, 0, 9];

    let mut cursor = 8;
    assert!(read_u32(&data, &mut cursor).is_err());
    assert!(read_i16(&data, &mut cursor).is_err());
    assert!(read_u8_vec(&data, &mut cursor, 0).is_err());
    assert!(read_i16_vec(&data, &mut cursor, 1).is_err());
    assert!(matches!(read_i16_vec(&data, &mut cursor, 0), Ok(v) if v.is_empty()));
    assert_eq!(cursor, 8);

    let mut cursor = 0;
    assert!(read_i16_vec(&data, &mut cursor, 4).is_err());
    assert_eq!(cursor, 6);

    let mut cursor = 1;
    assert!(read_u32_vec(&data, &mut cursor, 3).is_err());
    assert_eq!(cursor, 5);
}

#[test]
fn rounds_end_when_centroids_have_settled() {
    assert_eq!(f32::from_bits(SETTLED_BITS), 1e-6);
    assert!(has_settled(0.0f32.to_bits()));
    assert!(has_settled(9e-7f32.to_bits()));
    assert!(!has_settled(1e-6f32.to_bits()));
    assert!(!has_settled(f32::NAN.to_bits()));
    assert!(goes_on(1, 0.5f32.to_bits()));
    assert!(goes_on(49, 1e-6f32.to_bits()));
    assert!(!goes_on(50, 0.5f32.to_bits()));
    assert!(!goes_on(1, 9e-7f32.to_bits()));
    assert!(goes_on(1, f32::NAN.to_bits()));
}
