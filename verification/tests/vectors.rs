use std::collections::HashMap;

use image_cluster::blob::{decode_embedding, encode_embedding, machine_order, order_of, ByteOrder};
use image_cluster::clustering::labels::{clean_samples, sample_labels, stamp};
use image_cluster::clustering::quality::{metrics_or_worst, score_input, ScoreInput};
use image_cluster::clustering::report::{cluster_report, names_at};
use image_cluster::clustering::sampling::{
    column_ranges, lhs_buckets, lhs_subsample, reservoir_from_draws, reservoir_sample,
    sorted_distinct,
};
use image_cluster::ieee::Real32;
use image_cluster::indexing::{embedding_blob, unindexed, IndexRun, IndexStep};
use image_cluster::matrix::{DimensionMismatch, Matrix, ShapeFault, VectorLoader};
use image_cluster::paths::NamedImage;

fn r32(x: f32) -> Real32 {
    Real32::from_bits(x.to_bits())
}

fn all32(xs: &[f32]) -> Vec<Real32> {
    xs.iter().map(|&x| r32(x)).collect()
}

fn matrix(n_rows: usize, n_cols: usize, xs: &[f32]) -> Matrix {
    match Matrix::from_shape_vec(n_rows, n_cols, all32(xs)) {
        Ok(m) => m,
        Err(fault) => panic!("{fault:?}"),
    }
}

fn strings(items: &[&str]) -> Vec<String> {
    items.iter().map(|s| s.to_string()).collect()
}

#[test]
fn embeddings_are_stored_in_machine_order() {
    let xs = [1.5f32, -0.0, f32::NAN, f32::MIN_POSITIVE, 3.25e7];
    let expected: Vec<u8> = xs.iter().flat_map(|f| f.to_ne_bytes()).collect();
    assert_eq!(encode_embedding(&all32(&xs), machine_order()), expected);
    assert_eq!(order_of(&1u16.to_le_bytes()), ByteOrder::Little);
    assert_eq!(order_of(&1u16.to_be_bytes()), ByteOrder::Big);
    let little: Vec<u8> = xs.iter().flat_map(|f| f.to_le_bytes()).collect();
    let big: Vec<u8> = xs.iter().flat_map(|f| f.to_be_bytes()).collect();
    assert_eq!(encode_embedding(&all32(&xs), ByteOrder::Little), little);
    assert_eq!(encode_embedding(&all32(&xs), ByteOrder::Big), big);
}

#[test]
fn what_is_stored_is_read_back() {
    let xs = all32(&[0.1, -7.0, f32::INFINITY]);
    for order in [ByteOrder::Little, ByteOrder::Big] {
        let mut bytes = encode_embedding(&xs, order);
        assert_eq!(decode_embedding(&bytes, order), xs);
        bytes.extend([1, 2, 3]);
        assert_eq!(decode_embedding(&bytes, order), xs);
    }
    assert!(decode_embedding(&[], ByteOrder::Little).is_empty());
}

#[test]
fn shapes_have_to_fit() {
    let m = matrix(2, 3, &[1.0, 2.0, 3.0, 4.0, 5.0, 6.0]);
    assert_eq!(m.at(1, 0), r32(4.0));
    assert_eq!(m.at(0, 2), r32(3.0));
    let fault = |r, c, n: usize| Matrix::from_shape_vec(r, c, all32(&vec![0.0; n])).err();
    assert_eq!(fault(2, 3, 5), Some(ShapeFault::OutOfBounds));
    assert_eq!(fault(2, 3, 7), Some(ShapeFault::IncompatibleShape));
    assert_eq!(fault(0, 3, 1), Some(ShapeFault::IncompatibleShape));
    assert_eq!(fault(usize::MAX, 2, 0), Some(ShapeFault::Overflow));
    assert_eq!(fault(0, usize::MAX, 0), Some(ShapeFault::Overflow));
    assert_eq!(fault(0, 3, 0), None);
}

#[test]
fn shape_faults_are_those_of_ndarray() {
    for (r, c, n) in [(2usize, 3usize, 6usize), (2, 3, 5), (2, 3, 7), (0, 3, 1), (0, 3, 0), (0, 0, 0), (3, 0, 0)] {
        let theirs = ndarray::Array2::from_shape_vec((r, c), vec![0.0f32; n]).map(|_| ());
        let ours = Matrix::from_shape_vec(r, c, all32(&vec![0.0; n])).map(|_| ());
        match (theirs, ours) {
            (Ok(()), Ok(())) => {}
            (Err(e), Err(fault)) => {
                assert_eq!(format!("{:?}", e.kind()), format!("{fault:?}"), "{r} {c} {n}");
                assert_eq!(fault.message(), format!("{e}"));
            }
            _ => panic!("{r} {c} {n}"),
        }
    }
    let huge = ndarray::Array2::from_shape_vec((usize::MAX, 2), Vec::<f32>::new());
    assert_eq!(format!("{:?}", huge.unwrap_err().kind()), "Overflow");
}

#[test]
fn rows_are_picked_and_columns_ranged() {
    let m = matrix(3, 2, &[1.0, -5.0, 7.0, f32::NAN, 3.0, 2.0]);
    let picked = m.select_rows(&vec![2, 0, 2]);
    assert_eq!((picked.n_rows, picked.n_cols), (3, 2));
    assert_eq!(picked.data, all32(&[3.0, 2.0, 1.0, -5.0, 3.0, 2.0]));
    assert_eq!(column_ranges(&m), vec![(r32(1.0), r32(7.0)), (r32(-5.0), r32(2.0))]);
    let none = matrix(0, 1, &[]);
    assert_eq!(column_ranges(&none), vec![(r32(f32::MAX), r32(f32::MIN))]);
    let infinite = matrix(1, 1, &[f32::INFINITY]);
    assert_eq!(column_ranges(&infinite), vec![(r32(f32::MAX), r32(f32::INFINITY))]);
}

#[test]
fn rows_are_loaded_or_refused() {
    let order = machine_order();
    let mut loader = VectorLoader::new(2);
    let first = encode_embedding(&all32(&[1.0, 2.0]), order);
    let second = encode_embedding(&all32(&[3.0, 4.0]), order);
    assert_eq!(loader.add_row("a".to_string(), &first, order), Ok(()));
    let refused = loader.add_row("b".to_string(), &first[..4], order);
    assert_eq!(refused, Err(DimensionMismatch { expected: 2, got: 1 }));
    assert_eq!(
        DimensionMismatch { expected: 2, got: 1 }.message(),
        "Embedding dimension mismatch: expected 2, got 1"
    );
    assert_eq!(loader.add_row("c".to_string(), &second, order), Ok(()));
    let Ok((names, m)) = loader.finish() else { panic!("the shape fits") };
    assert_eq!(names, strings(&["a", "c"]));
    assert_eq!((m.n_rows, m.n_cols), (2, 2));
    assert_eq!(m.data, all32(&[1.0, 2.0, 3.0, 4.0]));
    let empty = VectorLoader::new(3).finish();
    assert!(matches!(empty, Ok((names, m)) if names.is_empty() && m.n_rows == 0 && m.n_cols == 3));
    let too_wide = VectorLoader::new(usize::MAX).finish();
    assert!(matches!(too_wide, Err(ShapeFault::Overflow)));
}

#[test]
fn indexed_embeddings_load_back() {
    let order = machine_order();
    let values = all32(&[1.0, 2.0, 3.0, 4.0, 5.0, 6.0]);
    assert_eq!(embedding_blob(&values, 1, 2, order), encode_embedding(&all32(&[3.0, 4.0]), order));
    let mut loader = VectorLoader::new(2);
    for i in 0..3 {
        let blob = embedding_blob(&values, i, 2, order);
        assert_eq!(loader.add_row(i.to_string(), &blob, order), Ok(()));
    }
    let Ok((_, m)) = loader.finish() else { panic!("the shape fits") };
    assert_eq!(m.data, values);
}

#[test]
fn only_new_images_are_indexed() {
    let image = |name: &str| NamedImage { path: format!("x/{name}"), name: name.to_string() };
    let images = vec![image("a"), image("b"), image("c"), image("b")];
    let rest = unindexed(&images, &strings(&["c", "z", "a"]));
    let names: Vec<&str> = rest.iter().map(|n| n.name.as_str()).collect();
    assert_eq!(names, vec!["b", "b"]);
    assert_eq!(rest[0].path, "x/b");
    assert_eq!(unindexed(&images, &vec![]).len(), 4);
    assert!(unindexed(&images, &strings(&["a", "b", "c"])).is_empty());
}

#[test]
fn chunks_cover_all_images() {
    let mut run = IndexRun::new(7, 3);
    let mut chunks = Vec::new();
    while let IndexStep::Chunk { start, end } = run.step(false) {
        chunks.push((start, end));
        run.chunk_done(end);
    }
    assert_eq!(chunks, vec![(0, 3), (3, 6), (6, 7)]);
    let next = run.after(false);
    assert!(next.push && next.proceed);
}

#[test]
fn cancelled_runs_push_what_they_stored() {
    let mut run = IndexRun::new(7, usize::MAX);
    assert_eq!(run.step(true), IndexStep::Stop);
    let next = run.after(true);
    assert!(!next.push && !next.proceed);
    assert_eq!(run.step(false), IndexStep::Chunk { start: 0, end: 7 });
    run.chunk_done(7);
    assert_eq!(run.step(false), IndexStep::Stop);
    let next = run.after(true);
    assert!(next.push && !next.proceed);
    let idle = IndexRun::new(0, 0).after(false);
    assert!(!idle.push && idle.proceed);
}

#[test]
fn reservoirs_follow_their_draws() {
    assert_eq!(reservoir_from_draws(3, &vec![]), vec![0, 1, 2]);
    assert_eq!(reservoir_from_draws(3, &vec![0, 4, 2, 0]), vec![6, 1, 5]);
    assert_eq!(reservoir_from_draws(0, &vec![0, 1]), Vec::<usize>::new());
    assert_eq!(reservoir_sample(2, 4), vec![0, 1, 2, 3]);
    assert_eq!(reservoir_sample(4, 4), vec![0, 1, 2, 3]);
}

#[test]
fn reservoirs_hold_different_rows() {
    let mut moved = false;
    for _ in 0..20 {
        let rows = reservoir_sample(1000, 50);
        assert_eq!(rows.len(), 50);
        assert!(rows.iter().all(|&r| r < 1000));
        let mut sorted = rows.clone();
        sorted.sort();
        sorted.dedup();
        assert_eq!(sorted.len(), 50);
        moved = moved || rows.iter().any(|&r| r >= 50);
    }
    assert!(moved, "the draws are random");
}

#[test]
fn buckets_are_used_once_per_feature() {
    let perms = lhs_buckets(4, 200);
    assert_eq!(perms.len(), 4);
    let plain: Vec<usize> = (0..200).collect();
    for perm in &perms {
        let mut sorted = perm.clone();
        sorted.sort();
        assert_eq!(sorted, plain);
    }
    assert!(perms.iter().any(|p| *p != plain), "the order is random");
}

#[test]
fn sampled_rows_are_distinct_and_ordered() {
    assert_eq!(sorted_distinct(vec![5, 1, 5, 0, 1]), vec![0, 1, 5]);
    assert!(sorted_distinct(vec![]).is_empty());
    let m = matrix(4, 1, &[10.0, 11.0, 12.0, 13.0]);
    let (rows, sample) = lhs_subsample(&m, vec![3, 1, 3]);
    assert_eq!(rows, vec![1, 3]);
    assert_eq!((sample.n_rows, sample.n_cols), (2, 1));
    assert_eq!(sample.data, all32(&[11.0, 13.0]));
}

#[test]
fn samples_carry_the_number_of_their_cluster() {
    let mut clusters: HashMap<usize, Vec<usize>> = HashMap::new();
    clusters.insert(4, vec![0, 2]);
    clusters.insert(9, vec![5]);
    let labels = sample_labels(6, &clusters);
    assert_eq!(labels, vec![4, 0, 4, 0, 0, 9]);
    let (rows, kept) = clean_samples(&labels, &vec![1, 3, 8]);
    assert_eq!(rows, vec![0, 2, 4, 5]);
    assert_eq!(kept, vec![4, 4, 0, 9]);
    let (none, _) = clean_samples(&labels, &vec![0, 1, 2, 3, 4, 5]);
    assert!(none.is_empty());
    clusters.insert(1, vec![2]);
    let either = sample_labels(6, &clusters)[2];
    assert!(either == 4 || either == 1);
    let mut stamped = vec![7, 7, 7];
    stamp(&mut stamped, 1, &vec![2, 0, 2]);
    assert_eq!(stamped, vec![1, 7, 1]);
}

#[test]
fn reports_name_the_nearest_member() {
    let names = strings(&["a", "b", "c", "d"]);
    let report = cluster_report(12, &vec![3, 0, 1], &names, &all32(&[0.5, 0.25, 0.25]));
    assert_eq!(report.title, "Cluster 12");
    assert_eq!(report.representative, "(representative: a)");
    assert_eq!(report.count, "[3 images]");
    assert_eq!(report.names, strings(&["d", "a", "b"]));
    assert_eq!(names_at(&names, &vec![2, 2]), strings(&["c", "c"]));
}

#[test]
fn outliers_have_no_part_in_the_score() {
    let measured = |xs: &[f32], clusters: &[(usize, &[usize])], outliers: &[usize]| {
        let map: HashMap<usize, Vec<usize>> =
            clusters.iter().map(|(id, members)| (*id, members.to_vec())).collect();
        match score_input(&matrix(4, 1, xs), &map, &outliers.to_vec()) {
            ScoreInput::Measure { samples, labels } => (samples.data, labels),
            ScoreInput::Fixed(score) => panic!("{score:?}"),
        }
    };
    let a = measured(&[1.0, 2.0, 3.0, 4.0], &[(5, &[0]), (6, &[2])], &[1, 3]);
    let b = measured(&[1.0, 9.0, 3.0, -9.0], &[(5, &[0, 1]), (6, &[3, 2])], &[3, 1, 3]);
    assert_eq!(a, (all32(&[1.0, 3.0]), vec![5, 6]));
    assert_eq!(a, b);
}

#[test]
fn nothing_but_outliers_scores_minus_one() {
    let input = score_input(&matrix(2, 1, &[1.0, 2.0]), &HashMap::new(), &vec![0, 1]);
    assert!(matches!(input, ScoreInput::Fixed(score) if score == r32(-1.0)));
}

#[test]
fn measures_that_fail_count_as_the_worst() {
    let m = metrics_or_worst(None, None, None);
    assert_eq!((m.density_validity, m.silhouette), (r32(-1.0), r32(-1.0)));
    assert_eq!(m.davies_bouldin, r32(f32::MAX));
    let m = metrics_or_worst(Some(r32(0.5)), Some(r32(0.25)), Some(r32(2.0)));
    assert_eq!((m.density_validity, m.silhouette), (r32(0.5), r32(0.25)));
    assert_eq!(m.davies_bouldin, r32(2.0));
}
