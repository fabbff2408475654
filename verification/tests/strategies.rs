use sliding_max::{brute_force, brute_force_idiomatic, bst, gen_random_vector, heap, linear};

#[test]
fn test_idiomatic_version() {
    let k = 3;
    let v = gen_random_vector(100);

    let results = brute_force_idiomatic(&v, k);
    let truth = brute_force(&v, k);

    assert_eq!(results, truth);
}

#[test]
fn test_heap_version() {
    let k = 3;
    let v = gen_random_vector(100);

    let results = heap(&v, k);
    let truth = brute_force(&v, k);

    assert_eq!(results, truth);
}

#[test]
fn test_heap_version_k1_v100() {
    let k = 1;
    let v = gen_random_vector(100);

    let results = heap(&v, k);
    let truth = brute_force(&v, k);

    assert_eq!(results, truth);
}

#[test]
fn test_heap_version_k16_v100() {
    let k = 16;
    let v = gen_random_vector(100);

    let results = heap(&v, k);
    let truth = brute_force(&v, k);

    assert_eq!(results, truth);
}

#[test]
fn test_heap_version_k64_v100() {
    let k = 64;
    let v = gen_random_vector(100);

    let results = heap(&v, k);
    let truth = brute_force(&v, k);

    assert_eq!(results, truth);
}

#[test]
fn test_heap_version_k128_v1000() {
    let k = 128;
    let v = gen_random_vector(1000);

    let results = heap(&v, k);
    let truth = brute_force(&v, k);

    assert_eq!(results, truth);
}

#[test]
fn test_heap_version_k256_v1000() {
    let k = 256;
    let v = gen_random_vector(1000);

    let results = heap(&v, k);
    let truth = brute_force(&v, k);

    assert_eq!(results, truth);
}

#[test]
fn test_heap_version_k256_v10000() {
    let k = 256;
    let v = gen_random_vector(10000);

    let results = heap(&v, k);
    let truth = brute_force(&v, k);

    assert_eq!(results, truth);
}

#[test]
fn test_heap_version_k5_v5() {
    let k = 5;
    let v = gen_random_vector(5);

    let results = heap(&v, k);
    let truth = brute_force(&v, k);

    assert_eq!(results, truth);
}

#[test]
fn test_heap_version_k50_v50() {
    let k = 50;
    let v = gen_random_vector(50);

    let results = heap(&v, k);
    let truth = brute_force(&v, k);

    assert_eq!(results, truth);
}

#[test]
fn test_heap_version_k512_v512() {
    let k = 512;
    let v = gen_random_vector(512);

    let results = heap(&v, k);
    let truth = brute_force(&v, k);

    assert_eq!(results, truth);
}

#[test]
fn test_bst_version() {
    let k = 3;
    let v = gen_random_vector(100);

    let results = bst(&v, k);
    let truth = brute_force(&v, k);

    assert_eq!(results, truth);
}

#[test]
fn test_bst_version_k1_v100() {
    let k = 1;
    let v = gen_random_vector(100);

    let results = bst(&v, k);
    let truth = brute_force(&v, k);

    assert_eq!(results, truth);
}

#[test]
fn test_bst_version_k16_v100() {
    let k = 16;
    let v = gen_random_vector(100);

    let results = bst(&v, k);
    let truth = brute_force(&v, k);

    assert_eq!(results, truth);
}

#[test]
fn test_bst_version_k64_v100() {
    let k = 64;
    let v = gen_random_vector(100);

    let results = bst(&v, k);
    let truth = brute_force(&v, k);

    assert_eq!(results, truth);
}

#[test]
fn test_bst_version_k128_v1000() {
    let k = 128;
    let v = gen_random_vector(1000);

    let results = bst(&v, k);
    let truth = brute_force(&v, k);

    assert_eq!(results, truth);
}

#[test]
fn test_bst_version_k256_v1000() {
    let k = 256;
    let v = gen_random_vector(1000);

    let results = bst(&v, k);
    let truth = brute_force(&v, k);

    assert_eq!(results, truth);
}

#[test]
fn test_bst_version_k256_v10000() {
    let k = 256;
    let v = gen_random_vector(10000);

    let results = bst(&v, k);
    let truth = brute_force(&v, k);

    assert_eq!(results, truth);
}

#[test]
fn test_bst_version_k5_v5() {
    let k = 5;
    let v = gen_random_vector(5);

    let results = bst(&v, k);
    let truth = brute_force(&v, k);

    assert_eq!(results, truth);
}

#[test]
fn test_bst_version_k50_v50() {
    let k = 50;
    let v = gen_random_vector(50);

    let results = bst(&v, k);
    let truth = brute_force(&v, k);

    assert_eq!(results, truth);
}

#[test]
fn test_bst_version_k512_v512() {
    let k = 512;
    let v = gen_random_vector(512);

    let results = bst(&v, k);
    let truth = brute_force(&v, k);

    assert_eq!(results, truth);
}

#[test]
fn test_linear_version() {
    let k = 3;
    let v = gen_random_vector(100);

    let results = linear(&v, k);
    let truth = brute_force(&v, k);

    assert_eq!(results, truth);
}

#[test]
fn test_linear_version_k1_v100() {
    let k = 1;
    let v = gen_random_vector(100);

    let results = linear(&v, k);
    let truth = brute_force(&v, k);

    assert_eq!(results, truth);
}

#[test]
fn test_linear_version_k16_v100() {
    let k = 16;
    let v = gen_random_vector(100);

    let results = linear(&v, k);
    let truth = brute_force(&v, k);

    assert_eq!(results, truth);
}

#[test]
fn test_linear_version_k64_v100() {
    let k = 64;
    let v = gen_random_vector(100);

    let results = linear(&v, k);
    let truth = brute_force(&v, k);

    assert_eq!(results, truth);
}

#[test]
fn test_linear_version_k128_v1000() {
    let k = 128;
    let v = gen_random_vector(1000);

    let results = linear(&v, k);
    let truth = brute_force(&v, k);

    assert_eq!(results, truth);
}

#[test]
fn test_linear_version_k256_v1000() {
    let k = 256;
    let v = gen_random_vector(1000);

    let results = linear(&v, k);
    let truth = brute_force(&v, k);

    assert_eq!(results, truth);
}

#[test]
fn test_linear_version_k256_v10000() {
    let k = 256;
    let v = gen_random_vector(10000);

    let results = linear(&v, k);
    let truth = brute_force(&v, k);

    assert_eq!(results, truth);
}

#[test]
fn test_linear_version_k5_v5() {
    let k = 5;
    let v = gen_random_vector(5);

    let results = linear(&v, k);
    let truth = brute_force(&v, k);

    assert_eq!(results, truth);
}

#[test]
fn test_linear_version_k50_v50() {
    let k = 50;
    let v = gen_random_vector(50);

    let results = linear(&v, k);
    let truth = brute_force(&v, k);

    assert_eq!(results, truth);
}

#[test]
fn test_linear_version_k512_v512() {
    let k = 512;
    let v = gen_random_vector(512);

    let results = linear(&v, k);
    let truth = brute_force(&v, k);

    assert_eq!(results, truth);
}
