use application::neardup::{
    char_shingles, minhash_signature, near_duplicate_candidates, shingle_overlap,
    signature_agreement, Candidate,
};

fn strings(v: &[&str]) -> Vec<String> {
    v.iter().map(|s| s.to_string()).collect()
}

#[test]
fn minhash_signature_stable_and_sensitive() {
    let a = strings(&["abcde", "bcdef"]);
    let b = a.clone();
    let mut c = a.clone();
    c.push("zzzzz".to_string());
    assert_eq!(minhash_signature(&a), minhash_signature(&b));
    assert_ne!(minhash_signature(&a), minhash_signature(&c));
}

#[test]
fn empty_shingle_sets_sign_with_the_maximum() {
    assert_eq!(minhash_signature(&[]), vec![u64::MAX; 64]);
    let one = minhash_signature(&strings(&["abcde"]));
    assert_eq!(one.len(), 64);
    assert!(one.iter().all(|v| *v < u64::MAX));
}

#[test]
fn shingles_are_sorted_windows_or_the_whole_text() {
    assert_eq!(char_shingles("abcdefa", 5), strings(&["abcde", "bcdef", "cdefa"]));
    assert_eq!(char_shingles("abab", 2), strings(&["ab", "ba"]));
    assert_eq!(char_shingles("abc", 5), strings(&["abc"]));
    assert_eq!(char_shingles("", 5), strings(&[""]));
}

#[test]
fn overlap_counts_shared_and_union() {
    let a = strings(&["ab", "bc", "cd"]);
    let b = strings(&["bc", "cd", "de", "ef"]);
    assert_eq!(shingle_overlap(&a, &b), (2, 5));
    assert_eq!(shingle_overlap(&[], &[]), (0, 1));
}

#[test]
fn prefilter_keeps_pairs_agreeing_on_half_the_slots() {
    let x = vec![1u64; 64];
    let mut y = vec![1u64; 64];
    for slot in y.iter_mut().take(32) {
        *slot = 2;
    }
    let mut z = vec![1u64; 64];
    for slot in z.iter_mut().take(33) {
        *slot = 3;
    }
    assert_eq!(signature_agreement(&x, &y), 32);
    assert_eq!(signature_agreement(&x, &z), 31);
    let sets = vec![strings(&["ab", "bc"]), strings(&["bc", "cd"]), strings(&["xy"])];
    let sigs = vec![x, y, z];
    assert_eq!(
        near_duplicate_candidates(&sets, &sigs),
        vec![Candidate { first: 0, second: 1, shared: 1, union: 3 }]
    );
}

#[test]
fn minhash_ignores_order_and_repetition() {
    let a = strings(&["abcde", "bcdef", "cdefg"]);
    let b = strings(&["cdefg", "abcde", "cdefg", "bcdef"]);
    assert_eq!(minhash_signature(&a), minhash_signature(&b));
}

#[test]
fn minhash_of_union_is_slotwise_minimum() {
    let a = strings(&["abcde", "bcdef"]);
    let b = strings(&["bcdef", "zzzzz"]);
    let union = strings(&["abcde", "bcdef", "zzzzz"]);
    let sa = minhash_signature(&a);
    let sb = minhash_signature(&b);
    let su = minhash_signature(&union);
    for i in 0..64 {
        assert_eq!(su[i], sa[i].min(sb[i]));
    }
}
