use ranker_rs::scoring::{prune_indices, rank_by_salience, resolve_method, select_topk};
use ranker_rs::scoring::{PruneConfig, SalienceMethod};

#[test]
fn resolve_method_recognizes_idf_norm() {
    assert_eq!(resolve_method("idf_norm"), SalienceMethod::IdfNorm);
}

#[test]
fn resolve_method_recognizes_norm_only() {
    assert_eq!(resolve_method("norm_only"), SalienceMethod::NormOnly);
}

#[test]
fn resolve_method_falls_back_on_unrecognized_name() {
    assert_eq!(resolve_method("tf_idf"), SalienceMethod::NormOnly);
    assert_eq!(resolve_method(""), SalienceMethod::NormOnly);
}

#[test]
fn method_kind_reads_the_configured_name() {
    let config = PruneConfig {
        q_max: 16,
        d_max: 64,
        method: "idf_norm".to_string(),
    };
    assert_eq!(config.method_kind(), SalienceMethod::IdfNorm);
}

#[test]
fn rank_orders_descending_by_key() {
    let keys: Vec<u64> = vec![3, 9, 5];
    assert_eq!(rank_by_salience(&keys), vec![1, 2, 0]);
}

#[test]
fn rank_breaks_ties_by_earlier_position() {
    let keys: Vec<u64> = vec![7, 7, 9, 7];
    assert_eq!(rank_by_salience(&keys), vec![2, 0, 1, 3]);
}

#[test]
fn prune_within_budget_is_identity() {
    let keys: Vec<u64> = vec![5, 1, 9];
    assert_eq!(prune_indices(&keys, 3), vec![0, 1, 2]);
    assert_eq!(prune_indices(&keys, 10), vec![0, 1, 2]);
}

#[test]
fn prune_keeps_survivors_in_original_order() {
    let keys: Vec<u64> = vec![5, 1, 9, 7];
    assert_eq!(prune_indices(&keys, 2), vec![2, 3]);
    let keys2: Vec<u64> = vec![9, 1, 5, 7];
    assert_eq!(prune_indices(&keys2, 2), vec![0, 3]);
}

#[test]
fn prune_ties_prefer_earlier_position() {
    let keys: Vec<u64> = vec![4, 4, 4];
    assert_eq!(prune_indices(&keys, 2), vec![0, 1]);
}

#[test]
fn prune_keeps_at_most_the_budget() {
    let keys: Vec<u64> = vec![8, 6, 7];
    assert_eq!(prune_indices(&keys, 0), Vec::<usize>::new());
    let kept = prune_indices(&keys, 2);
    assert_eq!(kept.len(), 2);
    let mut seen = vec![false; keys.len()];
    for &i in &kept {
        assert!(i < keys.len());
        assert!(!seen[i]);
        seen[i] = true;
    }
}

#[test]
fn topk_of_five_documents() {
    let keys: Vec<u64> = vec![10, 50, 30, 20, 40];
    let top = select_topk(&keys, 3);
    assert_eq!(top.len(), 3);
    assert_eq!(top, vec![1, 4, 2]);
    for window in top.windows(2) {
        assert!(keys[window[0]] >= keys[window[1]]);
    }
    for &i in &top {
        assert!(i < keys.len());
    }
}

#[test]
fn topk_clamps_a_large_k() {
    let keys: Vec<u64> = vec![2, 1, 3];
    assert_eq!(select_topk(&keys, 9), vec![2, 0, 1]);
}

#[test]
fn topk_breaks_score_ties_by_document_index() {
    let keys: Vec<u64> = vec![5, 5, 5];
    assert_eq!(select_topk(&keys, 2), vec![0, 1]);
}
