use nimaproxy::model_refresh::{prune_and_log, prune_missing_models};

fn set(models: &[&str]) -> Vec<String> {
    models.iter().map(|s| s.to_string()).collect()
}

fn vecs(models: &[&str]) -> Vec<String> {
    models.iter().map(|s| s.to_string()).collect()
}

#[test]
fn test_prune_missing_models_all_present() {
    let models = vecs(&["a/one", "b/two", "c/three"]);
    let upstream = set(&["a/one", "b/two", "c/three", "d/four"]);
    let (kept, pruned) = prune_missing_models(&models, &upstream);
    assert_eq!(kept, vecs(&["a/one", "b/two", "c/three"]));
    assert!(pruned.is_empty());
}

#[test]
fn test_prune_missing_models_some_missing() {
    let models = vecs(&["a/one", "b/two", "c/three"]);
    let upstream = set(&["a/one", "c/three"]);
    let (kept, pruned) = prune_missing_models(&models, &upstream);
    assert_eq!(kept, vecs(&["a/one", "c/three"]));
    assert_eq!(pruned, vecs(&["b/two"]));
}

#[test]
fn test_prune_missing_models_empty_upstream() {
    let models = vecs(&["a/one", "b/two"]);
    let upstream: Vec<String> = Vec::new();
    let (kept, pruned) = prune_missing_models(&models, &upstream);
    assert!(kept.is_empty());
    assert_eq!(pruned, vecs(&["a/one", "b/two"]));
}

#[test]
fn test_prune_missing_models_empty_input() {
    let models: Vec<String> = Vec::new();
    let upstream = set(&["a/one"]);
    let (kept, pruned) = prune_missing_models(&models, &upstream);
    assert!(kept.is_empty());
    assert!(pruned.is_empty());
}

#[test]
fn test_prune_and_log_accumulates_pruned_out() {
    let models = vecs(&["a/one", "b/two"]);
    let upstream = set(&["a/one"]);
    let mut pruned_out = Vec::new();
    let kept = prune_and_log(models, &upstream, "test.list", &mut pruned_out);
    assert_eq!(kept, vecs(&["a/one"]));
    assert_eq!(pruned_out, vecs(&["b/two"]));
}

#[test]
fn prune_partition_covers_every_model() {
    let models = vecs(&["x", "y", "z", "x"]);
    let upstream = set(&["x"]);
    let (kept, pruned) = prune_missing_models(&models, &upstream);
    assert_eq!(kept.len() + pruned.len(), models.len());
    assert_eq!(kept, vecs(&["x", "x"]));
    assert_eq!(pruned, vecs(&["y", "z"]));
}

#[test]
fn prune_and_log_appends_after_earlier_ids() {
    let mut pruned_out = vecs(&["earlier"]);
    let kept = prune_and_log(vecs(&["a", "b"]), &set(&["b"]), "racing.models", &mut pruned_out);
    assert_eq!(kept, vecs(&["b"]));
    assert_eq!(pruned_out, vecs(&["earlier", "a"]));
}
