use mastermind::model_collection::{Model, ModelCollection, ModelsResponse};

fn listing(ids: &[&str]) -> ModelsResponse {
    ModelsResponse {
        data: ids
            .iter()
            .map(|id| Model { id: id.to_string() })
            .collect(),
    }
}

#[test]
fn new_trims_and_sorts_model_ids() {
    let collection = ModelCollection::new(&listing(&["  zeta ", "alpha", "mid"]));
    assert_eq!(collection.to_text(), "alpha\nmid\nzeta");
}

#[test]
fn new_keeps_duplicates_in_order() {
    let collection = ModelCollection::new(&listing(&["b", "a", "b"]));
    assert_eq!(collection.to_text(), "a\nb\nb");
}

#[test]
fn validate_accepts_a_listed_model() {
    let collection = ModelCollection::new(&listing(&["alpha", "beta"]));
    assert!(collection.validate_model_id(&"beta".to_string()).is_ok());
}

#[test]
fn validate_rejects_an_unlisted_model() {
    let collection = ModelCollection::new(&listing(&["alpha", "beta"]));
    let err = collection
        .validate_model_id(&"gamma".to_string())
        .unwrap_err();
    assert_eq!(
        err,
        "gamma is not a valid language model from your provider"
    );
}

#[test]
fn ids_at_picks_by_position() {
    let collection = ModelCollection::new(&listing(&["c", "a", "b"]));
    // Sorted order is a, b, c.
    let chosen = collection.ids_at(&vec![2usize, 0usize]);
    assert_eq!(chosen, vec!["c".to_string(), "a".to_string()]);
}

#[test]
fn ids_follow_sorted_order() {
    let collection = ModelCollection::new(&listing(&["c", "a", "b"]));
    assert_eq!(
        collection.ids(),
        vec!["a".to_string(), "b".to_string(), "c".to_string()]
    );
}
