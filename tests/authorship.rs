use std::collections::HashMap;

use octopawn::authorship::{
    best_attribute, calculate_information_gain, choose_best_attribute, branch_key,
    correct_predictions, predict_checked, prediction_fits, uniform_label, label_paragraph, predict_tree, tokenize_paragraphs, Author, Dataset, DecisionTreeNode,
};

fn counts(words: &[(&str, u32)]) -> HashMap<String, u32> {
    words.iter().map(|(w, c)| (w.to_string(), *c)).collect()
}

fn leaf(a: Author) -> DecisionTreeNode {
    DecisionTreeNode::Leaf { class_label: a }
}

#[test]
fn file_names_with_austen_are_austen() {
    assert_eq!(label_paragraph("./austen-northanger-abbey.txt"), Author::Austen);
    assert_eq!(label_paragraph("./austen-pride-and-prejudice.txt"), Author::Austen);
    assert_eq!(label_paragraph("austen"), Author::Austen);
}

#[test]
fn other_file_names_are_shelley() {
    assert_eq!(label_paragraph("./shelley-frankenstein.txt"), Author::Shelley);
    assert_eq!(label_paragraph("./Austen.txt"), Author::Shelley);
    assert_eq!(label_paragraph("austn"), Author::Shelley);
    assert_eq!(label_paragraph(""), Author::Shelley);
}

#[test]
fn paragraphs_split_at_blank_lines() {
    assert_eq!(tokenize_paragraphs("one\n\ntwo\n\nthree"), vec!["one", "two", "three"]);
    assert_eq!(tokenize_paragraphs("a line\nnext line"), vec!["a line\nnext line"]);
}

#[test]
fn paragraph_edges() {
    assert_eq!(tokenize_paragraphs(""), vec![""]);
    assert_eq!(tokenize_paragraphs("\n\n"), vec!["", ""]);
    assert_eq!(tokenize_paragraphs("a\n\n\nb"), vec!["a", "\nb"]);
    assert_eq!(tokenize_paragraphs("a\n\n\n\nb"), vec!["a", "", "b"]);
    assert_eq!(tokenize_paragraphs("é—x\n\n“y”"), vec!["é—x", "“y”"]);
}

#[test]
fn leaf_predicts_its_label() {
    let ex = counts(&[("love", 3)]);
    assert_eq!(predict_tree(&leaf(Author::Shelley), &ex, 1), Author::Shelley);
    assert_eq!(predict_tree(&leaf(Author::Austen), &ex, 1), Author::Austen);
}

#[test]
fn inner_node_follows_the_count_of_its_word() {
    let mut children = HashMap::new();
    children.insert(2, leaf(Author::Shelley));
    children.insert(1, leaf(Author::Austen));
    let tree = DecisionTreeNode::Internal { attribute: "love".to_string(), children };
    assert_eq!(predict_tree(&tree, &counts(&[("love", 2)]), 1), Author::Shelley);
    // Count without a child: fall back on the child under the given count.
    assert_eq!(predict_tree(&tree, &counts(&[("love", 7)]), 1), Author::Austen);
    assert_eq!(predict_tree(&tree, &counts(&[("love", 7)]), 2), Author::Shelley);
    // Word missing: the same fallback.
    assert_eq!(predict_tree(&tree, &counts(&[("fear", 2)]), 2), Author::Shelley);
    // No child under the fallback count either: Austen.
    assert_eq!(predict_tree(&tree, &counts(&[("fear", 2)]), 5), Author::Austen);
}

#[test]
fn fallback_count_grows_down_the_tree() {
    let mut inner_children = HashMap::new();
    inner_children.insert(2, leaf(Author::Shelley));
    let inner = DecisionTreeNode::Internal { attribute: "dark".to_string(), children: inner_children };
    let mut children = HashMap::new();
    children.insert(1, inner);
    let tree = DecisionTreeNode::Internal { attribute: "love".to_string(), children };
    assert_eq!(predict_tree(&tree, &counts(&[]), 1), Author::Shelley);
    assert_eq!(predict_tree(&tree, &counts(&[("dark", 2)]), 1), Author::Shelley);
    let mut other = HashMap::new();
    other.insert(1, leaf(Author::Shelley));
    let tree2 = DecisionTreeNode::Internal { attribute: "love".to_string(), children: other };
    assert_eq!(predict_tree(&tree2, &counts(&[("love", 3)]), 2), Author::Austen);
}

#[test]
fn dataset_holds_features_with_labels() {
    let d = Dataset { features: vec![counts(&[("a", 1)])], labels: vec![Author::Austen] };
    let e = d.clone();
    assert_eq!(e.labels, vec![Author::Austen]);
    assert_eq!(e.features[0].get("a"), Some(&1));
}

#[test]
fn branch_prefers_the_found_count_then_the_fallback() {
    let mut children = HashMap::new();
    children.insert(3, leaf(Author::Shelley));
    children.insert(1, leaf(Author::Austen));
    assert_eq!(branch_key(Some(3), &children, 1), Some((3, false)));
    assert_eq!(branch_key(Some(4), &children, 1), Some((1, true)));
    assert_eq!(branch_key(None, &children, 3), Some((3, true)));
    assert_eq!(branch_key(None, &children, 2), None);
    assert_eq!(branch_key(Some(2), &children, 2), None);
}

fn sample() -> Dataset {
    Dataset {
        features: vec![
            counts(&[("love", 3), ("dark", 1)]),
            counts(&[("love", 2)]),
            counts(&[("dark", 5), ("love", 1)]),
            counts(&[("sea", 4)]),
        ],
        labels: vec![Author::Austen, Author::Austen, Author::Shelley, Author::Shelley],
    }
}

#[test]
fn gain_is_the_distance_between_author_totals() {
    let d = sample();
    // love: Austen 3 + 2, Shelley 1.
    assert_eq!(calculate_information_gain(&d, "love"), 4);
    // dark: Austen 1, Shelley 5.
    assert_eq!(calculate_information_gain(&d, "dark"), 4);
    assert_eq!(calculate_information_gain(&d, "sea"), 4);
    assert_eq!(calculate_information_gain(&d, "storm"), 0);
    let empty = Dataset { features: vec![], labels: vec![] };
    assert_eq!(calculate_information_gain(&empty, "love"), 0);
}

#[test]
fn best_attribute_takes_the_last_of_largest_gain() {
    let d = sample();
    let words = |ws: &[&str]| ws.iter().map(|w| w.to_string()).collect::<Vec<String>>();
    assert_eq!(best_attribute(&d, &words(&["storm", "love", "dark"])), "dark");
    assert_eq!(best_attribute(&d, &words(&["dark", "love", "storm"])), "love");
    assert_eq!(best_attribute(&d, &words(&["storm"])), "storm");
    assert_eq!(best_attribute(&d, &words(&[])), "");
}

#[test]
fn chosen_attribute_has_the_largest_gain() {
    let d = sample();
    let attributes = counts(&[("storm", 1), ("love", 6), ("sea", 4)]);
    let best = choose_best_attribute(&d, &attributes);
    assert!(best == "love" || best == "sea");
    assert_eq!(choose_best_attribute(&d, &HashMap::new()), "");
    let single = counts(&[("dark", 6)]);
    assert_eq!(choose_best_attribute(&d, &single), "dark");
}

#[test]
fn correct_predictions_counts_matching_labels() {
    let mut children = HashMap::new();
    children.insert(3, leaf(Author::Austen));
    children.insert(1, leaf(Author::Shelley));
    let tree = DecisionTreeNode::Internal { attribute: "love".to_string(), children };
    // Predictions: love 3 -> Austen; love 2 -> fallback 1 -> Shelley;
    // love 1 -> Shelley; no love -> fallback 1 -> Shelley.
    let d = sample();
    assert_eq!(correct_predictions(&tree, &d), 3);
    let short = Dataset { features: d.features.clone(), labels: vec![Author::Shelley] };
    assert_eq!(correct_predictions(&tree, &short), 0);
    assert_eq!(correct_predictions(&leaf(Author::Austen), &d), 2);
}

#[test]
fn uniform_label_finds_agreeing_labels() {
    let (a, s) = (Author::Austen, Author::Shelley);
    assert_eq!(uniform_label(&vec![]), Some(a));
    assert_eq!(uniform_label(&vec![a, a]), Some(a));
    assert_eq!(uniform_label(&vec![s]), Some(s));
    assert_eq!(uniform_label(&vec![s, a]), None);
    assert_eq!(uniform_label(&vec![a, s, a]), None);
}

#[test]
fn fallback_count_past_u32_max_is_refused() {
    let mut children = HashMap::new();
    children.insert(u32::MAX, leaf(Author::Shelley));
    let tree = DecisionTreeNode::Internal { attribute: "love".to_string(), children };
    let ex = counts(&[]);
    assert!(!prediction_fits(&tree, &ex, u32::MAX));
    assert_eq!(predict_checked(&tree, &ex, u32::MAX), None);
    assert!(prediction_fits(&tree, &ex, 7));
    assert_eq!(predict_checked(&tree, &ex, 7), Some(Author::Austen));
    // Found through the word's own count, the fallback count does not grow.
    let found = counts(&[("love", u32::MAX)]);
    assert!(prediction_fits(&tree, &found, u32::MAX));
    assert_eq!(predict_checked(&tree, &found, u32::MAX), Some(Author::Shelley));
}
