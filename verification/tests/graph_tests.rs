use namegraph::graph::LevenshteinGraph;
use namegraph::history::History;
use namegraph::DIST_SCALE;

fn john_johnny_bob() -> Vec<String> {
    vec!["John".to_string(), "Johnny".to_string(), "Bob".to_string()]
}

#[test]
fn test_compute_distance() {
    let words = john_johnny_bob();
    assert_eq!(LevenshteinGraph::compute_distance(0, 0, &words), 0);
    assert_eq!(LevenshteinGraph::compute_distance(0, 1, &words), 333_333);
    assert_eq!(LevenshteinGraph::compute_distance(0, 2, &words), 750_000);
    assert_eq!(LevenshteinGraph::compute_distance(1, 0, &words), 333_333);
    assert_eq!(LevenshteinGraph::compute_distance(1, 1, &words), 0);
    assert_eq!(LevenshteinGraph::compute_distance(1, 2, &words), 833_333);
    assert_eq!(LevenshteinGraph::compute_distance(2, 0, &words), 750_000);
    assert_eq!(LevenshteinGraph::compute_distance(2, 1, &words), 833_333);
    assert_eq!(LevenshteinGraph::compute_distance(2, 2, &words), 0);
}

#[test]
fn test_get_distance() {
    let mut graph = LevenshteinGraph::new();
    let words = john_johnny_bob();
    graph.fill(&words);
    assert_eq!(graph.get_distance(0, 0), 0);
    assert_eq!(graph.get_distance(0, 1), 333_333);
    assert_eq!(graph.get_distance(0, 2), 750_000);
    assert_eq!(graph.get_distance(1, 0), 333_333);
    assert_eq!(graph.get_distance(1, 1), 0);
    assert_eq!(graph.get_distance(1, 2), 833_333);
    assert_eq!(graph.get_distance(2, 0), 750_000);
    assert_eq!(graph.get_distance(2, 1), 833_333);
    assert_eq!(graph.get_distance(2, 2), 0);
}

#[test]
fn test_distance_edge_cases() {
    assert_eq!(namegraph::distance::distance("", ""), 0);
    assert_eq!(namegraph::distance::distance("", "John"), DIST_SCALE);
    assert_eq!(namegraph::distance::distance("John", ""), DIST_SCALE);
    assert_eq!(namegraph::distance::distance("John", "John"), 0);
    // Fully disjoint short strings of different lengths sit at the top of
    // the scale.
    assert_eq!(namegraph::distance::distance("ab", "wxyz"), DIST_SCALE);
}

#[test]
fn test_distance_symmetric_and_bounded() {
    let words = vec![
        "Anna".to_string(),
        "Bernard".to_string(),
        "Claire".to_string(),
        "Dominique".to_string(),
    ];
    let mut graph = LevenshteinGraph::new();
    graph.fill(&words);
    for a in 0..words.len() {
        assert_eq!(graph.get_distance(a, a), 0);
        for b in 0..words.len() {
            let d = graph.get_distance(a, b);
            assert_eq!(d, graph.get_distance(b, a));
            assert!(d <= DIST_SCALE);
        }
    }
}

#[test]
fn test_fill_deterministic_any_order() {
    let words = john_johnny_bob();
    let mut sequential = LevenshteinGraph::new();
    sequential.fill(&words);

    // The same store assembled from rows that arrive in reverse order.
    let mut assembled = LevenshteinGraph::new();
    assembled.prepare(words.len());
    for i in (0..words.len()).rev() {
        let row = LevenshteinGraph::compute_row(&words, i);
        assembled.install_row(i, row);
    }

    for a in 0..words.len() {
        for b in 0..words.len() {
            assert_eq!(sequential.get_distance(a, b), assembled.get_distance(a, b));
        }
    }
}

#[test]
fn test_evaluate_sign_convention() {
    // Liked "John": liked distances are subtracted, so scores are negative.
    let words = john_johnny_bob();
    let mut graph = LevenshteinGraph::new();
    graph.fill(&words);
    let mut history = History::new();
    history.push(0, true);
    assert_eq!(graph.evaluate(1, &history), -333_333);
    assert_eq!(graph.evaluate(2, &history), -750_000);
}

#[test]
fn test_recommend_after_liked_john() {
    // Liked "John": the lowest (most negative) score wins, index 2.
    let words = john_johnny_bob();
    let mut graph = LevenshteinGraph::new();
    graph.fill(&words);
    let mut history = History::new();
    history.push(0, true);
    assert_eq!(graph.recommend(&history), Some(2));
}

#[test]
fn test_recommend_after_disliked_bob() {
    // Disliked "Bob": disliked distances are added, the smaller sum wins.
    let words = john_johnny_bob();
    let mut graph = LevenshteinGraph::new();
    graph.fill(&words);
    let mut history = History::new();
    history.push(2, false);
    assert_eq!(graph.evaluate(0, &history), 750_000);
    assert_eq!(graph.evaluate(1, &history), 833_333);
    assert_eq!(graph.recommend(&history), Some(0));
}

#[test]
fn test_recommend_skips_history() {
    let words = john_johnny_bob();
    let mut graph = LevenshteinGraph::new();
    graph.fill(&words);
    let mut history = History::new();
    history.push(2, true);
    let r = graph.recommend(&history).unwrap();
    assert!(!history.contains(r));
    history.push(r, false);
    let r2 = graph.recommend(&history).unwrap();
    assert!(!history.contains(r2));
}

#[test]
fn test_recommend_exhaustion() {
    let words = john_johnny_bob();
    let mut graph = LevenshteinGraph::new();
    graph.fill(&words);
    let mut history = History::new();
    history.push(0, true);
    history.push(1, false);
    assert!(graph.recommend(&history).is_some());
    history.push(2, true);
    assert_eq!(graph.recommend(&history), None);
    assert_eq!(graph.closest(0, &history), None);
}

#[test]
fn test_closest_after_disliked_bob() {
    // Disliked "Bob" (index 2): of the remaining names, "John" is nearer
    // to "Bob" than "Johnny" is.
    let words = john_johnny_bob();
    let mut graph = LevenshteinGraph::new();
    graph.fill(&words);
    let mut history = History::new();
    history.push(2, false);
    assert_eq!(graph.closest(2, &history), Some(0));
}

#[test]
fn test_closest_excludes_self() {
    let words = john_johnny_bob();
    let mut graph = LevenshteinGraph::new();
    graph.fill(&words);
    let history = History::new();
    // "John" itself is never returned, even with an empty history.
    assert_eq!(graph.closest(0, &history), Some(1));
    // Only the queried name remains unvisited: that is exhaustion too.
    let mut rest = History::new();
    rest.push(0, true);
    rest.push(1, false);
    assert_eq!(graph.closest(2, &rest), None);
}

#[test]
fn test_recommend_weighted_prefers_popular() {
    let words = john_johnny_bob();
    let mut graph = LevenshteinGraph::new();
    graph.fill(&words);
    let history = History::new();
    // With no feedback every raw score is 0; popularity breaks the tie.
    let weights = vec![0, DIST_SCALE, 0];
    assert_eq!(graph.recommend_weighted(&history, &weights, DIST_SCALE), Some(1));
    // With a zero commonness factor the lowest index wins the tie instead.
    assert_eq!(graph.recommend_weighted(&history, &weights, 0), Some(0));
}

#[test]
fn test_recommend_weighted_skips_history() {
    let words = john_johnny_bob();
    let mut graph = LevenshteinGraph::new();
    graph.fill(&words);
    let mut history = History::new();
    history.push(1, true);
    let weights = vec![0, DIST_SCALE, DIST_SCALE / 2];
    let r = graph.recommend_weighted(&history, &weights, DIST_SCALE).unwrap();
    assert_ne!(r, 1);
}

#[test]
fn test_random_in_range() {
    let words = john_johnny_bob();
    let mut graph = LevenshteinGraph::new();
    graph.fill(&words);
    for _ in 0..64 {
        assert!(graph.random() < words.len());
    }
}

#[test]
fn test_history_push_and_contains() {
    let mut history = History::new();
    assert_eq!(history.len(), 0);
    assert!(!history.contains(4));
    history.push(4, true);
    history.push(7, false);
    assert_eq!(history.len(), 2);
    assert!(history.contains(4));
    assert!(history.contains(7));
    assert!(!history.contains(5));
    assert_eq!(history.entry(0), (4, true));
    assert_eq!(history.entry(1), (7, false));
}

#[test]
fn test_index_of_name() {
    let names = vec!["John".to_string(), "Bob".to_string(), "Bob".to_string()];
    assert_eq!(namegraph::history::index_of_name(&names, &"Bob".to_string()), Some(1));
    assert_eq!(namegraph::history::index_of_name(&names, &"John".to_string()), Some(0));
    assert_eq!(namegraph::history::index_of_name(&names, &"Zoe".to_string()), None);
}
