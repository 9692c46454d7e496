use neurograph::attack_detection::{clone_suspects, CloneDetector, CoordinationDetector};
use neurograph::config::{CLONE_STREAK_THRESHOLD, COORDINATION_MIN_CLUSTER};

// Closeness thresholds of the node program's detectors.
const CLONE_EPSILON: f64 = 0.01;
const COORDINATION_EPSILON: f64 = 0.01;

fn distance(a: &[f64], b: &[f64]) -> f64 {
    a.iter().zip(b.iter()).map(|(x, y)| (x - y) * (x - y)).sum::<f64>().sqrt()
}

/// One step of clone detection over `(sender, prediction)` proposals: the
/// nodes confirmed as clones at this step.
fn clone_step(det: &mut CloneDetector, proposals: &[(&str, Vec<f64>)]) -> Vec<String> {
    if proposals.len() < 2 {
        return Vec::new();
    }
    let mut close = Vec::new();
    for i in 0..proposals.len() {
        for j in (i + 1)..proposals.len() {
            if distance(&proposals[j].1, &proposals[i].1) < CLONE_EPSILON {
                close.push((i, j));
            }
        }
    }
    let suspects = clone_suspects(proposals.len(), &close);
    let nodes: Vec<String> = proposals.iter().map(|(n, _)| n.to_string()).collect();
    det.update_streaks(&nodes, &suspects)
}

/// One step of coordination detection: the nodes flagged as a coordinated cluster.
fn coordination_step(det: &mut CoordinationDetector, proposals: &[(&str, Vec<f64>)]) -> Vec<String> {
    if proposals.len() < COORDINATION_MIN_CLUSTER {
        return Vec::new();
    }
    let mut close = Vec::new();
    for i in 0..proposals.len() {
        for j in (i + 1)..proposals.len() {
            if distance(&proposals[i].1, &proposals[j].1) < COORDINATION_EPSILON {
                close.push((i, j));
            }
        }
    }
    let senders: Vec<String> = proposals.iter().map(|(n, _)| n.to_string()).collect();
    det.detect_clusters(&senders, &close)
}

#[test]
fn test_clone_detector_detects_copycat() {
    let mut det = CloneDetector::new();
    let source_pred = vec![0.5, 0.5, 0.5, 0.5];
    let clone_pred = vec![0.5001, 0.4999, 0.5001, 0.4999];
    for _ in 0..CLONE_STREAK_THRESHOLD {
        let proposals = vec![("honest", source_pred.clone()), ("clone", clone_pred.clone())];
        let _ = clone_step(&mut det, &proposals);
    }
    let proposals = vec![("honest", source_pred.clone()), ("clone", clone_pred.clone())];
    let confirmed = clone_step(&mut det, &proposals);
    assert!(confirmed.contains(&"clone".to_string()), "Clone should be detected after {} streak steps", CLONE_STREAK_THRESHOLD);
}

#[test]
fn test_clone_detector_ignores_honest_noise() {
    let mut det = CloneDetector::new();
    let p1 = vec![0.50, 0.51, 0.49, 0.50];
    let p2 = vec![0.52, 0.48, 0.51, 0.49];
    for _ in 0..10 {
        let proposals = vec![("h1", p1.clone()), ("h2", p2.clone())];
        let confirmed = clone_step(&mut det, &proposals);
        assert!(
            !confirmed.contains(&"h1".to_string()) && !confirmed.contains(&"h2".to_string()),
            "Honest nodes with natural noise should NOT be flagged as clones"
        );
    }
}

#[test]
fn test_coordination_detector_finds_cluster() {
    let mut det = CoordinationDetector::new();
    let coord_pred = vec![0.9, 0.9, 0.9, 0.9];
    let proposals = vec![
        ("att1", coord_pred.clone()),
        ("att2", coord_pred.clone()),
        ("att3", coord_pred.clone()),
        ("honest", vec![0.5, 0.5, 0.5, 0.5]),
    ];
    let flagged = coordination_step(&mut det, &proposals);
    assert!(flagged.contains(&"att1".to_string()), "Coordinated attacker 1 should be detected");
    assert!(flagged.contains(&"att2".to_string()), "Coordinated attacker 2 should be detected");
    assert!(flagged.contains(&"att3".to_string()), "Coordinated attacker 3 should be detected");
    assert!(!flagged.contains(&"honest".to_string()), "Honest node should NOT be flagged");
}

#[test]
fn test_coordination_detector_ignores_small_groups() {
    let mut det = CoordinationDetector::new();
    let proposals = vec![
        ("a", vec![0.9, 0.9, 0.9, 0.9]),
        ("b", vec![0.9, 0.9, 0.9, 0.9]),
        ("c", vec![0.5, 0.5, 0.5, 0.5]),
        ("d", vec![0.3, 0.3, 0.3, 0.3]),
    ];
    let flagged = coordination_step(&mut det, &proposals);
    assert!(flagged.is_empty(), "Pairs should not trigger coordination detection");
}

#[test]
fn only_the_later_of_two_close_proposals_is_a_clone_suspect() {
    assert_eq!(clone_suspects(4, &vec![(0, 2), (1, 3), (3, 1)]), vec![false, false, true, true]);
    assert_eq!(clone_suspects(3, &vec![(2, 1), (0, 7)]), vec![false, false, false]);
    assert!(clone_suspects(0, &vec![]).is_empty());
    let mut det = CloneDetector::new();
    let source_pred = vec![0.5, 0.5, 0.5, 0.5];
    let clone_pred = vec![0.5001, 0.4999, 0.5001, 0.4999];
    let mut confirmed = Vec::new();
    for _ in 0..=CLONE_STREAK_THRESHOLD {
        let proposals = vec![("source", source_pred.clone()), ("copy", clone_pred.clone())];
        confirmed = clone_step(&mut det, &proposals);
    }
    assert_eq!(confirmed, vec!["copy".to_string()]);
    assert!(det.confirmed_clones().iter().all(|(n, _)| n != "source"));
}
