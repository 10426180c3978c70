use kona_rs::k::K;
use kona_rs::torrent::select_pieces;

/// Integer weights that order and tie as the given doubles do: each
/// weight is replaced by the number of distinct given values below it.
fn weights_from_floats(w: &[f64]) -> K {
    assert!(w.iter().all(|x| !x.is_nan()));
    K::from_ints(w.iter().map(|&x| w.iter().filter(|&&v| v < x).fold(Vec::<f64>::new(), |mut seen, &v| {
        if !seen.iter().any(|&u| u == v) {
            seen.push(v);
        }
        seen
    }).len() as i64).collect())
}

#[test]
fn weights_compare_as_doubles() {
    let peers = K::from_ints(vec![2, 1]);
    let own = K::from_ints(vec![0, 0]);
    let weights = K::from_ints(vec![9_007_199_254_740_993, 9_007_199_254_740_992]);
    let selected = select_pieces(&peers, &own, &K::ki(2), Some(&weights));
    assert_eq!(selected.ki_data(), &[1, 0]);
    let weights = K::from_ints(vec![3, 2]);
    let selected = select_pieces(&peers, &own, &K::ki(2), Some(&weights));
    assert_eq!(selected.ki_data(), &[0, 1]);
}

#[test]
fn float_weights_keep_their_order() {
    let w = weights_from_floats(&[0.1, 0.9, 0.5, 9.9, -0.0, 0.0]);
    assert_eq!(w.ki_data(), &[1, 3, 2, 4, 0, 0]);
}

#[test]
fn test_torrent_test_sequential() {
    let client_pieces = vec![false, false, true, false, false];
    let availability = vec![2, 3, 4, 1, 5];
    let priorities = vec![2, 2, 2, 2, 2];
    let order = kona_rs::swarm::select_pieces("sequential", &client_pieces, &availability, &priorities);
    assert_eq!(order, vec![0, 1, 3, 4]);
}

#[test]
fn test_torrent_test_rarest_first() {
    let client_pieces = vec![false, false, true, false, false];
    let availability = vec![2, 3, 4, 1, 5];
    let priorities = vec![2, 2, 2, 2, 2];
    let order = kona_rs::swarm::select_pieces("rarest", &client_pieces, &availability, &priorities);
    assert_eq!(order, vec![3, 0, 1, 4]);
}

#[test]
fn test_torrent_test_rarest_first_differing_availability() {
    let client_pieces = vec![false, false, false, false];
    let availability = vec![5, 0, 2, 1];
    let priorities = vec![2, 2, 2, 2];
    let order = kona_rs::swarm::select_pieces("rarest", &client_pieces, &availability, &priorities);
    assert_eq!(order, vec![3, 2, 0]);
}

#[test]
fn test_torrent_test_priority_weighted() {
    let client_pieces = vec![false, false, false, false];
    let availability = vec![2, 2, 4, 1];
    let priorities = vec![2, 3, 2, 2];
    let order = kona_rs::swarm::select_pieces("priority", &client_pieces, &availability, &priorities);
    assert_eq!(order, vec![1, 3, 0, 2]);
}

#[test]
fn torrent_test_rarest_first() {
    let p0 = K::from_ints(vec![1, 1, 1, 0]);
    let p1 = K::from_ints(vec![1, 1, 0, 0]);
    let p2 = K::from_ints(vec![0, 1, 1, 0]);
    let peers = K::from_list(vec![p0, p1, p2]);

    let own = K::from_ints(vec![0, 1, 0, 1]);
    let policy = K::ki(0);

    let selected = select_pieces(&peers, &own, &policy, None);
    assert_eq!(selected.t, 1);
    assert_eq!(selected.ki_data(), &[0, 2]);
}

#[test]
fn torrent_test_rarest_first_differing_availability() {
    let peers_avail = K::from_ints(vec![3, 1, 2, 0]);
    let own = K::from_ints(vec![0, 0, 0, 1]);
    let policy = K::ki(0);

    let selected = select_pieces(&peers_avail, &own, &policy, None);
    assert_eq!(selected.ki_data(), &[1, 2, 0]);
}

#[test]
fn torrent_test_sequential() {
    let peers_avail = K::from_ints(vec![3, 1, 2, 0]);
    let own = K::from_ints(vec![0, 0, 0, 1]);
    let policy = K::ki(1);

    let selected = select_pieces(&peers_avail, &own, &policy, None);
    assert_eq!(selected.ki_data(), &[0, 1, 2]);
}

#[test]
fn torrent_test_priority_weighted() {
    let peers_avail = K::from_ints(vec![3, 1, 2, 0]);
    let own = K::from_ints(vec![0, 0, 0, 1]);
    let policy = K::ki(2);
    let weights = weights_from_floats(&[0.1, 0.9, 0.5, 9.9]);

    let selected = select_pieces(&peers_avail, &own, &policy, Some(&weights));
    assert_eq!(selected.ki_data(), &[1, 2, 0]);
}
