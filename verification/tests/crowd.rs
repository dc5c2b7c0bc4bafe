use bevy_pf_vector::crowd::{is_uncrowded, Edge};

fn edges(ends: &[(u64, u64)]) -> Vec<Edge> {
    ends.iter().map(|&(low, high)| Edge { low, high }).collect()
}

/// The most edges that a line just behind some end crosses.
fn crowd(edges: &[Edge]) -> usize {
    let most = |at: u64| edges.iter().filter(|e| e.low <= at && at < e.high).count();
    edges.iter().map(|e| most(e.low).max(most(e.high))).max().unwrap_or(0)
}

#[test]
fn the_fullest_line_counts() {
    let all = |limit: u32, ends: &[(u64, u64)]| is_uncrowded(&edges(ends), limit);
    assert!(all(0, &[]));
    assert!(!all(0, &[(1, 2)]) && all(1, &[(1, 2)]));
    // One that begins where another ends is not beside it.
    assert!(all(1, &[(1, 2), (2, 3), (0, 1)]));
    assert!(!all(1, &[(1, 3), (2, 4)]) && all(2, &[(1, 3), (2, 4)]));
    assert!(!all(2, &[(0, 9), (1, 3), (2, 4)]) && all(3, &[(0, 9), (1, 3), (2, 4)]));
    assert!(all(1, &[(0, 1), (u64::MAX - 1, u64::MAX)]));
}

#[test]
fn every_limit_is_told_apart() {
    let mut seed: u64 = 7;
    let mut draw = |n: u64| {
        seed = seed.wrapping_mul(6364136223846793005).wrapping_add(1442695040888963407);
        (seed >> 33) % n
    };
    for _ in 0..50 {
        let some: Vec<Edge> = (0..30)
            .map(|_| {
                let low = draw(20);
                Edge { low, high: low + 1 + draw(10) }
            })
            .collect();
        let most = crowd(&some) as u32;
        assert!(is_uncrowded(&some, most) && !is_uncrowded(&some, most - 1));
    }
}
