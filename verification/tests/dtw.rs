use cologna_karaoke::dtw::path_to_token_spans;

#[test]
fn spans_take_first_and_last_frame_of_each_token() {
    let path = vec![(0, 0), (0, 1), (1, 2), (1, 3), (1, 4), (2, 5)];
    assert_eq!(path_to_token_spans(&path, 3), vec![(0, 1), (2, 4), (5, 5)]);
}

#[test]
fn unvisited_tokens_get_zero_span() {
    let path = vec![(0, 0), (2, 1)];
    assert_eq!(path_to_token_spans(&path, 4), vec![(0, 0), (0, 0), (1, 1), (0, 0)]);
}

/// Standard DTW (diagonal, down, right) over a float cost matrix.
fn dtw(cost: &[Vec<f32>]) -> Vec<(usize, usize)> {
    let n = cost.len();
    let m = cost[0].len();
    let mut dp = vec![vec![f32::INFINITY; m]; n];
    dp[0][0] = cost[0][0];
    for j in 1..m {
        dp[0][j] = dp[0][j - 1] + cost[0][j];
    }
    for i in 1..n {
        dp[i][0] = dp[i - 1][0] + cost[i][0];
    }
    for i in 1..n {
        for j in 1..m {
            dp[i][j] = cost[i][j] + dp[i - 1][j - 1].min(dp[i - 1][j]).min(dp[i][j - 1]);
        }
    }
    let (mut i, mut j) = (n - 1, m - 1);
    let mut path = vec![(i, j)];
    while i > 0 || j > 0 {
        if i == 0 {
            j -= 1;
        } else if j == 0 {
            i -= 1;
        } else {
            let (diag, up, left) = (dp[i - 1][j - 1], dp[i - 1][j], dp[i][j - 1]);
            let min = diag.min(up).min(left);
            if (diag - min).abs() < f32::EPSILON {
                i -= 1;
                j -= 1;
            } else if (up - min).abs() < f32::EPSILON {
                i -= 1;
            } else {
                j -= 1;
            }
        }
        path.push((i, j));
    }
    path.reverse();
    path
}

#[test]
fn spans_cover_all_tokens() {
    let cost = vec![vec![0.5f32; 20]; 5];
    let path = dtw(&cost);
    let spans = path_to_token_spans(&path, 5);
    assert_eq!(spans.len(), 5);
    for (s, e) in &spans {
        assert!(s <= e);
    }
}

#[test]
fn spans_run_from_least_to_greatest_frame() {
    let path = [(0usize, 3usize), (0, 1), (1, 5), (0, 2), (1, 4)];
    assert_eq!(path_to_token_spans(&path, 3), vec![(1, 3), (4, 5), (0, 0)]);
}
