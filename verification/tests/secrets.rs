use aoc24::secrets::{calculate_next_secret, find_best_banana_buy, solve as solve_secrets, sum_of_2000th_secret_numbers};

#[test]
fn secrets_follow_each_other() {
    let mut secret = 123u64;
    let mut found = Vec::new();
    for _ in 0..10 {
        calculate_next_secret(&mut secret);
        found.push(secret);
    }
    assert_eq!(
        found,
        vec![15887950, 16495136, 527345, 704524, 1553684, 12683156, 11100544, 12249484, 7753432, 5908254]
    );
}

#[test]
fn secrets_example_sum() {
    let (sum, prices) = sum_of_2000th_secret_numbers("1\n10\n100\n2024\n").unwrap();
    assert_eq!(sum, 37327623);
    assert_eq!(prices.len(), 4);
    assert_eq!(prices[0].len(), 2001);
    assert_eq!(prices[0][0], 1);
    assert!(sum_of_2000th_secret_numbers("1\nx\n").is_none());
    assert!(sum_of_2000th_secret_numbers("4294967296\n").is_none());
}

#[test]
fn secrets_best_buy() {
    assert_eq!(solve_secrets("1\n2\n3\n2024\n"), Some((37990510, 23)));
    assert_eq!(find_best_banana_buy(vec![vec![3, 0, 6, 5, 4, 4, 6, 4, 4, 2]]), Some(6));
    assert_eq!(find_best_banana_buy(vec![vec![1, 2, 3]]), Some(0));
    assert_eq!(find_best_banana_buy(Vec::new()), Some(0));
}
