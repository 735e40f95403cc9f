use cargo_interactive_update::loading::{init_loader, length, Loader};

#[test]
fn digit_counts() {
    assert_eq!(length(0, 10), 1);
    assert_eq!(length(9, 10), 1);
    assert_eq!(length(10, 10), 2);
    assert_eq!(length(99, 10), 2);
    assert_eq!(length(100, 10), 3);
    assert_eq!(length(4294967295, 10), 10);
    assert_eq!(length(255, 16), 2);
}

#[test]
fn loader_sizes_the_bar_to_the_total_or_the_terminal() {
    let small = init_loader(5, 50);
    assert_eq!(small.total_deps, 5);
    assert_eq!(small.loaded_deps, 0);
    assert_eq!(small.digits, 1);
    assert_eq!(small.cols, 5);

    let wide = init_loader(1000, 50);
    assert_eq!(wide.digits, 4);
    assert_eq!(wide.cols, 50 - 2 - 8 - 7);
}

#[test]
fn each_attempt_moves_the_count_by_exactly_one() {
    let mut loader: Loader = init_loader(5, 50);
    let mut seen = Vec::new();
    for expected in 1..=5usize {
        let (index, perc) = loader.inc_loader();
        assert_eq!(loader.loaded_deps, expected);
        assert_eq!(index, expected - 1);
        assert_eq!(perc, 100 * expected / 5);
        seen.push(perc);
    }
    assert_eq!(loader.loaded_deps, loader.total_deps);
    assert_eq!(seen, vec![20, 40, 60, 80, 100]);
}
