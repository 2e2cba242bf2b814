//! Choosing which benchmarks to measure.

use scaling::filter::{ArgError, Filter};

#[test]
fn a_filter_with_nothing_in_it_keeps_everything() {
    let f = Filter::everything();
    assert!(f.matches("anything"));
    assert!(f.matches(""));
}

#[test]
fn a_pattern_matches_any_part_of_a_name() {
    let f = Filter::everything().matching("sort");
    assert!(f.matches("mymod::sort_std"));
    assert!(f.matches("sorting@reversed"));
    assert!(!f.matches("hashing@short"));
}

#[test]
fn several_patterns_are_an_or() {
    let f = Filter::everything().matching("sort").matching("hash");
    assert!(f.matches("mymod::sort_std"));
    assert!(f.matches("hashing@short"));
    assert!(!f.matches("mymod::fib"));
}

#[test]
fn exact_matches_the_whole_name() {
    let f = Filter::everything().matching("sort").exact(true);
    assert!(f.matches("sort"));
    assert!(
        !f.matches("mymod::sort_std"),
        "a substring is not the whole name",
    );
}

#[test]
fn a_skip_narrows_a_filter_that_already_matched() {
    let f = Filter::everything().matching("sort").skipping("slow");
    assert!(f.matches("sorting@fast"));
    assert!(!f.matches("sorting@slow"));
}

#[test]
fn a_skip_on_its_own_keeps_everything_else() {
    let f = Filter::everything().skipping("slow");
    assert!(f.matches("anything"));
    assert!(!f.matches("very_slow_one"));
}

#[test]
fn patterns_see_the_whole_reported_name() {
    let by_fn_name = Filter::everything().matching("fib_200");
    assert!(by_fn_name.matches("mymod::fib_200"));
    assert!(!by_fn_name.matches("mymod::fib_500"));

    let by_matrix = Filter::everything().matching("sorting@reversed");
    assert!(by_matrix.matches("sorting@reversed"));
    assert!(!by_matrix.matches("sorting@sorted"));

    let exact = Filter::everything().matching("fib_200").exact(true);
    assert!(!exact.matches("mymod::fib_200"), "the module prefix is part of the name");
    assert!(exact.matches("fib_200"), "matches only a name with nothing else in it");

    let with_skip = Filter::everything().matching("mymod::").skipping("slow");
    assert!(with_skip.matches("mymod::fib_200"));
    assert!(!with_skip.matches("mymod::slow_fib"));
}

/// `from_arg_iter` takes the arguments of a program, its own name first.
fn parse(args: &[&str]) -> Filter {
    let mut argv = vec!["prog"];
    argv.extend(args.iter().copied());
    Filter::from_arg_iter(&argv).expect("these parse")
}

#[test]
fn no_arguments_means_measure_everything() {
    let f = parse(&[]);
    assert!(f.matches("anything"));
    assert!(!f.is_listing());
}

#[test]
fn filters_skips_and_flags_are_read() {
    let f = parse(&["--filter", "sort", "--filter", "hash", "--skip", "slow"]);
    assert!(f.matches("sorting"));
    assert!(f.matches("hashing"));
    assert!(!f.matches("fib"));
    assert!(!f.matches("sorting_slow"), "the skip still applies");

    let f = parse(&["--exact", "--filter", "sort"]);
    assert!(f.matches("sort"));
    assert!(!f.matches("sorting"));

    assert!(parse(&["--list"]).is_listing());
}

#[test]
fn the_flag_cargo_adds_by_itself_is_ignored() {
    let f = parse(&["--bench"]);
    assert!(f.matches("anything"), "plain `cargo bench` must just work");

    // And after the caller's own arguments, where cargo actually puts it.
    let f = parse(&["--filter", "sort", "--bench"]);
    assert!(f.matches("sorting"));
    assert!(!f.matches("hashing"));

    // `cargo test --bench x` passes `--test` in the same spirit.
    assert!(parse(&["--test"]).matches("anything"));
}

#[test]
fn an_unknown_flag_is_an_error_rather_than_being_ignored() {
    let argv = ["prog", "--flitter", "sort"];
    assert!(
        Filter::from_arg_iter(&argv).is_err(),
        "a typo in a flag name must not quietly measure everything",
    );
}

#[test]
fn each_bad_argument_is_named() {
    assert_eq!(
        Filter::from_arg_iter(&["prog", "--flitter", "sort"]),
        Err(ArgError::Unknown("--flitter".to_string())),
    );
    assert_eq!(
        Filter::from_arg_iter(&["prog", "--filter"]),
        Err(ArgError::MissingValue("--filter".to_string())),
    );
    assert_eq!(
        Filter::from_arg_iter(&["prog", "--skip"]),
        Err(ArgError::MissingValue("--skip".to_string())),
    );
    assert_eq!(Filter::from_arg_iter(&[]), Ok(Filter::everything()));
}

#[test]
fn the_environment_is_read_too() {
    let f = Filter::from_env(Some("sort hash"), Some("slow"), None);
    assert!(f.matches("sorting"));
    assert!(f.matches("hashing"));
    assert!(!f.matches("fib"));
    assert!(!f.matches("sorting_slow"));

    let exact = Filter::from_env(Some("sort hash"), Some("slow"), Some("1"));
    assert!(!exact.matches("sorting"), "exact now");
    assert!(exact.matches("sort"));

    assert!(Filter::from_env(None, None, None).matches("anything"));
}

#[test]
fn a_listing_filter_still_chooses() {
    let f = Filter::everything().matching("sort").listing(true);
    assert!(f.is_listing());
    assert!(f.matches("sorting"));
    assert!(!f.matches("hashing"));
    assert!(!f.listing(false).is_listing());
}
