use linq::linq::chain::LinqChain;
use linq::linq::into_iterator::LinqIntoIterator;
use linq::linq::iterator::LinqIterator;
use linq::types::fibonacci::FibIterator;
use linq::types::vec::VecIterator;

#[test]
fn fibonacci_multiples_of_three_squared_when_even() {
    let fib = FibIterator::new()
        .where_linq(|x: &u32| x % 3 == 0)
        .select(|x: u32| if x % 2 == 0 { x * x } else { x })
        .take(5)
        .to_list();
    assert_eq!(fib, vec![3, 21, 20736, 987, 6765]);
}

#[test]
fn fibonacci_multiples_of_three() {
    let fib = FibIterator::new()
        .where_linq(|x: &u32| x % 3 == 0)
        .take(5)
        .to_list();
    assert_eq!(fib, vec![3, 21, 144, 987, 6765]);
}

#[test]
fn word_count_over_lines() {
    let word_count = vec![
        "hello world".to_owned(),
        "world hello my dear friend".to_owned(),
        "this is world another line".to_owned(),
        "to test count words".to_owned(),
    ]
    .into_linq_iter()
    .select(|x: String| -> Vec<String> { x.split_whitespace().map(str::to_string).collect() })
    .select(|x: Vec<String>| -> VecIterator<String> { x.into_linq_iter() })
    .flatten()
    .select(|x: String| (x, 1u32))
    .group_by(|x: &(String, u32)| x.0.clone())
    .select(|(key, values): (String, Vec<(String, u32)>)| (key, values.len() as u32))
    .to_list();
    let expected: Vec<(String, u32)> = vec![
        ("another", 1),
        ("count", 1),
        ("dear", 1),
        ("friend", 1),
        ("hello", 2),
        ("is", 1),
        ("line", 1),
        ("my", 1),
        ("test", 1),
        ("this", 1),
        ("to", 1),
        ("words", 1),
        ("world", 3),
    ]
    .into_iter()
    .map(|(w, n)| (w.to_string(), n))
    .collect();
    assert_eq!(word_count, expected);
}
