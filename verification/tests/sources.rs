use linq::linq::chain::LinqChain;
use linq::linq::into_iterator::LinqIntoIterator;
use linq::linq::iterator::LinqIterator;
use linq::types::fibonacci::FibIterator;

#[test]
fn a_vector_yields_its_items_front_to_back() {
    let mut c = vec!['x', 'y', 'z'].into_linq_iter();
    assert_eq!(c.next(), Some('x'));
    assert_eq!(c.next(), Some('y'));
    assert_eq!(c.next(), Some('z'));
    assert_eq!(c.next(), None);
    assert_eq!(c.next(), None);
}

#[test]
fn an_empty_vector_yields_nothing() {
    let mut c = Vec::<String>::new().into_linq_iter();
    assert_eq!(c.next(), None);
}

#[test]
fn a_vector_yields_each_item_once() {
    let out = vec![1u32, 1, 2, 1].into_linq_iter().to_list();
    assert_eq!(out, vec![1, 1, 2, 1]);
}

#[test]
fn fibonacci_starts_with_the_successive_sums() {
    let out = FibIterator::new().take(19).to_list();
    assert_eq!(
        out,
        vec![
            1, 2, 3, 5, 8, 13, 21, 34, 55, 89, 144, 233, 377, 610, 987, 1597, 2584, 4181, 6765
        ]
    );
}

#[test]
fn fibonacci_each_item_is_the_sum_of_the_two_before() {
    let out = FibIterator::new().to_list();
    for i in 2..out.len() {
        assert_eq!(out[i] as u64, out[i - 1] as u64 + out[i - 2] as u64);
    }
}

#[test]
fn fibonacci_ends_with_the_last_sum_that_fits() {
    let out = FibIterator::new().to_list();
    assert_eq!(out.len(), 46);
    assert_eq!(out[45], 2971215073);
    assert_eq!(out[44], 1836311903);
}

#[test]
fn fibonacci_stays_exhausted() {
    let mut f = FibIterator::new();
    let mut n = 0;
    while f.next().is_some() {
        n += 1;
    }
    assert_eq!(n, 46);
    assert_eq!(f.next(), None);
    assert_eq!(f.next(), None);
}
