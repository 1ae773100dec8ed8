use linq::linq::chain::LinqChain;
use linq::linq::flatten::Flatten;
use linq::linq::into_iterator::LinqIntoIterator;
use linq::linq::iterator::{LinqIterator, Select, Take, Where};
use linq::types::vec::VecIterator;
use std::cell::Cell;

fn cursor_of(items: &[u32]) -> VecIterator<u32> {
    items.to_vec().into_linq_iter()
}

#[test]
fn select_maps_each_item_in_order() {
    let out = cursor_of(&[3, 1, 2]).select(|x: u32| x * 10).to_list();
    assert_eq!(out, vec![30, 10, 20]);
}

#[test]
fn select_keeps_the_number_of_items() {
    let input: Vec<u32> = (0..17).collect();
    let out = input.clone().into_linq_iter().select(|x: u32| x % 3).to_list();
    assert_eq!(out.len(), input.len());
    for i in 0..input.len() {
        assert_eq!(out[i], input[i] % 3);
    }
}

#[test]
fn select_may_change_the_item_type() {
    let out = cursor_of(&[1, 22]).select(|x: u32| x.to_string()).to_list();
    assert_eq!(out, vec!["1".to_string(), "22".to_string()]);
}

#[test]
fn select_calls_nothing_before_the_first_pull() {
    let calls = Cell::new(0u32);
    let mut sel = Select::new(cursor_of(&[1, 2, 3]), |x: u32| {
        calls.set(calls.get() + 1);
        x
    });
    assert_eq!(calls.get(), 0);
    assert_eq!(sel.next(), Some(1));
    assert_eq!(calls.get(), 1);
}

#[test]
fn where_keeps_the_passing_items_in_order() {
    let out = cursor_of(&[5, 2, 8, 1, 9, 4]).where_linq(|x: &u32| *x > 3).to_list();
    assert_eq!(out, vec![5, 8, 9, 4]);
}

#[test]
fn where_yields_only_items_that_pass() {
    let out = cursor_of(&[1, 2, 3, 4, 5, 6, 7, 8]).where_linq(|x: &u32| x % 2 == 0).to_list();
    assert!(out.iter().all(|x| x % 2 == 0));
    assert_eq!(out, vec![2, 4, 6, 8]);
}

#[test]
fn where_with_a_predicate_that_never_holds_yields_nothing() {
    let mut w = Where::new(cursor_of(&[1, 2, 3]), |_x: &u32| false);
    assert_eq!(w.next(), None);
    assert_eq!(w.next(), None);
}

#[test]
fn where_with_a_predicate_that_always_holds_yields_everything() {
    let out = cursor_of(&[4, 4, 1]).where_linq(|_x: &u32| true).to_list();
    assert_eq!(out, vec![4, 4, 1]);
}

#[test]
fn where_calls_the_predicate_once_on_each_item_pulled() {
    let calls = Cell::new(0u32);
    let out = cursor_of(&[1, 2, 3, 4])
        .where_linq(|x: &u32| {
            calls.set(calls.get() + 1);
            *x == 3
        })
        .to_list();
    assert_eq!(out, vec![3]);
    assert_eq!(calls.get(), 4);
}

#[test]
fn take_yields_the_first_items() {
    let out = cursor_of(&[7, 8, 9, 10]).take(2).to_list();
    assert_eq!(out, vec![7, 8]);
}

#[test]
fn take_of_more_than_there_is_yields_everything() {
    let out = cursor_of(&[7, 8, 9]).take(10).to_list();
    assert_eq!(out, vec![7, 8, 9]);
}

#[test]
fn take_of_exactly_the_length_yields_everything() {
    let out = cursor_of(&[7, 8, 9]).take(3).to_list();
    assert_eq!(out, vec![7, 8, 9]);
}

#[test]
fn take_zero_yields_nothing() {
    let out = cursor_of(&[7, 8, 9]).take(0).to_list();
    assert_eq!(out, Vec::<u32>::new());
}

#[test]
fn take_zero_never_pulls_the_cursor_beneath() {
    let pulled = Cell::new(0u32);
    let inner = cursor_of(&[7, 8, 9]).select(|x: u32| {
        pulled.set(pulled.get() + 1);
        x
    });
    let mut t = Take::new(inner, 0);
    assert_eq!(t.next(), None);
    assert_eq!(t.next(), None);
    assert_eq!(pulled.get(), 0);
}

#[test]
fn take_pulls_no_further_than_its_limit() {
    let pulled = Cell::new(0u32);
    let inner = cursor_of(&[7, 8, 9, 10, 11]).select(|x: u32| {
        pulled.set(pulled.get() + 1);
        x
    });
    let mut t = Take::new(inner, 2);
    assert_eq!(t.next(), Some(7));
    assert_eq!(t.next(), Some(8));
    assert_eq!(t.next(), None);
    assert_eq!(t.next(), None);
    assert_eq!(pulled.get(), 2);
}

#[test]
fn take_below_its_limit_pulls_the_cursor_beneath_once_for_each_pull() {
    let pulled = Cell::new(0u32);
    let inner = cursor_of(&[7, 8, 9]).select(|x: u32| {
        pulled.set(pulled.get() + 1);
        x
    });
    let mut t = Take::new(inner, 5);
    assert_eq!(t.next(), Some(7));
    assert_eq!(pulled.get(), 1);
    assert_eq!(t.next(), Some(8));
    assert_eq!(pulled.get(), 2);
    assert_eq!(t.next(), Some(9));
    assert_eq!(t.next(), None);
    assert_eq!(t.next(), None);
    assert_eq!(pulled.get(), 3);
}

#[test]
fn take_length_is_the_lesser_of_limit_and_length() {
    for len in 0..6u32 {
        for k in 0..8usize {
            let input: Vec<u32> = (0..len).collect();
            let out = input.clone().into_linq_iter().take(k).to_list();
            let want = std::cmp::min(k, len as usize);
            assert_eq!(out.len(), want);
            assert_eq!(out[..], input[..want]);
        }
    }
}

fn cursors_of(parts: &[&[u32]]) -> VecIterator<VecIterator<u32>> {
    let cursors: Vec<VecIterator<u32>> = parts.iter().map(|p| cursor_of(p)).collect();
    cursors.into_linq_iter()
}

#[test]
fn flatten_yields_the_parts_one_after_the_other() {
    let out = cursors_of(&[&[1, 2], &[3], &[4, 5, 6]]).flatten().to_list();
    assert_eq!(out, vec![1, 2, 3, 4, 5, 6]);
}

#[test]
fn flatten_passes_over_one_empty_part() {
    let out = cursors_of(&[&[1], &[], &[2]]).flatten().to_list();
    assert_eq!(out, vec![1, 2]);
}

#[test]
fn flatten_passes_over_empty_parts_that_follow_one_another() {
    let out = cursors_of(&[&[1], &[], &[], &[], &[2, 3], &[]]).flatten().to_list();
    assert_eq!(out, vec![1, 2, 3]);
}

#[test]
fn flatten_passes_over_empty_parts_at_the_start() {
    let out = cursors_of(&[&[], &[], &[9]]).flatten().to_list();
    assert_eq!(out, vec![9]);
}

#[test]
fn flatten_of_empty_parts_only_yields_nothing() {
    let mut f = Flatten::new(cursors_of(&[&[], &[], &[]]));
    assert_eq!(f.next(), None);
    assert_eq!(f.next(), None);
}

#[test]
fn flatten_of_no_parts_yields_nothing() {
    let out = cursors_of(&[]).flatten().to_list();
    assert_eq!(out, Vec::<u32>::new());
}

#[test]
fn flatten_pulls_the_outer_cursor_only_as_needed() {
    let made = Cell::new(0u32);
    let outer = vec![vec![1u32, 2], vec![3], vec![4]].into_linq_iter().select(|v: Vec<u32>| {
        made.set(made.get() + 1);
        v.into_linq_iter()
    });
    let mut f = Flatten::new(outer);
    assert_eq!(made.get(), 0);
    assert_eq!(f.next(), Some(1));
    assert_eq!(f.next(), Some(2));
    assert_eq!(made.get(), 1);
    assert_eq!(f.next(), Some(3));
    assert_eq!(made.get(), 2);
}

#[test]
fn to_list_of_an_empty_source_is_empty() {
    let out = Vec::<u32>::new().into_linq_iter().to_list();
    assert_eq!(out, Vec::<u32>::new());
}

#[test]
fn to_list_keeps_the_order_of_the_pulls() {
    let out = cursor_of(&[9, 1, 5]).to_list();
    assert_eq!(out, vec![9, 1, 5]);
}

#[test]
fn to_list_of_a_partly_pulled_cursor_gives_the_rest() {
    let mut c = cursor_of(&[9, 1, 5]);
    assert_eq!(c.next(), Some(9));
    assert_eq!(c.to_list(), vec![1, 5]);
}

#[test]
fn an_exhausted_pipeline_stays_exhausted() {
    let mut p = cursor_of(&[1, 2, 3]).where_linq(|x: &u32| *x > 1).select(|x: u32| x + 1).take(5);
    assert_eq!(p.next(), Some(3));
    assert_eq!(p.next(), Some(4));
    assert_eq!(p.next(), None);
    assert_eq!(p.next(), None);
    assert_eq!(p.next(), None);
}

#[test]
fn adapters_compose_in_any_order() {
    let out = cursor_of(&[1, 2, 3, 4, 5, 6, 7, 8, 9, 10])
        .take(8)
        .where_linq(|x: &u32| x % 2 == 1)
        .select(|x: u32| x * x)
        .take(3)
        .to_list();
    assert_eq!(out, vec![1, 9, 25]);
}
