use linq::linq::chain::LinqChain;
use linq::linq::group_by::{add_item, find_group, reversed, GroupBy};
use linq::linq::into_iterator::LinqIntoIterator;
use linq::linq::iterator::LinqIterator;
use linq::linq::order::le_keys;
use linq::linq::order_by::{find_place, insert_in_place, unload, OrderBy};
use std::cell::Cell;

#[test]
fn order_by_sorts_ascending() {
    let out = vec![5u32, 3, 9, 1, 7].into_linq_iter().order_by(|x: &u32| *x).to_list();
    assert_eq!(out, vec![1, 3, 5, 7, 9]);
}

#[test]
fn order_by_output_is_non_decreasing_by_key() {
    let input = vec![17u32, 4, 22, 4, 9, 31, 0, 17, 8];
    let out = input.into_linq_iter().order_by(|x: &u32| x % 10).to_list();
    for pair in out.windows(2) {
        assert!(pair[0] % 10 <= pair[1] % 10);
    }
}

#[test]
fn order_by_keeps_every_item() {
    let input = vec![17u32, 4, 22, 4, 9, 31, 0, 17, 8];
    let out = input.clone().into_linq_iter().order_by(|x: &u32| x % 10).to_list();
    let mut a = input;
    let mut b = out;
    a.sort();
    b.sort();
    assert_eq!(a, b);
}

#[test]
fn order_by_is_stable() {
    let input = vec![(2u32, 'a'), (1, 'b'), (2, 'c'), (1, 'd'), (2, 'e'), (0, 'f')];
    let out = input.into_linq_iter().order_by(|x: &(u32, char)| x.0).to_list();
    assert_eq!(out, vec![(0, 'f'), (1, 'b'), (1, 'd'), (2, 'a'), (2, 'c'), (2, 'e')]);
}

#[test]
fn order_by_with_one_key_for_all_keeps_the_order() {
    let out = vec![5u32, 3, 9, 1].into_linq_iter().order_by(|_x: &u32| 0u8).to_list();
    assert_eq!(out, vec![5, 3, 9, 1]);
}

#[test]
fn order_by_of_nothing_yields_nothing() {
    let mut o = OrderBy::new(Vec::<u32>::new().into_linq_iter(), |x: &u32| *x);
    assert_eq!(o.next(), None);
    assert_eq!(o.next(), None);
}

#[test]
fn order_by_agrees_with_a_stable_sort() {
    let input: Vec<(u32, u32)> = (0..40u32).map(|i| ((i * 7919) % 5, i)).collect();
    let out = input.clone().into_linq_iter().order_by(|x: &(u32, u32)| x.0).to_list();
    let mut want = input;
    want.sort_by_key(|x| x.0);
    assert_eq!(out, want);
}

#[test]
fn order_by_pulls_nothing_until_the_first_pull_and_then_everything() {
    let pulled = Cell::new(0u32);
    let inner = vec![3u32, 1, 2].into_linq_iter().select(|x: u32| {
        pulled.set(pulled.get() + 1);
        x
    });
    let mut o = OrderBy::new(inner, |x: &u32| *x);
    assert_eq!(pulled.get(), 0);
    assert_eq!(o.next(), Some(1));
    assert_eq!(pulled.get(), 3);
    assert_eq!(o.next(), Some(2));
    assert_eq!(o.next(), Some(3));
    assert_eq!(o.next(), None);
    assert_eq!(o.next(), None);
    assert_eq!(pulled.get(), 3);
}

#[test]
fn order_by_calls_the_key_once_on_each_item() {
    let calls = Cell::new(0u32);
    let out = vec![3u32, 1, 2, 5, 4]
        .into_linq_iter()
        .order_by(|x: &u32| {
            calls.set(calls.get() + 1);
            *x
        })
        .to_list();
    assert_eq!(out, vec![1, 2, 3, 4, 5]);
    assert_eq!(calls.get(), 5);
}

#[test]
fn group_by_yields_one_group_for_each_key_in_ascending_order() {
    let out = vec![5u32, 2, 7, 4, 1, 8].into_linq_iter().group_by(|x: &u32| x % 3).to_list();
    assert_eq!(out, vec![(1, vec![7, 4, 1]), (2, vec![5, 2, 8])]);
}

#[test]
fn group_by_keeps_the_order_within_a_group() {
    let input = vec!["pear", "fig", "plum", "apple", "kiwi", "date", "lime"];
    let out = input.into_linq_iter().group_by(|w: &&str| w.len()).to_list();
    assert_eq!(
        out,
        vec![(3, vec!["fig"]), (4, vec!["pear", "plum", "kiwi", "date", "lime"]), (5, vec!["apple"])]
    );
}

#[test]
fn group_by_keys_are_distinct_and_ascending() {
    let input: Vec<u32> = (0..50u32).map(|i| (i * 37) % 11).collect();
    let out = input.into_linq_iter().group_by(|x: &u32| x % 4).to_list();
    for pair in out.windows(2) {
        assert!(pair[0].0 < pair[1].0);
    }
}

#[test]
fn group_by_keeps_every_item() {
    let input: Vec<u32> = (0..50u32).map(|i| (i * 37) % 11).collect();
    let out = input.clone().into_linq_iter().group_by(|x: &u32| x % 4).to_list();
    let mut members: Vec<u32> = Vec::new();
    for (key, group) in out {
        assert!(!group.is_empty());
        for x in group {
            assert_eq!(x % 4, key);
            members.push(x);
        }
    }
    let mut want = input;
    want.sort();
    members.sort();
    assert_eq!(members, want);
}

#[test]
fn group_by_members_are_the_items_of_the_key_in_their_order() {
    let input: Vec<u32> = (0..30u32).map(|i| (i * 13) % 17).collect();
    let out = input.clone().into_linq_iter().group_by(|x: &u32| x % 5).to_list();
    for (key, group) in out {
        let want: Vec<u32> = input.iter().copied().filter(|x| x % 5 == key).collect();
        assert_eq!(group, want);
    }
}

#[test]
fn group_by_read_group_after_group_is_the_stable_sort() {
    let input: Vec<(u32, u32)> = (0..60u32).map(|i| ((i * 7919) % 7, i)).collect();
    let groups = input.clone().into_linq_iter().group_by(|x: &(u32, u32)| x.0).to_list();
    let sorted = input.into_linq_iter().order_by(|x: &(u32, u32)| x.0).to_list();
    let mut members: Vec<(u32, u32)> = Vec::new();
    for (_key, group) in groups {
        members.extend(group);
    }
    assert_eq!(members, sorted);
}

#[test]
fn order_by_hands_out_the_buffer_front_to_back_after_the_first_pull() {
    let mut o = OrderBy::new(vec![2u32, 3, 1].into_linq_iter(), |x: &u32| *x);
    assert_eq!(o.next(), Some(1));
    assert_eq!(o.to_list(), vec![2, 3]);
}

#[test]
fn group_by_hands_out_the_buffer_front_to_back_after_the_first_pull() {
    let mut g = GroupBy::new(vec![2u32, 3, 1, 5].into_linq_iter(), |x: &u32| x % 3);
    assert_eq!(g.next(), Some((0, vec![3])));
    assert_eq!(g.to_list(), vec![(1, vec![1]), (2, vec![2, 5])]);
}

#[test]
fn group_by_of_nothing_yields_nothing() {
    let mut g = GroupBy::new(Vec::<u32>::new().into_linq_iter(), |x: &u32| *x);
    assert_eq!(g.next(), None);
    assert_eq!(g.next(), None);
}

#[test]
fn group_by_with_one_key_for_all_yields_one_group() {
    let out = vec![4u32, 2, 9].into_linq_iter().group_by(|_x: &u32| 'k').to_list();
    assert_eq!(out, vec![('k', vec![4, 2, 9])]);
}

#[test]
fn group_by_pulls_nothing_until_the_first_pull_and_then_everything() {
    let pulled = Cell::new(0u32);
    let inner = vec![3u32, 1, 2, 4].into_linq_iter().select(|x: u32| {
        pulled.set(pulled.get() + 1);
        x
    });
    let mut g = GroupBy::new(inner, |x: &u32| x % 2);
    assert_eq!(pulled.get(), 0);
    assert_eq!(g.next(), Some((0, vec![2, 4])));
    assert_eq!(pulled.get(), 4);
    assert_eq!(g.next(), Some((1, vec![3, 1])));
    assert_eq!(g.next(), None);
    assert_eq!(g.next(), None);
    assert_eq!(pulled.get(), 4);
}

#[test]
fn group_by_calls_the_key_once_on_each_item() {
    let calls = Cell::new(0u32);
    let out = vec![3u32, 1, 2, 5, 4]
        .into_linq_iter()
        .group_by(|x: &u32| {
            calls.set(calls.get() + 1);
            x % 2
        })
        .to_list();
    assert_eq!(out, vec![(0, vec![2, 4]), (1, vec![3, 1, 5])]);
    assert_eq!(calls.get(), 5);
}

#[test]
fn le_keys_is_the_order_of_the_key_type() {
    assert!(le_keys(&1u32, &2u32));
    assert!(le_keys(&2u32, &2u32));
    assert!(!le_keys(&3u32, &2u32));
    assert!(le_keys(&"a", &"b"));
}

#[test]
fn find_place_is_behind_the_last_item_that_does_not_come_after() {
    let buf = vec![('a', 1u32), ('b', 3), ('c', 3), ('d', 7)];
    assert_eq!(find_place(&buf, &('x', 0)), 0);
    assert_eq!(find_place(&buf, &('x', 1)), 1);
    assert_eq!(find_place(&buf, &('x', 3)), 3);
    assert_eq!(find_place(&buf, &('x', 5)), 3);
    assert_eq!(find_place(&buf, &('x', 7)), 4);
    assert_eq!(find_place(&buf, &('x', 9)), 4);
    assert_eq!(find_place(&Vec::<(char, u32)>::new(), &('x', 9)), 0);
}

#[test]
fn insert_in_place_puts_an_item_behind_its_like() {
    let mut buf = vec![('a', 1u32), ('b', 3), ('c', 3), ('d', 7)];
    insert_in_place(&mut buf, ('x', 3));
    assert_eq!(buf, vec![('a', 1), ('b', 3), ('c', 3), ('x', 3), ('d', 7)]);
    insert_in_place(&mut buf, ('y', 0));
    assert_eq!(buf, vec![('y', 0), ('a', 1), ('b', 3), ('c', 3), ('x', 3), ('d', 7)]);
}

#[test]
fn unload_gives_the_items_last_first() {
    assert_eq!(unload(vec![('a', 1u32), ('b', 2), ('c', 3)]), vec!['c', 'b', 'a']);
    assert_eq!(unload(Vec::<(char, u32)>::new()), Vec::<char>::new());
}

#[test]
fn reversed_gives_the_items_last_first() {
    assert_eq!(reversed(vec![1u32, 2, 3]), vec![3, 2, 1]);
    assert_eq!(reversed(Vec::<u32>::new()), Vec::<u32>::new());
}

#[test]
fn find_group_is_behind_the_last_group_that_does_not_come_after() {
    let groups = vec![(2u32, vec!['a']), (5, vec!['b', 'c']), (9, vec!['d'])];
    assert_eq!(find_group(&groups, &1), 0);
    assert_eq!(find_group(&groups, &2), 1);
    assert_eq!(find_group(&groups, &4), 1);
    assert_eq!(find_group(&groups, &5), 2);
    assert_eq!(find_group(&groups, &9), 3);
    assert_eq!(find_group(&groups, &10), 3);
}

#[test]
fn add_item_joins_the_group_of_its_key_or_starts_one() {
    let mut groups: Vec<(u32, Vec<char>)> = Vec::new();
    add_item(&mut groups, 5, 'a');
    assert_eq!(groups, vec![(5, vec!['a'])]);
    add_item(&mut groups, 2, 'b');
    assert_eq!(groups, vec![(2, vec!['b']), (5, vec!['a'])]);
    add_item(&mut groups, 5, 'c');
    assert_eq!(groups, vec![(2, vec!['b']), (5, vec!['a', 'c'])]);
    add_item(&mut groups, 3, 'd');
    assert_eq!(groups, vec![(2, vec!['b']), (3, vec!['d']), (5, vec!['a', 'c'])]);
    add_item(&mut groups, 9, 'e');
    assert_eq!(groups, vec![(2, vec!['b']), (3, vec!['d']), (5, vec!['a', 'c']), (9, vec!['e'])]);
}
