use spaced_list::{Entry, LinkedRangeSpacedList, LinkedSpacedList};

/// Resums every entry's spacing, in storage order.
fn sum_of_spacings(list: &LinkedSpacedList<char>) -> usize {
    let mut sum: usize = 0;
    for index in list.indices() {
        sum += list.spacing_of(index);
    }
    sum
}

fn all_positions(list: &LinkedSpacedList<char>) -> Vec<(usize, usize)> {
    list.indices().into_iter().map(|i| (i, list.position(i))).collect()
}

#[test]
fn entry_packs_spacing_and_value() {
    let e = Entry::new(3, 'x');
    assert_eq!(e.spacing, 3);
    assert_eq!(e.value, 'x');
}

#[test]
fn it_works() {
    let mut list = LinkedSpacedList::new();
    let index_a = list.push(20, 'a');
    let index_b = list.push(5, 'b');
    let index_c = list.insert_after(12, 'c');

    assert_eq!(list.length(), 25);
    assert_eq!(list.position(index_a), 20);
    assert_eq!(list.position(index_b), 25);
    assert_eq!(list.position(index_c), 12);
    // the first entry's spacing of 20 is split into 12 and 8
    assert_eq!(list.spacing_of(index_c), 12);
    assert_eq!(list.spacing_of(index_a), 8);

    list.inflate_after(16, 6);

    // the entry covering position 16 is 'a'; it and 'b' move up by 6
    assert_eq!(list.length(), 31);
    assert_eq!(list.spacing_of(index_a), 14);
    assert_eq!(list.position(index_a), 26);
    assert_eq!(list.position(index_b), 31);
    assert_eq!(list.position(index_c), 12);

    let removed = list.remove(index_a);
    assert_eq!(removed, 'a');

    // 'a''s spacing folds into 'b'; 'b' and 'c' keep their positions
    assert_eq!(list.length(), 31);
    assert_eq!(list.position(index_b), 31);
    assert_eq!(list.position(index_c), 12);
    assert_eq!(*list.get(index_b), 'b');
    assert_eq!(*list.get(index_c), 'c');
}

#[test]
fn it_works_with_ranges() {
    let mut list = LinkedRangeSpacedList::new();
    let index_a = list.push(10, 4, 'a');
    let index_b = list.push(2, 5, 'b');
    let index_c = list.insert_after(9, 12, 'c');

    assert_eq!(list.length(), 21);
    assert_eq!(list.position(index_a.0), 10);
    assert_eq!(list.position(index_a.1), 14);
    assert_eq!(list.position(index_b.0), 16);
    assert_eq!(list.position(index_b.1), 21);
    assert_eq!(list.position(index_c.0), 9);
    assert_eq!(list.position(index_c.1), 12);

    list.inflate_after(16, 6);

    // only 'b''s end lies past position 16
    assert_eq!(list.length(), 27);
    assert_eq!(list.position(index_b.0), 16);
    assert_eq!(list.position(index_b.1), 27);
    assert_eq!(list.position(index_a.0), 10);
    assert_eq!(list.position(index_a.1), 14);

    let removed = list.remove(index_a.0);
    assert_eq!(removed, 'a');

    // both of 'a''s bounds are gone; the others keep their positions
    assert_eq!(list.count(), 4);
    assert_eq!(list.position(index_b.0), 16);
    assert_eq!(list.position(index_b.1), 27);
    assert_eq!(list.position(index_c.0), 9);
    assert_eq!(list.position(index_c.1), 12);
}

#[test]
fn length_is_sum_of_spacings() {
    let mut list = LinkedSpacedList::new();
    assert_eq!(list.length(), sum_of_spacings(&list));
    let a = list.push(7, 'a');
    assert_eq!(list.length(), sum_of_spacings(&list));
    list.push(0, 'b');
    assert_eq!(list.length(), sum_of_spacings(&list));
    list.insert_after(3, 'c');
    assert_eq!(list.length(), sum_of_spacings(&list));
    list.insert_before(7, 'd');
    assert_eq!(list.length(), sum_of_spacings(&list));
    list.inflate_after(2, 9);
    assert_eq!(list.length(), sum_of_spacings(&list));
    list.deflate_before(5, 1);
    assert_eq!(list.length(), sum_of_spacings(&list));
    list.remove(a);
    assert_eq!(list.length(), sum_of_spacings(&list));
}

#[test]
fn removing_the_last_entry_shrinks_the_length() {
    let mut list = LinkedSpacedList::new();
    let a = list.push(4, 'a');
    let b = list.push(6, 'b');
    assert_eq!(list.length(), 10);
    assert_eq!(list.remove(b), 'b');
    assert_eq!(list.length(), 4);
    assert_eq!(list.length(), sum_of_spacings(&list));
    assert_eq!(list.position(a), 4);
}

#[test]
fn insertion_preserves_length_or_extends_to_position() {
    let mut list = LinkedSpacedList::new();
    list.push(10, 'x');
    assert_eq!(list.length(), 10);

    // below the current length: the length must not change
    list.insert_after(4, 'y');
    assert_eq!(list.length(), 10);
    list.insert_before(7, 'z');
    assert_eq!(list.length(), 10);

    // past the current length: the length grows by exactly position - length
    list.insert_after(15, 'w');
    assert_eq!(list.length(), 15);
    list.insert_before(19, 'v');
    assert_eq!(list.length(), 19);
}

#[test]
fn position_round_trip() {
    let mut list = LinkedSpacedList::new();
    list.push(10, 'x');
    let y = list.insert_after(4, 'y');
    assert_eq!(list.position(y), 4);
    let z = list.insert_before(7, 'z');
    assert_eq!(list.position(z), 7);
    // both variants, exactly at the current length
    let w = list.insert_after(10, 'w');
    assert_eq!(list.position(w), 10);
    let v = list.insert_before(10, 'v');
    assert_eq!(list.position(v), 10);
    assert_eq!(list.length(), 10);
}

#[test]
fn insertion_ties_at_an_existing_position() {
    let mut list = LinkedSpacedList::new();
    let a = list.push(5, 'a');
    list.push(5, 'b');

    // "after": an entry sitting exactly at the position stays in front
    let c = list.insert_after(5, 'c');
    assert_eq!(list.position(c), 5);
    assert_eq!(list.position(a), 5);
    assert_eq!(list.spacing_of(c), 0);
    assert_eq!(list.spacing_of(a), 5);

    // "before": an entry sitting exactly at the position is pushed behind
    let d = list.insert_before(5, 'd');
    assert_eq!(list.position(d), 5);
    assert_eq!(list.spacing_of(d), 5);
    assert_eq!(list.spacing_of(a), 0);
}

#[test]
fn inflate_then_deflate_restores_everything() {
    let mut list = LinkedSpacedList::new();
    let a = list.push(12, 'a');
    let b = list.push(8, 'b');
    let c = list.push(5, 'c');
    let before_positions = all_positions(&list);
    let before_spacings: Vec<usize> =
        list.indices().into_iter().map(|i| list.spacing_of(i)).collect();

    list.inflate_after(15, 7);
    assert_eq!(list.length(), 32);
    assert_eq!(list.position(a), 12);
    assert_eq!(list.position(b), 27);
    assert_eq!(list.position(c), 32);

    list.deflate_after(15, 7);
    assert_eq!(list.length(), 25);
    assert_eq!(all_positions(&list), before_positions);
    let after_spacings: Vec<usize> =
        list.indices().into_iter().map(|i| list.spacing_of(i)).collect();
    assert_eq!(after_spacings, before_spacings);
}

#[test]
fn out_of_range_adjustments_are_no_ops() {
    let mut list = LinkedSpacedList::new();
    list.push(5, 'a');
    list.push(5, 'b');
    let before_positions = all_positions(&list);
    let before_spacings: Vec<usize> =
        list.indices().into_iter().map(|i| list.spacing_of(i)).collect();

    list.inflate_after(10, 3);
    list.inflate_after(11, 3);
    list.deflate_after(10, 3);
    list.inflate_before(0, 3);
    list.inflate_before(11, 3);
    list.deflate_before(0, 3);
    list.deflate_before(11, 3);

    assert_eq!(list.length(), 10);
    assert_eq!(all_positions(&list), before_positions);
    let after_spacings: Vec<usize> =
        list.indices().into_iter().map(|i| list.spacing_of(i)).collect();
    assert_eq!(after_spacings, before_spacings);
}

#[test]
fn before_and_after_adjustments_differ_at_exact_positions() {
    // an entry sitting exactly at the position moves only with "before"
    let mut list = LinkedSpacedList::new();
    let a = list.push(5, 'a');
    list.push(5, 'b');
    list.inflate_after(5, 2);
    assert_eq!(list.position(a), 5);
    assert_eq!(list.length(), 12);

    let mut other = LinkedSpacedList::new();
    let c = other.push(5, 'c');
    other.push(5, 'd');
    other.inflate_before(5, 2);
    assert_eq!(other.position(c), 7);
    assert_eq!(other.length(), 12);
}

#[test]
fn range_push_reports_both_positions() {
    let mut list = LinkedRangeSpacedList::new();
    let first = list.push(5, 3, 'p');
    assert_eq!(list.position(first.0), 5);
    assert_eq!(list.position(first.1), 8);
    let second = list.push(2, 4, 'q');
    assert_eq!(list.position(second.0), 10);
    assert_eq!(list.position(second.1), 14);
    assert_eq!(list.length(), 14);
}

#[test]
fn range_remove_via_either_bound() {
    let mut list = LinkedRangeSpacedList::new();
    let p = list.push(5, 3, 'p');
    let q = list.push(2, 4, 'q');
    assert_eq!(list.count(), 4);

    // removing via the start bound removes both bounds
    assert_eq!(list.remove(p.0), 'p');
    assert_eq!(list.count(), 2);
    assert_eq!(list.position(q.0), 10);
    assert_eq!(list.position(q.1), 14);

    // removing via the end bound removes both bounds too
    assert_eq!(list.remove(q.1), 'q');
    assert_eq!(list.count(), 0);
}

#[test]
fn range_insert_before_places_zero_length_ranges() {
    let mut list = LinkedRangeSpacedList::new();
    list.push(6, 6, 'p');
    let r = list.insert_before(3, 3, 'q');
    assert_eq!(list.position(r.0), 3);
    assert_eq!(list.position(r.1), 3);
    assert_eq!(list.length(), 12);

    // past the end, insert_before falls through to an appending push
    let s = list.insert_before(20, 25, 'r');
    assert_eq!(list.position(s.0), 20);
    assert_eq!(list.position(s.1), 25);
    assert_eq!(list.length(), 25);
}

#[test]
fn stable_indices_survive_other_operations() {
    let mut list = LinkedSpacedList::new();
    let a = list.push(3, 'a');
    let b = list.push(3, 'b');
    let c = list.push(3, 'c');
    list.remove(b);
    assert_eq!(*list.get(a), 'a');
    assert_eq!(*list.get(c), 'c');
    let d = list.insert_after(1, 'd');
    assert_eq!(*list.get(a), 'a');
    assert_eq!(*list.get(c), 'c');
    assert_eq!(*list.get(d), 'd');
    assert_eq!(list.position(a), 3);
    assert_eq!(list.position(c), 9);
}
