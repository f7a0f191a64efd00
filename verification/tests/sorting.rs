use qsort_haskell_style::{qsort, qsort_by};
use std::cmp::Ordering;

#[test]
fn it_just_works() {
    let result = qsort(&[1, 2, 5, 6, 789213, 99, -293, 8, 1]);
    assert_eq!(result, [-293, 1, 1, 2, 5, 6, 8, 99, 789213]);
}

#[test]
fn qsort_by_asc() {
    let result = qsort_by(&[1, 2, 5, 6, 789213, 99, -293, 8, 1], |a, b| a.cmp(b));
    assert_eq!(result, [-293, 1, 1, 2, 5, 6, 8, 99, 789213]);
}

#[test]
fn qsort_by_desc() {
    let result = qsort_by(&[20, 9, -2, 3, 9, 8], |a, b| b.cmp(a));
    assert_eq!(result, [20, 9, 9, 8, 3, -2]);
}

#[test]
fn empty_input_gives_empty_output() {
    let nothing: [i32; 0] = [];
    assert_eq!(qsort(&nothing), Vec::<i32>::new());
    assert_eq!(qsort_by(&nothing, |a, b| a.cmp(b)), Vec::<i32>::new());
}

#[test]
fn single_element_is_returned() {
    assert_eq!(qsort(&[7]), [7]);
    assert_eq!(qsort_by(&[7], |a, b| b.cmp(a)), [7]);
}

#[test]
fn duplicates_are_kept() {
    assert_eq!(qsort(&[1, 1]), [1, 1]);
    assert_eq!(qsort(&[3, 1, 3, 1, 3]), [1, 1, 3, 3, 3]);
    assert_eq!(qsort_by(&[2, 2, 2], |a, b| a.cmp(b)), [2, 2, 2]);
}

#[test]
fn input_is_left_as_it_was() {
    let input = vec![5, 3, 4];
    let result = qsort(&input);
    assert_eq!(input, [5, 3, 4]);
    assert_eq!(result, [3, 4, 5]);
}

#[test]
fn output_rearranges_input() {
    let input = [4u8, 200, 4, 0, 17, 200, 200, 3];
    let result = qsort(&input);
    assert_eq!(result.len(), input.len());
    for value in 0..=255u8 {
        let before = input.iter().filter(|x| **x == value).count();
        let after = result.iter().filter(|x| **x == value).count();
        assert_eq!(before, after);
    }
}

#[test]
fn output_rearranges_input_under_any_comparison() {
    let input = [4, 9, 4, 0, 17, 9];
    let result = qsort_by(&input, |a, b| if (a + b) % 3 == 0 { Ordering::Less } else { Ordering::Greater });
    assert_eq!(result.len(), input.len());
    for value in [0, 4, 9, 17] {
        let before = input.iter().filter(|x| **x == value).count();
        let after = result.iter().filter(|x| **x == value).count();
        assert_eq!(before, after);
    }
}

#[test]
fn neighbours_ascend_in_natural_order() {
    let result = qsort(&[12i64, -7, 0, 99, 12, -7, 3, i64::MIN, i64::MAX, 1]);
    for i in 0..result.len() - 1 {
        assert!(result[i] <= result[i + 1]);
    }
    assert_eq!(result, [i64::MIN, -7, -7, 0, 1, 3, 12, 12, 99, i64::MAX]);
}

#[test]
fn neighbours_never_compare_greater() {
    let by_last_digit = |a: &u32, b: &u32| (a % 10).cmp(&(b % 10));
    let result = qsort_by(&[31, 17, 40, 22, 95, 61, 8], by_last_digit);
    for i in 0..result.len() - 1 {
        assert_ne!(by_last_digit(&result[i], &result[i + 1]), Ordering::Greater);
    }
    assert_eq!(result, [40, 31, 61, 22, 95, 17, 8]);
}

#[test]
fn sorted_input_comes_back_equal() {
    let sorted = [-3, -3, 0, 1, 1, 2, 50];
    assert_eq!(qsort(&sorted), sorted);
    let once = qsort(&[9, 1, 8, 2, 7, 3]);
    let twice = qsort(&once);
    assert_eq!(once, twice);
}

#[test]
fn sorted_input_keeps_equal_keys_in_place() {
    let by_key = |a: &(u8, char), b: &(u8, char)| a.0.cmp(&b.0);
    let sorted = [(1, 'x'), (1, 'a'), (2, 'q'), (2, 'b'), (2, 'z')];
    assert_eq!(qsort_by(&sorted, by_key), sorted);
}

#[test]
fn natural_comparison_sorts_as_natural_order() {
    let input = [5, -1, 5, 3, 1000, 0, -1, 2];
    assert_eq!(qsort_by(&input, |a, b| a.cmp(b)), qsort(&input));
}

#[test]
fn first_element_is_the_pivot() {
    // Only `Less` sends an element in front of the pivot.
    let by_key = |a: &(u8, char), b: &(u8, char)| a.0.cmp(&b.0);
    let input = [(2, 'a'), (1, 'b'), (2, 'c'), (1, 'd'), (3, 'e')];
    let result = qsort_by(&input, by_key);
    assert_eq!(result, [(1, 'b'), (1, 'd'), (2, 'a'), (2, 'c'), (3, 'e')]);
}

#[test]
fn always_less_reverses() {
    let result = qsort_by(&[1, 2, 3, 4], |_, _| Ordering::Less);
    assert_eq!(result, [4, 3, 2, 1]);
}

#[test]
fn equal_and_greater_are_treated_alike() {
    assert_eq!(qsort_by(&[3, 1, 2], |_, _| Ordering::Equal), [3, 1, 2]);
    assert_eq!(qsort_by(&[3, 1, 2], |_, _| Ordering::Greater), [3, 1, 2]);
}

#[test]
fn comparison_sees_element_then_pivot() {
    // `Less` exactly when the first argument is 1: only the element 1, held
    // against a pivot, moves to the front.
    let result = qsort_by(&[5, 1, 4], |a, _| if *a == 1 { Ordering::Less } else { Ordering::Greater });
    assert_eq!(result, [1, 5, 4]);
}

#[test]
fn elements_are_cloned() {
    let input = vec![String::from("pear"), String::from("apple"), String::from("fig")];
    let result = qsort(&input);
    assert_eq!(result, ["apple", "fig", "pear"]);
    assert_eq!(input, ["pear", "apple", "fig"]);
    let by_length = qsort_by(&input, |a, b| a.len().cmp(&b.len()));
    assert_eq!(by_length, ["fig", "pear", "apple"]);
}

#[test]
fn long_descending_input() {
    let input: Vec<u32> = (0..500).rev().collect();
    let expected: Vec<u32> = (0..500).collect();
    assert_eq!(qsort(&input), expected);
}

#[test]
fn agrees_with_the_standard_sort() {
    let mut state: u64 = 0x2545_f491_4f6c_dd1d;
    let mut input: Vec<i32> = Vec::new();
    for _ in 0..400 {
        state = state.wrapping_mul(6364136223846793005).wrapping_add(1442695040888963407);
        input.push(((state >> 33) % 200) as i32 - 100);
    }
    let mut expected = input.clone();
    expected.sort();
    assert_eq!(qsort(&input), expected);
    assert_eq!(qsort_by(&input, |a, b| a.cmp(b)), expected);
    expected.reverse();
    assert_eq!(qsort_by(&input, |a, b| b.cmp(a)), expected);
}
