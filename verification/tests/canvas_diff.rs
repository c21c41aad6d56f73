//! What changes between two lists of indices.

use blazy::canvas::diff::diff_sorted;

fn diff(live: &[usize], desired: &[usize]) -> (Vec<usize>, Vec<usize>) {
    let (mut removed, mut added) = (Vec::new(), Vec::new());
    diff_sorted(live, desired, |_| false, &mut removed, &mut added);
    (removed, added)
}

#[test]
fn diff_of_equal_sets_is_empty() {
    assert_eq!(diff(&[1, 2, 3], &[1, 2, 3]), (vec![], vec![]));
}

#[test]
fn diff_reports_arrivals_and_departures() {
    assert_eq!(diff(&[1, 3, 5], &[3, 4, 5, 6]), (vec![1], vec![4, 6]));
    assert_eq!(diff(&[], &[0, 1]), (vec![], vec![0, 1]));
    assert_eq!(diff(&[0, 1], &[]), (vec![0, 1], vec![]));
}

#[test]
fn stale_entries_are_rebuilt_in_place() {
    let (mut removed, mut added) = (Vec::new(), Vec::new());
    diff_sorted(&[1, 2, 3], &[1, 2, 3], |i| i == 2, &mut removed, &mut added);
    assert_eq!((removed, added), (vec![2], vec![2]));
}

#[test]
fn diff_reuses_its_buffers() {
    let (mut removed, mut added) = (vec![99], vec![99]);
    diff_sorted(&[1], &[1], |_| false, &mut removed, &mut added);
    assert!(removed.is_empty() && added.is_empty(), "stale contents must be cleared");
}

#[test]
fn only_shared_indices_are_asked_about_and_each_once() {
    let mut asked = Vec::new();
    let (mut removed, mut added) = (Vec::new(), Vec::new());
    diff_sorted(
        &[0, 2, 4, 9],
        &[1, 2, 3, 4, 8],
        |i| {
            asked.push(i);
            i == 4
        },
        &mut removed,
        &mut added,
    );
    assert_eq!(asked, vec![2, 4]);
    assert_eq!(removed, vec![0, 4, 9]);
    assert_eq!(added, vec![1, 3, 4, 8]);
}

#[test]
fn exchanging_the_lists_exchanges_the_results() {
    for (a, b) in [
        (vec![], vec![1, 2]),
        (vec![0, 3, 4, 9], vec![1, 3, 9, 10]),
        (vec![5], vec![5]),
        (vec![1, 2, 3], vec![2]),
    ] {
        let (gone, come) = diff(&a, &b);
        assert_eq!(diff(&b, &a), (come, gone));
    }
}
