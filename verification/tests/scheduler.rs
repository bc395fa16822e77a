use lib::task::scheduler::Stride;
use std::cmp::Ordering;

fn s(stride: usize, pid: usize) -> Stride {
    Stride { stride, pid }
}

#[test]
fn smaller_stride_compares_greater() {
    assert_eq!(s(3, 1).cmp(&s(5, 0)), Ordering::Greater);
    assert_eq!(s(5, 0).cmp(&s(3, 1)), Ordering::Less);
}

#[test]
fn equal_strides_prefer_smaller_pid() {
    assert_eq!(s(4, 1).cmp(&s(4, 2)), Ordering::Greater);
    assert_eq!(s(4, 2).cmp(&s(4, 1)), Ordering::Less);
    assert_eq!(s(4, 2).cmp(&s(4, 2)), Ordering::Equal);
}

#[test]
fn partial_cmp_and_operators_follow_cmp() {
    assert_eq!(s(1, 9).partial_cmp(&s(2, 0)), Some(Ordering::Greater));
    assert!(s(1, 9) > s(2, 0));
    assert!(s(7, 3) < s(7, 2));
}

#[test]
fn entries_are_never_equal() {
    assert!(!(s(1, 1) == s(1, 1)));
    assert!(s(1, 1) != s(1, 1));
}

#[test]
fn order_is_antisymmetric_and_transitive() {
    let xs = [s(1, 0), s(1, 1), s(2, 0), s(2, 5), s(0, 7)];
    for a in &xs {
        for b in &xs {
            assert_eq!(a.cmp(b), b.cmp(a).reverse());
            for c in &xs {
                if a.cmp(b) == Ordering::Greater && b.cmp(c) == Ordering::Greater {
                    assert_eq!(a.cmp(c), Ordering::Greater);
                }
            }
        }
    }
}

#[test]
fn greatest_first_puts_smallest_stride_first() {
    let mut v = vec![s(10, 1), s(3, 4), s(3, 2), s(7, 0)];
    v.sort_by(|a, b| b.cmp(a));
    let order: Vec<usize> = v.iter().map(|e| e.pid).collect();
    assert_eq!(order, vec![2, 4, 0, 1]);
}
