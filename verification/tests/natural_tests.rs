use anew::natural::{compare, Cmp};

fn c(a: &str, b: &str) -> Cmp {
    compare(&a.as_bytes().to_vec(), &b.as_bytes().to_vec(), false)
}

fn ci(a: &str, b: &str) -> Cmp {
    compare(&a.as_bytes().to_vec(), &b.as_bytes().to_vec(), true)
}

#[test]
fn numbers_compare_by_value() {
    assert_eq!(c("item2", "item10"), Cmp::Lt);
    assert_eq!(c("item10", "item2"), Cmp::Gt);
    assert_eq!(c("2", "10"), Cmp::Lt);
    assert_eq!(c("file9", "file10"), Cmp::Lt);
}

#[test]
fn equal_values_tie_break_on_leading_zeros() {
    assert_eq!(c("item02", "item2"), Cmp::Lt);
    // the tie-break is consistent: asking again gives the same answer
    assert_eq!(c("item02", "item2"), Cmp::Lt);
    assert_eq!(c("item2", "item02"), Cmp::Gt);
    assert_eq!(c("007", "07"), Cmp::Lt);
    assert_eq!(c("07", "7"), Cmp::Lt);
}

#[test]
fn empty_orders_first() {
    assert_eq!(c("", "a"), Cmp::Lt);
    assert_eq!(c("a", ""), Cmp::Gt);
    assert_eq!(c("", ""), Cmp::Eq);
    assert_eq!(c("", "0"), Cmp::Lt);
}

#[test]
fn equal_strings_compare_equal() {
    assert_eq!(c("item2", "item2"), Cmp::Eq);
    assert_eq!(c("a 01z", "a 01z"), Cmp::Eq);
}

#[test]
fn prefix_orders_first() {
    assert_eq!(c("ab", "abc"), Cmp::Lt);
    assert_eq!(c("item", "item2"), Cmp::Lt);
}

#[test]
fn mixed_kind_falls_back_to_bytes() {
    assert_eq!(c("abc", "123"), Cmp::Gt);
    assert_eq!(c("1a", "10"), Cmp::Lt);
    assert_eq!(c("a1", "ab"), Cmp::Lt);
}

#[test]
fn transitive_on_samples() {
    let samples = ["", "0", "007", "07", "7", "1a", "2", "10", "a", "a1", "ab", "b2b", "b10a"];
    for x in samples {
        for y in samples {
            for z in samples {
                if c(x, y) == Cmp::Lt && c(y, z) == Cmp::Lt {
                    assert_eq!(c(x, z), Cmp::Lt, "{:?} {:?} {:?}", x, y, z);
                }
            }
        }
    }
}

#[test]
fn antisymmetric_on_samples() {
    let samples = ["", "0", "007", "7", "1a", "10", "a", "ab", "x2", "x10"];
    for x in samples {
        for y in samples {
            let fwd = c(x, y);
            let back = c(y, x);
            match fwd {
                Cmp::Lt => assert_eq!(back, Cmp::Gt),
                Cmp::Eq => assert_eq!(back, Cmp::Eq),
                Cmp::Gt => assert_eq!(back, Cmp::Lt),
            }
        }
    }
}

#[test]
fn only_ascii_digits_are_numeric() {
    // U+0662 (an Arabic-Indic digit) is compared as plain bytes, not as a number
    assert_eq!(c("item\u{0662}", "item10"), Cmp::Gt);
    assert_eq!(c("item2", "item\u{0662}"), Cmp::Lt);
}

#[test]
fn case_folding_mode() {
    assert_eq!(ci("Item2", "item10"), Cmp::Lt);
    assert_eq!(ci("A", "a"), Cmp::Eq);
    assert_eq!(ci("B", "a"), Cmp::Gt);
    // the default mode stays case-sensitive
    assert_eq!(c("A", "a"), Cmp::Lt);
}
