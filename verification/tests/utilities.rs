use staff_directory::numbers::{average, median, mode, sorted};
use staff_directory::pig_latin::{convert_to_pig_latin, starts_vowel};
use staff_directory::text::{chars_le, indent, prefixed, str_le, to_chars};

#[test]
fn average_of_examples() {
    assert_eq!(5, average(vec![5, 4, 12, 2, 1, 6]));
    assert_eq!(10, average(vec![5, 10, 20, 5, 10]));
    assert_eq!(10, average(vec![4, 7, 10, 13, 16]));
}

#[test]
fn average_rounds_towards_zero() {
    assert_eq!(3, average(vec![3, 4]));
    assert_eq!(-3, average(vec![-3, -4]));
    assert_eq!(-2, average(vec![-7, 2]));
    assert_eq!(0, average(vec![-1, 0]));
    assert_eq!(0, average(vec![1, -2]));
    assert_eq!(7, average(vec![7]));
}

#[test]
fn average_of_extremes_does_not_overflow() {
    assert_eq!(i32::MAX, average(vec![i32::MAX, i32::MAX, i32::MAX]));
    assert_eq!(i32::MIN, average(vec![i32::MIN, i32::MIN]));
    assert_eq!(0, average(vec![i32::MIN, i32::MAX]));
    assert_eq!(i32::MAX - 1, average(vec![i32::MAX, i32::MAX - 1]));
}

#[test]
fn median_of_examples() {
    assert_eq!(2, median(vec![1, 4, 2, 5, 0]));
    assert_eq!(30, median(vec![10, 20, 40, 50]));
}

#[test]
fn median_of_short_and_negative_lists() {
    assert_eq!(9, median(vec![9]));
    assert_eq!(2, median(vec![4, 1]));
    assert_eq!(-2, median(vec![-4, -1]));
    assert_eq!(-1, median(vec![5, -1, -3]));
    assert_eq!(i32::MAX, median(vec![i32::MAX, i32::MAX]));
    assert_eq!(3, median(vec![3, 3, 3, 3]));
}

#[test]
fn sorted_is_ascending_and_keeps_duplicates() {
    assert_eq!(sorted(&vec![3, -1, 3, 0, i32::MIN, 2]), vec![i32::MIN, -1, 0, 2, 3, 3]);
    assert_eq!(sorted(&Vec::new()), Vec::<i32>::new());
}

#[test]
fn mode_of_examples() {
    assert_eq!(2, mode(vec![1, 2, 2, 5, 0]));
    assert_eq!(30, mode(vec![2, 20, 30, 30]));
}

#[test]
fn mode_of_distinct_values_is_the_first() {
    assert_eq!(7, mode(vec![7, 3, 9, -1]));
    assert_eq!(-4, mode(vec![-4]));
    assert_eq!(0, mode(vec![0, 1]));
}

#[test]
fn mode_among_ties_is_the_first_to_get_there() {
    assert_eq!(2, mode(vec![1, 2, 2, 1]));
    assert_eq!(1, mode(vec![1, 2, 1, 2]));
    assert_eq!(5, mode(vec![9, 5, 5, 9, 9, 5, 5]));
    assert_eq!(9, mode(vec![5, 9, 9, 5, 9, 5]));
}

#[test]
fn pig_latin_of_examples() {
    assert_eq!("ola-Hay", convert_to_pig_latin("Hola"));
    assert_eq!("irst-Fay", convert_to_pig_latin("First"));
    assert_eq!("Apple-hay", convert_to_pig_latin("Apple"));
}

#[test]
fn pig_latin_of_short_and_accented_words() {
    assert_eq!("-bay", convert_to_pig_latin("b"));
    assert_eq!("a-hay", convert_to_pig_latin("a"));
    assert_eq!("Under-hay", convert_to_pig_latin("Under"));
    assert_eq!("té-éay", convert_to_pig_latin("été"));
    assert_eq!("es-yay", convert_to_pig_latin("yes"));
}

#[test]
fn vowels_in_either_case() {
    for c in ['a', 'e', 'i', 'o', 'u', 'A', 'E', 'I', 'O', 'U'] {
        assert!(starts_vowel(c));
    }
    for c in ['y', 'Y', 'b', 'é', '1', ' '] {
        assert!(!starts_vowel(c));
    }
}

#[test]
fn str_le_is_the_order_of_strings() {
    let words = ["", "a", "A", "Ann", "Anna", "Bob", "ann", "z", "é", "zz", "\u{10ffff}", "Z"];
    for a in words {
        for b in words {
            assert_eq!(str_le(a, b), a <= b);
            assert_eq!(chars_le(&to_chars(a), &to_chars(b)), a <= b);
        }
    }
}

#[test]
fn to_chars_gives_every_character() {
    assert_eq!(to_chars("héllo"), vec!['h', 'é', 'l', 'l', 'o']);
    assert_eq!(to_chars(""), Vec::<char>::new());
}

#[test]
fn indent_puts_spaces_in_front() {
    assert_eq!(indent("x", 0), "x");
    assert_eq!(indent("x y", 2), "  x y");
    assert_eq!(indent("", 4), "    ");
    assert_eq!(prefixed("* ", "Ann"), "* Ann");
}
