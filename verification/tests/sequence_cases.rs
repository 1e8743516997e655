use byteutils::vec::{dedup, get_unique, retain_if, reverse_in_place, split_at_vec};

struct Person {
    name: String,
    age: u32,
}

#[derive(Clone, PartialEq, Debug)]
struct NonCopy(i32);

#[derive(Debug, Clone, PartialEq, Eq, Hash)]
struct TestStruct(i32);

#[test]
fn test_dedup_integers() {
    let mut numbers = vec![1, 2, 3, 2, 4, 1, 5];
    dedup(&mut numbers);
    assert_eq!(numbers, vec![1, 2, 3, 4, 5]);
}

#[test]
fn test_dedup_strings() {
    let mut words = vec!["apple", "banana", "apple", "cherry", "banana", "date"];
    dedup(&mut words);
    assert_eq!(words, vec!["apple", "banana", "cherry", "date"]);
}

#[test]
fn test_dedup_empty_vec() {
    let mut empty: Vec<i32> = vec![];
    dedup(&mut empty);
    assert_eq!(empty, vec![]);
}

#[test]
fn test_dedup_all_unique() {
    let mut unique = vec![1, 2, 3, 4, 5];
    dedup(&mut unique);
    assert_eq!(unique, vec![1, 2, 3, 4, 5]);
}

#[test]
fn test_dedup_all_same() {
    let mut same = vec![1, 1, 1, 1, 1];
    dedup(&mut same);
    assert_eq!(same, vec![1]);
}

#[test]
fn test_retain_even_numbers() {
    let mut numbers = vec![1, 2, 3, 4, 5, 6];
    retain_if(&mut numbers, |&x| x % 2 == 0);
    assert_eq!(numbers, vec![2, 4, 6]);
}

#[test]
fn test_retain_odd_numbers() {
    let mut numbers = vec![1, 2, 3, 4, 5, 6];
    retain_if(&mut numbers, |&x| x % 2 != 0);
    assert_eq!(numbers, vec![1, 3, 5]);
}

#[test]
fn test_retain_all() {
    let mut numbers = vec![1, 2, 3];
    retain_if(&mut numbers, |_| true);
    assert_eq!(numbers, vec![1, 2, 3]);
}

#[test]
fn test_retain_none() {
    let mut numbers = vec![1, 2, 3];
    retain_if(&mut numbers, |_| false);
    assert_eq!(numbers, Vec::<i32>::new());
}

#[test]
fn test_retain_greater_than_threshold() {
    let mut numbers = vec![1, 5, 2, 8, 3, 7];
    let threshold = 4;
    retain_if(&mut numbers, |&x| x > threshold);
    assert_eq!(numbers, vec![5, 8, 7]);
}

#[test]
fn test_retain_strings_by_length() {
    let mut strings = vec![
        String::from("a"),
        String::from("ab"),
        String::from("abc"),
        String::from("abcd"),
    ];
    retain_if(&mut strings, |s| s.len() > 2);
    assert_eq!(strings, vec![String::from("abc"), String::from("abcd")]);
}

#[test]
fn test_empty_vector() {
    let mut empty: Vec<i32> = Vec::new();
    retain_if(&mut empty, |&x| x > 0);
    assert_eq!(empty, Vec::<i32>::new());
}

#[test]
fn test_retain_custom_struct() {
    let mut people = vec![
        Person {
            name: String::from("Alice"),
            age: 25,
        },
        Person {
            name: String::from("Bob"),
            age: 30,
        },
        Person {
            name: String::from("Charlie"),
            age: 35,
        },
    ];

    retain_if(&mut people, |p| p.age > 28);

    assert_eq!(people.len(), 2);
    assert_eq!(people[0].name, "Bob");
    assert_eq!(people[1].name, "Charlie");
}

#[test]
fn test_reverse_odd_length_vector() {
    let mut vec = vec![1, 2, 3, 4, 5];
    reverse_in_place(&mut vec);
    assert_eq!(vec, vec![5, 4, 3, 2, 1]);
}

#[test]
fn test_reverse_even_length_vector() {
    let mut vec = vec![1, 2, 3, 4];
    reverse_in_place(&mut vec);
    assert_eq!(vec, vec![4, 3, 2, 1]);
}

#[test]
fn test_reverse_single_element_vector() {
    let mut vec = vec![1];
    reverse_in_place(&mut vec);
    assert_eq!(vec, vec![1]);
}

#[test]
fn test_reverse_empty_vector() {
    let mut vec: Vec<i32> = vec![];
    reverse_in_place(&mut vec);
    assert_eq!(vec, Vec::<i32>::new());
}

#[test]
fn test_reverse_string_vector() {
    let mut vec = vec!["hello".to_string(), "world".to_string()];
    reverse_in_place(&mut vec);
    assert_eq!(vec, vec!["world".to_string(), "hello".to_string()]);
}

#[test]
fn test_reverse_large_vector() {
    let mut vec: Vec<i32> = (1..1001).collect();
    let expected: Vec<i32> = (1..1001).rev().collect();
    reverse_in_place(&mut vec);
    assert_eq!(vec, expected);
}

#[test]
fn test_reverse_vector_of_vectors() {
    let mut vec = vec![vec![1, 2], vec![3, 4], vec![5, 6]];
    reverse_in_place(&mut vec);
    assert_eq!(vec, vec![vec![5, 6], vec![3, 4], vec![1, 2]]);
}

#[test]
fn test_reverse_vector_of_options() {
    let mut vec = vec![Some(1), None, Some(3)];
    reverse_in_place(&mut vec);
    assert_eq!(vec, vec![Some(3), None, Some(1)]);
}

#[test]
fn test_reverse_preserves_elements() {
    let mut vec = vec![1, 2, 3, 4, 5];
    let original_sum: i32 = vec.iter().sum();
    reverse_in_place(&mut vec);
    let reversed_sum: i32 = vec.iter().sum();
    assert_eq!(original_sum, reversed_sum);
}

#[test]
fn test_split_at_middle() {
    let mut vec = vec![1, 2, 3, 4, 5];
    let (left, right) = split_at_vec(&mut vec, 3);
    assert_eq!(left, vec![1, 2, 3]);
    assert_eq!(right, vec![4, 5]);
    assert_eq!(vec, vec![1, 2, 3, 4, 5]); // Original vector unchanged
}

#[test]
fn test_split_at_start() {
    let mut vec = vec![1, 2, 3, 4, 5];
    let (left, right) = split_at_vec(&mut vec, 0);
    assert_eq!(left, Vec::<i32>::new());
    assert_eq!(right, vec![1, 2, 3, 4, 5]);
}

#[test]
fn test_split_at_end() {
    let mut vec = vec![1, 2, 3, 4, 5];
    let (left, right) = split_at_vec(&mut vec, 5);
    assert_eq!(left, vec![1, 2, 3, 4, 5]);
    assert_eq!(right, Vec::<i32>::new());
}

#[test]
fn test_split_empty_vector() {
    let mut vec: Vec<i32> = Vec::new();
    let (left, right) = split_at_vec(&mut vec, 0);
    assert_eq!(left, Vec::<i32>::new());
    assert_eq!(right, Vec::<i32>::new());
}

#[test]
fn test_split_string_vector() {
    let mut vec = vec!["hello".to_string(), "world".to_string(), "rust".to_string()];
    let (left, right) = split_at_vec(&mut vec, 2);
    assert_eq!(left, vec!["hello".to_string(), "world".to_string()]);
    assert_eq!(right, vec!["rust".to_string()]);
    assert_eq!(
        vec,
        vec!["hello".to_string(), "world".to_string(), "rust".to_string()]
    ); // Original vector unchanged
}

#[test]
fn test_split_preserves_elements() {
    let mut vec = vec![1, 2, 3, 4, 5];
    let original_sum: i32 = vec.iter().sum();
    let (left, right) = split_at_vec(&mut vec, 3);
    let split_sum: i32 = left.iter().sum::<i32>() + right.iter().sum::<i32>();
    assert_eq!(original_sum, split_sum);
}

#[test]
fn test_split_large_vector() {
    let mut vec: Vec<i32> = (1..1001).collect();
    let (left, right) = split_at_vec(&mut vec, 500);
    assert_eq!(left, (1..501).collect::<Vec<i32>>());
    assert_eq!(right, (501..1001).collect::<Vec<i32>>());
}

#[test]
fn test_split_at_length() {
    let mut vec = vec![1, 2, 3];
    let (left, right) = split_at_vec(&mut vec, 3); // This should not panic
    assert_eq!(left, vec![1, 2, 3]);
    assert_eq!(right, Vec::<i32>::new());
}

#[test]
fn test_split_vector_of_options() {
    let mut vec = vec![Some(1), None, Some(3), None, Some(5)];
    let (left, right) = split_at_vec(&mut vec, 3);
    assert_eq!(left, vec![Some(1), None, Some(3)]);
    assert_eq!(right, vec![None, Some(5)]);
}

#[test]
fn test_split_with_non_copy_type() {
    let mut vec = vec![NonCopy(1), NonCopy(2), NonCopy(3)];
    let original = vec.clone();
    let (left, right) = split_at_vec(&mut vec, 2);
    assert_eq!(left, vec![NonCopy(1), NonCopy(2)]);
    assert_eq!(right, vec![NonCopy(3)]);
    assert_eq!(vec, original); // Original vector unchanged
}

#[test]
fn test_empty_vec() {
    let input: Vec<i32> = vec![];
    assert_eq!(get_unique(&input), vec![]);
}

#[test]
fn test_no_duplicates() {
    let input = vec![1, 2, 3, 4];
    assert_eq!(get_unique(&input), vec![1, 2, 3, 4]);
}

#[test]
fn test_all_duplicates() {
    let input = vec![1, 1, 1, 1];
    assert_eq!(get_unique(&input), vec![1]);
}

#[test]
fn test_mixed_duplicates() {
    let input = vec![1, 2, 2, 3, 1, 4, 3, 5];
    assert_eq!(get_unique(&input), vec![1, 2, 3, 4, 5]);
}

#[test]
fn test_with_strings() {
    let input = vec!["a", "b", "a", "c", "b"];
    assert_eq!(get_unique(&input), vec!["a", "b", "c"]);
}

#[test]
fn test_preserves_order() {
    let input = vec![3, 1, 2, 1, 3, 2];
    assert_eq!(get_unique(&input), vec![3, 1, 2]);
}

#[test]
fn test_with_custom_type() {
    let input = vec![TestStruct(1), TestStruct(2), TestStruct(1)];
    assert_eq!(get_unique(&input), vec![TestStruct(1), TestStruct(2)]);
}

#[test]
fn test_large_input() {
    let input: Vec<i32> = (0..1000).chain(0..1000).collect();
    let expected: Vec<i32> = (0..1000).collect();
    assert_eq!(get_unique(&input), expected);
}
