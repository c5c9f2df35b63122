use arena_lru::next_greater::{
    next_greater_left_to_right, next_greater_left_to_right_manual, next_greater_right_to_left,
    next_greater_right_to_left_manual, NO_GREATER,
};

/// The table by its definition: for each index, the first greater element
/// to its right.
fn by_definition(nums: &[i32]) -> Vec<i32> {
    let mut table = Vec::new();
    for i in 0..nums.len() {
        let mut answer = -1;
        for j in i + 1..nums.len() {
            if nums[j] > nums[i] {
                answer = nums[j];
                break;
            }
        }
        table.push(answer);
    }
    table
}

fn all_four(nums: &[i32]) -> [Vec<i32>; 4] {
    [
        next_greater_right_to_left(nums),
        next_greater_left_to_right(nums),
        next_greater_right_to_left_manual(nums),
        next_greater_left_to_right_manual(nums),
    ]
}

#[test]
fn no_greater_is_minus_one() {
    assert_eq!(NO_GREATER, -1);
}

#[test]
fn right_to_left_on_the_sample() {
    assert_eq!(next_greater_right_to_left(&[4, 5, 2, 25, 7, 18]), vec![5, 25, 25, -1, 18, -1]);
}

#[test]
fn left_to_right_on_the_sample() {
    assert_eq!(next_greater_left_to_right(&[4, 5, 2, 25, 7, 18]), vec![5, 25, 25, -1, 18, -1]);
}

#[test]
fn right_to_left_manual_on_the_sample() {
    assert_eq!(
        next_greater_right_to_left_manual(&[4, 5, 2, 25, 7, 18]),
        vec![5, 25, 25, -1, 18, -1]
    );
}

#[test]
fn left_to_right_manual_on_the_sample() {
    assert_eq!(
        next_greater_left_to_right_manual(&[4, 5, 2, 25, 7, 18]),
        vec![5, 25, 25, -1, 18, -1]
    );
}

#[test]
fn empty_input_gives_an_empty_table() {
    for table in all_four(&[]) {
        assert_eq!(table, Vec::<i32>::new());
    }
}

#[test]
fn a_single_element_has_no_greater() {
    for table in all_four(&[42]) {
        assert_eq!(table, vec![-1]);
    }
}

#[test]
fn a_falling_sequence_has_no_greater_anywhere() {
    for table in all_four(&[9, 7, 4, 1]) {
        assert_eq!(table, vec![-1, -1, -1, -1]);
    }
}

#[test]
fn a_rising_sequence_answers_with_the_neighbour() {
    for table in all_four(&[1, 2, 3, 4]) {
        assert_eq!(table, vec![2, 3, 4, -1]);
    }
}

#[test]
fn an_equal_element_is_not_greater() {
    for table in all_four(&[3, 3, 3]) {
        assert_eq!(table, vec![-1, -1, -1]);
    }
    for table in all_four(&[2, 2, 3, 3, 1]) {
        assert_eq!(table, vec![3, 3, -1, -1, -1]);
    }
}

#[test]
fn a_greater_element_of_minus_one_is_an_answer() {
    for table in all_four(&[-5, -1, -7]) {
        assert_eq!(table, vec![-1, -1, -1]);
    }
    for table in all_four(&[-5, -3, -1]) {
        assert_eq!(table, vec![-3, -1, -1]);
    }
}

#[test]
fn extreme_elements() {
    for table in all_four(&[i32::MIN, i32::MAX, i32::MIN, 0]) {
        assert_eq!(table, vec![i32::MAX, -1, 0, -1]);
    }
}

#[test]
fn all_four_follow_the_definition() {
    let mut state: u64 = 12345;
    for len in 0..60usize {
        let mut nums = Vec::new();
        for _ in 0..len {
            state = state.wrapping_mul(6364136223846793005).wrapping_add(1442695040888963407);
            nums.push(((state >> 33) % 21) as i32 - 10);
        }
        let expected = by_definition(&nums);
        for table in all_four(&nums) {
            assert_eq!(table, expected);
        }
    }
}
