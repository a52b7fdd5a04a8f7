use hands_on::itinerary::{find_maximum_attractions, find_maximum_topics};

#[test]
fn test0() {
    /*
    input0.txt

    6 8
    3 2 1 4 2 4 3 4
    3 3 1 2 3 5 5 3
    3 4 1 5 3 3 4 1
    3 1 5 4 3 4 2 5
    2 5 4 4 4 5 3 4
    5 1 4 4 3 2 4 5

    output0.txt -> 32
    */

    let n: usize = 6;
    let d: usize = 8;
    let attractions: Vec<Vec<u32>> = vec![
        vec![3, 2, 1, 4, 2, 4, 3, 4],
        vec![3, 3, 1, 2, 3, 5, 5, 3],
        vec![3, 4, 1, 5, 3, 3, 4, 1],
        vec![3, 1, 5, 4, 3, 4, 2, 5],
        vec![2, 5, 4, 4, 4, 5, 3, 4],
        vec![5, 1, 4, 4, 3, 2, 4, 5],
    ];

    let result: u32 = find_maximum_attractions(n, d, attractions);

    assert_eq!(result, 32);
}

#[test]
fn test1() {
    /*
    input1.txt

    3 5
    1 1 1 4 2
    3 3 5 3 5
    2 1 4 5 1

    output1.txt -> 19
    */

    let n: usize = 3;
    let d: usize = 5;
    let attractions: Vec<Vec<u32>> = vec![
        vec![1, 1, 1, 4, 2],
        vec![3, 3, 5, 3, 5],
        vec![2, 1, 4, 5, 1],
    ];

    let result: u32 = find_maximum_attractions(n, d, attractions);

    assert_eq!(result, 19);
}

#[test]
fn test2() {
    /*
    input2.txt

    5 4
    4 1 1 2
    1 1 0 5
    5 0 1 1
    2 1 0 4
    3 1 0 3

    output2.txt -> 14
    */

    let n: usize = 5;
    let d: usize = 4;
    let attractions: Vec<Vec<u32>> = vec![
        vec![4, 1, 1, 2],
        vec![1, 1, 0, 5],
        vec![5, 0, 1, 1],
        vec![2, 1, 0, 4],
        vec![3, 1, 0, 3],
    ];

    let result: u32 = find_maximum_attractions(n, d, attractions);

    assert_eq!(result, 14);
}

#[test]
fn test3() {
    /*
    input3.txt

    2 15
    1 0 2 2 0 0 2 2 0 0 0 2 0 2 2
    0 1 1 0 0 1 2 2 1 1 1 1 2 2 1

    output3.txt -> 16
    */

    let n: usize = 2;
    let d: usize = 15;
    let attractions: Vec<Vec<u32>> = vec![
        vec![1, 0, 2, 2, 0, 0, 2, 2, 0, 0, 0, 2, 0, 2, 2],
        vec![0, 1, 1, 0, 0, 1, 2, 2, 1, 1, 1, 1, 2, 2, 1],
    ];

    let result: u32 = find_maximum_attractions(n, d, attractions);

    assert_eq!(result, 16);
}

#[test]
fn test4() {
    /*
    input4.txt

    10 10
    3 0 0 0 0 0 0 0 0 3
    0 3 0 0 0 0 0 0 4 0
    0 0 2 0 0 0 0 5 0 0
    0 0 0 5 0 0 1 0 0 0
    0 0 0 0 5 4 0 0 0 0
    0 0 0 0 4 1 0 0 0 0
    0 0 0 1 0 0 5 0 0 0
    0 0 5 0 0 0 0 5 0 0
    0 5 0 0 0 0 0 0 5 0
    4 0 0 0 0 0 0 0 0 3

    output4.txt -> 21
    */

    let n: usize = 10;
    let d: usize = 10;
    let attractions: Vec<Vec<u32>> = vec![
        vec![3, 0, 0, 0, 0, 0, 0, 0, 0, 3],
        vec![0, 3, 0, 0, 0, 0, 0, 0, 4, 0],
        vec![0, 0, 2, 0, 0, 0, 0, 5, 0, 0],
        vec![0, 0, 0, 5, 0, 0, 1, 0, 0, 0],
        vec![0, 0, 0, 0, 5, 4, 0, 0, 0, 0],
        vec![0, 0, 0, 0, 4, 1, 0, 0, 0, 0],
        vec![0, 0, 0, 1, 0, 0, 5, 0, 0, 0],
        vec![0, 0, 5, 0, 0, 0, 0, 5, 0, 0],
        vec![0, 5, 0, 0, 0, 0, 0, 0, 5, 0],
        vec![4, 0, 0, 0, 0, 0, 0, 0, 0, 3],
    ];

    let result: u32 = find_maximum_attractions(n, d, attractions);

    assert_eq!(result, 21);
}

#[test]
fn lib_test0() {
    /*
    input0.txt

    5
    0 3
    99 1
    11 20
    1 2
    10 5

    output0.txt -> 3
    */

    let topics: Vec<(u32, u32)> = vec![(0, 3), (99, 1), (11, 20), (1, 2), (10, 5)];

    let result: u32 = find_maximum_topics(topics);

    assert_eq!(result, 3);
}

#[test]
fn lib_test1() {
    /*
    input1.txt

    3
    6 4
    13 11
    10 8


    output1.txt -> 3
    */

    let topics: Vec<(u32, u32)> = vec![(6, 4), (13, 11), (10, 8)];

    let result: u32 = find_maximum_topics(topics);

    assert_eq!(result, 3);
}

#[test]
fn lib_test2() {
    /*
    input2.txt

    2
    3 3
    3 3

    output2.txt -> 4
    */

    let topics: Vec<(u32, u32)> = vec![(3, 3), (3, 3)];

    let result: u32 = find_maximum_topics(topics);

    assert_eq!(result, 1);
}

#[test]
fn lib_test3() {
    let topics: Vec<(u32, u32)> = vec![
        (44, 49),
        (15, 35),
        (38, 21),
        (55, 93),
        (14, 29),
        (50, 52),
        (94, 76),
        (89, 84),
        (30, 96),
        (41, 14),
        (17, 38),
        (30, 14),
        (21, 100),
        (12, 78),
        (86, 87),
    ];

    let result: u32 = find_maximum_topics(topics);

    assert_eq!(result, 6);
}

#[test]
fn lib_test4() {
    let topics: Vec<(u32, u32)> = vec![
        (54, 56),
        (66, 50),
        (74, 97),
        (52, 23),
        (62, 74),
        (27, 56),
        (73, 24),
        (11, 47),
        (32, 83),
        (51, 29),
        (12, 74),
        (4, 48),
        (51, 22),
        (82, 82),
        (1, 24),
    ];

    let result: u32 = find_maximum_topics(topics);

    assert_eq!(result, 5);
}

#[test]
fn test5() {
    let topics: Vec<(u32, u32)> = vec![
        (56, 90),
        (61, 30),
        (82, 62),
        (60, 44),
        (72, 58),
        (20, 80),
        (46, 79),
        (39, 15),
        (67, 46),
        (64, 63),
        (72, 9),
    ];

    let result: u32 = find_maximum_topics(topics);

    assert_eq!(result, 5);
}

#[test]
fn lib_test6() {
    let topics: Vec<(u32, u32)> = vec![
        (64, 56),
        (51, 51),
        (61, 74),
        (88, 53),
        (1, 15),
        (50, 81),
        (43, 24),
        (53, 78),
        (6, 34),
        (33, 46),
        (27, 1),
        (9, 37),
        (18, 47),
        (38, 21),
        (69, 95),
    ];

    let result: u32 = find_maximum_topics(topics);

    assert_eq!(result, 7);
}

#[test]
fn lib_test7() {
    let topics: Vec<(u32, u32)> = vec![
        (64, 56),
        (51, 51),
        (61, 74),
        (88, 53),
        (1, 15),
        (50, 81),
        (43, 24),
        (53, 78),
        (6, 34),
        (33, 46),
        (27, 1),
        (9, 37),
        (18, 47),
        (38, 21),
        (69, 95),
    ];

    let result: u32 = find_maximum_topics(topics);

    assert_eq!(result, 7);
}

#[test]
fn lib_test8() {
    let topics: Vec<(u32, u32)> = vec![
        (33, 5),
        (52, 5),
        (33, 54),
        (80, 11),
        (12, 78),
        (62, 2),
        (17, 1),
        (66, 79),
        (94, 30),
        (54, 14),
        (28, 17),
        (100, 70),
    ];

    let result: u32 = find_maximum_topics(topics);

    assert_eq!(result, 5);
}

#[test]
fn test9() {
    let topics: Vec<(u32, u32)> = vec![
        (80, 88),
        (7, 62),
        (60, 14),
        (27, 60),
        (95, 66),
        (68, 71),
        (10, 76),
        (14, 87),
        (6, 92),
        (81, 81),
        (80, 90),
    ];

    let result: u32 = find_maximum_topics(topics);

    assert_eq!(result, 4);
}

#[test]
fn test10() {
    let topics: Vec<(u32, u32)> = vec![
        (30, 73),
        (4, 89),
        (66, 60),
        (61, 22),
        (30, 16),
        (94, 60),
        (27, 87),
        (75, 8),
        (91, 33),
        (69, 78),
        (41, 69),
        (70, 12),
        (88, 76),
        (91, 92),
    ];

    let result: u32 = find_maximum_topics(topics);

    assert_eq!(result, 5);
}

#[test]
fn topics_equal_beauty_cannot_chain() {
    let topics: Vec<(u32, u32)> = vec![(1, 5), (2, 1), (2, 6)];
    assert_eq!(find_maximum_topics(topics), 2);
}

#[test]
fn topics_single() {
    assert_eq!(find_maximum_topics(vec![(7, 7)]), 1);
}

#[test]
fn attractions_single_city() {
    let attractions: Vec<Vec<u32>> = vec![vec![3, 1, 4]];
    assert_eq!(find_maximum_attractions(1, 3, attractions), 8);
    assert_eq!(find_maximum_attractions(1, 0, vec![vec![]]), 0);
}

#[test]
fn attractions_split_days() {
    // best: two days in the second city and one in the first
    let attractions: Vec<Vec<u32>> = vec![vec![2, 0, 0], vec![1, 9, 0]];
    assert_eq!(find_maximum_attractions(2, 3, attractions), 12);
}
#[test]
fn topics_given_in_falling_beauty() {
    let topics: Vec<(u32, u32)> = vec![(3, 3), (2, 2), (1, 1)];
    assert_eq!(find_maximum_topics(topics), 3);
}
