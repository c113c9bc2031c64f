use aoc22::day03::{p1, p2};
use aoc22::day06::nproc_start;
use aoc22::day08::trees;
use aoc22::day09::stretch;
use aoc22::day10::{crt, signal_strength};

#[test]
fn d03_p1_works() {
    let sample = "\
vJrwpWtwJgWrhcsFMMfFFhFp
jqHRNqRjqzjGDLGLrsFMfFZSrLrFZsSL
PmmdzqPrVvPwwTWBwg
wMqvLMZHhHMvwLHjbvcjnnSBnvTQFn
ttgJtRGJQctTZtZT
CrZsJsPPZsGzwwsLwLmpwMDw
";
    assert_eq!(p1(sample), 157);
    assert_eq!(p2(sample), 70);
}

#[test]
fn test_06() {
    let tests = [
        ("bvwbjplbgvbhsrlpgdmjqwftvncz", 5),
        ("nppdvjthqldpwncqszvftbrmjlhg", 6),
        ("nznrnfrfntjfmvfwmzdfjlvtqnbhcprsg", 10),
        ("zcfzfwzzqfrljwzlrfnpqdbhtmscgvjw", 11),
    ];

    for (s, w) in tests {
        println!("{}", s);
        assert_eq!(nproc_start(s, 4), w);
    }
}

#[test]
fn day08_works() {
    let sample = "\
30373
25512
65332
33549
35390
";
    assert_eq!(trees(sample), (21, 8));
}

#[test]
fn stretch_works() {
    let sample = "\
R 4
U 4
L 3
D 1
R 4
D 1
L 5
R 2
";

    assert_eq!(stretch(sample, 2), 13);
}

#[test]
fn larger_stretch_works() {
    let sample = "\
R 5
U 8
L 8
D 3
R 17
D 10
L 25
U 20
";
    assert_eq!(stretch(sample, 10), 36);
}

#[test]
fn day01_run_works() {
    let out = aoc22::day01::run("1000\n2000\n\n3000\n").unwrap();
    assert_eq!(out, "3000 6000");
    let out = aoc22::day01::run("").unwrap();
    assert_eq!(out, "0 0");
}

#[test]
fn day02_run_works() {
    let out = aoc22::day02::run("A Y\nB X\nC Z\n").unwrap();
    assert_eq!(out, "15 12");
}

#[test]
fn day03_run_works() {
    let out = aoc22::day03::run("vJrwpWtwJgWrhcsFMMfFFhFp\njqHRNqRjqzjGDLGLrsFMfFZSrLrFZsSL\nPmmdzqPrVvPwwTWBwg\n").unwrap();
    assert_eq!(out, "96 18");
}

#[test]
fn day04_run_works() {
    let sample = "\
2-4,6-8
2-3,4-5
5-7,7-9
2-8,3-7
6-6,4-6
2-6,4-8
";
    let out = aoc22::day04::run(sample).unwrap();
    assert_eq!(out, "2 4");
}

#[test]
fn day06_run_works() {
    let out = aoc22::day06::run("bvwbjplbgvbhsrlpgdmjqwftvncz").unwrap();
    assert_eq!(out, "5 23");
}

#[test]
fn day09_run_works() {
    let out = aoc22::day09::run("R 4\nU 4\nL 3\nD 1\nR 4\nD 1\nL 5\nR 2\n").unwrap();
    assert_eq!(out, "13 1");
}

#[test]
fn day25_run_works() {
    let sample = "\
1=-0-2
12111
2=0=
21
2=01
111
20012
112
1=-1=
1-12
12
1=
122
";
    let out = aoc22::day25::run(sample).unwrap();
    assert_eq!(out, "2=-1=0 ");
}

#[test]
fn signal_strength_works() {
    let sample = "\
addx 15
addx -11
addx 6
addx -3
addx 5
addx -1
addx -8
addx 13
addx 4
noop
addx -1
addx 5
addx -1
addx 5
addx -1
addx 5
addx -1
addx 5
addx -1
addx -35
addx 1
addx 24
addx -19
addx 1
addx 16
addx -11
noop
noop
addx 21
addx -15
noop
noop
addx -3
addx 9
addx 1
addx -3
addx 8
addx 1
addx 5
noop
noop
noop
noop
noop
addx -36
noop
addx 1
addx 7
noop
noop
noop
addx 2
addx 6
noop
noop
noop
noop
noop
addx 1
noop
noop
addx 7
addx 1
noop
addx -13
addx 13
addx 7
noop
addx 1
addx -33
noop
noop
noop
addx 2
noop
noop
noop
addx 8
noop
addx -1
addx 2
addx 1
noop
addx 17
addx -9
addx 1
addx 1
addx -3
addx 11
noop
noop
addx 1
noop
addx 1
noop
noop
addx -13
addx -19
addx 1
addx 3
addx 26
addx -30
addx 12
addx -1
addx 3
addx 1
noop
noop
noop
addx -9
addx 18
addx 1
addx 2
noop
noop
addx 9
noop
noop
noop
addx -1
addx 2
addx -37
addx 1
addx 3
noop
addx 15
addx -21
addx 22
addx -6
addx 1
noop
addx 2
addx 1
noop
addx -10
noop
noop
addx 20
addx 1
addx 2
addx 2
addx -6
addx -11
noop
noop
noop
";

    assert_eq!(signal_strength(sample), 13140);

    let want_crt = "\
##..##..##..##..##..##..##..##..##..##..
###...###...###...###...###...###...###.
####....####....####....####....####....
#####.....#####.....#####.....#####.....
######......######......######......####
#######.......#######.......#######.....";

    assert_eq!(crt(sample, '#', '.').trim(), want_crt.trim());
}

#[test]
fn day13_works() {
    assert_eq!(aoc22::day13::check_sort(&aoc22::day13::parse(SAMPLE).unwrap()), 13);
}

const SAMPLE: &str = "\
[1,1,3,1,1]
[1,1,5,1,1]

[[1],[2,3,4]]
[[1],4]

[9]
[[8,7,6]]

[[4,4],4,4]
[[4,4],4,4,4]

[7,7,7,7]
[7,7,7]

[]
[3]

[[[]]]
[[]]

[1,[2,[3,[4,[5,6,7]]]],8,9]
[1,[2,[3,[4,[5,6,0]]]],8,9]
";

#[test]
fn day13_run_works() {
    let out = aoc22::day13::run(SAMPLE).unwrap();
    assert_eq!(out, "13 140");
}

#[test]
fn day05_run_works() {
    let sample = "    [D]    \n[N] [C]    \n[Z] [M] [P]\n 1   2   3 \n\nmove 1 from 2 to 1\nmove 3 from 1 to 3\nmove 2 from 2 to 1\nmove 1 from 1 to 2\n";
    let out = aoc22::day05::run(sample).unwrap();
    assert_eq!(out, "CMZ MCD");
}

#[test]
fn day25_round_trip() {
    // a snafu rendering read back gives the same value
    let vals: [&str; 4] = ["1=-0-2\n", "2=0=\n", "1=11-2\n", "1-0---0\n"];
    let expect: [&str; 4] = ["1=-0-2 ", "2=0= ", "1=11-2 ", "1-0---0 "];
    for k in 0..vals.len() {
        assert_eq!(aoc22::day25::run(vals[k]).unwrap(), expect[k]);
    }
}

#[test]
fn day14_works() {
    let sample = "\
498,4 -> 498,6 -> 496,6
503,4 -> 502,4 -> 502,9 -> 494,9
";
    let m = aoc22::day14::Cave::parse(sample).unwrap();
    assert_eq!(aoc22::day14::count_drops(m), 24);
}

#[test]
fn day14_run_works() {
    let sample = "498,4 -> 498,6 -> 496,6\n503,4 -> 502,4 -> 502,9 -> 494,9\n";
    assert_eq!(aoc22::day14::run(sample).unwrap(), "24 ");
}
