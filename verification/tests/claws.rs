use aoc24::claws::{calculate_tokens_using_iteration, Button, ClawMachine, Point};

fn chars(text: &str) -> Vec<char> {
    text.chars().collect()
}

const MACHINES: &str = "Button A: X+94, Y+34\nButton B: X+22, Y+67\nPrize: X=8400, Y=5400\n\nButton A: X+26, Y+66\nButton B: X+67, Y+21\nPrize: X=12748, Y=12176\n\nButton A: X+17, Y+86\nButton B: X+84, Y+37\nPrize: X=7870, Y=6450\n\nButton A: X+69, Y+23\nButton B: X+27, Y+71\nPrize: X=18641, Y=10279\n";

#[test]
fn claws_example_tokens() {
    let machines = ClawMachine::from_string(MACHINES).unwrap();
    assert_eq!(machines.len(), 4);
    let (total, costs) = calculate_tokens_using_iteration(&machines).unwrap();
    assert_eq!(total, 480);
    assert_eq!(costs, vec![Some(280), None, Some(200), None]);
    assert_eq!(machines[0].gamble_on(&80, &40), Some(280));
    assert_eq!(machines[0].gamble_on(&80, &41), None);
    assert_eq!(machines[0].calculate_tokens_to_win_using_iteration(), Some(280));
}

#[test]
fn claws_lines_are_read() {
    let button = Button::from_string(&chars("Button A: X+94, Y+34"), 3).unwrap();
    assert_eq!((button.movement.x, button.movement.y, button.tokens), (94, 34, 3));
    let prize = Point::from_prize_string(&chars("Prize: X=8400, Y=5400")).unwrap();
    assert_eq!((prize.x, prize.y), (8400, 5400));
    assert!(Point::from_prize_string(&chars("Prize: X=8400 Y=5400")).is_none());
    assert!(Button::from_string(&chars("Button A: X+9a, Y+34"), 3).is_none());
    assert!(ClawMachine::from_string("Button A: X+94, Y+34\n").unwrap().is_empty());
    assert!(ClawMachine::from_string("a\nb\nc\n").is_none());
    let point = Point::new(1, 2);
    assert_eq!((point.x, point.y), (1, 2));
}

#[test]
fn claws_prizes_are_put_further_away() {
    let mut machines = ClawMachine::from_string(MACHINES).unwrap();
    assert!(ClawMachine::add_to_prices(&mut machines, 10000000000000));
    assert_eq!(machines[0].prize.x, 10000000008400);
    assert_eq!(machines[3].prize.y, 10000000010279);
    assert!(!machines[0].add_to_prize(u64::MAX));
    assert_eq!(machines[0].prize.x, 10000000008400);
}
