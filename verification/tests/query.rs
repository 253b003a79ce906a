use yatzy::query::{parse_decoded_query, parse_index_query_string, Parameter, ParseIndexQueryStringError};
use yatzy::{Combo, Game};

use ParseIndexQueryStringError::{
    DuplicateParameter, InvalidQueryString, InvalidValue, MissingValue, UnknownParameter,
};

const FRESH: &str = "dice=6,6,5,1,1&rerolls_left=2&ones=empty&twos=empty&threes=empty&fours=empty&fives=empty&sixes=empty&one_pair=empty&two_pairs=empty&three_of_a_kind=empty&four_of_a_kind=empty&small_straight=empty&large_straight=empty&full_house=empty&chance=empty&yatzy=empty";

fn parse(query: &str) -> Result<Game, Vec<ParseIndexQueryStringError>> {
    parse_index_query_string(query)
}

fn unknown(name: &str) -> ParseIndexQueryStringError {
    UnknownParameter(name.as_bytes().to_vec())
}

fn all_parameters() -> Vec<Parameter> {
    (0..17).map(Parameter::nth).collect()
}

#[test]
fn a_fresh_game() {
    let game = parse(FRESH).unwrap();
    assert_eq!(game.dice().to_array(), [1, 1, 5, 6, 6]);
    assert_eq!(game.rerolls_left(), 2);
    assert_eq!(game.round(), 0);
}

#[test]
fn a_game_under_way() {
    let query = "yatzy=50&chance=empty&full_house=0&large_straight=20&small_straight=empty&four_of_a_kind=24&three_of_a_kind=9&two_pairs=22&one_pair=12&sixes=30&fives=empty&fours=0&threes=15&twos=4&ones=empty&rerolls_left=0&dice=3,3,4,4,4";
    let game = parse(query).unwrap();
    assert_eq!(game.dice().to_array(), [3, 3, 4, 4, 4]);
    assert_eq!(game.rerolls_left(), 0);
    assert_eq!(game.combo(Combo::Ones), None);
    assert_eq!(game.combo(Combo::Twos), Some(4));
    assert_eq!(game.combo(Combo::Threes), Some(15));
    assert_eq!(game.combo(Combo::Fours), Some(0));
    assert_eq!(game.combo(Combo::Fives), None);
    assert_eq!(game.combo(Combo::Sixes), Some(30));
    assert_eq!(game.combo(Combo::OnePair), Some(12));
    assert_eq!(game.combo(Combo::TwoPairs), Some(22));
    assert_eq!(game.combo(Combo::ThreeOfAKind), Some(9));
    assert_eq!(game.combo(Combo::FourOfAKind), Some(24));
    assert_eq!(game.combo(Combo::SmallStraight), None);
    assert_eq!(game.combo(Combo::LargeStraight), Some(20));
    assert_eq!(game.combo(Combo::FullHouse), Some(0));
    assert_eq!(game.combo(Combo::Chance), None);
    assert_eq!(game.combo(Combo::Yatzy), Some(50));
    assert_eq!(game.round(), 11);
}

#[test]
fn percent_encoding_is_decoded() {
    let query = FRESH.replace(',', "%2C").replace("rerolls_left", "rerolls%5Fleft");
    let game = parse(&query).unwrap();
    assert_eq!(game.dice().to_array(), [1, 1, 5, 6, 6]);
    assert_eq!(game, parse(FRESH).unwrap());
}

#[test]
fn a_query_that_is_not_percent_encoded() {
    assert_eq!(parse("dice=%zz"), Err(vec![InvalidQueryString]));
    assert_eq!(parse("%"), Err(vec![InvalidQueryString]));
    assert_eq!(parse("dice=1%2"), Err(vec![InvalidQueryString]));
}

#[test]
fn an_empty_query_misses_every_parameter() {
    let expected: Vec<ParseIndexQueryStringError> =
        all_parameters().into_iter().map(MissingValue).collect();
    assert_eq!(parse(""), Err(expected.clone()));
    assert_eq!(parse_decoded_query(b""), Err(expected));
}

#[test]
fn an_empty_part_is_an_unknown_parameter() {
    let mut query = String::from(FRESH);
    query.push('&');
    assert_eq!(parse(&query), Err(vec![unknown("")]));
    assert_eq!(parse(&format!("&{}", FRESH)), Err(vec![unknown("")]));
    assert_eq!(parse(&format!("&&{}", FRESH)), Err(vec![unknown("")]));
}

#[test]
fn unknown_parameters() {
    assert_eq!(parse(&format!("{}&color=red", FRESH)), Err(vec![unknown("color")]));
    assert_eq!(parse(&format!("{}&color", FRESH)), Err(vec![unknown("color")]));
    assert_eq!(parse(&format!("{}&Dice=1,2,3,4,5", FRESH)), Err(vec![unknown("Dice")]));
    assert_eq!(parse(&format!("{}&=5", FRESH)), Err(vec![unknown("")]));
    assert_eq!(
        parse(&format!("b=1&{}&a&b=2", FRESH)),
        Err(vec![unknown("b"), unknown("a")])
    );
    assert_eq!(parse(&format!("{}&caf%C3%A9=1", FRESH)), Err(vec![unknown("café")]));
}

#[test]
fn a_parameter_without_a_value() {
    let query = FRESH.replace("chance=empty", "chance=");
    assert_eq!(parse(&query), Err(vec![MissingValue(Parameter::Line(Combo::Chance))]));
    let query = FRESH.replace("chance=empty", "chance");
    assert_eq!(parse(&query), Err(vec![MissingValue(Parameter::Line(Combo::Chance))]));
    let query = FRESH.replace("&chance=empty", "");
    assert_eq!(parse(&query), Err(vec![MissingValue(Parameter::Line(Combo::Chance))]));
    let query = FRESH.replace("dice=6,6,5,1,1&", "").replace("yatzy=empty", "yatzy=");
    assert_eq!(
        parse(&query),
        Err(vec![MissingValue(Parameter::Line(Combo::Yatzy)), MissingValue(Parameter::Dice)])
    );
}

#[test]
fn a_parameter_given_twice() {
    let query = format!("{}&twos=4", FRESH);
    assert_eq!(parse(&query), Err(vec![DuplicateParameter(Parameter::Line(Combo::Twos))]));
    let query = format!("{}&twos=4&twos=6&dice=1,1,1,1,1", FRESH);
    assert_eq!(
        parse(&query),
        Err(vec![
            DuplicateParameter(Parameter::Line(Combo::Twos)),
            DuplicateParameter(Parameter::Dice)
        ])
    );
    // a value that was refused counts as given, one that was missing does not
    let query = FRESH.replace("twos=empty", "twos=3&twos=4");
    assert_eq!(
        parse(&query),
        Err(vec![
            InvalidValue(Parameter::Line(Combo::Twos)),
            DuplicateParameter(Parameter::Line(Combo::Twos))
        ])
    );
    let query = FRESH.replace("twos=empty", "twos=&twos=4");
    assert_eq!(parse(&query), Err(vec![MissingValue(Parameter::Line(Combo::Twos))]));
    let query = FRESH.replace("twos=empty", "twos=&twos=empty");
    assert_eq!(parse(&query), Err(vec![MissingValue(Parameter::Line(Combo::Twos))]));
}

#[test]
fn values_that_a_parameter_cannot_have() {
    let cases = [
        ("dice=6,6,5,1,1", "dice=6,6,5,1", Parameter::Dice),
        ("dice=6,6,5,1,1", "dice=6,6,5,1,7", Parameter::Dice),
        ("dice=6,6,5,1,1", "dice=6,6,5,1,0", Parameter::Dice),
        ("dice=6,6,5,1,1", "dice=6,6,5,1,1,", Parameter::Dice),
        ("dice=6,6,5,1,1", "dice=6;6;5;1;1", Parameter::Dice),
        ("dice=6,6,5,1,1", "dice=66511", Parameter::Dice),
        ("rerolls_left=2", "rerolls_left=3", Parameter::RerollsLeft),
        ("rerolls_left=2", "rerolls_left=02", Parameter::RerollsLeft),
        ("rerolls_left=2", "rerolls_left=empty", Parameter::RerollsLeft),
        ("ones=empty", "ones=6", Parameter::Line(Combo::Ones)),
        ("ones=empty", "ones=Empty", Parameter::Line(Combo::Ones)),
        ("ones=empty", "ones=01", Parameter::Line(Combo::Ones)),
        ("ones=empty", "ones=+1", Parameter::Line(Combo::Ones)),
        ("ones=empty", "ones=1=1", Parameter::Line(Combo::Ones)),
        ("twos=empty", "twos=3", Parameter::Line(Combo::Twos)),
        ("sixes=empty", "sixes=36", Parameter::Line(Combo::Sixes)),
        ("two_pairs=empty", "two_pairs=4", Parameter::Line(Combo::TwoPairs)),
        ("full_house=empty", "full_house=10", Parameter::Line(Combo::FullHouse)),
        ("full_house=empty", "full_house=25", Parameter::Line(Combo::FullHouse)),
        ("chance=empty", "chance=4", Parameter::Line(Combo::Chance)),
        ("chance=empty", "chance=0", Parameter::Line(Combo::Chance)),
        ("chance=empty", "chance=31", Parameter::Line(Combo::Chance)),
        ("yatzy=empty", "yatzy=100", Parameter::Line(Combo::Yatzy)),
        ("yatzy=empty", "yatzy=5", Parameter::Line(Combo::Yatzy)),
    ];
    for (good, bad, parameter) in cases {
        assert!(FRESH.contains(good));
        let query = FRESH.replace(good, bad);
        assert_eq!(parse(&query), Err(vec![InvalidValue(parameter)]), "{}", bad);
    }
}

#[test]
fn every_legal_score_is_read() {
    for parameter in all_parameters() {
        if let Parameter::Line(combo) = parameter {
            let name = parameter.name();
            for points in 0..=99u8 {
                let query = FRESH.replace(&format!("{}=empty", name), &format!("{}={}", name, points));
                match parse(&query) {
                    Ok(game) => {
                        assert!(combo.is_legal_score(points));
                        assert_eq!(game.combo(combo), Some(points));
                    }
                    Err(errors) => {
                        assert!(!combo.is_legal_score(points));
                        assert_eq!(errors, vec![InvalidValue(parameter)]);
                    }
                }
            }
        }
    }
}

#[test]
fn faults_come_once_and_in_order() {
    let query = "x&yatzy=7&x=1&dice=1,2,3&yatzy=50&rerolls_left=&y";
    let mut expected = vec![
        unknown("x"),
        InvalidValue(Parameter::Line(Combo::Yatzy)),
        InvalidValue(Parameter::Dice),
        DuplicateParameter(Parameter::Line(Combo::Yatzy)),
        MissingValue(Parameter::RerollsLeft),
        unknown("y"),
    ];
    for parameter in all_parameters() {
        if let Parameter::Line(combo) = parameter {
            if combo != Combo::Yatzy {
                expected.push(MissingValue(parameter));
            }
        }
    }
    assert_eq!(parse(query), Err(expected));
}

#[test]
fn parameters_have_names_and_places() {
    let names: Vec<&str> = all_parameters().iter().map(|parameter| parameter.name()).collect();
    assert_eq!(
        names,
        vec![
            "dice",
            "rerolls_left",
            "ones",
            "twos",
            "threes",
            "fours",
            "fives",
            "sixes",
            "one_pair",
            "two_pairs",
            "three_of_a_kind",
            "four_of_a_kind",
            "small_straight",
            "large_straight",
            "full_house",
            "chance",
            "yatzy",
        ]
    );
    for (i, parameter) in all_parameters().into_iter().enumerate() {
        assert_eq!(parameter.ordinal(), i);
    }
    assert_eq!(Parameter::nth(16), Parameter::Line(Combo::Yatzy));
    assert_eq!(Combo::nth(12), Combo::FullHouse);
}
