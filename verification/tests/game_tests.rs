use practice_apps::game::{
    choice_name, get_user_choice, judge, outcome_message, read_player_input, Outcome, PlayerInput,
    Score,
};

#[test]
fn reading_player_input() {
    assert_eq!(read_player_input("0\n"), PlayerInput::Quit);
    assert_eq!(read_player_input("  2 \n"), PlayerInput::Play(2));
    assert_eq!(read_player_input("+3"), PlayerInput::Play(3));
    assert_eq!(read_player_input("00"), PlayerInput::Quit);
    assert_eq!(read_player_input("4"), PlayerInput::Invalid);
    assert_eq!(read_player_input("-1"), PlayerInput::Invalid);
    assert_eq!(read_player_input("kamień"), PlayerInput::Invalid);
    assert_eq!(read_player_input(""), PlayerInput::Invalid);
    assert_eq!(read_player_input("99999999999"), PlayerInput::Invalid);
}

#[test]
fn user_choice_parsing() {
    assert_eq!(get_user_choice(" 7\n"), Some(7));
    assert_eq!(get_user_choice("x"), None);
}

#[test]
fn names() {
    assert_eq!(choice_name(1), "Kamień");
    assert_eq!(choice_name(2), "Papier");
    assert_eq!(choice_name(3), "Nożyce");
}

#[test]
fn judging() {
    assert_eq!(judge(1, 3), Outcome::Win);
    assert_eq!(judge(2, 1), Outcome::Win);
    assert_eq!(judge(3, 2), Outcome::Win);
    assert_eq!(judge(3, 1), Outcome::Loss);
    assert_eq!(judge(1, 2), Outcome::Loss);
    assert_eq!(judge(2, 3), Outcome::Loss);
    for c in 1..=3 {
        assert_eq!(judge(c, c), Outcome::Draw);
    }
    assert_eq!(outcome_message(Outcome::Draw), "Remis!");
    assert_eq!(outcome_message(Outcome::Win), "Wygrałeś!");
    assert_eq!(outcome_message(Outcome::Loss), "Przegrałeś!");
}

#[test]
fn law_outcome_antisymmetric_all_pairs() {
    for a in 1..=3 {
        for b in 1..=3 {
            assert_eq!(judge(a, b) == Outcome::Win, judge(b, a) == Outcome::Loss);
            assert_eq!(judge(a, b) == Outcome::Draw, a == b);
        }
    }
}

#[test]
fn law_each_choice_beats_one_all() {
    for a in 1..=3 {
        let wins = (1..=3).filter(|&b| judge(a, b) == Outcome::Win).count();
        let losses = (1..=3).filter(|&b| judge(a, b) == Outcome::Loss).count();
        assert_eq!(wins, 1);
        assert_eq!(losses, 1);
    }
}

#[test]
fn scoring() {
    let mut s = Score::new();
    s.record(Outcome::Win);
    s.record(Outcome::Win);
    s.record(Outcome::Draw);
    s.record(Outcome::Loss);
    assert_eq!((s.wins, s.losses, s.draws), (2, 1, 1));
}

#[test]
fn rounds_draw_a_valid_computer_choice() {
    let mut s = Score::new();
    for round in 0..300 {
        let (computer, outcome) = s.play_round(1 + (round % 3) as u32);
        assert!((1..=3).contains(&computer));
        assert_eq!(outcome, judge(1 + (round % 3) as u32, computer));
    }
    assert_eq!(s.wins + s.losses + s.draws, 300);
}
