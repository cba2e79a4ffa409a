use problems::trust::{
    Action, Agent, CheatingAgent, CooperatingAgent, CopycatAgent, DetectiveAgent, Game, GrudgerAgent,
    RoundOutcome,
};

fn play(left: Box<dyn Agent>, right: Box<dyn Agent>, rounds: usize) -> (Vec<RoundOutcome>, i32, i32) {
    let mut game = Game::new(left, right);
    let mut out = Vec::new();
    for _ in 0..rounds {
        out.push(game.play_round());
    }
    (out, game.left_score(), game.right_score())
}

#[test]
fn fresh_game_scores_nothing() {
    let game = Game::new(Box::new(CheatingAgent::default()), Box::new(CooperatingAgent::default()));
    assert_eq!(game.left_score(), 0);
    assert_eq!(game.right_score(), 0);
}

#[test]
fn cheater_against_cooperator() {
    let (out, l, r) = play(Box::new(CheatingAgent::default()), Box::new(CooperatingAgent::default()), 3);
    assert_eq!(out, vec![RoundOutcome::LeftCheated; 3]);
    assert_eq!((l, r), (9, -3));
}

#[test]
fn cooperators_and_cheaters_among_themselves() {
    let (out, l, r) = play(Box::new(CooperatingAgent::default()), Box::new(CooperatingAgent::default()), 4);
    assert_eq!(out, vec![RoundOutcome::BothCooperated; 4]);
    assert_eq!((l, r), (8, 8));
    let (out, l, r) = play(Box::new(CheatingAgent::default()), Box::new(CheatingAgent::default()), 4);
    assert_eq!(out, vec![RoundOutcome::BothCheated; 4]);
    assert_eq!((l, r), (0, 0));
}

#[test]
fn grudger_never_forgives() {
    let mut g = GrudgerAgent::default();
    assert!(g.next() == Action::Cooperate);
    g.result(Action::Cooperate);
    assert!(g.next() == Action::Cooperate);
    g.result(Action::Cheat);
    assert!(g.next() == Action::Cheat);
    g.result(Action::Cooperate);
    assert!(g.next() == Action::Cheat);
}

#[test]
fn copycat_repeats_the_last_move() {
    let mut c = CopycatAgent::default();
    assert!(c.next() == Action::Cooperate);
    c.result(Action::Cheat);
    assert!(c.next() == Action::Cheat);
    c.result(Action::Cooperate);
    assert!(c.next() == Action::Cooperate);
}

#[test]
fn copycat_against_cheater() {
    let (out, l, r) = play(Box::new(CopycatAgent::default()), Box::new(CheatingAgent::default()), 3);
    assert_eq!(
        out,
        vec![RoundOutcome::RightCheated, RoundOutcome::BothCheated, RoundOutcome::BothCheated]
    );
    assert_eq!((l, r), (-1, 3));
}

#[test]
fn detective_exploits_a_cooperator() {
    let (out, l, r) = play(Box::new(DetectiveAgent::default()), Box::new(CooperatingAgent::default()), 6);
    assert_eq!(
        out,
        vec![
            RoundOutcome::BothCooperated,
            RoundOutcome::LeftCheated,
            RoundOutcome::BothCooperated,
            RoundOutcome::BothCooperated,
            RoundOutcome::LeftCheated,
            RoundOutcome::LeftCheated,
        ]
    );
    assert_eq!((l, r), (15, 3));
}

#[test]
fn detective_copies_a_cheater() {
    let (out, l, r) = play(Box::new(DetectiveAgent::default()), Box::new(CheatingAgent::default()), 6);
    assert_eq!(
        out,
        vec![
            RoundOutcome::RightCheated,
            RoundOutcome::BothCheated,
            RoundOutcome::RightCheated,
            RoundOutcome::RightCheated,
            RoundOutcome::BothCheated,
            RoundOutcome::BothCheated,
        ]
    );
    assert_eq!((l, r), (-3, 9));
}

#[test]
fn detective_against_grudger() {
    let (out, l, r) = play(Box::new(DetectiveAgent::default()), Box::new(GrudgerAgent::default()), 6);
    assert_eq!(
        out,
        vec![
            RoundOutcome::BothCooperated,
            RoundOutcome::LeftCheated,
            RoundOutcome::RightCheated,
            RoundOutcome::RightCheated,
            RoundOutcome::BothCheated,
            RoundOutcome::BothCheated,
        ]
    );
    assert_eq!((l, r), (2 + 3 - 1 - 1, 2 - 1 + 3 + 3));
}

#[test]
fn each_agent_learns_its_rivals_move() {
    let (out, l, r) = play(Box::new(GrudgerAgent::default()), Box::new(CopycatAgent::default()), 3);
    assert_eq!(out, vec![RoundOutcome::BothCooperated; 3]);
    assert_eq!((l, r), (6, 6));
    let (out, _, _) = play(Box::new(CopycatAgent::default()), Box::new(DetectiveAgent::default()), 4);
    assert_eq!(
        out,
        vec![
            RoundOutcome::BothCooperated,
            RoundOutcome::RightCheated,
            RoundOutcome::LeftCheated,
            RoundOutcome::BothCooperated,
        ]
    );
}
