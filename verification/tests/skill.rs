use redshift::command::PlayerId;
use redshift::commander::{affords, first_least_index, spendable, Commander};
use redshift::skill::Difficulty;

#[test]
fn a_dummy_is_as_clever_as_an_easy_opponent() {
    // Same head, different appetite.
    assert_eq!(
        Difficulty::Dummy.competence(),
        Difficulty::Easy.competence()
    );
    assert!(!Difficulty::Dummy.attacks());
    assert!(Difficulty::Easy.attacks());
}

#[test]
fn the_ladder_climbs() {
    let ladder = [Difficulty::Easy, Difficulty::Medium, Difficulty::Hard];
    for pair in ladder.windows(2) {
        let (worse, better) = (pair[0], pair[1]);
        assert!(better.competence() > worse.competence());
        assert!(better.think_interval() <= worse.think_interval());
        assert!(better.spend_share() > worse.spend_share());
        assert!(better.harvesters_wanted() >= worse.harvesters_wanted());
    }
}

#[test]
fn the_numbers_of_each_difficulty() {
    assert_eq!(Difficulty::Dummy.think_interval(), 12);
    assert_eq!(Difficulty::Medium.think_interval(), 7);
    assert_eq!(Difficulty::Hard.think_interval(), 5);
    assert_eq!(Difficulty::Easy.spend_share(), 70);
    assert_eq!(Difficulty::Hard.spend_share(), 100);
    assert_eq!(Difficulty::Easy.harvesters_wanted(), 3);
    assert_eq!(Difficulty::Hard.harvesters_wanted(), 4);
    assert_eq!(Difficulty::Medium.attack_at(), 9);
    assert_eq!(Difficulty::default(), Difficulty::Dummy);
}

#[test]
fn it_thinks_at_its_own_pace() {
    // Twelve ticks between thoughts at forty percent competence.
    let mut ai = Commander::new(PlayerId(1), Difficulty::Dummy);
    let mut thought = Vec::new();
    for tick in 0..600u32 {
        if ai.think_due(tick) {
            thought.push(tick);
        }
    }
    assert!(thought.len() as u32 <= 600 / Difficulty::Dummy.think_interval());
    assert_eq!(thought[0], 12, "not on tick zero, before anything is drawn");
    for pair in thought.windows(2) {
        assert_eq!(pair[1] - pair[0], 12);
    }
    assert_eq!(ai.player_id(), PlayerId(1));
    assert_eq!(ai.skill(), Difficulty::Dummy);
}

#[test]
fn a_weak_opponent_sits_on_a_reserve() {
    assert_eq!(spendable(Difficulty::Easy, 1000), 700);
    assert_eq!(spendable(Difficulty::Hard, 1000), 1000);
    assert!(affords(Difficulty::Easy, 1000, 700));
    assert!(!affords(Difficulty::Easy, 1000, 701));
}

#[test]
fn the_cheapest_candidate_wins_and_ties_go_to_the_first() {
    assert_eq!(first_least_index(&vec![]), None);
    assert_eq!(first_least_index(&vec![None, None]), None);
    assert_eq!(
        first_least_index(&vec![Some(900), None, Some(300), Some(300)]),
        Some(2)
    );
    assert_eq!(first_least_index(&vec![Some(5)]), Some(0));
}
