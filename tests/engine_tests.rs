use matchertools::{
    accept_or_reject_proposals, break_engagement, create_proposals, gale_shapley_internal,
    get_best_man_from_men_interested_in_a_woman, get_currently_engaged_man, get_rank,
    get_unengaged_men, make_engagement, play_round,
};
use std::collections::HashMap;

fn get_preferences_config_1() -> Vec<Vec<usize>> {
    vec![
        vec![0, 1, 2, 3, 4],
        vec![4, 3, 2, 1, 0],
        vec![0, 1, 4, 2, 3],
        vec![2, 4, 3, 0, 1],
        vec![4, 0, 1, 3, 2],
    ]
}

fn get_preferences_config_2() -> Vec<Vec<usize>> {
    vec![
        vec![0, 1, 2, 3, 4],
        vec![1, 2, 4, 3, 0],
        vec![2, 4, 1, 0, 3],
        vec![0, 4, 3, 1, 2],
        vec![3, 0, 2, 4, 1],
    ]
}

#[test]
fn test_get_unengaged_men() {
    let men_preferences = get_preferences_config_1();
    let mut engaged_man_woman: Vec<Option<usize>> = vec![None; 5];
    engaged_man_woman[0] = Some(0);
    engaged_man_woman[1] = Some(1);
    engaged_man_woman[2] = Some(2);

    let unengaged_men = get_unengaged_men(&men_preferences, &engaged_man_woman);
    assert_eq!(unengaged_men, vec![3, 4]);

    engaged_man_woman[3] = Some(3);
    let unengaged_men = get_unengaged_men(&men_preferences, &engaged_man_woman);
    assert_eq!(unengaged_men, vec![4]);

    engaged_man_woman[4] = Some(4);
    let unengaged_men = get_unengaged_men(&men_preferences, &engaged_man_woman);
    assert_eq!(unengaged_men, Vec::<usize>::new());
}

#[test]
fn test_create_proposals_base_case() {
    // First round: nobody is engaged yet.
    let unengaged_men: Vec<usize> = vec![0, 1, 2, 3, 4];

    let men_preferences = vec![
        vec![0, 1, 2, 3, 4],
        vec![0, 1, 2, 3, 4],
        vec![0, 1, 2, 3, 4],
        vec![0, 1, 2, 3, 4],
        vec![0, 1, 2, 3, 4],
    ];

    let proposals = create_proposals(&men_preferences, unengaged_men);

    assert_eq!(proposals.get(0), Some(&vec![0, 1, 2, 3, 4]));
}

#[test]
fn test_create_proposals_base_case_with_better_preferences() {
    let unengaged_men: Vec<usize> = vec![0, 1, 2, 3, 4];
    let men_preferences = get_preferences_config_1();
    let proposals = create_proposals(&men_preferences, unengaged_men);

    assert_eq!(proposals.get(0), Some(&vec![0, 2]));
    assert_eq!(proposals.get(2), Some(&vec![3]));
    assert_eq!(proposals.get(4), Some(&vec![1, 4]));
}

#[test]
fn test_get_best_man_from_interested_men() {
    let women_preferences = get_preferences_config_2();
    let woman: usize = 1;
    let interested_men: Vec<usize> = vec![0, 1, 2, 3, 4];

    let best_man =
        get_best_man_from_men_interested_in_a_woman(woman, &women_preferences, &interested_men);
    assert_eq!(best_man, Some(1));

    let woman: usize = 2;
    let interested_men: Vec<usize> = vec![0, 1, 2, 3, 4];

    let best_man =
        get_best_man_from_men_interested_in_a_woman(woman, &women_preferences, &interested_men);
    assert_eq!(best_man, Some(2));
}

#[test]
fn test_get_rank() {
    let men_preferences = get_preferences_config_2();

    let rank = get_rank(&men_preferences, &1, &1);
    assert_eq!(rank, Some(0));

    let rank = get_rank(&men_preferences, &4, &1);
    assert_eq!(rank, Some(4));

    let rank = get_rank(&men_preferences, &4, &16);
    assert_eq!(rank, None);
}

#[test]
fn test_get_currently_engaged_man() {
    let engaged_man_woman: Vec<Option<usize>> = vec![Some(0), None, Some(4)];

    let engaged_man = get_currently_engaged_man(&engaged_man_woman, &0);
    assert_eq!(engaged_man, Some(0));

    let engaged_man = get_currently_engaged_man(&engaged_man_woman, &1);
    assert_eq!(engaged_man, None);

    let engaged_man = get_currently_engaged_man(&engaged_man_woman, &4);
    assert_eq!(engaged_man, Some(2));
}

#[test]
fn test_make_engagement() {
    let mut engaged_man_woman: Vec<Option<usize>> = vec![Some(0), Some(1), None];

    let woman = 0;
    let the_better_man = 2;
    make_engagement(&mut engaged_man_woman, the_better_man, woman);

    assert_eq!(engaged_man_woman.get(the_better_man), Some(&Some(0)));
    assert_eq!(engaged_man_woman.get(1), Some(&Some(1)));
}

#[test]
fn test_accept_or_reject_proposals() {
    let mut men_preferences = get_preferences_config_1();
    let women_preferences = get_preferences_config_2();

    let mut engaged_man_woman: Vec<Option<usize>> = vec![None; 5];
    let unengaged_men = get_unengaged_men(&men_preferences, &engaged_man_woman);
    let proposals = create_proposals(&men_preferences, unengaged_men);
    println!("proposals: {:?}", proposals);
    // Proposals would be:
    // 0 - {0, 2}
    // 2 - {3}
    // 4 - {1, 4}
    accept_or_reject_proposals(
        &mut men_preferences,
        &women_preferences,
        &mut engaged_man_woman,
        proposals,
    );
    assert_eq!(engaged_man_woman[0], Some(0));
    assert_eq!(engaged_man_woman[1], None);
    assert_eq!(engaged_man_woman[2], None);
    assert_eq!(engaged_man_woman[3], Some(2));
    assert_eq!(engaged_man_woman[4], Some(4));
    println!("engaged: {:?}", engaged_man_woman);

    // Another round: men 1 and 2.
    let unengaged_men = get_unengaged_men(&men_preferences, &engaged_man_woman);
    let proposals = create_proposals(&men_preferences, unengaged_men);
    println!("proposals: {:?}", proposals);
    // Proposals would be:
    // 1 - {2}
    // 3 - {1}
    accept_or_reject_proposals(
        &mut men_preferences,
        &women_preferences,
        &mut engaged_man_woman,
        proposals,
    );
    println!("engaged: {:?}", engaged_man_woman);
    assert_eq!(engaged_man_woman[0], Some(0));
    assert_eq!(engaged_man_woman[1], Some(3));
    assert_eq!(engaged_man_woman[2], Some(1));
    assert_eq!(engaged_man_woman[3], Some(2));
    assert_eq!(engaged_man_woman[4], Some(4));

    assert_eq!(
        get_unengaged_men(&men_preferences, &engaged_man_woman).len(),
        0
    );
}

#[test]
fn break_engagement_leaves_man_unengaged() {
    let mut engaged_man_woman: Vec<Option<usize>> = vec![Some(1), Some(0)];
    break_engagement(&mut engaged_man_woman, 0);
    assert_eq!(engaged_man_woman, vec![None, Some(0)]);
}

#[test]
fn accept_keeps_current_partner_when_better() {
    // Responder 0 holds proposer 1, whom it ranks first; proposer 0 is refused.
    let mut men_preferences = vec![vec![0, 1], vec![1]];
    let women_preferences = vec![vec![1, 0], vec![0, 1]];
    let mut engaged_man_woman = vec![None, Some(0)];
    accept_or_reject_proposals(
        &mut men_preferences,
        &women_preferences,
        &mut engaged_man_woman,
        vec![vec![0], vec![]],
    );
    assert_eq!(engaged_man_woman, vec![None, Some(0)]);
    assert_eq!(men_preferences, vec![vec![1], vec![1]]);
}

#[test]
fn accept_replaces_current_partner_when_worse() {
    // Responder 0 prefers the new proposer 0 to its partner 1.
    let mut men_preferences = vec![vec![0, 1], vec![1]];
    let women_preferences = vec![vec![0, 1], vec![0, 1]];
    let mut engaged_man_woman = vec![None, Some(0)];
    accept_or_reject_proposals(
        &mut men_preferences,
        &women_preferences,
        &mut engaged_man_woman,
        vec![vec![0], vec![]],
    );
    assert_eq!(engaged_man_woman, vec![Some(0), None]);
    assert_eq!(men_preferences, vec![vec![1], vec![1]]);
}

#[test]
fn play_round_matches_first_round() {
    let mut men_preferences = get_preferences_config_1();
    let women_preferences = get_preferences_config_2();
    let mut engaged_man_woman: Vec<Option<usize>> = vec![None; 5];
    play_round(&mut men_preferences, &women_preferences, &mut engaged_man_woman);
    assert_eq!(
        engaged_man_woman,
        vec![Some(0), None, None, Some(2), Some(4)]
    );
    // Every proposer proposed once.
    assert_eq!(men_preferences[0], vec![1, 2, 3, 4]);
    assert_eq!(men_preferences[1], vec![3, 2, 1, 0]);
    assert_eq!(men_preferences[2], vec![1, 4, 2, 3]);
}

#[test]
fn internal_run_on_classic_fixture() {
    let men_preferences = get_preferences_config_1();
    let women_preferences = get_preferences_config_2();
    let engaged = gale_shapley_internal(&men_preferences, &women_preferences);
    let expected: HashMap<usize, usize> = HashMap::from([(0, 0), (1, 3), (2, 1), (3, 2), (4, 4)]);
    assert_eq!(engaged, expected);
}

#[test]
fn internal_run_on_empty_tables() {
    let engaged = gale_shapley_internal(&Vec::new(), &Vec::new());
    assert!(engaged.is_empty());
}

#[test]
fn get_rank_of_unknown_participant() {
    let preferences = get_preferences_config_2();
    assert_eq!(get_rank(&preferences, &5, &0), None);
}

#[test]
fn best_man_when_nobody_is_interested() {
    let women_preferences = get_preferences_config_2();
    assert_eq!(
        get_best_man_from_men_interested_in_a_woman(3, &women_preferences, &vec![]),
        None
    );
    assert_eq!(
        get_best_man_from_men_interested_in_a_woman(3, &women_preferences, &vec![2, 1]),
        Some(1)
    );
}
