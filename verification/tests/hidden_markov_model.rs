use pattern_discovery::hidden_markov_model::{
    classify, log_add, log_div, HiddenMarkovModel, LogScores, NEG_INFINITY,
};

fn model(n_states: usize) -> HiddenMarkovModel {
    HiddenMarkovModel {
        n_states,
        dim: 1,
        trans: vec![0; n_states * n_states],
        start: vec![0; n_states],
        stop: vec![0; n_states],
        states: vec![0; n_states],
        is_segmental: vec![false; n_states],
        trans_total: vec![0; n_states],
        start_total: 0,
        stop_total: 0,
    }
}

fn scores(stop_of_first: i64) -> LogScores {
    LogScores {
        n_states: 2,
        len: 2,
        start: vec![0, NEG_INFINITY],
        trans: vec![-1, -2, NEG_INFINITY, -3],
        stop: vec![stop_of_first, -1],
        emission: vec![-10, -20, -30, -40],
    }
}

#[test]
fn viterbi_follows_the_best_path() {
    // the best path stays in the first state: 0 - 10 - 1 - 30 - 5 over two frames
    assert_eq!(model(2).viterbi(&scores(-5)), -23);
    // the score is rounded down
    assert_eq!(model(2).viterbi(&scores(-6)), -24);
    // with a costly stop in the first state the path ends in the second
    assert_eq!(model(2).viterbi(&scores(-100)), -27);
}

#[test]
fn viterbi_is_deterministic() {
    let first = model(2).viterbi(&scores(-5));
    let second = model(2).viterbi(&scores(-5));
    assert_eq!(first, second);
}

#[test]
fn viterbi_never_takes_an_impossible_transition() {
    let stuck = LogScores {
        n_states: 2,
        len: 2,
        start: vec![NEG_INFINITY, 0],
        trans: vec![-1, -2, NEG_INFINITY, NEG_INFINITY],
        stop: vec![-1, -1],
        emission: vec![0, 0, 0, 0],
    };
    assert_eq!(model(2).viterbi(&stuck), NEG_INFINITY);
    let one_frame = LogScores {
        n_states: 1,
        len: 1,
        start: vec![-2],
        trans: vec![NEG_INFINITY],
        stop: vec![-3],
        emission: vec![-4],
    };
    assert_eq!(model(1).viterbi(&one_frame), -9);
    let no_state = LogScores {
        n_states: 0,
        len: 3,
        start: vec![],
        trans: vec![],
        stop: vec![],
        emission: vec![],
    };
    assert_eq!(model(0).viterbi(&no_state), NEG_INFINITY);
}

#[test]
fn logarithms_add_within_their_range() {
    assert_eq!(log_add(-3, -4), -7);
    assert_eq!(log_add(NEG_INFINITY, 5), NEG_INFINITY);
    assert_eq!(log_add(5, NEG_INFINITY), NEG_INFINITY);
    assert_eq!(log_add(i64::MAX, 1), i64::MAX);
    assert_eq!(log_add(NEG_INFINITY + 1, -1), NEG_INFINITY + 1);
    assert_eq!(log_div(7, 2), 3);
    assert_eq!(log_div(-7, 2), -4);
    assert_eq!(log_div(-8, 2), -4);
    assert_eq!(log_div(0, 5), 0);
    assert_eq!(log_div(i64::MIN, 1), i64::MIN);
    assert_eq!(log_div(-1, usize::MAX), -1);
}

#[test]
fn classification_takes_the_first_best_score() {
    assert_eq!(classify(&vec![-5, -3, -3]), Some(1));
    assert_eq!(classify(&vec![NEG_INFINITY]), Some(0));
    assert_eq!(classify(&vec![]), None);
}

#[test]
fn normalizing_totals_the_mass() {
    let mut hmm = model(2);
    hmm.trans = vec![1, 3, 0, 0];
    hmm.start = vec![2, 5];
    hmm.stop = vec![0, 1];
    hmm.normalize_transitions();
    assert_eq!(hmm.trans_total, vec![4, 0]);
    assert_eq!(hmm.start_total, 7);
    assert_eq!(hmm.stop_total, 1);
    assert_eq!(hmm.trans, vec![1, 3, 0, 0]);
    // a second time changes nothing
    hmm.normalize_transitions();
    assert_eq!(hmm.trans_total, vec![4, 0]);
    hmm.trans = vec![u64::MAX, 1, 0, 0];
    hmm.normalize_transitions();
    assert_eq!(hmm.trans_total, vec![u64::MAX, 0]);
}
