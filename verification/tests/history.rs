use rustmap::history::History;

#[test]
fn fresh_history_has_nothing_to_undo_or_redo() {
    let mut history = History::new(vec![1, 2, 3]);
    assert_eq!(history.undo_len(), 0);
    assert_eq!(history.redo_len(), 0);
    assert_eq!(history.undo(), None);
    assert_eq!(history.redo(), None);
    assert_eq!(history.undo_len(), 0);
    assert_eq!(history.redo_len(), 0);
}

#[test]
fn undo_returns_the_state_before_the_commit() {
    let mut history = History::new(vec![0, 0]);
    history.update(vec![1, 0]);
    history.update(vec![1, 2]);
    assert_eq!(history.undo(), Some(vec![1, 0]));
    assert_eq!(history.undo_len(), 1);
    assert_eq!(history.redo_len(), 1);
}

#[test]
fn undo_of_the_only_commit_returns_the_first_state() {
    let mut history = History::new(vec![9, 9]);
    history.update(vec![1, 0]);
    assert_eq!(history.undo(), Some(vec![9, 9]));
    assert_eq!(history.undo_len(), 0);
    assert_eq!(history.redo_len(), 1);
    assert_eq!(history.undo(), None);
    assert_eq!(history.redo_len(), 1);
}

#[test]
fn undos_then_redos_walk_the_commits_in_order() {
    let init = vec![0u8, 0, 0];
    let commits = vec![vec![1u8, 0, 0], vec![1, 2, 0], vec![1, 2, 3]];
    let mut history = History::new(init.clone());
    for state in commits.iter() {
        history.update(state.clone());
    }
    assert_eq!(history.undo_len(), 3);
    assert_eq!(history.undo(), Some(commits[1].clone()));
    assert_eq!(history.undo(), Some(commits[0].clone()));
    assert_eq!(history.undo(), Some(init.clone()));
    assert_eq!(history.undo(), None);
    assert_eq!(history.undo_len(), 0);
    assert_eq!(history.redo_len(), 3);
    assert_eq!(history.redo(), Some(commits[0].clone()));
    assert_eq!(history.redo(), Some(commits[1].clone()));
    assert_eq!(history.redo(), Some(commits[2].clone()));
    assert_eq!(history.redo(), None);
    assert_eq!(history.undo_len(), 3);
    assert_eq!(history.redo_len(), 0);
    assert_eq!(history.undo(), Some(commits[1].clone()));
}

#[test]
fn a_commit_clears_what_could_be_redone() {
    let mut history = History::new(vec![0]);
    history.update(vec![1]);
    history.update(vec![2]);
    assert_eq!(history.undo(), Some(vec![1]));
    assert_eq!(history.redo_len(), 1);
    history.update(vec![3]);
    assert_eq!(history.redo_len(), 0);
    assert_eq!(history.redo(), None);
    assert_eq!(history.undo_len(), 2);
    assert_eq!(history.undo(), Some(vec![1]));
    assert_eq!(history.redo(), Some(vec![3]));
}

#[test]
fn equal_states_are_committed_one_by_one() {
    let mut history = History::new(vec![5]);
    history.update(vec![5]);
    history.update(vec![5]);
    assert_eq!(history.undo_len(), 2);
    assert_eq!(history.undo(), Some(vec![5]));
    assert_eq!(history.undo(), Some(vec![5]));
    assert_eq!(history.undo(), None);
}
