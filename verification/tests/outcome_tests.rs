use site_policy::outcome::{delete_outcome, upsert_outcome, DeleteOutcome, PolicyError, PutOutcome};

#[test]
fn upsert_of_a_new_site_is_created() {
    assert_eq!(upsert_outcome(false, 0), Ok(PutOutcome::Created));
    assert_eq!(upsert_outcome(false, 1), Ok(PutOutcome::Created));
}

#[test]
fn upsert_of_an_existing_site_is_replaced() {
    assert_eq!(upsert_outcome(true, 1), Ok(PutOutcome::Replaced));
}

#[test]
fn upsert_touching_several_rows_is_a_consistency_failure() {
    assert_eq!(upsert_outcome(true, 2), Err(PolicyError::Consistency(2)));
    assert_eq!(upsert_outcome(false, 5), Err(PolicyError::Consistency(5)));
}

#[test]
fn delete_of_nothing_is_not_found() {
    assert_eq!(delete_outcome(0), Ok(DeleteOutcome::NotFound));
}

#[test]
fn delete_of_one_row_is_deleted() {
    assert_eq!(delete_outcome(1), Ok(DeleteOutcome::Deleted));
}

#[test]
fn delete_of_several_rows_is_a_consistency_failure() {
    assert_eq!(delete_outcome(3), Err(PolicyError::Consistency(3)));
}
