use nmuidi::nmuidi::Action;
use nmuidi::prelude::Cleaner;

#[test]
fn test_prelude_cleaner_runs() {
    let mut cleaner = Cleaner::new("tmp/prelude-missing-path");
    cleaner.threads = 4;
    let plan = cleaner.clean();
    for (_, action) in &plan.actions {
        assert_eq!(*action, Action::Skip);
    }
    assert!(plan.dir_groups.is_empty());
}
