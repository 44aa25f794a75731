//! The issue dashboard: submitting, solving, and solving by filter.

use sparse::{all_issues, clear, solve, solve_by_filter, submit, Code, Dashboard, Issue};

const DUMMY_ISSUE: u64 = 1;

#[derive(Clone)]
struct DummyIssue {
    distinctive: String,
}

impl DummyIssue {
    fn new(distinctive: &str) -> Self {
        DummyIssue { distinctive: distinctive.to_string() }
    }
}

impl Issue for DummyIssue {
    fn code(&self) -> Code {
        Code::new(DUMMY_ISSUE, self.distinctive.clone())
    }

    fn description(&self) -> String {
        self.distinctive.clone()
    }
}

#[test]
fn test_dashboard() {
    let mut dashboard = Dashboard::default();
    let issue = DummyIssue::new("test");
    assert!(submit(&mut dashboard, issue.clone()));
    assert!(!submit(&mut dashboard, issue.clone()));
    assert!(solve(&mut dashboard, &issue.code()));
    assert!(!solve(&mut dashboard, &issue.code()));
}

#[test]
fn test_solve_by_filter() {
    let mut dashboard = Dashboard::new();
    clear(&mut dashboard);

    submit(&mut dashboard, DummyIssue::new("my_collection:issue1"));
    submit(&mut dashboard, DummyIssue::new("my_collection:issue2"));
    submit(&mut dashboard, DummyIssue::new("my_collection:issue3"));
    submit(&mut dashboard, DummyIssue::new("my_other_collection:issue2"));
    submit(&mut dashboard, DummyIssue::new("my_other_collection:issue2"));
    submit(&mut dashboard, DummyIssue::new("issue2"));
    submit(&mut dashboard, DummyIssue::new("issue3"));

    // solve all dummy issues whose code mentions "my_collection"
    solve_by_filter(&mut dashboard, DUMMY_ISSUE, |code: &Code| {
        code.distinctive.contains("my_collection")
    });
    assert_eq!(all_issues(&dashboard).len(), 3);
    assert!(solve(&mut dashboard, &Code::new(DUMMY_ISSUE, "issue2".to_string())));
}

#[test]
fn test_submit_many() {
    let mut dashboard = Dashboard::new();
    for name in ["issue1", "issue2", "issue3", "issue4", "issue5", "issue6"] {
        assert!(submit(&mut dashboard, DummyIssue::new(name)));
    }
    assert_eq!(all_issues(&dashboard).len(), 6);
    for name in ["issue1", "issue2", "issue3", "issue4", "issue5", "issue6"] {
        assert!(solve(&mut dashboard, &DummyIssue::new(name).code()));
    }
    clear(&mut dashboard);
    assert_eq!(all_issues(&dashboard).len(), 0);
}
