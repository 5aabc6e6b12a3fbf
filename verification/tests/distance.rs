use tasktrack::model::Task;
use tasktrack::sort::get_min_distance_from_words;
use tasktrack::sort::min_of_three;
use tasktrack::sort::sort_by_score;
use tasktrack::sort::wagner_fisher;

#[test]
fn test_wagner_fisher() {
    let distance = wagner_fisher("Sunday", "Saturday");
    assert_eq!(distance, 3);
}

#[test]
fn test_sorting() {
    let task1 = Task::new("hello world", None, None);
    let tasks: Vec<Task> = vec![
        task1.clone(),
        Task::new(
            "There is no target in the name",
            Some("we are helping everyone in hell"),
            None,
        ),
        Task::new("help is hello", None, None),
    ];
    let term = "help";
    let sorted = sort_by_score(tasks, term);
    let target_names = vec!["help is hello", "There is no target in the name", "hello world"];
    for i in 0..3 {
        assert_eq!(sorted[i].name, target_names[i])
    }
    assert_eq!(task1, sorted[2])
}

#[test]
fn distance_of_string_to_itself_is_zero() {
    assert_eq!(wagner_fisher("kitten", "kitten"), 0);
    assert_eq!(wagner_fisher("", ""), 0);
    assert_eq!(wagner_fisher("a task name", "a task name"), 0);
}

#[test]
fn distance_to_empty_is_length() {
    assert_eq!(wagner_fisher("kitten", ""), 6);
    assert_eq!(wagner_fisher("", "kitten"), 6);
    assert_eq!(wagner_fisher("x", ""), 1);
}

#[test]
fn distance_is_symmetric_on_examples() {
    assert_eq!(wagner_fisher("Sunday", "Saturday"), wagner_fisher("Saturday", "Sunday"));
    assert_eq!(wagner_fisher("hell", "lo"), wagner_fisher("lo", "hell"));
    assert_eq!(wagner_fisher("abc", ""), wagner_fisher("", "abc"));
}

#[test]
fn min_of_three_picks_least() {
    assert_eq!(min_of_three(3, 1, 2), 1);
    assert_eq!(min_of_three(1, 1, 5), 1);
    assert_eq!(min_of_three(7, 6, 5), 5);
}

#[test]
fn exact_token_match_scores_zero() {
    assert_eq!(get_min_distance_from_words("help is hello", "help"), 0);
    assert_eq!(get_min_distance_from_words("help is hello", "HELP"), 0);
    assert_eq!(get_min_distance_from_words("we are Helping", "helping"), 0);
}

#[test]
fn empty_field_scores_sentinel() {
    assert_eq!(get_min_distance_from_words("", "help"), usize::MAX);
    assert_eq!(get_min_distance_from_words("   ", "help"), usize::MAX);
}

#[test]
fn sorted_scores_are_non_decreasing() {
    let tasks: Vec<Task> = vec![
        Task::new("zebra", None, None),
        Task::new("help", None, None),
        Task::new("hello world", Some("nothing near"), None),
        Task::new("", None, None),
        Task::new("hel", None, None),
    ];
    let term = "help";
    let sorted = sort_by_score(tasks, term);
    let score = |t: &Task| {
        let a = get_min_distance_from_words(&t.name, term);
        let b = get_min_distance_from_words(&t.description, term);
        if a < b {
            a
        } else {
            b
        }
    };
    for i in 1..sorted.len() {
        assert!(score(&sorted[i - 1]) <= score(&sorted[i]));
    }
    assert_eq!(sorted[0].name, "help");
    assert_eq!(sorted[sorted.len() - 1].name, "");
}

#[test]
fn tokenless_task_sorts_last() {
    let tasks: Vec<Task> = vec![
        Task::new("", None, None),
        Task::new("anything", None, None),
    ];
    let sorted = sort_by_score(tasks, "anything");
    assert_eq!(sorted[0].name, "anything");
    assert_eq!(sorted[1].name, "");
}
