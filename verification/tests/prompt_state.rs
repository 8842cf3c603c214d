use caplike::archive::Archive;
use caplike::catalog::group_archives;
use caplike::prompt::{DisambiguationPrompt, KeyInput, ListSelection};

fn construct_archive_groups() -> Vec<Vec<Archive>> {
    vec![
        vec![
            Archive::from_file_name("xyz-20240101.zip").unwrap(),
            Archive::from_file_name("xyz-20240201.zip").unwrap(),
            Archive::from_file_name("xyz-20240301.zip").unwrap(),
        ],
        vec![
            Archive::from_file_name("thing-abc-123-20240101.zip").unwrap(),
            Archive::from_file_name("thing-abc-123-20240102.zip").unwrap(),
        ],
    ]
}

fn selections(p: &DisambiguationPrompt) -> Vec<Option<usize>> {
    (0..p.group_count()).map(|i| p.list_selection(i).selected).collect()
}

#[test]
fn new_selects_the_first_row_of_the_first_group() {
    let groups = construct_archive_groups();
    let refs: Vec<Vec<&Archive>> = groups.iter().map(|g| g.iter().collect()).collect();
    let prompt = DisambiguationPrompt::new(refs);
    assert_eq!(selections(&prompt), vec![Some(0), None]);
    assert_eq!(prompt.longest_base_name(), "thing-abc-123-20240101".len());
    assert_eq!(prompt.group_title(1), "thing-abc-123");
    assert_eq!(prompt.group_items(0), vec!["xyz-20240101", "xyz-20240201", "xyz-20240301"]);
    assert_eq!(prompt.group_heights(), vec![7, 6]);
    assert_eq!(prompt.content_width(80), 29);
    assert_eq!(prompt.selected_archive().unwrap().base_name(), "xyz-20240101");
}

#[test]
fn down_then_up_comes_back() {
    let groups = construct_archive_groups();
    let refs: Vec<Vec<&Archive>> = groups.iter().map(|g| g.iter().collect()).collect();
    let mut prompt = DisambiguationPrompt::new(refs);
    assert!(!prompt.handle_input(&KeyInput::Char('j')));
    assert_eq!(selections(&prompt), vec![Some(1), None]);
    assert!(!prompt.handle_input(&KeyInput::Char('k')));
    assert_eq!(selections(&prompt), vec![Some(0), None]);
    assert!(!prompt.handle_input(&KeyInput::Down));
    assert!(!prompt.handle_input(&KeyInput::Up));
    assert_eq!(selections(&prompt), vec![Some(0), None]);
}

#[test]
fn down_past_a_group_goes_on_into_the_next() {
    let groups = construct_archive_groups();
    let refs: Vec<Vec<&Archive>> = groups.iter().map(|g| g.iter().collect()).collect();
    let mut prompt = DisambiguationPrompt::new(refs);
    prompt.handle_input(&KeyInput::Char('j'));
    prompt.handle_input(&KeyInput::Char('j'));
    assert_eq!(selections(&prompt), vec![Some(2), None]);
    // The next group is looked at after the move, so the selection lands on
    // its second row.
    prompt.handle_input(&KeyInput::Char('j'));
    assert_eq!(selections(&prompt), vec![None, Some(1)]);
    // At the last row of the last group, down does nothing.
    prompt.handle_input(&KeyInput::Char('j'));
    assert_eq!(selections(&prompt), vec![None, Some(1)]);
    assert_eq!(
        prompt.selected_archive().unwrap().base_name(),
        "thing-abc-123-20240102"
    );
}

#[test]
fn up_past_a_group_selects_the_last_row_before() {
    let groups = construct_archive_groups();
    let refs: Vec<Vec<&Archive>> = groups.iter().map(|g| g.iter().collect()).collect();
    let mut prompt = DisambiguationPrompt::new(refs);
    prompt.set_list_selection(0, ListSelection { selected: None, offset: 0 });
    prompt.set_list_selection(1, ListSelection { selected: Some(0), offset: 0 });
    prompt.handle_input(&KeyInput::Up);
    assert_eq!(selections(&prompt), vec![Some(usize::MAX), None]);
    // Drawing the list moves the selection to its last row.
    prompt.set_list_selection(0, ListSelection { selected: Some(2), offset: 0 });
    assert_eq!(prompt.selected_archive().unwrap().base_name(), "xyz-20240301");
    // Up at the first row of the first group does nothing.
    prompt.set_list_selection(0, ListSelection { selected: Some(0), offset: 0 });
    prompt.handle_input(&KeyInput::Char('k'));
    assert_eq!(selections(&prompt), vec![Some(0), None]);
}

#[test]
fn quit_clears_and_enter_accepts() {
    let groups = construct_archive_groups();
    let refs: Vec<Vec<&Archive>> = groups.iter().map(|g| g.iter().collect()).collect();
    let mut prompt = DisambiguationPrompt::new(refs);
    assert!(!prompt.handle_input(&KeyInput::Char('x')));
    assert!(!prompt.handle_input(&KeyInput::Other));
    assert_eq!(selections(&prompt), vec![Some(0), None]);
    assert!(prompt.handle_input(&KeyInput::Enter));
    assert_eq!(selections(&prompt), vec![Some(0), None]);
    assert!(prompt.handle_input(&KeyInput::Char('q')));
    assert_eq!(selections(&prompt), vec![None, None]);
    assert!(prompt.selected_archive().is_none());
}

#[test]
fn list_selection_moves_like_a_list_state() {
    let mut s = ListSelection::new();
    s.select_next();
    assert_eq!(s.selected, Some(0));
    s.select_next();
    assert_eq!(s.selected, Some(1));
    s.select_previous();
    s.select_previous();
    assert_eq!(s.selected, Some(0));
    s.offset = 3;
    s.select_last();
    assert_eq!(s, ListSelection { selected: Some(usize::MAX), offset: 3 });
    s.select_next();
    assert_eq!(s.selected, Some(usize::MAX));
    s.select(None);
    assert_eq!(s, ListSelection { selected: None, offset: 0 });
    s.select_previous();
    assert_eq!(s.selected, Some(usize::MAX));
    s.select_first();
    assert_eq!(s.selected, Some(0));
}

#[test]
fn prompts_from_grouped_archives() {
    let archives = vec![
        Archive::from_file_name("a-v1.zip").unwrap(),
        Archive::from_file_name("b-v1.zip").unwrap(),
    ];
    let mut prompt = DisambiguationPrompt::new(group_archives(&archives));
    assert!(prompt.down_key_defined());
    prompt.handle_input(&KeyInput::Down);
    assert_eq!(selections(&prompt), vec![None, Some(0)]);
    let empty = DisambiguationPrompt::new(vec![Vec::new(), Vec::new()]);
    assert!(!empty.down_key_defined());
    assert!(DisambiguationPrompt::new(Vec::new()).selected_archive().is_none());
}

#[test]
fn every_key_but_quit_keeps_one_selection() {
    let groups = construct_archive_groups();
    let refs: Vec<Vec<&Archive>> = groups.iter().map(|g| g.iter().collect()).collect();
    let mut prompt = DisambiguationPrompt::new(refs);
    let keys = [
        KeyInput::Down, KeyInput::Down, KeyInput::Down, KeyInput::Down, KeyInput::Up,
        KeyInput::Up, KeyInput::Char('x'), KeyInput::Enter, KeyInput::Up,
    ];
    for key in keys {
        prompt.handle_input(&key);
        let selected: Vec<Option<usize>> = selections(&prompt).into_iter().filter(|s| s.is_some()).collect();
        assert_eq!(selected.len(), 1);
    }
}
