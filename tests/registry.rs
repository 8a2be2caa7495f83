use goto::controller::{Controller, KeyEvent, Request};
use goto::tasks::{Task, TaskList};

fn task(wid: u32) -> Task {
    Task::new(wid, format!("window {wid}"), (format!("inst{wid}"), format!("Class{wid}")))
}

fn ids(list: &TaskList) -> Vec<u32> {
    list.list_ascending().0.iter().map(|t| t.wid).collect()
}

fn selected_id(list: &TaskList) -> Option<u32> {
    list.selected().map(|t| t.wid)
}

fn registry(wids: &[u32]) -> TaskList {
    let mut list = TaskList::new();
    for &w in wids {
        list.track(task(w));
    }
    list
}

#[test]
fn reconcile_into_empty_registry() {
    let mut list = TaskList::new();
    let wids = vec![5, 9];
    assert_eq!(list.untracked(&wids), vec![5, 9]);
    list.diff_update(&wids, vec![task(5), task(9)]);
    assert_eq!(list.len(), 2);
    assert_eq!(ids(&list), vec![5, 9]);
    assert_eq!(selected_id(&list), None);
}

#[test]
fn select_next_starts_at_newest_then_wraps() {
    let mut list = registry(&[5, 9]);
    list.select_older();
    assert_eq!(selected_id(&list), Some(9));
    list.select_older();
    assert_eq!(selected_id(&list), Some(5));
}

#[test]
fn select_previous_starts_at_newest_then_wraps() {
    let mut list = registry(&[5, 9]);
    list.select_newer();
    assert_eq!(selected_id(&list), Some(9));
    list.select_newer();
    assert_eq!(selected_id(&list), Some(5));
}

#[test]
fn commit_of_newest_changes_nothing() {
    let mut list = registry(&[5, 9]);
    list.select_end();
    assert_eq!(selected_id(&list), Some(9));
    list.focus_by_selection();
    assert_eq!(ids(&list), vec![5, 9]);
    assert_eq!(selected_id(&list), Some(9));
    assert_eq!(list.list_ascending().1, Some(1));
}

#[test]
fn commit_moves_selected_to_newest() {
    let mut list = registry(&[9, 5]);
    list.select_older();
    list.select_older();
    assert_eq!(list.list_ascending().1, Some(0));
    assert_eq!(selected_id(&list), Some(9));
    list.focus_by_selection();
    assert_eq!(ids(&list), vec![5, 9]);
    assert_eq!(list.list_ascending().1, Some(1));
}

#[test]
fn commit_keeps_other_order_and_ids() {
    let mut list = registry(&[1, 2, 3, 4]);
    list.select_end();
    list.select_older();
    list.select_older();
    assert_eq!(selected_id(&list), Some(2));
    list.focus_by_selection();
    assert_eq!(ids(&list), vec![1, 3, 4, 2]);
    assert_eq!(selected_id(&list), Some(2));
}

#[test]
fn reconcile_removal_clamps_selection() {
    let mut list = registry(&[5, 9]);
    list.select_end();
    assert_eq!(list.list_ascending().1, Some(1));
    list.diff_update(&vec![5], vec![]);
    assert_eq!(ids(&list), vec![5]);
    assert_eq!(list.list_ascending().1, Some(0));
}

#[test]
fn reconcile_removing_all_clears_selection() {
    let mut list = registry(&[5, 9]);
    list.select_end();
    list.diff_update(&vec![], vec![]);
    assert!(list.is_empty());
    assert_eq!(list.list_ascending().1, None);
}

#[test]
fn reconcile_is_idempotent() {
    let mut list = registry(&[1, 2, 3]);
    list.select_end();
    let wids = vec![3, 4, 2, 7];
    list.diff_update(&wids, vec![task(4), task(7)]);
    let once = ids(&list);
    let sel = list.list_ascending().1;
    assert_eq!(once, vec![2, 3, 4, 7]);
    list.diff_update(&wids, vec![task(4), task(7)]);
    assert_eq!(ids(&list), once);
    assert_eq!(list.list_ascending().1, sel);
    assert!(list.untracked(&wids).is_empty());
}

#[test]
fn reconcile_skips_duplicates_and_unlisted() {
    let mut list = registry(&[1]);
    list.diff_update(&vec![1, 2], vec![task(2), task(2), task(1), task(8)]);
    assert_eq!(ids(&list), vec![1, 2]);
}

#[test]
fn track_ignores_known_window() {
    let mut list = registry(&[1, 2]);
    list.track(task(2));
    assert_eq!(ids(&list), vec![1, 2]);
    list.untrack(1);
    assert_eq!(ids(&list), vec![2]);
    list.untrack(42);
    assert_eq!(ids(&list), vec![2]);
}

#[test]
fn next_then_previous_restores_selection() {
    for n in 1..5u32 {
        let wids: Vec<u32> = (1..=n).collect();
        for start in 0..n {
            let mut list = registry(&wids);
            list.select_end();
            for _ in 0..start {
                list.select_older();
            }
            let before = list.list_ascending().1;
            list.select_older();
            list.select_newer();
            assert_eq!(list.list_ascending().1, before);
            list.select_newer();
            list.select_older();
            assert_eq!(list.list_ascending().1, before);
        }
    }
}

#[test]
fn single_task_selection_moves_are_no_ops() {
    let mut list = registry(&[3]);
    list.select_end();
    list.select_older();
    assert_eq!(list.list_ascending().1, Some(0));
    list.select_newer();
    assert_eq!(list.list_ascending().1, Some(0));
}

#[test]
fn descending_view_reverses_order_and_selection() {
    let mut list = registry(&[1, 2, 3]);
    list.select_end();
    list.select_older();
    let (desc, sel) = list.list_descending();
    let d: Vec<u32> = desc.iter().map(|t| t.wid).collect();
    assert_eq!(d, vec![3, 2, 1]);
    assert_eq!(sel, Some(1));
    assert_eq!(desc[sel.unwrap()].wid, 2);
}

#[test]
fn update_title_and_lookup() {
    let mut list = registry(&[1, 2]);
    list.update_title(2, "renamed".to_string());
    assert_eq!(list.get_task_by_id(2).unwrap().title, "renamed");
    assert_eq!(list.get_task_by_id(1).unwrap().title, "window 1");
    list.update_title(9, "nobody".to_string());
    assert!(list.get_task_by_id(9).is_none());
    assert!(list.contains(1));
    assert!(!list.contains(9));
}

#[test]
fn focus_by_wid_moves_task() {
    let mut list = registry(&[1, 2, 3]);
    list.focus_by_wid(1);
    assert_eq!(ids(&list), vec![2, 3, 1]);
    assert_eq!(selected_id(&list), Some(1));
    list.focus_by_wid(77);
    assert_eq!(ids(&list), vec![2, 3, 1]);
    list.unfocus();
    assert_eq!(selected_id(&list), None);
    list.focus_by_index(5);
    assert_eq!(ids(&list), vec![2, 3, 1]);
}

#[test]
fn tasks_equal_by_window() {
    let a = Task::new(4, "a".to_string(), ("x".to_string(), "y".to_string()));
    let b = Task::new(4, "b".to_string(), ("z".to_string(), "w".to_string()));
    assert!(a == b);
    assert!(a != task(5));
}

#[test]
fn controller_cycle_and_commit() {
    let mut list = registry(&[5, 9]);
    let mut ctl = Controller::new();
    assert_eq!(ctl.on_key(&mut list, KeyEvent::Next), Request::Nothing);
    assert!(ctl.mapped);
    assert!(ctl.dirty.focus);
    assert_eq!(selected_id(&list), Some(9));
    ctl.on_key(&mut list, KeyEvent::Next);
    assert_eq!(selected_id(&list), Some(5));
    assert_eq!(ctl.on_key(&mut list, KeyEvent::Kill), Request::Close(5));
    ctl.begin_cycle();
    ctl.on_close_result(false);
    assert!(!ctl.dirty.size);
    ctl.on_close_result(true);
    assert!(ctl.dirty.size && ctl.dirty.focus);
    assert_eq!(ctl.on_key(&mut list, KeyEvent::ModifierReleased), Request::Focus(5));
    assert!(!ctl.mapped);
    ctl.on_focus_result(&mut list, false);
    assert_eq!(ids(&list), vec![5, 9]);
    ctl.on_focus_result(&mut list, true);
    assert_eq!(ids(&list), vec![9, 5]);
    assert_eq!(selected_id(&list), Some(5));
    assert_eq!(ctl.on_key(&mut list, KeyEvent::ModifierReleased), Request::Nothing);
}

#[test]
fn controller_quit_and_draw_decision() {
    let mut list = registry(&[1, 2, 3]);
    let mut ctl = Controller::new();
    ctl.begin_cycle();
    assert!(!ctl.should_draw(&list));
    ctl.on_key(&mut list, KeyEvent::Prev);
    assert!(ctl.should_draw(&list));
    assert_eq!(ctl.on_key(&mut list, KeyEvent::Kill), Request::Close(3));
    ctl.on_key(&mut list, KeyEvent::Next);
    ctl.on_key(&mut list, KeyEvent::Quit { active: true });
    assert!(!ctl.mapped);
    assert_eq!(selected_id(&list), Some(3));
    ctl.on_key(&mut list, KeyEvent::Prev);
    ctl.on_key(&mut list, KeyEvent::Quit { active: false });
    assert_eq!(selected_id(&list), None);
    assert_eq!(ctl.on_key(&mut list, KeyEvent::Kill), Request::Nothing);
    ctl.begin_cycle();
    ctl.on_key(&mut list, KeyEvent::Next);
    assert!(!ctl.on_geometry(false));
    assert!(!ctl.mapped);
    ctl.on_expose();
    assert!(ctl.dirty.window);
}

#[test]
fn controller_events_update_registry() {
    let mut list = TaskList::new();
    let mut ctl = Controller::new();
    ctl.on_client_list(&mut list, &vec![5, 9], vec![task(5), task(9)]);
    assert!(ctl.dirty.size && ctl.dirty.focus);
    ctl.begin_cycle();
    ctl.on_client_list(&mut list, &vec![5, 9], vec![]);
    assert!(!ctl.dirty.size);
    ctl.on_active_window(&mut list, Some(5));
    assert_eq!(ids(&list), vec![9, 5]);
    assert_eq!(selected_id(&list), Some(5));
    ctl.on_active_window(&mut list, None);
    assert_eq!(selected_id(&list), None);
    ctl.on_title(&mut list, 9, "new".to_string());
    assert!(ctl.dirty.title);
    assert_eq!(list.get_task_by_id(9).unwrap().title, "new");
    ctl.on_icons_changed();
    assert!(ctl.dirty.icons);
    assert!(ctl.on_geometry(true));
    assert!(ctl.dirty.window);
}
