use gtav_saveload::command::{profile_steps, Request, Step};
use gtav_saveload::naming::{dated_slot_name, latest_name, name_less, new_dated_slot_name};
use gtav_saveload::scan::{
    contains, find_matching, list_name_contains, list_save_files, starts_with, Entry, EntryKind,
    NameRule,
};
use gtav_saveload::slots::{find_newest_slot, parse_rank, rank_newest_first, SlotEntry};
use gtav_saveload::transfer::{clear_save_files, copy_save_files, Action};

fn file(name: &str) -> Entry {
    Entry { name: name.to_string(), kind: EntryKind::File }
}

fn dir(name: &str) -> Entry {
    Entry { name: name.to_string(), kind: EntryKind::Dir }
}

fn slot(name: &str, modified: i128) -> SlotEntry {
    SlotEntry { name: name.to_string(), modified }
}

/// Carries out a plan on in-memory directories of file names.
fn carry_out(from: &[String], to: &mut Vec<String>, actions: Vec<Action>) {
    for action in actions {
        match action {
            Action::Delete(name) => {
                let pos = to.iter().position(|n| *n == name).expect("deleted file exists");
                to.remove(pos);
            }
            Action::Copy(name) => {
                assert!(from.contains(&name), "copied file exists in the source");
                if !to.contains(&name) {
                    to.push(name);
                }
            }
        }
    }
}

fn listing(names: &[String]) -> Vec<Entry> {
    names.iter().map(|n| file(n)).collect()
}

fn strings(names: &[&str]) -> Vec<String> {
    names.iter().map(|n| n.to_string()).collect()
}

#[test]
fn save_files_are_files_with_the_marker() {
    let entries = vec![
        file("SGTA50000"),
        file("notes.txt"),
        dir("SGTA_backup"),
        file("SGTA"),
        file("xSGTA1"),
        file("SGT"),
        Entry { name: "SGTA9".to_string(), kind: EntryKind::Other },
        file("SGTA50000.bak"),
    ];
    assert_eq!(list_save_files(&entries), strings(&["SGTA50000", "SGTA", "SGTA50000.bak"]));
}

#[test]
fn save_file_listing_of_empty_directory_is_empty() {
    assert!(list_save_files(&Vec::new()).is_empty());
}

#[test]
fn directories_by_contained_name() {
    let entries = vec![dir("Mission 12"), file("Mission 14"), dir("Heist 3"), dir("mission 2"), dir("Final Mission")];
    assert_eq!(list_name_contains(&entries, "Mission"), strings(&["Mission 12", "Final Mission"]));
    assert_eq!(list_name_contains(&entries, ""), strings(&["Mission 12", "Heist 3", "mission 2", "Final Mission"]));
    assert!(list_name_contains(&entries, "Missions galore").is_empty());
}

#[test]
fn any_rule_keeps_every_entry_of_the_kind() {
    let entries = vec![dir("b"), file("a"), dir("c")];
    assert_eq!(find_matching(&entries, EntryKind::Dir, &NameRule::Any), strings(&["b", "c"]));
    assert_eq!(find_matching(&entries, EntryKind::File, &NameRule::Any), strings(&["a"]));
}

#[test]
fn prefix_and_infix_tests() {
    assert!(starts_with("SGTA001", "SGTA"));
    assert!(!starts_with("SGT", "SGTA"));
    assert!(starts_with("anything", ""));
    assert!(contains("dated-2020", "-20"));
    assert!(contains("abc", "abc"));
    assert!(!contains("ab", "abc"));
    assert!(!contains("aXbXc", "bc"));
    assert!(contains("ééa", "éa"));
}

#[test]
fn clear_deletes_every_save_file_and_nothing_else() {
    let mut profile = strings(&["SGTA001", "SGTA002", "SGTA003", "cfg.dat"]);
    let actions = clear_save_files(&listing(&profile));
    assert_eq!(actions.len(), 3);
    let empty: Vec<String> = Vec::new();
    carry_out(&empty, &mut profile, actions);
    assert_eq!(profile, strings(&["cfg.dat"]));
    assert!(list_save_files(&listing(&profile)).is_empty());
}

#[test]
fn clear_on_profile_without_save_files_does_nothing() {
    assert!(clear_save_files(&listing(&strings(&["cfg.dat"]))).is_empty());
}

#[test]
fn transfer_deletes_first_then_copies() {
    let from = vec![file("SGTA001"), file("readme"), file("SGTA007")];
    let to = vec![file("SGTA002"), file("other")];
    match copy_save_files(&from, &to).as_slice() {
        [Action::Delete(a), Action::Copy(b), Action::Copy(c)] => {
            assert_eq!(a, "SGTA002");
            assert_eq!(b, "SGTA001");
            assert_eq!(c, "SGTA007");
        }
        _ => panic!("unexpected plan"),
    }
}

#[test]
fn transfer_mirrors_source_save_files() {
    let source = strings(&["SGTA001", "SGTA003", "profile.cfg"]);
    let mut dest = strings(&["SGTA001", "SGTA002", "keep.me"]);
    let actions = copy_save_files(&listing(&source), &listing(&dest));
    carry_out(&source, &mut dest, actions);
    let mut saves = list_save_files(&listing(&dest));
    saves.sort();
    assert_eq!(saves, strings(&["SGTA001", "SGTA003"]));
    assert!(dest.contains(&"keep.me".to_string()));
    assert!(!dest.contains(&"profile.cfg".to_string()));
}

#[test]
fn save_then_load_restores_both_files() {
    let profile = strings(&["SGTA001", "SGTA002"]);
    let mut slot1: Vec<String> = Vec::new();
    let save = copy_save_files(&listing(&profile), &listing(&slot1));
    carry_out(&profile, &mut slot1, save);
    assert_eq!(slot1, profile);

    let mut empty_profile: Vec<String> = Vec::new();
    let load = copy_save_files(&listing(&slot1), &listing(&empty_profile));
    carry_out(&slot1, &mut empty_profile, load);
    assert_eq!(empty_profile, strings(&["SGTA001", "SGTA002"]));
}

#[test]
fn ranking_is_newest_first_and_stable() {
    let ranked = rank_newest_first(vec![slot("a", 5), slot("b", 9), slot("c", 5), slot("d", -3), slot("e", 9)]);
    let names: Vec<&str> = ranked.iter().map(|s| s.name.as_str()).collect();
    assert_eq!(names, vec!["b", "e", "a", "c", "d"]);
}

#[test]
fn newest_slot_of_three() {
    let slots = || vec![slot("monday", 1_000), slot("wednesday", 3_000), slot("tuesday", 2_000)];
    assert_eq!(find_newest_slot(slots(), 0), Some("wednesday".to_string()));
    assert_eq!(find_newest_slot(slots(), 1), Some("tuesday".to_string()));
    assert_eq!(find_newest_slot(slots(), 2), Some("monday".to_string()));
}

#[test]
fn rank_past_the_last_slot_is_none() {
    let slots = vec![slot("a", 1), slot("b", 2), slot("c", 3)];
    assert_eq!(find_newest_slot(slots, 3), None);
    assert_eq!(find_newest_slot(Vec::new(), 0), None);
    assert_eq!(find_newest_slot(vec![slot("a", 1)], usize::MAX), None);
}

#[test]
fn rank_arguments() {
    assert_eq!(parse_rank("0"), Some(0));
    assert_eq!(parse_rank("42"), Some(42));
    assert_eq!(parse_rank("+7"), Some(7));
    assert_eq!(parse_rank("007"), Some(7));
    assert_eq!(parse_rank("18446744073709551615"), Some(18446744073709551615usize));
    assert_eq!(parse_rank("18446744073709551616"), None);
    assert_eq!(parse_rank("99999999999999999999999"), None);
    assert_eq!(parse_rank(""), None);
    assert_eq!(parse_rank("+"), None);
    assert_eq!(parse_rank("-1"), None);
    assert_eq!(parse_rank("1a"), None);
    assert_eq!(parse_rank(" 1"), None);
    assert_eq!(parse_rank("++1"), None);
}

#[test]
fn rank_arguments_agree_with_std() {
    for text in ["0", "12", "+3", "", "+", "-0", "x", "18446744073709551615", "18446744073709551616"] {
        assert_eq!(parse_rank(text), text.parse::<usize>().ok(), "{}", text);
    }
}

#[test]
fn name_order_is_lexicographic() {
    assert!(name_less("abc", "abd"));
    assert!(name_less("ab", "abc"));
    assert!(!name_less("abc", "ab"));
    assert!(!name_less("abc", "abc"));
    assert!(name_less("", "a"));
    assert!(name_less("Z", "a"));
    assert!(name_less("z", "é"));
}

#[test]
fn latest_save_file_directory_is_greatest_name() {
    let names = strings(&["Mission 02", "Mission 10", "Mission 09"]);
    assert_eq!(latest_name(&names), Some(1));
    assert_eq!(latest_name(&strings(&["b", "c", "a", "c"])), Some(1));
    assert_eq!(latest_name(&Vec::new()), None);
}

#[test]
fn dated_names() {
    assert_eq!(dated_slot_name("2020-01-02_030405"), "dated-2020-01-02_030405");
    let name = new_dated_slot_name();
    assert!(name.starts_with("dated-"));
    assert_ne!(name, "dated-%Y-%m-%d_%H%M%S");
    let stamp = &name["dated-".len()..];
    assert_eq!(stamp.len(), "2020-01-02_030405".len());
    for (i, c) in stamp.chars().enumerate() {
        match i {
            4 | 7 => assert_eq!(c, '-'),
            10 => assert_eq!(c, '_'),
            _ => assert!(c.is_ascii_digit()),
        }
    }
}

fn empty_request() -> Request {
    Request {
        save: None,
        load: None,
        load_save_file: None,
        save_dated: false,
        clear_profile: false,
        load_nth_newest_slot: None,
        delete_nth_newest_slot: None,
    }
}

#[test]
fn no_flags_no_steps() {
    assert!(profile_steps(&empty_request()).is_empty());
}

#[test]
fn every_flag_in_fixed_order() {
    let request = Request {
        save: Some("a".to_string()),
        load: Some("b".to_string()),
        load_save_file: Some("c".to_string()),
        save_dated: true,
        clear_profile: true,
        load_nth_newest_slot: Some("0".to_string()),
        delete_nth_newest_slot: Some("1".to_string()),
    };
    match profile_steps(&request).as_slice() {
        [Step::Save(a), Step::Load(b), Step::LoadSaveFile(c), Step::SaveDated, Step::ClearProfile, Step::LoadNthNewestSlot(l), Step::DeleteNthNewestSlot(d)] =>
        {
            assert_eq!((a.as_str(), b.as_str(), c.as_str(), l.as_str(), d.as_str()), ("a", "b", "c", "0", "1"));
        }
        _ => panic!("unexpected steps"),
    }
}

#[test]
fn combined_flags_keep_their_order() {
    let mut request = empty_request();
    request.clear_profile = true;
    request.save = Some("slot1".to_string());
    match profile_steps(&request).as_slice() {
        [Step::Save(s), Step::ClearProfile] => assert_eq!(s, "slot1"),
        _ => panic!("unexpected steps"),
    }
}
