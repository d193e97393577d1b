use i3_cycles::state::Cycles;
use std::time::Instant;

#[test]
fn test_special_character_workspace_names_unicode() {
    let mut cycles = Cycles::new();
    cycles.select_cycle("unicode_test".to_string());

    cycles.toggle("日本語".to_string());
    cycles.toggle("café".to_string());
    cycles.toggle("naïve".to_string());
    cycles.toggle("中文".to_string());
    cycles.toggle("العربية".to_string());
    cycles.toggle("Ελληνικά".to_string());

    let next1 = cycles.next();
    assert_eq!(next1, Some("naïve".to_string()));

    let cycle_data = cycles.cycle_data("unicode_test").unwrap();
    assert_eq!(cycle_data.len(), 6);
}

#[test]
fn test_special_character_workspace_names_symbols() {
    let mut cycles = Cycles::new();
    cycles.select_cycle("symbols_test".to_string());

    cycles.toggle("work@home".to_string());
    cycles.toggle("test#1".to_string());
    cycles.toggle("project[v2]".to_string());
    cycles.toggle("a/b/c".to_string());
    cycles.toggle("space here".to_string());
    cycles.toggle("dots...here".to_string());

    let next1 = cycles.next();
    assert_eq!(next1, Some("dots...here".to_string()));

    let removed = cycles.toggle("work@home".to_string());
    assert!(!removed);

    let still_has = cycles.cycle_data("symbols_test").unwrap().contains("work@home");
    assert!(!still_has);
}

#[test]
fn test_long_name_position_tracking() {
    let mut cycles = Cycles::new();
    cycles.select_cycle("long_pos".to_string());

    for i in 0..5 {
        cycles.toggle(format!("workspace_{}_{}", i, "x".repeat(100)));
    }

    for _i in 0..5 {
        let start = Instant::now();
        let next = cycles.next();
        let duration = start.elapsed();
        assert!(duration.as_millis() < 50, "Position tracking with long names too slow");
        assert!(next.is_some());
    }

    let cycle_data = cycles.cycle_data("long_pos").unwrap();
    assert_eq!(cycle_data.position(), 0);
}

#[test]
fn test_many_workspaces_performance_100() {
    let mut cycles = Cycles::new();
    cycles.select_cycle("stress_100".to_string());

    let start = Instant::now();
    for i in 0..100 {
        cycles.toggle(format!("workspace_{}", i));
    }
    let add_time = start.elapsed();
    assert!(add_time.as_millis() < 500, "Adding 100 workspaces took too long");

    let start = Instant::now();
    cycles.toggle("workspace_0".to_string());
    cycles.toggle("workspace_50".to_string());
    cycles.toggle("workspace_99".to_string());
    let toggle_time = start.elapsed();
    assert!(toggle_time.as_millis() < 100, "Toggle operations took too long");

    let start = Instant::now();
    for _ in 0..10 {
        cycles.next();
    }
    let next_time = start.elapsed();
    assert!(next_time.as_millis() < 50, "next() operations took too long");

    let start = Instant::now();
    let _cycles_list = cycles.list_cycles();
    let list_time = start.elapsed();
    assert!(list_time.as_millis() < 10, "list_cycles took too long");

    let cycle_data = cycles.cycle_data("stress_100").unwrap();
    assert_eq!(cycle_data.len(), 97);
}

#[test]
fn test_many_cycles_performance_100() {
    let mut cycles = Cycles::new();

    let start = Instant::now();
    for i in 0..100 {
        let cycle_name = format!("cycle_{:03}", i);
        cycles.select_cycle(cycle_name.clone());

        for j in 0..10 {
            cycles.toggle(format!("ws_{:03}_{}", i, j));
        }
    }
    let create_time = start.elapsed();
    assert!(create_time.as_millis() < 3000, "Creating 100 cycles took too long");

    let start = Instant::now();
    cycles.select_cycle("cycle_000".to_string());
    cycles.select_cycle("cycle_050".to_string());
    cycles.select_cycle("cycle_099".to_string());
    let select_time = start.elapsed();
    assert!(select_time.as_millis() < 100, "select_cycle took too long");

    let start = Instant::now();
    let cycle_list = cycles.list_cycles();
    let list_time = start.elapsed();
    assert!(list_time.as_millis() < 50, "list_cycles took too long");
    assert_eq!(cycle_list.len(), 100);

    for i in 1..cycle_list.len() {
        assert!(cycle_list[i - 1] <= cycle_list[i], "Cycles not sorted");
    }

    cycles.select_cycle("cycle_050".to_string());
    cycles.next();
    let pos_before = cycles.cycle_data("cycle_050").unwrap().position();

    cycles.select_cycle("cycle_025".to_string());
    cycles.select_cycle("cycle_050".to_string());
    let pos_after = cycles.cycle_data("cycle_050").unwrap().position();
    assert_eq!(pos_before, pos_after, "Position not preserved");
}

#[test]
fn test_many_cycles_performance_1000() {
    let mut cycles = Cycles::new();

    let start = Instant::now();
    for i in 0..1000 {
        let cycle_name = format!("cycle_{:04}", i);
        cycles.select_cycle(cycle_name.clone());

        for j in 0..5 {
            cycles.toggle(format!("ws_{:04}_{}", i, j));
        }
    }
    let create_time = start.elapsed();
    assert!(create_time.as_secs() < 30, "Creating 1000 cycles took too long");

    let start = Instant::now();
    cycles.select_cycle("cycle_0000".to_string());
    cycles.select_cycle("cycle_0500".to_string());
    cycles.select_cycle("cycle_0999".to_string());
    let select_time = start.elapsed();
    assert!(select_time.as_millis() < 500, "select_cycle with 1000 cycles took too long");

    let start = Instant::now();
    let cycle_list = cycles.list_cycles();
    let list_time = start.elapsed();
    assert!(list_time.as_millis() < 500, "list_cycles with 1000 cycles took too long");
    assert_eq!(cycle_list.len(), 1000);

    cycles.select_cycle("cycle_0100".to_string());
    for _ in 0..3 {
        cycles.next();
    }
    let pos_100 = cycles.cycle_data("cycle_0100").unwrap().position();
    assert_eq!(pos_100, 3 % 5);

    cycles.select_cycle("cycle_0200".to_string());
    for _ in 0..2 {
        cycles.next();
    }
    let pos_200 = cycles.cycle_data("cycle_0200").unwrap().position();
    assert_eq!(pos_200, 2 % 5);

    cycles.select_cycle("cycle_0100".to_string());
    assert_eq!(cycles.cycle_data("cycle_0100").unwrap().position(), pos_100);
}

#[test]
fn test_cycle_name_collisions() {
    let mut cycles = Cycles::new();

    cycles.select_cycle("work".to_string());
    cycles.toggle("ws1".to_string());
    cycles.toggle("ws2".to_string());

    cycles.select_cycle("personal".to_string());
    cycles.toggle("home1".to_string());

    let created = cycles.select_cycle("work".to_string());
    assert!(!created, "Selecting existing cycle should not create new one");
    assert_eq!(cycles.active_cycle(), "work");

    let work_data = cycles.cycle_data("work").unwrap();
    assert!(work_data.contains("ws1"));
    assert!(work_data.contains("ws2"));
    assert_eq!(work_data.len(), 2);

    assert!(cycles.cycle_data("personal").is_some());
}

#[test]
fn test_cycle_name_case_sensitivity() {
    let mut cycles = Cycles::new();

    cycles.select_cycle("Work".to_string());
    cycles.toggle("ws1".to_string());

    cycles.select_cycle("work".to_string());
    cycles.toggle("ws2".to_string());

    cycles.select_cycle("WORK".to_string());
    cycles.toggle("ws3".to_string());

    let cycle_list = cycles.list_cycles();
    assert!(cycle_list.contains(&"Work".to_string()));
    assert!(cycle_list.contains(&"work".to_string()));
    assert!(cycle_list.contains(&"WORK".to_string()));

    assert_eq!(cycles.cycle_data("Work").unwrap().len(), 1);
    assert_eq!(cycles.cycle_data("work").unwrap().len(), 1);
    assert_eq!(cycles.cycle_data("WORK").unwrap().len(), 1);

    let pos_work = cycle_list.iter().position(|c| c == "work").unwrap();
    let pos_title = cycle_list.iter().position(|c| c == "Work").unwrap();
    let pos_upper = cycle_list.iter().position(|c| c == "WORK").unwrap();
    assert!(
        pos_upper < pos_title && pos_title < pos_work,
        "Case-sensitive sort order incorrect"
    );
}

#[test]
fn test_empty_cycle_cleanup() {
    let mut cycles = Cycles::new();

    cycles.select_cycle("to_be_deleted".to_string());

    cycles.select_cycle("keeper".to_string());
    cycles.toggle("ws1".to_string());

    assert!(cycles.cycle_data("to_be_deleted").is_none());
    assert!(cycles.cycle_data("keeper").is_some());

    cycles.select_cycle("work".to_string());
    cycles.toggle("ws2".to_string());
    cycles.select_cycle("personal".to_string());
    assert!(cycles.cycle_data("work").is_some());
}

#[test]
fn test_special_character_workspace_names_emoji() {
    let mut cycles = Cycles::new();
    cycles.select_cycle("emoji_test".to_string());

    cycles.toggle("🚀".to_string());
    cycles.toggle("💻".to_string());
    cycles.toggle("🎯".to_string());

    let next1 = cycles.next();
    assert_eq!(next1, Some("💻".to_string()));

    let next2 = cycles.next();
    assert_eq!(next2, Some("🚀".to_string()));

    let data = cycles.cycle_data("emoji_test").unwrap();
    assert!(data.contains("🚀"));
    assert!(data.contains("💻"));
}

#[test]
fn test_very_long_workspace_names() {
    let mut cycles = Cycles::new();
    cycles.select_cycle("long_names".to_string());

    let name_100 = "a".repeat(100);
    let name_1000 = "b".repeat(1000);
    let name_10000 = "c".repeat(10000);

    let start = Instant::now();
    cycles.toggle(name_100.clone());
    let time_100 = start.elapsed();
    assert!(time_100.as_millis() < 100, "100 char name toggle took too long");

    let start = Instant::now();
    cycles.toggle(name_1000.clone());
    let time_1000 = start.elapsed();
    assert!(time_1000.as_millis() < 100, "1000 char name toggle took too long");

    let start = Instant::now();
    cycles.toggle(name_10000.clone());
    let time_10000 = start.elapsed();
    assert!(time_10000.as_secs() < 5, "10000 char name toggle took too long");

    let cycle_data = cycles.cycle_data("long_names").unwrap();
    assert!(cycle_data.contains(&name_100));
    assert!(cycle_data.contains(&name_1000));
    assert!(cycle_data.contains(&name_10000));

    let start = Instant::now();
    let next_result = cycles.next();
    let next_time = start.elapsed();
    assert!(next_time.as_millis() < 100, "next() with long names took too long");
    assert!(next_result.is_some());
}

#[test]
fn test_many_workspaces_performance_1000() {
    let mut cycles = Cycles::new();
    cycles.select_cycle("stress_1000".to_string());

    let start = Instant::now();
    for i in 0..1000 {
        cycles.toggle(format!("ws_{:04}", i));
    }
    let add_time = start.elapsed();
    assert!(add_time.as_millis() < 2000, "Adding 1000 workspaces took too long");

    let start = Instant::now();
    cycles.toggle("ws_0000".to_string());
    cycles.toggle("ws_0500".to_string());
    cycles.toggle("ws_0999".to_string());
    let toggle_time = start.elapsed();
    assert!(toggle_time.as_millis() < 500, "Toggle operations took too long");

    let start = Instant::now();
    for _ in 0..100 {
        cycles.next();
    }
    let next_time = start.elapsed();
    assert!(next_time.as_millis() < 100, "100 next() operations took too long");

    let cycle_data = cycles.cycle_data("stress_1000").unwrap();
    assert_eq!(cycle_data.len(), 997);
}

#[test]
fn test_cycle_name_special_characters() {
    let mut cycles = Cycles::new();

    cycles.select_cycle("🔄".to_string());
    cycles.toggle("ws1".to_string());

    cycles.select_cycle("工作".to_string());
    cycles.toggle("ws2".to_string());

    cycles.select_cycle("日本語".to_string());
    cycles.toggle("ws3".to_string());

    cycles.select_cycle("my cycle".to_string());
    cycles.toggle("ws4".to_string());

    cycles.select_cycle("work@home".to_string());
    cycles.toggle("ws5".to_string());

    cycles.select_cycle("test#1".to_string());
    cycles.toggle("ws6".to_string());

    cycles.select_cycle("a/b/c".to_string());
    cycles.toggle("ws7".to_string());

    let long_name = "cycle_".to_string() + &"x".repeat(100);
    cycles.select_cycle(long_name.clone());
    cycles.toggle("ws8".to_string());

    let cycle_list = cycles.list_cycles();
    assert!(cycle_list.contains(&"🔄".to_string()));
    assert!(cycle_list.contains(&"工作".to_string()));
    assert!(cycle_list.contains(&"日本語".to_string()));
    assert!(cycle_list.contains(&"my cycle".to_string()));
    assert!(cycle_list.contains(&"work@home".to_string()));
    assert!(cycle_list.contains(&"test#1".to_string()));
    assert!(cycle_list.contains(&"a/b/c".to_string()));
    assert!(cycle_list.contains(&long_name));

    for i in 1..cycle_list.len() {
        assert!(cycle_list[i - 1] <= cycle_list[i], "Cycles not sorted correctly");
    }

    assert!(cycles.cycle_data("🔄").is_some());
    assert!(cycles.cycle_data("工作").is_some());
}

#[test]
fn test_cycle_name_edge_cases() {
    let mut cycles = Cycles::new();

    cycles.select_cycle("workspace".to_string());
    cycles.toggle("workspace".to_string());
    assert!(cycles.cycle_data("workspace").unwrap().contains("workspace"));

    cycles.select_cycle("with\"quotes\"".to_string());
    cycles.toggle("ws1".to_string());

    cycles.select_cycle("with\\backslash".to_string());
    cycles.toggle("ws2".to_string());

    assert!(cycles.cycle_data("with\"quotes\"").is_some());
    assert!(cycles.cycle_data("with\\backslash").is_some());
}

#[test]
fn test_leave_and_return_keeps_position() {
    let mut cycles = Cycles::new();
    cycles.select_cycle("a".to_string());
    for ws in ["1", "2", "3"] {
        cycles.toggle(ws.to_string());
    }
    cycles.next();
    cycles.next();
    cycles.select_cycle("b".to_string());
    cycles.toggle("x".to_string());
    cycles.toggle("y".to_string());
    cycles.next();
    cycles.select_cycle("c".to_string());
    cycles.toggle("z".to_string());
    cycles.select_cycle("b".to_string());
    assert!(!cycles.select_cycle("a".to_string()));
    assert_eq!(cycles.current_position(), 2);
    assert_eq!(cycles.next(), Some("1".to_string()));
}
