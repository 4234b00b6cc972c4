use practice_apps::timer::{
    countdown_next, countdown_start, cycle_heading, read_cycles, read_menu_choice, read_seconds,
    remaining_line, stopwatch_line, timer_line, MenuChoice, BREAK_MINUTES, WORK_MINUTES,
};

#[test]
fn menu() {
    assert_eq!(read_menu_choice("1\n"), MenuChoice::Stopwatch);
    assert_eq!(read_menu_choice(" 2 "), MenuChoice::Timer);
    assert_eq!(read_menu_choice("3"), MenuChoice::Pomodoro);
    assert_eq!(read_menu_choice("4\r\n"), MenuChoice::Exit);
    assert_eq!(read_menu_choice("5"), MenuChoice::Invalid);
    assert_eq!(read_menu_choice("+1"), MenuChoice::Invalid);
    assert_eq!(read_menu_choice(""), MenuChoice::Invalid);
    assert_eq!(read_menu_choice("11"), MenuChoice::Invalid);
}

#[test]
fn numbers_typed() {
    assert_eq!(read_seconds("90\n"), Some(90));
    assert_eq!(read_seconds("-5"), None);
    assert_eq!(read_seconds("abc"), None);
    assert_eq!(read_cycles(" 4 "), Some(4));
    assert_eq!(read_cycles("4294967296"), None);
}

#[test]
fn stopwatch_display() {
    assert_eq!(stopwatch_line(0, 0), "Czas: 00:00:00.000");
    assert_eq!(stopwatch_line(3725, 42), "Czas: 01:02:05.042");
    assert_eq!(stopwatch_line(360000, 999), "Czas: 100:00:00.999");
    let (secs, millis) = (98765u64, 7u32);
    assert_eq!(
        stopwatch_line(secs, millis),
        format!("Czas: {:02}:{:02}:{:02}.{:03}", secs / 3600, (secs % 3600) / 60, secs % 60, millis)
    );
}

#[test]
fn countdown_displays() {
    assert_eq!(remaining_line(4, 9), "\rPozostało: 04:09");
    assert_eq!(timer_line(125), "\rPozostało: 02:05");
    assert_eq!(timer_line(6000), "\rPozostało: 100:00");
    assert_eq!(cycle_heading(3), "\nCykl 3: Praca przez 25 minut...");
    assert_eq!((WORK_MINUTES, BREAK_MINUTES), (25, 5));
}

#[test]
fn law_countdown_counts_every_second_example() {
    for minutes in 0u64..4 {
        let mut frames = Vec::new();
        let mut f = countdown_start(minutes);
        while let Some(frame) = f {
            frames.push(frame);
            f = countdown_next(frame);
        }
        let expected: Vec<(u64, u64)> = (0..minutes).rev().flat_map(|m| (0..60u64).rev().map(move |s| (m, s))).collect();
        assert_eq!(frames, expected);
        assert_eq!(frames.len() as u64, 60 * minutes);
    }
}
