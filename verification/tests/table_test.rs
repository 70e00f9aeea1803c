use ftop::table::{
    process_name_cell, process_table_fixed_width, process_table_header, process_table_mode,
    ProcessTableMode,
};

#[test]
fn table_mode_follows_the_width() {
    assert_eq!(process_table_mode(120), ProcessTableMode::Full);
    assert_eq!(process_table_mode(96), ProcessTableMode::Full);
    assert_eq!(process_table_mode(95), ProcessTableMode::Compact);
    assert_eq!(process_table_mode(78), ProcessTableMode::Compact);
    assert_eq!(process_table_mode(77), ProcessTableMode::Tiny);
    assert_eq!(process_table_mode(0), ProcessTableMode::Tiny);
}

#[test]
fn fixed_widths_of_the_layouts() {
    assert_eq!(process_table_fixed_width(ProcessTableMode::Full), 78);
    assert_eq!(process_table_fixed_width(ProcessTableMode::Compact), 60);
    assert_eq!(process_table_fixed_width(ProcessTableMode::Tiny), 33);
}

#[test]
fn headers_align_their_columns() {
    assert_eq!(
        process_table_header(ProcessTableMode::Full),
        format!(
            "{:>8} {:>5}  {:>5}  {:>4}  {:>11} {:>8} {:>9} {:>8}  {:>6}  {}",
            "PID", "CPU%", "MEM%", "PRI", "UPTIME", "SHR", "VIRT", "RES", "PWR", "PROCESS"
        )
    );
    assert_eq!(
        process_table_header(ProcessTableMode::Compact),
        format!(
            "{:>8} {:>5}  {:>5}  {:>8} {:>9} {:>8}  {:>6}  {}",
            "PID", "CPU%", "MEM%", "SHR", "VIRT", "RES", "PWR", "PROCESS"
        )
    );
    assert_eq!(
        process_table_header(ProcessTableMode::Tiny),
        "     PID  CPU%   MEM%       RES  PROCESS"
    );
}

#[test]
fn name_cell_cuts_the_name_to_the_room_left() {
    assert_eq!(
        process_name_cell("│  ", "└─ ", "firefox", ProcessTableMode::Tiny, 40, true),
        "│  └─ f"
    );
    assert_eq!(
        process_name_cell("│  ", "└─ ", "firefox", ProcessTableMode::Tiny, 40, false),
        "firefox"
    );
    assert_eq!(
        process_name_cell("", "", "firefox", ProcessTableMode::Tiny, 36, false),
        "fir"
    );
    assert_eq!(
        process_name_cell("", "", "firefox", ProcessTableMode::Full, 20, false),
        "f"
    );
}
