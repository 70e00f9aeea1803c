use ftop::metrics::{
    bar_width, core_bar_width, core_cell_width, core_label, cpu_core_columns, disk_totals,
    human_uptime, memory_used, meter_bar_width, now_text, page_size_from, parse_net_totals,
    process_priority, progress_bar_text, root_mount_lines, shared_bytes, truncate_to_width,
};
use ftop::MemInfo;

#[test]
fn uptime_without_days_shows_a_clock() {
    assert_eq!(human_uptime(0), "00:00:00");
    assert_eq!(human_uptime(59), "00:00:59");
    assert_eq!(human_uptime(3661), "01:01:01");
    assert_eq!(human_uptime(86399), "23:59:59");
}

#[test]
fn uptime_of_a_day_or_more_shows_days() {
    assert_eq!(human_uptime(86400), "1d 00:00:00");
    assert_eq!(human_uptime(90061), "1d 01:01:01");
    assert_eq!(human_uptime(12 * 86400 + 5), "12d 00:00:05");
}

#[test]
fn now_text_names_the_epoch_seconds() {
    assert_eq!(now_text(1_700_000_000), "unix:1700000000");
    assert_eq!(now_text(0), "unix:0");
}

fn mem(total: u64, free: u64, buffers: u64, cached: u64, sreclaimable: u64, shmem: u64, available: u64) -> MemInfo {
    MemInfo { total, free, buffers, cached, sreclaimable, shmem, available }
}

#[test]
fn memory_used_subtracts_free_buffers_and_reclaimable_cache() {
    assert_eq!(memory_used(&mem(1000, 100, 50, 200, 30, 20, 600)), 640);
}

#[test]
fn memory_used_falls_back_to_available_when_nothing_seems_used() {
    assert_eq!(memory_used(&mem(1000, 1000, 0, 0, 0, 0, 700)), 300);
    // Without an available figure the zero stands.
    assert_eq!(memory_used(&mem(1000, 1000, 0, 0, 0, 0, 0)), 0);
}

#[test]
fn memory_used_saturates_instead_of_overflowing() {
    assert_eq!(memory_used(&mem(10, u64::MAX, u64::MAX, 0, 0, 0, 0)), 0);
    assert!(memory_used(&mem(500, 1, 2, u64::MAX, u64::MAX, 0, 0)) <= 500);
}

const NET_DEV: &str = "Inter-|   Receive                                                |  Transmit
 face |bytes    packets errs drop fifo frame compressed multicast|bytes    packets errs drop fifo colls carrier compressed
    lo: 100 1 0 0 0 0 0 0 100 1 0 0 0 0 0 0
  eth0: 2000 10 0 0 0 0 0 0 3000 20 0 0 0 0 0 0
 wlan0: 500 5 0 0 0 0 0 0 700 7 0 0 0 0 0 0
";

#[test]
fn net_totals_sum_all_interfaces_but_loopback() {
    assert_eq!(parse_net_totals(NET_DEV), (2500, 3700));
}

#[test]
fn net_totals_skip_short_and_malformed_lines() {
    let text = "h1\nh2\n  eth0: 1 2 3\n  eth1 1 2 3 4 5 6 7 8 9 10 11 12 13 14 15 16\n  eth2: x 0 0 0 0 0 0 0 5 0 0 0 0 0 0 0\n  eth3: 7 0 0 0 0 0 0 0 9 0 0 0 0 0 0 0\n";
    assert_eq!(parse_net_totals(text), (7, 9));
    assert_eq!(parse_net_totals(""), (0, 0));
    assert_eq!(parse_net_totals("only\nheaders\n"), (0, 0));
}

#[test]
fn root_mount_lines_counts_root_filesystems() {
    let mounts = "sysfs /sys sysfs rw 0 0\n/dev/sda1 / ext4 rw 0 0\nproc /proc proc rw 0 0\n";
    assert_eq!(root_mount_lines(mounts), 1);
    assert_eq!(root_mount_lines("overlay / overlay rw\n/dev/x / ext4 rw\n"), 2);
    assert_eq!(root_mount_lines("none\n"), 0);
}

#[test]
fn disk_totals_multiply_blocks_by_fragment_size() {
    assert_eq!(disk_totals(100, 40, 4096), (409_600, 245_760));
    assert_eq!(disk_totals(u64::MAX, 0, 2), (u64::MAX, u64::MAX));
}

#[test]
fn page_size_falls_back_to_4096() {
    assert_eq!(page_size_from(-1), 4096);
    assert_eq!(page_size_from(0), 4096);
    assert_eq!(page_size_from(16384), 16384);
}

#[test]
fn shared_bytes_and_priority_default_to_zero() {
    assert_eq!(shared_bytes("1 2 3 4 5", 4096), 12288);
    assert_eq!(shared_bytes("broken", 4096), 0);
    assert_eq!(shared_bytes("1 2 x", 4096), 0);
    let stat = "50 (proc with spaces) S 1 1 1 1 1 0 0 0 0 0 0 0 0 0 42 0 1 0";
    assert_eq!(process_priority(stat), 42);
    assert_eq!(process_priority("50 (x) S 1 2"), 0);
    assert_eq!(process_priority("no terminator"), 0);
}

#[test]
fn cpu_core_columns_fit_the_panel() {
    assert_eq!(cpu_core_columns(80, 8), 4);
    assert_eq!(cpu_core_columns(40, 8), 2);
    assert_eq!(cpu_core_columns(10, 0), 1);
    assert_eq!(cpu_core_columns(200, 2), 2);
    assert_eq!(cpu_core_columns(0, 16), 1);
}

#[test]
fn truncate_to_width_counts_characters() {
    assert_eq!(truncate_to_width("héllo", 2), "hé");
    assert_eq!(truncate_to_width("abc", 10), "abc");
    assert_eq!(truncate_to_width("abc", 0), "");
}

#[test]
fn progress_bars_fill_and_clamp() {
    assert_eq!(progress_bar_text(3, 10), "███░░░░░░░");
    assert_eq!(progress_bar_text(-4, 12), "░".repeat(12));
    assert_eq!(progress_bar_text(99, 10), "█".repeat(10));
    assert_eq!(progress_bar_text(2, 4), format!("{}{}", "█".repeat(2), "░".repeat(8)));
    assert_eq!(bar_width(4), 10);
    assert_eq!(bar_width(25), 25);
}

#[test]
fn meter_and_core_widths() {
    assert_eq!(meter_bar_width(120), 40);
    assert_eq!(meter_bar_width(85), 10);
    assert_eq!(core_bar_width(20), 9);
    assert_eq!(core_bar_width(12), 4);
    assert_eq!(core_cell_width(80, 4), 20);
    assert_eq!(core_cell_width(40, 4), 13);
    assert_eq!(core_label(3), "C03 ");
    assert_eq!(core_label(123), "C123 ");
}
