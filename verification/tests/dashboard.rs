use ql_miner::dashboard::{
    accepted_after, compact_status, cuda_batch_outcome, dashboard_lines, shorten_address, DashboardView, record_found_block, submit_status, truncate_for_table,
    FoundBlock,
};

fn split_and_join(s: &str) -> String {
    s.split_whitespace().collect::<Vec<&str>>().join(" ")
}

#[test]
fn compacting_matches_split_and_join() {
    for s in ["", "   ", "ok", "  a \n\t b\r\n c  ", "x\u{a0}y\u{2003}z", "{\n  \"status\": \"rejected\"\n}"] {
        assert_eq!(compact_status(s), split_and_join(s), "{s:?}");
    }
}

#[test]
fn compacting_twice_changes_nothing() {
    for s in ["  a \n\t b\r\n c  ", "", "one\u{3000}two"] {
        let once = compact_status(s);
        assert_eq!(compact_status(&once), once);
    }
}

#[test]
fn table_cells() {
    assert_eq!(truncate_for_table("accepted", 28), "accepted");
    assert_eq!(truncate_for_table("abcdefghij", 10), "abcdefghij");
    assert_eq!(truncate_for_table("abcdefghijk", 10), "abcdefg...");
    assert_eq!(truncate_for_table("abcdef", 3), "abc");
    assert_eq!(truncate_for_table("abcdef", 0), "");
    assert_eq!(truncate_for_table("héllo wörld", 8), "héll...");
    for (s, n) in [("response: something long enough", 28), ("é", 1), ("aé", 2)] {
        if s.len() <= n || s.is_char_boundary(if n <= 3 { n } else { n - 3 }) {
            assert!(truncate_for_table(s, n).len() <= n.max(if s.len() <= n { s.len() } else { 0 }));
        }
    }
}

#[test]
fn submission_statuses() {
    assert_eq!(submit_status(&Ok("{\"status\":\"ACCEPTED\"}".to_string())), "accepted");
    assert_eq!(submit_status(&Ok("OK".to_string())), "accepted");
    assert_eq!(submit_status(&Ok("{\"valid\": True}".to_string())), "accepted");
    assert_eq!(
        submit_status(&Ok("{\n \"status\": \"stale\"\n}".to_string())),
        "response: { \"status\": \"stale\" }"
    );
    assert_eq!(
        submit_status(&Err("HTTP 500: boom".to_string())),
        "submit failed: HTTP 500: boom"
    );
}

#[test]
fn found_blocks_newest_first_at_most_eight() {
    let mut blocks = Vec::new();
    for i in 0..10u64 {
        record_found_block(&mut blocks, FoundBlock { block_height: i, nonce: i * 3, status: format!("s{i}") });
        assert_eq!(blocks.len(), (i as usize + 1).min(8));
        assert_eq!(blocks[0].block_height, i);
    }
    let heights: Vec<u64> = blocks.iter().map(|b| b.block_height).collect();
    assert_eq!(heights, vec![9, 8, 7, 6, 5, 4, 3, 2]);
    assert_eq!(blocks[0].nonce, 27);
    assert_eq!(blocks[0].status, "s9");
}

#[test]
fn cuda_status_codes() {
    assert_eq!(cuda_batch_outcome(1, 77), Ok(Some(77)));
    assert_eq!(cuda_batch_outcome(0, 77), Ok(None));
    assert_eq!(cuda_batch_outcome(2, 77), Err("CUDA miner failed with code 2".to_string()));
    assert_eq!(cuda_batch_outcome(-3, 77), Err("CUDA miner failed with code -3".to_string()));
    assert_eq!(
        cuda_batch_outcome(i32::MIN, 0),
        Err(format!("CUDA miner failed with code {}", i32::MIN))
    );
}

#[test]
fn compacting_keeps_the_words_single_spaced() {
    let status = "  Block\n\trejected:   stale  ";
    let compacted = compact_status(status);
    assert_eq!(compacted, "Block rejected: stale");
    assert_eq!(
        compacted.split_whitespace().collect::<Vec<&str>>(),
        status.split_whitespace().collect::<Vec<&str>>()
    );
    assert!(!compacted.contains("  "));
}

#[test]
fn accepted_blocks_count_only_accepted_rows() {
    assert_eq!(accepted_after(0, "accepted"), 1);
    assert_eq!(accepted_after(4, "accepted"), 5);
    assert_eq!(accepted_after(4, "response: rejected"), 4);
    assert_eq!(accepted_after(4, "submit failed: timeout"), 4);
    assert_eq!(accepted_after(4, "accepted "), 4);
    assert_eq!(accepted_after(u64::MAX, "accepted"), u64::MAX);
}

fn view(blocks: Vec<FoundBlock>) -> DashboardView {
    DashboardView {
        mode: "CPU".to_string(),
        device: "4 threads".to_string(),
        endpoint: "tls://node.example:443".to_string(),
        block_height: 1234,
        target_bits: 22,
        current_rate: "1.50 MH/s".to_string(),
        average_rate: "1.20 MH/s".to_string(),
        checked: "3.00 M".to_string(),
        eta: "2m 5s".to_string(),
        uptime: "1h 0m".to_string(),
        start_nonce: 99,
        miner_address: "0123456789abcdef0123456789abcdef".to_string(),
        total_blocks_found: blocks.len() as u64,
        accepted_blocks: 1,
        blocks_found: blocks,
    }
}

#[test]
fn dashboard_layout_without_blocks() {
    let lines = dashboard_lines(&view(vec![]));
    let expected = vec![
        "QL MINER - SRB STYLE STATUS".to_string(),
        "=".repeat(62),
        format!("{:<18} {:<18} {:<18}", "Mode", "Device", "RPC Endpoint"),
        format!("{:<18} {:<18} {:<18}", "CPU", "4 threads", "tls://node.example:443"),
        "Miner: 01234567...89abcdef".to_string(),
        "-".repeat(62),
        format!("{:<14} {:<18} {:<18} {:<18}", "Block", "Target", "Current H/s", "Average H/s"),
        format!("{:<14} {:<18} {:<18} {:<18}", 1234, "22 bits", "1.50 MH/s", "1.20 MH/s"),
        "-".repeat(62),
        format!("{:<18} {:<18} {:<18} {:<18}", "Checked", "ETA", "Uptime", "Start Nonce"),
        format!("{:<18} {:<18} {:<18} {:<18}", "3.00 M", "2m 5s", "1h 0m", 99),
        "-".repeat(62),
        "Blocks Found: 0".to_string(),
        "Accepted Blocks: 1".to_string(),
        format!("{:<10} {:<22} {:<28}", "Block", "Nonce", "Status"),
        format!("{:<10} {:<22} {:<28}", "-", "-", "none yet"),
        "=".repeat(62),
        "Ctrl+C to stop. Dashboard refreshes in-place.".to_string(),
    ];
    assert_eq!(lines, expected);
}

#[test]
fn dashboard_shows_eight_blocks_with_cut_statuses() {
    let mut blocks = Vec::new();
    for i in 0..10u64 {
        let status = if i == 0 {
            "response: a very long rejection message from the node".to_string()
        } else {
            "accepted".to_string()
        };
        blocks.push(FoundBlock { block_height: 100 - i, nonce: 1000 + i, status });
    }
    let lines = dashboard_lines(&view(blocks));
    assert_eq!(lines.len(), 15 + 8 + 2);
    assert_eq!(lines[12], "Blocks Found: 10");
    assert_eq!(
        lines[15],
        format!("{:<10} {:<22} {:<28}", 100, 1000, "response: a very long rej...")
    );
    for i in 1..8u64 {
        assert_eq!(lines[15 + i as usize], format!("{:<10} {:<22} {:<28}", 100 - i, 1000 + i, "accepted"));
    }
    assert_eq!(lines[23], "=".repeat(62));
}

#[test]
fn dashboard_cells_wider_than_their_field_are_kept() {
    let mut v = view(vec![]);
    v.device = "a device name longer than eighteen".to_string();
    v.mode = "GPU\u{e9}".to_string();
    let lines = dashboard_lines(&v);
    assert_eq!(
        lines[3],
        format!("{:<18} {:<18} {:<18}", "GPU\u{e9}", "a device name longer than eighteen", "tls://node.example:443")
    );
}

#[test]
fn shortened_addresses() {
    assert_eq!(shorten_address("abcdef"), "abcdef");
    assert_eq!(shorten_address("0123456789abcdef"), "0123456789abcdef");
    assert_eq!(shorten_address("0123456789abcdefX"), "01234567...9abcdefX");
    assert_eq!(shorten_address(""), "");
}
