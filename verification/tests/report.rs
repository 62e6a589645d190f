use lib::detect::TypeStats;
use lib::report::{detection_json, detection_markdown, CandidateFields, ReportFields};

fn sample_report() -> ReportFields {
    ReportFields {
        image_count: 3,
        block_size: 512,
        sampled_blocks: 1000,
        type_stats: TypeStats { mirrored_blocks: 2, parity_blocks: 90, unassigned_blocks: 8 },
        candidates: vec![
            CandidateFields {
                raid_type: "raid5".to_string(),
                stripe_size: Some(65536),
                score: "0.935000".to_string(),
                score_short: "0.935".to_string(),
                type_score: "0.900000".to_string(),
                stripe_votes: 12,
                stripe_vote_ratio: "1.000000".to_string(),
                notes: vec!["XOR-zero rows".to_string(), "say \"hi\"".to_string()],
            },
            CandidateFields {
                raid_type: "raid0".to_string(),
                stripe_size: None,
                score: "0.100000".to_string(),
                score_short: "0.100".to_string(),
                type_score: "0.080000".to_string(),
                stripe_votes: 0,
                stripe_vote_ratio: "0.000000".to_string(),
                notes: vec![],
            },
        ],
    }
}

#[test]
fn json_report_text() {
    let expected = "{\n  \"image_count\": 3,\n  \"block_size\": 512,\n  \"sampled_blocks\": 1000,\n  \"type_stats\": {\n    \"mirrored_blocks\": 2,\n    \"parity_blocks\": 90,\n    \"unassigned_blocks\": 8\n  },\n  \"candidates\": [\n    {\n      \"raid_type\": \"raid5\",\n      \"stripe_size\": 65536,\n      \"score\": 0.935000,\n      \"evidence\": {\n        \"type_score\": 0.900000,\n        \"stripe_votes\": 12,\n        \"stripe_vote_ratio\": 1.000000,\n        \"notes\": [\"XOR-zero rows\", \"say \\\"hi\\\"\"]\n      }\n    },\n    {\n      \"raid_type\": \"raid0\",\n      \"stripe_size\": null,\n      \"score\": 0.100000,\n      \"evidence\": {\n        \"type_score\": 0.080000,\n        \"stripe_votes\": 0,\n        \"stripe_vote_ratio\": 0.000000,\n        \"notes\": []\n      }\n    }\n  ]\n}\n";
    assert_eq!(detection_json(&sample_report()), expected);
}

#[test]
fn json_report_without_candidates() {
    let mut report = sample_report();
    report.candidates.clear();
    let text = detection_json(&report);
    assert!(text.ends_with("  \"candidates\": [\n  ]\n}\n"));
}

#[test]
fn markdown_report_text() {
    let expected = "# RAID-reassemble Detection Report\n\n## Summary\n\n- Images: 3\n- Block size: 512\n- Sampled blocks: 1000\n\n## Type Evidence\n\n| Metric | Count |\n| --- | ---: |\n| Mirrored blocks | 2 |\n| Parity blocks | 90 |\n| Unassigned blocks | 8 |\n\n## Candidates\n\n| Rank | RAID | Stripe size | Score | Stripe votes | Notes |\n| ---: | --- | ---: | ---: | ---: | --- |\n| 1 | raid5 | 65536 | 0.935 | 12 | XOR-zero rows; say \"hi\" |\n| 2 | raid0 | unknown | 0.100 | 0 |  |\n\n## Risk Notes\n\n- This result is heuristic evidence, not absolute proof.\n- High-entropy encrypted or randomly filled images can defeat entropy boundary detection.\n- RAID-0 disk order inference remains weak without filesystem validation.\n";
    assert_eq!(detection_markdown(&sample_report()), expected);
}

#[test]
fn console_summary_text() {
    let expected = "RAID-reassemble detect\nimages: 3\nblock_size: 512\ntype_stats: mirrored=2 parity=90 unassigned=8\ncandidates:\n  1. raid5 stripe=64K score=0.935 votes=12\n  2. raid0 stripe=unknown score=0.100 votes=0\n";
    assert_eq!(sample_report().human_summary(), expected);
}
