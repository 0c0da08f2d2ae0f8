//! The discover profile summary that timing gates read from stderr.

use rgbuilder as _;

#[derive(Debug, Clone, Default, PartialEq)]
pub struct ProfileSummary {
    pub wall_secs: f64,
    pub peak_rss_mb: f64,
    pub ingest_peak_rss_mb: f64,
    pub nodes: u64,
    pub functions: u64,
    pub index_graph_build_secs: Option<f64>,
}

pub fn parse_profile_summary(stderr: &str) -> Option<ProfileSummary> {
    let mut summary = ProfileSummary::default();
    for line in stderr.lines() {
        if line.contains("[profile] discover summary") {
            summary.wall_secs = parse_field_f64(line, "wall_secs=")?;
            summary.peak_rss_mb = parse_field_f64(line, "peak_rss_mb=")?;
            summary.ingest_peak_rss_mb = parse_field_f64(line, "ingest_peak_rss_mb=")?;
            summary.nodes = parse_field_u64(line, "nodes=")?;
            summary.functions = parse_field_u64(line, "functions=")?;
        } else if line.contains("[profile] stage") && line.contains("index_graph_build") {
            summary.index_graph_build_secs = Some(parse_field_f64(line, "secs=")?);
        }
    }
    if summary.wall_secs > 0.0 {
        Some(summary)
    } else {
        None
    }
}

fn parse_field_f64(line: &str, key: &str) -> Option<f64> {
    let rest = line.split(key).nth(1)?;
    let token = rest.split_whitespace().next()?;
    token.parse().ok()
}

fn parse_field_u64(line: &str, key: &str) -> Option<u64> {
    let rest = line.split(key).nth(1)?;
    let token = rest.split_whitespace().next()?;
    token.parse().ok()
}

#[test]
fn profile_parser_reads_linux_log_snippet() {
    let snippet = r#"2026-08-13T10:50:09.578546Z  INFO profile: [profile] discover summary wall_secs=157.810180667 index_secs=103.66666675 post_index_secs=24.973709293 peak_rss_mb=15256.0 ingest_peak_rss_mb=12929.0 analysis_peak_rss_mb=15256.0 functions=1862845 nodes=3312280 cfg=false security=false
2026-08-13T10:50:09.578564Z  INFO profile: [profile] stage stage="index_graph_build" secs=15.808327416000001 pct_wall=10.017305188540167"#;
    let parsed = parse_profile_summary(snippet).expect("parse");
    assert!((parsed.wall_secs - 157.810).abs() < 0.01);
    assert_eq!(parsed.nodes, 3_312_280);
    assert_eq!(parsed.functions, 1_862_845);
    assert!(parsed.index_graph_build_secs.unwrap() > 15.0);
}
