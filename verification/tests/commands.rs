use liteexif::accel::{GpuInit, GpuState};
use liteexif::chars::{parse_u32, split_char, usize_to_decimal, u64_to_decimal};
use liteexif::commands::{
    acceleration_summary, exif_dimension, export_quality, export_subsampling, file_suffixes,
    finished_message, preview_is_scaled, should_skip, start_message, status_label,
    summary_message, template_name, working_message, BatchProgress, ItemStatus,
};
use liteexif::commands::{chroma_sampling, is_heif, output_format, ChromaSampling, OutputFormat};
use liteexif::exif::ExifMap;
use liteexif::sort::sort_by_keys;
use liteexif::template::{partition, partition_method};

fn chars(s: &str) -> Vec<char> {
    s.chars().collect()
}

#[test]
fn template_names_are_trimmed() {
    assert_eq!(template_name("  我的模板 \t").unwrap(), "我的模板");
    assert_eq!(template_name("plain").unwrap(), "plain");
}

#[test]
fn template_names_with_separators_or_nothing_are_refused() {
    assert_eq!(template_name("a/b").unwrap_err(), "模板名称无效");
    assert_eq!(template_name("a\\b").unwrap_err(), "模板名称无效");
    assert_eq!(template_name("   ").unwrap_err(), "模板名称无效");
    assert_eq!(template_name("").unwrap_err(), "模板名称无效");
}

#[test]
fn acceleration_summary_names_the_backend() {
    let gpu = acceleration_summary(GpuState::Validated, &GpuInit::Ready("Adapter".to_owned()));
    assert_eq!(gpu.backend, "GPU (DX12 compute)");
    assert_eq!(gpu.state, "validated");
    assert_eq!(gpu.adapter.as_deref(), Some("Adapter"));
    assert!(gpu.pixel_exact);
    assert_eq!(gpu.scope, "preview-and-export");
    let cpu = acceleration_summary(GpuState::Disabled, &GpuInit::Failed("no device".to_owned()));
    assert_eq!(cpu.backend, "CPU");
    assert_eq!(cpu.state, "disabled");
    assert_eq!(cpu.adapter, None);
    assert!(!cpu.pixel_exact);
    let pending = acceleration_summary(GpuState::Pending, &GpuInit::Uninitialized);
    assert_eq!(pending.backend, "CPU");
    assert_eq!(pending.state, "pending");
}

#[test]
fn existing_outputs_are_skipped_only_without_overwrite() {
    assert!(should_skip(true, false));
    assert!(!should_skip(true, true));
    assert!(!should_skip(false, false));
    assert!(!should_skip(false, true));
}

#[test]
fn batch_counts_every_file_once() {
    let mut progress = BatchProgress::start(4);
    assert_eq!(progress.percent(), 0);
    progress.record(ItemStatus::Success);
    progress.record(ItemStatus::Skipped);
    assert_eq!(progress.percent(), 50);
    progress.record(ItemStatus::Failure);
    assert_eq!(progress.percent(), 75);
    progress.record(ItemStatus::Success);
    assert_eq!(
        (progress.processed, progress.success, progress.skipped, progress.failure),
        (4, 2, 1, 1)
    );
    assert_eq!(progress.percent(), 100);
}

#[test]
fn an_empty_batch_is_complete() {
    assert_eq!(BatchProgress::start(0).percent(), 100);
}

#[test]
fn percent_rounds_down() {
    let mut progress = BatchProgress::start(3);
    progress.record(ItemStatus::Success);
    assert_eq!(progress.percent(), 33);
    progress.record(ItemStatus::Success);
    assert_eq!(progress.percent(), 66);
}

#[test]
fn batch_messages() {
    assert_eq!(start_message(12), "开始处理 12 个文件");
    assert_eq!(working_message("a.jpg"), "正在处理: a.jpg");
    assert_eq!(finished_message(ItemStatus::Success, "a.jpg"), "完成: a.jpg");
    assert_eq!(finished_message(ItemStatus::Skipped, "b.jpg"), "跳过: b.jpg");
    assert_eq!(finished_message(ItemStatus::Failure, "c.jpg"), "失败: c.jpg");
    assert_eq!(status_label(ItemStatus::Skipped), "跳过");
    let mut progress = BatchProgress::start(3);
    progress.record(ItemStatus::Success);
    progress.record(ItemStatus::Skipped);
    progress.record(ItemStatus::Failure);
    assert_eq!(summary_message(&progress), "处理完成：成功 1，跳过 1，失败 1");
}

#[test]
fn export_quality_is_clamped() {
    assert_eq!(export_quality(-5), 1);
    assert_eq!(export_quality(0), 1);
    assert_eq!(export_quality(1), 1);
    assert_eq!(export_quality(90), 90);
    assert_eq!(export_quality(100), 100);
    assert_eq!(export_quality(250), 100);
}

#[test]
fn export_subsampling_keeps_the_low_byte() {
    assert_eq!(export_subsampling(2), 2);
    assert_eq!(export_subsampling(258), 2);
    assert_eq!(export_subsampling(-1), 255);
}

#[test]
fn previews_are_scaled_past_the_limit() {
    assert!(!preview_is_scaled(1600, 300));
    assert!(!preview_is_scaled(1600, 1600));
    assert!(preview_is_scaled(1601, 10));
    assert!(preview_is_scaled(10, 4000));
}

#[test]
fn exif_dimensions_fall_back_when_unreadable() {
    let mut exif = ExifMap::new();
    exif.insert("ImageWidth", "6000");
    exif.insert("ImageHeight", "-4000");
    exif.insert("Other", "+12");
    assert_eq!(exif_dimension(&exif, "ImageWidth", 7), 6000);
    assert_eq!(exif_dimension(&exif, "ImageHeight", 7), 7);
    assert_eq!(exif_dimension(&exif, "Other", 7), 12);
    assert_eq!(exif_dimension(&exif, "Missing", 7), 7);
}

#[test]
fn u32_parsing_matches_std() {
    for text in ["0", "+7", "-0", "-1", "4294967295", "4294967296", "", "+", "12a", " 1"] {
        assert_eq!(parse_u32(&chars(text)), text.parse::<u32>().ok(), "{text}");
    }
}

#[test]
fn suffix_settings_split_at_commas() {
    assert_eq!(file_suffixes(".jpg,.png,.heic"), vec![".jpg", ".png", ".heic"]);
    assert_eq!(file_suffixes(""), vec![""]);
    assert_eq!(file_suffixes(",a,"), vec!["", "a", ""]);
}

#[test]
fn character_split_matches_std() {
    for text in ["a,b", ",", "", "abc", "a,,b,"] {
        let ours: Vec<String> = split_char(&chars(text), ',')
            .into_iter()
            .map(|piece| piece.into_iter().collect())
            .collect();
        let std: Vec<String> = text.split(',').map(str::to_owned).collect();
        assert_eq!(ours, std, "{text}");
    }
}

#[test]
fn decimals_match_std() {
    for n in [0u64, 9, 10, 12345, u64::MAX] {
        assert_eq!(u64_to_decimal(n), n.to_string());
    }
    assert_eq!(usize_to_decimal(4096), "4096");
}

#[test]
fn partition_parts_join_to_the_text() {
    for (text, sep) in [("a-b-c", "-"), ("abc", "x"), ("", "-"), ("--", "-"), ("abc", "")] {
        let (a, b, c) = partition(text, sep);
        assert_eq!(format!("{a}{b}{c}"), text);
    }
}

#[test]
fn sorting_orders_by_key_and_keeps_ties_in_place() {
    let items = vec![
        (vec![2, 1], "b1"),
        (vec![1], "a"),
        (vec![2, 1], "b2"),
        (vec![3], "c"),
        (vec![2], "p"),
    ];
    let down: Vec<&str> = sort_by_keys(items.clone(), true).into_iter().map(|item| item.1).collect();
    assert_eq!(down, vec!["c", "b1", "b2", "p", "a"]);
    let up: Vec<&str> = sort_by_keys(items, false).into_iter().map(|item| item.1).collect();
    assert_eq!(up, vec!["a", "p", "b1", "b2", "c"]);
}

#[test]
fn output_formats_follow_the_extension() {
    assert_eq!(output_format(Some("jpg")), Ok(OutputFormat::Jpeg));
    assert_eq!(output_format(Some("JPEG")), Ok(OutputFormat::Jpeg));
    assert_eq!(output_format(Some("Png")), Ok(OutputFormat::Png));
    assert_eq!(output_format(Some("TIFF")), Err("不支持的输出格式: tiff".to_owned()));
    assert_eq!(output_format(None), Err("不支持的输出格式: ".to_owned()));
}

#[test]
fn subsampling_codes_select_the_sampling() {
    assert_eq!(chroma_sampling(2), ChromaSampling::Quarter);
    assert_eq!(chroma_sampling(1), ChromaSampling::Half);
    assert_eq!(chroma_sampling(0), ChromaSampling::Full);
    assert_eq!(chroma_sampling(7), ChromaSampling::Full);
}

#[test]
fn heif_extensions_are_recognised_in_any_case() {
    assert!(is_heif(Some("heic")));
    assert!(is_heif(Some("HEIF")));
    assert!(!is_heif(Some("jpg")));
    assert!(!is_heif(None));
}

#[test]
fn the_partition_method_refuses_an_empty_separator() {
    assert_eq!(partition_method("a-b", ""), Err("empty separator".to_owned()));
    assert_eq!(
        partition_method("a-b", "-"),
        Ok(("a".to_owned(), "-".to_owned(), "b".to_owned()))
    );
}
