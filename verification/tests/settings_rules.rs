use guixu::settings::{validate_app_settings, AppSettings};

#[test]
fn default_settings_are_the_documented_ones_and_valid() {
    let settings = AppSettings::default();
    assert!(settings.restore_last_library);
    assert_eq!(settings.default_view_mode, "list");
    assert_eq!(settings.default_sort_key, "name");
    assert_eq!(settings.default_sort_direction, "asc");
    assert_eq!(settings.page_size, 100);
    assert_eq!(settings.refresh_interval_ms, 2_000);
    assert_eq!(settings.density, "comfortable");
    assert_eq!(settings.file_size_unit, "binary");
    assert_eq!(settings.date_format, "locale");
    assert!(!settings.reduce_motion);
    assert_eq!(validate_app_settings(&settings), Ok(()));
}

#[test]
fn each_setting_is_refused_outside_its_values() {
    let base = AppSettings::default();
    let check = |settings: AppSettings| validate_app_settings(&settings).unwrap_err();
    assert_eq!(check(AppSettings { default_view_mode: "table".to_owned(), ..base.clone() }), "默认视图只能是列表或网格");
    assert_eq!(check(AppSettings { default_sort_key: "kind".to_owned(), ..base.clone() }), "默认排序字段无效");
    assert_eq!(check(AppSettings { default_sort_direction: "up".to_owned(), ..base.clone() }), "默认排序方向无效");
    assert_eq!(check(AppSettings { page_size: 25, ..base.clone() }), "分页数量只能是 50、100 或 200");
    assert_eq!(check(AppSettings { refresh_interval_ms: 1_000, ..base.clone() }), "刷新频率只能是 2、5 或 10 秒");
    assert_eq!(check(AppSettings { density: "dense".to_owned(), ..base.clone() }), "界面密度无效");
    assert_eq!(check(AppSettings { file_size_unit: "si".to_owned(), ..base.clone() }), "文件大小单位无效");
    assert_eq!(check(AppSettings { date_format: "us".to_owned(), ..base.clone() }), "日期格式无效");
    assert_eq!(
        check(AppSettings { page_size: 25, date_format: "us".to_owned(), ..base.clone() }),
        "分页数量只能是 50、100 或 200"
    );
    let chosen = AppSettings {
        default_view_mode: "grid".to_owned(),
        default_sort_key: "modified".to_owned(),
        default_sort_direction: "desc".to_owned(),
        page_size: 200,
        refresh_interval_ms: 10_000,
        density: "compact".to_owned(),
        file_size_unit: "decimal".to_owned(),
        date_format: "iso".to_owned(),
        ..base
    };
    assert_eq!(validate_app_settings(&chosen), Ok(()));
}
