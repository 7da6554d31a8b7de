//! The desktop settings: their defaults and the values each of them may take.
use vstd::prelude::*;
use crate::text::{chars_eq_str, chars_of, string_from_str};

verus! {

/// The persisted desktop settings.
#[derive(Debug, Clone, PartialEq, Eq)]
pub struct AppSettings {
    pub restore_last_library: bool,
    pub default_view_mode: String,
    pub default_sort_key: String,
    pub default_sort_direction: String,
    pub page_size: usize,
    pub refresh_interval_ms: u64,
    pub show_full_paths: bool,
    pub density: String,
    pub show_overview: bool,
    pub show_task_center: bool,
    pub file_size_unit: String,
    pub date_format: String,
    pub reduce_motion: bool,
}

impl Default for AppSettings {
    /// Restore the last library; a list sorted by name ascending, 100 files a page;
    /// refresh every 2 s; full paths, comfortable density, overview and task center
    /// shown; binary size units; the locale's dates; motion not reduced.
    fn default() -> (r: Self)
        ensures
            r.restore_last_library,
            r.default_view_mode@ == "list"@,
            r.default_sort_key@ == "name"@,
            r.default_sort_direction@ == "asc"@,
            r.page_size == 100,
            r.refresh_interval_ms == 2000,
            r.show_full_paths,
            r.density@ == "comfortable"@,
            r.show_overview,
            r.show_task_center,
            r.file_size_unit@ == "binary"@,
            r.date_format@ == "locale"@,
            !r.reduce_motion,
    {
        AppSettings {
            restore_last_library: true,
            default_view_mode: string_from_str("list"),
            default_sort_key: string_from_str("name"),
            default_sort_direction: string_from_str("asc"),
            page_size: 100,
            refresh_interval_ms: 2000,
            show_full_paths: true,
            density: string_from_str("comfortable"),
            show_overview: true,
            show_task_center: true,
            file_size_unit: string_from_str("binary"),
            date_format: string_from_str("locale"),
            reduce_motion: false,
        }
    }
}

/// The first setting out of its allowed values, by the message that refuses it, in the
/// order they are checked; `None` when every value is allowed.
pub open spec fn settings_problem(s: AppSettings) -> Option<Seq<char>> {
    if !(s.default_view_mode@ == "list"@ || s.default_view_mode@ == "grid"@) {
        Some("默认视图只能是列表或网格"@)
    } else if !(s.default_sort_key@ == "name"@ || s.default_sort_key@ == "size"@
        || s.default_sort_key@ == "modified"@) {
        Some("默认排序字段无效"@)
    } else if !(s.default_sort_direction@ == "asc"@ || s.default_sort_direction@ == "desc"@) {
        Some("默认排序方向无效"@)
    } else if !(s.page_size == 50 || s.page_size == 100 || s.page_size == 200) {
        Some("分页数量只能是 50、100 或 200"@)
    } else if !(s.refresh_interval_ms == 2000 || s.refresh_interval_ms == 5000
        || s.refresh_interval_ms == 10000) {
        Some("刷新频率只能是 2、5 或 10 秒"@)
    } else if !(s.density@ == "comfortable"@ || s.density@ == "compact"@) {
        Some("界面密度无效"@)
    } else if !(s.file_size_unit@ == "binary"@ || s.file_size_unit@ == "decimal"@) {
        Some("文件大小单位无效"@)
    } else if !(s.date_format@ == "locale"@ || s.date_format@ == "iso"@) {
        Some("日期格式无效"@)
    } else {
        None
    }
}

fn is_either(value: &String, a: &str, b: &str) -> (r: bool)
    ensures
        r == (value@ == a@ || value@ == b@),
{
    let v = chars_of(value.as_str());
    chars_eq_str(&v, a) || chars_eq_str(&v, b)
}

/// Checks settings before they are saved; the first value out of its allowed set is
/// refused with its message.
pub fn validate_app_settings(settings: &AppSettings) -> (r: Result<(), String>)
    ensures
        match settings_problem(*settings) {
            Some(m) => r matches Err(e) && e@ == m,
            None => r is Ok,
        },
{
    if !is_either(&settings.default_view_mode, "list", "grid") {
        return Err(string_from_str("默认视图只能是列表或网格"));
    }
    let key = chars_of(settings.default_sort_key.as_str());
    if !(chars_eq_str(&key, "name") || chars_eq_str(&key, "size") || chars_eq_str(&key, "modified")) {
        return Err(string_from_str("默认排序字段无效"));
    }
    if !is_either(&settings.default_sort_direction, "asc", "desc") {
        return Err(string_from_str("默认排序方向无效"));
    }
    if !(settings.page_size == 50 || settings.page_size == 100 || settings.page_size == 200) {
        return Err(string_from_str("分页数量只能是 50、100 或 200"));
    }
    if !(settings.refresh_interval_ms == 2000 || settings.refresh_interval_ms == 5000
        || settings.refresh_interval_ms == 10000) {
        return Err(string_from_str("刷新频率只能是 2、5 或 10 秒"));
    }
    if !is_either(&settings.density, "comfortable", "compact") {
        return Err(string_from_str("界面密度无效"));
    }
    if !is_either(&settings.file_size_unit, "binary", "decimal") {
        return Err(string_from_str("文件大小单位无效"));
    }
    if !is_either(&settings.date_format, "locale", "iso") {
        return Err(string_from_str("日期格式无效"));
    }
    Ok(())
}

/// The default settings are accepted as they are.
pub proof fn lemma_default_settings_are_valid(s: AppSettings)
    requires
        s.default_view_mode@ == "list"@,
        s.default_sort_key@ == "name"@,
        s.default_sort_direction@ == "asc"@,
        s.page_size == 100,
        s.refresh_interval_ms == 2000,
        s.density@ == "comfortable"@,
        s.file_size_unit@ == "binary"@,
        s.date_format@ == "locale"@,
    ensures
        settings_problem(s) is None,
{
}

} // verus!
