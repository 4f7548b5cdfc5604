use vrbag_s102::session::{
    ConversionSession, ExportRefusal, LoadedBag, ResolutionChoice, TaskEvent,
};
use vrbag_s102::ViewMode;

fn stated(c: ResolutionChoice) -> Option<String> {
    match c {
        ResolutionChoice::Automatic => None,
        ResolutionChoice::Stated(s) => Some(s),
    }
}

#[test]
fn new_session_defaults() {
    let s = ConversionSession::new();
    assert!(s.input_path.is_empty());
    assert!(s.output_path.is_empty());
    assert_eq!(s.resolutions.len(), 4);
    assert_eq!(s.resolutions[1], "0.50 m (原生網格階層)");
    assert_eq!(s.selected_res_idx, 0);
    assert!(s.auto_align_depth);
    assert_eq!(s.status_message, "狀態: 請選擇可變網格 NOAA .bag 格式檔案");
    assert_eq!(s.view_mode, ViewMode::Depth);
    assert!(!s.is_processing);
}

#[test]
fn resolution_choice() {
    let mut s = ConversionSession::new();
    assert_eq!(stated(s.selected_resolution()), None);
    s.selected_res_idx = 2;
    assert_eq!(stated(s.selected_resolution()), Some("1.00".to_string()));
    s.selected_res_idx = 9;
    assert_eq!(stated(s.selected_resolution()), None);
    s.resolutions = vec!["   ".to_string(), "  0.25\tm".to_string()];
    s.selected_res_idx = 0;
    assert_eq!(stated(s.selected_resolution()), None);
    s.selected_res_idx = 1;
    assert_eq!(stated(s.selected_resolution()), Some("0.25".to_string()));
    s.resolutions.clear();
    assert_eq!(stated(s.selected_resolution()), None);
}

#[test]
fn clamp_selection_resets_out_of_range() {
    let mut s = ConversionSession::new();
    s.selected_res_idx = 3;
    s.clamp_selection();
    assert_eq!(s.selected_res_idx, 3);
    s.selected_res_idx = 4;
    s.clamp_selection();
    assert_eq!(s.selected_res_idx, 0);
}

#[test]
fn export_needs_both_paths() {
    let mut s = ConversionSession::new();
    assert_eq!(s.begin_export(4326, 12).unwrap_err(), ExportRefusal::MissingInput);
    assert_eq!(s.status_message, "❌ 錯誤: 請先選擇來源 VR BAG 檔案！");
    assert!(!s.is_processing);
    s.input_path = "a.bag".to_string();
    assert_eq!(s.begin_export(4326, 12).unwrap_err(), ExportRefusal::MissingOutput);
    assert_eq!(s.status_message, "❌ 錯誤: 請先指定輸出 S-102 檔案路徑！");
    assert!(!s.is_processing);
    s.output_path = "b.h5".to_string();
    s.selected_res_idx = 3;
    let req = s.begin_export(26919, 10).unwrap();
    assert!(s.is_processing);
    assert_eq!(req.input_path, "a.bag");
    assert_eq!(req.output_path, "b.h5");
    assert_eq!(req.epsg_code, 26919);
    assert_eq!(req.vertical_datum_code, 10);
    assert!(req.auto_align_depth);
    assert_eq!(stated(req.resolution), Some("2.00".to_string()));
    assert_eq!(s.status_message, "⏳ 正在進行 Rayon 平行化降採樣與 S-102 HDF5 寫入，請稍候...");
}

#[test]
fn load_then_outcomes() {
    let mut s = ConversionSession::new();
    s.auto_align_depth = false;
    let req = s.begin_load("survey.bag".to_string());
    assert_eq!(req.path, "survey.bag");
    assert!(!req.auto_align_depth);
    assert!(s.input_path.is_empty());
    assert!(s.is_processing);
    s.selected_res_idx = 2;
    s.apply(TaskEvent::BagLoaded(Ok(LoadedBag {
        resolutions: vec!["自動".to_string(), "1.00 m".to_string()],
        status_message: "loaded".to_string(),
    })));
    assert!(!s.is_processing);
    assert_eq!(s.selected_res_idx, 0);
    assert_eq!(s.resolutions.len(), 2);
    assert_eq!(s.status_message, "loaded");

    s.begin_load("bad.bag".to_string());
    s.apply(TaskEvent::BagLoaded(Err("failed".to_string())));
    assert!(!s.is_processing);
    assert_eq!(s.resolutions.len(), 2);
    assert_eq!(s.status_message, "failed");

    s.is_processing = true;
    s.apply(TaskEvent::ExportFinished(Ok("done".to_string())));
    assert!(!s.is_processing);
    assert_eq!(s.status_message, "done");
    s.is_processing = true;
    s.apply(TaskEvent::ExportFinished(Err("write failed".to_string())));
    assert!(!s.is_processing);
    assert_eq!(s.status_message, "write failed");
}
