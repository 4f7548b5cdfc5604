//! The converter's session: the paths, resolution choice and status that the user interface
//! shows, and the decisions taken when a load or an export starts and when its outcome arrives.
//! The work itself (reading the BAG, writing the S-102 file) is done by the caller, which hands
//! the outcome back as a `TaskEvent`.

use vstd::prelude::*;
use crate::ViewMode;
use crate::text::{chars_of, first_word, first_word_bounds, has_prefix, range_starts_with};

verus! {

/// How the export resolution is to be found.
#[derive(Debug)]
pub enum ResolutionChoice {
    /// Use the finest resolution of the source (no usable number was chosen).
    Automatic,
    /// The leading word of the chosen entry, to be read as a number of metres.
    Stated(String),
}

/// What is needed to load a BAG.
#[derive(Debug)]
pub struct LoadRequest {
    pub path: String,
    pub auto_align_depth: bool,
}

/// What is needed to export an S-102 file.
#[derive(Debug)]
pub struct ExportRequest {
    pub input_path: String,
    pub output_path: String,
    pub resolution: ResolutionChoice,
    pub auto_align_depth: bool,
    pub epsg_code: i32,
    pub vertical_datum_code: i32,
}

/// Why an export did not start.
#[derive(PartialEq, Eq, Structural, Clone, Copy, Debug)]
pub enum ExportRefusal {
    MissingInput,
    MissingOutput,
}

/// A loaded BAG, as far as the session is concerned.
#[derive(Debug)]
pub struct LoadedBag {
    /// The resolutions offered for export.
    pub resolutions: Vec<String>,
    /// The message that reports the load.
    pub status_message: String,
}

/// The outcome of a load or an export, handed back when the work is done.
#[derive(Debug)]
pub enum TaskEvent {
    BagLoaded(Result<LoadedBag, String>),
    ExportFinished(Result<String, String>),
}

/// The state that the converter's window shows and the decisions it takes.
#[derive(Debug)]
pub struct ConversionSession {
    pub input_path: String,
    pub output_path: String,
    pub resolutions: Vec<String>,
    pub selected_res_idx: usize,
    pub auto_align_depth: bool,
    pub status_message: String,
    pub view_mode: ViewMode,
    pub is_processing: bool,
}

/// The characters of each string.
pub open spec fn texts(v: Seq<String>) -> Seq<Seq<char>> {
    v.map_values(|s: String| s@)
}

/// The resolution that entry `idx` of `resolutions` asks for: `None` (automatic) when there is
/// no such entry, when it starts with "自動", or when it has no word; else its first word.
pub open spec fn choice_of(resolutions: Seq<String>, idx: int) -> Option<Seq<char>> {
    if idx < 0 || idx >= resolutions.len() {
        None
    } else if has_prefix(resolutions[idx]@, "自動"@) {
        None
    } else {
        first_word(resolutions[idx]@)
    }
}

/// `c` is the choice that `spec` describes.
pub open spec fn choice_matches(c: ResolutionChoice, spec: Option<Seq<char>>) -> bool {
    match c {
        ResolutionChoice::Automatic => spec is None,
        ResolutionChoice::Stated(s) => spec == Some(s@),
    }
}

impl ConversionSession {
    /// The session of a freshly opened window.
    pub fn new() -> (s: Self)
        ensures
            s.input_path@.len() == 0,
            s.output_path@.len() == 0,
            texts(s.resolutions@) == seq![
                "自動 (取最佳原生地形網格)"@,
                "0.50 m (原生網格階層)"@,
                "1.00 m (原生網格階層)"@,
                "2.00 m (原生網格階層)"@,
            ],
            s.selected_res_idx == 0,
            s.auto_align_depth,
            s.status_message@ == "狀態: 請選擇可變網格 NOAA .bag 格式檔案"@,
            s.view_mode == ViewMode::Depth,
            !s.is_processing,
    {
        let resolutions = vec![
            "自動 (取最佳原生地形網格)".to_owned(),
            "0.50 m (原生網格階層)".to_owned(),
            "1.00 m (原生網格階層)".to_owned(),
            "2.00 m (原生網格階層)".to_owned(),
        ];
        let s = ConversionSession {
            input_path: String::new(),
            output_path: String::new(),
            resolutions,
            selected_res_idx: 0,
            auto_align_depth: true,
            status_message: "狀態: 請選擇可變網格 NOAA .bag 格式檔案".to_owned(),
            view_mode: ViewMode::Depth,
            is_processing: false,
        };
        assert(texts(s.resolutions@) =~= seq![
            "自動 (取最佳原生地形網格)"@,
            "0.50 m (原生網格階層)"@,
            "1.00 m (原生網格階層)"@,
            "2.00 m (原生網格階層)"@,
        ]);
        s
    }

    /// The export resolution that the selected entry asks for.
    pub fn selected_resolution(&self) -> (c: ResolutionChoice)
        ensures
            choice_matches(c, choice_of(self.resolutions@, self.selected_res_idx as int)),
    {
        if self.resolutions.len() == 0 || self.selected_res_idx >= self.resolutions.len() {
            return ResolutionChoice::Automatic;
        }
        let text = &self.resolutions[self.selected_res_idx];
        let t = chars_of(text.as_str());
        if range_starts_with(&t, 0, t.len(), "自動") {
            assert(t@.subrange(0, t@.len() as int) =~= t@);
            return ResolutionChoice::Automatic;
        }
        assert(t@.subrange(0, t@.len() as int) =~= t@);
        match first_word_bounds(&t) {
            None => ResolutionChoice::Automatic,
            Some((a, b)) => ResolutionChoice::Stated(text.as_str().substring_char(a, b).to_owned()),
        }
    }

    /// Brings a selection that points past the list back to the first entry.
    pub fn clamp_selection(&mut self)
        ensures
            final(self).selected_res_idx == (if old(self).selected_res_idx >= old(
                self,
            ).resolutions.len() {
                0
            } else {
                old(self).selected_res_idx
            }),
            final(self).resolutions == old(self).resolutions,
            final(self).input_path == old(self).input_path,
            final(self).output_path == old(self).output_path,
            final(self).auto_align_depth == old(self).auto_align_depth,
            final(self).status_message == old(self).status_message,
            final(self).view_mode == old(self).view_mode,
            final(self).is_processing == old(self).is_processing,
    {
        if self.selected_res_idx >= self.resolutions.len() {
            self.selected_res_idx = 0;
        }
    }

    /// Starts loading the BAG at `path`: the session is busy and says so.
    pub fn begin_load(&mut self, path: String) -> (req: LoadRequest)
        ensures
            req.path == path,
            req.auto_align_depth == old(self).auto_align_depth,
            final(self).input_path == old(self).input_path,
            final(self).is_processing,
            final(self).status_message@ == "⏳ 正在讀取並解析 VR BAG 檔案中，請稍候..."@,
            final(self).output_path == old(self).output_path,
            final(self).resolutions == old(self).resolutions,
            final(self).selected_res_idx == old(self).selected_res_idx,
            final(self).auto_align_depth == old(self).auto_align_depth,
            final(self).view_mode == old(self).view_mode,
    {
        self.is_processing = true;
        self.status_message = "⏳ 正在讀取並解析 VR BAG 檔案中，請稍候...".to_owned();
        LoadRequest { path, auto_align_depth: self.auto_align_depth }
    }

    /// Starts an export when both paths are set, taking the source's EPSG and vertical datum
    /// codes; otherwise says which path is missing and stays as it was, but for the message.
    pub fn begin_export(&mut self, epsg_code: i32, vertical_datum_code: i32) -> (r: Result<
        ExportRequest,
        ExportRefusal,
    >)
        ensures
            old(self).input_path@.len() == 0 ==> r == Err::<ExportRequest, ExportRefusal>(
                ExportRefusal::MissingInput,
            ) && final(self).status_message@ == "❌ 錯誤: 請先選擇來源 VR BAG 檔案！"@,
            old(self).input_path@.len() != 0 && old(self).output_path@.len() == 0 ==> r == Err::<
                ExportRequest,
                ExportRefusal,
            >(ExportRefusal::MissingOutput) && final(self).status_message@
                == "❌ 錯誤: 請先指定輸出 S-102 檔案路徑！"@,
            r is Err ==> final(self).is_processing == old(self).is_processing,
            r is Ok <==> old(self).input_path@.len() != 0 && old(self).output_path@.len() != 0,
            r matches Ok(req) ==> {
                &&& final(self).is_processing
                &&& final(self).status_message@
                    == "⏳ 正在進行 Rayon 平行化降採樣與 S-102 HDF5 寫入，請稍候..."@
                &&& req.input_path == old(self).input_path
                &&& req.output_path == old(self).output_path
                &&& choice_matches(
                    req.resolution,
                    choice_of(old(self).resolutions@, old(self).selected_res_idx as int),
                )
                &&& req.auto_align_depth == old(self).auto_align_depth
                &&& req.epsg_code == epsg_code
                &&& req.vertical_datum_code == vertical_datum_code
            },
            final(self).input_path == old(self).input_path,
            final(self).output_path == old(self).output_path,
            final(self).resolutions == old(self).resolutions,
            final(self).selected_res_idx == old(self).selected_res_idx,
            final(self).auto_align_depth == old(self).auto_align_depth,
            final(self).view_mode == old(self).view_mode,
    {
        if self.input_path.as_str().is_empty() {
            self.status_message = "❌ 錯誤: 請先選擇來源 VR BAG 檔案！".to_owned();
            return Err(ExportRefusal::MissingInput);
        }
        if self.output_path.as_str().is_empty() {
            self.status_message = "❌ 錯誤: 請先指定輸出 S-102 檔案路徑！".to_owned();
            return Err(ExportRefusal::MissingOutput);
        }
        self.is_processing = true;
        self.status_message = "⏳ 正在進行 Rayon 平行化降採樣與 S-102 HDF5 寫入，請稍候...".to_owned();
        let resolution = self.selected_resolution();
        Ok(
            ExportRequest {
                input_path: self.input_path.clone(),
                output_path: self.output_path.clone(),
                resolution,
                auto_align_depth: self.auto_align_depth,
                epsg_code,
                vertical_datum_code,
            },
        )
    }

    /// Takes in the outcome of a load or an export: the session is no longer busy and shows the
    /// outcome's message; a successful load also replaces the offered resolutions and selects
    /// the first.
    pub fn apply(&mut self, event: TaskEvent)
        ensures
            !final(self).is_processing,
            match event {
                TaskEvent::BagLoaded(Ok(bag)) => {
                    &&& final(self).resolutions == bag.resolutions
                    &&& final(self).selected_res_idx == 0
                    &&& final(self).status_message == bag.status_message
                },
                TaskEvent::BagLoaded(Err(msg)) => {
                    &&& final(self).resolutions == old(self).resolutions
                    &&& final(self).selected_res_idx == old(self).selected_res_idx
                    &&& final(self).status_message == msg
                },
                TaskEvent::ExportFinished(outcome) => {
                    &&& final(self).resolutions == old(self).resolutions
                    &&& final(self).selected_res_idx == old(self).selected_res_idx
                    &&& final(self).status_message == match outcome {
                        Ok(msg) => msg,
                        Err(msg) => msg,
                    }
                },
            },
            final(self).input_path == old(self).input_path,
            final(self).output_path == old(self).output_path,
            final(self).auto_align_depth == old(self).auto_align_depth,
            final(self).view_mode == old(self).view_mode,
    {
        self.is_processing = false;
        match event {
            TaskEvent::BagLoaded(Ok(bag)) => {
                self.resolutions = bag.resolutions;
                self.selected_res_idx = 0;
                self.status_message = bag.status_message;
            },
            TaskEvent::BagLoaded(Err(msg)) => {
                self.status_message = msg;
            },
            TaskEvent::ExportFinished(Ok(msg)) => {
                self.status_message = msg;
            },
            TaskEvent::ExportFinished(Err(msg)) => {
                self.status_message = msg;
            },
        }
    }
}

} // verus!
