//! The decisions behind the application's commands: which template names
//! are accepted, how a batch export counts and reports its files, the export
//! settings read from the configuration, the acceleration summary, and the
//! preview's size limit.
use vstd::prelude::*;
use crate::chars::{
    to_chars, from_chars, trim, spec_trim, split_char, spec_split, seq_views, append_str,
    usize_to_decimal, spec_decimal, parse_u32, spec_parse_u32, ascii_lower, spec_ascii_lower_seq,
    chars_eq_str,
};
use crate::accel::{GpuState, GpuInit, state_label, gpu_acceleration_status};
use crate::exif::ExifMap;
use crate::ini::lookup_entry;
use crate::listing::string_views;

verus! {

/// The name a new template is saved under: the request without surrounding
/// whitespace, refused where that is empty or holds a path separator.
pub open spec fn spec_template_name(name: Seq<char>) -> Option<Seq<char>> {
    let t = spec_trim(name);
    if t.len() == 0 || t.contains('/') || t.contains('\\') {
        None
    } else {
        Some(t)
    }
}

/// The message for a refused template name.
pub open spec fn invalid_template_name() -> Seq<char> {
    "模板名称无效"@
}

/// Checks the name of a template about to be created: see
/// `spec_template_name`.
pub fn template_name(name: &str) -> (r: Result<String, String>)
    ensures
        match r {
            Ok(t) => spec_template_name(name@) == Some(t@),
            Err(m) => spec_template_name(name@) is None && m@ == invalid_template_name(),
        },
{
    let t = trim(to_chars(name).as_slice());
    let mut i: usize = 0;
    while i < t.len()
        invariant
            i <= t.len(),
            t@ == spec_trim(name@),
            forall|k: int| 0 <= k < i ==> t@[k] != '/' && t@[k] != '\\',
        decreases t.len() - i,
    {
        if t[i] == '/' || t[i] == '\\' {
            proof {
                if t@[i as int] == '/' {
                    assert(t@.contains('/'));
                } else {
                    assert(t@.contains('\\'));
                }
            }
            return Err("模板名称无效".to_owned());
        }
        i = i + 1;
    }
    if t.len() == 0 {
        return Err("模板名称无效".to_owned());
    }
    Ok(from_chars(t.as_slice()))
}

/// What the application reports of blur acceleration.
#[derive(Debug)]
pub struct AccelerationSummary {
    /// Where blurs run: the GPU once it is validated, the CPU otherwise.
    pub backend: &'static str,
    /// The word for the state.
    pub state: &'static str,
    /// The adapter's name where the device came up.
    pub adapter: Option<String>,
    /// Whether results are known to match the CPU byte for byte.
    pub pixel_exact: bool,
    /// What the acceleration applies to.
    pub scope: &'static str,
}

/// The backend named for a state.
pub open spec fn backend_label(state: GpuState) -> Seq<char> {
    if state == GpuState::Validated {
        "GPU (DX12 compute)"@
    } else {
        "CPU"@
    }
}

/// The acceleration summary for a state and a device.
pub fn acceleration_summary(state: GpuState, init: &GpuInit) -> (r: AccelerationSummary)
    ensures
        r.backend@ == backend_label(state),
        r.state@ == state_label(state),
        match init {
            GpuInit::Ready(name) => r.adapter == Some(*name),
            _ => r.adapter is None,
        },
        r.pixel_exact == (state == GpuState::Validated),
        r.scope@ == "preview-and-export"@,
{
    let (label, adapter) = gpu_acceleration_status(state, init);
    let validated = state == GpuState::Validated;
    AccelerationSummary {
        backend: if validated { "GPU (DX12 compute)" } else { "CPU" },
        state: label,
        adapter,
        pixel_exact: validated,
        scope: "preview-and-export",
    }
}

/// How one file of a batch ended.
#[derive(PartialEq, Eq, Clone, Copy, Debug, Structural)]
pub enum ItemStatus {
    /// Rendered and saved.
    Success,
    /// Left alone: the output exists and may not be replaced.
    Skipped,
    /// Rendering or saving failed.
    Failure,
}

/// Whether a file is skipped: its output exists and overwriting is off.
pub fn should_skip(target_exists: bool, overwrite: bool) -> (r: bool)
    ensures
        r == (target_exists && !overwrite),
{
    target_exists && !overwrite
}

/// The word shown after a file is done.
pub open spec fn spec_status_label(status: ItemStatus) -> Seq<char> {
    match status {
        ItemStatus::Success => "完成"@,
        ItemStatus::Skipped => "跳过"@,
        ItemStatus::Failure => "失败"@,
    }
}

/// The word shown after a file is done.
pub fn status_label(status: ItemStatus) -> (r: &'static str)
    ensures
        r@ == spec_status_label(status),
{
    match status {
        ItemStatus::Success => "完成",
        ItemStatus::Skipped => "跳过",
        ItemStatus::Failure => "失败",
    }
}

/// The counts of a batch export.
#[derive(Debug, Clone, Copy)]
pub struct BatchProgress {
    /// Files selected.
    pub total: usize,
    /// Files done, whatever the outcome.
    pub processed: usize,
    /// Files saved.
    pub success: usize,
    /// Files that failed.
    pub failure: usize,
    /// Files skipped.
    pub skipped: usize,
}

/// A percentage of done files: 100 for an empty batch.
pub open spec fn spec_percent(done: int, total: int) -> int {
    if total == 0 {
        100
    } else {
        done * 100 / total
    }
}

impl BatchProgress {
    /// Every file done is counted under exactly one outcome, and no more
    /// files are done than were selected.
    pub open spec fn wf(&self) -> bool {
        &&& self.processed == self.success + self.failure + self.skipped
        &&& self.processed <= self.total
    }

    /// A batch of `total` files before any is done.
    pub fn start(total: usize) -> (r: BatchProgress)
        ensures
            r.wf(),
            r.total == total,
            r.processed == 0,
            r.success == 0,
            r.failure == 0,
            r.skipped == 0,
    {
        BatchProgress { total, processed: 0, success: 0, failure: 0, skipped: 0 }
    }

    /// Counts one more file as done with `status`.
    pub fn record(&mut self, status: ItemStatus)
        requires
            old(self).wf(),
            old(self).processed < old(self).total,
        ensures
            final(self).wf(),
            final(self).total == old(self).total,
            final(self).processed == old(self).processed + 1,
            final(self).success == old(self).success + (if status == ItemStatus::Success { 1int } else { 0int }),
            final(self).skipped == old(self).skipped + (if status == ItemStatus::Skipped { 1int } else { 0int }),
            final(self).failure == old(self).failure + (if status == ItemStatus::Failure { 1int } else { 0int }),
    {
        self.processed = self.processed + 1;
        match status {
            ItemStatus::Success => self.success = self.success + 1,
            ItemStatus::Skipped => self.skipped = self.skipped + 1,
            ItemStatus::Failure => self.failure = self.failure + 1,
        }
    }

    /// The share of files done, in whole percent.
    pub fn percent(&self) -> (r: usize)
        requires
            self.processed * 100 <= usize::MAX,
        ensures
            r == spec_percent(self.processed as int, self.total as int),
    {
        if self.total == 0 {
            100
        } else {
            self.processed * 100 / self.total
        }
    }
}

/// Within a batch, the share done never passes 100, and it is 100 once
/// every file is done.
pub proof fn law_percent_bounds(p: BatchProgress)
    requires
        p.wf(),
    ensures
        0 <= spec_percent(p.processed as int, p.total as int) <= 100,
        p.processed == p.total ==> spec_percent(p.processed as int, p.total as int) == 100,
{
    if p.total > 0 {
        let t = p.total as int;
        let d = p.processed as int;
        assert(0 <= d * 100 / t <= 100) by (nonlinear_arith)
            requires
                0 <= d <= t,
                t > 0,
        ;
        assert(d == t ==> d * 100 / t == 100) by (nonlinear_arith)
            requires
                t > 0,
        ;
    }
}

/// The message that opens a batch.
pub fn start_message(total: usize) -> (r: String)
    ensures
        r@ == "开始处理 "@ + spec_decimal(total as nat) + " 个文件"@,
{
    let mut v: Vec<char> = Vec::new();
    append_str(&mut v, "开始处理 ");
    append_str(&mut v, usize_to_decimal(total).as_str());
    append_str(&mut v, " 个文件");
    from_chars(v.as_slice())
}

/// The message shown while a file is worked on.
pub fn working_message(name: &str) -> (r: String)
    ensures
        r@ == "正在处理: "@ + name@,
{
    let mut v: Vec<char> = Vec::new();
    append_str(&mut v, "正在处理: ");
    append_str(&mut v, name);
    from_chars(v.as_slice())
}

/// The message shown once a file is done.
pub fn finished_message(status: ItemStatus, name: &str) -> (r: String)
    ensures
        r@ == spec_status_label(status) + ": "@ + name@,
{
    let mut v: Vec<char> = Vec::new();
    append_str(&mut v, status_label(status));
    append_str(&mut v, ": ");
    append_str(&mut v, name);
    from_chars(v.as_slice())
}

/// The message that closes a batch.
pub fn summary_message(p: &BatchProgress) -> (r: String)
    ensures
        r@ == "处理完成：成功 "@ + spec_decimal(p.success as nat) + "，跳过 "@ + spec_decimal(
            p.skipped as nat,
        ) + "，失败 "@ + spec_decimal(p.failure as nat),
{
    let mut v: Vec<char> = Vec::new();
    append_str(&mut v, "处理完成：成功 ");
    append_str(&mut v, usize_to_decimal(p.success).as_str());
    append_str(&mut v, "，跳过 ");
    append_str(&mut v, usize_to_decimal(p.skipped).as_str());
    append_str(&mut v, "，失败 ");
    append_str(&mut v, usize_to_decimal(p.failure).as_str());
    from_chars(v.as_slice())
}

/// The JPEG quality of an export: the configured value clamped to 1..=100.
pub fn export_quality(quality: i64) -> (r: u8)
    ensures
        r == (if quality < 1 { 1 } else if quality > 100 { 100 } else { quality }),
{
    if quality < 1 {
        1
    } else if quality > 100 {
        100
    } else {
        quality as u8
    }
}

/// The chroma subsampling code of an export: the configured value cut to
/// its low eight bits, as `as u8` cuts it.
pub fn export_subsampling(subsampling: i64) -> (r: u8)
    ensures
        r == subsampling as u8,
{
    subsampling as u8
}

/// The longest side of a preview, in pixels.
pub const PREVIEW_MAX_DIMENSION: u32 = 1600;

/// Whether a preview of an image of this size is scaled down.
pub fn preview_is_scaled(width: u32, height: u32) -> (r: bool)
    ensures
        r == (width > PREVIEW_MAX_DIMENSION || height > PREVIEW_MAX_DIMENSION),
{
    let largest = if width > height { width } else { height };
    largest > PREVIEW_MAX_DIMENSION
}

/// A dimension recorded in the EXIF fields: the field read as a `u32`, or
/// `fallback` where it is missing or not such a number.
pub open spec fn spec_exif_dimension(exif: Seq<(Seq<char>, Seq<char>)>, key: Seq<char>, fallback: u32) -> int {
    match lookup_entry(exif, key) {
        Some(v) => match spec_parse_u32(v) {
            Some(n) => n,
            None => fallback as int,
        },
        None => fallback as int,
    }
}

/// A dimension recorded in the EXIF fields: see `spec_exif_dimension`.
pub fn exif_dimension(exif: &ExifMap, key: &str, fallback: u32) -> (r: u32)
    ensures
        r == spec_exif_dimension(exif@, key@, fallback),
{
    match exif.get(key) {
        Some(v) => match parse_u32(to_chars(v.as_str()).as_slice()) {
            Some(n) => n,
            None => fallback,
        },
        None => fallback,
    }
}

/// The file suffixes listed in the configuration, separated by commas.
pub fn file_suffixes(setting: &str) -> (r: Vec<String>)
    ensures
        string_views(r@) == spec_split(setting@, ','),
{
    let pieces = split_char(to_chars(setting).as_slice(), ',');
    let mut r: Vec<String> = Vec::new();
    let mut i: usize = 0;
    while i < pieces.len()
        invariant
            i <= pieces.len(),
            string_views(r@) == seq_views(pieces@).take(i as int),
        decreases pieces.len() - i,
    {
        let ghost before = r@;
        let piece = from_chars(pieces[i].as_slice());
        r.push(piece);
        proof {
            assert(r@ == before.push(piece));
            assert(string_views(r@) =~= string_views(before).push(piece@));
            assert(seq_views(pieces@).take(i + 1) =~= seq_views(pieces@).take(i as int).push(pieces@[i as int]@));
        }
        i = i + 1;
    }
    proof {
        assert(seq_views(pieces@).take(pieces.len() as int) =~= seq_views(pieces@));
    }
    r
}

/// How an exported image is encoded.
#[derive(PartialEq, Eq, Clone, Copy, Debug, Structural)]
pub enum OutputFormat {
    Jpeg,
    Png,
}

/// The encoding an output path's extension asks for, compared without
/// regard to ASCII case: JPEG for `jpg` and `jpeg`, PNG for `png`.
pub open spec fn spec_output_format(extension: Seq<char>) -> Option<OutputFormat> {
    let e = spec_ascii_lower_seq(extension);
    if e == "jpg"@ || e == "jpeg"@ {
        Some(OutputFormat::Jpeg)
    } else if e == "png"@ {
        Some(OutputFormat::Png)
    } else {
        None
    }
}

/// The message for an output extension that cannot be written.
pub open spec fn unsupported_format(extension: Seq<char>) -> Seq<char> {
    "不支持的输出格式: "@ + spec_ascii_lower_seq(extension)
}

/// The encoding for an output path's extension (`None` where the path has
/// none): see `spec_output_format`; otherwise the message naming the
/// lower-case extension.
pub fn output_format(extension: Option<&str>) -> (r: Result<OutputFormat, String>)
    ensures
        match extension {
            Some(e) => match r {
                Ok(f) => spec_output_format(e@) == Some(f),
                Err(m) => spec_output_format(e@) is None && m@ == unsupported_format(e@),
            },
            None => r matches Err(m) && m@ == "不支持的输出格式: "@,
        },
{
    match extension {
        Some(e) => {
            let lower = ascii_lower(to_chars(e).as_slice());
            if chars_eq_str(lower.as_slice(), "jpg") || chars_eq_str(lower.as_slice(), "jpeg") {
                Ok(OutputFormat::Jpeg)
            } else if chars_eq_str(lower.as_slice(), "png") {
                Ok(OutputFormat::Png)
            } else {
                let mut v: Vec<char> = Vec::new();
                append_str(&mut v, "不支持的输出格式: ");
                let ghost head = v@;
                let mut i: usize = 0;
                while i < lower.len()
                    invariant
                        i <= lower.len(),
                        v@ == head + lower@.take(i as int),
                    decreases lower.len() - i,
                {
                    v.push(lower[i]);
                    i = i + 1;
                    proof {
                        assert(v@ =~= head + lower@.take(i as int));
                    }
                }
                proof {
                    assert(lower@.take(lower.len() as int) =~= lower@);
                }
                Err(from_chars(v.as_slice()))
            }
        },
        None => Err("不支持的输出格式: ".to_owned()),
    }
}

/// How much a JPEG export shares colour between neighbouring pixels.
#[derive(PartialEq, Eq, Clone, Copy, Debug, Structural)]
pub enum ChromaSampling {
    /// Every pixel keeps its own colour.
    Full,
    /// Pairs of pixels across share colour.
    Half,
    /// Squares of four pixels share colour.
    Quarter,
}

/// The sampling a subsampling code selects: 2 for quarter, 1 for half,
/// anything else for full.
pub fn chroma_sampling(code: u8) -> (r: ChromaSampling)
    ensures
        r == (if code == 2 { ChromaSampling::Quarter } else if code == 1 { ChromaSampling::Half } else { ChromaSampling::Full }),
{
    if code == 2 {
        ChromaSampling::Quarter
    } else if code == 1 {
        ChromaSampling::Half
    } else {
        ChromaSampling::Full
    }
}

/// Whether an extension names a HEIF photo, compared without regard to
/// ASCII case.
pub fn is_heif(extension: Option<&str>) -> (r: bool)
    ensures
        r == (extension matches Some(e) && (spec_ascii_lower_seq(e@) == "heic"@ || spec_ascii_lower_seq(e@) == "heif"@)),
{
    match extension {
        Some(e) => {
            let lower = ascii_lower(to_chars(e).as_slice());
            chars_eq_str(lower.as_slice(), "heic") || chars_eq_str(lower.as_slice(), "heif")
        },
        None => false,
    }
}

} // verus!
